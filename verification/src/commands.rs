//! Opening a workspace as a whole: the state takes the workspace, and the
//! ledger takes note of how the attempt ended.

use crate::recents::{model, touch, touched, RecentStatus, RecentWorkspace, Timestamp};
use crate::state::{AppSettings, OpenRoot, Opened, SharedState};
use vstd::prelude::*;

verus! {

/// What a caller gets for a workspace that was opened.
#[derive(Debug, Clone, PartialEq, Eq)]
pub struct InitResult {
    pub settings: AppSettings,
}

/// Ends an attempt to open the workspace at `root_path`.
///
/// Where it was opened, it becomes the open workspace, the ledger records the
/// opening as [`RecentStatus::Okay`] with the locale of its settings, and the
/// settings are returned. Where it failed, the open workspace stays as it
/// was, the ledger records [`RecentStatus::InitFailed`] without a locale, and
/// the error is returned. The node count on record is left alone either way.
pub fn init_root<P, D, E>(
    state: &mut SharedState<P, D>,
    recents: &mut Vec<RecentWorkspace>,
    root_path: &str,
    opened: Result<Opened<P, D>, E>,
) -> (r: Result<InitResult, E>)
    ensures
        match opened {
            Ok(o) => {
                &&& r == Ok::<InitResult, E>(InitResult { settings: o.settings })
                &&& final(state)@ == Some(OpenRoot { paths: o.paths, db: o.db })
                &&& exists|now: Timestamp|
                    model(final(recents)@) == #[trigger] touched(
                        model(old(recents)@),
                        root_path@,
                        RecentStatus::Okay,
                        Some(o.settings.locale@),
                        None,
                        now,
                    )
            },
            Err(e) => {
                &&& r == Err::<InitResult, E>(e)
                &&& final(state)@ == old(state)@
                &&& exists|now: Timestamp|
                    model(final(recents)@) == #[trigger] touched(
                        model(old(recents)@),
                        root_path@,
                        RecentStatus::InitFailed,
                        None,
                        None,
                        now,
                    )
            },
        },
{
    match state.initialize(opened) {
        Ok(settings) => {
            let locale = settings.locale.clone();
            touch(recents, root_path, RecentStatus::Okay, Some(locale), None);
            Ok(InitResult { settings })
        },
        Err(e) => {
            touch(recents, root_path, RecentStatus::InitFailed, None, None);
            Err(e)
        },
    }
}

} // verus!
