//! The workspace that is open.
//!
//! A process has no workspace open until one is initialized with success;
//! from then on it has exactly one, which is the pair of the workspace's paths
//! and the handle of its metadata store. The two are set and replaced
//! together. The types of both belong to the caller.

use vstd::prelude::*;

verus! {

/// Why the open workspace could not be given.
#[derive(Debug, Clone, Copy, PartialEq, Eq, Structural)]
pub enum AppError {
    /// No workspace has been initialized with success yet.
    RootNotInitialized,
}

/// The settings that the metadata store of a workspace holds.
#[derive(Debug, Clone, PartialEq, Eq)]
pub struct AppSettings {
    pub root_path: String,
    pub locale: String,
}

/// What opening a workspace yields: its paths, the handle of its metadata
/// store, and the settings read back from that store.
pub struct Opened<P, D> {
    pub paths: P,
    pub db: D,
    pub settings: AppSettings,
}

/// The steps of initializing a workspace, which the caller carries out.
#[derive(Debug, Clone, Copy, PartialEq, Eq, Structural)]
pub enum InitStep {
    /// Derive the paths from the root and make sure the layout exists on disk.
    EnsureLayout,
    /// Bind the log sink to the operations log under the root.
    BindLog,
    /// Open or create the metadata store.
    OpenStore,
    /// Store the root path in the settings.
    SaveRootPath,
    /// Store the locale in the settings.
    SaveLocale,
    /// Read the settings back.
    ReadSettings,
    /// Hand the result to [`SharedState::initialize`].
    Install,
}

/// The step that follows `done` (the first one, where `done` is `None`), or
/// `None` behind the last. The locale is stored only where one was given.
pub open spec fn step_after(done: Option<InitStep>, has_locale: bool) -> Option<InitStep> {
    match done {
        None => Some(InitStep::EnsureLayout),
        Some(InitStep::EnsureLayout) => Some(InitStep::BindLog),
        Some(InitStep::BindLog) => Some(InitStep::OpenStore),
        Some(InitStep::OpenStore) => Some(InitStep::SaveRootPath),
        Some(InitStep::SaveRootPath) => if has_locale {
            Some(InitStep::SaveLocale)
        } else {
            Some(InitStep::ReadSettings)
        },
        Some(InitStep::SaveLocale) => Some(InitStep::ReadSettings),
        Some(InitStep::ReadSettings) => Some(InitStep::Install),
        Some(InitStep::Install) => None,
    }
}

/// The steps of an initialization in their order.
pub open spec fn init_plan(has_locale: bool) -> Seq<InitStep> {
    if has_locale {
        seq![
            InitStep::EnsureLayout,
            InitStep::BindLog,
            InitStep::OpenStore,
            InitStep::SaveRootPath,
            InitStep::SaveLocale,
            InitStep::ReadSettings,
            InitStep::Install,
        ]
    } else {
        seq![
            InitStep::EnsureLayout,
            InitStep::BindLog,
            InitStep::OpenStore,
            InitStep::SaveRootPath,
            InitStep::ReadSettings,
            InitStep::Install,
        ]
    }
}

/// The step to take once `done` has succeeded; `None` once the last has. A
/// step that fails ends the initialization: none follows it, and the state is
/// not touched.
pub fn next_step(done: Option<InitStep>, has_locale: bool) -> (r: Option<InitStep>)
    ensures
        r == step_after(done, has_locale),
{
    match done {
        None => Some(InitStep::EnsureLayout),
        Some(InitStep::EnsureLayout) => Some(InitStep::BindLog),
        Some(InitStep::BindLog) => Some(InitStep::OpenStore),
        Some(InitStep::OpenStore) => Some(InitStep::SaveRootPath),
        Some(InitStep::SaveRootPath) => if has_locale {
            Some(InitStep::SaveLocale)
        } else {
            Some(InitStep::ReadSettings)
        },
        Some(InitStep::SaveLocale) => Some(InitStep::ReadSettings),
        Some(InitStep::ReadSettings) => Some(InitStep::Install),
        Some(InitStep::Install) => None,
    }
}

/// [`next_step`] walks through [`init_plan`]: it starts with the first step
/// of the plan, goes from each step to the next, and ends behind the last.
pub proof fn lemma_steps_follow_plan(has_locale: bool, i: int)
    requires
        0 <= i < init_plan(has_locale).len(),
    ensures
        step_after(None, has_locale) == Some(init_plan(has_locale)[0]),
        step_after(Some(init_plan(has_locale)[i]), has_locale) == if i + 1 < init_plan(
            has_locale,
        ).len() {
            Some(init_plan(has_locale)[i + 1])
        } else {
            None
        },
{
}

/// An open workspace: its paths and the handle of its metadata store.
pub struct OpenRoot<P, D> {
    pub paths: P,
    pub db: D,
}

/// The open workspace of a process, if it has one.
pub struct SharedState<P, D> {
    inner: Option<OpenRoot<P, D>>,
}

impl<P, D> View for SharedState<P, D> {
    type V = Option<OpenRoot<P, D>>;

    closed spec fn view(&self) -> Option<OpenRoot<P, D>> {
        self.inner
    }
}

impl<P, D> SharedState<P, D> {
    /// The state of a process that has no workspace open.
    pub fn new() -> (r: Self)
        ensures
            r@ is None,
    {
        SharedState { inner: None }
    }

    /// What [`SharedState::paths`] gives in this state.
    pub open spec fn paths_spec(&self) -> Result<P, AppError> {
        match self@ {
            Some(open) => Ok(open.paths),
            None => Err(AppError::RootNotInitialized),
        }
    }

    /// What [`SharedState::db`] gives in this state.
    pub open spec fn db_spec(&self) -> Result<D, AppError> {
        match self@ {
            Some(open) => Ok(open.db),
            None => Err(AppError::RootNotInitialized),
        }
    }

    /// Ends an initialization. Where the workspace was opened, its paths and
    /// store become the open workspace, in place of the one before, and its
    /// settings are returned. Where opening failed, the error is returned and
    /// the workspace that was open, if any, stays open.
    pub fn initialize<E>(&mut self, opened: Result<Opened<P, D>, E>) -> (r: Result<AppSettings, E>)
        ensures
            match opened {
                Ok(o) => r == Ok::<AppSettings, E>(o.settings) && final(self)@ == Some(
                    (OpenRoot { paths: o.paths, db: o.db }),
                ),
                Err(e) => r == Err::<AppSettings, E>(e) && final(self)@ == old(self)@,
            },
    {
        match opened {
            Ok(o) => {
                self.inner = Some(OpenRoot { paths: o.paths, db: o.db });
                Ok(o.settings)
            },
            Err(e) => Err(e),
        }
    }

    /// The paths of the open workspace.
    pub fn paths(&self) -> (r: Result<&P, AppError>)
        ensures
            match r {
                Ok(p) => self.paths_spec() == Ok::<P, AppError>(*p),
                Err(e) => self.paths_spec() == Err::<P, AppError>(e),
            },
    {
        match &self.inner {
            Some(open) => Ok(&open.paths),
            None => Err(AppError::RootNotInitialized),
        }
    }

    /// The metadata store of the open workspace.
    pub fn db(&self) -> (r: Result<&D, AppError>)
        ensures
            match r {
                Ok(d) => self.db_spec() == Ok::<D, AppError>(*d),
                Err(e) => self.db_spec() == Err::<D, AppError>(e),
            },
    {
        match self.db_opt() {
            Some(d) => Ok(d),
            None => Err(AppError::RootNotInitialized),
        }
    }

    /// The metadata store of the open workspace, if there is one.
    pub fn db_opt(&self) -> (r: Option<&D>)
        ensures
            match r {
                Some(d) => self@ is Some && self@.unwrap().db == *d,
                None => self@ is None,
            },
    {
        match &self.inner {
            Some(open) => Some(&open.db),
            None => None,
        }
    }

    /// The settings of the open workspace, read from its store by `read`.
    /// With no workspace open there are no settings, which is no error, and
    /// `read` is not called.
    pub fn get_settings<E, F: FnOnce(&D) -> Result<AppSettings, E>>(&self, read: F) -> (r: Result<
        Option<AppSettings>,
        E,
    >)
        requires
            self@ is Some ==> read.requires((&self@.unwrap().db,)),
        ensures
            match self@ {
                None => r == Ok::<Option<AppSettings>, E>(None),
                Some(open) => match r {
                    Ok(found) => found is Some && read.ensures(
                        (&open.db,),
                        Ok::<AppSettings, E>(found.unwrap()),
                    ),
                    Err(e) => read.ensures((&open.db,), Err::<AppSettings, E>(e)),
                },
            },
    {
        match self.db_opt() {
            Some(d) => match read(d) {
                Ok(settings) => Ok(Some(settings)),
                Err(e) => Err(e),
            },
            None => Ok(None),
        }
    }
}

/// The accessors follow the state: with no workspace open, both fail with
/// [`AppError::RootNotInitialized`]; with one open, both succeed, with the
/// paths and the store that the last successful initialization installed.
pub proof fn lemma_accessors_follow_state<P, D>(state: SharedState<P, D>)
    ensures
        state@ is None <==> state.paths_spec() == Err::<P, AppError>(AppError::RootNotInitialized),
        state@ is None <==> state.db_spec() == Err::<D, AppError>(AppError::RootNotInitialized),
        state@ is Some ==> state.paths_spec() == Ok::<P, AppError>(state@.unwrap().paths),
        state@ is Some ==> state.db_spec() == Ok::<D, AppError>(state@.unwrap().db),
{
}

impl<P, D> Default for SharedState<P, D> {
    fn default() -> (r: Self)
        ensures
            r@ is None,
    {
        SharedState::new()
    }
}

} // verus!
