//! The ledger of recently opened workspaces.
//!
//! A bounded record, ordered by recency with pinned workspaces first, keyed by
//! the normal form of the workspace path. The functions here compute on the
//! collection as a value; reading and writing the file that holds it is the
//! caller's part.

use crate::text::{
    chars_of, lemma_filter_step, long_path_prefix, lower, lower_chars, replace_char,
    replace_chars, same_chars, string_of, string_view, strip_leading, strip_leading_chars, trim, trim_chars,
};
use vstd::prelude::*;

verus! {

/// The number of records that the ledger keeps, unless pinned records alone
/// are more.
pub const MAX_RECENT: usize = 10;

/// How the last attempt to open a workspace ended, or what has been found
/// missing since.
#[derive(Debug, Clone, Copy, PartialEq, Eq, Structural)]
pub enum RecentStatus {
    Okay,
    MissingRoot,
    MissingStateDb,
    InitFailed,
}

/// A point in time: whole seconds since the Unix epoch and the nanoseconds
/// into that second.
#[derive(Debug, Clone, Copy, PartialEq, Eq, Structural)]
pub struct Timestamp {
    pub secs: i64,
    pub nanos: u32,
}

impl Timestamp {
    /// Whether `self` is later than `other`.
    pub open spec fn later_than(self, other: Timestamp) -> bool {
        self.secs > other.secs || (self.secs == other.secs && self.nanos > other.nanos)
    }

    /// Whether this is the epoch itself, which no opening of a workspace
    /// bears: it marks a time that was lost.
    pub open spec fn is_epoch(self) -> bool {
        self.secs == 0 && self.nanos == 0
    }

    /// Whether `self` is later than `other`.
    pub fn is_later_than(&self, other: &Timestamp) -> (r: bool)
        ensures
            r == self.later_than(*other),
    {
        self.secs > other.secs || (self.secs == other.secs && self.nanos > other.nanos)
    }
}

/// One workspace that was opened before.
#[derive(Debug, Clone, PartialEq, Eq)]
pub struct RecentWorkspace {
    pub path: String,
    pub last_opened_at: Timestamp,
    pub pinned: bool,
    pub last_status: RecentStatus,
    pub node_count: Option<u32>,
    pub locale: Option<String>,
}

/// The mathematical value of a [`RecentWorkspace`].
pub struct RecentView {
    pub path: Seq<char>,
    pub last_opened_at: Timestamp,
    pub pinned: bool,
    pub last_status: RecentStatus,
    pub node_count: Option<u32>,
    pub locale: Option<Seq<char>>,
}

impl View for RecentWorkspace {
    type V = RecentView;

    open spec fn view(&self) -> RecentView {
        RecentView {
            path: self.path@,
            last_opened_at: self.last_opened_at,
            pinned: self.pinned,
            last_status: self.last_status,
            node_count: self.node_count,
            locale: string_view(self.locale),
        }
    }
}

/// The values of a sequence of records.
pub open spec fn model(items: Seq<RecentWorkspace>) -> Seq<RecentView> {
    Seq::new(items.len(), |i: int| items[i]@)
}

/// The key under which the ledger holds a workspace path: surrounding white
/// space and leading long-path prefixes dropped, `/` turned into `\`, and all
/// of it in ASCII lower case.
pub open spec fn normal_path(path: Seq<char>) -> Seq<char> {
    lower(replace_char(strip_leading(trim(path), long_path_prefix()), '/', '\\'))
}

/// Whether `a` stands before `b` in the ledger: a pinned record before an
/// unpinned one, and of two alike the one opened later.
pub open spec fn precedes(a: RecentView, b: RecentView) -> bool {
    (a.pinned && !b.pinned) || (a.pinned == b.pinned && a.last_opened_at.later_than(
        b.last_opened_at,
    ))
}

/// The least index at or after `from` whose record `x` stands before, or the
/// length of `s`.
pub open spec fn rank_from(s: Seq<RecentView>, x: RecentView, from: int) -> int
    decreases s.len() - from,
{
    if from < 0 || from >= s.len() {
        s.len() as int
    } else if precedes(x, s[from]) {
        from
    } else {
        rank_from(s, x, from + 1)
    }
}

/// `s` with `x` put in behind every record that it does not stand before.
pub open spec fn placed(s: Seq<RecentView>, x: RecentView) -> Seq<RecentView> {
    s.insert(rank_from(s, x, 0), x)
}

/// The records of `s` in ledger order: pinned first, then by the time of
/// opening, latest first; records that neither stands before the other keep
/// the order they had in `s`.
pub open spec fn sorted(s: Seq<RecentView>) -> Seq<RecentView>
    decreases s.len(),
{
    if s.len() == 0 {
        s
    } else {
        placed(sorted(s.drop_last()), s.last())
    }
}

/// Whether no record of `s` stands before one that is ahead of it.
pub open spec fn ordered(s: Seq<RecentView>) -> bool {
    forall|i: int, j: int| 0 <= i < j < s.len() ==> !precedes(#[trigger] s[j], #[trigger] s[i])
}

/// [`rank_from`] gives the first record at or after `from` that `x` stands
/// before.
pub proof fn lemma_rank_from(s: Seq<RecentView>, x: RecentView, from: int)
    requires
        0 <= from <= s.len(),
    ensures
        from <= rank_from(s, x, from) <= s.len(),
        rank_from(s, x, from) < s.len() ==> precedes(x, s[rank_from(s, x, from)]),
        forall|k: int| from <= k < rank_from(s, x, from) ==> !precedes(x, #[trigger] s[k]),
    decreases s.len() - from,
{
    if from < s.len() && !precedes(x, s[from]) {
        lemma_rank_from(s, x, from + 1);
    }
}

/// Whether record `a` stands before record `b`.
fn stands_before(a: &RecentWorkspace, b: &RecentWorkspace) -> (r: bool)
    ensures
        r == precedes(a@, b@),
{
    (a.pinned && !b.pinned) || (a.pinned == b.pinned && a.last_opened_at.is_later_than(
        &b.last_opened_at,
    ))
}

/// Puts the records in ledger order: pinned first, then latest first, and
/// otherwise as they were.
pub fn sort_items(items: &mut Vec<RecentWorkspace>)
    ensures
        model(final(items)@) == sorted(model(old(items)@)),
{
    let ghost before = items@;
    let mut out: Vec<RecentWorkspace> = Vec::new();
    let mut taken: usize = 0;
    let total = items.len();
    while items.len() > 0
        invariant
            taken + items.len() == total,
            total == before.len(),
            items@ == before.skip(taken as int),
            model(out@) == sorted(model(before.take(taken as int))),
            out.len() == taken,
        decreases items.len(),
    {
        let x = items.remove(0);
        let mut j: usize = 0;
        while j < out.len() && !stands_before(&x, &out[j])
            invariant
                j <= out.len(),
                rank_from(model(out@), x@, 0) == rank_from(model(out@), x@, j as int),
            decreases out.len() - j,
        {
            j += 1;
        }
        proof {
            let done = model(before.take(taken as int));
            let more = model(before.take(taken + 1));
            assert(more.drop_last() =~= done);
            assert(more.last() == x@);
            assert(model(out@.insert(j as int, x)) =~= model(out@).insert(j as int, x@));
        }
        out.insert(j, x);
        taken += 1;
    }
    assert(before.take(taken as int) =~= before);
    *items = out;
}

/// The least index at or after `from` of a record with the key `key`, or the
/// length of `s`.
pub open spec fn position_from(s: Seq<RecentView>, key: Seq<char>, from: int) -> int
    decreases s.len() - from,
{
    if from < 0 || from >= s.len() {
        s.len() as int
    } else if normal_path(s[from].path) == key {
        from
    } else {
        position_from(s, key, from + 1)
    }
}

/// The record `old` after its workspace was opened again: path, time and
/// status are new; locale and node count are new where one is given.
pub open spec fn renewed(
    old: RecentView,
    path: Seq<char>,
    status: RecentStatus,
    locale: Option<Seq<char>>,
    node_count: Option<u32>,
    now: Timestamp,
) -> RecentView {
    RecentView {
        path,
        last_opened_at: now,
        pinned: old.pinned,
        last_status: status,
        node_count: if node_count is Some {
            node_count
        } else {
            old.node_count
        },
        locale: if locale is Some {
            locale
        } else {
            old.locale
        },
    }
}

/// The record of a workspace that the ledger did not hold: unpinned.
pub open spec fn created(
    path: Seq<char>,
    status: RecentStatus,
    locale: Option<Seq<char>>,
    node_count: Option<u32>,
    now: Timestamp,
) -> RecentView {
    RecentView { path, last_opened_at: now, pinned: false, last_status: status, node_count, locale }
}

/// `s` with the first record of the same key as `path` renewed, or with a new
/// record at the end where there is none.
pub open spec fn upserted(
    s: Seq<RecentView>,
    path: Seq<char>,
    status: RecentStatus,
    locale: Option<Seq<char>>,
    node_count: Option<u32>,
    now: Timestamp,
) -> Seq<RecentView> {
    let at = position_from(s, normal_path(path), 0);
    if at < s.len() {
        s.update(at, renewed(s[at], path, status, locale, node_count, now))
    } else {
        s.push(created(path, status, locale, node_count, now))
    }
}

/// How many records of `s`, taken from the front, stay when records leave
/// from the end as long as `s` is over the limit and its last one is unpinned.
pub open spec fn kept(s: Seq<RecentView>) -> int
    decreases s.len(),
{
    if s.len() > MAX_RECENT && !s.last().pinned {
        kept(s.drop_last())
    } else {
        s.len() as int
    }
}

/// `s` held to the limit: unchanged while it is within the limit; otherwise
/// in ledger order, without the unpinned records opened longest ago that are
/// over the limit.
pub open spec fn pruned(s: Seq<RecentView>) -> Seq<RecentView> {
    if s.len() <= MAX_RECENT {
        s
    } else {
        sorted(s).take(kept(sorted(s)))
    }
}

/// The ledger after the workspace at `path` was opened at `now`.
pub open spec fn touched(
    s: Seq<RecentView>,
    path: Seq<char>,
    status: RecentStatus,
    locale: Option<Seq<char>>,
    node_count: Option<u32>,
    now: Timestamp,
) -> Seq<RecentView> {
    sorted(pruned(upserted(s, path, status, locale, node_count, now)))
}

/// The test that a record has another key than `key`.
pub open spec fn keyed_otherwise(key: Seq<char>) -> spec_fn(RecentView) -> bool {
    |r: RecentView| normal_path(r.path) != key
}

/// The ledger without the records of the same key as `path`.
pub open spec fn removed(s: Seq<RecentView>, path: Seq<char>) -> Seq<RecentView> {
    sorted(s.filter(keyed_otherwise(normal_path(path))))
}

/// A record together with what was found on disk for it.
#[derive(Debug, Clone, PartialEq, Eq)]
pub struct Observed {
    pub record: RecentWorkspace,
    /// Whether the workspace's root directory exists.
    pub root_exists: bool,
    /// Whether the metadata store `meta/state.db` exists under that root.
    pub state_db_exists: bool,
}

/// The mathematical value of an [`Observed`].
pub struct ObservedView {
    pub record: RecentView,
    pub root_exists: bool,
    pub state_db_exists: bool,
}

impl View for Observed {
    type V = ObservedView;

    open spec fn view(&self) -> ObservedView {
        ObservedView {
            record: self.record@,
            root_exists: self.root_exists,
            state_db_exists: self.state_db_exists,
        }
    }
}

/// The status of a record given what exists on disk: a missing root, else a
/// missing metadata store, else the status on record. What is there is not
/// taken as a sign that the workspace opens.
pub open spec fn inferred(
    last_status: RecentStatus,
    root_exists: bool,
    state_db_exists: bool,
) -> RecentStatus {
    if !root_exists {
        RecentStatus::MissingRoot
    } else if !state_db_exists {
        RecentStatus::MissingStateDb
    } else {
        last_status
    }
}

/// The record of an observation, with the status that the observation gives.
pub open spec fn refreshed(o: ObservedView) -> RecentView {
    RecentView {
        last_status: inferred(o.record.last_status, o.root_exists, o.state_db_exists),
        ..o.record
    }
}

/// The records of the observations, each with its status brought up to date.
pub open spec fn refreshed_all(obs: Seq<ObservedView>) -> Seq<RecentView> {
    Seq::new(obs.len(), |i: int| refreshed(obs[i]))
}

/// What the ledger shows for the observations: the refreshed records in
/// ledger order.
pub open spec fn listed(obs: Seq<ObservedView>) -> Seq<RecentView> {
    sorted(refreshed_all(obs))
}

/// Whether an observation changes the status of its record.
pub open spec fn stale(o: ObservedView) -> bool {
    inferred(o.record.last_status, o.root_exists, o.state_db_exists) != o.record.last_status
}

/// Whether some observation changes the status of its record.
pub open spec fn any_stale(obs: Seq<ObservedView>) -> bool {
    exists|i: int| 0 <= i < obs.len() && stale(#[trigger] obs[i])
}

/// The values of a sequence of observations.
pub open spec fn observations(obs: Seq<Observed>) -> Seq<ObservedView> {
    Seq::new(obs.len(), |i: int| obs[i]@)
}

/// What [`list`] gives: the records to show, and whether the stored
/// collection is out of date and has to be written again.
#[derive(Debug, Clone, PartialEq, Eq)]
pub struct Listing {
    pub items: Vec<RecentWorkspace>,
    pub changed: bool,
}

/// What was found where the ledger is stored.
#[derive(Debug, Clone, PartialEq, Eq)]
pub enum Stored {
    /// There is no file.
    Missing,
    /// There is a file, and it does not hold a collection of records.
    Unparseable,
    /// The records that the file holds.
    Records(Vec<RecentWorkspace>),
}

/// A record as loaded: the epoch as time of opening marks a lost time and
/// gives way to `now`.
pub open spec fn repaired(r: RecentView, now: Timestamp) -> RecentView {
    if r.last_opened_at.is_epoch() {
        RecentView { last_opened_at: now, ..r }
    } else {
        r
    }
}

/// The collection that a stored ledger loads as at the time `now`: empty
/// where the file is missing or unreadable as a collection, else its records,
/// repaired.
pub open spec fn loaded(stored: Stored, now: Timestamp) -> Seq<RecentView> {
    match stored {
        Stored::Records(items) => Seq::new(items@.len(), |i: int| repaired(items@[i]@, now)),
        _ => Seq::empty(),
    }
}

fn normal_path_chars(path: &str) -> (r: Vec<char>)
    ensures
        r@ == normal_path(path@),
{
    let chars = chars_of(path);
    let trimmed = trim_chars(&chars);
    let prefix = chars_of("\\\\?\\");
    let stripped = strip_leading_chars(&trimmed, &prefix);
    let unified = replace_chars(&stripped, '/', '\\');
    lower_chars(&unified)
}

/// The key under which the ledger holds the workspace at `path`.
pub fn normalize_path(path: &str) -> (r: String)
    ensures
        r@ == normal_path(path@),
{
    string_of(&normal_path_chars(path))
}

/// The status of a record given whether its root directory and the metadata
/// store under it exist.
pub fn infer_status(item: &RecentWorkspace, root_exists: bool, state_db_exists: bool) -> (r:
    RecentStatus)
    ensures
        r == inferred(item@.last_status, root_exists, state_db_exists),
{
    if !root_exists {
        return RecentStatus::MissingRoot;
    }
    if !state_db_exists {
        return RecentStatus::MissingStateDb;
    }
    item.last_status
}

/// Holds the collection to the limit of [`MAX_RECENT`] records: while it is
/// over the limit, the unpinned record opened longest ago leaves. Pinned
/// records never leave, so a collection of pinned records may stay over the
/// limit.
pub fn prune(items: &mut Vec<RecentWorkspace>)
    ensures
        model(final(items)@) == pruned(model(old(items)@)),
{
    if items.len() <= MAX_RECENT {
        return ;
    }
    sort_items(items);
    let ghost full = model(items@);
    while items.len() > MAX_RECENT && !items[items.len() - 1].pinned
        invariant
            items.len() <= full.len(),
            model(items@) == full.take(items.len() as int),
            kept(full) == kept(model(items@)),
        decreases items.len(),
    {
        proof {
            assert(model(items@).drop_last() =~= full.take(items.len() - 1));
        }
        items.pop();
        proof {
            assert(model(items@) =~= full.take(items.len() as int));
        }
    }
}

/// The index of the first record with the key `key`, if there is one.
fn position(items: &Vec<RecentWorkspace>, key: &Vec<char>) -> (r: usize)
    ensures
        r == position_from(model(items@), key@, 0),
        r <= items.len(),
{
    let mut i: usize = 0;
    while i < items.len()
        invariant
            i <= items.len(),
            position_from(model(items@), key@, 0) == position_from(model(items@), key@, i as int),
        decreases items.len() - i,
    {
        let k = normal_path_chars(items[i].path.as_str());
        if same_chars(&k, key) {
            return i;
        }
        i += 1;
    }
    i
}

/// Enters into the ledger that the workspace at `path` was opened at `now`
/// and how that ended. A record of the same key is renewed in place: its
/// path, time and status are replaced, its locale and node count only where
/// one is given, and it stays pinned if it was. Otherwise a new, unpinned
/// record is added. The collection is then held to the limit and put in
/// ledger order.
pub fn touch_at(
    items: &mut Vec<RecentWorkspace>,
    path: &str,
    status: RecentStatus,
    locale: Option<String>,
    node_count: Option<u32>,
    now: Timestamp,
)
    ensures
        model(final(items)@) == touched(
            model(old(items)@),
            path@,
            status,
            string_view(locale),
            node_count,
            now,
        ),
{
    let key = normal_path_chars(path);
    let at = position(items, &key);
    let ghost before = model(items@);
    if at < items.len() {
        let mut record = items.remove(at);
        record.path = path.to_owned();
        record.last_opened_at = now;
        record.last_status = status;
        match locale {
            Some(l) => {
                record.locale = Some(l);
            },
            None => {},
        }
        match node_count {
            Some(n) => {
                record.node_count = Some(n);
            },
            None => {},
        }
        items.insert(at, record);
        assert(model(items@) =~= upserted(
            before,
            path@,
            status,
            string_view(locale),
            node_count,
            now,
        ));
    } else {
        items.push(
            RecentWorkspace {
                path: path.to_owned(),
                last_opened_at: now,
                pinned: false,
                last_status: status,
                node_count,
                locale,
            },
        );
        assert(model(items@) =~= upserted(
            before,
            path@,
            status,
            string_view(locale),
            node_count,
            now,
        ));
    }
    prune(items);
    sort_items(items);
}

/// Takes every record of the same key as `path` out of the ledger and puts
/// the rest in ledger order. Nothing is amiss where there is no such record.
pub fn remove(items: &mut Vec<RecentWorkspace>, path: &str)
    ensures
        model(final(items)@) == removed(model(old(items)@), path@),
{
    let key = normal_path_chars(path);
    let ghost orig = items@;
    let ghost before = model(orig);
    let ghost keep = keyed_otherwise(key@);
    let mut out: Vec<RecentWorkspace> = Vec::new();
    let mut taken: usize = 0;
    let total = items.len();
    proof {
        if before.len() > 0 {
            lemma_filter_step(before, keep, 0);
        }
        assert(before.take(0) =~= Seq::<RecentView>::empty());
    }
    while items.len() > 0
        invariant
            taken + items.len() == total,
            total == orig.len(),
            before == model(orig),
            keep == keyed_otherwise(key@),
            items@ == orig.skip(taken as int),
            model(out@) == before.take(taken as int).filter(keep),
        decreases items.len(),
    {
        let x = items.remove(0);
        proof {
            lemma_filter_step(before, keep, taken as int);
            assert(x@ == before[taken as int]);
        }
        let k = normal_path_chars(x.path.as_str());
        if !same_chars(&k, &key) {
            out.push(x);
            assert(model(out@) =~= before.take(taken as int).filter(keep).push(x@));
        }
        taken += 1;
    }
    assert(before.take(taken as int) =~= before);
    *items = out;
    sort_items(items);
}

/// What the ledger shows: every record with its status brought up to date
/// from what was found on disk for it, in ledger order; and whether any
/// status changed, so that the collection has to be stored again.
pub fn list(observed: Vec<Observed>) -> (r: Listing)
    ensures
        model(r.items@) == listed(observations(observed@)),
        r.changed == any_stale(observations(observed@)),
{
    let ghost orig = observed@;
    let ghost obs = observations(orig);
    let mut observed = observed;
    let mut items: Vec<RecentWorkspace> = Vec::new();
    let mut changed = false;
    let mut taken: usize = 0;
    let total = observed.len();
    while observed.len() > 0
        invariant
            taken + observed.len() == total,
            total == orig.len(),
            obs == observations(orig),
            observed@ == orig.skip(taken as int),
            items.len() == taken,
            forall|k: int| 0 <= k < taken ==> (#[trigger] items@[k])@ == refreshed(obs[k]),
            changed == any_stale(obs.take(taken as int)),
        decreases observed.len(),
    {
        let o = observed.remove(0);
        assert(o@ == obs[taken as int]);
        let status = infer_status(&o.record, o.root_exists, o.state_db_exists);
        let mut record = o.record;
        let ghost was = changed;
        if status != record.last_status {
            record.last_status = status;
            changed = true;
        }
        items.push(record);
        proof {
            let done = obs.take(taken as int);
            let more = obs.take(taken + 1);
            if any_stale(more) {
                let i = choose|i: int| 0 <= i < more.len() && stale(#[trigger] more[i]);
                if i < taken {
                    assert(stale(done[i]));
                }
            }
            if was {
                let i = choose|i: int| 0 <= i < done.len() && stale(#[trigger] done[i]);
                assert(stale(more[i]));
            }
            if stale(obs[taken as int]) {
                assert(stale(more[taken as int]));
            }
        }
        taken += 1;
    }
    assert(obs.take(taken as int) =~= obs);
    assert(model(items@) =~= refreshed_all(obs));
    sort_items(&mut items);
    Listing { items, changed }
}

/// The collection that a stored ledger loads as at the time `now`: empty
/// where there is no file or the file does not hold a collection; otherwise
/// its records, where the epoch as a time of opening gives way to `now`.
pub fn load_at(stored: Stored, now: Timestamp) -> (r: Vec<RecentWorkspace>)
    ensures
        model(r@) == loaded(stored, now),
{
    match stored {
        Stored::Records(items) => {
            let ghost orig = items@;
            let mut items = items;
            let mut out: Vec<RecentWorkspace> = Vec::new();
            let mut taken: usize = 0;
            let total = items.len();
            while items.len() > 0
                invariant
                    taken + items.len() == total,
                    total == orig.len(),
                    items@ == orig.skip(taken as int),
                    out.len() == taken,
                    forall|k: int|
                        0 <= k < taken ==> (#[trigger] out@[k])@ == repaired(orig[k]@, now),
                decreases items.len(),
            {
                let mut record = items.remove(0);
                assert(record == orig[taken as int]);
                if record.last_opened_at.secs == 0 && record.last_opened_at.nanos == 0 {
                    record.last_opened_at = now;
                }
                out.push(record);
                taken += 1;
            }
            assert(model(out@) =~= loaded(stored, now));
            out
        },
        _ => Vec::new(),
    }
}

/// `chrono::Utc::now` reads the system clock; `timestamp` and
/// `timestamp_subsec_nanos` give its seconds since the Unix epoch and the
/// nanoseconds into that second. Nothing is claimed of the time that comes
/// back. The call stops the program where the system clock stands before the
/// epoch.
#[verifier::external_body]
fn current_time() -> (now: Timestamp) {
    let t = chrono::Utc::now();
    Timestamp { secs: t.timestamp(), nanos: t.timestamp_subsec_nanos() }
}

/// [`touch_at`] at the time that the system clock gives.
pub fn touch(
    items: &mut Vec<RecentWorkspace>,
    path: &str,
    status: RecentStatus,
    locale: Option<String>,
    node_count: Option<u32>,
)
    ensures
        exists|now: Timestamp|
            model(final(items)@) == #[trigger] touched(
                model(old(items)@),
                path@,
                status,
                string_view(locale),
                node_count,
                now,
            ),
{
    let now = current_time();
    touch_at(items, path, status, locale, node_count, now);
}

/// [`load_at`] at the time that the system clock gives.
pub fn load(stored: Stored) -> (r: Vec<RecentWorkspace>)
    ensures
        exists|now: Timestamp| model(r@) == #[trigger] loaded(stored, now),
{
    let now = current_time();
    load_at(stored, now)
}

} // verus!
