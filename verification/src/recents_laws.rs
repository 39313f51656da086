//! What holds of the ledger of recently opened workspaces: its order, its
//! limit, and its keys.

use crate::recents::{
    any_stale, created, kept, keyed_otherwise, lemma_rank_from, listed, loaded, normal_path,
    ordered, placed, position_from, precedes, pruned, rank_from, refreshed_all, removed, renewed,
    sorted, touched, upserted, ObservedView, RecentStatus, RecentView, Stored, Timestamp,
    MAX_RECENT,
};
use crate::text::lemma_filter_all;
use vstd::prelude::*;
use vstd::seq_lib::{to_multiset_build, to_multiset_insert};

verus! {

/// Whether neither of two records stands before the other.
pub open spec fn tied(a: RecentView, b: RecentView) -> bool {
    !precedes(a, b) && !precedes(b, a)
}

/// The test that a record is tied with `x`.
pub open spec fn tied_with(x: RecentView) -> spec_fn(RecentView) -> bool {
    |r: RecentView| tied(r, x)
}

/// Putting a record into an ordered sequence leaves it ordered.
pub proof fn lemma_placed_ordered(s: Seq<RecentView>, x: RecentView)
    requires
        ordered(s),
    ensures
        ordered(placed(s, x)),
{
    let at = rank_from(s, x, 0);
    lemma_rank_from(s, x, 0);
    let t = placed(s, x);
    assert forall|i: int, j: int| 0 <= i < j < t.len() implies !precedes(
        #[trigger] t[j],
        #[trigger] t[i],
    ) by {
        if j < at {
            assert(t[i] == s[i] && t[j] == s[j]);
        } else if j == at {
            assert(t[i] == s[i]);
        } else if i < at {
            assert(t[i] == s[i] && t[j] == s[j - 1]);
        } else if i == at {
            assert(t[j] == s[j - 1]);
            if j - 1 > at {
                assert(!precedes(s[j - 1], s[at]));
            }
        } else {
            assert(t[i] == s[i - 1] && t[j] == s[j - 1]);
        }
    }
}

/// The ledger order is an order: no record of a sorted sequence stands before
/// one that is ahead of it.
pub proof fn lemma_sorted_ordered(s: Seq<RecentView>)
    ensures
        ordered(sorted(s)),
    decreases s.len(),
{
    if s.len() > 0 {
        lemma_sorted_ordered(s.drop_last());
        lemma_placed_ordered(sorted(s.drop_last()), s.last());
    }
}

/// Sorting neither adds nor drops a record.
pub proof fn lemma_sorted_permutes(s: Seq<RecentView>)
    ensures
        sorted(s).to_multiset() == s.to_multiset(),
        sorted(s).len() == s.len(),
    decreases s.len(),
{
    if s.len() > 0 {
        let d = s.drop_last();
        let x = s.last();
        lemma_sorted_permutes(d);
        lemma_rank_from(sorted(d), x, 0);
        to_multiset_insert(sorted(d), rank_from(sorted(d), x, 0), x);
        to_multiset_build(d, x);
        assert(d.push(x) =~= s);
    }
}

/// Sorting keeps the records of a sequence: each record of the one is a
/// record of the other.
pub proof fn lemma_sorted_contains(s: Seq<RecentView>, r: RecentView)
    ensures
        sorted(s).contains(r) <==> s.contains(r),
{
    lemma_sorted_permutes(s);
    vstd::seq_lib::to_multiset_contains(s, r);
    vstd::seq_lib::to_multiset_contains(sorted(s), r);
}

/// Sorting is stable: records of which neither stands before the other keep
/// the order that they had.
pub proof fn lemma_sorted_stable(s: Seq<RecentView>, x: RecentView)
    ensures
        sorted(s).filter(tied_with(x)) == s.filter(tied_with(x)),
    decreases s.len(),
{
    let keep = tied_with(x);
    if s.len() > 0 {
        let d = s.drop_last();
        let y = s.last();
        let t = sorted(d);
        let at = rank_from(t, y, 0);
        lemma_sorted_stable(d, x);
        lemma_sorted_ordered(d);
        lemma_rank_from(t, y, 0);
        let head = t.take(at);
        let tail = t.skip(at);
        assert(t =~= head + tail);
        assert(placed(t, y) =~= head.push(y) + tail);
        Seq::filter_distributes_over_add(head, tail, keep);
        Seq::filter_distributes_over_add(head.push(y), tail, keep);
        head.lemma_filter_push(y, keep);
        d.lemma_filter_push(y, keep);
        assert(d.push(y) =~= s);
        if keep(y) {
            assert forall|k: int| 0 <= k < tail.len() implies !keep(#[trigger] tail[k]) by {
                assert(tail[k] == t[at + k]);
                assert(precedes(y, t[at]));
                if k > 0 {
                    assert(!precedes(t[at + k], t[at]));
                }
            }
            tail.lemma_all_neg_filter_empty(keep);
            assert(tail.filter(keep) =~= Seq::<RecentView>::empty());
            assert(head.filter(keep) + tail.filter(keep) =~= head.filter(keep));
            assert(head.filter(keep).push(y) + tail.filter(keep) =~= head.filter(keep).push(y));
        }
    } else {
        assert(sorted(s) =~= s);
    }
}

/// In ledger order the pinned records come first.
pub proof fn lemma_ordered_pinned_first(s: Seq<RecentView>, i: int, j: int)
    requires
        ordered(s),
        0 <= i <= j < s.len(),
        s[j].pinned,
    ensures
        s[i].pinned,
{
    if i < j {
        assert(!precedes(s[j], s[i]));
    }
}

/// What stays of a sequence that is over the limit: at least as many records
/// as the limit allows; every record that leaves is unpinned; and more than
/// the limit stay only where the last that stays is pinned.
pub proof fn lemma_kept(s: Seq<RecentView>)
    ensures
        s.len() <= MAX_RECENT ==> kept(s) == s.len(),
        s.len() > MAX_RECENT ==> MAX_RECENT <= kept(s) <= s.len(),
        forall|i: int| kept(s) <= i < s.len() ==> !(#[trigger] s[i]).pinned,
        kept(s) > MAX_RECENT ==> s[kept(s) - 1].pinned,
    decreases s.len(),
{
    if s.len() > MAX_RECENT && !s.last().pinned {
        lemma_kept(s.drop_last());
        assert forall|i: int| kept(s) <= i < s.len() implies !(#[trigger] s[i]).pinned by {
            if i < s.len() - 1 {
                assert(s.drop_last()[i] == s[i]);
            }
        }
    }
}

/// The ledger is bounded: a pruned collection that is over the limit holds
/// pinned records only.
pub proof fn lemma_pruned_over_limit(s: Seq<RecentView>, i: int)
    requires
        pruned(s).len() > MAX_RECENT,
        0 <= i < pruned(s).len(),
    ensures
        pruned(s)[i].pinned,
{
    let t = sorted(s);
    lemma_kept(t);
    lemma_sorted_ordered(s);
    lemma_sorted_permutes(s);
    lemma_ordered_pinned_first(t, i, kept(t) - 1);
}

/// Pruning goes down to the limit and not below it.
pub proof fn lemma_pruned_len(s: Seq<RecentView>)
    ensures
        s.len() <= MAX_RECENT ==> pruned(s) == s,
        s.len() > MAX_RECENT ==> MAX_RECENT <= pruned(s).len() <= s.len(),
{
    lemma_kept(sorted(s));
    lemma_sorted_permutes(s);
}

/// A pinned record is never pruned.
pub proof fn lemma_pruned_keeps_pinned(s: Seq<RecentView>, r: RecentView)
    requires
        s.contains(r),
        r.pinned,
    ensures
        pruned(s).contains(r),
{
    if s.len() > MAX_RECENT {
        let t = sorted(s);
        lemma_sorted_contains(s, r);
        lemma_kept(t);
        let i = choose|i: int| 0 <= i < t.len() && t[i] == r;
        assert(i < kept(t));
        assert(t.take(kept(t))[i] == r);
    }
}

/// Pruning only drops records: what it leaves was there before.
pub proof fn lemma_pruned_contains(s: Seq<RecentView>, r: RecentView)
    requires
        pruned(s).contains(r),
    ensures
        s.contains(r),
{
    if s.len() > MAX_RECENT {
        let t = sorted(s);
        lemma_kept(t);
        lemma_sorted_permutes(s);
        let i = choose|i: int| 0 <= i < pruned(s).len() && pruned(s)[i] == r;
        assert(t[i] == r);
        lemma_sorted_contains(s, r);
    }
}

/// The records that pruning drops are those opened longest ago: the pruned
/// collection is the front of the sorted one, so that no record that left
/// stands before one that stayed.
pub proof fn lemma_pruned_drops_oldest(s: Seq<RecentView>, i: int, j: int)
    requires
        s.len() > MAX_RECENT,
        0 <= i < pruned(s).len() <= j < s.len(),
    ensures
        pruned(s) == sorted(s).take(pruned(s).len() as int),
        pruned(s)[i] == sorted(s)[i],
        !sorted(s)[j].pinned,
        !precedes(sorted(s)[j], sorted(s)[i]),
{
    let t = sorted(s);
    lemma_kept(t);
    lemma_sorted_ordered(s);
    lemma_sorted_permutes(s);
}

/// Of unpinned records, exactly as many stay as the limit allows.
pub proof fn lemma_pruned_all_unpinned(s: Seq<RecentView>)
    requires
        forall|i: int| 0 <= i < s.len() ==> !(#[trigger] s[i]).pinned,
        s.len() > MAX_RECENT,
    ensures
        pruned(s) == sorted(s).take(MAX_RECENT as int),
        pruned(s).len() == MAX_RECENT,
{
    let t = sorted(s);
    lemma_kept(t);
    lemma_sorted_permutes(s);
    if kept(t) > MAX_RECENT {
        let r = t[kept(t) - 1];
        assert(t.contains(r));
        lemma_sorted_contains(s, r);
        let i = choose|i: int| 0 <= i < s.len() && s[i] == r;
        assert(!s[i].pinned);
    }
}

/// Pinned records all stay, however many they are.
pub proof fn lemma_pruned_all_pinned(s: Seq<RecentView>)
    requires
        forall|i: int| 0 <= i < s.len() ==> (#[trigger] s[i]).pinned,
        s.len() > MAX_RECENT,
    ensures
        pruned(s) == sorted(s),
        pruned(s).len() == s.len(),
{
    let t = sorted(s);
    lemma_kept(t);
    lemma_sorted_permutes(s);
    if kept(t) < t.len() {
        let r = t[kept(t)];
        assert(t.contains(r));
        lemma_sorted_contains(s, r);
        let i = choose|i: int| 0 <= i < s.len() && s[i] == r;
        assert(s[i].pinned);
    }
    assert(t.take(t.len() as int) =~= t);
}

/// The key under which the ledger holds a record.
pub open spec fn key_of(r: RecentView) -> Seq<char> {
    normal_path(r.path)
}

/// Whether no two records of `s` have the same key.
pub open spec fn unique_keys(s: Seq<RecentView>) -> bool {
    forall|i: int, j: int|
        0 <= i < j < s.len() ==> key_of(#[trigger] s[i]) != key_of(#[trigger] s[j])
}

/// Whether `s` holds a record with the key `key`.
pub open spec fn has_key(s: Seq<RecentView>, key: Seq<char>) -> bool {
    exists|i: int| 0 <= i < s.len() && key_of(#[trigger] s[i]) == key
}

/// The record that an opening of `path` leaves in the ledger `s`, before the
/// ledger is pruned.
pub open spec fn entered(
    s: Seq<RecentView>,
    path: Seq<char>,
    status: RecentStatus,
    locale: Option<Seq<char>>,
    node_count: Option<u32>,
    now: Timestamp,
) -> RecentView {
    let at = position_from(s, normal_path(path), 0);
    if at < s.len() {
        renewed(s[at], path, status, locale, node_count, now)
    } else {
        created(path, status, locale, node_count, now)
    }
}

/// [`position_from`] gives the first record at or after `from` with the key
/// `key`.
pub proof fn lemma_position_from(s: Seq<RecentView>, key: Seq<char>, from: int)
    requires
        0 <= from <= s.len(),
    ensures
        from <= position_from(s, key, from) <= s.len(),
        position_from(s, key, from) < s.len() ==> key_of(s[position_from(s, key, from)]) == key,
        forall|k: int| from <= k < position_from(s, key, from) ==> key_of(#[trigger] s[k]) != key,
    decreases s.len() - from,
{
    if from < s.len() && normal_path(s[from].path) != key {
        lemma_position_from(s, key, from + 1);
    }
}

/// Entering an opening into a ledger of unique keys leaves the keys unique,
/// and leaves exactly the record [`entered`] under the key of the path.
pub proof fn lemma_upserted_unique(
    s: Seq<RecentView>,
    path: Seq<char>,
    status: RecentStatus,
    locale: Option<Seq<char>>,
    node_count: Option<u32>,
    now: Timestamp,
)
    requires
        unique_keys(s),
    ensures
        unique_keys(upserted(s, path, status, locale, node_count, now)),
        upserted(s, path, status, locale, node_count, now).contains(
            entered(s, path, status, locale, node_count, now),
        ),
        forall|i: int|
            #![trigger upserted(s, path, status, locale, node_count, now)[i]]
            0 <= i < upserted(s, path, status, locale, node_count, now).len() && key_of(
                upserted(s, path, status, locale, node_count, now)[i],
            ) == normal_path(path) ==> upserted(s, path, status, locale, node_count, now)[i]
                == entered(s, path, status, locale, node_count, now),
{
    let key = normal_path(path);
    let at = position_from(s, key, 0);
    let u = upserted(s, path, status, locale, node_count, now);
    let e = entered(s, path, status, locale, node_count, now);
    lemma_position_from(s, key, 0);
    assert(key_of(e) == key);
    if at < s.len() {
        assert(u[at] == e);
        assert forall|i: int, j: int| 0 <= i < j < u.len() implies key_of(#[trigger] u[i])
            != key_of(#[trigger] u[j]) by {
            assert(key_of(u[i]) == key_of(s[i]));
            assert(key_of(u[j]) == key_of(s[j]));
        }
        assert forall|i: int| 0 <= i < u.len() && key_of(#[trigger] u[i]) == key implies u[i]
            == e by {
            if i != at {
                assert(key_of(u[i]) == key_of(s[i]));
                if i < at {
                    assert(key_of(s[i]) != key_of(s[at]));
                } else {
                    assert(key_of(s[at]) != key_of(s[i]));
                }
            }
        }
    } else {
        assert(u[s.len() as int] == e);
        assert forall|i: int, j: int| 0 <= i < j < u.len() implies key_of(#[trigger] u[i])
            != key_of(#[trigger] u[j]) by {
            assert(u[i] == s[i]);
            if j < s.len() {
                assert(u[j] == s[j]);
            }
        }
        assert forall|i: int| 0 <= i < u.len() && key_of(#[trigger] u[i]) == key implies u[i]
            == e by {
            if i < s.len() {
                assert(u[i] == s[i]);
            }
        }
    }
}

/// The front of a ledger of unique keys has unique keys.
pub proof fn lemma_take_unique(s: Seq<RecentView>, n: int)
    requires
        unique_keys(s),
        0 <= n <= s.len(),
    ensures
        unique_keys(s.take(n)),
{
    let t = s.take(n);
    assert forall|i: int, j: int| 0 <= i < j < t.len() implies key_of(#[trigger] t[i]) != key_of(
        #[trigger] t[j],
    ) by {
        assert(t[i] == s[i] && t[j] == s[j]);
    }
}

/// Sorting a ledger of unique keys leaves the keys unique.
pub proof fn lemma_sorted_unique(s: Seq<RecentView>)
    requires
        unique_keys(s),
    ensures
        unique_keys(sorted(s)),
    decreases s.len(),
{
    if s.len() > 0 {
        let d = s.drop_last();
        let x = s.last();
        let t = sorted(d);
        let at = rank_from(t, x, 0);
        assert forall|i: int, j: int| 0 <= i < j < d.len() implies key_of(#[trigger] d[i])
            != key_of(#[trigger] d[j]) by {
            assert(d[i] == s[i] && d[j] == s[j]);
        }
        lemma_sorted_unique(d);
        lemma_rank_from(t, x, 0);
        assert forall|i: int| 0 <= i < t.len() implies key_of(#[trigger] t[i]) != key_of(x) by {
            assert(t.contains(t[i]));
            lemma_sorted_contains(d, t[i]);
            let j = choose|j: int| 0 <= j < d.len() && d[j] == t[i];
            assert(d[j] == s[j]);
            assert(key_of(s[j]) != key_of(s[s.len() - 1]));
        }
        let p = placed(t, x);
        assert forall|i: int, j: int| 0 <= i < j < p.len() implies key_of(#[trigger] p[i])
            != key_of(#[trigger] p[j]) by {
            if j < at {
                assert(p[i] == t[i] && p[j] == t[j]);
            } else if j == at {
                assert(p[i] == t[i]);
            } else if i < at {
                assert(p[i] == t[i] && p[j] == t[j - 1]);
            } else if i == at {
                assert(p[j] == t[j - 1]);
            } else {
                assert(p[i] == t[i - 1] && p[j] == t[j - 1]);
            }
        }
    }
}

/// Pruning a ledger of unique keys leaves the keys unique.
pub proof fn lemma_pruned_unique(s: Seq<RecentView>)
    requires
        unique_keys(s),
    ensures
        unique_keys(pruned(s)),
{
    if s.len() > MAX_RECENT {
        lemma_sorted_unique(s);
        lemma_sorted_permutes(s);
        lemma_kept(sorted(s));
        lemma_take_unique(sorted(s), kept(sorted(s)));
    }
}

/// No workspace is in the ledger twice: opening a workspace leaves the keys
/// of a ledger unique.
pub proof fn lemma_touched_unique(
    s: Seq<RecentView>,
    path: Seq<char>,
    status: RecentStatus,
    locale: Option<Seq<char>>,
    node_count: Option<u32>,
    now: Timestamp,
)
    requires
        unique_keys(s),
    ensures
        unique_keys(touched(s, path, status, locale, node_count, now)),
{
    let u = upserted(s, path, status, locale, node_count, now);
    lemma_upserted_unique(s, path, status, locale, node_count, now);
    lemma_pruned_unique(u);
    lemma_sorted_unique(pruned(u));
}

/// What the ledger holds for a workspace is what its last opening left: a
/// record of the ledger that has the key of the path just opened is the
/// record [`entered`], with the path, time and status of that opening.
pub proof fn lemma_touched_record(
    s: Seq<RecentView>,
    path: Seq<char>,
    status: RecentStatus,
    locale: Option<Seq<char>>,
    node_count: Option<u32>,
    now: Timestamp,
    i: int,
)
    requires
        unique_keys(s),
        0 <= i < touched(s, path, status, locale, node_count, now).len(),
        key_of(touched(s, path, status, locale, node_count, now)[i]) == normal_path(path),
    ensures
        touched(s, path, status, locale, node_count, now)[i] == entered(
            s,
            path,
            status,
            locale,
            node_count,
            now,
        ),
        touched(s, path, status, locale, node_count, now)[i].path == path,
        touched(s, path, status, locale, node_count, now)[i].last_status == status,
        touched(s, path, status, locale, node_count, now)[i].last_opened_at == now,
{
    let u = upserted(s, path, status, locale, node_count, now);
    let r = touched(s, path, status, locale, node_count, now)[i];
    lemma_upserted_unique(s, path, status, locale, node_count, now);
    assert(sorted(pruned(u)).contains(r));
    lemma_sorted_contains(pruned(u), r);
    lemma_pruned_contains(u, r);
    let j = choose|j: int| 0 <= j < u.len() && u[j] == r;
    assert(u[j] == entered(s, path, status, locale, node_count, now));
}

/// An opening is on record where the ledger has room for it or has it
/// pinned: the record [`entered`] is then in the ledger.
pub proof fn lemma_touched_present(
    s: Seq<RecentView>,
    path: Seq<char>,
    status: RecentStatus,
    locale: Option<Seq<char>>,
    node_count: Option<u32>,
    now: Timestamp,
)
    requires
        unique_keys(s),
        upserted(s, path, status, locale, node_count, now).len() <= MAX_RECENT || entered(
            s,
            path,
            status,
            locale,
            node_count,
            now,
        ).pinned,
    ensures
        touched(s, path, status, locale, node_count, now).contains(
            entered(s, path, status, locale, node_count, now),
        ),
{
    let u = upserted(s, path, status, locale, node_count, now);
    let e = entered(s, path, status, locale, node_count, now);
    lemma_upserted_unique(s, path, status, locale, node_count, now);
    if u.len() > MAX_RECENT {
        lemma_pruned_keeps_pinned(u, e);
    }
    lemma_sorted_contains(pruned(u), e);
}

/// The ledger stays bounded: after an opening it is within the limit, or it
/// holds pinned records only.
pub proof fn lemma_touched_bounded(
    s: Seq<RecentView>,
    path: Seq<char>,
    status: RecentStatus,
    locale: Option<Seq<char>>,
    node_count: Option<u32>,
    now: Timestamp,
    i: int,
)
    requires
        touched(s, path, status, locale, node_count, now).len() > MAX_RECENT,
        0 <= i < touched(s, path, status, locale, node_count, now).len(),
    ensures
        touched(s, path, status, locale, node_count, now)[i].pinned,
{
    let u = upserted(s, path, status, locale, node_count, now);
    let t = touched(s, path, status, locale, node_count, now);
    lemma_sorted_permutes(pruned(u));
    assert(t.contains(t[i]));
    lemma_sorted_contains(pruned(u), t[i]);
    let j = choose|j: int| 0 <= j < pruned(u).len() && pruned(u)[j] == t[i];
    lemma_pruned_over_limit(u, j);
}

/// Opening a workspace twice leaves one record of it, with the status of the
/// second opening: after two openings of paths with the same key, the keys
/// of the ledger are unique, and a record under that key has the path, time
/// and status of the second opening. There is such a record where the ledger
/// had room for it after the first opening.
pub proof fn lemma_touched_twice(
    s: Seq<RecentView>,
    first: Seq<char>,
    first_status: RecentStatus,
    first_locale: Option<Seq<char>>,
    first_count: Option<u32>,
    first_time: Timestamp,
    second: Seq<char>,
    second_status: RecentStatus,
    second_locale: Option<Seq<char>>,
    second_count: Option<u32>,
    second_time: Timestamp,
)
    requires
        unique_keys(s),
        normal_path(first) == normal_path(second),
    ensures
        ({
            let once = touched(s, first, first_status, first_locale, first_count, first_time);
            let twice = touched(
                once,
                second,
                second_status,
                second_locale,
                second_count,
                second_time,
            );
            &&& unique_keys(twice)
            &&& forall|i: int|
                0 <= i < twice.len() && key_of(#[trigger] twice[i]) == normal_path(second) ==> {
                    &&& twice[i].path == second
                    &&& twice[i].last_status == second_status
                    &&& twice[i].last_opened_at == second_time
                }
            &&& (once.len() < MAX_RECENT || (once.len() <= MAX_RECENT && has_key(
                once,
                normal_path(first),
            ))) ==> has_key(twice, normal_path(second))
        }),
{
    let once = touched(s, first, first_status, first_locale, first_count, first_time);
    let twice = touched(once, second, second_status, second_locale, second_count, second_time);
    let key = normal_path(second);
    lemma_touched_unique(s, first, first_status, first_locale, first_count, first_time);
    lemma_touched_unique(once, second, second_status, second_locale, second_count, second_time);
    assert forall|i: int| 0 <= i < twice.len() && key_of(#[trigger] twice[i]) == key implies {
        &&& twice[i].path == second
        &&& twice[i].last_status == second_status
        &&& twice[i].last_opened_at == second_time
    } by {
        lemma_touched_record(
            once,
            second,
            second_status,
            second_locale,
            second_count,
            second_time,
            i,
        );
    }
    if once.len() < MAX_RECENT || (once.len() <= MAX_RECENT && has_key(once, key)) {
        let u = upserted(once, second, second_status, second_locale, second_count, second_time);
        let e = entered(once, second, second_status, second_locale, second_count, second_time);
        lemma_position_from(once, key, 0);
        if has_key(once, key) {
            let w = choose|w: int| 0 <= w < once.len() && key_of(#[trigger] once[w]) == key;
            assert(position_from(once, key, 0) <= w);
        }
        assert(u.len() <= MAX_RECENT);
        lemma_touched_present(
            once,
            second,
            second_status,
            second_locale,
            second_count,
            second_time,
        );
        let i = choose|i: int| 0 <= i < twice.len() && twice[i] == e;
        assert(key_of(twice[i]) == key);
    }
}

/// Removing a workspace leaves no record of it, and leaves the keys of a
/// ledger unique.
pub proof fn lemma_removed(s: Seq<RecentView>, path: Seq<char>)
    ensures
        !has_key(removed(s, path), normal_path(path)),
        unique_keys(s) ==> unique_keys(removed(s, path)),
        forall|r: RecentView|
            removed(s, path).contains(r) <==> s.contains(r) && key_of(r) != normal_path(path),
{
    let key = normal_path(path);
    let keep = keyed_otherwise(key);
    let f = s.filter(keep);
    let out = removed(s, path);
    assert forall|r: RecentView| out.contains(r) <==> s.contains(r) && key_of(r) != key by {
        lemma_sorted_contains(f, r);
        if f.contains(r) {
            let i = choose|i: int| 0 <= i < f.len() && f[i] == r;
            s.lemma_filter_pred(keep, i);
            assert(keep(f[i]));
            s.lemma_filter_contains_rev(keep, r);
        }
        if s.contains(r) && key_of(r) != key {
            let i = choose|i: int| 0 <= i < s.len() && s[i] == r;
            assert(keep(s[i]));
            s.lemma_filter_contains(keep, i);
        }
    }
    if has_key(out, key) {
        let i = choose|i: int| 0 <= i < out.len() && key_of(#[trigger] out[i]) == key;
        assert(out.contains(out[i]));
    }
    if unique_keys(s) {
        lemma_filter_unique(s, keep);
        lemma_sorted_unique(f);
    }
}

/// A selection from a ledger of unique keys has unique keys.
pub proof fn lemma_filter_unique(s: Seq<RecentView>, keep: spec_fn(RecentView) -> bool)
    requires
        unique_keys(s),
    ensures
        unique_keys(s.filter(keep)),
    decreases s.len(),
{
    reveal(Seq::filter);
    if s.len() > 0 {
        let d = s.drop_last();
        assert forall|i: int, j: int| 0 <= i < j < d.len() implies key_of(#[trigger] d[i])
            != key_of(#[trigger] d[j]) by {
            assert(d[i] == s[i] && d[j] == s[j]);
        }
        lemma_filter_unique(d, keep);
        let f = d.filter(keep);
        if keep(s.last()) {
            let g = f.push(s.last());
            assert forall|i: int, j: int| 0 <= i < j < g.len() implies key_of(#[trigger] g[i])
                != key_of(#[trigger] g[j]) by {
                if j < f.len() {
                    assert(g[i] == f[i] && g[j] == f[j]);
                } else {
                    assert(g[i] == f[i]);
                    assert(f.contains(f[i]));
                    d.lemma_filter_contains_rev(keep, f[i]);
                    let k = choose|k: int| 0 <= k < d.len() && d[k] == f[i];
                    assert(d[k] == s[k]);
                    assert(key_of(s[k]) != key_of(s[s.len() - 1]));
                }
            }
        }
    }
}

/// Listing a ledger keeps its paths, and so its keys: where the keys of the
/// records observed are unique, so are those of the records listed.
pub proof fn lemma_listed_unique(obs: Seq<ObservedView>)
    requires
        unique_keys(Seq::new(obs.len(), |i: int| obs[i].record)),
    ensures
        unique_keys(listed(obs)),
        listed(obs).len() == obs.len(),
{
    let before = Seq::new(obs.len(), |i: int| obs[i].record);
    let fresh = refreshed_all(obs);
    assert forall|i: int, j: int| 0 <= i < j < fresh.len() implies key_of(#[trigger] fresh[i])
        != key_of(#[trigger] fresh[j]) by {
        assert(key_of(fresh[i]) == key_of(before[i]));
        assert(key_of(fresh[j]) == key_of(before[j]));
    }
    lemma_sorted_unique(fresh);
    lemma_sorted_permutes(fresh);
}

/// A ledger that is not there is empty: where no file is found, or one that
/// holds no collection, nothing is loaded, nothing is listed, and nothing has
/// to be stored.
pub proof fn lemma_missing_store_is_empty(now: Timestamp)
    ensures
        loaded(Stored::Missing, now) == Seq::<RecentView>::empty(),
        loaded(Stored::Unparseable, now) == Seq::<RecentView>::empty(),
        listed(Seq::<ObservedView>::empty()) == Seq::<RecentView>::empty(),
        !any_stale(Seq::<ObservedView>::empty()),
{
    assert(refreshed_all(Seq::<ObservedView>::empty()) =~= Seq::<RecentView>::empty());
}

/// The test that a record is pinned.
pub open spec fn is_pinned() -> spec_fn(RecentView) -> bool {
    |r: RecentView| r.pinned
}

/// How many records of `s` are pinned.
pub open spec fn pinned_count(s: Seq<RecentView>) -> nat {
    s.filter(is_pinned()).len()
}

proof fn lemma_sorted_filter_len(s: Seq<RecentView>, keep: spec_fn(RecentView) -> bool)
    ensures
        sorted(s).filter(keep).len() == s.filter(keep).len(),
    decreases s.len(),
{
    if s.len() > 0 {
        let d = s.drop_last();
        let y = s.last();
        let t = sorted(d);
        let at = rank_from(t, y, 0);
        lemma_sorted_filter_len(d, keep);
        lemma_rank_from(t, y, 0);
        let head = t.take(at);
        let tail = t.skip(at);
        assert(t =~= head + tail);
        assert(placed(t, y) =~= head.push(y) + tail);
        Seq::filter_distributes_over_add(head, tail, keep);
        Seq::filter_distributes_over_add(head.push(y), tail, keep);
        head.lemma_filter_push(y, keep);
        d.lemma_filter_push(y, keep);
        assert(d.push(y) =~= s);
    }
}

proof fn lemma_front_counts(s: Seq<RecentView>, keep: spec_fn(RecentView) -> bool, n: int)
    requires
        0 <= n <= s.len(),
        forall|i: int| 0 <= i < n ==> keep(#[trigger] s[i]),
    ensures
        s.filter(keep).len() >= n,
{
    let head = s.take(n);
    let tail = s.skip(n);
    assert(s =~= head + tail);
    Seq::filter_distributes_over_add(head, tail, keep);
    assert forall|i: int| 0 <= i < head.len() implies keep(#[trigger] head[i]) by {
        assert(head[i] == s[i]);
    }
    lemma_filter_all(head, keep);
}

/// An opening pins nothing and unpins nothing.
pub proof fn lemma_upserted_pinned_count(
    s: Seq<RecentView>,
    path: Seq<char>,
    status: RecentStatus,
    locale: Option<Seq<char>>,
    node_count: Option<u32>,
    now: Timestamp,
)
    ensures
        pinned_count(upserted(s, path, status, locale, node_count, now)) == pinned_count(s),
{
    let keep = is_pinned();
    let at = position_from(s, normal_path(path), 0);
    let u = upserted(s, path, status, locale, node_count, now);
    let e = entered(s, path, status, locale, node_count, now);
    lemma_position_from(s, normal_path(path), 0);
    if at < s.len() {
        let head = s.take(at);
        let tail = s.skip(at + 1);
        assert(s =~= head.push(s[at]) + tail);
        assert(u =~= head.push(e) + tail);
        Seq::filter_distributes_over_add(head.push(s[at]), tail, keep);
        Seq::filter_distributes_over_add(head.push(e), tail, keep);
        head.lemma_filter_push(s[at], keep);
        head.lemma_filter_push(e, keep);
    } else {
        s.lemma_filter_push(e, keep);
    }
}

/// An opening is on record where it is the latest and the pinned records
/// leave room: where the time of the opening is later than the time of every
/// unpinned record of another workspace, and fewer records are pinned than
/// the limit allows, the record [`entered`] is in the ledger.
pub proof fn lemma_touched_present_latest(
    s: Seq<RecentView>,
    path: Seq<char>,
    status: RecentStatus,
    locale: Option<Seq<char>>,
    node_count: Option<u32>,
    now: Timestamp,
)
    requires
        unique_keys(s),
        pinned_count(s) < MAX_RECENT,
        forall|i: int|
            0 <= i < s.len() && !(#[trigger] s[i]).pinned && key_of(s[i]) != normal_path(path)
                ==> now.later_than(s[i].last_opened_at),
    ensures
        touched(s, path, status, locale, node_count, now).contains(
            entered(s, path, status, locale, node_count, now),
        ),
{
    let key = normal_path(path);
    let u = upserted(s, path, status, locale, node_count, now);
    let e = entered(s, path, status, locale, node_count, now);
    let at = position_from(s, key, 0);
    lemma_upserted_unique(s, path, status, locale, node_count, now);
    lemma_position_from(s, key, 0);
    if u.len() <= MAX_RECENT || e.pinned {
        lemma_touched_present(s, path, status, locale, node_count, now);
    } else {
        let t = sorted(u);
        lemma_sorted_contains(u, e);
        lemma_sorted_ordered(u);
        lemma_sorted_unique(u);
        lemma_sorted_permutes(u);
        lemma_kept(t);
        let j = choose|j: int| 0 <= j < t.len() && t[j] == e;
        if j >= kept(t) {
            assert forall|i: int| 0 <= i < j implies is_pinned()(#[trigger] t[i]) by {
                if !t[i].pinned {
                    assert(t.contains(t[i]));
                    lemma_sorted_contains(u, t[i]);
                    let m = choose|m: int| 0 <= m < u.len() && u[m] == t[i];
                    assert(key_of(t[i]) != key_of(t[j]));
                    assert(m < s.len() && u[m] == s[m]);
                    assert(now.later_than(s[m].last_opened_at));
                    assert(precedes(t[j], t[i]));
                }
            }
            lemma_front_counts(t, is_pinned(), j);
            lemma_sorted_filter_len(u, is_pinned());
            lemma_upserted_pinned_count(s, path, status, locale, node_count, now);
        }
        assert(pruned(u)[j] == e);
        lemma_sorted_contains(pruned(u), e);
    }
}

/// A ledger of unpinned records is within the limit after every opening.
pub proof fn lemma_touched_all_unpinned(
    s: Seq<RecentView>,
    path: Seq<char>,
    status: RecentStatus,
    locale: Option<Seq<char>>,
    node_count: Option<u32>,
    now: Timestamp,
)
    requires
        forall|i: int| 0 <= i < s.len() ==> !(#[trigger] s[i]).pinned,
    ensures
        touched(s, path, status, locale, node_count, now).len() == if upserted(
            s,
            path,
            status,
            locale,
            node_count,
            now,
        ).len() <= MAX_RECENT {
            upserted(s, path, status, locale, node_count, now).len()
        } else {
            MAX_RECENT as nat
        },
{
    let u = upserted(s, path, status, locale, node_count, now);
    lemma_position_from(s, normal_path(path), 0);
    lemma_sorted_permutes(pruned(u));
    if u.len() > MAX_RECENT {
        assert forall|i: int| 0 <= i < u.len() implies !(#[trigger] u[i]).pinned by {
            if i < s.len() && i != position_from(s, normal_path(path), 0) {
                assert(u[i] == s[i]);
            }
        }
        lemma_pruned_all_unpinned(u);
    }
}

} // verus!
