//! What holds of the normal forms of paths: when normalizing twice is
//! normalizing once, and which differences between paths a normal form does
//! not see.

use crate::bcd::normalize_vhd;
use crate::recents::normal_path;
use crate::text::{
    is_space, lemma_filter_all, lemma_skip_spaces_bounds, lemma_strip_index_bounds, lemma_trim_end_bounds,
    long_path_prefix, lower, lower_char, matches_at, neither, replace_char, skip_spaces,
    starts_with, strip_index, strip_leading, trim, trim_end_index, without,
};
use vstd::prelude::*;

verus! {

/// Whether normalizing has nothing left to take from the front or the end of
/// `s`: `s` has no white space around it and no long-path prefix.
pub open spec fn settled(s: Seq<char>) -> bool {
    trim(s) == s && !starts_with(s, long_path_prefix())
}

proof fn lemma_trim_len(s: Seq<char>)
    ensures
        trim(s).len() <= s.len(),
        trim(s).len() == s.len() ==> trim(s) == s,
{
    lemma_skip_spaces_bounds(s, 0);
    lemma_trim_end_bounds(s, skip_spaces(s, 0), s.len() as int);
    if trim(s).len() == s.len() {
        assert(trim(s) =~= s);
    }
}

proof fn lemma_strip_len(s: Seq<char>, pat: Seq<char>)
    requires
        pat.len() > 0,
    ensures
        strip_leading(s, pat).len() <= s.len(),
        strip_leading(s, pat).len() == s.len() <==> !matches_at(s, pat, 0),
        !matches_at(s, pat, 0) ==> strip_leading(s, pat) == s,
{
    lemma_strip_index_bounds(s, pat, 0);
    if matches_at(s, pat, 0) {
        lemma_strip_index_bounds(s, pat, pat.len() as int);
    } else {
        assert(s.skip(0) =~= s);
    }
}

proof fn lemma_without_len(s: Seq<char>, a: char, b: char)
    ensures
        without(s, a, b).len() <= s.len(),
        forall|i: int|
            0 <= i < without(s, a, b).len() ==> {
                let c = #[trigger] without(s, a, b)[i];
                c != a && c != b && s.contains(c)
            },
{
    let keep = neither(a, b);
    s.lemma_filter_len(keep);
    assert forall|i: int| 0 <= i < s.filter(keep).len() implies {
        let c = #[trigger] s.filter(keep)[i];
        c != a && c != b && s.contains(c)
    } by {
        let c = s.filter(keep)[i];
        s.lemma_filter_pred(keep, i);
        assert(keep(c));
        assert(s.filter(keep).contains(c));
        s.lemma_filter_contains_rev(keep, c);
    }
}

/// Trimming leaves nothing to trim.
pub proof fn lemma_trim_settles(s: Seq<char>)
    ensures
        trim(trim(s)) == trim(s),
{
    let a = skip_spaces(s, 0);
    let b = trim_end_index(s, a, s.len() as int);
    let t = trim(s);
    lemma_skip_spaces_bounds(s, 0);
    lemma_trim_end_bounds(s, a, s.len() as int);
    if a < b {
        assert(t[0] == s[a]);
        assert(t[t.len() - 1] == s[b - 1]);
        assert(skip_spaces(t, 0) == 0);
        assert(trim_end_index(t, 0, t.len() as int) == t.len());
    } else {
        assert(skip_spaces(t, 0) == 0);
        assert(trim_end_index(t, 0, 0) == 0);
    }
    assert(trim(t) =~= t);
}

/// The prefix of a long path is four characters, none of them a letter.
proof fn lemma_prefix_chars()
    ensures
        long_path_prefix().len() == 4,
        long_path_prefix() =~= seq!['\\', '\\', '?', '\\'],
{
    reveal_strlit("\\\\?\\");
}

/// A normal form of a virtual-disk path has no `/`, no bracket and no
/// upper-case letter.
pub proof fn lemma_normalize_vhd_chars(path: Seq<char>, i: int)
    requires
        0 <= i < normalize_vhd(path).len(),
    ensures
        normalize_vhd(path)[i] != '/',
        normalize_vhd(path)[i] != '[',
        normalize_vhd(path)[i] != ']',
        lower_char(normalize_vhd(path)[i]) == normalize_vhd(path)[i],
{
    let unified = replace_char(strip_leading(trim(path), long_path_prefix()), '/', '\\');
    let bare = without(unified, '[', ']');
    lemma_without_len(unified, '[', ']');
    let c = bare[i];
    assert(unified.contains(c));
    let j = choose|j: int| 0 <= j < unified.len() && unified[j] == c;
    assert(c != '/');
}

/// A key of the ledger has no `/` and no upper-case letter.
pub proof fn lemma_normal_path_chars(path: Seq<char>, i: int)
    requires
        0 <= i < normal_path(path).len(),
    ensures
        normal_path(path)[i] != '/',
        lower_char(normal_path(path)[i]) == normal_path(path)[i],
{
}

/// Normalizing a virtual-disk path twice is normalizing it once, where the
/// first normal form is settled.
pub proof fn lemma_normalize_vhd_idempotent(path: Seq<char>)
    requires
        settled(normalize_vhd(path)),
    ensures
        normalize_vhd(normalize_vhd(path)) == normalize_vhd(path),
{
    let r = normalize_vhd(path);
    lemma_prefix_chars();
    lemma_strip_len(r, long_path_prefix());
    assert forall|i: int| 0 <= i < r.len() implies r[i] != '/' && r[i] != '[' && r[i] != ']'
        && lower_char(r[i]) == r[i] by {
        lemma_normalize_vhd_chars(path, i);
    }
    assert(replace_char(r, '/', '\\') =~= r);
    lemma_filter_all(r, neither('[', ']'));
    assert(lower(r) =~= r);
}

/// Normalizing a virtual-disk path twice is not normalizing it once, where
/// the first normal form is not settled: then the second pass takes off white
/// space or a long-path prefix that the first has uncovered.
pub proof fn lemma_normalize_vhd_unsettled(path: Seq<char>)
    requires
        !settled(normalize_vhd(path)),
    ensures
        normalize_vhd(normalize_vhd(path)) != normalize_vhd(path),
        normalize_vhd(normalize_vhd(path)).len() < normalize_vhd(path).len(),
{
    let r = normalize_vhd(path);
    lemma_prefix_chars();
    lemma_trim_len(r);
    lemma_strip_len(trim(r), long_path_prefix());
    let unified = replace_char(strip_leading(trim(r), long_path_prefix()), '/', '\\');
    lemma_without_len(unified, '[', ']');
}

/// Normalizing a workspace path twice is normalizing it once, where the
/// first key is settled.
pub proof fn lemma_normal_path_idempotent(path: Seq<char>)
    requires
        settled(normal_path(path)),
    ensures
        normal_path(normal_path(path)) == normal_path(path),
{
    let r = normal_path(path);
    lemma_prefix_chars();
    lemma_strip_len(r, long_path_prefix());
    assert(replace_char(r, '/', '\\') =~= r);
    assert(lower(r) =~= r);
}

/// Normalizing a workspace path twice is not normalizing it once, where the
/// first key is not settled.
pub proof fn lemma_normal_path_unsettled(path: Seq<char>)
    requires
        !settled(normal_path(path)),
    ensures
        normal_path(normal_path(path)) != normal_path(path),
        normal_path(normal_path(path)).len() < normal_path(path).len(),
{
    let r = normal_path(path);
    lemma_prefix_chars();
    lemma_trim_len(r);
    lemma_strip_len(trim(r), long_path_prefix());
}

/// What both normal forms begin with: white space and long-path prefixes
/// dropped, `/` turned into `\`.
pub open spec fn unified(path: Seq<char>) -> Seq<char> {
    replace_char(strip_leading(trim(path), long_path_prefix()), '/', '\\')
}

proof fn lemma_lower_char(c: char)
    ensures
        is_space(lower_char(c)) == is_space(c),
        lower_char(lower_char(c)) == lower_char(c),
        (lower_char(c) == '/') == (c == '/'),
        (lower_char(c) == '\\') == (c == '\\'),
        (lower_char(c) == '?') == (c == '?'),
        (lower_char(c) == '[') == (c == '['),
        (lower_char(c) == ']') == (c == ']'),
{
}

proof fn lemma_skip_spaces_lower(s: Seq<char>, from: int)
    requires
        0 <= from <= s.len(),
    ensures
        skip_spaces(lower(s), from) == skip_spaces(s, from),
    decreases s.len() - from,
{
    if from < s.len() {
        lemma_lower_char(s[from]);
        if is_space(s[from]) {
            lemma_skip_spaces_lower(s, from + 1);
        }
    }
}

proof fn lemma_trim_end_lower(s: Seq<char>, floor: int, upto: int)
    requires
        0 <= floor <= upto <= s.len(),
    ensures
        trim_end_index(lower(s), floor, upto) == trim_end_index(s, floor, upto),
    decreases upto - floor,
{
    if floor < upto {
        lemma_lower_char(s[upto - 1]);
        if is_space(s[upto - 1]) {
            lemma_trim_end_lower(s, floor, upto - 1);
        }
    }
}

proof fn lemma_trim_lower(s: Seq<char>)
    ensures
        trim(lower(s)) == lower(trim(s)),
{
    lemma_skip_spaces_lower(s, 0);
    lemma_skip_spaces_bounds(s, 0);
    lemma_trim_end_lower(s, skip_spaces(s, 0), s.len() as int);
    lemma_trim_end_bounds(s, skip_spaces(s, 0), s.len() as int);
    assert(trim(lower(s)) =~= lower(trim(s)));
}

proof fn lemma_matches_lower(s: Seq<char>, i: int)
    ensures
        matches_at(lower(s), long_path_prefix(), i) == matches_at(s, long_path_prefix(), i),
{
    lemma_prefix_chars();
    let pat = long_path_prefix();
    if 0 <= i && i + 4 <= s.len() {
        lemma_lower_char(s[i]);
        lemma_lower_char(s[i + 1]);
        lemma_lower_char(s[i + 2]);
        lemma_lower_char(s[i + 3]);
        let a = s.subrange(i, i + 4);
        let b = lower(s).subrange(i, i + 4);
        assert(b[0] == lower_char(s[i]) && b[1] == lower_char(s[i + 1]) && b[2] == lower_char(
            s[i + 2],
        ) && b[3] == lower_char(s[i + 3]));
        assert(a[0] == s[i] && a[1] == s[i + 1] && a[2] == s[i + 2] && a[3] == s[i + 3]);
        if a == pat {
            assert(b =~= pat);
        }
        if b == pat {
            assert(a =~= pat);
        }
    }
}

proof fn lemma_strip_index_lower(s: Seq<char>, from: int)
    requires
        0 <= from,
    ensures
        strip_index(lower(s), long_path_prefix(), from) == strip_index(
            s,
            long_path_prefix(),
            from,
        ),
    decreases s.len() - from,
{
    lemma_prefix_chars();
    lemma_matches_lower(s, from);
    if matches_at(s, long_path_prefix(), from) {
        lemma_strip_index_lower(s, from + 4);
    }
}

proof fn lemma_strip_lower(s: Seq<char>)
    ensures
        strip_leading(lower(s), long_path_prefix()) == lower(
            strip_leading(s, long_path_prefix()),
        ),
{
    lemma_strip_index_lower(s, 0);
    lemma_strip_index_bounds(s, long_path_prefix(), 0);
    assert(strip_leading(lower(s), long_path_prefix()) =~= lower(
        strip_leading(s, long_path_prefix()),
    ));
}

proof fn lemma_replace_lower(s: Seq<char>)
    ensures
        replace_char(lower(s), '/', '\\') == lower(replace_char(s, '/', '\\')),
{
    assert forall|i: int| 0 <= i < s.len() implies replace_char(lower(s), '/', '\\')[i] == lower(
        replace_char(s, '/', '\\'),
    )[i] by {
        lemma_lower_char(s[i]);
    }
    assert(replace_char(lower(s), '/', '\\') =~= lower(replace_char(s, '/', '\\')));
}

proof fn lemma_without_lower(s: Seq<char>)
    ensures
        without(lower(s), '[', ']') == lower(without(s, '[', ']')),
    decreases s.len(),
{
    let keep = neither('[', ']');
    if s.len() > 0 {
        let d = s.drop_last();
        let c = s.last();
        lemma_without_lower(d);
        lemma_lower_char(c);
        assert(d.push(c) =~= s);
        assert(lower(d).push(lower_char(c)) =~= lower(s));
        d.lemma_filter_push(c, keep);
        lower(d).lemma_filter_push(lower_char(c), keep);
        if keep(c) {
            assert(lower(d.filter(keep)).push(lower_char(c)) =~= lower(d.filter(keep).push(c)));
        }
    } else {
        reveal(Seq::filter);
        assert(lower(s) =~= s);
        assert(s.filter(keep) =~= s);
    }
}

proof fn lemma_lower_twice(s: Seq<char>)
    ensures
        lower(lower(s)) == lower(s),
{
    assert forall|i: int| 0 <= i < s.len() implies lower(lower(s))[i] == lower(s)[i] by {
        lemma_lower_char(s[i]);
    }
    assert(lower(lower(s)) =~= lower(s));
}

proof fn lemma_unified_lower(path: Seq<char>)
    ensures
        unified(lower(path)) == lower(unified(path)),
{
    lemma_trim_lower(path);
    lemma_strip_lower(trim(path));
    lemma_replace_lower(strip_leading(trim(path), long_path_prefix()));
}

/// The normal form of a virtual-disk path does not see the case of ASCII
/// letters: paths that are equal in lower case have one normal form.
pub proof fn lemma_normalize_vhd_case(a: Seq<char>, b: Seq<char>)
    requires
        lower(a) == lower(b),
    ensures
        normalize_vhd(a) == normalize_vhd(b),
{
    lemma_unified_lower(a);
    lemma_unified_lower(b);
    lemma_without_lower(unified(a));
    lemma_without_lower(unified(b));
    lemma_lower_twice(without(unified(a), '[', ']'));
    lemma_lower_twice(without(unified(b), '[', ']'));
    assert(normalize_vhd(lower(a)) == normalize_vhd(a));
    assert(normalize_vhd(lower(b)) == normalize_vhd(b));
}

/// The key of a workspace path does not see the case of ASCII letters.
pub proof fn lemma_normal_path_case(a: Seq<char>, b: Seq<char>)
    requires
        lower(a) == lower(b),
    ensures
        normal_path(a) == normal_path(b),
{
    lemma_unified_lower(a);
    lemma_unified_lower(b);
    lemma_lower_twice(unified(a));
    lemma_lower_twice(unified(b));
    assert(normal_path(lower(a)) == normal_path(a));
    assert(normal_path(lower(b)) == normal_path(b));
}

/// Whether turning the `/` of `path` into `\` completes no long-path prefix
/// at its front. (It does in `//?/x`.)
pub open spec fn slashes_apart(path: Seq<char>) -> bool {
    strip_index(replace_char(trim(path), '/', '\\'), long_path_prefix(), 0) == strip_index(
        trim(path),
        long_path_prefix(),
        0,
    )
}

proof fn lemma_skip_spaces_replace(s: Seq<char>, from: int)
    requires
        0 <= from <= s.len(),
    ensures
        skip_spaces(replace_char(s, '/', '\\'), from) == skip_spaces(s, from),
    decreases s.len() - from,
{
    if from < s.len() && is_space(s[from]) {
        lemma_skip_spaces_replace(s, from + 1);
    }
}

proof fn lemma_trim_end_replace(s: Seq<char>, floor: int, upto: int)
    requires
        0 <= floor <= upto <= s.len(),
    ensures
        trim_end_index(replace_char(s, '/', '\\'), floor, upto) == trim_end_index(s, floor, upto),
    decreases upto - floor,
{
    if floor < upto && is_space(s[upto - 1]) {
        lemma_trim_end_replace(s, floor, upto - 1);
    }
}

proof fn lemma_unified_separator(path: Seq<char>)
    requires
        slashes_apart(path),
    ensures
        unified(replace_char(path, '/', '\\')) == unified(path),
{
    let t = trim(path);
    let turned = replace_char(path, '/', '\\');
    lemma_skip_spaces_replace(path, 0);
    lemma_skip_spaces_bounds(path, 0);
    lemma_trim_end_replace(path, skip_spaces(path, 0), path.len() as int);
    lemma_trim_end_bounds(path, skip_spaces(path, 0), path.len() as int);
    assert(trim(turned) =~= replace_char(t, '/', '\\'));
    lemma_strip_index_bounds(t, long_path_prefix(), 0);
    assert(unified(turned) =~= unified(path));
}

/// The normal form of a virtual-disk path does not see which of the two
/// separators a path is written with, where its slashes are apart.
pub proof fn lemma_normalize_vhd_separator(path: Seq<char>)
    requires
        slashes_apart(path),
    ensures
        normalize_vhd(replace_char(path, '/', '\\')) == normalize_vhd(path),
{
    lemma_unified_separator(path);
}

/// The key of a workspace path does not see which of the two separators a
/// path is written with, where its slashes are apart.
pub proof fn lemma_normal_path_separator(path: Seq<char>)
    requires
        slashes_apart(path),
    ensures
        normal_path(replace_char(path, '/', '\\')) == normal_path(path),
{
    lemma_unified_separator(path);
}

proof fn lemma_trim_end_behind_prefix(s: Seq<char>, upto: int)
    requires
        0 <= upto <= s.len(),
    ensures
        trim_end_index(long_path_prefix() + s, 0, 4 + upto) == 4 + trim_end_index(s, 0, upto),
    decreases upto,
{
    lemma_prefix_chars();
    let q = long_path_prefix() + s;
    if upto > 0 {
        assert(q[4 + upto - 1] == s[upto - 1]);
        if is_space(s[upto - 1]) {
            lemma_trim_end_behind_prefix(s, upto - 1);
        }
    } else {
        assert(q[3] == '\\');
    }
}

proof fn lemma_strip_index_behind(front: Seq<char>, s: Seq<char>, from: int)
    requires
        0 <= from,
    ensures
        strip_index(front + s, long_path_prefix(), front.len() + from) == front.len()
            + strip_index(s, long_path_prefix(), from),
    decreases s.len() - from,
{
    lemma_prefix_chars();
    let q = front + s;
    let at = front.len() + from;
    if from + 4 <= s.len() {
        assert(q.subrange(at, at + 4) =~= s.subrange(from, from + 4));
    }
    if matches_at(s, long_path_prefix(), from) {
        lemma_strip_index_behind(front, s, from + 4);
    }
}

proof fn lemma_unified_prefix(path: Seq<char>)
    requires
        skip_spaces(path, 0) == 0 || skip_spaces(path, 0) == path.len(),
    ensures
        unified(long_path_prefix() + path) == unified(path),
{
    lemma_prefix_chars();
    let pre = long_path_prefix();
    let q = pre + path;
    let n = path.len() as int;
    assert(q[0] == '\\');
    assert(skip_spaces(q, 0) == 0);
    lemma_trim_end_behind_prefix(path, n);
    lemma_skip_spaces_bounds(path, 0);
    lemma_trim_end_bounds(path, 0, n);
    let a = skip_spaces(path, 0);
    if a == 0 {
        assert(trim(q) =~= pre + trim(path));
    } else {
        assert(trim_end_index(path, 0, n) == 0) by {
            if trim_end_index(path, 0, n) > 0 {
                assert(is_space(path[trim_end_index(path, 0, n) - 1]));
            }
        }
        assert(trim_end_index(path, n, n) == n);
        assert(trim(path) =~= Seq::<char>::empty());
        assert(trim(q) =~= pre + trim(path));
    }
    let t = trim(path);
    let tq = pre + t;
    assert(tq.subrange(0, 4) =~= pre);
    assert(matches_at(tq, pre, 0));
    lemma_strip_index_behind(pre, t, 0);
    lemma_strip_index_bounds(t, pre, 0);
    assert(strip_index(tq, pre, 0) == strip_index(tq, pre, 4));
    assert(strip_leading(tq, pre) =~= strip_leading(t, pre));
}

/// The normal form of a virtual-disk path does not see a long-path prefix in
/// front of a path that does not begin with white space (or is nothing else).
pub proof fn lemma_normalize_vhd_prefix(path: Seq<char>)
    requires
        skip_spaces(path, 0) == 0 || skip_spaces(path, 0) == path.len(),
    ensures
        normalize_vhd(long_path_prefix() + path) == normalize_vhd(path),
{
    lemma_unified_prefix(path);
}

/// The key of a workspace path does not see a long-path prefix in front of a
/// path that does not begin with white space (or is nothing else).
pub proof fn lemma_normal_path_prefix(path: Seq<char>)
    requires
        skip_spaces(path, 0) == 0 || skip_spaces(path, 0) == path.len(),
    ensures
        normal_path(long_path_prefix() + path) == normal_path(path),
{
    lemma_unified_prefix(path);
}

} // verus!
