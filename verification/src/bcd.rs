//! Reconciling boot entries with the boot configuration store.
//!
//! The store is reached only through a command-line tool without a structured
//! output mode. This module builds the invocations of that tool and reads its
//! verbose enumeration: a stateful scan that attributes every property line to
//! the `identifier` line most recently seen above it.

use crate::text::{
    chars_of, chars_view, lemma_index_of_bounds, string_view, contains, contains_chars, find, find_chars, index_of, index_of_char, lemma_find_from,
    long_path_prefix, lower, lower_char, lower_chars, matches_at_index, replace_char, replace_chars, same_chars,
    second_token, second_token_of, slice_chars, starts_with, string_of, strip_leading,
    strip_leading_chars, to_lower_char, token_at, token_from, trim, trim_chars, without,
    without_chars,
};
use vstd::prelude::*;

verus! {

/// The form under which two virtual-disk paths name the same boot target:
/// surrounding white space and leading long-path prefixes dropped, `/` turned
/// into `\`, the brackets of the store's volume notation (`[C:]\x` for `C:\x`)
/// removed, and all of it in ASCII lower case.
pub open spec fn normalize_vhd(path: Seq<char>) -> Seq<char> {
    lower(
        without(
            replace_char(strip_leading(trim(path), long_path_prefix()), '/', '\\'),
            '[',
            ']',
        ),
    )
}

/// Whether a line describes a device: its lower-case form holds `device`
/// (and so also where it holds `osdevice`).
pub open spec fn is_device_line(line: Seq<char>) -> bool {
    contains(lower(line), "device"@) || contains(lower(line), "osdevice"@)
}

/// The part of a line before its first comma; the whole line where it has none.
pub open spec fn before_comma(line: Seq<char>) -> Seq<char> {
    line.take(index_of(line, ',', 0))
}

/// The virtual-disk path that a line refers to: on a device line, the first
/// run of non-blank characters behind the first `vhd=` (in any case) that
/// stands before the first comma.
pub open spec fn vhd_reference(line: Seq<char>) -> Option<Seq<char>> {
    let head = before_comma(line);
    if !is_device_line(line) {
        None
    } else {
        match find(lower(head), "vhd="@) {
            None => None,
            Some(pos) => {
                let token = token_at(head, pos + "vhd="@.len());
                if token.len() > 0 {
                    Some(token)
                } else {
                    None
                }
            },
        }
    }
}

/// The identifier that a line announces: the second word of a line that
/// begins with `identifier` in any case.
pub open spec fn identifier_of(line: Seq<char>) -> Option<Seq<char>> {
    if starts_with(lower(line), "identifier"@) {
        second_token(line)
    } else {
        None
    }
}

/// The identifier in effect behind a line, given the one in effect before it.
pub open spec fn track(current: Option<Seq<char>>, line: Seq<char>) -> Option<Seq<char>> {
    match identifier_of(line) {
        Some(id) => Some(id),
        None => current,
    }
}

/// The line that starts at `from` and ends before the line feed at `nl` (or
/// at the end of the text): a carriage return just before the line feed does
/// not belong to it.
pub open spec fn line_between(text: Seq<char>, from: int, nl: int) -> Seq<char> {
    if nl < text.len() && from < nl && text[nl - 1] == '\r' {
        text.subrange(from, nl - 1)
    } else {
        text.subrange(from, nl)
    }
}

/// The lines of `text` from index `from` on. Lines end with a line feed or
/// with a carriage return and a line feed; the last one may end with the text.
pub open spec fn lines_from(text: Seq<char>, from: int) -> Seq<Seq<char>>
    decreases text.len() - from,
{
    if from < 0 || from >= text.len() {
        Seq::empty()
    } else {
        let nl = index_of(text, '\n', from);
        if from <= nl < text.len() {
            seq![line_between(text, from, nl)] + lines_from(text, nl + 1)
        } else {
            seq![text.skip(from)]
        }
    }
}

/// The lines of `text`.
pub open spec fn lines(text: Seq<char>) -> Seq<Seq<char>> {
    lines_from(text, 0)
}

/// The scan over the lines of an enumeration: each line first updates the
/// identifier in effect; the first line that `hit` accepts while an
/// identifier is in effect answers with that identifier.
pub open spec fn scan(
    lines: Seq<Seq<char>>,
    current: Option<Seq<char>>,
    hit: spec_fn(Seq<char>) -> bool,
) -> Option<Seq<char>>
    decreases lines.len(),
{
    if lines.len() == 0 {
        None
    } else {
        let now = track(current, lines[0]);
        if hit(lines[0]) && now is Some {
            now
        } else {
            scan(lines.drop_first(), now, hit)
        }
    }
}

/// The lines that refer to a virtual disk whose normal form is `needle`.
pub open spec fn vhd_hit(needle: Seq<char>) -> spec_fn(Seq<char>) -> bool {
    |line: Seq<char>|
        match vhd_reference(line) {
            Some(path) => normalize_vhd(path) == needle,
            None => false,
        }
}

/// The text `partition=<letter>:` with the letter in lower case.
pub open spec fn partition_needle(letter: char) -> Seq<char> {
    "partition="@.push(lower_char(letter)).push(':')
}

/// The device lines whose lower-case form holds `needle`.
pub open spec fn partition_hit(needle: Seq<char>) -> spec_fn(Seq<char>) -> bool {
    |line: Seq<char>| is_device_line(line) && contains(lower(line), needle)
}

/// The identifier of the first entry of the enumeration `text` that has a
/// device on the virtual disk `path`.
pub open spec fn guid_for_vhd(text: Seq<char>, path: Seq<char>) -> Option<Seq<char>> {
    scan(lines(text), None, vhd_hit(normalize_vhd(path)))
}

/// The identifier of the first entry of the enumeration `text` that has a
/// device on the partition `letter`.
pub open spec fn guid_for_partition_letter(text: Seq<char>, letter: char) -> Option<Seq<char>> {
    scan(lines(text), None, partition_hit(partition_needle(letter)))
}

/// The text that holds the lines `ls`, each ended by a line feed.
pub open spec fn joined(ls: Seq<Seq<char>>) -> Seq<char>
    decreases ls.len(),
{
    if ls.len() == 0 {
        Seq::empty()
    } else {
        ls[0].push('\n') + joined(ls.drop_first())
    }
}

/// Whether `line` can be a line of a text as it stands: it holds no line feed
/// and does not end with a carriage return.
pub open spec fn plain_line(line: Seq<char>) -> bool {
    &&& forall|i: int| 0 <= i < line.len() ==> line[i] != '\n'
    &&& line.len() > 0 ==> line.last() != '\r'
}

proof fn lemma_index_of_behind(front: Seq<char>, text: Seq<char>, c: char, from: int)
    requires
        0 <= from <= text.len(),
    ensures
        index_of(front + text, c, front.len() + from) == front.len() + index_of(text, c, from),
    decreases text.len() - from,
{
    let whole = front + text;
    if from < text.len() {
        assert(whole[front.len() + from] == text[from]);
        if text[from] != c {
            lemma_index_of_behind(front, text, c, from + 1);
        }
    }
}

proof fn lemma_lines_behind(front: Seq<char>, text: Seq<char>, from: int)
    requires
        0 <= from <= text.len(),
    ensures
        lines_from(front + text, front.len() + from) == lines_from(text, from),
    decreases text.len() - from,
{
    let whole = front + text;
    let n = front.len() as int;
    if from < text.len() {
        lemma_index_of_behind(front, text, '\n', from);
        lemma_index_of_bounds(text, '\n', from);
        let nl = index_of(text, '\n', from);
        if nl < text.len() {
            assert(whole.subrange(n + from, n + nl) =~= text.subrange(from, nl));
            if from < nl {
                assert(whole[n + nl - 1] == text[nl - 1]);
                assert(whole.subrange(n + from, n + nl - 1) =~= text.subrange(from, nl - 1));
            }
            lemma_lines_behind(front, text, nl + 1);
        } else {
            assert(whole.skip(n + from) =~= text.skip(from));
        }
    }
}

/// The lines of a text are what was written into it line by line: a text
/// made of plain lines, each ended by a line feed, has those lines.
pub proof fn lemma_lines_of_joined(ls: Seq<Seq<char>>)
    requires
        forall|i: int| 0 <= i < ls.len() ==> plain_line(#[trigger] ls[i]),
    ensures
        lines(joined(ls)) == ls,
    decreases ls.len(),
{
    if ls.len() > 0 {
        let first = ls[0];
        let rest = ls.drop_first();
        let front = first.push('\n');
        let text = joined(ls);
        assert(plain_line(first));
        assert forall|i: int| 0 <= i < rest.len() implies plain_line(#[trigger] rest[i]) by {
            assert(rest[i] == ls[i + 1]);
        }
        lemma_lines_of_joined(rest);
        lemma_index_of_bounds(text, '\n', 0);
        let nl = index_of(text, '\n', 0);
        assert(text[first.len() as int] == '\n');
        assert(nl == first.len()) by {
            if nl < first.len() {
                assert(text[nl] == first[nl]);
            }
        }
        assert(line_between(text, 0, nl) =~= first) by {
            if nl > 0 {
                assert(text[nl - 1] == first.last());
            }
            assert(text.subrange(0, nl) =~= first);
        }
        lemma_lines_behind(front, joined(rest), 0);
        assert(lines(text) =~= seq![first] + rest);
        assert(seq![first] + rest =~= ls);
    }
}

/// The identifier in effect behind the first `n` of `lines`, where `start` is
/// in effect before the first.
pub open spec fn in_effect(lines: Seq<Seq<char>>, start: Option<Seq<char>>, n: int) -> Option<
    Seq<char>,
>
    decreases n,
{
    if n <= 0 || n > lines.len() {
        start
    } else {
        track(in_effect(lines, start, n - 1), lines[n - 1])
    }
}

/// Whether line `k` can answer a scan: `hit` accepts it while an identifier is
/// in effect.
pub open spec fn answers(
    lines: Seq<Seq<char>>,
    start: Option<Seq<char>>,
    hit: spec_fn(Seq<char>) -> bool,
    k: int,
) -> bool {
    0 <= k < lines.len() && hit(lines[k]) && in_effect(lines, start, k + 1) is Some
}

proof fn lemma_in_effect_shift(lines: Seq<Seq<char>>, start: Option<Seq<char>>, n: int)
    requires
        0 <= n < lines.len(),
    ensures
        in_effect(lines, start, n + 1) == in_effect(lines.drop_first(), track(start, lines[0]), n),
    decreases n,
{
    let rest = lines.drop_first();
    let now = track(start, lines[0]);
    if n > 0 {
        lemma_in_effect_shift(lines, start, n - 1);
        assert(rest[n - 1] == lines[n]);
        assert(in_effect(rest, now, n) == track(in_effect(rest, now, n - 1), rest[n - 1]));
    } else {
        assert(in_effect(lines, start, 0) == start);
        assert(in_effect(rest, now, 0) == now);
    }
}

/// A scan answers with the identifier in effect at the first line that can
/// answer it.
pub proof fn lemma_scan_first_answer(
    lines: Seq<Seq<char>>,
    start: Option<Seq<char>>,
    hit: spec_fn(Seq<char>) -> bool,
    j: int,
)
    requires
        answers(lines, start, hit, j),
        forall|k: int| 0 <= k < j ==> !answers(lines, start, hit, k),
    ensures
        scan(lines, start, hit) == in_effect(lines, start, j + 1),
    decreases lines.len(),
{
    let now = track(start, lines[0]);
    let rest = lines.drop_first();
    assert(in_effect(lines, start, 0) == start);
    assert(in_effect(lines, start, 1) == now);
    if j > 0 {
        assert(!answers(lines, start, hit, 0));
        lemma_in_effect_shift(lines, start, j);
        assert(rest[j - 1] == lines[j]);
        assert forall|k: int| 0 <= k < j - 1 implies !answers(rest, now, hit, k) by {
            lemma_in_effect_shift(lines, start, k + 1);
            assert(rest[k] == lines[k + 1]);
            assert(!answers(lines, start, hit, k + 1));
        }
        lemma_scan_first_answer(rest, now, hit, j - 1);
    }
}

/// A scan over lines of which none can answer it finds nothing.
pub proof fn lemma_scan_no_answer(
    lines: Seq<Seq<char>>,
    start: Option<Seq<char>>,
    hit: spec_fn(Seq<char>) -> bool,
)
    requires
        forall|k: int| 0 <= k < lines.len() ==> !answers(lines, start, hit, k),
    ensures
        scan(lines, start, hit) is None,
    decreases lines.len(),
{
    if lines.len() > 0 {
        let now = track(start, lines[0]);
        let rest = lines.drop_first();
        assert(in_effect(lines, start, 0) == start);
        assert(in_effect(lines, start, 1) == now);
        assert(!answers(lines, start, hit, 0));
        assert forall|k: int| 0 <= k < rest.len() implies !answers(rest, now, hit, k) by {
            lemma_in_effect_shift(lines, start, k + 1);
            assert(rest[k] == lines[k + 1]);
            assert(!answers(lines, start, hit, k + 1));
        }
        lemma_scan_no_answer(rest, now, hit);
    }
}

/// Behind an identifier line, its identifier is in effect up to the next
/// identifier line.
pub proof fn lemma_block_identifier(
    lines: Seq<Seq<char>>,
    start: Option<Seq<char>>,
    i: int,
    j: int,
)
    requires
        0 <= i <= j < lines.len(),
        identifier_of(lines[i]) is Some,
        forall|k: int| i < k <= j ==> identifier_of(#[trigger] lines[k]) is None,
    ensures
        in_effect(lines, start, j + 1) == identifier_of(lines[i]),
    decreases j - i,
{
    if i < j {
        lemma_block_identifier(lines, start, i, j - 1);
    } else {
        assert(in_effect(lines, start, i + 1) == track(in_effect(lines, start, i), lines[i]));
    }
}

/// Before the first identifier line, no identifier is in effect.
pub proof fn lemma_no_identifier_yet(lines: Seq<Seq<char>>, j: int)
    requires
        0 <= j < lines.len(),
        forall|k: int| 0 <= k <= j ==> identifier_of(#[trigger] lines[k]) is None,
    ensures
        in_effect(lines, None, j + 1) is None,
    decreases j,
{
    if 0 < j {
        lemma_no_identifier_yet(lines, j - 1);
    } else {
        assert(in_effect(lines, None, 0) is None);
    }
}

/// Whether line `j` of `lines` refers to the virtual disk `path`.
pub open spec fn refers_to(lines: Seq<Seq<char>>, j: int, path: Seq<char>) -> bool {
    0 <= j < lines.len() && vhd_hit(normalize_vhd(path))(lines[j])
}

/// An entry is found by its virtual disk: where an identifier line is
/// followed, before the next identifier line, by a device line that refers to
/// the disk `path`, the search for `path` gives that identifier, unless a
/// line further up has answered the search already.
pub proof fn lemma_vhd_found_in_block(text: Seq<char>, path: Seq<char>, i: int, j: int)
    requires
        0 <= i <= j < lines(text).len(),
        identifier_of(lines(text)[i]) is Some,
        forall|k: int| i < k <= j ==> identifier_of(#[trigger] lines(text)[k]) is None,
        refers_to(lines(text), j, path),
        forall|k: int|
            0 <= k < j ==> !answers(lines(text), None, vhd_hit(normalize_vhd(path)), k),
    ensures
        guid_for_vhd(text, path) == identifier_of(lines(text)[i]),
{
    let ls = lines(text);
    lemma_block_identifier(ls, None, i, j);
    lemma_scan_first_answer(ls, None, vhd_hit(normalize_vhd(path)), j);
}

/// Blocks have an order: where every line that refers to the disk `path`
/// stands before the first identifier line, the search for `path` finds
/// nothing.
pub proof fn lemma_vhd_before_identifier(text: Seq<char>, path: Seq<char>)
    requires
        forall|j: int, k: int|
            #[trigger] refers_to(lines(text), j, path) && 0 <= k <= j ==> identifier_of(
                #[trigger] lines(text)[k],
            ) is None,
    ensures
        guid_for_vhd(text, path) is None,
{
    let ls = lines(text);
    let hit = vhd_hit(normalize_vhd(path));
    assert forall|j: int| 0 <= j < ls.len() implies !answers(ls, None, hit, j) by {
        if hit(ls[j]) {
            assert(refers_to(ls, j, path));
            lemma_no_identifier_yet(ls, j);
        }
    }
    lemma_scan_no_answer(ls, None, hit);
}

/// The search by partition letter does not tell the cases of the letter
/// apart.
pub proof fn lemma_partition_letter_case(text: Seq<char>, a: char, b: char)
    requires
        lower_char(a) == lower_char(b),
    ensures
        guid_for_partition_letter(text, a) == guid_for_partition_letter(text, b),
{
}

/// The search by partition letter is exact on the text `partition=<letter>:`:
/// where no device line holds it, in lower case, the search finds nothing.
pub proof fn lemma_partition_needs_needle(text: Seq<char>, letter: char)
    requires
        forall|j: int|
            0 <= j < lines(text).len() ==> !(is_device_line(#[trigger] lines(text)[j])
                && contains(lower(lines(text)[j]), partition_needle(letter))),
    ensures
        guid_for_partition_letter(text, letter) is None,
{
    lemma_scan_no_answer(lines(text), None, partition_hit(partition_needle(letter)));
}

/// An entry is found by its partition: where an identifier line is followed,
/// before the next identifier line, by a device line that holds
/// `partition=<letter>:`, the search for the letter gives that identifier,
/// unless a line further up has answered the search already.
pub proof fn lemma_partition_found_in_block(text: Seq<char>, letter: char, i: int, j: int)
    requires
        0 <= i <= j < lines(text).len(),
        identifier_of(lines(text)[i]) is Some,
        forall|k: int| i < k <= j ==> identifier_of(#[trigger] lines(text)[k]) is None,
        is_device_line(lines(text)[j]),
        contains(lower(lines(text)[j]), partition_needle(letter)),
        forall|k: int|
            0 <= k < j ==> !answers(
                lines(text),
                None,
                partition_hit(partition_needle(letter)),
                k,
            ),
    ensures
        guid_for_partition_letter(text, letter) == identifier_of(lines(text)[i]),
{
    let ls = lines(text);
    lemma_block_identifier(ls, None, i, j);
    lemma_scan_first_answer(ls, None, partition_hit(partition_needle(letter)), j);
}

/// What a scan looks for.
enum Target {
    /// A virtual disk, by the normal form of its path.
    Vhd(Vec<char>),
    /// A partition, by the text `partition=<letter>:` in lower case.
    Partition(Vec<char>),
}

impl Target {
    spec fn hit(self) -> spec_fn(Seq<char>) -> bool {
        match self {
            Target::Vhd(needle) => vhd_hit(needle@),
            Target::Partition(needle) => partition_hit(needle@),
        }
    }
}

fn normalize_vhd_chars(path: &Vec<char>) -> (r: Vec<char>)
    ensures
        r@ == normalize_vhd(path@),
{
    let trimmed = trim_chars(path);
    let prefix = chars_of("\\\\?\\");
    let stripped = strip_leading_chars(&trimmed, &prefix);
    let unified = replace_chars(&stripped, '/', '\\');
    let bare = without_chars(&unified, '[', ']');
    lower_chars(&bare)
}

fn is_device_chars(line: &Vec<char>) -> (r: bool)
    ensures
        r == is_device_line(line@),
{
    let low = lower_chars(line);
    let device = chars_of("device");
    let osdevice = chars_of("osdevice");
    contains_chars(&low, &device) || contains_chars(&low, &osdevice)
}

fn vhd_reference_chars(line: &Vec<char>) -> (r: Option<Vec<char>>)
    ensures
        chars_view(r) == vhd_reference(line@),
{
    if !is_device_chars(line) {
        return None;
    }
    let comma = index_of_char(line, ',', 0);
    let head = slice_chars(line, 0, comma);
    assert(head@ =~= before_comma(line@));
    let low = lower_chars(&head);
    let marker = chars_of("vhd=");
    match find_chars(&low, &marker) {
        None => None,
        Some(pos) => {
            proof {
                lemma_find_from(low@, marker@, 0);
            }
            let token = token_from(&head, pos + marker.len());
            if token.len() > 0 {
                Some(token)
            } else {
                None
            }
        },
    }
}

fn identifier_chars(line: &Vec<char>) -> (r: Option<Vec<char>>)
    ensures
        chars_view(r) == identifier_of(line@),
{
    let low = lower_chars(line);
    let word = chars_of("identifier");
    if matches_at_index(&low, &word, 0) {
        second_token_of(line)
    } else {
        None
    }
}

fn line_hits(line: &Vec<char>, target: &Target) -> (r: bool)
    ensures
        r == (target.hit())(line@),
{
    match target {
        Target::Vhd(needle) => {
            match vhd_reference_chars(line) {
                Some(path) => {
                    let candidate = normalize_vhd_chars(&path);
                    same_chars(&candidate, needle)
                },
                None => false,
            }
        },
        Target::Partition(needle) => {
            if is_device_chars(line) {
                let low = lower_chars(line);
                contains_chars(&low, needle)
            } else {
                false
            }
        },
    }
}

fn scan_text(text: &Vec<char>, target: &Target) -> (r: Option<Vec<char>>)
    ensures
        chars_view(r) == scan(lines(text@), None, target.hit()),
{
    let mut current: Option<Vec<char>> = None;
    let mut pos: usize = 0;
    while pos < text.len()
        invariant
            pos <= text.len(),
            scan(lines(text@), None, target.hit()) == scan(
                lines_from(text@, pos as int),
                chars_view(current),
                target.hit(),
            ),
        decreases text.len() - pos,
    {
        let nl = index_of_char(text, '\n', pos);
        let end = if nl < text.len() && pos < nl && text[nl - 1] == '\r' {
            nl - 1
        } else {
            nl
        };
        let line = slice_chars(text, pos, end);
        let next: usize = if nl < text.len() {
            nl + 1
        } else {
            nl
        };
        proof {
            let rest = lines_from(text@, next as int);
            assert(text@.skip(pos as int) =~= text@.subrange(pos as int, text@.len() as int));
            assert(lines_from(text@, pos as int) =~= seq![line@] + rest);
            assert((seq![line@] + rest).drop_first() =~= rest);
        }
        match identifier_chars(&line) {
            Some(id) => {
                current = Some(id);
            },
            None => {},
        }
        if line_hits(&line, target) && current.is_some() {
            return current;
        }
        pos = next;
    }
    None
}

/// The normal form of a virtual-disk path, under which two paths are compared.
pub fn normalize_vhd_path(path: &str) -> (r: String)
    ensures
        r@ == normalize_vhd(path@),
{
    let chars = chars_of(path);
    let normal = normalize_vhd_chars(&chars);
    string_of(&normal)
}

/// The virtual-disk path that a line of the enumeration refers to, if it is a
/// device line with a `vhd=` reference before its first comma.
pub fn parse_vhd_device_path(line: &str) -> (r: Option<String>)
    ensures
        string_view(r) == vhd_reference(line@),
{
    let chars = chars_of(line);
    match vhd_reference_chars(&chars) {
        Some(path) => Some(string_of(&path)),
        None => None,
    }
}

/// The identifier of the entry whose device refers to the virtual disk
/// `vhd_path`; `None` where the enumeration holds no such entry.
pub fn extract_guid_for_vhd(bcd_output: &str, vhd_path: &str) -> (r: Option<String>)
    ensures
        string_view(r) == guid_for_vhd(bcd_output@, vhd_path@),
{
    let text = chars_of(bcd_output);
    let path = chars_of(vhd_path);
    let target = Target::Vhd(normalize_vhd_chars(&path));
    match scan_text(&text, &target) {
        Some(id) => Some(string_of(&id)),
        None => None,
    }
}

/// The identifier of the entry whose device refers to the partition with the
/// drive letter `letter`, in either case; `None` where the enumeration holds
/// no such entry.
pub fn extract_guid_for_partition_letter(bcd_output: &str, letter: char) -> (r: Option<String>)
    ensures
        string_view(r) == guid_for_partition_letter(bcd_output@, letter),
{
    let text = chars_of(bcd_output);
    let mut needle = chars_of("partition=");
    needle.push(to_lower_char(letter));
    needle.push(':');
    let target = Target::Partition(needle);
    match scan_text(&text, &target) {
        Some(id) => Some(string_of(&id)),
        None => None,
    }
}

/// One run of an external tool, for the caller to carry out.
#[derive(Debug, Clone, PartialEq, Eq)]
pub struct Invocation {
    /// The name of the tool.
    pub tool: String,
    /// Its arguments, in order.
    pub args: Vec<String>,
    /// What the tool is given on standard input, if anything.
    pub stdin: Option<String>,
    /// Whether the tool has to run with administrative privilege.
    pub elevated: bool,
}

/// The mathematical value of an [`Invocation`].
pub struct InvocationView {
    pub tool: Seq<char>,
    pub args: Seq<Seq<char>>,
    pub stdin: Option<Seq<char>>,
    pub elevated: bool,
}

impl View for Invocation {
    type V = InvocationView;

    open spec fn view(&self) -> InvocationView {
        InvocationView {
            tool: self.tool@,
            args: Seq::new(self.args@.len(), |i: int| self.args@[i]@),
            stdin: string_view(self.stdin),
            elevated: self.elevated,
        }
    }
}

/// An elevated run of `tool` with the arguments `args` and no input.
pub open spec fn elevated_run(tool: Seq<char>, args: Seq<Seq<char>>) -> InvocationView {
    InvocationView { tool, args, stdin: None, elevated: true }
}

fn elevated(tool: &str, args: Vec<String>) -> (r: Invocation)
    ensures
        r@ == elevated_run(tool@, Seq::new(args@.len(), |i: int| args@[i]@)),
{
    Invocation { tool: tool.to_owned(), args, stdin: None, elevated: true }
}

/// The run of `bcdboot` that installs boot files for the Windows directory
/// under `system_dir` into the host's own boot store: no other store and no
/// firmware type is named.
pub fn run_bcdboot(system_dir: &str) -> (r: Invocation)
    ensures
        r@ == elevated_run("bcdboot"@, seq![system_dir@ + "\\Windows"@, "/d"@]),
{
    let mut windows = system_dir.to_owned();
    windows.append("\\Windows");
    let mut args: Vec<String> = Vec::new();
    args.push(windows);
    args.push("/d".to_owned());
    let r = elevated("bcdboot", args);
    assert(r@.args =~= seq![system_dir@ + "\\Windows"@, "/d"@]);
    r
}

/// The run of `bcdedit` that lists every entry of the store, verbosely.
pub fn bcdedit_enum_all() -> (r: Invocation)
    ensures
        r@ == elevated_run("bcdedit"@, seq!["/enum"@, "all"@, "/v"@]),
{
    let mut args: Vec<String> = Vec::new();
    args.push("/enum".to_owned());
    args.push("all".to_owned());
    args.push("/v".to_owned());
    let r = elevated("bcdedit", args);
    assert(r@.args =~= seq!["/enum"@, "all"@, "/v"@]);
    r
}

/// The run of `bcdedit` that makes the entry `guid` the one to boot next,
/// once.
pub fn bcdedit_boot_sequence(guid: &str) -> (r: Invocation)
    ensures
        r@ == elevated_run("bcdedit"@, seq!["/bootsequence"@, guid@]),
{
    let mut args: Vec<String> = Vec::new();
    args.push("/bootsequence".to_owned());
    args.push(guid.to_owned());
    let r = elevated("bcdedit", args);
    assert(r@.args =~= seq!["/bootsequence"@, guid@]);
    r
}

/// The run of `bcdedit` that deletes the entry `guid`.
pub fn bcdedit_delete(guid: &str) -> (r: Invocation)
    ensures
        r@ == elevated_run("bcdedit"@, seq!["/delete"@, guid@]),
{
    let mut args: Vec<String> = Vec::new();
    args.push("/delete".to_owned());
    args.push(guid.to_owned());
    let r = elevated("bcdedit", args);
    assert(r@.args =~= seq!["/delete"@, guid@]);
    r
}

/// The run of `bcdedit` that gives the entry `guid` the description `desc`.
pub fn bcdedit_set_description(guid: &str, desc: &str) -> (r: Invocation)
    ensures
        r@ == elevated_run("bcdedit"@, seq!["/set"@, guid@, "description"@, desc@]),
{
    let mut args: Vec<String> = Vec::new();
    args.push("/set".to_owned());
    args.push(guid.to_owned());
    args.push("description".to_owned());
    args.push(desc.to_owned());
    let r = elevated("bcdedit", args);
    assert(r@.args =~= seq!["/set"@, guid@, "description"@, desc@]);
    r
}

} // verus!
