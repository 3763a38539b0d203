use vstd::prelude::*;

use std::collections::HashSet;

use crate::decimal::{all_ascii_digits, decimal_digits, digits_value, is_ascii_digit, lemma_decimal_roundtrip};
use crate::text::{chars_of, is_regex_decimal_digit, regex_decimal_digit};

verus! {

/// `std::io::Error`, the error of reading a modpack file; opaque here.
#[verifier::external_type_specification]
#[verifier::external_body]
pub struct ExIoError(std::io::Error);

/// The workshop items of a modpack, each ID once, in the order in which they first
/// appear.
#[derive(Clone, Debug, Default, PartialEq, Eq)]
pub struct Modpack {
    pub workshop_ids: Vec<u64>,
}

/// Why a modpack file could not be read.
#[derive(Debug)]
pub enum ModpackError {
    IOError(std::io::Error),
    Unknown,
}

impl From<std::io::Error> for ModpackError {
    fn from(value: std::io::Error) -> Self {
        ModpackError::IOError(value)
    }
}

impl vstd::std_specs::convert::FromSpecImpl<std::io::Error> for ModpackError {
    open spec fn obeys_from_spec() -> bool {
        true
    }

    open spec fn from_spec(v: std::io::Error) -> ModpackError {
        ModpackError::IOError(v)
    }
}

impl From<()> for ModpackError {
    fn from(_value: ()) -> Self {
        ModpackError::Unknown
    }
}

impl vstd::std_specs::convert::FromSpecImpl<()> for ModpackError {
    open spec fn obeys_from_spec() -> bool {
        true
    }

    open spec fn from_spec(v: ()) -> ModpackError {
        ModpackError::Unknown
    }
}

/// The text that starts a link to a workshop item, before its ID. The character at
/// `LINK_WILDCARD` stands for any character but a line feed.
pub const LINK_PREFIX: &'static str = "https://steamcommunity.com/sharedfiles/filedetails/?id=";

/// The number of characters of `LINK_PREFIX`.
pub const LINK_PREFIX_LEN: usize = 55;

/// The position in `LINK_PREFIX` of the character that matches any character but a
/// line feed (the unescaped `.` of the link pattern).
pub const LINK_WILDCARD: usize = 22;

/// The characters of `LINK_PREFIX`.
pub open spec fn link_pattern() -> Seq<char> {
    seq![
        'h', 't', 't', 'p', 's', ':', '/', '/', 's', 't', 'e', 'a', 'm', 'c', 'o', 'm', 'm',
        'u', 'n', 'i', 't', 'y', '.', 'c', 'o', 'm', '/', 's', 'h', 'a', 'r', 'e', 'd', 'f',
        'i', 'l', 'e', 's', '/', 'f', 'i', 'l', 'e', 'd', 'e', 't', 'a', 'i', 'l', 's', '/',
        '?', 'i', 'd', '=',
    ]
}

/// Whether the character `c` matches position `k` of the link pattern.
pub open spec fn pattern_char_matches(k: int, c: char) -> bool {
    if k == LINK_WILDCARD {
        c != '\n'
    } else {
        c == link_pattern()[k]
    }
}

/// Whether the link prefix matches `s` at position `i`.
pub open spec fn link_prefix_at(s: Seq<char>, i: int) -> bool {
    &&& 0 <= i
    &&& i + LINK_PREFIX_LEN <= s.len()
    &&& forall|k: int| 0 <= k < LINK_PREFIX_LEN ==> pattern_char_matches(k, #[trigger] s[i + k])
}

/// Whether a workshop link starts at position `i` of `s`: the link prefix followed by
/// at least one ASCII digit.
pub open spec fn link_at(s: Seq<char>, i: int) -> bool {
    &&& link_prefix_at(s, i)
    &&& i + LINK_PREFIX_LEN < s.len()
    &&& is_ascii_digit(s[i + LINK_PREFIX_LEN])
}

/// The end of the run of ASCII digits of `s` that starts at `j`.
pub open spec fn digit_run_end(s: Seq<char>, j: int) -> int
    decreases s.len() - j,
{
    if 0 <= j < s.len() && is_ascii_digit(s[j]) {
        digit_run_end(s, j + 1)
    } else {
        j
    }
}

/// A run of digits ends at or after its start, within the text, and holds digits only.
pub proof fn lemma_digit_run_end(s: Seq<char>, j: int)
    requires
        0 <= j <= s.len(),
    ensures
        j <= digit_run_end(s, j) <= s.len(),
        all_ascii_digits(s.subrange(j, digit_run_end(s, j))),
        digit_run_end(s, j) < s.len() ==> !is_ascii_digit(s[digit_run_end(s, j)]),
    decreases s.len() - j,
{
    if j < s.len() && is_ascii_digit(s[j]) {
        lemma_digit_run_end(s, j + 1);
        let e = digit_run_end(s, j);
        assert forall|k: int| 0 <= k < e - j implies is_ascii_digit(#[trigger] s.subrange(j, e)[k]) by {
            if k > 0 {
                assert(s.subrange(j, e)[k] == s.subrange(j + 1, e)[k - 1]);
            }
        }
    }
}

/// The digits of the workshop links of `s` from position `i` on, in order: the leftmost
/// link is taken first, and the search goes on after its digits.
pub open spec fn link_captures_from(s: Seq<char>, i: int) -> Seq<Seq<char>>
    decreases s.len() - i,
{
    if i < 0 || i >= s.len() {
        Seq::empty()
    } else if link_at(s, i) {
        let start = i + LINK_PREFIX_LEN;
        let end = digit_run_end(s, start);
        proof {
            lemma_digit_run_end(s, start);
        }
        seq![s.subrange(start, end)] + link_captures_from(s, end)
    } else {
        link_captures_from(s, i + 1)
    }
}

/// The digits of every workshop link in `s`.
pub open spec fn link_captures(s: Seq<char>) -> Seq<Seq<char>> {
    link_captures_from(s, 0)
}

/// Whether `c` lies outside ASCII.
pub open spec fn is_non_ascii(c: char) -> bool {
    (c as u32) >= 128
}

/// Whether the link prefix matches `s` at `i` and the ASCII digits after it (perhaps
/// none) are followed by a non-ASCII decimal digit (of the regex class `\d`): the link
/// pattern's digits would take in a digit of another script there.
pub open spec fn foreign_digit_link_at(s: Seq<char>, i: int) -> bool {
    &&& link_prefix_at(s, i)
    &&& digit_run_end(s, i + LINK_PREFIX_LEN) < s.len()
    &&& is_non_ascii(s[digit_run_end(s, i + LINK_PREFIX_LEN)])
    &&& regex_decimal_digit(s[digit_run_end(s, i + LINK_PREFIX_LEN)])
}

/// Whether the search for links in `s` from position `i` on meets a link whose digits
/// run into a non-ASCII decimal digit.
pub open spec fn foreign_digit_link_from(s: Seq<char>, i: int) -> bool
    decreases s.len() - i,
{
    if i < 0 || i >= s.len() {
        false
    } else if foreign_digit_link_at(s, i) {
        true
    } else if link_at(s, i) {
        let end = digit_run_end(s, i + LINK_PREFIX_LEN);
        proof {
            lemma_digit_run_end(s, i + LINK_PREFIX_LEN);
        }
        foreign_digit_link_from(s, end)
    } else {
        foreign_digit_link_from(s, i + 1)
    }
}

/// Whether a workshop link of `s` has digits that run into a non-ASCII decimal digit.
pub open spec fn has_foreign_digit_link(s: Seq<char>) -> bool {
    foreign_digit_link_from(s, 0)
}

/// Whether the modpack text `s` can be read: the ID of every link fits in a `u64` and
/// is made of ASCII digits only.
pub open spec fn links_readable(s: Seq<char>) -> bool {
    links_fit(s) && !has_foreign_digit_link(s)
}

/// Whether the ID of every workshop link in `s` fits in a `u64`.
pub open spec fn links_fit(s: Seq<char>) -> bool {
    forall|k: int| 0 <= k < link_captures(s).len() ==> digits_value(#[trigger] link_captures(s)[k]) <= u64::MAX
}

/// The IDs of the workshop links in `s`, in order, repeats included.
pub open spec fn link_ids(s: Seq<char>) -> Seq<u64> {
    link_captures(s).map_values(|d: Seq<char>| digits_value(d) as u64)
}

/// `s` with every element after its first occurrence removed.
pub open spec fn dedup(s: Seq<u64>) -> Seq<u64>
    decreases s.len(),
{
    if s.len() == 0 {
        s
    } else if s.drop_last().contains(s.last()) {
        dedup(s.drop_last())
    } else {
        dedup(s.drop_last()).push(s.last())
    }
}


/// Removing repeats leaves no ID twice and keeps every ID.
pub proof fn lemma_dedup_no_duplicates(s: Seq<u64>)
    ensures
        dedup(s).no_duplicates(),
        dedup(s).to_set() == s.to_set(),
    decreases s.len(),
{
    if s.len() > 0 {
        let t = s.drop_last();
        let x = s.last();
        lemma_dedup_no_duplicates(t);
        assert(s =~= t + seq![x]);
        Seq::lemma_to_set_insert_commutes(t, x);
        if t.contains(x) {
            assert(s.to_set() =~= t.to_set());
        } else {
            let r = dedup(t);
            assert(!r.to_set().contains(x));
            assert(!r.contains(x));
            Seq::lemma_to_set_insert_commutes(r, x);
            assert(r.push(x) =~= r + seq![x]);
            assert forall|i: int, j: int| 0 <= i < r.push(x).len() && 0 <= j < r.push(x).len() && i != j
                implies r.push(x)[i] != r.push(x)[j] by {
                if i == r.len() {
                    assert(r.contains(r[j]));
                } else if j == r.len() {
                    assert(r.contains(r[i]));
                }
            }
        }
    }
}

/// A sequence without repeats is left as it is.
pub proof fn lemma_dedup_distinct(s: Seq<u64>)
    requires
        s.no_duplicates(),
    ensures
        dedup(s) == s,
    decreases s.len(),
{
    if s.len() > 0 {
        let t = s.drop_last();
        assert(t.no_duplicates());
        lemma_dedup_distinct(t);
        if t.contains(s.last()) {
            let k = choose|k: int| 0 <= k < t.len() && t[k] == s.last();
            assert(s[k] == s[s.len() - 1]);
        }
        assert(t.push(s.last()) =~= s);
    }
}

/// Removing repeats twice is the same as removing them once.
pub proof fn lemma_dedup_idempotent(s: Seq<u64>)
    ensures
        dedup(dedup(s)) == dedup(s),
{
    lemma_dedup_no_duplicates(s);
    lemma_dedup_distinct(dedup(s));
}

/// The workshop IDs of a modpack read from `content` are pairwise distinct and are
/// exactly the IDs of its links.
pub proof fn lemma_modpack_ids_distinct(content: Seq<char>)
    ensures
        dedup(link_ids(content)).no_duplicates(),
        dedup(link_ids(content)).to_set() == link_ids(content).to_set(),
{
    lemma_dedup_no_duplicates(link_ids(content));
}

/// No character of the link pattern is a line feed.
proof fn lemma_pattern_has_no_line_feed()
    ensures
        link_pattern().len() == LINK_PREFIX_LEN,
        forall|k: int| 0 <= k < LINK_PREFIX_LEN ==> !pattern_char_matches(k, '\n'),
        forall|k: int| 0 <= k < LINK_PREFIX_LEN ==> pattern_char_matches(k, #[trigger] link_pattern()[k]),
        link_pattern()[0] == 'h',
{
}

/// The digits of `p + t` from a position in `t` are those of `t` from there, shifted.
proof fn lemma_digit_run_shift(p: Seq<char>, t: Seq<char>, j: int)
    requires
        0 <= j,
    ensures
        digit_run_end(p + t, p.len() + j) == p.len() + digit_run_end(t, j),
    decreases t.len() - j,
{
    if j < t.len() {
        assert((p + t)[p.len() + j] == t[j]);
        if is_ascii_digit(t[j]) {
            lemma_digit_run_shift(p, t, j + 1);
        }
    }
}

/// A link starts in `p + t` at a position in `t` exactly when it starts in `t` there.
proof fn lemma_link_at_shift(p: Seq<char>, t: Seq<char>, i: int)
    requires
        0 <= i,
    ensures
        link_at(p + t, p.len() + i) <==> link_at(t, i),
{
    let s = p + t;
    assert forall|q: int| 0 <= q && i + q < t.len() implies #[trigger] s[p.len() + i + q] == t[i + q] by {}
    if link_at(t, i) {
        assert forall|k: int| 0 <= k < LINK_PREFIX_LEN implies pattern_char_matches(k, #[trigger] s[p.len() + i + k]) by {
            assert(s[p.len() + i + k] == t[i + k]);
        }
        assert(s[p.len() + i + LINK_PREFIX_LEN] == t[i + LINK_PREFIX_LEN]);
    }
    if link_at(s, p.len() + i) {
        assert forall|k: int| 0 <= k < LINK_PREFIX_LEN implies pattern_char_matches(k, #[trigger] t[i + k]) by {
            assert(s[p.len() + i + k] == t[i + k]);
        }
        assert(s[p.len() + i + LINK_PREFIX_LEN] == t[i + LINK_PREFIX_LEN]);
    }
}

/// The links of `p + t` from a position in `t` on are those of `t` from there.
proof fn lemma_captures_shift(p: Seq<char>, t: Seq<char>, i: int)
    requires
        0 <= i,
    ensures
        link_captures_from(p + t, p.len() + i) == link_captures_from(t, i),
    decreases t.len() - i,
{
    let s = p + t;
    if i < t.len() {
        lemma_link_at_shift(p, t, i);
        if link_at(t, i) {
            let start = i + LINK_PREFIX_LEN;
            lemma_digit_run_shift(p, t, start);
            lemma_digit_run_end(t, start);
            let end = digit_run_end(t, start);
            assert(s.subrange(p.len() + start, p.len() + end) =~= t.subrange(start, end));
            lemma_captures_shift(p, t, end);
        } else {
            lemma_captures_shift(p, t, i + 1);
        }
    }
}

/// A link whose digits run into a foreign digit starts in `p + t` at a position in
/// `t` exactly when one starts in `t` there.
proof fn lemma_foreign_digit_link_at_shift(p: Seq<char>, t: Seq<char>, i: int)
    requires
        0 <= i,
    ensures
        link_prefix_at(p + t, p.len() + i) <==> link_prefix_at(t, i),
        foreign_digit_link_at(p + t, p.len() + i) <==> foreign_digit_link_at(t, i),
{
    let s = p + t;
    assert forall|q: int| 0 <= q && i + q < t.len() implies #[trigger] s[p.len() + i + q] == t[i + q] by {}
    if link_prefix_at(t, i) {
        assert forall|k: int| 0 <= k < LINK_PREFIX_LEN implies pattern_char_matches(k, #[trigger] s[p.len() + i + k]) by {
            assert(s[p.len() + i + k] == t[i + k]);
        }
    }
    if link_prefix_at(s, p.len() + i) {
        assert forall|k: int| 0 <= k < LINK_PREFIX_LEN implies pattern_char_matches(k, #[trigger] t[i + k]) by {
            assert(s[p.len() + i + k] == t[i + k]);
        }
    }
    if link_prefix_at(t, i) {
        lemma_digit_run_shift(p, t, i + LINK_PREFIX_LEN);
        lemma_digit_run_end(t, i + LINK_PREFIX_LEN);
        let e = digit_run_end(t, i + LINK_PREFIX_LEN);
        if e < t.len() {
            assert(s[p.len() + e] == t[e]);
        }
    }
}

/// The search for foreign-digit links in `p + t` from a position in `t` on finds one
/// exactly when the search in `t` from there does.
proof fn lemma_foreign_digit_link_from_shift(p: Seq<char>, t: Seq<char>, i: int)
    requires
        0 <= i,
    ensures
        foreign_digit_link_from(p + t, p.len() + i) == foreign_digit_link_from(t, i),
    decreases t.len() - i,
{
    if i < t.len() {
        lemma_foreign_digit_link_at_shift(p, t, i);
        lemma_link_at_shift(p, t, i);
        if !foreign_digit_link_at(t, i) {
            if link_at(t, i) {
                let start = i + LINK_PREFIX_LEN;
                lemma_digit_run_shift(p, t, start);
                lemma_digit_run_end(t, start);
                lemma_foreign_digit_link_from_shift(p, t, digit_run_end(t, start));
            } else {
                lemma_foreign_digit_link_from_shift(p, t, i + 1);
            }
        }
    }
}

/// `s1` and `s2` joined by a line feed.
pub open spec fn join_lines(s1: Seq<char>, s2: Seq<char>) -> Seq<char> {
    s1 + seq!['\n'] + s2
}

/// In `s1` joined with `s2`, a run of digits that starts in `s1` ends in `s1`.
proof fn lemma_join_digit_run(s1: Seq<char>, s2: Seq<char>, j: int)
    requires
        0 <= j <= s1.len(),
    ensures
        digit_run_end(join_lines(s1, s2), j) == digit_run_end(s1, j),
    decreases s1.len() - j,
{
    let s = join_lines(s1, s2);
    if j < s1.len() {
        assert(s[j] == s1[j]);
        if is_ascii_digit(s1[j]) {
            lemma_join_digit_run(s1, s2, j + 1);
        }
    } else {
        assert(s[j] == '\n');
    }
}

/// In `s1` joined with `s2`, a link starts at a position of `s1` exactly when it
/// starts in `s1` there: no link reaches over a line feed.
proof fn lemma_join_link_at(s1: Seq<char>, s2: Seq<char>, i: int)
    requires
        0 <= i <= s1.len(),
    ensures
        link_at(join_lines(s1, s2), i) <==> link_at(s1, i),
{
    let s = join_lines(s1, s2);
    lemma_pattern_has_no_line_feed();
    assert forall|q: int| 0 <= q < s1.len() implies #[trigger] s[q] == s1[q] by {}
    assert(s[s1.len() as int] == '\n');
    if link_at(s1, i) {
        assert forall|k: int| 0 <= k < LINK_PREFIX_LEN implies pattern_char_matches(k, #[trigger] s[i + k]) by {
            assert(s[i + k] == s1[i + k]);
        }
        assert(s[i + LINK_PREFIX_LEN] == s1[i + LINK_PREFIX_LEN]);
    }
    if link_at(s, i) {
        if i + LINK_PREFIX_LEN >= s1.len() {
            let q = s1.len() - i;
            if q < LINK_PREFIX_LEN {
                assert(pattern_char_matches(q, s[i + q]));
            }
            assert(false);
        }
        assert forall|k: int| 0 <= k < LINK_PREFIX_LEN implies pattern_char_matches(k, #[trigger] s1[i + k]) by {
            assert(s[i + k] == s1[i + k]);
        }
        assert(s[i + LINK_PREFIX_LEN] == s1[i + LINK_PREFIX_LEN]);
    }
}

/// In `s1` joined with `s2`, a foreign-digit link starts at a position of `s1`
/// exactly when it starts in `s1` there.
proof fn lemma_join_foreign_digit_link_at(s1: Seq<char>, s2: Seq<char>, i: int)
    requires
        0 <= i <= s1.len(),
    ensures
        link_prefix_at(join_lines(s1, s2), i) <==> link_prefix_at(s1, i),
        foreign_digit_link_at(join_lines(s1, s2), i) <==> foreign_digit_link_at(s1, i),
{
    let s = join_lines(s1, s2);
    lemma_pattern_has_no_line_feed();
    assert forall|q: int| 0 <= q < s1.len() implies #[trigger] s[q] == s1[q] by {}
    assert(s[s1.len() as int] == '\n');
    if link_prefix_at(s1, i) {
        assert forall|k: int| 0 <= k < LINK_PREFIX_LEN implies pattern_char_matches(k, #[trigger] s[i + k]) by {
            assert(s[i + k] == s1[i + k]);
        }
    }
    if link_prefix_at(s, i) {
        if i + LINK_PREFIX_LEN > s1.len() {
            let q = s1.len() - i;
            assert(pattern_char_matches(q, s[i + q]));
            assert(false);
        }
        assert forall|k: int| 0 <= k < LINK_PREFIX_LEN implies pattern_char_matches(k, #[trigger] s1[i + k]) by {
            assert(s[i + k] == s1[i + k]);
        }
    }
    if link_prefix_at(s1, i) {
        lemma_join_digit_run(s1, s2, i + LINK_PREFIX_LEN);
        lemma_digit_run_end(s1, i + LINK_PREFIX_LEN);
        let e = digit_run_end(s1, i + LINK_PREFIX_LEN);
        if e < s1.len() {
            assert(s[e] == s1[e]);
        } else {
            assert(s[e] == '\n');
        }
    }
}

/// The search for foreign-digit links in `s1` joined with `s2`, from a position of
/// `s1` on, finds one exactly when that in `s1` from there or that in `s2` does.
proof fn lemma_join_foreign_digit_link_from(s1: Seq<char>, s2: Seq<char>, i: int)
    requires
        0 <= i <= s1.len(),
    ensures
        foreign_digit_link_from(join_lines(s1, s2), i) == (foreign_digit_link_from(s1, i)
            || has_foreign_digit_link(s2)),
    decreases s1.len() - i,
{
    let s = join_lines(s1, s2);
    lemma_join_foreign_digit_link_at(s1, s2, i);
    lemma_join_link_at(s1, s2, i);
    if i == s1.len() {
        assert(s =~= (s1 + seq!['\n']) + s2);
        lemma_foreign_digit_link_from_shift(s1 + seq!['\n'], s2, 0);
        lemma_pattern_has_no_line_feed();
        assert(!link_prefix_at(s, i));
    } else if !foreign_digit_link_at(s1, i) {
        if link_at(s1, i) {
            let start = i + LINK_PREFIX_LEN;
            lemma_join_digit_run(s1, s2, start);
            lemma_digit_run_end(s1, start);
            lemma_join_foreign_digit_link_from(s1, s2, digit_run_end(s1, start));
        } else {
            lemma_join_foreign_digit_link_from(s1, s2, i + 1);
        }
    }
}

/// Two texts joined by a line feed have a foreign-digit link exactly when one of them
/// has.
pub proof fn lemma_foreign_digit_link_join(s1: Seq<char>, s2: Seq<char>)
    ensures
        has_foreign_digit_link(join_lines(s1, s2)) == (has_foreign_digit_link(s1)
            || has_foreign_digit_link(s2)),
{
    lemma_join_foreign_digit_link_from(s1, s2, 0);
}

/// The links of `s1` joined with `s2`, from a position of `s1` on: those of `s1` from
/// there, then those of `s2`.
proof fn lemma_join_captures_from(s1: Seq<char>, s2: Seq<char>, i: int)
    requires
        0 <= i <= s1.len(),
    ensures
        link_captures_from(join_lines(s1, s2), i) == link_captures_from(s1, i) + link_captures(s2),
    decreases s1.len() - i,
{
    let s = join_lines(s1, s2);
    lemma_join_link_at(s1, s2, i);
    if i == s1.len() {
        assert(s =~= (s1 + seq!['\n']) + s2);
        lemma_captures_shift(s1 + seq!['\n'], s2, 0);
        assert(link_captures_from(s1, i) =~= Seq::<Seq<char>>::empty());
        assert(link_captures_from(s1, i) + link_captures(s2) =~= link_captures(s2));
    } else if link_at(s1, i) {
        let start = i + LINK_PREFIX_LEN;
        lemma_join_digit_run(s1, s2, start);
        lemma_digit_run_end(s1, start);
        let end = digit_run_end(s1, start);
        assert(s.subrange(start, end) =~= s1.subrange(start, end));
        lemma_join_captures_from(s1, s2, end);
        let d = s1.subrange(start, end);
        assert(seq![d] + (link_captures_from(s1, end) + link_captures(s2))
            =~= (seq![d] + link_captures_from(s1, end)) + link_captures(s2));
    } else {
        lemma_join_captures_from(s1, s2, i + 1);
    }
}

/// The links of two texts joined by a line feed are the links of the first, then
/// those of the second.
pub proof fn lemma_link_captures_join(s1: Seq<char>, s2: Seq<char>)
    ensures
        link_captures(join_lines(s1, s2)) == link_captures(s1) + link_captures(s2),
        link_ids(join_lines(s1, s2)) == link_ids(s1) + link_ids(s2),
{
    lemma_join_captures_from(s1, s2, 0);
    assert(link_ids(join_lines(s1, s2)) =~= link_ids(s1) + link_ids(s2));
}

/// The link to the workshop item `id`.
pub open spec fn link_text(id: u64) -> Seq<char> {
    link_pattern() + decimal_digits(id as nat)
}

/// The links to the workshop items `ids`, one per line, in order.
pub open spec fn links_text(ids: Seq<u64>) -> Seq<char>
    decreases ids.len(),
{
    if ids.len() == 0 {
        Seq::empty()
    } else if ids.len() == 1 {
        link_text(ids[0])
    } else {
        join_lines(link_text(ids[0]), links_text(ids.drop_first()))
    }
}

/// A run of ASCII digits that reaches the end ends there.
proof fn lemma_digit_run_to_end(s: Seq<char>, j: int)
    requires
        0 <= j <= s.len(),
        forall|k: int| j <= k < s.len() ==> is_ascii_digit(#[trigger] s[k]),
    ensures
        digit_run_end(s, j) == s.len(),
    decreases s.len() - j,
{
    if j < s.len() {
        lemma_digit_run_to_end(s, j + 1);
    }
}

/// The only link in the link to `id` is that link, and its digits are those of `id`.
proof fn lemma_link_text_captures(id: u64)
    ensures
        link_captures(link_text(id)) == seq![decimal_digits(id as nat)],
        !has_foreign_digit_link(link_text(id)),
{
    let t = link_text(id);
    let d = decimal_digits(id as nat);
    lemma_pattern_has_no_line_feed();
    lemma_decimal_roundtrip(id as nat);
    assert forall|k: int| 0 <= k < LINK_PREFIX_LEN implies pattern_char_matches(k, #[trigger] t[0 + k]) by {
        assert(t[k] == link_pattern()[k]);
    }
    assert(t[LINK_PREFIX_LEN as int] == d[0]);
    assert(link_at(t, 0));
    assert forall|k: int| LINK_PREFIX_LEN <= k < t.len() implies is_ascii_digit(#[trigger] t[k]) by {
        assert(t[k] == d[k - LINK_PREFIX_LEN]);
    }
    lemma_digit_run_to_end(t, LINK_PREFIX_LEN as int);
    assert(t.subrange(LINK_PREFIX_LEN as int, t.len() as int) =~= d);
    assert(link_captures_from(t, t.len() as int) =~= Seq::<Seq<char>>::empty());
    assert(seq![d] + Seq::<Seq<char>>::empty() =~= seq![d]);
    assert(!foreign_digit_link_at(t, 0));
    assert(!foreign_digit_link_from(t, t.len() as int));
}

/// The links of the text made of the links to `ids` carry the digits of `ids`, in order.
proof fn lemma_links_text_captures(ids: Seq<u64>)
    ensures
        link_captures(links_text(ids)) == ids.map_values(|id: u64| decimal_digits(id as nat)),
        !has_foreign_digit_link(links_text(ids)),
    decreases ids.len(),
{
    if ids.len() == 0 {
        assert(link_captures(links_text(ids)) =~= Seq::<Seq<char>>::empty());
        assert(ids.map_values(|id: u64| decimal_digits(id as nat)) =~= Seq::<Seq<char>>::empty());
    } else if ids.len() == 1 {
        lemma_link_text_captures(ids[0]);
        assert(ids.map_values(|id: u64| decimal_digits(id as nat)) =~= seq![decimal_digits(ids[0] as nat)]);
    } else {
        lemma_link_text_captures(ids[0]);
        lemma_links_text_captures(ids.drop_first());
        lemma_link_captures_join(link_text(ids[0]), links_text(ids.drop_first()));
        lemma_foreign_digit_link_join(link_text(ids[0]), links_text(ids.drop_first()));
        assert(ids.map_values(|id: u64| decimal_digits(id as nat)) =~= seq![decimal_digits(ids[0] as nat)]
            + ids.drop_first().map_values(|id: u64| decimal_digits(id as nat)));
    }
}

/// Reading the links to `ids`, one per line, gives back `ids`: the text can be read,
/// and without repeats in `ids` removing repeats changes nothing.
pub proof fn lemma_links_text_roundtrip(ids: Seq<u64>)
    ensures
        links_readable(links_text(ids)),
        link_ids(links_text(ids)) == ids,
        ids.no_duplicates() ==> dedup(link_ids(links_text(ids))) == ids,
{
    lemma_links_text_captures(ids);
    let caps = link_captures(links_text(ids));
    assert forall|k: int| 0 <= k < caps.len() implies digits_value(#[trigger] caps[k]) == ids[k] by {
        lemma_decimal_roundtrip(ids[k] as nat);
    }
    assert(link_ids(links_text(ids)) =~= ids);
    if ids.no_duplicates() {
        lemma_dedup_distinct(ids);
    }
}

/// The workshop IDs read from a modpack, written back as links one per line, read
/// back as the same IDs.
pub proof fn lemma_modpack_reread(content: Seq<char>)
    requires
        links_readable(content),
    ensures
        links_readable(links_text(dedup(link_ids(content)))),
        dedup(link_ids(links_text(dedup(link_ids(content))))) == dedup(link_ids(content)),
{
    lemma_dedup_no_duplicates(link_ids(content));
    lemma_links_text_roundtrip(dedup(link_ids(content)));
}

/// The elements of `s` that `x` does not hold, in order.
pub open spec fn not_in(s: Seq<u64>, x: Seq<u64>) -> Seq<u64>
    decreases s.len(),
{
    if s.len() == 0 {
        s
    } else if x.contains(s.last()) {
        not_in(s.drop_last(), x)
    } else {
        not_in(s.drop_last(), x).push(s.last())
    }
}

/// Removing repeats from `x` followed by `y`: the IDs of `x` without repeats, then
/// those of `y` without repeats that `x` does not hold.
pub proof fn lemma_dedup_concat(x: Seq<u64>, y: Seq<u64>)
    ensures
        dedup(x + y) == dedup(x) + not_in(dedup(y), x),
    decreases y.len(),
{
    if y.len() == 0 {
        assert(x + y =~= x);
        assert(dedup(x) + not_in(dedup(y), x) =~= dedup(x));
    } else {
        let yl = y.drop_last();
        let v = y.last();
        lemma_dedup_concat(x, yl);
        assert((x + y).drop_last() =~= x + yl);
        assert((x + y).last() == v);
        assert((x + yl).contains(v) <==> x.contains(v) || yl.contains(v)) by {
            if (x + yl).contains(v) {
                let k = choose|k: int| 0 <= k < (x + yl).len() && (x + yl)[k] == v;
                if k >= x.len() {
                    assert(yl[k - x.len()] == v);
                } else {
                    assert(x[k] == v);
                }
            }
            if x.contains(v) {
                let k = choose|k: int| 0 <= k < x.len() && x[k] == v;
                assert((x + yl)[k] == v);
            }
            if yl.contains(v) {
                let k = choose|k: int| 0 <= k < yl.len() && yl[k] == v;
                assert((x + yl)[x.len() + k] == v);
            }
        }
        let r = dedup(yl);
        if !yl.contains(v) {
            assert(r.push(v).drop_last() =~= r);
            assert(r.push(v).last() == v);
            if !x.contains(v) {
                assert(dedup(x) + not_in(r, x).push(v) =~= (dedup(x) + not_in(r, x)).push(v));
            }
        }
    }
}

/// `not_in` depends only on which elements the second sequence holds.
pub proof fn lemma_not_in_same_elements(s: Seq<u64>, x: Seq<u64>, a: Seq<u64>)
    requires
        forall|v: u64| x.contains(v) <==> a.contains(v),
    ensures
        not_in(s, x) == not_in(s, a),
    decreases s.len(),
{
    if s.len() > 0 {
        lemma_not_in_same_elements(s.drop_last(), x, a);
    }
}

/// The workshop IDs of two texts joined by a line feed: those of the first, then
/// those of the second that the first does not hold, each once, in order.
pub proof fn lemma_joined_modpacks(s1: Seq<char>, s2: Seq<char>)
    requires
        links_readable(s1),
        links_readable(s2),
    ensures
        links_readable(join_lines(s1, s2)),
        dedup(link_ids(join_lines(s1, s2))) == dedup(link_ids(s1)) + not_in(
            dedup(link_ids(s2)),
            dedup(link_ids(s1)),
        ),
{
    lemma_link_captures_join(s1, s2);
    lemma_foreign_digit_link_join(s1, s2);
    let c1 = link_captures(s1);
    let c2 = link_captures(s2);
    let c = link_captures(join_lines(s1, s2));
    assert forall|k: int| 0 <= k < c.len() implies digits_value(#[trigger] c[k]) <= u64::MAX by {
        if k < c1.len() {
            assert(c[k] == c1[k]);
        } else {
            assert(c[k] == c2[k - c1.len()]);
        }
    }
    lemma_dedup_concat(link_ids(s1), link_ids(s2));
    lemma_dedup_no_duplicates(link_ids(s1));
    let a = dedup(link_ids(s1));
    assert forall|v: u64| link_ids(s1).contains(v) <==> a.contains(v) by {
        assert(link_ids(s1).to_set().contains(v) == a.to_set().contains(v));
    }
    lemma_not_in_same_elements(dedup(link_ids(s2)), link_ids(s1), a);
}

/// Appending digits never makes the value of a digit sequence smaller.
proof fn lemma_digits_value_prefix_le(s: Seq<char>, k: int)
    requires
        0 <= k <= s.len(),
    ensures
        digits_value(s.take(k)) <= digits_value(s),
    decreases s.len(),
{
    if k < s.len() {
        assert(s.drop_last().take(k) =~= s.take(k));
        lemma_digits_value_prefix_le(s.drop_last(), k);
    } else {
        assert(s.take(k) =~= s);
    }
}

/// The value of the digits `chars[start..end]`, or `None` where it does not fit in a
/// `u64`.
fn digits_to_u64(chars: &Vec<char>, start: usize, end: usize) -> (res: Option<u64>)
    requires
        start <= end <= chars@.len(),
        all_ascii_digits(chars@.subrange(start as int, end as int)),
    ensures
        res is Some <==> digits_value(chars@.subrange(start as int, end as int)) <= u64::MAX,
        res matches Some(v) ==> v == digits_value(chars@.subrange(start as int, end as int)),
{
    let ghost d = chars@.subrange(start as int, end as int);
    let mut value: u64 = 0;
    let mut k: usize = start;
    while k < end
        invariant
            start <= k <= end <= chars@.len(),
            d == chars@.subrange(start as int, end as int),
            all_ascii_digits(d),
            value == digits_value(d.take(k - start)),
        decreases end - k,
    {
        let c = chars[k];
        assert(c == d[k - start]);
        assert(is_ascii_digit(c));
        let digit: u64 = (c as u32 - 48) as u64;
        proof {
            assert(d.take(k - start + 1).drop_last() =~= d.take(k - start));
            lemma_digits_value_prefix_le(d, k - start + 1);
        }
        if value > u64::MAX / 10 || (value == u64::MAX / 10 && digit > u64::MAX % 10) {
            return None;
        }
        value = value * 10 + digit;
        k = k + 1;
    }
    assert(d.take(end - start) =~= d);
    Some(value)
}

/// Whether the link prefix matches `chars` at `i`.
fn prefix_matches_at(chars: &Vec<char>, pattern: &Vec<char>, i: usize) -> (b: bool)
    requires
        pattern@ == link_pattern(),
    ensures
        b == link_prefix_at(chars@, i as int),
{
    let n = chars.len();
    if i > n || n - i < LINK_PREFIX_LEN {
        return false;
    }
    for k in 0..LINK_PREFIX_LEN
        invariant
            pattern@ == link_pattern(),
            n == chars@.len(),
            i + LINK_PREFIX_LEN <= n,
            forall|q: int| 0 <= q < k ==> pattern_char_matches(q, #[trigger] chars@[i + q]),
    {
        let c = chars[i + k];
        if k == LINK_WILDCARD {
            if c == '\n' {
                return false;
            }
        } else if c != pattern[k] {
            return false;
        }
    }
    true
}

/// The IDs of the workshop links in the characters `chars`, repeats included, or
/// `None` where one does not fit in a `u64`.
fn scan_link_ids(chars: &Vec<char>) -> (res: Option<Vec<u64>>)
    ensures
        res is Some <==> links_readable(chars@),
        res matches Some(ids) ==> ids@ == link_ids(chars@),
{
    let ghost s = chars@;
    let pattern = chars_of(LINK_PREFIX);
    proof {
        reveal_strlit("https://steamcommunity.com/sharedfiles/filedetails/?id=");
        assert(pattern@ =~= link_pattern());
    }
    let n = chars.len();
    let mut ids: Vec<u64> = Vec::new();
    let ghost mut caps: Seq<Seq<char>> = Seq::empty();
    let mut i: usize = 0;
    while i < n
        invariant
            n == s.len(),
            s == chars@,
            pattern@ == link_pattern(),
            i <= n,
            link_captures(s) == caps + link_captures_from(s, i as int),
            has_foreign_digit_link(s) == foreign_digit_link_from(s, i as int),
            ids@ == caps.map_values(|d: Seq<char>| digits_value(d) as u64),
            forall|k: int| 0 <= k < caps.len() ==> digits_value(#[trigger] caps[k]) <= u64::MAX,
        decreases n - i,
    {
        if prefix_matches_at(chars, &pattern, i) {
            let start = i + LINK_PREFIX_LEN;
            let mut end = start;
            while end < n && '0' <= chars[end] && chars[end] <= '9'
                invariant
                    n == s.len(),
                    s == chars@,
                    start <= end <= n,
                    digit_run_end(s, start as int) == digit_run_end(s, end as int),
                decreases n - end,
            {
                end = end + 1;
            }
            proof {
                lemma_digit_run_end(s, start as int);
                assert(digit_run_end(s, end as int) == end);
            }
            if end < n && (chars[end] as u32) >= 128 && is_regex_decimal_digit(chars[end]) {
                assert(foreign_digit_link_at(s, i as int));
                return None;
            }
            assert(!foreign_digit_link_at(s, i as int));
            if end == start {
                assert(!link_at(s, i as int));
                i = i + 1;
                continue;
            }
            assert(link_at(s, i as int));
            let ghost d = s.subrange(start as int, end as int);
            let ghost rest = link_captures_from(s, end as int);
            assert(link_captures_from(s, i as int) == seq![d] + rest);
            match digits_to_u64(chars, start, end) {
                None => {
                    assert(link_captures(s)[caps.len() as int] == d);
                    return None;
                },
                Some(v) => {
                    proof {
                        assert(caps.push(d) + rest =~= caps + (seq![d] + rest));
                        caps = caps.push(d);
                    }
                    ids.push(v);
                    assert(ids@ =~= caps.map_values(|d: Seq<char>| digits_value(d) as u64));
                    i = end;
                },
            }
        } else {
            assert(!link_at(s, i as int));
            i = i + 1;
        }
    }
    assert(link_captures_from(s, i as int) =~= Seq::<Seq<char>>::empty());
    assert(caps + Seq::<Seq<char>>::empty() =~= caps);
    assert(!foreign_digit_link_from(s, i as int));
    Some(ids)
}

/// `ids` with every repeat of an earlier ID removed.
pub fn dedup_ids(ids: &Vec<u64>) -> (res: Vec<u64>)
    ensures
        res@ == dedup(ids@),
{
    broadcast use vstd::std_specs::hash::group_hash_axioms;

    let mut seen: HashSet<u64> = HashSet::new();
    let mut out: Vec<u64> = Vec::new();
    let n = ids.len();
    for i in 0..n
        invariant
            n == ids@.len(),
            out@ == dedup(ids@.take(i as int)),
            seen@ == ids@.take(i as int).to_set(),
    {
        let id = ids[i];
        proof {
            let t = ids@.take(i + 1);
            assert(t.drop_last() =~= ids@.take(i as int));
            assert(t.last() == id);
            assert(t =~= ids@.take(i as int) + seq![id]);
            Seq::lemma_to_set_insert_commutes(ids@.take(i as int), id);
        }
        if seen.insert(id) {
            out.push(id);
        }
    }
    assert(ids@.take(n as int) =~= ids@);
    out
}

impl Modpack {
    /// The modpack whose workshop IDs are those of the workshop links in `content`,
    /// each once, in the order of first appearance.
    ///
    /// Where the ID of a link does not fit in a `u64`, or its digits run into a decimal
    /// digit of another script (which the link pattern's `\d` takes in, and a `u64`
    /// cannot be read from), the result is `Err(())`: reading such a file is refused
    /// rather than aborted.
    pub fn from_content(content: &str) -> (res: Result<Modpack, ()>)
        ensures
            res is Ok <==> links_readable(content@),
            res matches Ok(m) ==> m.workshop_ids@ == dedup(link_ids(content@)),
    {
        let chars = chars_of(content);
        match scan_link_ids(&chars) {
            Some(ids) => Ok(Modpack { workshop_ids: dedup_ids(&ids) }),
            None => Err(()),
        }
    }
}

/// Reads a modpack as [`Modpack::from_content`] does: `Err(())` where the ID of a
/// link does not fit in a `u64` or holds a non-ASCII decimal digit (the reading is
/// refused, not aborted).
impl std::str::FromStr for Modpack {
    type Err = ();

    fn from_str(content: &str) -> (res: Result<Self, Self::Err>)
        ensures
            res is Ok <==> links_readable(content@),
            res matches Ok(m) ==> m.workshop_ids@ == dedup(link_ids(content@)),
    {
        Modpack::from_content(content)
    }
}

} // verus!
