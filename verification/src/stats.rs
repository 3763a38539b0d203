use vstd::prelude::*;

use crate::decimal::{all_ascii_digits, decimal_digits, decimal_string, digits_value, is_ascii_digit, lemma_decimal_roundtrip};
use crate::payloads::{FileDetails, PublishedFileDetailsResponse, Tag};
use crate::text::{chars_of, format_thousands_en, group_thousands, is_u64_text, parse_u64, u64_text_value};

verus! {

/// The file-size statistics of a modpack: one entry per workshop item found.
#[derive(Clone, Debug, Default, PartialEq, Eq)]
pub struct ModpackStats {
    pub mods: Vec<Mod>,
}

/// A workshop item with its title and file size in bytes.
#[derive(Debug, Default, PartialEq, Eq)]
pub struct Mod {
    pub publishedfileid: u64,
    pub title: String,
    pub file_size: u64,
}

impl Clone for Mod {
    fn clone(&self) -> (res: Self)
        ensures
            res == *self,
    {
        Mod { publishedfileid: self.publishedfileid, title: self.title.clone(), file_size: self.file_size }
    }
}

/// Why the details of a workshop item give no [`Mod`].
#[derive(Clone, Debug, PartialEq, Eq)]
pub enum ModError {
    /// The item does not exist (result code 9).
    ItemNotFound(String),
    /// The item came back with another result code.
    InvalidResult(String, u64),
    /// The item's ID or file size is not the text of a `u64`.
    ParseIntError(std::num::ParseIntError),
}

impl From<std::num::ParseIntError> for ModError {
    fn from(value: std::num::ParseIntError) -> Self {
        ModError::ParseIntError(value)
    }
}

impl vstd::std_specs::convert::FromSpecImpl<std::num::ParseIntError> for ModError {
    open spec fn obeys_from_spec() -> bool {
        true
    }

    open spec fn from_spec(v: std::num::ParseIntError) -> ModError {
        ModError::ParseIntError(v)
    }
}

/// The result code of a workshop item that does not exist.
pub const ITEM_NOT_FOUND: u64 = 9;

/// The [`Mod`] that the details `d` describe, if any: the details of an existing
/// item whose ID and file size are both the text of a `u64`.
pub open spec fn details_mod(d: FileDetails) -> Option<Mod> {
    match d {
        FileDetails::Item { publishedfileid, title, file_size, tags } => {
            if is_u64_text(publishedfileid@) && is_u64_text(file_size@) {
                Some(
                    Mod {
                        publishedfileid: u64_text_value(publishedfileid@),
                        title,
                        file_size: u64_text_value(file_size@),
                    },
                )
            } else {
                None
            }
        },
        FileDetails::Failed { .. } => None,
    }
}

/// The mods that a sequence of details describes, in order, skipping the details
/// that describe none.
pub open spec fn mods_of(details: Seq<FileDetails>) -> Seq<Mod>
    decreases details.len(),
{
    if details.len() == 0 {
        Seq::empty()
    } else {
        let rest = mods_of(details.drop_last());
        match details_mod(details.last()) {
            Some(m) => rest.push(m),
            None => rest,
        }
    }
}

impl Mod {
    /// The [`Mod`] of an item from the results of parsing its ID and its file size:
    /// the ID's error if its ID did not parse, else the file size's error if that did
    /// not parse, else the mod.
    pub fn from_parsed(
        publishedfileid: Result<u64, std::num::ParseIntError>,
        title: &String,
        file_size: Result<u64, std::num::ParseIntError>,
    ) -> (res: Result<Mod, ModError>)
        ensures
            res == match publishedfileid {
                Err(e) => Err::<Mod, ModError>(ModError::ParseIntError(e)),
                Ok(id) => match file_size {
                    Err(e) => Err::<Mod, ModError>(ModError::ParseIntError(e)),
                    Ok(size) => Ok::<Mod, ModError>(
                        Mod { publishedfileid: id, title: *title, file_size: size },
                    ),
                },
            },
    {
        let publishedfileid = match publishedfileid {
            Ok(v) => v,
            Err(e) => return Err(ModError::from(e)),
        };
        let file_size = match file_size {
            Ok(v) => v,
            Err(e) => return Err(ModError::from(e)),
        };
        Ok(Mod { publishedfileid, title: title.clone(), file_size })
    }

    /// The [`Mod`] that `value` describes, or why there is none. Of an item whose ID
    /// and file size do not both parse, the error is that of the ID where the ID does
    /// not parse, else that of the file size (see [`Mod::from_parsed`]).
    pub fn try_from(value: &FileDetails) -> (res: Result<Mod, ModError>)
        ensures
            res is Ok <==> details_mod(*value) is Some,
            res matches Ok(m) ==> details_mod(*value) == Some(m),
            match *value {
                FileDetails::Item { .. } => res is Ok || res matches Err(ModError::ParseIntError(_)),
                FileDetails::Failed { publishedfileid, result } => if result == ITEM_NOT_FOUND {
                    res == Err::<Mod, ModError>(ModError::ItemNotFound(publishedfileid))
                } else {
                    res == Err::<Mod, ModError>(ModError::InvalidResult(publishedfileid, result))
                },
            },
    {
        match value {
            FileDetails::Item { publishedfileid, title, file_size, tags: _ } => {
                let publishedfileid = parse_u64(publishedfileid.as_str());
                let file_size = parse_u64(file_size.as_str());
                Mod::from_parsed(publishedfileid, title, file_size)
            },
            FileDetails::Failed { publishedfileid, result } => {
                if *result == ITEM_NOT_FOUND {
                    Err(ModError::ItemNotFound(publishedfileid.clone()))
                } else {
                    Err(ModError::InvalidResult(publishedfileid.clone(), *result))
                }
            },
        }
    }
}

impl ModpackStats {
    /// The statistics of the items of `response`: one [`Mod`] per item that has one,
    /// in the order of the response. Items that have none are skipped.
    pub fn from_response(response: &PublishedFileDetailsResponse) -> (res: Result<Self, String>)
        ensures
            res is Ok,
            res matches Ok(stats) ==> stats.mods@ == mods_of(
                response.response.publishedfiledetails@,
            ),
    {
        let details = &response.response.publishedfiledetails;
        let mut mods: Vec<Mod> = Vec::new();
        let n = details.len();
        for i in 0..n
            invariant
                n == details@.len(),
                mods@ == mods_of(details@.take(i as int)),
        {
            proof {
                assert(details@.take(i + 1).drop_last() =~= details@.take(i as int));
            }
            match Mod::try_from(&details[i]) {
                Ok(m) => mods.push(m),
                Err(_) => {},
            }
        }
        assert(details@.take(n as int) =~= details@);
        Ok(ModpackStats { mods })
    }
}


/// The sum of `s`.
pub open spec fn seq_sum(s: Seq<u64>) -> nat
    decreases s.len(),
{
    if s.len() == 0 {
        0
    } else {
        (seq_sum(s.drop_last()) + s.last()) as nat
    }
}

/// The sum of a prefix is at most the sum of the whole.
pub proof fn lemma_prefix_sum_le(s: Seq<u64>, k: int)
    requires
        0 <= k <= s.len(),
    ensures
        seq_sum(s.take(k)) <= seq_sum(s),
    decreases s.len(),
{
    if k < s.len() {
        assert(s.drop_last().take(k) =~= s.take(k));
        lemma_prefix_sum_le(s.drop_last(), k);
    } else {
        assert(s.take(k) =~= s);
    }
}

/// The running totals of `values`: the `i`-th is the sum of the first `i + 1` values.
pub fn cumulative_sum(values: &[u64]) -> (sums: Vec<u64>)
    requires
        seq_sum(values@) <= u64::MAX,
    ensures
        sums@.len() == values@.len(),
        forall|i: int| 0 <= i < values@.len() ==> #[trigger] sums@[i] == seq_sum(values@.take(i + 1)),
{
    let mut sums: Vec<u64> = Vec::new();
    let mut total: u64 = 0;
    let n = values.len();
    for i in 0..n
        invariant
            n == values@.len(),
            seq_sum(values@) <= u64::MAX,
            total == seq_sum(values@.take(i as int)),
            sums@.len() == i,
            forall|k: int| 0 <= k < i ==> #[trigger] sums@[k] == seq_sum(values@.take(k + 1)),
    {
        proof {
            assert(values@.take(i + 1).drop_last() =~= values@.take(i as int));
            lemma_prefix_sum_le(values@, i + 1);
        }
        total = total + values[i];
        sums.push(total);
    }
    sums
}

/// `n` divided by `d`, rounded up.
pub open spec fn div_ceil(n: nat, d: nat) -> nat {
    ((n + d - 1) / d as int) as nat
}

/// How a file size of `n` bytes is shown: in bytes below a thousand, in kilobytes
/// (rounded up) below a million, and in megabytes (rounded up, digits grouped by
/// thousands) from there on.
pub open spec fn filesize_text(n: nat) -> Seq<char> {
    if n < 1000 {
        decimal_digits(n) + seq!['B']
    } else if n < 1_000_000 {
        decimal_digits(div_ceil(n, 1000)) + seq!['K', 'B']
    } else {
        group_thousands(decimal_digits(div_ceil(n, 1_000_000))) + seq!['M', 'B']
    }
}

/// The text of a file size of `n` bytes, such as `3KB` or `4,952MB`.
pub fn display_filesize(n: &u64) -> (s: String)
    ensures
        s@ == filesize_text(*n as nat),
{
    proof {
        reveal_strlit("B");
        reveal_strlit("KB");
        reveal_strlit("MB");
    }
    let n = *n;
    if n < 1000 {
        let mut s = decimal_string(n);
        s.append("B");
        s
    } else if n < 1_000_000 {
        let k = n / 1000 + if n % 1000 == 0 { 0 } else { 1 };
        assert(k == div_ceil(n as nat, 1000));
        let mut s = decimal_string(k);
        s.append("KB");
        s
    } else {
        let m = n / 1_000_000 + if n % 1_000_000 == 0 { 0 } else { 1 };
        assert(m == div_ceil(n as nat, 1_000_000));
        let mut s = format_thousands_en(m);
        s.append("MB");
        s
    }
}

/// The file sizes of `mods`, in order.
pub open spec fn sizes(mods: Seq<Mod>) -> Seq<u64> {
    mods.map_values(|m: Mod| m.file_size)
}

impl ModpackStats {
    /// The total size of all mods, or `None` where it does not fit in a `u64`.
    pub fn total_size(&self) -> (total: Option<u64>)
        ensures
            total is Some <==> seq_sum(sizes(self.mods@)) <= u64::MAX,
            total matches Some(t) ==> t == seq_sum(sizes(self.mods@)),
    {
        let mut total: u64 = 0;
        let n = self.mods.len();
        for i in 0..n
            invariant
                n == self.mods@.len(),
                total == seq_sum(sizes(self.mods@).take(i as int)),
        {
            proof {
                assert(sizes(self.mods@).take(i + 1).drop_last() =~= sizes(self.mods@).take(i as int));
                lemma_prefix_sum_le(sizes(self.mods@), i + 1);
            }
            let size = self.mods[i].file_size;
            if total > u64::MAX - size {
                return None;
            }
            total = total + size;
        }
        assert(sizes(self.mods@).take(n as int) =~= sizes(self.mods@));
        Some(total)
    }
}


/// How the mods are ordered in the table.
#[derive(Clone, Copy, Debug, PartialEq, Eq)]
pub enum SortMode {
    /// Largest first; equal sizes by title.
    Largest,
    /// Smallest first; equal sizes by title.
    Smallest,
    /// By title.
    Title,
}

impl Default for SortMode {
    fn default() -> (mode: Self)
        ensures
            mode == SortMode::Largest,
    {
        SortMode::Largest
    }
}

/// Whether the text `a` comes strictly before `b`: the first differing character is
/// smaller in `a`, or `a` is a proper prefix of `b`. On the characters of UTF-8 text
/// this is the order of `String`, which compares the bytes.
pub open spec fn title_lt(a: Seq<char>, b: Seq<char>) -> bool
    decreases a.len(),
{
    if a.len() == 0 {
        b.len() > 0
    } else if b.len() == 0 {
        false
    } else if a[0] != b[0] {
        (a[0] as u32) < (b[0] as u32)
    } else {
        title_lt(a.drop_first(), b.drop_first())
    }
}

/// No text comes before itself.
pub proof fn lemma_title_lt_irreflexive(a: Seq<char>)
    ensures
        !title_lt(a, a),
    decreases a.len(),
{
    if a.len() > 0 {
        lemma_title_lt_irreflexive(a.drop_first());
    }
}

/// The order of texts is transitive.
pub proof fn lemma_title_lt_transitive(a: Seq<char>, b: Seq<char>, c: Seq<char>)
    requires
        title_lt(a, b),
        title_lt(b, c),
    ensures
        title_lt(a, c),
    decreases a.len(),
{
    if a.len() > 0 && b.len() > 0 && c.len() > 0 && a[0] == b[0] && b[0] == c[0] {
        lemma_title_lt_transitive(a.drop_first(), b.drop_first(), c.drop_first());
    }
}

/// Of two texts, at most one comes before the other.
pub proof fn lemma_title_lt_asymmetric(a: Seq<char>, b: Seq<char>)
    ensures
        !(title_lt(a, b) && title_lt(b, a)),
    decreases a.len(),
{
    if a.len() > 0 && b.len() > 0 && a[0] == b[0] {
        lemma_title_lt_asymmetric(a.drop_first(), b.drop_first());
    }
}

/// Whether `a` comes strictly before `b` in the table when sorted by `mode`.
pub open spec fn sorts_before(a: Mod, b: Mod, mode: SortMode) -> bool {
    match mode {
        SortMode::Largest => a.file_size > b.file_size || (a.file_size == b.file_size
            && title_lt(a.title@, b.title@)),
        SortMode::Smallest => a.file_size < b.file_size || (a.file_size == b.file_size
            && title_lt(a.title@, b.title@)),
        SortMode::Title => title_lt(a.title@, b.title@),
    }
}

/// Where `x` goes when inserted into `s`: before the first element that it comes
/// before, or at the end.
pub open spec fn insert_pos(s: Seq<Mod>, x: Mod, mode: SortMode) -> nat
    decreases s.len(),
{
    if s.len() == 0 {
        0
    } else if sorts_before(x, s[0], mode) {
        0
    } else {
        1 + insert_pos(s.drop_first(), x, mode)
    }
}

/// `mods` sorted by `mode`, keeping the given order among equal elements: each element
/// in turn goes after every element placed before it that it does not come before.
pub open spec fn sort_mods(mods: Seq<Mod>, mode: SortMode) -> Seq<Mod>
    decreases mods.len(),
{
    if mods.len() == 0 {
        mods
    } else {
        let sorted = sort_mods(mods.drop_last(), mode);
        sorted.insert(insert_pos(sorted, mods.last(), mode) as int, mods.last())
    }
}

/// `insert_pos` is the first index whose element `x` comes before.
proof fn lemma_insert_pos(s: Seq<Mod>, x: Mod, mode: SortMode, j: int)
    requires
        0 <= j <= s.len(),
        forall|k: int| 0 <= k < j ==> !sorts_before(x, #[trigger] s[k], mode),
        j == s.len() || sorts_before(x, s[j], mode),
    ensures
        insert_pos(s, x, mode) == j,
    decreases s.len(),
{
    if s.len() > 0 && j > 0 {
        assert forall|k: int| 0 <= k < j - 1 implies !sorts_before(x, #[trigger] s.drop_first()[k], mode) by {
            assert(s.drop_first()[k] == s[k + 1]);
        }
        lemma_insert_pos(s.drop_first(), x, mode, j - 1);
    }
}

/// Whether the text `a` comes strictly before `b`.
fn title_less(a: &Vec<char>, b: &Vec<char>) -> (res: bool)
    ensures
        res == title_lt(a@, b@),
{
    let mut i: usize = 0;
    assert(a@.skip(0) =~= a@);
    assert(b@.skip(0) =~= b@);
    while i < a.len() && i < b.len()
        invariant
            i <= a@.len(),
            i <= b@.len(),
            title_lt(a@, b@) == title_lt(a@.skip(i as int), b@.skip(i as int)),
        decreases a@.len() - i,
    {
        if a[i] != b[i] {
            return (a[i] as u32) < (b[i] as u32);
        }
        proof {
            assert(a@.skip(i as int).drop_first() =~= a@.skip(i + 1));
            assert(b@.skip(i as int).drop_first() =~= b@.skip(i + 1));
        }
        i = i + 1;
    }
    i == a.len() && i < b.len()
}

/// Whether `a`, whose title has the characters `a_title`, comes before `b`.
fn mod_before(a: &Mod, a_title: &Vec<char>, b: &Mod, b_title: &Vec<char>, mode: SortMode) -> (res: bool)
    requires
        a_title@ == a.title@,
        b_title@ == b.title@,
    ensures
        res == sorts_before(*a, *b, mode),
{
    match mode {
        SortMode::Largest => a.file_size > b.file_size || (a.file_size == b.file_size && title_less(a_title, b_title)),
        SortMode::Smallest => a.file_size < b.file_size || (a.file_size == b.file_size && title_less(a_title, b_title)),
        SortMode::Title => title_less(a_title, b_title),
    }
}

/// `mods` sorted by `mode`, equal elements in their given order.
pub fn sorted_mods(mods: &Vec<Mod>, mode: SortMode) -> (res: Vec<Mod>)
    ensures
        res@ == sort_mods(mods@, mode),
{
    let mut out: Vec<Mod> = Vec::new();
    let mut titles: Vec<Vec<char>> = Vec::new();
    let n = mods.len();
    for i in 0..n
        invariant
            n == mods@.len(),
            out@ == sort_mods(mods@.take(i as int), mode),
            titles@.len() == out@.len(),
            forall|k: int| 0 <= k < out@.len() ==> (#[trigger] titles@[k])@ == out@[k].title@,
    {
        let m = mods[i].clone();
        let m_title = chars_of(m.title.as_str());
        let mut j: usize = 0;
        while j < out.len() && !mod_before(&m, &m_title, &out[j], &titles[j], mode)
            invariant
                j <= out@.len(),
                titles@.len() == out@.len(),
                forall|k: int| 0 <= k < out@.len() ==> (#[trigger] titles@[k])@ == out@[k].title@,
                m_title@ == m.title@,
                forall|k: int| 0 <= k < j ==> !sorts_before(m, #[trigger] out@[k], mode),
            decreases out@.len() - j,
        {
            j = j + 1;
        }
        proof {
            lemma_insert_pos(out@, m, mode, j as int);
            assert(mods@.take(i + 1).drop_last() =~= mods@.take(i as int));
            assert(mods@.take(i + 1).last() == mods@[i as int]);
        }
        let ghost prev_titles = titles@;
        let ghost prev_out = out@;
        out.insert(j, m);
        titles.insert(j, m_title);
        proof {
            assert forall|k: int| 0 <= k < out@.len() implies (#[trigger] titles@[k])@ == out@[k].title@ by {
                if k > j {
                    assert(titles@[k] == prev_titles[k - 1]);
                    assert(out@[k] == prev_out[k - 1]);
                } else if k < j {
                    assert(titles@[k] == prev_titles[k]);
                    assert(out@[k] == prev_out[k]);
                }
            }
        }
    }
    assert(mods@.take(n as int) =~= mods@);
    out
}


/// `sorts_before` is a strict order: irreflexive, transitive and asymmetric.
pub proof fn lemma_sorts_before_strict_order(a: Mod, b: Mod, c: Mod, mode: SortMode)
    ensures
        !sorts_before(a, a, mode),
        sorts_before(a, b, mode) && sorts_before(b, c, mode) ==> sorts_before(a, c, mode),
        !(sorts_before(a, b, mode) && sorts_before(b, a, mode)),
{
    lemma_title_lt_irreflexive(a.title@);
    lemma_title_lt_asymmetric(a.title@, b.title@);
    if title_lt(a.title@, b.title@) && title_lt(b.title@, c.title@) {
        lemma_title_lt_transitive(a.title@, b.title@, c.title@);
    }
}

/// `insert_pos` is at most the length, `x` comes before none of the elements ahead of
/// it, and before the element at it.
proof fn lemma_insert_pos_props(s: Seq<Mod>, x: Mod, mode: SortMode)
    ensures
        insert_pos(s, x, mode) <= s.len(),
        forall|k: int| 0 <= k < insert_pos(s, x, mode) ==> !sorts_before(x, #[trigger] s[k], mode),
        insert_pos(s, x, mode) < s.len() ==> sorts_before(x, s[insert_pos(s, x, mode) as int], mode),
    decreases s.len(),
{
    if s.len() > 0 && !sorts_before(x, s[0], mode) {
        lemma_insert_pos_props(s.drop_first(), x, mode);
        let p = insert_pos(s, x, mode);
        assert forall|k: int| 0 <= k < p implies !sorts_before(x, #[trigger] s[k], mode) by {
            if k > 0 {
                assert(s[k] == s.drop_first()[k - 1]);
            }
        }
    }
}

/// Whether `s` is in the order of `mode`: no element comes before an earlier one.
pub open spec fn is_sorted_by(s: Seq<Mod>, mode: SortMode) -> bool {
    forall|i: int, j: int| 0 <= i < j < s.len() ==> !sorts_before(#[trigger] s[j], #[trigger] s[i], mode)
}

/// The sorted mods are in the order of `mode`.
pub proof fn lemma_sort_mods_sorted(mods: Seq<Mod>, mode: SortMode)
    ensures
        is_sorted_by(sort_mods(mods, mode), mode),
    decreases mods.len(),
{
    if mods.len() > 0 {
        let t = sort_mods(mods.drop_last(), mode);
        let x = mods.last();
        lemma_sort_mods_sorted(mods.drop_last(), mode);
        lemma_insert_pos_props(t, x, mode);
        let p = insert_pos(t, x, mode) as int;
        let r = t.insert(p, x);
        assert(r == sort_mods(mods, mode));
        assert forall|i: int, j: int| 0 <= i < j < r.len() implies !sorts_before(#[trigger] r[j], #[trigger] r[i], mode) by {
            if i == p {
                assert(r[j] == t[j - 1]);
                lemma_sorts_before_strict_order(t[j - 1], x, t[p], mode);
                if j - 1 > p {
                    assert(!sorts_before(t[j - 1], t[p], mode));
                }
            } else if j == p {
                assert(r[i] == t[i]);
            } else {
                let ti = if i < p { i } else { i - 1 };
                let tj = if j < p { j } else { j - 1 };
                assert(r[i] == t[ti]);
                assert(r[j] == t[tj]);
            }
        }
    }
}

/// Sorting keeps every mod, each as often as it occurs.
pub proof fn lemma_sort_mods_permutation(mods: Seq<Mod>, mode: SortMode)
    ensures
        sort_mods(mods, mode).to_multiset() == mods.to_multiset(),
        sort_mods(mods, mode).len() == mods.len(),
    decreases mods.len(),
{
    broadcast use vstd::seq_lib::group_to_multiset_ensures;
    if mods.len() > 0 {
        lemma_sort_mods_permutation(mods.drop_last(), mode);
        let t = sort_mods(mods.drop_last(), mode);
        lemma_insert_pos_props(t, mods.last(), mode);
        let p = insert_pos(t, mods.last(), mode) as int;
        assert(mods =~= mods.drop_last().push(mods.last()));
        assert(t.insert(p, mods.last()).to_multiset() == t.to_multiset().insert(mods.last()));
    }
}

/// The sum of `s` split at `k`: the prefix and the suffix add up to the whole.
pub proof fn lemma_sum_split(s: Seq<u64>, k: int)
    requires
        0 <= k <= s.len(),
    ensures
        seq_sum(s.take(k)) + seq_sum(s.skip(k)) == seq_sum(s),
    decreases s.len(),
{
    if k == s.len() {
        assert(s.take(k) =~= s);
        assert(s.skip(k) =~= Seq::<u64>::empty());
    } else {
        lemma_sum_split(s.drop_last(), k);
        assert(s.drop_last().take(k) =~= s.take(k));
        assert(s.drop_last().skip(k) =~= s.skip(k).drop_last());
    }
}

/// Inserting `v` into `s` adds `v` to its sum.
proof fn lemma_sum_insert(s: Seq<u64>, p: int, v: u64)
    requires
        0 <= p <= s.len(),
    ensures
        seq_sum(s.insert(p, v)) == seq_sum(s) + v,
    decreases s.len(),
{
    if p == s.len() {
        assert(s.insert(p, v) =~= s.push(v));
        assert(s.push(v).drop_last() =~= s);
    } else {
        lemma_sum_insert(s.drop_last(), p, v);
        assert(s.insert(p, v).drop_last() =~= s.drop_last().insert(p, v));
    }
}

/// Sorting keeps the total size.
pub proof fn lemma_sort_mods_total(mods: Seq<Mod>, mode: SortMode)
    ensures
        seq_sum(sizes(sort_mods(mods, mode))) == seq_sum(sizes(mods)),
    decreases mods.len(),
{
    if mods.len() > 0 {
        lemma_sort_mods_total(mods.drop_last(), mode);
        let t = sort_mods(mods.drop_last(), mode);
        lemma_insert_pos_props(t, mods.last(), mode);
        let p = insert_pos(t, mods.last(), mode) as int;
        assert(sizes(t.insert(p, mods.last())) =~= sizes(t).insert(p, mods.last().file_size));
        lemma_sum_insert(sizes(t), p, mods.last().file_size);
        assert(sizes(mods).drop_last() =~= sizes(mods.drop_last()));
    }
}

/// A row of the statistics table.
#[derive(Clone, Debug, Default, PartialEq, Eq)]
pub struct ModStatRow {
    /// The position in the table, from 1.
    pub index: usize,
    /// The total size of this mod and the ones below it.
    pub total_up: u64,
    /// The total size of this mod and the ones above it.
    pub total_down: u64,
    /// The size of this mod.
    pub size: u64,
    /// The title of this mod.
    pub title: String,
}

/// `rows` is the table of `mods` sorted by `mode`: one row per mod in sorted order,
/// numbered from 1, with the running totals from the top and from the bottom.
pub open spec fn is_table_of(rows: Seq<ModStatRow>, mods: Seq<Mod>, mode: SortMode) -> bool {
    let sorted = sort_mods(mods, mode);
    let s = sizes(sorted);
    &&& rows.len() == sorted.len()
    &&& forall|i: int|
        0 <= i < rows.len() ==> {
            &&& (#[trigger] rows[i]).index == i + 1
            &&& rows[i].size == sorted[i].file_size
            &&& rows[i].title == sorted[i].title
            &&& rows[i].total_down == seq_sum(s.take(i + 1))
            &&& rows[i].total_up == seq_sum(s.skip(i))
        }
}

/// In the table of `mods`, the two running totals of each row add up to the total size
/// plus the row's own size; the first row's total from the bottom and the last row's
/// total from the top are both the total size; and the rows are in the order of `mode`.
pub proof fn lemma_table_totals(rows: Seq<ModStatRow>, mods: Seq<Mod>, mode: SortMode)
    requires
        is_table_of(rows, mods, mode),
    ensures
        forall|i: int|
            0 <= i < rows.len() ==> (#[trigger] rows[i]).total_up + rows[i].total_down == seq_sum(
                sizes(mods),
            ) + rows[i].size,
        rows.len() > 0 ==> rows[0].total_up == seq_sum(sizes(mods)),
        rows.len() > 0 ==> rows.last().total_down == seq_sum(sizes(mods)),
        rows.len() == mods.len(),
        is_sorted_by(sort_mods(mods, mode), mode),
{
    let sorted = sort_mods(mods, mode);
    let s = sizes(sorted);
    lemma_sort_mods_total(mods, mode);
    lemma_sort_mods_permutation(mods, mode);
    lemma_sort_mods_sorted(mods, mode);
    assert forall|i: int| 0 <= i < rows.len() implies (#[trigger] rows[i]).total_up
        + rows[i].total_down == seq_sum(sizes(mods)) + rows[i].size by {
        lemma_sum_split(s, i);
        assert(s.take(i + 1) =~= s.take(i).push(s[i]));
        assert(s.take(i + 1).drop_last() =~= s.take(i));
    }
    if rows.len() > 0 {
        assert(s.skip(0) =~= s);
        assert(s.take(rows.len() as int) =~= s);
    }
}

impl ModpackStats {
    /// The rows of the statistics table, sorted by `sort`.
    pub fn table_rows(&self, sort: SortMode) -> (rows: Vec<ModStatRow>)
        requires
            seq_sum(sizes(self.mods@)) <= u64::MAX,
        ensures
            is_table_of(rows@, self.mods@, sort),
    {
        let mods = sorted_mods(&self.mods, sort);
        let ghost sorted = sort_mods(self.mods@, sort);
        proof {
            lemma_sort_mods_total(self.mods@, sort);
            lemma_sort_mods_permutation(self.mods@, sort);
        }
        let n = mods.len();
        let mut sizes_down: Vec<u64> = Vec::new();
        for i in 0..n
            invariant
                n == mods@.len(),
                mods@ == sorted,
                sizes_down@ =~= sizes(sorted).take(i as int),
        {
            sizes_down.push(mods[i].file_size);
        }
        let ghost s = sizes(sorted);
        assert(sizes_down@ =~= s);
        let total_down = cumulative_sum(sizes_down.as_slice());
        // running totals from the bottom, bottom row first
        let mut totals_up_rev: Vec<u64> = Vec::new();
        let mut acc: u64 = 0;
        assert(s.skip(n as int) =~= Seq::<u64>::empty());
        for k in 0..n
            invariant
                n == s.len(),
                sizes_down@ == s,
                seq_sum(s) <= u64::MAX,
                acc == seq_sum(s.skip(n - k)),
                totals_up_rev@.len() == k,
                forall|q: int| 0 <= q < k ==> #[trigger] totals_up_rev@[q] == seq_sum(s.skip(n - 1 - q)),
        {
            let idx = n - 1 - k;
            proof {
                lemma_sum_split(s, idx as int);
                lemma_sum_split(s, idx + 1);
                assert(s.take(idx + 1) =~= s.take(idx as int).push(s[idx as int]));
                assert(s.take(idx + 1).drop_last() =~= s.take(idx as int));
            }
            acc = acc + sizes_down[idx];
            totals_up_rev.push(acc);
        }
        let mut rows: Vec<ModStatRow> = Vec::new();
        for i in 0..n
            invariant
                n == s.len(),
                n == mods@.len(),
                mods@ == sorted,
                s == sizes(sorted),
                total_down@.len() == n,
                forall|q: int| 0 <= q < n ==> #[trigger] total_down@[q] == seq_sum(s.take(q + 1)),
                totals_up_rev@.len() == n,
                forall|q: int| 0 <= q < n ==> #[trigger] totals_up_rev@[q] == seq_sum(s.skip(n - 1 - q)),
                rows@.len() == i,
                forall|q: int|
                    0 <= q < i ==> {
                        &&& (#[trigger] rows@[q]).index == q + 1
                        &&& rows@[q].size == sorted[q].file_size
                        &&& rows@[q].title == sorted[q].title
                        &&& rows@[q].total_down == seq_sum(s.take(q + 1))
                        &&& rows@[q].total_up == seq_sum(s.skip(q))
                    },
        {
            let m = &mods[i];
            rows.push(
                ModStatRow {
                    index: i + 1,
                    total_up: totals_up_rev[n - 1 - i],
                    total_down: total_down[i],
                    size: m.file_size,
                    title: m.title.clone(),
                },
            );
        }
        rows
    }
}

/// The mods of a single item: its mod where it has one, else none.
pub proof fn lemma_mods_of_single(x: FileDetails)
    ensures
        mods_of(seq![x]) == match details_mod(x) {
            Some(m) => seq![m],
            None => Seq::<Mod>::empty(),
        },
{
    assert(seq![x].drop_last() =~= Seq::<FileDetails>::empty());
    assert(seq![x].last() == x);
    assert(mods_of(Seq::<FileDetails>::empty()) == Seq::<Mod>::empty());
    match details_mod(x) {
        Some(m) => {
            assert(Seq::<Mod>::empty().push(m) =~= seq![m]);
        },
        None => {},
    }
}

/// The mods of two runs of items, one after the other, are the mods of the first run
/// followed by those of the second.
pub proof fn lemma_mods_of_concat(d1: Seq<FileDetails>, d2: Seq<FileDetails>)
    ensures
        mods_of(d1 + d2) == mods_of(d1) + mods_of(d2),
    decreases d2.len(),
{
    if d2.len() == 0 {
        assert(d1 + d2 =~= d1);
        assert(mods_of(d1) + mods_of(d2) =~= mods_of(d1));
    } else {
        lemma_mods_of_concat(d1, d2.drop_last());
        assert((d1 + d2).drop_last() =~= d1 + d2.drop_last());
        assert((d1 + d2).last() == d2.last());
        match details_mod(d2.last()) {
            Some(m) => {
                assert(mods_of(d1) + mods_of(d2.drop_last()).push(m) =~= (mods_of(d1) + mods_of(
                    d2.drop_last(),
                )).push(m));
            },
            None => {},
        }
    }
}

/// Every item that has a mod contributes it to the mods of the response, and there are
/// no more mods than items.
pub proof fn lemma_mods_of_contains(details: Seq<FileDetails>)
    ensures
        forall|i: int|
            0 <= i < details.len() && (#[trigger] details_mod(details[i])) is Some ==> mods_of(
                details,
            ).contains(details_mod(details[i])->0),
        mods_of(details).len() <= details.len(),
    decreases details.len(),
{
    if details.len() > 0 {
        let d = details.drop_last();
        lemma_mods_of_contains(d);
        assert forall|i: int|
            0 <= i < details.len() && (#[trigger] details_mod(details[i])) is Some implies mods_of(
                details,
            ).contains(details_mod(details[i])->0) by {
            let m = details_mod(details[i])->0;
            if i < details.len() - 1 {
                assert(details[i] == d[i]);
                let k = choose|k: int| 0 <= k < mods_of(d).len() && mods_of(d)[k] == m;
                if details_mod(details.last()) is Some {
                    assert(mods_of(details)[k] == m);
                }
            } else {
                assert(mods_of(details).last() == m);
            }
        }
    }
}

/// The order of texts is the lexicographic order from the first character: a common
/// first character is skipped, a smaller first character comes first, the empty text
/// comes before every other text and nothing comes before it.
pub proof fn lemma_title_lt_lexicographic(a: Seq<char>, b: Seq<char>, x: char, y: char)
    ensures
        title_lt(seq![x] + a, seq![x] + b) == title_lt(a, b),
        (x as u32) < (y as u32) ==> title_lt(seq![x] + a, seq![y] + b),
        (x as u32) < (y as u32) ==> !title_lt(seq![y] + b, seq![x] + a),
        title_lt(Seq::empty(), b) <==> b.len() > 0,
        !title_lt(a, Seq::empty()),
{
    assert((seq![x] + a)[0] == x);
    assert((seq![x] + b)[0] == x);
    assert((seq![y] + b)[0] == y);
    assert((seq![x] + a).drop_first() =~= a);
    assert((seq![x] + b).drop_first() =~= b);
}

/// The details of an item whose ID and file size are written in decimal give the mod
/// with that ID, title and file size; failed details give none.
pub proof fn lemma_details_mod_decimal(
    id: u64,
    size: u64,
    publishedfileid: String,
    title: String,
    file_size: String,
    tags: Vec<Tag>,
    result: u64,
)
    requires
        publishedfileid@ == decimal_digits(id as nat),
        file_size@ == decimal_digits(size as nat),
    ensures
        details_mod(FileDetails::Item { publishedfileid, title, file_size, tags }) == Some(
            Mod { publishedfileid: id, title, file_size: size },
        ),
        details_mod(FileDetails::Failed { publishedfileid, result }) is None,
{
    lemma_decimal_roundtrip(id as nat);
    lemma_decimal_roundtrip(size as nat);
    assert(is_ascii_digit(publishedfileid@[0]));
    assert(is_ascii_digit(file_size@[0]));
}

/// The rows of the table are in the order asked for: by size, largest first or
/// smallest first, equal sizes by title; or by title. Every mod has a row with its size
/// and title, and there are as many rows as mods.
pub proof fn lemma_table_order(rows: Seq<ModStatRow>, mods: Seq<Mod>, mode: SortMode)
    requires
        is_table_of(rows, mods, mode),
    ensures
        rows.len() == mods.len(),
        forall|i: int, j: int|
            0 <= i < j < rows.len() ==> {
                &&& (mode == SortMode::Largest ==> (#[trigger] rows[j]).size <= (#[trigger] rows[i]).size)
                &&& (mode == SortMode::Smallest ==> rows[i].size <= rows[j].size)
                &&& (mode == SortMode::Title || rows[i].size == rows[j].size ==> !title_lt(
                    rows[j].title@,
                    rows[i].title@,
                ))
            },
        forall|k: int|
            0 <= k < mods.len() ==> exists|i: int|
                0 <= i < rows.len() && (#[trigger] rows[i]).size == (#[trigger] mods[k]).file_size
                    && rows[i].title == mods[k].title,
{
    broadcast use vstd::seq_lib::group_to_multiset_ensures;

    let sorted = sort_mods(mods, mode);
    lemma_sort_mods_sorted(mods, mode);
    lemma_sort_mods_permutation(mods, mode);
    assert forall|i: int, j: int| 0 <= i < j < rows.len() implies {
        &&& (mode == SortMode::Largest ==> (#[trigger] rows[j]).size <= (#[trigger] rows[i]).size)
        &&& (mode == SortMode::Smallest ==> rows[i].size <= rows[j].size)
        &&& (mode == SortMode::Title || rows[i].size == rows[j].size ==> !title_lt(
            rows[j].title@,
            rows[i].title@,
        ))
    } by {
        assert(!sorts_before(sorted[j], sorted[i], mode));
    }
    assert forall|k: int| 0 <= k < mods.len() implies exists|i: int|
        0 <= i < rows.len() && (#[trigger] rows[i]).size == (#[trigger] mods[k]).file_size
            && rows[i].title == mods[k].title by {
        assert(mods.contains(mods[k]));
        assert(mods.to_multiset().count(mods[k]) > 0);
        assert(sorted.contains(mods[k]));
        let i = choose|i: int| 0 <= i < sorted.len() && sorted[i] == mods[k];
        assert(rows[i].size == mods[k].file_size);
    }
}

/// `s` with its commas left out.
pub open spec fn without_commas(s: Seq<char>) -> Seq<char>
    decreases s.len(),
{
    if s.len() == 0 {
        s
    } else if s.last() == ',' {
        without_commas(s.drop_last())
    } else {
        without_commas(s.drop_last()).push(s.last())
    }
}

/// Leaving out the commas of two texts one after the other.
proof fn lemma_without_commas_concat(a: Seq<char>, b: Seq<char>)
    ensures
        without_commas(a + b) == without_commas(a) + without_commas(b),
    decreases b.len(),
{
    if b.len() == 0 {
        assert(a + b =~= a);
        assert(without_commas(a) + without_commas(b) =~= without_commas(a));
    } else {
        lemma_without_commas_concat(a, b.drop_last());
        assert((a + b).drop_last() =~= a + b.drop_last());
        assert((a + b).last() == b.last());
        if b.last() != ',' {
            assert(without_commas(a) + without_commas(b.drop_last()).push(b.last())
                =~= (without_commas(a) + without_commas(b.drop_last())).push(b.last()));
        }
    }
}

/// Digits have no commas to leave out.
proof fn lemma_without_commas_digits(d: Seq<char>)
    requires
        all_ascii_digits(d),
    ensures
        without_commas(d) == d,
    decreases d.len(),
{
    if d.len() > 0 {
        assert(all_ascii_digits(d.drop_last())) by {
            assert forall|i: int| 0 <= i < d.drop_last().len() implies is_ascii_digit(#[trigger] d.drop_last()[i]) by {
                assert(d.drop_last()[i] == d[i]);
            }
        }
        lemma_without_commas_digits(d.drop_last());
        assert(is_ascii_digit(d[d.len() - 1]));
        assert(d.drop_last().push(d.last()) =~= d);
    }
}

/// Grouping digits by thousands only puts in commas: leaving them out gives the digits
/// back, and every character is a digit or a comma.
pub proof fn lemma_group_thousands_digits(d: Seq<char>)
    requires
        all_ascii_digits(d),
    ensures
        without_commas(group_thousands(d)) == d,
        forall|i: int|
            0 <= i < group_thousands(d).len() ==> is_ascii_digit(#[trigger] group_thousands(d)[i])
                || group_thousands(d)[i] == ',',
    decreases d.len(),
{
    if d.len() <= 3 {
        lemma_without_commas_digits(d);
    } else {
        let h = d.take(d.len() - 3);
        let t = d.skip(d.len() - 3);
        assert(all_ascii_digits(h)) by {
            assert forall|i: int| 0 <= i < h.len() implies is_ascii_digit(#[trigger] h[i]) by {
                assert(h[i] == d[i]);
            }
        }
        assert(all_ascii_digits(t)) by {
            assert forall|i: int| 0 <= i < t.len() implies is_ascii_digit(#[trigger] t[i]) by {
                assert(t[i] == d[d.len() - 3 + i]);
            }
        }
        lemma_group_thousands_digits(h);
        lemma_without_commas_digits(t);
        let g = group_thousands(h);
        lemma_without_commas_concat(g + seq![','], t);
        lemma_without_commas_concat(g, seq![',']);
        assert(seq![','].drop_last() =~= Seq::<char>::empty());
        assert(seq![','].last() == ',');
        assert(without_commas(Seq::<char>::empty()) == Seq::<char>::empty());
        assert(without_commas(seq![',']) =~= Seq::<char>::empty());
        assert(h + t =~= d);
        assert(without_commas(g) + Seq::<char>::empty() =~= without_commas(g));
        let r = group_thousands(d);
        assert forall|i: int| 0 <= i < r.len() implies is_ascii_digit(#[trigger] r[i]) || r[i] == ',' by {
            if i < g.len() {
                assert(r[i] == g[i]);
            } else if i > g.len() {
                assert(r[i] == t[i - g.len() - 1]);
            }
        }
    }
}

/// How a file size is shown: below a thousand bytes as its digits and `B`; below a
/// million as `KB` after the least number of kilobytes that holds it; from a million on
/// as `MB` after the least number of megabytes that holds it, written with digits and
/// commas (the commas left out, the digits of that number).
pub proof fn lemma_filesize_text_units(n: nat)
    ensures
        n < 1000 ==> {
            &&& filesize_text(n).len() >= 2
            &&& filesize_text(n).last() == 'B'
            &&& all_ascii_digits(filesize_text(n).drop_last())
            &&& digits_value(filesize_text(n).drop_last()) == n
        },
        1000 <= n < 1_000_000 ==> {
            let t = filesize_text(n);
            let k = digits_value(t.take(t.len() - 2));
            &&& t.len() >= 3
            &&& t[t.len() - 2] == 'K'
            &&& t.last() == 'B'
            &&& all_ascii_digits(t.take(t.len() - 2))
            &&& k * 1000 >= n
            &&& (k - 1) * 1000 < n
        },
        n >= 1_000_000 ==> {
            let t = filesize_text(n);
            let p = t.take(t.len() - 2);
            let k = digits_value(without_commas(p));
            &&& t.len() >= 3
            &&& t[t.len() - 2] == 'M'
            &&& t.last() == 'B'
            &&& forall|i: int| 0 <= i < p.len() ==> is_ascii_digit(#[trigger] p[i]) || p[i] == ','
            &&& all_ascii_digits(without_commas(p))
            &&& k * 1_000_000 >= n
            &&& (k - 1) * 1_000_000 < n
        },
{
    let t = filesize_text(n);
    if n < 1000 {
        lemma_decimal_roundtrip(n);
        assert(t.drop_last() =~= decimal_digits(n));
    } else if n < 1_000_000 {
        let k = div_ceil(n, 1000);
        lemma_decimal_roundtrip(k);
        assert(t.take(t.len() - 2) =~= decimal_digits(k));
        assert(k * 1000 >= n && (k - 1) * 1000 < n) by (nonlinear_arith)
            requires
                k == (n + 1000 - 1) / 1000,
        ;
    } else {
        let k = div_ceil(n, 1_000_000);
        lemma_decimal_roundtrip(k);
        lemma_group_thousands_digits(decimal_digits(k));
        assert(t.take(t.len() - 2) =~= group_thousands(decimal_digits(k)));
        assert(k * 1_000_000 >= n && (k - 1) * 1_000_000 < n) by (nonlinear_arith)
            requires
                k == (n + 1_000_000 - 1) / 1_000_000,
        ;
    }
}

/// The sum of one value is that value, and the sum of two runs of values one after
/// the other is the sum of their sums.
pub proof fn lemma_seq_sum_additive(a: Seq<u64>, b: Seq<u64>, x: u64)
    ensures
        seq_sum(seq![x]) == x,
        seq_sum(a + b) == seq_sum(a) + seq_sum(b),
    decreases b.len(),
{
    assert(seq![x].drop_last() =~= Seq::<u64>::empty());
    assert(seq_sum(Seq::<u64>::empty()) == 0);
    if b.len() == 0 {
        assert(a + b =~= a);
    } else {
        lemma_seq_sum_additive(a, b.drop_last(), x);
        assert((a + b).drop_last() =~= a + b.drop_last());
        assert((a + b).last() == b.last());
    }
}

} // verus!
