//! BLS (Boot Loader Specification) entry parsing and default-entry selection.
//!
//! Selection is by the largest `version` field, not by `sort -V` and not by
//! mtime; a tie keeps the first entry in (bytewise) glob order. A missing
//! `version` line counts as 0 and still competes; a present but non-integer
//! `version` value makes the entry be skipped.

use crate::text::{
    chars_of, is_whitespace, is_ws, line_spans, lines, matches_at, spans_within, span_view,
    string_of, sub_chars, token_spans, tokens, trim_start, trim_start_index,
};
use vstd::prelude::*;

verus! {

#[derive(Debug, Clone, PartialEq, Eq)]
pub struct BlsEntry {
    pub linux: String,
    pub initrd: String,
    pub options: String,
    /// Raw text of the `version` field's second column, if a `version` line
    /// was present at all (`None` compares as 0).
    pub version_text: Option<String>,
}

/// The mathematical value of a [`BlsEntry`].
pub struct BlsEntryModel {
    pub linux: Seq<char>,
    pub initrd: Seq<char>,
    pub options: Seq<char>,
    pub version_text: Option<Seq<char>>,
}

impl View for BlsEntry {
    type V = BlsEntryModel;

    open spec fn view(&self) -> BlsEntryModel {
        BlsEntryModel {
            linux: self.linux@,
            initrd: self.initrd@,
            options: self.options@,
            version_text: match self.version_text {
                Some(v) => Some(v@),
                None => None,
            },
        }
    }
}

/// The text after `f` and its separating whitespace on the first line of
/// `ls` that is `f` followed by a whitespace character.
pub open spec fn field_rest(ls: Seq<Seq<char>>, f: Seq<char>) -> Option<Seq<char>>
    decreases ls.len(),
{
    if ls.len() == 0 {
        None
    } else {
        let l = ls[0];
        if l.len() > f.len() && l.take(f.len() as int) == f && is_ws(l[f.len() as int]) {
            Some(trim_start(l.skip(f.len() + 1int)))
        } else {
            field_rest(ls.drop_first(), f)
        }
    }
}

/// The rest of the first `f` line of `contents`.
pub open spec fn field_line(contents: Seq<char>, f: Seq<char>) -> Option<Seq<char>> {
    field_rest(lines(contents), f)
}

/// The second whitespace-separated column of the first `f` line of `contents`.
pub open spec fn field_column(contents: Seq<char>, f: Seq<char>) -> Option<Seq<char>> {
    match field_line(contents, f) {
        Some(r) => if tokens(r).len() > 0 {
            Some(tokens(r)[0])
        } else {
            None
        },
        None => None,
    }
}

pub open spec fn or_empty(o: Option<Seq<char>>) -> Seq<char> {
    match o {
        Some(s) => s,
        None => Seq::empty(),
    }
}

/// The entry that `parse_entry` reads from `contents`.
pub open spec fn entry_model(contents: Seq<char>) -> BlsEntryModel {
    BlsEntryModel {
        linux: or_empty(field_column(contents, "linux"@)),
        initrd: or_empty(field_column(contents, "initrd"@)),
        options: or_empty(field_line(contents, "options"@)),
        version_text: field_column(contents, "version"@),
    }
}

pub open spec fn is_digit(c: char) -> bool {
    '0' <= c <= '9'
}

/// Value of a string of decimal digits.
pub open spec fn digits_value(d: Seq<char>) -> int
    decreases d.len(),
{
    if d.len() == 0 {
        0
    } else {
        10 * digits_value(d.drop_last()) + (d.last() as int - 48)
    }
}

pub open spec fn all_digits(d: Seq<char>) -> bool {
    forall|i: int| 0 <= i < d.len() ==> is_digit(#[trigger] d[i])
}

/// The digits of a numeral: what follows an optional leading sign.
pub open spec fn unsigned_part(s: Seq<char>) -> Seq<char> {
    if s.len() > 0 && (s[0] == '-' || s[0] == '+') {
        s.drop_first()
    } else {
        s
    }
}

/// `str::parse::<i64>`: an optional `+` or `-`, then one or more ASCII
/// digits, with the value in the range of `i64`.
pub open spec fn parse_i64(s: Seq<char>) -> Option<int> {
    let d = unsigned_part(s);
    if s.len() == 0 || d.len() == 0 || !all_digits(d) {
        None
    } else {
        let v = if s[0] == '-' {
            -digits_value(d)
        } else {
            digits_value(d)
        };
        if i64::MIN <= v <= i64::MAX {
            Some(v)
        } else {
            None
        }
    }
}

proof fn lemma_digits_prefix(d: Seq<char>, i: int)
    requires
        0 <= i <= d.len(),
        forall|j: int| 0 <= j < d.len() ==> is_digit(#[trigger] d[j]),
    ensures
        digits_value(d) >= digits_value(d.take(i)) >= 0,
    decreases d.len(),
{
    if d.len() > 0 {
        if i == d.len() {
            assert(d.take(i) =~= d);
            lemma_digits_prefix(d.drop_last(), 0);
        } else {
            assert(d.drop_last().take(i) =~= d.take(i));
            lemma_digits_prefix(d.drop_last(), i);
        }
    } else {
        assert(d.take(i) =~= d);
    }
}

/// `parse_i64` fails once a prefix of the digits holds a non-digit or already
/// exceeds the range.
proof fn lemma_parse_i64_fails(s: Seq<char>, start: int, k: int, overflow: bool)
    requires
        s.len() > 0,
        start == (if s[0] == '-' || s[0] == '+' {
            1int
        } else {
            0int
        }),
        1 <= k <= s.len() - start,
        overflow ==> forall|j: int| 0 <= j < k ==> is_digit(#[trigger] s.skip(start)[j]),
        overflow ==> digits_value(s.skip(start).take(k)) > (if s[0] == '-' {
            0x8000_0000_0000_0000int
        } else {
            0x7fff_ffff_ffff_ffffint
        }),
        !overflow ==> !is_digit(s[start + k - 1]),
    ensures
        parse_i64(s) is None,
{
    let d = s.skip(start);
    assert(d =~= unsigned_part(s));
    if !overflow {
        assert(s[start + k - 1] == d[k - 1]);
        assert(!is_digit(d[k - 1]));
        assert(!(forall|i: int| 0 <= i < d.len() ==> is_digit(#[trigger] d[i])));
        assert(parse_i64(s) is None);
    } else if forall|j: int| 0 <= j < d.len() ==> is_digit(#[trigger] d[j]) {
        lemma_digits_prefix(d, k);
        assert(digits_value(d) > 0x7fff_ffff_ffff_ffffint);
        assert(parse_i64(s) is None);
    } else {
        assert(parse_i64(s) is None);
    }
}

/// `str::parse::<i64>` on the characters of `s`.
pub fn parse_i64_chars(s: &[char]) -> (r: Option<i64>)
    ensures
        match r {
            Some(v) => parse_i64(s@) == Some(v as int),
            None => parse_i64(s@) is None,
        },
{
    let n = s.len();
    if n == 0 {
        return None;
    }
    let neg = s[0] == '-';
    let start: usize = if s[0] == '-' || s[0] == '+' {
        1
    } else {
        0
    };
    let ghost d = s@.skip(start as int);
    assert(d =~= unsigned_part(s@));
    if start == n {
        return None;
    }
    let limit: u64 = if neg {
        0x8000_0000_0000_0000
    } else {
        0x7fff_ffff_ffff_ffff
    };
    let mut acc: u64 = 0;
    let mut i = start;
    assert(d.take(0) =~= Seq::<char>::empty());
    while i < n
        invariant
            start <= i <= n == s@.len(),
            d == s@.skip(start as int),
            n > 0,
            start == (if s@[0] == '-' || s@[0] == '+' {
                1int
            } else {
                0int
            }),
            neg == (s@[0] == '-'),
            acc as int == digits_value(d.take(i - start)),
            acc <= limit,
            limit == if neg {
                0x8000_0000_0000_0000u64
            } else {
                0x7fff_ffff_ffff_ffffu64
            },
            forall|j: int| 0 <= j < i - start ==> is_digit(#[trigger] d[j]),
        decreases n - i,
    {
        let c = s[i];
        assert(d[i - start] == c);
        if !('0' <= c && c <= '9') {
            proof {
                lemma_parse_i64_fails(s@, start as int, i - start + 1, false);
            }
            return None;
        }
        let dg = (c as u32 - 48) as u64;
        assert(d.take(i - start + 1).drop_last() =~= d.take(i - start));
        let t: u128 = acc as u128 * 10 + dg as u128;
        assert(digits_value(d.take(i - start + 1)) == t);
        if t > limit as u128 {
            assert(is_digit(d[i - start]));
            proof {
                lemma_parse_i64_fails(s@, start as int, i - start + 1, true);
            }
            return None;
        }
        acc = t as u64;
        i = i + 1;
    }
    assert(d.take(n - start) =~= d);
    let v: i128 = if neg {
        -(acc as i128)
    } else {
        acc as i128
    };
    Some(v as i64)
}

/// Is `s[a..b]` the field name `f` followed by a whitespace character?
fn line_has_field(s: &[char], a: usize, b: usize, f: &[char]) -> (r: bool)
    requires
        a <= b <= s@.len(),
    ensures
        r == ({
            let l = s@.subrange(a as int, b as int);
            l.len() > f@.len() && l.take(f@.len() as int) == f@ && is_ws(l[f@.len() as int])
        }),
{
    let ghost l = s@.subrange(a as int, b as int);
    if b - a <= f.len() {
        return false;
    }
    assert(l.take(f@.len() as int) =~= s@.subrange(a as int, a + f@.len()));
    if !matches_at(s, a, f) {
        return false;
    }
    assert(l[f@.len() as int] == s@[a + f@.len()]);
    is_whitespace(s[a + f.len()])
}

/// The rest of the first `f` line: span within `s`.
fn first_field_line(s: &[char], f: &[char]) -> (r: Option<(usize, usize)>)
    ensures
        match r {
            None => field_line(s@, f@) is None,
            Some((a, b)) => a <= b <= s@.len() && field_line(s@, f@) == Some(
                s@.subrange(a as int, b as int),
            ),
        },
{
    let spans = line_spans(s);
    let ghost ls = lines(s@);
    let mut k: usize = 0;
    assert(ls.skip(0) =~= ls);
    while k < spans.len()
        invariant
            k <= spans@.len(),
            spans_within(s@, spans@),
            span_view(s@, spans@) == ls,
            ls == lines(s@),
            field_rest(ls, f@) == field_rest(ls.skip(k as int), f@),
        decreases spans.len() - k,
    {
        let (a, b) = spans[k];
        let ghost l = s@.subrange(a as int, b as int);
        assert(ls[k as int] == l);
        assert(ls.skip(k as int).drop_first() =~= ls.skip(k + 1));
        if line_has_field(s, a, b, f) {
            let st = trim_start_index(s, a + f.len() + 1, b);
            assert(l.skip(f@.len() + 1int) =~= s@.subrange(a + f@.len() + 1, b as int));
            return Some((st, b));
        }
        k = k + 1;
    }
    None
}

/// The second column of the first `f` line, as characters.
fn first_field_second_column(s: &[char], f: &[char]) -> (r: Option<Vec<char>>)
    ensures
        match r {
            None => field_column(s@, f@) is None,
            Some(v) => field_column(s@, f@) == Some(v@),
        },
{
    match first_field_line(s, f) {
        None => None,
        Some((a, b)) => {
            let rest = sub_chars(s, a, b);
            let spans = token_spans(&rest);
            if spans.len() == 0 {
                None
            } else {
                let (x, y) = spans[0];
                assert(tokens(rest@)[0] == rest@.subrange(x as int, y as int));
                Some(sub_chars(&rest, x, y))
            }
        },
    }
}

fn text_or_empty(o: Option<Vec<char>>) -> (r: String)
    ensures
        r@ == or_empty(
            match o {
                Some(v) => Some(v@),
                None => None,
            },
        ),
{
    match o {
        Some(v) => string_of(&v),
        None => String::new(),
    }
}

/// Parse one BLS entry file.
pub fn parse_entry(contents: &str) -> (e: BlsEntry)
    ensures
        e@ == entry_model(contents@),
{
    let s = chars_of(contents);
    let linux = first_field_second_column(&s, &chars_of("linux"));
    let initrd = first_field_second_column(&s, &chars_of("initrd"));
    let options = match first_field_line(&s, &chars_of("options")) {
        Some((a, b)) => string_of(&sub_chars(&s, a, b)),
        None => String::new(),
    };
    let version = first_field_second_column(&s, &chars_of("version"));
    let version_text = match version {
        Some(v) => Some(string_of(&v)),
        None => None,
    };
    BlsEntry { linux: text_or_empty(linux), initrd: text_or_empty(initrd), options, version_text }
}

/// Parse each BLS entry file, in order.
pub fn parse_entries(blocks: &[&str]) -> (es: Vec<BlsEntry>)
    ensures
        es@.len() == blocks@.len(),
        forall|i: int| 0 <= i < blocks@.len() ==> (#[trigger] es@[i])@ == entry_model(blocks@[i]@),
{
    let mut es: Vec<BlsEntry> = Vec::new();
    let mut k: usize = 0;
    while k < blocks.len()
        invariant
            k <= blocks@.len(),
            es@.len() == k,
            forall|i: int| 0 <= i < k ==> (#[trigger] es@[i])@ == entry_model(blocks@[i]@),
        decreases blocks.len() - k,
    {
        es.push(parse_entry(blocks[k]));
        k = k + 1;
    }
    es
}

/// Comparison value of an entry's version: a missing `version` line is 0,
/// a non-integer one is `None`.
pub open spec fn version_of(e: BlsEntryModel) -> Option<int> {
    match e.version_text {
        None => Some(0),
        Some(t) => parse_i64(t),
    }
}

pub open spec fn versions(es: Seq<BlsEntry>) -> Seq<Option<int>> {
    es.map_values(|e: BlsEntry| version_of(e@))
}

/// Entry `i` competes: its version is an integer above the initial -1.
pub open spec fn eligible(vs: Seq<Option<int>>, i: int) -> bool {
    0 <= i < vs.len() && vs[i] is Some && vs[i].unwrap() >= 0
}

/// Entry `i` is the default: the first of the competing entries with the
/// largest version.
pub open spec fn is_default(vs: Seq<Option<int>>, i: int) -> bool {
    &&& eligible(vs, i)
    &&& forall|j: int| #[trigger] eligible(vs, j) ==> vs[j].unwrap() <= vs[i].unwrap()
    &&& forall|j: int| 0 <= j < i && #[trigger] eligible(vs, j) ==> vs[j].unwrap() < vs[i].unwrap()
}

fn version_for_compare(entry: &BlsEntry) -> (r: Option<i64>)
    ensures
        match r {
            Some(v) => version_of(entry@) == Some(v as int),
            None => version_of(entry@) is None,
        },
{
    match &entry.version_text {
        None => Some(0),
        Some(v) => parse_i64_chars(&chars_of(v.as_str())),
    }
}

/// The default entry: largest integer version, first in order on a tie;
/// `None` when no entry has a usable version.
pub fn select_default(entries: &[BlsEntry]) -> (r: Option<&BlsEntry>)
    ensures
        match r {
            None => forall|i: int| !eligible(versions(entries@), i),
            Some(e) => exists|i: int| is_default(versions(entries@), i) && *e == entries@[i],
        },
{
    let ghost vs = versions(entries@);
    let mut best: Option<(usize, i64)> = None;
    let mut k: usize = 0;
    while k < entries.len()
        invariant
            k <= entries@.len(),
            vs == versions(entries@),
            match best {
                None => forall|j: int| 0 <= j < k ==> !eligible(vs, j),
                Some((bi, bv)) => {
                    &&& bi < k
                    &&& eligible(vs, bi as int)
                    &&& vs[bi as int] == Some(bv as int)
                    &&& forall|j: int| 0 <= j < k && eligible(vs, j) ==> vs[j].unwrap() <= bv
                    &&& forall|j: int| 0 <= j < bi && eligible(vs, j) ==> vs[j].unwrap() < bv
                },
            },
        decreases entries.len() - k,
    {
        let v = version_for_compare(&entries[k]);
        assert(vs[k as int] == version_of(entries@[k as int]@));
        if let Some(v) = v {
            let best_v: i64 = match best {
                None => -1,
                Some((_, bv)) => bv,
            };
            if v > best_v {
                best = Some((k, v));
            }
        }
        k = k + 1;
    }
    match best {
        None => {
            assert forall|i: int| !eligible(vs, i) by {
                if 0 <= i < k {
                }
            }
            None
        },
        Some((bi, _)) => {
            assert(is_default(vs, bi as int));
            Some(&entries[bi])
        },
    }
}

} // verus!
