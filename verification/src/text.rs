//! Character-sequence model of the text operations the library performs:
//! whitespace, tokens, lines, trimming, substring search and replacement.

use vstd::prelude::*;

verus! {

/// std's `String::push` appends `ch` at the end of `s`, as its documentation
/// says; nothing else changes.
pub assume_specification[ String::push ](s: &mut String, ch: char)
    ensures
        final(s)@ == old(s)@.push(ch),
;

/// The Unicode `White_Space` property, as `char::is_whitespace` documents it.
pub open spec fn is_ws(c: char) -> bool {
    let u = c as u32;
    ||| 0x09 <= u <= 0x0D
    ||| u == 0x20
    ||| u == 0x85
    ||| u == 0xA0
    ||| u == 0x1680
    ||| 0x2000 <= u <= 0x200A
    ||| u == 0x2028
    ||| u == 0x2029
    ||| u == 0x202F
    ||| u == 0x205F
    ||| u == 0x3000
}

pub fn is_whitespace(c: char) -> (b: bool)
    ensures
        b == is_ws(c),
{
    let u = c as u32;
    (0x09 <= u && u <= 0x0D) || u == 0x20 || u == 0x85 || u == 0xA0 || u == 0x1680 || (0x2000
        <= u && u <= 0x200A) || u == 0x2028 || u == 0x2029 || u == 0x202F || u == 0x205F || u
        == 0x3000
}

/// The characters of `s`, in order.
pub fn chars_of(s: &str) -> (v: Vec<char>)
    ensures
        v@ == s@,
{
    let mut v: Vec<char> = Vec::new();
    for c in it: s.chars()
        invariant
            v@ == it.seq().take(it.index() as int),
            it.seq() == s@,
    {
        v.push(c);
        assert(v@ == it.seq().take(it.index() + 1));
    }
    assert(v@ == s@);
    v
}

/// A `String` holding exactly the characters of `v`.
pub fn string_of(v: &[char]) -> (s: String)
    ensures
        s@ == v@,
{
    let mut s = String::new();
    let mut i: usize = 0;
    while i < v.len()
        invariant
            i <= v.len(),
            s@ == v@.take(i as int),
        decreases v.len() - i,
    {
        s.push(v[i]);
        i = i + 1;
        assert(s@ == v@.take(i as int));
    }
    assert(v@.take(v.len() as int) == v@);
    s
}


/// Number of leading characters of `s` before the first whitespace.
pub open spec fn word_len(s: Seq<char>) -> nat
    decreases s.len(),
{
    if s.len() == 0 || is_ws(s[0]) {
        0
    } else {
        1 + word_len(s.drop_first())
    }
}

pub proof fn lemma_word_len(s: Seq<char>)
    ensures
        word_len(s) <= s.len(),
        s.len() > 0 && !is_ws(s[0]) ==> word_len(s) >= 1,
    decreases s.len(),
{
    if s.len() > 0 && !is_ws(s[0]) {
        lemma_word_len(s.drop_first());
    }
}

/// The whitespace-separated tokens of `s` (`str::split_whitespace`).
pub open spec fn tokens(s: Seq<char>) -> Seq<Seq<char>>
    decreases s.len(),
{
    if s.len() == 0 {
        seq![]
    } else if is_ws(s[0]) {
        tokens(s.drop_first())
    } else {
        let w = word_len(s);
        proof {
            lemma_word_len(s);
        }
        seq![s.take(w as int)] + tokens(s.skip(w as int))
    }
}

/// The sequence of subranges of `s` named by `spans`.
pub open spec fn span_view(s: Seq<char>, spans: Seq<(usize, usize)>) -> Seq<Seq<char>> {
    Seq::new(spans.len(), |k: int| s.subrange(spans[k].0 as int, spans[k].1 as int))
}

pub open spec fn spans_within(s: Seq<char>, spans: Seq<(usize, usize)>) -> bool {
    forall|k: int| 0 <= k < spans.len() ==> #[trigger] spans[k].0 <= spans[k].1 <= s.len()
}

proof fn lemma_skip_step(s: Seq<char>, i: int)
    requires
        0 <= i < s.len(),
    ensures
        s.skip(i).drop_first() == s.skip(i + 1),
        s.skip(i)[0] == s[i],
        s.skip(i).len() > 0,
{
    assert(s.skip(i).drop_first() =~= s.skip(i + 1));
}

/// Start and end positions of each whitespace-separated token of `s`.
pub fn token_spans(s: &[char]) -> (spans: Vec<(usize, usize)>)
    ensures
        spans_within(s@, spans@),
        span_view(s@, spans@) == tokens(s@),
{
    let n = s.len();
    let mut i: usize = 0;
    let mut spans: Vec<(usize, usize)> = Vec::new();
    assert(s@.skip(0) =~= s@);
    while i < n
        invariant
            i <= n == s@.len(),
            spans_within(s@, spans@),
            tokens(s@) == span_view(s@, spans@) + tokens(s@.skip(i as int)),
        decreases n - i,
    {
        proof {
            lemma_skip_step(s@, i as int);
        }
        if is_whitespace(s[i]) {
            i = i + 1;
        } else {
            let start = i;
            let ghost rest = s@.skip(start as int);
            while i < n && !is_whitespace(s[i])
                invariant
                    start <= i <= n == s@.len(),
                    rest == s@.skip(start as int),
                    word_len(rest) == (i - start) + word_len(s@.skip(i as int)),
                decreases n - i,
            {
                proof {
                    lemma_skip_step(s@, i as int);
                }
                i = i + 1;
            }
            proof {
                if i < n {
                    lemma_skip_step(s@, i as int);
                } else {
                    assert(s@.skip(i as int).len() == 0);
                }
                assert(word_len(rest) == i - start);
                assert(rest.take(i - start) =~= s@.subrange(start as int, i as int));
                assert(rest.skip(i - start) =~= s@.skip(i as int));
            }
            let ghost old_view = span_view(s@, spans@);
            spans.push((start, i));
            assert(span_view(s@, spans@) =~= old_view.push(s@.subrange(start as int, i as int)));
        }
    }
    assert(s@.skip(n as int).len() == 0);
    assert(span_view(s@, spans@) + tokens(s@.skip(n as int)) =~= span_view(s@, spans@));
    spans
}


/// Index of the first occurrence of `c` in `s`.
pub open spec fn find_char(s: Seq<char>, c: char) -> Option<int>
    decreases s.len(),
{
    if s.len() == 0 {
        None
    } else if s[0] == c {
        Some(0)
    } else {
        match find_char(s.drop_first(), c) {
            Some(k) => Some(k + 1),
            None => None,
        }
    }
}

pub proof fn lemma_find_char(s: Seq<char>, c: char)
    ensures
        find_char(s, c) matches Some(k) ==> 0 <= k < s.len() && s[k] == c && forall|j: int|
            0 <= j < k ==> s[j] != c,
        find_char(s, c) is None ==> forall|j: int| 0 <= j < s.len() ==> s[j] != c,
    decreases s.len(),
{
    if s.len() > 0 {
        lemma_find_char(s.drop_first(), c);
        if s[0] != c {
            assert forall|j: int| 1 <= j < s.len() implies s[j] == s.drop_first()[j - 1] by {}
        }
    }
}

/// `find_char` pinned down by where the first `c` stands (or that none does).
pub proof fn lemma_find_char_at(s: Seq<char>, c: char, k: int)
    requires
        0 <= k <= s.len(),
        forall|j: int| 0 <= j < k ==> s[j] != c,
        k < s.len() ==> s[k] == c,
    ensures
        find_char(s, c) == (if k < s.len() { Some(k) } else { None::<int> }),
{
    lemma_find_char(s, c);
}

/// A line with one trailing carriage return removed.
pub open spec fn strip_cr(l: Seq<char>) -> Seq<char> {
    if l.len() > 0 && l.last() == '\r' {
        l.drop_last()
    } else {
        l
    }
}

/// The lines of `s` (`str::lines`): split at `\n`, a `\r` before a `\n` is
/// dropped, and a final line ending is optional.
pub open spec fn lines(s: Seq<char>) -> Seq<Seq<char>>
    decreases s.len(),
{
    if s.len() == 0 {
        seq![]
    } else {
        proof {
            lemma_find_char(s, '\n');
        }
        match find_char(s, '\n') {
            Some(k) => seq![strip_cr(s.take(k))] + lines(s.skip(k + 1)),
            None => seq![s],
        }
    }
}

/// Start and end positions of each line of `s`.
pub fn line_spans(s: &[char]) -> (spans: Vec<(usize, usize)>)
    ensures
        spans_within(s@, spans@),
        span_view(s@, spans@) == lines(s@),
{
    let n = s.len();
    let mut i: usize = 0;
    let mut spans: Vec<(usize, usize)> = Vec::new();
    assert(s@.skip(0) =~= s@);
    while i < n
        invariant
            i <= n == s@.len(),
            spans_within(s@, spans@),
            lines(s@) == span_view(s@, spans@) + lines(s@.skip(i as int)),
        decreases n - i,
    {
        let start = i;
        while i < n && s[i] != '\n'
            invariant
                start <= i <= n == s@.len(),
                forall|j: int| start <= j < i ==> s@[j] != '\n',
            decreases n - i,
        {
            i = i + 1;
        }
        let ghost rest = s@.skip(start as int);
        proof {
            lemma_find_char_at(rest, '\n', i - start);
        }
        let ghost old_view = span_view(s@, spans@);
        let ghost old_spans = spans@;
        if i < n {
            let mut end = i;
            if end > start && s[end - 1] == '\r' {
                end = end - 1;
            }
            assert(strip_cr(rest.take(i - start)) =~= s@.subrange(start as int, end as int));
            assert(rest.skip(i - start + 1) =~= s@.skip(i + 1));
            spans.push((start, end));
            i = i + 1;
        } else {
            assert(rest =~= s@.subrange(start as int, n as int));
            spans.push((start, n));
        }
        assert(span_view(s@, spans@) =~= old_view.push(
            s@.subrange(spans@.last().0 as int, spans@.last().1 as int),
        ));
        assert forall|k: int| 0 <= k < spans@.len() implies #[trigger] spans@[k].0 <= spans@[k].1
            <= s@.len() by {
            if k < old_spans.len() {
                assert(spans@[k] == old_spans[k]);
            }
        }
    }
    assert(span_view(s@, spans@) + lines(s@.skip(n as int)) =~= span_view(s@, spans@));
    spans
}

/// `s` with leading whitespace removed.
pub open spec fn trim_start(s: Seq<char>) -> Seq<char>
    decreases s.len(),
{
    if s.len() > 0 && is_ws(s[0]) {
        trim_start(s.drop_first())
    } else {
        s
    }
}

/// `s` with trailing whitespace removed.
pub open spec fn trim_end(s: Seq<char>) -> Seq<char>
    decreases s.len(),
{
    if s.len() > 0 && is_ws(s.last()) {
        trim_end(s.drop_last())
    } else {
        s
    }
}

/// `s` with whitespace removed at both ends (`str::trim`).
pub open spec fn trim(s: Seq<char>) -> Seq<char> {
    trim_end(trim_start(s))
}

/// Where `s[lo..hi]` begins once its leading whitespace is removed.
pub fn trim_start_index(s: &[char], lo: usize, hi: usize) -> (a: usize)
    requires
        lo <= hi <= s@.len(),
    ensures
        lo <= a <= hi,
        trim_start(s@.subrange(lo as int, hi as int)) == s@.subrange(a as int, hi as int),
{
    let mut a = lo;
    while a < hi && is_whitespace(s[a])
        invariant
            lo <= a <= hi <= s@.len(),
            trim_start(s@.subrange(lo as int, hi as int)) == trim_start(
                s@.subrange(a as int, hi as int),
            ),
        decreases hi - a,
    {
        assert(s@.subrange(a as int, hi as int).drop_first() =~= s@.subrange(a + 1, hi as int));
        a = a + 1;
    }
    a
}

/// Where `s[lo..hi]` ends once its trailing whitespace is removed.
pub fn trim_end_index(s: &[char], lo: usize, hi: usize) -> (b: usize)
    requires
        lo <= hi <= s@.len(),
    ensures
        lo <= b <= hi,
        trim_end(s@.subrange(lo as int, hi as int)) == s@.subrange(lo as int, b as int),
{
    let mut b = hi;
    while b > lo && is_whitespace(s[b - 1])
        invariant
            lo <= b <= hi <= s@.len(),
            trim_end(s@.subrange(lo as int, hi as int)) == trim_end(
                s@.subrange(lo as int, b as int),
            ),
        decreases b - lo,
    {
        assert(s@.subrange(lo as int, b as int).drop_last() =~= s@.subrange(lo as int, b - 1));
        b = b - 1;
    }
    b
}

/// Bounds of `trim(s[lo..hi])` within `s`.
pub fn trim_bounds(s: &[char], lo: usize, hi: usize) -> (r: (usize, usize))
    requires
        lo <= hi <= s@.len(),
    ensures
        lo <= r.0 <= r.1 <= hi,
        trim(s@.subrange(lo as int, hi as int)) == s@.subrange(r.0 as int, r.1 as int),
{
    let a = trim_start_index(s, lo, hi);
    let b = trim_end_index(s, a, hi);
    (a, b)
}

/// The characters `s[lo..hi]` as a vector.
pub fn sub_chars(s: &[char], lo: usize, hi: usize) -> (v: Vec<char>)
    requires
        lo <= hi <= s@.len(),
    ensures
        v@ == s@.subrange(lo as int, hi as int),
{
    let mut v: Vec<char> = Vec::new();
    let mut i = lo;
    while i < hi
        invariant
            lo <= i <= hi <= s@.len(),
            v@ == s@.subrange(lo as int, i as int),
        decreases hi - i,
    {
        v.push(s[i]);
        i = i + 1;
        assert(v@ =~= s@.subrange(lo as int, i as int));
    }
    v
}

/// Does `p` occur in `s` at position `i`?
pub open spec fn occurs_at(s: Seq<char>, i: int, p: Seq<char>) -> bool {
    0 <= i && i + p.len() <= s.len() && s.subrange(i, i + p.len()) == p
}

pub fn matches_at(s: &[char], i: usize, p: &[char]) -> (b: bool)
    ensures
        b == occurs_at(s@, i as int, p@),
{
    if i > s.len() || p.len() > s.len() - i {
        return false;
    }
    let mut k: usize = 0;
    while k < p.len()
        invariant
            i + p@.len() <= s@.len(),
            s@.len() == s.len(),
            k <= p@.len(),
            forall|j: int| 0 <= j < k ==> s@[i + j] == p@[j],
        decreases p.len() - k,
    {
        if s[i + k] != p[k] {
            assert(s@.subrange(i as int, i + p@.len())[k as int] != p@[k as int]);
            return false;
        }
        k = k + 1;
    }
    assert(s@.subrange(i as int, i + p@.len()) =~= p@);
    true
}

/// Do `s[lo..hi]` and `p` hold the same characters?
pub fn range_equals(s: &[char], lo: usize, hi: usize, p: &[char]) -> (b: bool)
    requires
        lo <= hi <= s@.len(),
    ensures
        b == (s@.subrange(lo as int, hi as int) == p@),
{
    if hi - lo != p.len() {
        assert(s@.subrange(lo as int, hi as int).len() != p@.len());
        return false;
    }
    matches_at(s, lo, p)
}

pub fn chars_equal(a: &[char], b: &[char]) -> (r: bool)
    ensures
        r == (a@ == b@),
{
    let r = range_equals(a, 0, a.len(), b);
    assert(a@.subrange(0, a@.len() as int) =~= a@);
    r
}

/// Does `p` occur anywhere in `s` (`str::contains`)?
pub open spec fn contains(s: Seq<char>, p: Seq<char>) -> bool {
    exists|i: int| #[trigger] occurs_at(s, i, p)
}

pub fn contains_chars(s: &[char], p: &[char]) -> (b: bool)
    ensures
        b == contains(s@, p@),
{
    let mut i: usize = 0;
    loop
        invariant
            i <= s@.len(),
            forall|j: int| 0 <= j < i ==> !occurs_at(s@, j, p@),
        ensures
            forall|j: int| 0 <= j <= s@.len() ==> !occurs_at(s@, j, p@),
        decreases s.len() - i,
    {
        if matches_at(s, i, p) {
            return true;
        }
        if i >= s.len() {
            break;
        }
        i = i + 1;
    }
    assert forall|j: int| !occurs_at(s@, j, p@) by {
        if 0 <= j <= s@.len() {
        }
    }
    false
}

/// `s` starts with `p`.
pub open spec fn starts_with(s: Seq<char>, p: Seq<char>) -> bool {
    p.len() <= s.len() && s.take(p.len() as int) == p
}

pub proof fn lemma_starts_with_occurs(s: Seq<char>, p: Seq<char>)
    ensures
        starts_with(s, p) == occurs_at(s, 0, p),
{
    assert(s.take(p.len() as int) =~= s.subrange(0, p.len() as int));
}

/// Every non-overlapping occurrence of `p` in `s`, left to right, replaced
/// by `r` (`str::replace`, for a non-empty pattern).
pub open spec fn replace(s: Seq<char>, p: Seq<char>, r: Seq<char>) -> Seq<char>
    decreases s.len(),
{
    if p.len() == 0 || s.len() < p.len() {
        s
    } else if s.take(p.len() as int) == p {
        r + replace(s.skip(p.len() as int), p, r)
    } else {
        seq![s[0]] + replace(s.drop_first(), p, r)
    }
}

pub fn replace_chars(s: &[char], p: &[char], r: &[char]) -> (out: Vec<char>)
    requires
        p@.len() > 0,
    ensures
        out@ == replace(s@, p@, r@),
{
    let n = s.len();
    let mut out: Vec<char> = Vec::new();
    let mut i: usize = 0;
    assert(s@.skip(0) =~= s@);
    while i < n
        invariant
            i <= n == s@.len(),
            p@.len() > 0,
            replace(s@, p@, r@) == out@ + replace(s@.skip(i as int), p@, r@),
        decreases n - i,
    {
        let ghost rest = s@.skip(i as int);
        if matches_at(s, i, p) {
            assert(rest.take(p@.len() as int) =~= s@.subrange(i as int, i + p@.len()));
            assert(rest.skip(p@.len() as int) =~= s@.skip(i + p@.len()));
            let mut k: usize = 0;
            let ghost out0 = out@;
            while k < r.len()
                invariant
                    k <= r@.len(),
                    out@ == out0 + r@.take(k as int),
                decreases r.len() - k,
            {
                out.push(r[k]);
                k = k + 1;
                assert(out@ =~= out0 + r@.take(k as int));
            }
            assert(r@.take(r@.len() as int) =~= r@);
            assert(out@ + replace(s@.skip(i + p@.len()), p@, r@) =~= out0 + (r@ + replace(
                s@.skip(i + p@.len()),
                p@,
                r@,
            )));
            i = i + p.len();
        } else {
            proof {
                lemma_skip_step(s@, i as int);
                if rest.len() >= p@.len() {
                    assert(rest.take(p@.len() as int) =~= s@.subrange(i as int, i + p@.len()));
                }
            }
            let ghost out0 = out@;
            out.push(s[i]);
            assert(out@ + replace(s@.skip(i + 1), p@, r@) =~= out0 + (seq![s@[i as int]]
                + replace(s@.skip(i + 1), p@, r@)));
            i = i + 1;
        }
    }
    assert(out@ + replace(s@.skip(n as int), p@, r@) =~= out@);
    out
}

/// Runs of the space character collapsed to one space.
pub open spec fn squeeze(s: Seq<char>) -> Seq<char>
    decreases s.len(),
{
    if s.len() == 0 {
        s
    } else if s.last() == ' ' && s.len() >= 2 && s[s.len() - 2] == ' ' {
        squeeze(s.drop_last())
    } else {
        squeeze(s.drop_last()).push(s.last())
    }
}

pub fn squeeze_chars(s: &[char]) -> (out: Vec<char>)
    ensures
        out@ == squeeze(s@),
{
    let mut out: Vec<char> = Vec::new();
    let mut prev_space = false;
    let mut i: usize = 0;
    assert(s@.take(0) =~= Seq::<char>::empty());
    while i < s.len()
        invariant
            i <= s@.len(),
            out@ == squeeze(s@.take(i as int)),
            prev_space == (i > 0 && s@[i - 1] == ' '),
        decreases s.len() - i,
    {
        let c = s[i];
        assert(s@.take(i + 1).drop_last() =~= s@.take(i as int));
        if c == ' ' {
            if !prev_space {
                out.push(c);
            }
            prev_space = true;
        } else {
            out.push(c);
            prev_space = false;
        }
        i = i + 1;
    }
    assert(s@.take(s@.len() as int) =~= s@);
    out
}

/// `s` with every `c` removed.
pub open spec fn remove_char(s: Seq<char>, c: char) -> Seq<char>
    decreases s.len(),
{
    if s.len() == 0 {
        s
    } else if s.last() == c {
        remove_char(s.drop_last(), c)
    } else {
        remove_char(s.drop_last(), c).push(s.last())
    }
}

pub fn remove_char_chars(s: &[char], c: char) -> (out: Vec<char>)
    ensures
        out@ == remove_char(s@, c),
{
    let mut out: Vec<char> = Vec::new();
    let mut i: usize = 0;
    assert(s@.take(0) =~= Seq::<char>::empty());
    while i < s.len()
        invariant
            i <= s@.len(),
            out@ == remove_char(s@.take(i as int), c),
        decreases s.len() - i,
    {
        assert(s@.take(i + 1).drop_last() =~= s@.take(i as int));
        if s[i] != c {
            out.push(s[i]);
        }
        i = i + 1;
    }
    assert(s@.take(s@.len() as int) =~= s@);
    out
}


/// What follows a removed marker's value: the rest from the next space on.
pub open spec fn cut_value(t: Seq<char>) -> Seq<char> {
    match find_char(t, ' ') {
        Some(k) => t.skip(k),
        None => seq![],
    }
}

/// `s` with every occurrence of `m`, together with the value that follows
/// it up to the next space, removed.
pub open spec fn strip_markers(s: Seq<char>, m: Seq<char>) -> Seq<char>
    decreases s.len(),
{
    if m.len() == 0 || s.len() < m.len() {
        s
    } else if s.take(m.len() as int) == m {
        proof {
            lemma_find_char(s.skip(m.len() as int), ' ');
        }
        strip_markers(cut_value(s.skip(m.len() as int)), m)
    } else {
        seq![s[0]] + strip_markers(s.drop_first(), m)
    }
}

pub fn strip_markers_chars(s: &[char], m: &[char]) -> (out: Vec<char>)
    requires
        m@.len() > 0,
    ensures
        out@ == strip_markers(s@, m@),
{
    let n = s.len();
    let mut out: Vec<char> = Vec::new();
    let mut i: usize = 0;
    assert(s@.skip(0) =~= s@);
    while i < n
        invariant
            i <= n == s@.len(),
            m@.len() > 0,
            strip_markers(s@, m@) == out@ + strip_markers(s@.skip(i as int), m@),
        decreases n - i,
    {
        let ghost rest = s@.skip(i as int);
        if matches_at(s, i, m) {
            assert(rest.take(m@.len() as int) =~= s@.subrange(i as int, i + m@.len()));
            let start = i + m.len();
            let mut j = start;
            while j < n && s[j] != ' '
                invariant
                    start <= j <= n == s@.len(),
                    forall|t: int| start <= t < j ==> s@[t] != ' ',
                decreases n - j,
            {
                j = j + 1;
            }
            proof {
                let t = rest.skip(m@.len() as int);
                assert(t =~= s@.skip(start as int));
                lemma_find_char_at(t, ' ', j - start);
                if j < n {
                    assert(t.skip(j - start) =~= s@.skip(j as int));
                } else {
                    assert(s@.skip(j as int) =~= Seq::<char>::empty());
                }
            }
            i = j;
        } else {
            proof {
                lemma_skip_step(s@, i as int);
                if rest.len() >= m@.len() {
                    assert(rest.take(m@.len() as int) =~= s@.subrange(i as int, i + m@.len()));
                }
            }
            let ghost out0 = out@;
            out.push(s[i]);
            assert(out@ + strip_markers(s@.skip(i + 1), m@) =~= out0 + (seq![s@[i as int]]
                + strip_markers(s@.skip(i + 1), m@)));
            i = i + 1;
        }
    }
    assert(out@ + strip_markers(s@.skip(n as int), m@) =~= out@);
    out
}

/// Append the characters of `t` to `v`.
pub fn push_all(v: &mut Vec<char>, t: &[char])
    ensures
        final(v)@ == old(v)@ + t@,
{
    let mut k: usize = 0;
    while k < t.len()
        invariant
            k <= t@.len(),
            v@ == old(v)@ + t@.take(k as int),
        decreases t.len() - k,
    {
        v.push(t[k]);
        k = k + 1;
        assert(v@ =~= old(v)@ + t@.take(k as int));
    }
    assert(t@.take(t@.len() as int) =~= t@);
}

/// The decimal digit for `d < 10`.
pub open spec fn digit(d: nat) -> char {
    (d + 48) as char
}

/// Decimal representation of `n`, without leading zeros.
pub open spec fn decimal(n: nat) -> Seq<char>
    decreases n,
{
    if n < 10 {
        seq![digit(n)]
    } else {
        decimal(n / 10).push(digit(n % 10))
    }
}

/// Append the decimal representation of `n` to `v`.
pub fn push_decimal(v: &mut Vec<char>, n: u64)
    ensures
        final(v)@ == old(v)@ + decimal(n as nat),
    decreases n,
{
    if n >= 10 {
        push_decimal(v, n / 10);
    }
    let d: u8 = (n % 10) as u8;
    let c = (48u8 + d) as char;
    assert(c == digit((n % 10) as nat));
    v.push(c);
    assert(v@ =~= old(v)@ + decimal(n as nat));
}

/// No character of `s` is a space.
pub open spec fn space_free(s: Seq<char>) -> bool {
    forall|i: int| 0 <= i < s.len() ==> #[trigger] s[i] != ' '
}

/// Squeezing never reaches into a space-free tail.
pub proof fn lemma_squeeze_append(x: Seq<char>, y: Seq<char>)
    requires
        space_free(y),
    ensures
        squeeze(x + y) == squeeze(x) + y,
    decreases y.len(),
{
    if y.len() == 0 {
        assert(x + y =~= x);
        assert(squeeze(x) + y =~= squeeze(x));
    } else {
        let y0 = y.drop_last();
        lemma_squeeze_append(x, y0);
        assert((x + y).drop_last() =~= x + y0);
        assert((x + y).last() == y.last());
        assert(squeeze(x + y) == squeeze(x + y0).push(y.last()));
        assert(squeeze(x) + y =~= (squeeze(x) + y0).push(y.last()));
    }
}

/// Squeezing keeps the last character.
pub proof fn lemma_squeeze_last(x: Seq<char>)
    requires
        x.len() > 0,
    ensures
        squeeze(x).len() > 0,
        squeeze(x).last() == x.last(),
    decreases x.len(),
{
    if x.last() == ' ' && x.len() >= 2 && x[x.len() - 2] == ' ' {
        lemma_squeeze_last(x.drop_last());
    }
}

/// `trim_start` removes a prefix.
pub proof fn lemma_trim_start_suffix(s: Seq<char>)
    ensures
        exists|k: int| 0 <= k <= s.len() && trim_start(s) == s.skip(k),
    decreases s.len(),
{
    if s.len() > 0 && is_ws(s[0]) {
        lemma_trim_start_suffix(s.drop_first());
        let k = choose|k: int|
            0 <= k <= s.drop_first().len() && trim_start(s.drop_first()) == s.drop_first().skip(k);
        assert(s.drop_first().skip(k) =~= s.skip(k + 1));
    } else {
        assert(s.skip(0) =~= s);
    }
}

/// Trimming stops at a tail that begins and ends with non-whitespace.
pub proof fn lemma_trim_append(p: Seq<char>, q: Seq<char>)
    requires
        q.len() > 0,
        !is_ws(q[0]),
        !is_ws(q.last()),
    ensures
        trim_start(p + q) == trim_start(p) + q,
        trim(p + q) == trim_start(p) + q,
    decreases p.len(),
{
    if p.len() == 0 {
        assert(p + q =~= q);
        assert(trim_start(p) + q =~= q);
    } else if is_ws(p[0]) {
        lemma_trim_append(p.drop_first(), q);
        assert((p + q).drop_first() =~= p.drop_first() + q);
    } else {
    }
    let r = trim_start(p) + q;
    assert(r.last() == q.last());
}

/// `m` overlaps itself nowhere: no proper suffix of `m` is a prefix of it.
pub open spec fn border_free(m: Seq<char>) -> bool {
    forall|j: int| 0 < j < m.len() ==> #[trigger] m.skip(j) != m.take(m.len() - j)
}

/// A marker followed by a space-free value at the very end is removed with
/// its value, and nothing before it changes.
pub proof fn lemma_strip_markers_tail(x: Seq<char>, m: Seq<char>, t: Seq<char>)
    requires
        m.len() > 0,
        space_free(m),
        space_free(t),
        border_free(m),
    ensures
        strip_markers(x + m + t, m) == strip_markers(x, m),
    decreases x.len(),
{
    let s = x + m + t;
    let n = m.len() as int;
    if x.len() == 0 {
        assert(s.take(n) =~= m);
        assert(s.skip(n) =~= t);
        lemma_find_char(t, ' ');
        assert(cut_value(t) =~= Seq::<char>::empty());
        assert(strip_markers(Seq::<char>::empty(), m) =~= Seq::<char>::empty());
        assert(x =~= Seq::<char>::empty());
        assert(strip_markers(s, m) == strip_markers(cut_value(s.skip(n)), m));
    } else if x.len() < n {
        let j = x.len() as int;
        assert(s.take(n) =~= x + m.take(n - j));
        if s.take(n) == m {
            assert(m.skip(j) =~= s.take(n).skip(j));
            assert(m.skip(j) =~= m.take(n - j));
        }
        lemma_strip_markers_tail(x.drop_first(), m, t);
        assert(s.drop_first() =~= x.drop_first() + m + t);
        assert(seq![x[0]] + x.drop_first() =~= x);
        assert(strip_markers(x, m) == x);
        assert(strip_markers(x.drop_first(), m) == x.drop_first());
        assert(strip_markers(s, m) == seq![s[0]] + strip_markers(s.drop_first(), m));
    } else {
        assert(s.take(n) =~= x.take(n));
        if x.take(n) == m {
            let z = x.skip(n);
            assert(s.skip(n) =~= z + m + t);
            lemma_find_char(z, ' ');
            lemma_find_char(z + m + t, ' ');
            match find_char(z, ' ') {
                Some(k) => {
                    lemma_find_char_at(z + m + t, ' ', k);
                    assert((z + m + t).skip(k) =~= z.skip(k) + m + t);
                    lemma_strip_markers_tail(z.skip(k), m, t);
                },
                None => {
                    assert forall|i: int| 0 <= i < (z + m + t).len() implies (z + m + t)[i]
                        != ' ' by {
                        if i >= z.len() + m.len() {
                            assert((z + m + t)[i] == t[i - z.len() - m.len()]);
                        } else if i >= z.len() {
                            assert((z + m + t)[i] == m[i - z.len()]);
                        }
                    }
                    lemma_find_char_at(z + m + t, ' ', (z + m + t).len() as int);
                },
            }
        } else {
            lemma_strip_markers_tail(x.drop_first(), m, t);
            assert(s.drop_first() =~= x.drop_first() + m + t);
        }
    }
}

/// The decimal digits of `n`: no whitespace among them.
pub proof fn lemma_decimal_digits(n: nat)
    ensures
        decimal(n).len() > 0,
        forall|i: int| 0 <= i < decimal(n).len() ==> '0' <= #[trigger] decimal(n)[i] <= '9',
    decreases n,
{
    if n >= 10 {
        lemma_decimal_digits(n / 10);
    }
}

/// No character of `w` is whitespace.
pub open spec fn ws_free(w: Seq<char>) -> bool {
    forall|i: int| 0 <= i < w.len() ==> !is_ws(#[trigger] w[i])
}

proof fn lemma_word_len_prefix(s: Seq<char>)
    ensures
        forall|i: int| 0 <= i < word_len(s) ==> !is_ws(#[trigger] s[i]),
        word_len(s) < s.len() ==> is_ws(s[word_len(s) as int]),
    decreases s.len(),
{
    lemma_word_len(s);
    if s.len() > 0 && !is_ws(s[0]) {
        lemma_word_len_prefix(s.drop_first());
        assert forall|i: int| 0 <= i < word_len(s) implies !is_ws(#[trigger] s[i]) by {
            if i > 0 {
                assert(s[i] == s.drop_first()[i - 1]);
            }
        }
    }
}

proof fn lemma_word_len_ws_free(w: Seq<char>)
    requires
        ws_free(w),
    ensures
        word_len(w) == w.len(),
    decreases w.len(),
{
    if w.len() > 0 {
        lemma_word_len_ws_free(w.drop_first());
    }
}

proof fn lemma_word_len_concat(x: Seq<char>, y: Seq<char>)
    requires
        y.len() > 0,
        is_ws(y[0]),
    ensures
        word_len(x + y) == word_len(x),
    decreases x.len(),
{
    if x.len() == 0 {
        assert(x + y =~= y);
    } else if !is_ws(x[0]) {
        lemma_word_len_concat(x.drop_first(), y);
        assert((x + y).drop_first() =~= x.drop_first() + y);
    }
}

/// Every token is a non-empty run of non-whitespace characters.
pub proof fn lemma_tokens_words(s: Seq<char>)
    ensures
        forall|k: int|
            0 <= k < tokens(s).len() ==> (#[trigger] tokens(s)[k]).len() > 0 && ws_free(
                tokens(s)[k],
            ),
    decreases s.len(),
{
    if s.len() == 0 {
        assert(tokens(s).len() == 0);
    } else if is_ws(s[0]) {
        lemma_tokens_words(s.drop_first());
        assert(tokens(s) == tokens(s.drop_first()));
    } else {
        let w = word_len(s);
        lemma_word_len(s);
        lemma_word_len_prefix(s);
        lemma_tokens_words(s.skip(w as int));
        assert forall|k: int| 0 <= k < tokens(s).len() implies (#[trigger] tokens(s)[k]).len() > 0
            && ws_free(tokens(s)[k]) by {
            if k == 0 {
                assert(tokens(s)[0] == s.take(w as int));
            } else {
                assert(tokens(s)[k] == tokens(s.skip(w as int))[k - 1]);
            }
        }
    }
}

/// A single non-empty word is its only token.
pub proof fn lemma_tokens_word(w: Seq<char>)
    requires
        w.len() > 0,
        ws_free(w),
    ensures
        tokens(w) == seq![w],
{
    lemma_word_len_ws_free(w);
    assert(w.take(w.len() as int) =~= w);
    assert(w.skip(w.len() as int) =~= Seq::<char>::empty());
    assert(tokens(Seq::<char>::empty()) =~= Seq::<Seq<char>>::empty());
    assert(tokens(w) =~= seq![w]);
}

/// Appending a space and a word appends that word as the last token.
pub proof fn lemma_tokens_append(x: Seq<char>, w: Seq<char>)
    requires
        w.len() > 0,
        ws_free(w),
    ensures
        tokens(x + seq![' '] + w) == tokens(x).push(w),
    decreases x.len(),
{
    let s = x + seq![' '] + w;
    assert(is_ws(' '));
    if x.len() == 0 {
        assert(s.drop_first() =~= w);
        lemma_tokens_word(w);
        assert(tokens(x) =~= Seq::<Seq<char>>::empty());
        assert(tokens(s) =~= tokens(x).push(w));
    } else if is_ws(x[0]) {
        assert(s.drop_first() =~= x.drop_first() + seq![' '] + w);
        lemma_tokens_append(x.drop_first(), w);
    } else {
        let y = seq![' '] + w;
        assert(s =~= x + y);
        lemma_word_len_concat(x, y);
        let wl = word_len(x);
        lemma_word_len(x);
        assert(s.take(wl as int) =~= x.take(wl as int));
        assert(s.skip(wl as int) =~= x.skip(wl as int) + seq![' '] + w);
        lemma_tokens_append(x.skip(wl as int), w);
        assert(tokens(s) =~= tokens(x).push(w));
    }
}

/// A whitespace-free pattern never matches across a whitespace boundary.
pub proof fn lemma_replace_concat(w: Seq<char>, x: Seq<char>, p: Seq<char>, r: Seq<char>)
    requires
        p.len() > 0,
        ws_free(p),
        x.len() == 0 || is_ws(x[0]),
    ensures
        replace(w + x, p, r) == replace(w, p, r) + replace(x, p, r),
    decreases w.len(),
{
    let s = w + x;
    let n = p.len() as int;
    if w.len() == 0 {
        assert(s =~= x);
        assert(replace(w, p, r) =~= Seq::<char>::empty());
        assert(replace(w, p, r) + replace(x, p, r) =~= replace(x, p, r));
    } else if s.len() < n {
        assert(replace(x, p, r) == x);
    } else if s.take(n) == p {
        if w.len() < n {
            assert(s.take(n)[w.len() as int] == x[0]);
            assert(!is_ws(p[w.len() as int]));
        }
        assert(w.take(n) =~= s.take(n));
        assert(s.skip(n) =~= w.skip(n) + x);
        lemma_replace_concat(w.skip(n), x, p, r);
        assert(replace(s, p, r) =~= replace(w, p, r) + replace(x, p, r));
    } else {
        assert(s.drop_first() =~= w.drop_first() + x);
        lemma_replace_concat(w.drop_first(), x, p, r);
        if w.len() < n {
            assert(replace(w, p, r) == w);
            assert(replace(w.drop_first(), p, r) == w.drop_first());
            assert(seq![w[0]] + w.drop_first() =~= w);
        } else {
            assert(w.take(n) =~= s.take(n));
        }
        assert(replace(s, p, r) =~= replace(w, p, r) + replace(x, p, r));
    }
}

/// Replacing within a word by a word gives a word.
pub proof fn lemma_replace_word(t: Seq<char>, p: Seq<char>, r: Seq<char>)
    requires
        p.len() > 0,
        ws_free(t),
        ws_free(r),
        r.len() > 0,
    ensures
        ws_free(replace(t, p, r)),
        t.len() > 0 ==> replace(t, p, r).len() > 0,
    decreases t.len(),
{
    let n = p.len() as int;
    if t.len() < n {
    } else if t.take(n) == p {
        lemma_replace_word(t.skip(n), p, r);
        let u = replace(t.skip(n), p, r);
        assert forall|i: int| 0 <= i < (r + u).len() implies !is_ws(#[trigger] (r + u)[i]) by {
            if i >= r.len() {
                assert((r + u)[i] == u[i - r.len()]);
            }
        }
    } else {
        lemma_replace_word(t.drop_first(), p, r);
        let u = replace(t.drop_first(), p, r);
        assert forall|i: int| 0 <= i < (seq![t[0]] + u).len() implies !is_ws(
            #[trigger] (seq![t[0]] + u)[i],
        ) by {
            if i >= 1 {
                assert((seq![t[0]] + u)[i] == u[i - 1]);
            }
        }
    }
}

/// A word followed by nothing or by whitespace is the first token.
proof fn lemma_tokens_leading_word(x: Seq<char>, y: Seq<char>)
    requires
        x.len() > 0,
        ws_free(x),
        y.len() == 0 || is_ws(y[0]),
    ensures
        tokens(x + y) == seq![x] + tokens(y),
{
    let s = x + y;
    lemma_word_len_ws_free(x);
    if y.len() > 0 {
        lemma_word_len_concat(x, y);
    } else {
        assert(s =~= x);
    }
    assert(s.take(x.len() as int) =~= x);
    assert(s.skip(x.len() as int) =~= y);
}

/// Replacing a whitespace-free pattern by a word acts token by token.
pub proof fn lemma_tokens_replace(s: Seq<char>, p: Seq<char>, r: Seq<char>)
    requires
        p.len() > 0,
        ws_free(p),
        r.len() > 0,
        ws_free(r),
    ensures
        tokens(replace(s, p, r)) == tokens(s).map_values(|t: Seq<char>| replace(t, p, r)),
    decreases s.len(),
{
    let n = p.len() as int;
    if s.len() == 0 {
        assert(tokens(s).map_values(|t: Seq<char>| replace(t, p, r)) =~= Seq::<Seq<char>>::empty());
    } else if is_ws(s[0]) {
        let y = s.drop_first();
        if s.len() >= n {
            assert(s.take(n)[0] == s[0]);
            assert(s.take(n) != p);
        } else {
            assert(replace(y, p, r) == y);
            assert(seq![s[0]] + y =~= s);
        }
        assert(replace(s, p, r) == seq![s[0]] + replace(y, p, r));
        assert((seq![s[0]] + replace(y, p, r)).drop_first() =~= replace(y, p, r));
        lemma_tokens_replace(y, p, r);
    } else {
        let w = word_len(s);
        lemma_word_len(s);
        lemma_word_len_prefix(s);
        let ww = s.take(w as int);
        let rest = s.skip(w as int);
        assert(s =~= ww + rest);
        assert(ws_free(ww));
        lemma_replace_concat(ww, rest, p, r);
        lemma_replace_word(ww, p, r);
        let rw = replace(ww, p, r);
        let rr = replace(rest, p, r);
        if rest.len() > 0 {
            assert(rest[0] == s[w as int]);
            if rest.len() >= n {
                assert(rest.take(n)[0] == rest[0]);
                assert(rest.take(n) != p);
            }
            assert(rr.len() > 0 && rr[0] == rest[0]);
        } else {
            assert(rr =~= rest);
        }
        lemma_tokens_leading_word(rw, rr);
        lemma_tokens_replace(rest, p, r);
        assert(tokens(s) == seq![ww] + tokens(rest));
        assert(tokens(replace(s, p, r)) =~= tokens(s).map_values(|t: Seq<char>| replace(t, p, r)));
    }
}

/// With a border-free key `k` that both the pattern and the replacement
/// start with, a replacement result that starts with a proper suffix of `k`
/// comes from text that already started with it.
proof fn lemma_replace_suffix_prefix(s: Seq<char>, p: Seq<char>, r: Seq<char>, k: Seq<char>, j: int)
    requires
        1 <= j <= k.len(),
        border_free(k),
        starts_with(p, k),
        starts_with(r, k),
        starts_with(replace(s, p, r), k.skip(j)),
    ensures
        starts_with(s, k.skip(j)),
    decreases s.len(),
{
    let v = k.skip(j);
    let n = p.len() as int;
    let u = replace(s, p, r);
    if v.len() == 0 {
        assert(s.take(0) =~= v);
    } else if p.len() == 0 || s.len() < n {
    } else if s.take(n) == p {
        assert(u == r + replace(s.skip(n), p, r));
        assert(k.take(k.len() - j) =~= u.take(v.len() as int));
        assert(r.take(k.len() as int) == k);
        assert(u.take(v.len() as int) =~= k.take(v.len() as int));
        assert(k.skip(j) == k.take(k.len() - j));
    } else {
        let t = s.drop_first();
        assert(u == seq![s[0]] + replace(t, p, r));
        assert(u[0] == v[0]);
        assert(k.skip(j + 1) =~= v.drop_first());
        assert(replace(t, p, r).take(v.len() - 1) =~= u.take(v.len() as int).drop_first());
        lemma_replace_suffix_prefix(t, p, r, k, j + 1);
        assert(v =~= seq![v[0]] + k.skip(j + 1));
        assert(s.take(v.len() as int) =~= seq![s[0]] + t.take(v.len() - 1));
        assert(s.take(v.len() as int) =~= v);
    }
}

/// Replacing a pattern that starts with a border-free key `k` by text that
/// also starts with `k` never makes a token start with `k` that did not.
pub proof fn lemma_replace_keeps_non_key(t: Seq<char>, p: Seq<char>, r: Seq<char>, k: Seq<char>)
    requires
        k.len() > 0,
        border_free(k),
        starts_with(p, k),
        starts_with(r, k),
        !starts_with(t, k),
    ensures
        !starts_with(replace(t, p, r), k),
{
    let n = p.len() as int;
    let u = replace(t, p, r);
    if p.len() == 0 || t.len() < n {
    } else if t.take(n) == p {
        assert(t.take(k.len() as int) =~= p.take(k.len() as int));
    } else if starts_with(u, k) {
        let t1 = t.drop_first();
        assert(u == seq![t[0]] + replace(t1, p, r));
        assert(u[0] == k[0]);
        assert(replace(t1, p, r).take(k.len() - 1) =~= u.take(k.len() as int).drop_first());
        assert(k.skip(1) =~= k.drop_first());
        lemma_replace_suffix_prefix(t1, p, r, k, 1);
        assert(k =~= seq![k[0]] + k.skip(1));
        assert(t.take(k.len() as int) =~= seq![t[0]] + t1.take(k.len() - 1));
        assert(t.take(k.len() as int) =~= k);
    }
}

/// `m` occurs nowhere in `s`.
pub open spec fn occurs_nowhere(s: Seq<char>, m: Seq<char>) -> bool {
    forall|i: int| !#[trigger] occurs_at(s, i, m)
}

/// Text without the marker is left as it is.
pub proof fn lemma_strip_markers_identity(x: Seq<char>, m: Seq<char>)
    requires
        m.len() > 0,
        occurs_nowhere(x, m),
    ensures
        strip_markers(x, m) == x,
    decreases x.len(),
{
    if x.len() >= m.len() {
        assert(x.take(m.len() as int) =~= x.subrange(0, m.len() as int));
        assert(!occurs_at(x, 0, m));
        let y = x.drop_first();
        assert forall|i: int| !#[trigger] occurs_at(y, i, m) by {
            if occurs_at(y, i, m) {
                assert(x.subrange(i + 1, i + 1 + m.len()) =~= y.subrange(i, i + m.len()));
                assert(occurs_at(x, i + 1, m));
            }
        }
        lemma_strip_markers_identity(y, m);
        assert(seq![x[0]] + y =~= x);
    }
}

/// Up to its first space, the stripped text is the text itself.
proof fn lemma_strip_markers_prefix(y: Seq<char>, m: Seq<char>, q: int)
    requires
        m.len() > 0,
        space_free(m),
        0 <= q <= strip_markers(y, m).len(),
        space_free(strip_markers(y, m).take(q)),
    ensures
        q <= y.len(),
        strip_markers(y, m).take(q) == y.take(q),
    decreases y.len(),
{
    let t = strip_markers(y, m);
    if q == 0 {
        assert(t.take(0) =~= y.take(0));
    } else if y.len() < m.len() {
    } else if y.take(m.len() as int) == m {
        let rest = y.skip(m.len() as int);
        lemma_find_char(rest, ' ');
        let c = cut_value(rest);
        assert(t == strip_markers(c, m));
        if c.len() == 0 {
            assert(strip_markers(c, m).len() == 0);
        } else {
            let k = find_char(rest, ' ')->0;
            assert(c[0] == ' ');
            if c.len() >= m.len() {
                assert(c.take(m.len() as int)[0] != m[0]);
            }
            assert(t[0] == ' ');
            assert(t.take(q)[0] == ' ');
        }
    } else {
        let y1 = y.drop_first();
        assert(t == seq![y[0]] + strip_markers(y1, m));
        let t1 = strip_markers(y1, m);
        assert(t1.take(q - 1) =~= t.take(q).drop_first());
        assert forall|i: int| 0 <= i < t1.take(q - 1).len() implies #[trigger] t1.take(q - 1)[i]
            != ' ' by {
            assert(t1.take(q - 1)[i] == t.take(q)[i + 1]);
        }
        lemma_strip_markers_prefix(y1, m, q - 1);
        assert(t.take(q) =~= seq![y[0]] + t1.take(q - 1));
        assert(y.take(q) =~= seq![y[0]] + y1.take(q - 1));
    }
}

/// Stripping leaves no occurrence of the marker behind.
pub proof fn lemma_strip_markers_removes_all(x: Seq<char>, m: Seq<char>)
    requires
        m.len() > 0,
        space_free(m),
    ensures
        occurs_nowhere(strip_markers(x, m), m),
    decreases x.len(),
{
    let t = strip_markers(x, m);
    if x.len() < m.len() {
    } else if x.take(m.len() as int) == m {
        let rest = x.skip(m.len() as int);
        lemma_find_char(rest, ' ');
        lemma_strip_markers_removes_all(cut_value(rest), m);
    } else {
        let x1 = x.drop_first();
        let t1 = strip_markers(x1, m);
        lemma_strip_markers_removes_all(x1, m);
        assert(t == seq![x[0]] + t1);
        assert forall|i: int| !#[trigger] occurs_at(t, i, m) by {
            if occurs_at(t, i, m) {
                if i >= 1 {
                    assert(t1.subrange(i - 1, i - 1 + m.len()) =~= t.subrange(i, i + m.len()));
                    assert(occurs_at(t1, i - 1, m));
                } else {
                    let q = m.len() - 1;
                    assert(t1.take(q) =~= t.subrange(0, m.len() as int).drop_first());
                    assert forall|j: int| 0 <= j < t1.take(q).len() implies #[trigger] t1.take(q)[j]
                        != ' ' by {
                        assert(t1.take(q)[j] == m[j + 1]);
                    }
                    lemma_strip_markers_prefix(x1, m, q);
                    assert(x.take(m.len() as int) =~= seq![x[0]] + x1.take(q));
                    assert(x.take(m.len() as int) =~= t.subrange(0, m.len() as int));
                }
            }
        }
    }
}

/// From its last space on, the squeezed text ends as the text does.
proof fn lemma_squeeze_suffix(z: Seq<char>, q: int)
    requires
        0 <= q <= squeeze(z).len(),
        space_free(squeeze(z).skip(squeeze(z).len() - q)),
    ensures
        q <= z.len(),
        squeeze(z).skip(squeeze(z).len() - q) == z.skip(z.len() - q),
    decreases z.len(),
{
    let t = squeeze(z);
    if q == 0 {
        assert(t.skip(t.len() as int) =~= z.skip(z.len() as int));
    } else if z.len() == 0 {
    } else if z.last() == ' ' && z.len() >= 2 && z[z.len() - 2] == ' ' {
        lemma_squeeze_last(z.drop_last());
        assert(t.last() == ' ');
        assert(t.skip(t.len() - q)[q - 1] == t.last());
    } else {
        let z1 = z.drop_last();
        let t1 = squeeze(z1);
        assert(t == t1.push(z.last()));
        assert(t1.skip(t1.len() - (q - 1)) =~= t.skip(t.len() - q).drop_last());
        assert forall|i: int| 0 <= i < t1.skip(t1.len() - (q - 1)).len() implies #[trigger] t1.skip(
            t1.len() - (q - 1),
        )[i] != ' ' by {
            assert(t1.skip(t1.len() - (q - 1))[i] == t.skip(t.len() - q)[i]);
        }
        lemma_squeeze_suffix(z1, q - 1);
        assert(t.skip(t.len() - q) =~= t1.skip(t1.len() - (q - 1)).push(z.last()));
        assert(z.skip(z.len() - q) =~= z1.skip(z1.len() - (q - 1)).push(z.last()));
    }
}

/// Squeezing creates no occurrence of a space-free pattern.
pub proof fn lemma_squeeze_keeps_absent(z: Seq<char>, m: Seq<char>)
    requires
        m.len() > 0,
        space_free(m),
        occurs_nowhere(z, m),
    ensures
        occurs_nowhere(squeeze(z), m),
    decreases z.len(),
{
    if z.len() > 0 {
        let z1 = z.drop_last();
        assert forall|i: int| !#[trigger] occurs_at(z1, i, m) by {
            if occurs_at(z1, i, m) {
                assert(z.subrange(i, i + m.len()) =~= z1.subrange(i, i + m.len()));
                assert(occurs_at(z, i, m));
            }
        }
        lemma_squeeze_keeps_absent(z1, m);
        let t1 = squeeze(z1);
        if !(z.last() == ' ' && z.len() >= 2 && z[z.len() - 2] == ' ') {
            let t = t1.push(z.last());
            assert(squeeze(z) == t);
            assert forall|i: int| !#[trigger] occurs_at(t, i, m) by {
                if occurs_at(t, i, m) {
                    if i + m.len() <= t1.len() {
                        assert(t1.subrange(i, i + m.len()) =~= t.subrange(i, i + m.len()));
                        assert(occurs_at(t1, i, m));
                    } else {
                        let q = m.len() - 1;
                        assert(t.skip(i) =~= t.subrange(i, i + m.len()));
                        assert(t1.skip(t1.len() - q) =~= m.drop_last());
                        assert forall|j: int| 0 <= j < t1.skip(t1.len() - q).len() implies #[trigger] t1.skip(
                            t1.len() - q,
                        )[j] != ' ' by {
                            assert(t1.skip(t1.len() - q)[j] == m[j]);
                        }
                        lemma_squeeze_suffix(z1, q);
                        assert(z.subrange(z.len() - m.len(), z.len() as int) =~= z1.skip(
                            z1.len() - q,
                        ).push(z.last()));
                        assert(m =~= m.drop_last().push(m.last()));
                        assert(occurs_at(z, z.len() - m.len(), m));
                    }
                }
            }
        }
    }
}

/// No two spaces stand next to each other in `s`.
pub open spec fn single_spaced(s: Seq<char>) -> bool {
    forall|i: int| 0 <= i < s.len() - 1 ==> !(#[trigger] s[i] == ' ' && s[i + 1] == ' ')
}

pub proof fn lemma_squeeze_single_spaced(x: Seq<char>)
    ensures
        single_spaced(squeeze(x)),
    decreases x.len(),
{
    if x.len() > 0 {
        let x1 = x.drop_last();
        lemma_squeeze_single_spaced(x1);
        if !(x.last() == ' ' && x.len() >= 2 && x[x.len() - 2] == ' ') {
            let t1 = squeeze(x1);
            let t = t1.push(x.last());
            if t1.len() > 0 {
                lemma_squeeze_last(x1);
                assert(x1.last() == x[x.len() - 2]);
            }
            assert forall|i: int| 0 <= i < t.len() - 1 implies !(#[trigger] t[i] == ' ' && t[i
                + 1] == ' ') by {
                if i < t1.len() - 1 {
                    assert(t[i] == t1[i] && t[i + 1] == t1[i + 1]);
                }
            }
        }
    }
}

pub proof fn lemma_squeeze_single_spaced_id(x: Seq<char>)
    requires
        single_spaced(x),
    ensures
        squeeze(x) == x,
    decreases x.len(),
{
    if x.len() > 0 {
        let x1 = x.drop_last();
        assert forall|i: int| 0 <= i < x1.len() - 1 implies !(#[trigger] x1[i] == ' ' && x1[i + 1]
            == ' ') by {
            assert(x1[i] == x[i] && x1[i + 1] == x[i + 1]);
        }
        lemma_squeeze_single_spaced_id(x1);
        if x.len() >= 2 {
            assert(!(x[x.len() - 2] == ' ' && x[x.len() - 1] == ' '));
        }
        assert(x1.push(x.last()) =~= x);
    }
}

pub proof fn lemma_trim_start_idempotent(x: Seq<char>)
    ensures
        trim_start(trim_start(x)) == trim_start(x),
    decreases x.len(),
{
    if x.len() > 0 && is_ws(x[0]) {
        lemma_trim_start_idempotent(x.drop_first());
    }
}

proof fn lemma_trim_start_push_space(x: Seq<char>)
    ensures
        trim_start(x.push(' ')) == (if trim_start(x).len() == 0 {
            Seq::<char>::empty()
        } else {
            trim_start(x).push(' ')
        }),
    decreases x.len(),
{
    assert(is_ws(' '));
    if x.len() == 0 {
        assert(x.push(' ').drop_first() =~= Seq::<char>::empty());
        assert(trim_start(Seq::<char>::empty()) =~= Seq::<char>::empty());
        assert(trim_start(x.push(' ')) == trim_start(x.push(' ').drop_first()));
    } else if is_ws(x[0]) {
        assert(x.push(' ').drop_first() =~= x.drop_first().push(' '));
        assert(x.push(' ')[0] == x[0]);
        lemma_trim_start_push_space(x.drop_first());
    } else {
        assert(x.push(' ')[0] == x[0]);
    }
}

/// A trailing space makes no difference once trimmed.
pub proof fn lemma_trim_push_space(x: Seq<char>)
    ensures
        trim(x.push(' ')) == trim(x),
{
    lemma_trim_start_push_space(x);
    assert(is_ws(' '));
    let w = trim_start(x);
    if w.len() > 0 {
        assert(w.push(' ').drop_last() =~= w);
    }
}

/// The only whitespace in `s` is the space character: `s` is one line.
pub open spec fn single_line(s: Seq<char>) -> bool {
    forall|i: int| 0 <= i < s.len() ==> #[trigger] s[i] == ' ' || !is_ws(s[i])
}

pub proof fn lemma_single_line_concat(a: Seq<char>, b: Seq<char>)
    requires
        single_line(a),
        single_line(b),
    ensures
        single_line(a + b),
{
    assert forall|i: int| 0 <= i < (a + b).len() implies #[trigger] (a + b)[i] == ' ' || !is_ws(
        (a + b)[i],
    ) by {
        if i >= a.len() {
            assert((a + b)[i] == b[i - a.len()]);
        } else {
            assert((a + b)[i] == a[i]);
        }
    }
}

pub proof fn lemma_single_line_skip(a: Seq<char>, k: int)
    requires
        single_line(a),
        0 <= k <= a.len(),
    ensures
        single_line(a.skip(k)),
{
    assert forall|i: int| 0 <= i < a.skip(k).len() implies #[trigger] a.skip(k)[i] == ' ' || !is_ws(
        a.skip(k)[i],
    ) by {
        assert(a.skip(k)[i] == a[i + k]);
    }
}

pub proof fn lemma_single_line_strip_markers(x: Seq<char>, m: Seq<char>)
    requires
        single_line(x),
    ensures
        single_line(strip_markers(x, m)),
    decreases x.len(),
{
    if m.len() == 0 || x.len() < m.len() {
    } else if x.take(m.len() as int) == m {
        let rest = x.skip(m.len() as int);
        lemma_find_char(rest, ' ');
        lemma_single_line_skip(x, m.len() as int);
        match find_char(rest, ' ') {
            Some(k) => lemma_single_line_skip(rest, k),
            None => {},
        }
        lemma_single_line_strip_markers(cut_value(rest), m);
    } else {
        lemma_single_line_skip(x, 1);
        assert(x.skip(1) =~= x.drop_first());
        lemma_single_line_strip_markers(x.drop_first(), m);
        assert(single_line(seq![x[0]])) by {
            assert(seq![x[0]][0] == x[0]);
        }
        lemma_single_line_concat(seq![x[0]], strip_markers(x.drop_first(), m));
    }
}

pub proof fn lemma_single_line_squeeze(x: Seq<char>)
    requires
        single_line(x),
    ensures
        single_line(squeeze(x)),
    decreases x.len(),
{
    if x.len() > 0 {
        let x1 = x.drop_last();
        assert forall|i: int| 0 <= i < x1.len() implies #[trigger] x1[i] == ' ' || !is_ws(x1[i]) by {
            assert(x1[i] == x[i]);
        }
        lemma_single_line_squeeze(x1);
        assert(x[x.len() - 1] == x.last());
    }
}

pub proof fn lemma_single_line_replace(x: Seq<char>, p: Seq<char>, r: Seq<char>)
    requires
        single_line(x),
        ws_free(r),
    ensures
        single_line(replace(x, p, r)),
    decreases x.len(),
{
    if p.len() == 0 || x.len() < p.len() {
    } else {
        assert(single_line(r));
        if x.take(p.len() as int) == p {
            lemma_single_line_skip(x, p.len() as int);
            lemma_single_line_replace(x.skip(p.len() as int), p, r);
            lemma_single_line_concat(r, replace(x.skip(p.len() as int), p, r));
        } else {
            lemma_single_line_skip(x, 1);
            assert(x.skip(1) =~= x.drop_first());
            lemma_single_line_replace(x.drop_first(), p, r);
            assert(single_line(seq![x[0]])) by {
                assert(seq![x[0]][0] == x[0]);
            }
            lemma_single_line_concat(seq![x[0]], replace(x.drop_first(), p, r));
        }
    }
}

/// `s` has no whitespace at either end.
pub open spec fn trimmed(s: Seq<char>) -> bool {
    s.len() == 0 || (!is_ws(s[0]) && !is_ws(s.last()))
}

/// What `trim_start` leaves does not begin with whitespace.
pub proof fn lemma_trim_start_head(x: Seq<char>)
    ensures
        trim_start(x).len() == 0 || !is_ws(trim_start(x)[0]),
    decreases x.len(),
{
    if x.len() > 0 && is_ws(x[0]) {
        lemma_trim_start_head(x.drop_first());
    }
}

/// `trim_end` removes a suffix, and what it leaves does not end with
/// whitespace.
pub proof fn lemma_trim_end_prefix(x: Seq<char>)
    ensures
        exists|k: int| 0 <= k <= x.len() && trim_end(x) == x.take(k),
        trim_end(x).len() == 0 || !is_ws(trim_end(x).last()),
    decreases x.len(),
{
    if x.len() > 0 && is_ws(x.last()) {
        lemma_trim_end_prefix(x.drop_last());
        let k = choose|k: int|
            0 <= k <= x.drop_last().len() && trim_end(x.drop_last()) == x.drop_last().take(k);
        assert(x.drop_last().take(k) =~= x.take(k));
    } else {
        assert(x.take(x.len() as int) =~= x);
    }
}

/// Trimming leaves no whitespace at either end.
pub proof fn lemma_trim_trimmed(x: Seq<char>)
    ensures
        trimmed(trim(x)),
        exists|a: int, b: int| 0 <= a <= b <= x.len() && trim(x) == x.subrange(a, b),
{
    let y = trim_start(x);
    lemma_trim_start_head(x);
    lemma_trim_start_suffix(x);
    lemma_trim_end_prefix(y);
    let j = choose|j: int| 0 <= j <= x.len() && y == x.skip(j);
    let k = choose|k: int| 0 <= k <= y.len() && trim_end(y) == y.take(k);
    assert(trim(x) =~= x.subrange(j, j + k));
    if trim(x).len() > 0 {
        assert(trim(x)[0] == y[0]);
    }
}

/// Text without whitespace at either end is its own trim.
pub proof fn lemma_trimmed_id(x: Seq<char>)
    requires
        trimmed(x),
    ensures
        trim(x) == x,
{
}

/// A stretch of text without the pattern or double spaces keeps both
/// properties in every part of it.
pub proof fn lemma_subrange_clean(x: Seq<char>, m: Seq<char>, a: int, b: int)
    requires
        0 <= a <= b <= x.len(),
        occurs_nowhere(x, m),
        single_spaced(x),
    ensures
        occurs_nowhere(x.subrange(a, b), m),
        single_spaced(x.subrange(a, b)),
{
    let y = x.subrange(a, b);
    assert forall|i: int| !#[trigger] occurs_at(y, i, m) by {
        if occurs_at(y, i, m) {
            assert(x.subrange(i + a, i + a + m.len()) =~= y.subrange(i, i + m.len()));
            assert(occurs_at(x, i + a, m));
        }
    }
    assert forall|i: int| 0 <= i < y.len() - 1 implies !(#[trigger] y[i] == ' ' && y[i + 1] == ' ') by {
        assert(y[i] == x[i + a] && y[i + 1] == x[i + a + 1]);
    }
}

} // verus!
