//! Liveness-first `ostree=` boot-slot re-resolution.
//!
//! The integer N in `/ostree/boot.N/...` is a transient index that ostree
//! flips and prunes on bootversion changes; it is not part of a deployment's
//! stateroot/csum/serial identity. For the same deployment the slot written
//! to `cmdline.txt` is the candidate whose directory currently exists,
//! preferring the live `/proc/cmdline` slot when both exist, and a slot whose
//! directory is verifiably absent is never written.

use crate::text::{
    border_free, chars_equal, chars_of, find_char, lemma_find_char_at, lemma_replace_keeps_non_key,
    lemma_starts_with_occurs, lemma_tokens_replace, lemma_tokens_words, matches_at, replace,
    replace_chars, spans_within, span_view, starts_with, string_of, sub_chars, token_spans, tokens,
    ws_free, single_line, lemma_single_line_replace,
};
use vstd::prelude::*;

verus! {

/// Existence facts gathered by the I/O layer that the slot guard needs.
#[derive(Debug, Clone, Copy, PartialEq, Eq, Structural)]
pub struct DeployProbe {
    /// Deploy root accessible (real root). When false (pre-LUKS initrd) the
    /// existence guard is skipped and the two presence flags are ignored.
    pub root_accessible: bool,
    /// The live (`/proc`) slot's deploy directory exists.
    pub live_slot_present: bool,
    /// The BLS slot's deploy directory exists.
    pub bls_slot_present: bool,
}

/// Outcome of slot resolution.
#[derive(Debug, Clone, PartialEq, Eq)]
pub enum Resolution {
    /// Adopt the live slot; the cmdline with its `ostree=` rewritten.
    Rewrite(String),
    /// The BLS `ostree=` is kept as it is.
    Keep,
    /// Refuse to sync; the last good `cmdline.txt` stays untouched.
    RefuseExit0,
}

/// The mathematical value of a [`Resolution`].
pub enum ResolutionModel {
    Rewrite(Seq<char>),
    Keep,
    RefuseExit0,
}

impl View for Resolution {
    type V = ResolutionModel;

    open spec fn view(&self) -> ResolutionModel {
        match self {
            Resolution::Rewrite(s) => ResolutionModel::Rewrite(s@),
            Resolution::Keep => ResolutionModel::Keep,
            Resolution::RefuseExit0 => ResolutionModel::RefuseExit0,
        }
    }
}

pub open spec fn ostree_key() -> Seq<char> {
    "ostree="@
}

pub open spec fn slot_prefix() -> Seq<char> {
    "ostree=/ostree/boot."@
}

/// The first of `ts` that starts with `p`.
pub open spec fn first_with_prefix(ts: Seq<Seq<char>>, p: Seq<char>) -> Option<Seq<char>>
    decreases ts.len(),
{
    if ts.len() == 0 {
        None
    } else if starts_with(ts[0], p) {
        Some(ts[0])
    } else {
        first_with_prefix(ts.drop_first(), p)
    }
}

/// The first whitespace-separated token of `cmdline` that starts with `ostree=`.
pub open spec fn ostree_token(cmdline: Seq<char>) -> Option<Seq<char>> {
    first_with_prefix(tokens(cmdline), ostree_key())
}

/// `stateroot/csum/serial` of an `ostree=/ostree/boot.N/...` token; any other
/// value is returned unchanged.
pub open spec fn strip_slot(a: Seq<char>) -> Seq<char> {
    if starts_with(a, slot_prefix()) {
        let r = a.skip(slot_prefix().len() as int);
        match find_char(r, '/') {
            Some(k) => r.skip(k + 1),
            None => a,
        }
    } else {
        a
    }
}

/// The live `/proc` token, when it names the same deployment as the BLS token
/// through a different value.
pub open spec fn live_candidate(bls: Seq<char>, live: Seq<char>) -> Option<Seq<char>> {
    match (ostree_token(bls), ostree_token(live)) {
        (Some(o), Some(p)) => if p != o && strip_slot(p) == strip_slot(o) {
            Some(p)
        } else {
            None
        },
        _ => None,
    }
}

/// The token that would be written if the live slot is adopted.
pub open spec fn adoption_target(bls: Seq<char>, live: Seq<char>) -> Option<Seq<char>> {
    match ostree_token(bls) {
        None => None,
        Some(o) => match live_candidate(bls, live) {
            Some(p) => Some(p),
            None => Some(o),
        },
    }
}

/// The resolution for a BLS cmdline, the live cmdline and the existence probe.
pub open spec fn resolution(bls: Seq<char>, live: Seq<char>, probe: DeployProbe) -> ResolutionModel {
    match ostree_token(bls) {
        None => ResolutionModel::Keep,
        Some(o) => match live_candidate(bls, live) {
            Some(p) => if !probe.root_accessible || probe.live_slot_present {
                ResolutionModel::Rewrite(replace(bls, o, p))
            } else if probe.bls_slot_present {
                ResolutionModel::Keep
            } else {
                ResolutionModel::RefuseExit0
            },
            None => if !probe.root_accessible || probe.bls_slot_present {
                ResolutionModel::Keep
            } else {
                ResolutionModel::RefuseExit0
            },
        },
    }
}

/// Span of the first `ostree=` token of `cmdline`.
pub fn extract_ostree_token(cmdline: &[char]) -> (r: Option<(usize, usize)>)
    ensures
        match r {
            None => ostree_token(cmdline@) is None,
            Some((a, b)) => a <= b <= cmdline@.len() && ostree_token(cmdline@) == Some(
                cmdline@.subrange(a as int, b as int),
            ),
        },
{
    let key = chars_of("ostree=");
    let spans = token_spans(cmdline);
    let ghost ts = tokens(cmdline@);
    let mut k: usize = 0;
    assert(ts.skip(0) =~= ts);
    while k < spans.len()
        invariant
            k <= spans@.len(),
            key@ == ostree_key(),
            spans_within(cmdline@, spans@),
            span_view(cmdline@, spans@) == ts,
            ts == tokens(cmdline@),
            first_with_prefix(ts, ostree_key()) == first_with_prefix(ts.skip(k as int), ostree_key()),
        decreases spans.len() - k,
    {
        let (a, b) = spans[k];
        assert(ts[k as int] == cmdline@.subrange(a as int, b as int));
        assert(ts.skip(k as int).drop_first() =~= ts.skip(k + 1));
        let hit = matches_at(cmdline, a, &key) && b - a >= key.len();
        proof {
            let t = cmdline@.subrange(a as int, b as int);
            if b - a >= key@.len() {
                assert(t.take(key@.len() as int) =~= cmdline@.subrange(a as int, a + key@.len()));
            }
        }
        if hit {
            return Some((a, b));
        }
        k = k + 1;
    }
    None
}

/// `stateroot/csum/serial` of `a` (see [`strip_slot`]).
pub fn strip_slot_chars(a: &[char]) -> (r: Vec<char>)
    ensures
        r@ == strip_slot(a@),
{
    let p = chars_of("ostree=/ostree/boot.");
    let n = a.len();
    proof {
        lemma_starts_with_occurs(a@, p@);
    }
    if !matches_at(a, 0, &p) {
        return sub_chars(a, 0, n);
    }
    let start = p.len();
    let mut i = start;
    while i < n && a[i] != '/'
        invariant
            start <= i <= n == a@.len(),
            forall|j: int| start <= j < i ==> a@[j] != '/',
        decreases n - i,
    {
        i = i + 1;
    }
    proof {
        lemma_find_char_at(a@.skip(start as int), '/', i - start);
    }
    if i < n {
        let r = sub_chars(a, i + 1, n);
        assert(a@.skip(start as int).skip(i - start + 1) =~= a@.subrange(i + 1, n as int));
        r
    } else {
        let r = sub_chars(a, 0, n);
        assert(a@.subrange(0, n as int) =~= a@);
        r
    }
}

/// Strip the `/ostree/boot.N/` slot prefix from an `ostree=` cmdline token,
/// leaving `stateroot/csum/serial`. An input without the fixed
/// `ostree=/ostree/boot.` prefix, or without a `/` after it, is returned
/// unchanged.
pub fn strip_slot_prefix(ostree_arg: &str) -> (r: String)
    ensures
        r@ == strip_slot(ostree_arg@),
{
    let a = chars_of(ostree_arg);
    let r = strip_slot_chars(&a);
    string_of(&r)
}

/// The live token when it is an adoption candidate for `o` (both given as
/// spans of their cmdlines).
pub(crate) fn live_candidate_span(
    bls: &[char],
    o: (usize, usize),
    live: &[char],
) -> (r: Option<(usize, usize)>)
    requires
        o.0 <= o.1 <= bls@.len(),
        ostree_token(bls@) == Some(bls@.subrange(o.0 as int, o.1 as int)),
    ensures
        match r {
            None => live_candidate(bls@, live@) is None,
            Some((a, b)) => a <= b <= live@.len() && live_candidate(bls@, live@) == Some(
                live@.subrange(a as int, b as int),
            ),
        },
{
    match extract_ostree_token(live) {
        None => None,
        Some((a, b)) => {
            let o_arg = sub_chars(bls, o.0, o.1);
            let p_arg = sub_chars(live, a, b);
            if chars_equal(&p_arg, &o_arg) {
                return None;
            }
            let o_rest = strip_slot_chars(&o_arg);
            let p_rest = strip_slot_chars(&p_arg);
            if chars_equal(&p_rest, &o_rest) {
                Some((a, b))
            } else {
                None
            }
        },
    }
}

pub(crate) proof fn lemma_token_nonempty_pattern(cmdline: Seq<char>, o: Seq<char>)
    requires
        ostree_token(cmdline) == Some(o),
    ensures
        o.len() >= 7,
    decreases tokens(cmdline).len(),
{
    lemma_first_with_prefix(tokens(cmdline), ostree_key());
    reveal_strlit("ostree=");
}

/// What `first_with_prefix` finds starts with the prefix.
pub proof fn lemma_first_with_prefix(ts: Seq<Seq<char>>, p: Seq<char>)
    ensures
        first_with_prefix(ts, p) matches Some(t) ==> starts_with(t, p) && ts.contains(t),
    decreases ts.len(),
{
    if ts.len() > 0 && !starts_with(ts[0], p) {
        lemma_first_with_prefix(ts.drop_first(), p);
        if let Some(t) = first_with_prefix(ts, p) {
            let k = choose|k: int| 0 <= k < ts.drop_first().len() && ts.drop_first()[k] == t;
            assert(ts[k + 1] == t);
        }
    } else if ts.len() > 0 {
        assert(ts[0] == ts[0]);
    }
}

/// The BLS `ostree=` token as it is, or `None` if the BLS-derived cmdline
/// carries none.
pub fn bls_slot_token(bls_cmdline: &str) -> (r: Option<String>)
    ensures
        match r {
            None => ostree_token(bls_cmdline@) is None,
            Some(t) => ostree_token(bls_cmdline@) == Some(t@),
        },
{
    let bls = chars_of(bls_cmdline);
    match extract_ostree_token(&bls) {
        None => None,
        Some((a, b)) => {
            let t = sub_chars(&bls, a, b);
            Some(string_of(&t))
        },
    }
}

/// The `ostree=` token that would be written if the live slot is adopted:
/// the live value when adoption applies, otherwise the BLS value; `None` if
/// `bls_cmdline` carries no `ostree=` token.
pub fn target_after_adoption(bls_cmdline: &str, proc_cmdline: &str) -> (r: Option<String>)
    ensures
        match r {
            None => adoption_target(bls_cmdline@, proc_cmdline@) is None,
            Some(t) => adoption_target(bls_cmdline@, proc_cmdline@) == Some(t@),
        },
{
    let bls = chars_of(bls_cmdline);
    let live = chars_of(proc_cmdline);
    let o = match extract_ostree_token(&bls) {
        None => return None,
        Some(o) => o,
    };
    match live_candidate_span(&bls, o, &live) {
        Some((a, b)) => {
            let t = sub_chars(&live, a, b);
            Some(string_of(&t))
        },
        None => {
            let t = sub_chars(&bls, o.0, o.1);
            Some(string_of(&t))
        },
    }
}

/// Resolve the `ostree=` token to write into `cmdline.txt`.
pub fn resolve(bls_cmdline: &str, proc_cmdline: &str, probe: DeployProbe) -> (r: Resolution)
    ensures
        r@ == resolution(bls_cmdline@, proc_cmdline@, probe),
{
    let bls = chars_of(bls_cmdline);
    let live = chars_of(proc_cmdline);
    let o = match extract_ostree_token(&bls) {
        None => return Resolution::Keep,
        Some(o) => o,
    };
    let cand = live_candidate_span(&bls, o, &live);
    match cand {
        Some((a, b)) => {
            if !probe.root_accessible || probe.live_slot_present {
                let o_arg = sub_chars(&bls, o.0, o.1);
                let p_arg = sub_chars(&live, a, b);
                proof {
                    lemma_token_nonempty_pattern(bls@, o_arg@);
                }
                let out = replace_chars(&bls, &o_arg, &p_arg);
                Resolution::Rewrite(string_of(&out))
            } else if probe.bls_slot_present {
                Resolution::Keep
            } else {
                Resolution::RefuseExit0
            }
        },
        None => {
            if !probe.root_accessible || probe.bls_slot_present {
                Resolution::Keep
            } else {
                Resolution::RefuseExit0
            }
        },
    }
}

/// The slot guard: in the real root a slot whose directory is absent is
/// never written (an adopted live slot is present, a kept BLS slot is
/// present); the live slot wins whenever it is present; a refusal happens
/// only when no candidate slot is present; and in the pre-LUKS initrd,
/// where nothing can be probed, the guard never refuses.
pub proof fn lemma_slot_guard(bls: Seq<char>, live: Seq<char>, probe: DeployProbe)
    ensures
        probe.root_accessible && resolution(bls, live, probe) is Rewrite ==> probe.live_slot_present,
        probe.root_accessible && ostree_token(bls) is Some && resolution(bls, live, probe) is Keep
            ==> probe.bls_slot_present,
        live_candidate(bls, live) is Some && (!probe.root_accessible || probe.live_slot_present)
            ==> resolution(bls, live, probe) == ResolutionModel::Rewrite(
            replace(bls, ostree_token(bls)->0, live_candidate(bls, live)->0),
        ),
        resolution(bls, live, probe) is RefuseExit0 <==> (probe.root_accessible && ostree_token(
            bls,
        ) is Some && !probe.bls_slot_present && (live_candidate(bls, live) is None
            || !probe.live_slot_present)),
        !probe.root_accessible ==> !(resolution(bls, live, probe) is RefuseExit0),
{
    if live_candidate(bls, live) is Some {
        assert(ostree_token(bls) is Some);
    }
}

proof fn lemma_ostree_key()
    ensures
        ostree_key().len() == 7,
        border_free(ostree_key()),
{
    reveal_strlit("ostree=");
    let k = ostree_key();
    assert forall|j: int| 0 < j < k.len() implies #[trigger] k.skip(j) != k.take(k.len() - j) by {
        assert(k.skip(j)[0] != k.take(k.len() - j)[0]);
    }
}

/// The first token starting with `k`, after `o` is replaced by `r` token by
/// token, is `r` when it was `o`.
proof fn lemma_first_with_prefix_replaced(ts: Seq<Seq<char>>, k: Seq<char>, o: Seq<char>, r: Seq<char>)
    requires
        k.len() > 0,
        border_free(k),
        first_with_prefix(ts, k) == Some(o),
        starts_with(r, k),
    ensures
        first_with_prefix(ts.map_values(|t: Seq<char>| replace(t, o, r)), k) == Some(r),
    decreases ts.len(),
{
    let u = ts.map_values(|t: Seq<char>| replace(t, o, r));
    lemma_first_with_prefix(ts, k);
    if starts_with(ts[0], k) {
        assert(ts[0] == o);
        assert(o.take(o.len() as int) =~= o);
        assert(o.skip(o.len() as int) =~= Seq::<char>::empty());
        assert(replace(Seq::<char>::empty(), o, r) =~= Seq::<char>::empty());
        assert(u[0] =~= r);
    } else {
        lemma_replace_keeps_non_key(ts[0], o, r, k);
        assert(u.drop_first() =~= ts.drop_first().map_values(|t: Seq<char>| replace(t, o, r)));
        lemma_first_with_prefix_replaced(ts.drop_first(), k, o, r);
    }
}

/// The first `ostree=` token of `cmdline` with `o` replaced by the token
/// `p`, where `o` is that first token and `p` is another `ostree=` token,
/// is `p`.
pub proof fn lemma_rewrite_token(cmdline: Seq<char>, live: Seq<char>)
    requires
        ostree_token(cmdline) is Some,
        ostree_token(live) is Some,
    ensures
        ostree_token(replace(cmdline, ostree_token(cmdline)->0, ostree_token(live)->0))
            == ostree_token(live),
{
    let o = ostree_token(cmdline)->0;
    let p = ostree_token(live)->0;
    lemma_ostree_key();
    lemma_first_with_prefix(tokens(cmdline), ostree_key());
    lemma_first_with_prefix(tokens(live), ostree_key());
    lemma_tokens_words(cmdline);
    lemma_tokens_words(live);
    let i = choose|i: int| 0 <= i < tokens(cmdline).len() && tokens(cmdline)[i] == o;
    let j = choose|j: int| 0 <= j < tokens(live).len() && tokens(live)[j] == p;
    assert(o.len() > 0 && ws_free(o));
    assert(p.len() > 0 && ws_free(p));
    lemma_tokens_replace(cmdline, o, p);
    lemma_first_with_prefix_replaced(tokens(cmdline), ostree_key(), o, p);
}

/// An adopted live slot is what the rewritten cmdline carries: its first
/// `ostree=` token is the live token.
pub proof fn lemma_adoption_writes_live_token(bls: Seq<char>, live: Seq<char>, probe: DeployProbe)
    requires
        resolution(bls, live, probe) is Rewrite,
    ensures
        ostree_token(resolution(bls, live, probe)->Rewrite_0) == live_candidate(bls, live),
{
    lemma_rewrite_token(bls, live);
}

/// In the real root, the slot that gets written is one whose directory is
/// present: the first `ostree=` token of the written cmdline (the rewritten
/// one, or the BLS cmdline kept as it is) is the live token with the live
/// slot present, or the BLS token with the BLS slot present.
pub proof fn lemma_written_slot_present(bls: Seq<char>, live: Seq<char>, probe: DeployProbe)
    requires
        probe.root_accessible,
        ostree_token(bls) is Some,
        !(resolution(bls, live, probe) is RefuseExit0),
    ensures
        ({
            let written = match resolution(bls, live, probe) {
                ResolutionModel::Rewrite(s) => s,
                _ => bls,
            };
            ||| ostree_token(written) == ostree_token(live) && probe.live_slot_present
            ||| ostree_token(written) == ostree_token(bls) && probe.bls_slot_present
        }),
{
    if resolution(bls, live, probe) is Rewrite {
        lemma_adoption_writes_live_token(bls, live, probe);
    }
}

/// Re-resolving the slot keeps a one-line cmdline on one line.
pub proof fn lemma_rewrite_single_line(bls: Seq<char>, live: Seq<char>)
    requires
        single_line(bls),
        ostree_token(bls) is Some,
        ostree_token(live) is Some,
    ensures
        single_line(replace(bls, ostree_token(bls)->0, ostree_token(live)->0)),
{
    let p = ostree_token(live)->0;
    lemma_first_with_prefix(tokens(live), ostree_key());
    lemma_tokens_words(live);
    let j = choose|j: int| 0 <= j < tokens(live).len() && tokens(live)[j] == p;
    assert(ws_free(p));
    lemma_single_line_replace(bls, ostree_token(bls)->0, p);
}

/// A slot token: `ostree=/ostree/boot.<n>/<d>`.
pub open spec fn slot_token(n: Seq<char>, d: Seq<char>) -> Seq<char> {
    "ostree=/ostree/boot."@ + n + seq!['/'] + d
}

/// `n` holds no `/`: it can be a slot number.
pub open spec fn slash_free(n: Seq<char>) -> bool {
    forall|i: int| 0 <= i < n.len() ==> #[trigger] n[i] != '/'
}

proof fn lemma_slot_token_parts(n: Seq<char>, d: Seq<char>)
    requires
        slash_free(n),
    ensures
        strip_slot(slot_token(n, d)) == d,
        ({
            let t = slot_token(n, d);
            let rest = t.skip(slot_prefix().len() as int);
            &&& rest == n + seq!['/'] + d
            &&& find_char(rest, '/') == Some(n.len() as int)
        }),
{
    reveal_strlit("ostree=/ostree/boot.");
    let pre = "ostree=/ostree/boot."@;
    let t = slot_token(n, d);
    assert(slot_prefix() == pre);
    assert(t.take(pre.len() as int) =~= pre);
    let rest = t.skip(pre.len() as int);
    assert(rest =~= n + seq!['/'] + d);
    lemma_find_char_at(rest, '/', n.len() as int);
    assert(rest.skip(n.len() as int + 1) =~= d);
}

/// Slot tokens with the same deployment are equal only with the same slot.
proof fn lemma_slot_token_injective(n1: Seq<char>, n2: Seq<char>, d: Seq<char>)
    requires
        slash_free(n1),
        slash_free(n2),
        slot_token(n1, d) == slot_token(n2, d),
    ensures
        n1 == n2,
{
    lemma_slot_token_parts(n1, d);
    lemma_slot_token_parts(n2, d);
    let rest = slot_token(n1, d).skip(slot_prefix().len() as int);
    assert(n1 =~= rest.take(n1.len() as int));
    assert(n2 =~= rest.take(n2.len() as int));
}

/// The live slot is adopted only for the same deployment. For a BLS token
/// `ostree=/ostree/boot.<n1>/<d1>` and a live token
/// `ostree=/ostree/boot.<n2>/<d2>` (slot numbers without `/`), the cmdline is
/// rewritten exactly when `d1 == d2` (same stateroot, commit and serial)
/// through another slot `n1 != n2` and the guard admits the live slot;
/// tokens of different deployments keep the BLS token, or refuse when its
/// directory is verifiably absent.
pub proof fn lemma_adopt_only_same_deployment(
    bls: Seq<char>,
    live: Seq<char>,
    probe: DeployProbe,
    n1: Seq<char>,
    d1: Seq<char>,
    n2: Seq<char>,
    d2: Seq<char>,
)
    requires
        slash_free(n1),
        slash_free(n2),
        ostree_token(bls) == Some(slot_token(n1, d1)),
        ostree_token(live) == Some(slot_token(n2, d2)),
    ensures
        resolution(bls, live, probe) is Rewrite <==> (d1 == d2 && n1 != n2 && (
        !probe.root_accessible || probe.live_slot_present)),
        d1 != d2 ==> resolution(bls, live, probe) == (if !probe.root_accessible
            || probe.bls_slot_present {
            ResolutionModel::Keep
        } else {
            ResolutionModel::RefuseExit0
        }),
        crate::single_probe::slot::resolution(
            bls,
            live,
            crate::single_probe::slot::DeployProbe::RootAccessible,
        ) is Rewrite <==> (d1 == d2 && n1 != n2),
        d1 != d2 ==> crate::single_probe::slot::resolution(
            bls,
            live,
            crate::single_probe::slot::DeployProbe::RootAccessible,
        ) == ResolutionModel::Keep,
{
    lemma_slot_token_parts(n1, d1);
    lemma_slot_token_parts(n2, d2);
    if d1 == d2 && slot_token(n1, d1) == slot_token(n2, d2) {
        lemma_slot_token_injective(n1, n2, d1);
    }
}

} // verus!
