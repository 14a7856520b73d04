//! Liveness-first `ostree=` re-resolution against a single existence probe:
//! whenever the BLS entry names the same deployment as the running one via
//! another slot, the live slot is adopted; a target whose directory is
//! verifiably absent is refused.

pub use crate::slot::{strip_slot_prefix, target_after_adoption, Resolution};

use crate::slot::{
    adoption_target, extract_ostree_token, lemma_rewrite_token, lemma_token_nonempty_pattern, live_candidate,
    live_candidate_span, ostree_token, ResolutionModel,
};
use crate::text::{chars_of, replace, replace_chars, string_of, sub_chars};
use vstd::prelude::*;

verus! {

/// What the I/O layer found about the directory the guard checks.
#[derive(Debug, Clone, Copy, PartialEq, Eq, Structural)]
pub enum DeployProbe {
    /// Deploy root accessible (real root) and the slot directory exists.
    RootAccessible,
    /// Deploy root accessible (real root) and the slot directory is absent.
    RootAccessibleDirAbsent,
    /// Deploy root not accessible (pre-LUKS initrd): the guard is skipped.
    RootInaccessible,
}

/// The resolution for a BLS cmdline, the live cmdline and the probe.
pub open spec fn resolution(bls: Seq<char>, live: Seq<char>, probe: DeployProbe) -> ResolutionModel {
    match ostree_token(bls) {
        None => ResolutionModel::Keep,
        Some(o) => if probe == DeployProbe::RootAccessibleDirAbsent {
            ResolutionModel::RefuseExit0
        } else {
            match live_candidate(bls, live) {
                Some(p) => ResolutionModel::Rewrite(replace(bls, o, p)),
                None => ResolutionModel::Keep,
            }
        },
    }
}

/// Resolve the `ostree=` token to write into `cmdline.txt`; `probe` must
/// describe the directory of `target_after_adoption`'s token.
pub fn resolve(bls_cmdline: &str, proc_cmdline: &str, probe: DeployProbe) -> (r: Resolution)
    ensures
        r@ == resolution(bls_cmdline@, proc_cmdline@, probe),
{
    let bls = chars_of(bls_cmdline);
    let live = chars_of(proc_cmdline);
    let o = match extract_ostree_token(&bls) {
        None => return Resolution::Keep,
        Some(o) => o,
    };
    let cand = live_candidate_span(&bls, o, &live);
    if probe == DeployProbe::RootAccessibleDirAbsent {
        return Resolution::RefuseExit0;
    }
    match cand {
        Some((a, b)) => {
            let o_arg = sub_chars(&bls, o.0, o.1);
            let p_arg = sub_chars(&live, a, b);
            proof {
                lemma_token_nonempty_pattern(bls@, o_arg@);
            }
            let out = replace_chars(&bls, &o_arg, &p_arg);
            Resolution::Rewrite(string_of(&out))
        },
        None => Resolution::Keep,
    }
}

/// The slot guard with a single probe: a refusal happens exactly when there
/// is a token to write and its directory is verifiably absent; otherwise the
/// live slot is adopted whenever it names the same deployment, and in the
/// pre-LUKS initrd the guard never refuses.
pub proof fn lemma_slot_guard(bls: Seq<char>, live: Seq<char>, probe: DeployProbe)
    ensures
        resolution(bls, live, probe) is RefuseExit0 <==> (ostree_token(bls) is Some && probe
            == DeployProbe::RootAccessibleDirAbsent),
        probe != DeployProbe::RootAccessibleDirAbsent && live_candidate(bls, live) is Some
            ==> resolution(bls, live, probe) == ResolutionModel::Rewrite(
            replace(bls, ostree_token(bls)->0, live_candidate(bls, live)->0),
        ),
        probe == DeployProbe::RootInaccessible ==> !(resolution(bls, live, probe) is RefuseExit0),
{
    if live_candidate(bls, live) is Some {
        assert(ostree_token(bls) is Some);
    }
}

/// An adopted live slot is what the rewritten cmdline carries: its first
/// `ostree=` token is the live token.
pub proof fn lemma_adoption_writes_live_token(bls: Seq<char>, live: Seq<char>, probe: DeployProbe)
    requires
        resolution(bls, live, probe) is Rewrite,
    ensures
        ostree_token(resolution(bls, live, probe)->Rewrite_0) == live_candidate(bls, live),
{
    lemma_rewrite_token(bls, live);
}

/// The guard probes what gets written: unless it refuses, the first
/// `ostree=` token of the cmdline that is written (the rewritten one, or the
/// BLS cmdline kept as it is) is the token `target_after_adoption` names.
pub proof fn lemma_probe_target_is_written(bls: Seq<char>, live: Seq<char>, probe: DeployProbe)
    requires
        !(resolution(bls, live, probe) is RefuseExit0),
    ensures
        ostree_token(
            match resolution(bls, live, probe) {
                ResolutionModel::Rewrite(s) => s,
                _ => bls,
            },
        ) == adoption_target(bls, live),
{
    if resolution(bls, live, probe) is Rewrite {
        lemma_rewrite_token(bls, live);
    }
}

} // verus!
