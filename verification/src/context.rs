//! Execution-context classification. Whether the slot-refusal guard is
//! enforced depends only on whether the deploy root is accessible.

use crate::slot::DeployProbe;
use vstd::prelude::*;

verus! {

#[derive(Debug, Clone, Copy, PartialEq, Eq, Structural)]
pub enum ExecContext {
    /// Pre-LUKS initrd: deploy root not yet accessible; the guard is skipped.
    InitrdPreLuks,
    /// Real root: deploy root accessible; the guard is enforced.
    RealRoot,
}

/// The context implied by `/ostree/deploy` presence under each prefix.
pub open spec fn context_of(prefixes_have_ostree_deploy: Seq<bool>) -> ExecContext {
    if exists|i: int| 0 <= i < prefixes_have_ostree_deploy.len() && #[trigger] prefixes_have_ostree_deploy[i] {
        ExecContext::RealRoot
    } else {
        ExecContext::InitrdPreLuks
    }
}

/// Probe `/ostree/deploy` under the `""` and `"/sysroot"` prefixes.
pub fn probe_deploy_root(prefixes_have_ostree_deploy: &[bool]) -> (c: ExecContext)
    ensures
        c == context_of(prefixes_have_ostree_deploy@),
{
    let mut k: usize = 0;
    while k < prefixes_have_ostree_deploy.len()
        invariant
            k <= prefixes_have_ostree_deploy@.len(),
            forall|j: int| 0 <= j < k ==> !prefixes_have_ostree_deploy@[j],
        decreases prefixes_have_ostree_deploy.len() - k,
    {
        if prefixes_have_ostree_deploy[k] {
            return ExecContext::RealRoot;
        }
        k = k + 1;
    }
    ExecContext::InitrdPreLuks
}

/// The probe `slot::resolve` expects, from the context and the presence of
/// both candidate slot directories.
pub fn to_deploy_probe(ctx: ExecContext, live_slot_present: bool, bls_slot_present: bool) -> (p:
    DeployProbe)
    ensures
        p == (DeployProbe {
            root_accessible: ctx == ExecContext::RealRoot,
            live_slot_present,
            bls_slot_present,
        }),
{
    DeployProbe {
        root_accessible: match ctx {
            ExecContext::RealRoot => true,
            ExecContext::InitrdPreLuks => false,
        },
        live_slot_present,
        bls_slot_present,
    }
}

} // verus!
