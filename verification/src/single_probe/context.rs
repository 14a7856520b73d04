//! The single existence probe built from the execution context.

pub use crate::context::{probe_deploy_root, ExecContext};

use crate::single_probe::slot::DeployProbe;
use vstd::prelude::*;

verus! {

/// The probe `single_probe::slot::resolve` expects: inaccessible in the
/// pre-LUKS initrd, otherwise whether the guarded directory exists.
pub open spec fn probe_for(ctx: ExecContext, slot_dir_present: bool) -> DeployProbe {
    match ctx {
        ExecContext::InitrdPreLuks => DeployProbe::RootInaccessible,
        ExecContext::RealRoot => if slot_dir_present {
            DeployProbe::RootAccessible
        } else {
            DeployProbe::RootAccessibleDirAbsent
        },
    }
}

pub fn to_deploy_probe(ctx: ExecContext, slot_dir_present: bool) -> (p: DeployProbe)
    ensures
        p == probe_for(ctx, slot_dir_present),
{
    match ctx {
        ExecContext::InitrdPreLuks => DeployProbe::RootInaccessible,
        ExecContext::RealRoot => if slot_dir_present {
            DeployProbe::RootAccessible
        } else {
            DeployProbe::RootAccessibleDirAbsent
        },
    }
}

} // verus!
