//! Tests for `context::probe_deploy_root` / `to_deploy_probe`, in both the
//! two-flag and the single-probe forms.

use rpi_bls_sync::context::{probe_deploy_root, to_deploy_probe, ExecContext};
use rpi_bls_sync::single_probe;
use rpi_bls_sync::slot::DeployProbe;

#[test]
fn context_ops_real_root_when_root_prefix_has_deploy() {
    assert_eq!(probe_deploy_root(&[true, false]), ExecContext::RealRoot);
}

#[test]
fn context_ops_real_root_when_sysroot_prefix_has_deploy() {
    assert_eq!(probe_deploy_root(&[false, true]), ExecContext::RealRoot);
}

#[test]
fn context_ops_initrd_pre_luks_when_neither_prefix_has_deploy() {
    assert_eq!(probe_deploy_root(&[false, false]), ExecContext::InitrdPreLuks);
}

#[test]
fn initrd_context_is_root_inaccessible_carrying_presence_flags() {
    // The guard is skipped in initrd; the presence flags are carried through
    // (resolve ignores them) but root_accessible must be false.
    assert_eq!(
        to_deploy_probe(ExecContext::InitrdPreLuks, true, false),
        DeployProbe {
            root_accessible: false,
            live_slot_present: true,
            bls_slot_present: false,
        }
    );
    assert_eq!(
        to_deploy_probe(ExecContext::InitrdPreLuks, false, true),
        DeployProbe {
            root_accessible: false,
            live_slot_present: false,
            bls_slot_present: true,
        }
    );
}

#[test]
fn real_root_carries_both_presence_flags() {
    assert_eq!(
        to_deploy_probe(ExecContext::RealRoot, true, false),
        DeployProbe {
            root_accessible: true,
            live_slot_present: true,
            bls_slot_present: false,
        }
    );
    assert_eq!(
        to_deploy_probe(ExecContext::RealRoot, false, true),
        DeployProbe {
            root_accessible: true,
            live_slot_present: false,
            bls_slot_present: true,
        }
    );
}

#[test]
fn initrd_context_always_root_inaccessible_regardless_of_slot_presence() {
    assert_eq!(
        single_probe::context::to_deploy_probe(ExecContext::InitrdPreLuks, true),
        single_probe::slot::DeployProbe::RootInaccessible
    );
    assert_eq!(
        single_probe::context::to_deploy_probe(ExecContext::InitrdPreLuks, false),
        single_probe::slot::DeployProbe::RootInaccessible
    );
}

#[test]
fn real_root_with_slot_present_is_root_accessible() {
    assert_eq!(
        single_probe::context::to_deploy_probe(ExecContext::RealRoot, true),
        single_probe::slot::DeployProbe::RootAccessible
    );
}

#[test]
fn real_root_with_slot_absent_is_root_accessible_dir_absent() {
    assert_eq!(
        single_probe::context::to_deploy_probe(ExecContext::RealRoot, false),
        single_probe::slot::DeployProbe::RootAccessibleDirAbsent
    );
}
