//! The sync pipeline over data, with the guard probing the single directory
//! of the token that would be written.

pub use crate::orchestrate::{assemble_pre_slot_cmdline, PreSlot, SyncPlan};

use crate::cmdline::{
    clock_injected, clock_stripped, deduped, expanded, inject_clock,
    lemma_clock_injected_single_line, lemma_clock_refresh_invisible, lemma_deduped, strip_clock,
};
use crate::context::{context_of, probe_deploy_root, ExecContext};
use crate::fatsync::{needs_sync, sync_needed};
use crate::orchestrate::{
    any_present, default_entry, entry_models, pre_slot, text_views, with_extras, SyncPlanModel,
};
use crate::single_probe::context::{probe_for, to_deploy_probe};
use crate::single_probe::slot::{resolution, resolve};
use crate::slot::{lemma_rewrite_single_line, ostree_token, Resolution, ResolutionModel};
use crate::text::single_line;
use vstd::prelude::*;

verus! {

pub struct SyncInputs<'a> {
    /// Raw `/proc/device-tree/model` contents (NUL not yet stripped).
    pub model_raw: &'a str,
    /// `(path, contents)` of each `loader/entries/ostree-*.conf`, sorted
    /// bytewise by the caller.
    pub bls_entries_sorted: &'a [(&'a str, &'a str)],
    /// `/proc/cmdline` contents.
    pub proc_cmdline: &'a str,
    /// Whether `ignition.firstboot` exists on the boot partition.
    pub ignition_firstboot_present: bool,
    /// Contents of each `cmdline.d/*.conf` file, in order.
    pub cmdline_d_contents_ordered: &'a [&'a str],
    /// Whether `<prefix>/ostree/deploy` exists, for `""` then `"/sysroot"`.
    pub deploy_root_prefixes_present: [bool; 2],
    /// Whether the directory of `target_after_adoption`'s token exists, per
    /// prefix.
    pub guard_target_dir_present_prefixes: [bool; 2],
    /// Fresh wall-clock time in microseconds.
    pub clock_usec: u64,
    /// The EFI partition's current `cmdline.txt`, if present.
    pub current_cmdline_txt: Option<&'a str>,
    pub src_kernel_size: u64,
    pub dst_kernel_size: Option<u64>,
    pub src_initramfs_size: u64,
    pub dst_initramfs_size: Option<u64>,
}

/// The plan for `inputs`.
pub open spec fn sync_plan(inputs: &SyncInputs) -> SyncPlanModel {
    match pre_slot(
        inputs.model_raw@,
        inputs.bls_entries_sorted@,
        inputs.ignition_firstboot_present,
        inputs.cmdline_d_contents_ordered@,
    ) {
        Err(reason) => SyncPlanModel::Skip(reason),
        Ok(pre) => {
            let probe = probe_for(
                context_of(inputs.deploy_root_prefixes_present@),
                any_present(inputs.guard_target_dir_present_prefixes),
            );
            match resolution(pre.cmdline, inputs.proc_cmdline@, probe) {
                ResolutionModel::RefuseExit0 => SyncPlanModel::RefuseExit0,
                res => {
                    let resolved = match res {
                        ResolutionModel::Rewrite(s) => s,
                        _ => pre.cmdline,
                    };
                    let fin = clock_injected(resolved, inputs.clock_usec as nat);
                    let current = match inputs.current_cmdline_txt {
                        Some(c) => clock_stripped(c@),
                        None => Seq::empty(),
                    };
                    if sync_needed(
                        inputs.src_kernel_size,
                        inputs.dst_kernel_size,
                        inputs.src_initramfs_size,
                        inputs.dst_initramfs_size,
                        current,
                        clock_stripped(fin),
                    ) {
                        SyncPlanModel::Sync { cmdline_txt: fin, kernel_name: pre.kernel_name }
                    } else {
                        SyncPlanModel::Skip("already in sync"@)
                    }
                },
            }
        },
    }
}

/// The full pipeline over data: what to do for these inputs.
pub fn plan_sync(inputs: &SyncInputs) -> (p: SyncPlan)
    ensures
        p@ == sync_plan(inputs),
{
    let pre = match assemble_pre_slot_cmdline(
        inputs.model_raw,
        inputs.bls_entries_sorted,
        inputs.ignition_firstboot_present,
        inputs.cmdline_d_contents_ordered,
    ) {
        Ok(v) => v,
        Err(reason) => return SyncPlan::Skip(reason),
    };
    let ctx = probe_deploy_root(inputs.deploy_root_prefixes_present.as_slice());
    let guard_dir_present = inputs.guard_target_dir_present_prefixes[0]
        || inputs.guard_target_dir_present_prefixes[1];
    let probe = to_deploy_probe(ctx, guard_dir_present);
    let resolution = resolve(pre.cmdline.as_str(), inputs.proc_cmdline, probe);
    let resolved = match resolution {
        Resolution::RefuseExit0 => return SyncPlan::RefuseExit0,
        Resolution::Rewrite(s) => s,
        Resolution::Keep => pre.cmdline,
    };
    let final_cmdline = inject_clock(resolved.as_str(), inputs.clock_usec);
    let current_stripped = match inputs.current_cmdline_txt {
        Some(c) => strip_clock(c),
        None => String::new(),
    };
    let new_stripped = strip_clock(final_cmdline.as_str());
    let sync_needed = needs_sync(
        inputs.src_kernel_size,
        inputs.dst_kernel_size,
        inputs.src_initramfs_size,
        inputs.dst_initramfs_size,
        current_stripped.as_str(),
        new_stripped.as_str(),
    );
    if !sync_needed {
        return SyncPlan::Skip("already in sync");
    }
    SyncPlan::Sync { cmdline_txt: final_cmdline, kernel_name: pre.kernel_name }
}

/// A sync is idempotent: once a `Sync` plan's `cmdline.txt` is in place and
/// the kernel and initramfs on the EFI partition have their source sizes, a
/// re-run over the same system state, with any fresh clock, is skipped as
/// already in sync.
pub proof fn lemma_rerun_after_sync_skips(first: &SyncInputs, rerun: &SyncInputs)
    requires
        sync_plan(first) is Sync,
        rerun.model_raw@ == first.model_raw@,
        rerun.bls_entries_sorted@ == first.bls_entries_sorted@,
        rerun.proc_cmdline@ == first.proc_cmdline@,
        rerun.ignition_firstboot_present == first.ignition_firstboot_present,
        rerun.cmdline_d_contents_ordered@ == first.cmdline_d_contents_ordered@,
        rerun.deploy_root_prefixes_present@ == first.deploy_root_prefixes_present@,
        rerun.guard_target_dir_present_prefixes@ == first.guard_target_dir_present_prefixes@,
        rerun.current_cmdline_txt matches Some(c) && c@ == sync_plan(first)->cmdline_txt,
        rerun.dst_kernel_size == Some(rerun.src_kernel_size),
        rerun.dst_initramfs_size == Some(rerun.src_initramfs_size),
    ensures
        sync_plan(rerun) == SyncPlanModel::Skip("already in sync"@),
{
    let pre = pre_slot(
        first.model_raw@,
        first.bls_entries_sorted@,
        first.ignition_firstboot_present,
        first.cmdline_d_contents_ordered@,
    );
    let p = pre->Ok_0;
    let probe = probe_for(
        context_of(first.deploy_root_prefixes_present@),
        any_present(first.guard_target_dir_present_prefixes),
    );
    let res = resolution(p.cmdline, first.proc_cmdline@, probe);
    let resolved = match res {
        ResolutionModel::Rewrite(s) => s,
        _ => p.cmdline,
    };
    assert(any_present(rerun.guard_target_dir_present_prefixes) == any_present(
        first.guard_target_dir_present_prefixes,
    ));
    lemma_clock_refresh_invisible(resolved, first.clock_usec as nat, rerun.clock_usec as nat);
}

/// In the pre-LUKS initrd, where no deploy directory can be probed, the
/// plan never refuses.
pub proof fn lemma_initrd_never_refuses(inputs: &SyncInputs)
    requires
        context_of(inputs.deploy_root_prefixes_present@) == ExecContext::InitrdPreLuks,
    ensures
        !(sync_plan(inputs) is RefuseExit0),
{
}

/// The `cmdline.txt` a sync writes is one line (the firmware reads only the
/// first): its only whitespace is the space character.
pub proof fn lemma_synced_cmdline_single_line(inputs: &SyncInputs)
    requires
        sync_plan(inputs) is Sync,
    ensures
        single_line(sync_plan(inputs)->cmdline_txt),
{
    let w = default_entry(entry_models(inputs.bls_entries_sorted@))->0;
    let x = with_extras(
        expanded(w.options, inputs.ignition_firstboot_present),
        text_views(inputs.cmdline_d_contents_ordered@),
    );
    lemma_deduped(x);
    let pre = pre_slot(
        inputs.model_raw@,
        inputs.bls_entries_sorted@,
        inputs.ignition_firstboot_present,
        inputs.cmdline_d_contents_ordered@,
    )->Ok_0;
    assert(pre.cmdline == deduped(x));
    assert(single_line(pre.cmdline));
    if ostree_token(pre.cmdline) is Some && ostree_token(inputs.proc_cmdline@) is Some {
        lemma_rewrite_single_line(pre.cmdline, inputs.proc_cmdline@);
    }
    let probe = probe_for(
        context_of(inputs.deploy_root_prefixes_present@),
        any_present(inputs.guard_target_dir_present_prefixes),
    );
    let resolved = match resolution(pre.cmdline, inputs.proc_cmdline@, probe) {
        ResolutionModel::Rewrite(s) => s,
        _ => pre.cmdline,
    };
    assert(single_line(resolved));
    lemma_clock_injected_single_line(resolved, inputs.clock_usec as nat);
}

} // verus!
