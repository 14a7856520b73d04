//! The sync pipeline as one function over data: model, BLS selection,
//! cmdline assembly, liveness-first slot resolution and the idempotency
//! check. All I/O results are passed in; the caller executes the plan.

use crate::bls::{
    entry_model, is_default, parse_entry, select_default, version_of, versions, BlsEntry,
    BlsEntryModel,
};
use crate::cmdline::{
    clock_injected, clock_stripped, deduped, dedup_tokens, expand_firstboot, expanded,
    inject_clock, lemma_clock_injected_single_line, lemma_clock_refresh_invisible, lemma_deduped,
    strip_clock,
};
use crate::context::{context_of, probe_deploy_root, to_deploy_probe, ExecContext};
use crate::fatsync::{needs_sync, sync_needed};
use crate::model::{efi_name, model_kind, parse_model};
use crate::slot::{
    lemma_rewrite_single_line, ostree_token, resolution, resolve, DeployProbe, Resolution,
    ResolutionModel,
};
use crate::text::{chars_of, push_all, single_line, string_of};
use vstd::prelude::*;

verus! {

pub struct SyncInputs<'a> {
    /// Raw `/proc/device-tree/model` contents (NUL not yet stripped).
    pub model_raw: &'a str,
    /// `(path, contents)` of each `loader/entries/ostree-*.conf`, sorted
    /// bytewise by the caller.
    pub bls_entries_sorted: &'a [(&'a str, &'a str)],
    /// `/proc/cmdline` contents.
    pub proc_cmdline: &'a str,
    /// Whether `ignition.firstboot` exists on the boot partition.
    pub ignition_firstboot_present: bool,
    /// Contents of each `cmdline.d/*.conf` file, in order.
    pub cmdline_d_contents_ordered: &'a [&'a str],
    /// Whether `<prefix>/ostree/deploy` exists, for `""` then `"/sysroot"`.
    pub deploy_root_prefixes_present: [bool; 2],
    /// Whether the live (`/proc`) slot's deploy directory exists, per prefix.
    pub live_slot_dir_present_prefixes: [bool; 2],
    /// Whether the BLS slot's deploy directory exists, per prefix.
    pub bls_slot_dir_present_prefixes: [bool; 2],
    /// Fresh wall-clock time in microseconds.
    pub clock_usec: u64,
    /// The EFI partition's current `cmdline.txt`, if present.
    pub current_cmdline_txt: Option<&'a str>,
    pub src_kernel_size: u64,
    pub dst_kernel_size: Option<u64>,
    pub src_initramfs_size: u64,
    pub dst_initramfs_size: Option<u64>,
}

#[derive(Debug, Clone, PartialEq, Eq)]
pub enum SyncPlan {
    /// Nothing to do, for the given reason.
    Skip(&'static str),
    /// The slot guard refused: leave the last good `cmdline.txt` untouched.
    RefuseExit0,
    /// Write kernel, initramfs and this `cmdline.txt`.
    Sync { cmdline_txt: String, kernel_name: &'static str },
}

/// The mathematical value of a [`SyncPlan`].
pub enum SyncPlanModel {
    Skip(Seq<char>),
    RefuseExit0,
    Sync { cmdline_txt: Seq<char>, kernel_name: Seq<char> },
}

impl View for SyncPlan {
    type V = SyncPlanModel;

    open spec fn view(&self) -> SyncPlanModel {
        match self {
            SyncPlan::Skip(r) => SyncPlanModel::Skip(r@),
            SyncPlan::RefuseExit0 => SyncPlanModel::RefuseExit0,
            SyncPlan::Sync { cmdline_txt, kernel_name } => SyncPlanModel::Sync {
                cmdline_txt: cmdline_txt@,
                kernel_name: kernel_name@,
            },
        }
    }
}

/// What is known before slot resolution: kernel name, assembled cmdline and
/// the winning entry's kernel and initramfs paths.
pub struct PreSlot {
    pub kernel_name: &'static str,
    pub cmdline: String,
    pub linux_path: String,
    pub initrd_path: String,
}

/// The mathematical value of a [`PreSlot`].
pub struct PreSlotModel {
    pub kernel_name: Seq<char>,
    pub cmdline: Seq<char>,
    pub linux_path: Seq<char>,
    pub initrd_path: Seq<char>,
}

impl View for PreSlot {
    type V = PreSlotModel;

    open spec fn view(&self) -> PreSlotModel {
        PreSlotModel {
            kernel_name: self.kernel_name@,
            cmdline: self.cmdline@,
            linux_path: self.linux_path@,
            initrd_path: self.initrd_path@,
        }
    }
}

/// The parsed BLS entries, in order.
pub open spec fn entry_models(es: Seq<(&str, &str)>) -> Seq<BlsEntryModel> {
    es.map_values(|e: (&str, &str)| entry_model(e.1@))
}

pub open spec fn model_versions(ms: Seq<BlsEntryModel>) -> Seq<Option<int>> {
    ms.map_values(|m: BlsEntryModel| version_of(m))
}

/// The default entry among `ms`, if any.
pub open spec fn default_entry(ms: Seq<BlsEntryModel>) -> Option<BlsEntryModel> {
    let vs = model_versions(ms);
    if exists|i: int| is_default(vs, i) {
        Some(ms[choose|i: int| is_default(vs, i)])
    } else {
        None
    }
}

/// `a` with each of `xs` appended after a space.
pub open spec fn with_extras(a: Seq<char>, xs: Seq<Seq<char>>) -> Seq<char>
    decreases xs.len(),
{
    if xs.len() == 0 {
        a
    } else {
        with_extras(a, xs.drop_last()) + seq![' '] + xs.last()
    }
}

pub open spec fn text_views(xs: Seq<&str>) -> Seq<Seq<char>> {
    xs.map_values(|x: &str| x@)
}

/// The result of `assemble_pre_slot_cmdline`.
pub open spec fn pre_slot(
    model_raw: Seq<char>,
    entries: Seq<(&str, &str)>,
    firstboot: bool,
    extras: Seq<&str>,
) -> Result<PreSlotModel, Seq<char>> {
    match model_kind(model_raw) {
        None => Err("unsupported model"@),
        Some(k) => match default_entry(entry_models(entries)) {
            None => Err("no BLS entry found"@),
            Some(w) => Ok(
                PreSlotModel {
                    kernel_name: efi_name(k),
                    cmdline: deduped(with_extras(expanded(w.options, firstboot), text_views(extras))),
                    linux_path: w.linux,
                    initrd_path: w.initrd,
                },
            ),
        },
    }
}

/// At most one entry is the default.
pub proof fn lemma_default_unique(vs: Seq<Option<int>>, i: int, j: int)
    requires
        is_default(vs, i),
        is_default(vs, j),
    ensures
        i == j,
{
    if i < j {
        assert(eligible_at(vs, i));
    } else if j < i {
        assert(eligible_at(vs, j));
    }
}

spec fn eligible_at(vs: Seq<Option<int>>, i: int) -> bool {
    crate::bls::eligible(vs, i)
}

/// Model, BLS default-entry selection and cmdline assembly (firstboot
/// expansion, `cmdline.d` append, dedup).
pub fn assemble_pre_slot_cmdline(
    model_raw: &str,
    bls_entries_sorted: &[(&str, &str)],
    ignition_firstboot_present: bool,
    cmdline_d_contents_ordered: &[&str],
) -> (r: Result<PreSlot, &'static str>)
    ensures
        match r {
            Ok(p) => pre_slot(
                model_raw@,
                bls_entries_sorted@,
                ignition_firstboot_present,
                cmdline_d_contents_ordered@,
            ) == Ok::<PreSlotModel, Seq<char>>(p@),
            Err(e) => pre_slot(
                model_raw@,
                bls_entries_sorted@,
                ignition_firstboot_present,
                cmdline_d_contents_ordered@,
            ) == Err::<PreSlotModel, Seq<char>>(e@),
        },
{
    let model = match parse_model(model_raw) {
        Ok(m) => m,
        Err(_) => return Err("unsupported model"),
    };
    let ghost ms = entry_models(bls_entries_sorted@);
    let mut entries: Vec<BlsEntry> = Vec::new();
    let mut k: usize = 0;
    while k < bls_entries_sorted.len()
        invariant
            k <= bls_entries_sorted@.len(),
            ms == entry_models(bls_entries_sorted@),
            entries@.len() == k,
            forall|i: int| 0 <= i < k ==> (#[trigger] entries@[i])@ == ms[i],
        decreases bls_entries_sorted.len() - k,
    {
        let (_, contents) = bls_entries_sorted[k];
        entries.push(parse_entry(contents));
        k = k + 1;
    }
    proof {
        assert(versions(entries@) =~= model_versions(ms));
    }
    let winning = match select_default(&entries) {
        Some(w) => w,
        None => {
            proof {
                let vs = model_versions(ms);
                assert(!exists|i: int| is_default(vs, i));
            }
            return Err("no BLS entry found");
        },
    };
    proof {
        let vs = model_versions(ms);
        let i = choose|i: int| is_default(versions(entries@), i) && *winning == entries@[i];
        let c = choose|c: int| is_default(vs, c);
        lemma_default_unique(vs, i, c);
        assert(default_entry(ms) == Some(winning@));
    }
    let expanded_options = expand_firstboot(winning.options.as_str(), ignition_firstboot_present);
    let mut assembled = chars_of(expanded_options.as_str());
    let ghost xs = text_views(cmdline_d_contents_ordered@);
    let mut j: usize = 0;
    assert(xs.take(0) =~= Seq::<Seq<char>>::empty());
    while j < cmdline_d_contents_ordered.len()
        invariant
            j <= cmdline_d_contents_ordered@.len(),
            xs == text_views(cmdline_d_contents_ordered@),
            assembled@ == with_extras(expanded_options@, xs.take(j as int)),
        decreases cmdline_d_contents_ordered.len() - j,
    {
        assembled.push(' ');
        push_all(&mut assembled, &chars_of(cmdline_d_contents_ordered[j]));
        assert(xs.take(j + 1).drop_last() =~= xs.take(j as int));
        j = j + 1;
        assert(assembled@ =~= with_extras(expanded_options@, xs.take(j as int)));
    }
    assert(xs.take(j as int) =~= xs);
    let assembled_text = string_of(&assembled);
    Ok(
        PreSlot {
            kernel_name: model.efi_filename(),
            cmdline: dedup_tokens(assembled_text.as_str()),
            linux_path: winning.linux.clone(),
            initrd_path: winning.initrd.clone(),
        },
    )
}

/// One of the two per-prefix presence flags is set.
pub open spec fn any_present(flags: [bool; 2]) -> bool {
    flags@[0] || flags@[1]
}

/// The plan for `inputs`.
pub open spec fn sync_plan(inputs: &SyncInputs) -> SyncPlanModel {
    match pre_slot(
        inputs.model_raw@,
        inputs.bls_entries_sorted@,
        inputs.ignition_firstboot_present,
        inputs.cmdline_d_contents_ordered@,
    ) {
        Err(reason) => SyncPlanModel::Skip(reason),
        Ok(pre) => {
            let probe = DeployProbe {
                root_accessible: context_of(inputs.deploy_root_prefixes_present@)
                    == ExecContext::RealRoot,
                live_slot_present: any_present(inputs.live_slot_dir_present_prefixes),
                bls_slot_present: any_present(inputs.bls_slot_dir_present_prefixes),
            };
            match resolution(pre.cmdline, inputs.proc_cmdline@, probe) {
                ResolutionModel::RefuseExit0 => SyncPlanModel::RefuseExit0,
                res => {
                    let resolved = match res {
                        ResolutionModel::Rewrite(s) => s,
                        _ => pre.cmdline,
                    };
                    let fin = clock_injected(resolved, inputs.clock_usec as nat);
                    let current = match inputs.current_cmdline_txt {
                        Some(c) => clock_stripped(c@),
                        None => Seq::empty(),
                    };
                    if sync_needed(
                        inputs.src_kernel_size,
                        inputs.dst_kernel_size,
                        inputs.src_initramfs_size,
                        inputs.dst_initramfs_size,
                        current,
                        clock_stripped(fin),
                    ) {
                        SyncPlanModel::Sync { cmdline_txt: fin, kernel_name: pre.kernel_name }
                    } else {
                        SyncPlanModel::Skip("already in sync"@)
                    }
                },
            }
        },
    }
}

/// The full pipeline over data: what to do for these inputs.
pub fn plan_sync(inputs: &SyncInputs) -> (p: SyncPlan)
    ensures
        p@ == sync_plan(inputs),
{
    let pre = match assemble_pre_slot_cmdline(
        inputs.model_raw,
        inputs.bls_entries_sorted,
        inputs.ignition_firstboot_present,
        inputs.cmdline_d_contents_ordered,
    ) {
        Ok(v) => v,
        Err(reason) => return SyncPlan::Skip(reason),
    };
    let ctx = probe_deploy_root(inputs.deploy_root_prefixes_present.as_slice());
    let live_present = inputs.live_slot_dir_present_prefixes[0]
        || inputs.live_slot_dir_present_prefixes[1];
    let bls_present = inputs.bls_slot_dir_present_prefixes[0]
        || inputs.bls_slot_dir_present_prefixes[1];
    let probe = to_deploy_probe(ctx, live_present, bls_present);
    let resolution = resolve(pre.cmdline.as_str(), inputs.proc_cmdline, probe);
    let resolved = match resolution {
        Resolution::RefuseExit0 => return SyncPlan::RefuseExit0,
        Resolution::Rewrite(s) => s,
        Resolution::Keep => pre.cmdline,
    };
    let final_cmdline = inject_clock(resolved.as_str(), inputs.clock_usec);
    let current_stripped = match inputs.current_cmdline_txt {
        Some(c) => strip_clock(c),
        None => String::new(),
    };
    let new_stripped = strip_clock(final_cmdline.as_str());
    let sync_needed = needs_sync(
        inputs.src_kernel_size,
        inputs.dst_kernel_size,
        inputs.src_initramfs_size,
        inputs.dst_initramfs_size,
        current_stripped.as_str(),
        new_stripped.as_str(),
    );
    if !sync_needed {
        return SyncPlan::Skip("already in sync");
    }
    SyncPlan::Sync { cmdline_txt: final_cmdline, kernel_name: pre.kernel_name }
}

/// A sync is idempotent: once a `Sync` plan's `cmdline.txt` is in place and
/// the kernel and initramfs on the EFI partition have their source sizes, a
/// re-run over the same system state, with any fresh clock, is skipped as
/// already in sync.
pub proof fn lemma_rerun_after_sync_skips(first: &SyncInputs, rerun: &SyncInputs)
    requires
        sync_plan(first) is Sync,
        rerun.model_raw@ == first.model_raw@,
        rerun.bls_entries_sorted@ == first.bls_entries_sorted@,
        rerun.proc_cmdline@ == first.proc_cmdline@,
        rerun.ignition_firstboot_present == first.ignition_firstboot_present,
        rerun.cmdline_d_contents_ordered@ == first.cmdline_d_contents_ordered@,
        rerun.deploy_root_prefixes_present@ == first.deploy_root_prefixes_present@,
        rerun.live_slot_dir_present_prefixes@ == first.live_slot_dir_present_prefixes@,
        rerun.bls_slot_dir_present_prefixes@ == first.bls_slot_dir_present_prefixes@,
        rerun.current_cmdline_txt matches Some(c) && c@ == sync_plan(first)->cmdline_txt,
        rerun.dst_kernel_size == Some(rerun.src_kernel_size),
        rerun.dst_initramfs_size == Some(rerun.src_initramfs_size),
    ensures
        sync_plan(rerun) == SyncPlanModel::Skip("already in sync"@),
{
    let pre = pre_slot(
        first.model_raw@,
        first.bls_entries_sorted@,
        first.ignition_firstboot_present,
        first.cmdline_d_contents_ordered@,
    );
    let p = pre->Ok_0;
    let probe = DeployProbe {
        root_accessible: context_of(first.deploy_root_prefixes_present@) == ExecContext::RealRoot,
        live_slot_present: any_present(first.live_slot_dir_present_prefixes),
        bls_slot_present: any_present(first.bls_slot_dir_present_prefixes),
    };
    let res = resolution(p.cmdline, first.proc_cmdline@, probe);
    let resolved = match res {
        ResolutionModel::Rewrite(s) => s,
        _ => p.cmdline,
    };
    assert(any_present(rerun.live_slot_dir_present_prefixes) == any_present(
        first.live_slot_dir_present_prefixes,
    ));
    assert(any_present(rerun.bls_slot_dir_present_prefixes) == any_present(
        first.bls_slot_dir_present_prefixes,
    ));
    lemma_clock_refresh_invisible(resolved, first.clock_usec as nat, rerun.clock_usec as nat);
}

/// In the pre-LUKS initrd, where no deploy directory can be probed, the
/// plan never refuses.
pub proof fn lemma_initrd_never_refuses(inputs: &SyncInputs)
    requires
        context_of(inputs.deploy_root_prefixes_present@) == ExecContext::InitrdPreLuks,
    ensures
        !(sync_plan(inputs) is RefuseExit0),
{
}

/// The `cmdline.txt` a sync writes is one line (the firmware reads only the
/// first): its only whitespace is the space character.
pub proof fn lemma_synced_cmdline_single_line(inputs: &SyncInputs)
    requires
        sync_plan(inputs) is Sync,
    ensures
        single_line(sync_plan(inputs)->cmdline_txt),
{
    let w = default_entry(entry_models(inputs.bls_entries_sorted@))->0;
    let x = with_extras(
        expanded(w.options, inputs.ignition_firstboot_present),
        text_views(inputs.cmdline_d_contents_ordered@),
    );
    lemma_deduped(x);
    let pre = pre_slot(
        inputs.model_raw@,
        inputs.bls_entries_sorted@,
        inputs.ignition_firstboot_present,
        inputs.cmdline_d_contents_ordered@,
    )->Ok_0;
    assert(pre.cmdline == deduped(x));
    assert(single_line(pre.cmdline));
    if ostree_token(pre.cmdline) is Some && ostree_token(inputs.proc_cmdline@) is Some {
        lemma_rewrite_single_line(pre.cmdline, inputs.proc_cmdline@);
    }
    let probe = DeployProbe {
        root_accessible: context_of(inputs.deploy_root_prefixes_present@) == ExecContext::RealRoot,
        live_slot_present: any_present(inputs.live_slot_dir_present_prefixes),
        bls_slot_present: any_present(inputs.bls_slot_dir_present_prefixes),
    };
    let resolved = match resolution(pre.cmdline, inputs.proc_cmdline@, probe) {
        ResolutionModel::Rewrite(s) => s,
        _ => pre.cmdline,
    };
    assert(single_line(resolved));
    lemma_clock_injected_single_line(resolved, inputs.clock_usec as nat);
}

} // verus!
