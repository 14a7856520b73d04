//! FAT32 EFI-partition write ordering, atomicity and idempotency.
//!
//! Large files (kernel, initramfs) are written in place: the partition has
//! no room for old and new copies at once. Small files go through
//! write-tmp, fsync, rename. `cmdline.txt`, the boot pointer, is written
//! last, after an fsync of the directory: it is the commit point.

use crate::text::{chars_of, push_all, string_of};
use vstd::prelude::*;
use vstd::string::StringSliceAdditionalSpecFns;

verus! {

/// `std::io::Error`, the error a [`BootFs`] operation returns; carried
/// through unopened.
#[verifier::external_type_specification]
#[verifier::external_body]
pub struct ExIoError(std::io::Error);

/// The filesystem operations the sync needs, so that ordering and
/// idempotency can be exercised against an in-memory filesystem.
///
/// Implementations are not verified here; their contract is believed: each
/// mutating method records the call it was handed together with the result
/// it returned.
pub trait BootFs {
    /// The mutating calls this filesystem has received, oldest first, each
    /// with the result it returned. Each mutating method appends its own call,
    /// as its `ensures` says. The default body only lets implementations
    /// written outside Verus compile; for a filesystem of unknown type
    /// verified code sees no body.
    closed spec fn calls(&self) -> Seq<(FsCall, std::io::Result<()>)> {
        Seq::empty()
    }

    fn file_size(&self, path: &str) -> Option<u64>;

    fn read_to_string(&self, path: &str) -> Option<String>;

    fn write(&mut self, path: &str, contents: &[u8]) -> (r: std::io::Result<()>)
        ensures
            final(self).calls() == old(self).calls().push(
                (FsCall::Write(path@, contents@), r),
            ),
    ;

    fn rename(&mut self, from: &str, to: &str) -> (r: std::io::Result<()>)
        ensures
            final(self).calls() == old(self).calls().push((FsCall::Rename(from@, to@), r)),
    ;

    fn remove(&mut self, path: &str) -> (r: std::io::Result<()>)
        ensures
            final(self).calls() == old(self).calls().push((FsCall::Remove(path@), r)),
    ;

    fn fsync(&mut self, path: &str) -> (r: std::io::Result<()>)
        ensures
            final(self).calls() == old(self).calls().push((FsCall::Fsync(path@), r)),
    ;

    fn fsync_dir(&mut self) -> (r: std::io::Result<()>)
        ensures
            final(self).calls() == old(self).calls().push((FsCall::FsyncDir, r)),
    ;
}

/// One mutating filesystem call, as a value.
pub enum FsCall {
    Remove(Seq<char>),
    Write(Seq<char>, Seq<u8>),
    Rename(Seq<char>, Seq<char>),
    Fsync(Seq<char>),
    FsyncDir,
}

/// One mutating call to be made on a [`BootFs`]; written contents are
/// borrowed, not copied.
pub enum FsOp<'a> {
    Remove(String),
    Write(String, &'a [u8]),
    Rename(String, String),
    Fsync(String),
    FsyncDir,
}

impl<'a> FsOp<'a> {
    pub open spec fn model(&self) -> FsCall {
        match self {
            FsOp::Remove(p) => FsCall::Remove(p@),
            FsOp::Write(p, c) => FsCall::Write(p@, c@),
            FsOp::Rename(a, b) => FsCall::Rename(a@, b@),
            FsOp::Fsync(p) => FsCall::Fsync(p@),
            FsOp::FsyncDir => FsCall::FsyncDir,
        }
    }
}

/// The calls a sequence of operations stands for.
pub open spec fn ops_model(ops: Seq<FsOp>) -> Seq<FsCall> {
    ops.map_values(|o: FsOp| o.model())
}

/// Whether a sync is needed: a missing destination compares as size 0.
pub open spec fn sync_needed(
    src_kernel_size: u64,
    dst_kernel_size: Option<u64>,
    src_initramfs_size: u64,
    dst_initramfs_size: Option<u64>,
    current: Seq<char>,
    new: Seq<char>,
) -> bool {
    ||| src_kernel_size != dst_kernel_size.unwrap_or(0)
    ||| src_initramfs_size != dst_initramfs_size.unwrap_or(0)
    ||| current != new
}

/// Compare source/destination sizes and the clock-stripped cmdlines.
pub fn needs_sync(
    src_kernel_size: u64,
    dst_kernel_size: Option<u64>,
    src_initramfs_size: u64,
    dst_initramfs_size: Option<u64>,
    current_cmdline_stripped: &str,
    new_cmdline_stripped: &str,
) -> (b: bool)
    ensures
        b == sync_needed(
            src_kernel_size,
            dst_kernel_size,
            src_initramfs_size,
            dst_initramfs_size,
            current_cmdline_stripped@,
            new_cmdline_stripped@,
        ),
{
    let dst_kernel_size = match dst_kernel_size {
        Some(v) => v,
        None => 0,
    };
    let dst_initramfs_size = match dst_initramfs_size {
        Some(v) => v,
        None => 0,
    };
    src_kernel_size != dst_kernel_size || src_initramfs_size != dst_initramfs_size
        || !crate::text::chars_equal(
        &chars_of(current_cmdline_stripped),
        &chars_of(new_cmdline_stripped),
    )
}

/// The `.new` files an interrupted earlier sync may have left behind.
pub open spec fn stale_new_names(kernel_name: Seq<char>) -> Seq<Seq<char>> {
    seq![kernel_name + ".new"@, "initramfs.img.new"@, "cmdline.txt.new"@, "config.txt.new"@]
}

/// The temporary files of an interrupted earlier sync, to be removed before
/// anything is written: the kernel's, initramfs's, `cmdline.txt`'s and
/// `config.txt`'s `.new` files.
pub fn stale_new_files(kernel_name: &str) -> (r: Vec<String>)
    ensures
        r@.map_values(|s: String| s@) == stale_new_names(kernel_name@),
{
    let mut k = chars_of(kernel_name);
    push_all(&mut k, &chars_of(".new"));
    let r = vec![
        string_of(&k),
        "initramfs.img.new".to_owned(),
        "cmdline.txt.new".to_owned(),
        "config.txt.new".to_owned(),
    ];
    assert(r@.map_values(|s: String| s@) =~= stale_new_names(kernel_name@));
    r
}

/// A pending write: `Large` files are written in place, `Small` files
/// through write-tmp, fsync, rename.
pub enum PendingWrite<'a> {
    Large { dest: &'a str, contents: &'a [u8] },
    Small { dest: &'a str, contents: &'a [u8] },
}

/// A pending write as a value: whether it is written in place, its
/// destination and its contents.
pub open spec fn pending_model(w: PendingWrite) -> (bool, Seq<char>, Seq<u8>) {
    match w {
        PendingWrite::Large { dest, contents } => (true, dest@, contents@),
        PendingWrite::Small { dest, contents } => (false, dest@, contents@),
    }
}

pub open spec fn pending_models(ws: Seq<PendingWrite>) -> Seq<(bool, Seq<char>, Seq<u8>)> {
    ws.map_values(|w: PendingWrite| pending_model(w))
}

/// The large files of a sync: the kernel under its EFI name, then
/// `initramfs.img`, both written in place.
pub open spec fn large_set(kernel_name: Seq<char>, kernel: Seq<u8>, initramfs: Seq<u8>) -> Seq<
    (bool, Seq<char>, Seq<u8>),
> {
    seq![(true, kernel_name, kernel), (true, "initramfs.img"@, initramfs)]
}

/// The small files of a sync besides `cmdline.txt`, each written atomically:
/// the updated `config.txt` when there is one, then each firmware file.
pub open spec fn small_set(config_txt: Option<Seq<u8>>, firmware: Seq<(Seq<char>, Seq<u8>)>) -> Seq<
    (bool, Seq<char>, Seq<u8>),
> {
    (match config_txt {
        Some(c) => seq![(false, "config.txt"@, c)],
        None => Seq::empty(),
    }) + firmware.map_values(|f: (Seq<char>, Seq<u8>)| (false, f.0, f.1))
}

/// The files a sync writes besides `cmdline.txt`: the large ones (kernel,
/// initramfs) and the small ones (`config.txt` when there is an updated one,
/// then the firmware files that need copying).
pub fn sync_file_set<'a>(
    kernel_name: &'a str,
    kernel_bytes: &'a [u8],
    initramfs_bytes: &'a [u8],
    config_txt_new: Option<&'a str>,
    firmware: &'a [(String, Vec<u8>)],
) -> (r: (Vec<PendingWrite<'a>>, Vec<PendingWrite<'a>>))
    ensures
        pending_models(r.0@) == large_set(kernel_name@, kernel_bytes@, initramfs_bytes@),
        pending_models(r.1@) == small_set(
            match config_txt_new {
                Some(c) => Some(c.spec_bytes()),
                None => None,
            },
            firmware@.map_values(|f: (String, Vec<u8>)| (f.0@, f.1@)),
        ),
{
    let mut large: Vec<PendingWrite<'a>> = Vec::new();
    large.push(PendingWrite::Large { dest: kernel_name, contents: kernel_bytes });
    large.push(PendingWrite::Large { dest: "initramfs.img", contents: initramfs_bytes });
    assert(pending_models(large@) =~= large_set(kernel_name@, kernel_bytes@, initramfs_bytes@));
    let mut small: Vec<PendingWrite<'a>> = Vec::new();
    if let Some(c) = config_txt_new {
        small.push(PendingWrite::Small { dest: "config.txt", contents: c.as_bytes() });
    }
    let ghost head = pending_models(small@);
    let ghost fv = firmware@.map_values(|f: (String, Vec<u8>)| (f.0@, f.1@));
    let ghost fm = fv.map_values(|f: (Seq<char>, Seq<u8>)| (false, f.0, f.1));
    assert(head == match config_txt_new {
        Some(c) => seq![(false, "config.txt"@, c.spec_bytes())],
        None => Seq::<(bool, Seq<char>, Seq<u8>)>::empty(),
    });
    let mut i: usize = 0;
    assert(pending_models(small@) =~= head + fm.take(0));
    while i < firmware.len()
        invariant
            i <= firmware@.len(),
            fv == firmware@.map_values(|f: (String, Vec<u8>)| (f.0@, f.1@)),
            fm == fv.map_values(|f: (Seq<char>, Seq<u8>)| (false, f.0, f.1)),
            pending_models(small@) == head + fm.take(i as int),
        decreases firmware.len() - i,
    {
        let f: &'a (String, Vec<u8>) = &firmware[i];
        let ghost before = small@;
        small.push(PendingWrite::Small { dest: f.0.as_str(), contents: f.1.as_slice() });
        assert(pending_models(small@) =~= pending_models(before).push(fm[i as int]));
        assert(fm.take(i + 1) =~= fm.take(i as int).push(fm[i as int]));
        i = i + 1;
    }
    assert(fm.take(i as int) =~= fm);
    (large, small)
}

/// The temporary name a small file is written under before its rename.
pub open spec fn tmp_name(dest: Seq<char>) -> Seq<char> {
    dest + ".new"@
}

/// The calls of one atomic small-file write.
pub open spec fn atomic_calls(dest: Seq<char>, contents: Seq<u8>) -> Seq<FsCall> {
    seq![
        FsCall::Write(tmp_name(dest), contents),
        FsCall::Fsync(tmp_name(dest)),
        FsCall::Rename(tmp_name(dest), dest),
    ]
}

/// Removal of each stale file, in order.
pub open spec fn stale_calls(stale: Seq<&str>) -> Seq<FsCall>
    decreases stale.len(),
{
    if stale.len() == 0 {
        Seq::empty()
    } else {
        stale_calls(stale.drop_last()).push(FsCall::Remove(stale.last()@))
    }
}

/// In-place writes of the `Large` entries, in order; `Small` ones are skipped.
pub open spec fn large_calls(ws: Seq<PendingWrite>) -> Seq<FsCall>
    decreases ws.len(),
{
    if ws.len() == 0 {
        Seq::empty()
    } else {
        large_calls(ws.drop_last()) + match ws.last() {
            PendingWrite::Large { dest, contents } => seq![FsCall::Write(dest@, contents@)],
            PendingWrite::Small { .. } => Seq::empty(),
        }
    }
}

/// Atomic writes of the `Small` entries, in order; `Large` ones are skipped.
pub open spec fn small_calls(ws: Seq<PendingWrite>) -> Seq<FsCall>
    decreases ws.len(),
{
    if ws.len() == 0 {
        Seq::empty()
    } else {
        small_calls(ws.drop_last()) + match ws.last() {
            PendingWrite::Small { dest, contents } => atomic_calls(dest@, contents@),
            PendingWrite::Large { .. } => Seq::empty(),
        }
    }
}

/// The full call sequence of a sync: stale removals, large writes, small
/// atomic writes, a directory fsync, then the `cmdline.txt` commit and a
/// final directory fsync.
pub open spec fn write_plan(
    stale: Seq<&str>,
    large: Seq<PendingWrite>,
    small: Seq<PendingWrite>,
    cmdline_dest: Seq<char>,
    cmdline_contents: Seq<u8>,
) -> Seq<FsCall> {
    stale_calls(stale) + large_calls(large) + small_calls(small) + seq![FsCall::FsyncDir]
        + atomic_calls(cmdline_dest, cmdline_contents) + seq![FsCall::FsyncDir]
}

fn push_op<'a>(ops: &mut Vec<FsOp<'a>>, op: FsOp<'a>)
    ensures
        ops_model(final(ops)@) == ops_model(old(ops)@).push(op.model()),
{
    let ghost before = ops@;
    ops.push(op);
    assert(ops_model(ops@) =~= ops_model(before).push(op.model()));
}

fn push_atomic<'a>(ops: &mut Vec<FsOp<'a>>, dest: &str, contents: &'a [u8])
    ensures
        ops_model(final(ops)@) == ops_model(old(ops)@) + atomic_calls(dest@, contents@),
{
    let ghost before = ops_model(ops@);
    let mut t = chars_of(dest);
    push_all(&mut t, &chars_of(".new"));
    let tmp = string_of(&t);
    assert(tmp@ == tmp_name(dest@));
    push_op(ops, FsOp::Write(tmp.clone(), contents));
    push_op(ops, FsOp::Fsync(tmp.clone()));
    push_op(ops, FsOp::Rename(tmp, dest.to_owned()));
    assert(ops_model(ops@) =~= before + atomic_calls(dest@, contents@));
}

/// The operations of a sync, in the order they are made: removal of each
/// stale `.new` file from an interrupted earlier sync, in-place writes of
/// the large files, atomic writes of the small files, a directory fsync,
/// then the atomic write of `cmdline.txt` and a last directory fsync.
pub fn plan_write_ops<'a>(
    stale_new_files: &[&str],
    large_files: &[PendingWrite<'a>],
    small_files_excl_cmdline: &[PendingWrite<'a>],
    cmdline_dest: &str,
    cmdline_contents: &'a [u8],
) -> (ops: Vec<FsOp<'a>>)
    ensures
        ops_model(ops@) == write_plan(
            stale_new_files@,
            large_files@,
            small_files_excl_cmdline@,
            cmdline_dest@,
            cmdline_contents@,
        ),
{
    let mut ops: Vec<FsOp<'a>> = Vec::new();
    let mut i: usize = 0;
    assert(ops_model(ops@) =~= stale_calls(stale_new_files@.take(0)));
    while i < stale_new_files.len()
        invariant
            i <= stale_new_files@.len(),
            ops_model(ops@) == stale_calls(stale_new_files@.take(i as int)),
        decreases stale_new_files.len() - i,
    {
        push_op(&mut ops, FsOp::Remove(stale_new_files[i].to_owned()));
        assert(stale_new_files@.take(i + 1).drop_last() =~= stale_new_files@.take(i as int));
        i = i + 1;
    }
    assert(stale_new_files@.take(i as int) =~= stale_new_files@);
    let ghost p1 = ops_model(ops@);
    let mut i: usize = 0;
    assert(large_calls(large_files@.take(0)) =~= Seq::<FsCall>::empty());
    while i < large_files.len()
        invariant
            i <= large_files@.len(),
            ops_model(ops@) == p1 + large_calls(large_files@.take(i as int)),
        decreases large_files.len() - i,
    {
        assert(large_files@.take(i + 1).drop_last() =~= large_files@.take(i as int));
        assert(large_files@.take(i + 1).last() == large_files@[i as int]);
        match &large_files[i] {
            PendingWrite::Large { dest, contents } => {
                push_op(&mut ops, FsOp::Write((*dest).to_owned(), *contents));
            },
            PendingWrite::Small { .. } => {},
        }
        i = i + 1;
        assert(ops_model(ops@) =~= p1 + large_calls(large_files@.take(i as int)));
    }
    assert(large_files@.take(i as int) =~= large_files@);
    let ghost p2 = ops_model(ops@);
    let mut i: usize = 0;
    assert(small_calls(small_files_excl_cmdline@.take(0)) =~= Seq::<FsCall>::empty());
    while i < small_files_excl_cmdline.len()
        invariant
            i <= small_files_excl_cmdline@.len(),
            ops_model(ops@) == p2 + small_calls(small_files_excl_cmdline@.take(i as int)),
        decreases small_files_excl_cmdline.len() - i,
    {
        let ghost ws = small_files_excl_cmdline@;
        assert(ws.take(i + 1).drop_last() =~= ws.take(i as int));
        assert(ws.take(i + 1).last() == ws[i as int]);
        match &small_files_excl_cmdline[i] {
            PendingWrite::Small { dest, contents } => {
                push_atomic(&mut ops, dest, *contents);
            },
            PendingWrite::Large { .. } => {},
        }
        i = i + 1;
        assert(ops_model(ops@) =~= p2 + small_calls(ws.take(i as int)));
    }
    assert(small_files_excl_cmdline@.take(i as int) =~= small_files_excl_cmdline@);
    push_op(&mut ops, FsOp::FsyncDir);
    push_atomic(&mut ops, cmdline_dest, cmdline_contents);
    push_op(&mut ops, FsOp::FsyncDir);
    assert(ops_model(ops@) =~= write_plan(
        stale_new_files@,
        large_files@,
        small_files_excl_cmdline@,
        cmdline_dest@,
        cmdline_contents@,
    ));
    ops
}

/// Whether the sync goes on after an operation: a failed removal of a stale
/// file is ignored, any other failure stops the sync.
pub fn continues_after(op: &FsOp, ok: bool) -> (b: bool)
    ensures
        b == (ok || op.model() is Remove),
{
    ok || match op {
        FsOp::Remove(_) => true,
        _ => false,
    }
}

/// The calls of `ran` follow `plan` from its start, and every call before
/// the last `n` of them succeeded or was a removal.
pub open spec fn follows_plan(plan: Seq<FsCall>, ran: Seq<(FsCall, std::io::Result<()>)>, n: int) -> bool {
    &&& ran.len() <= plan.len()
    &&& forall|i: int| 0 <= i < ran.len() ==> (#[trigger] ran[i]).0 == plan[i]
    &&& forall|i: int| 0 <= i < ran.len() - n ==> (#[trigger] ran[i]).1 is Ok || plan[i] is Remove
}

/// The whole plan ran, and every call succeeded or was a removal.
pub open spec fn run_completed(plan: Seq<FsCall>, ran: Seq<(FsCall, std::io::Result<()>)>) -> bool {
    ran.len() == plan.len() && follows_plan(plan, ran, 0)
}

/// The run stopped at its first failed call that was not a removal: that is
/// its last call, and every call before it succeeded or was a removal.
pub open spec fn run_failed(plan: Seq<FsCall>, ran: Seq<(FsCall, std::io::Result<()>)>) -> bool {
    &&& ran.len() > 0
    &&& follows_plan(plan, ran, 1)
    &&& ran.last().1 is Err
    &&& !(plan[ran.len() - 1] is Remove)
}

/// The calls `after` holds beyond `before`, when `before` is a prefix of it.
pub open spec fn ran_since(before: Seq<(FsCall, std::io::Result<()>)>, after: Seq<(FsCall, std::io::Result<()>)>) -> Seq<(FsCall, std::io::Result<()>)> {
    after.skip(before.len() as int)
}

/// Hand `op` to `fs` and return what `fs` returned.
fn apply_op<F: BootFs + ?Sized>(fs: &mut F, op: &FsOp) -> (r: std::io::Result<()>)
    ensures
        final(fs).calls() == old(fs).calls().push((op.model(), r)),
{
    match op {
        FsOp::Remove(p) => fs.remove(p.as_str()),
        FsOp::Write(p, c) => fs.write(p.as_str(), c),
        FsOp::Rename(a, b) => fs.rename(a.as_str(), b.as_str()),
        FsOp::Fsync(p) => fs.fsync(p.as_str()),
        FsOp::FsyncDir => fs.fsync_dir(),
    }
}

/// Execute a sync: the operations of [`plan_write_ops`], in order, against
/// `fs`. A failed removal is ignored; the first other failure stops the
/// sync at once and its error is returned, so nothing is written after it.
pub fn sync_write_plan<F: BootFs + ?Sized>(
    fs: &mut F,
    stale_new_files: &[&str],
    large_files: &[PendingWrite],
    small_files_excl_cmdline: &[PendingWrite],
    cmdline_dest: &str,
    cmdline_contents: &[u8],
) -> (r: std::io::Result<()>)
    ensures
        old(fs).calls().is_prefix_of(final(fs).calls()),
        ({
            let plan = write_plan(
                stale_new_files@,
                large_files@,
                small_files_excl_cmdline@,
                cmdline_dest@,
                cmdline_contents@,
            );
            let ran = ran_since(old(fs).calls(), final(fs).calls());
            &&& r is Ok ==> run_completed(plan, ran)
            &&& r is Err ==> run_failed(plan, ran) && r == ran.last().1
            &&& r is Ok <==> forall|i: int|
                0 <= i < ran.len() ==> (#[trigger] ran[i]).1 is Ok || ran[i].0 is Remove
        }),
{
    let ops = plan_write_ops(
        stale_new_files,
        large_files,
        small_files_excl_cmdline,
        cmdline_dest,
        cmdline_contents,
    );
    let ghost plan = ops_model(ops@);
    let ghost base = fs.calls();
    let mut i: usize = 0;
    assert(base.is_prefix_of(fs.calls()));
    assert(ran_since(base, fs.calls()) =~= Seq::<(FsCall, std::io::Result<()>)>::empty());
    while i < ops.len()
        invariant
            i <= ops@.len(),
            plan == ops_model(ops@),
            plan == write_plan(
                stale_new_files@,
                large_files@,
                small_files_excl_cmdline@,
                cmdline_dest@,
                cmdline_contents@,
            ),
            base == old(fs).calls(),
            base.is_prefix_of(fs.calls()),
            ran_since(base, fs.calls()).len() == i,
            follows_plan(plan, ran_since(base, fs.calls()), 0),
        decreases ops.len() - i,
    {
        let op = &ops[i];
        assert(plan[i as int] == op.model());
        let ghost before = fs.calls();
        let r = apply_op(fs, op);
        let ghost ran = ran_since(base, fs.calls());
        let ghost rv = r;
        proof {
            assert(ran =~= ran_since(base, before).push((op.model(), r)));
            assert(base.is_prefix_of(fs.calls()));
        }
        match r {
            Ok(()) => {},
            Err(e) => {
                if !continues_after(op, false) {
                    assert(run_failed(plan, ran));
                    assert(ran[ran.len() - 1] == (op.model(), rv));
                    assert(rv == Err::<(), std::io::Error>(e));
                    return Err(e);
                }
            },
        }
        i = i + 1;
    }
    Ok(())
}

/// In every sync plan, the removals of stale files come before any other
/// call.
pub proof fn lemma_removals_first(
    stale: Seq<&str>,
    large: Seq<PendingWrite>,
    small: Seq<PendingWrite>,
    cmdline_dest: Seq<char>,
    cmdline_contents: Seq<u8>,
)
    ensures
        ({
            let plan = write_plan(stale, large, small, cmdline_dest, cmdline_contents);
            forall|i: int, j: int|
                0 <= i < j < plan.len() && (#[trigger] plan[j] is Remove) ==> (#[trigger] plan[i] is Remove)
        }),
{
    let plan = write_plan(stale, large, small, cmdline_dest, cmdline_contents);
    let n = stale_calls(stale).len();
    lemma_stale_calls(stale);
    lemma_no_removals_large(large);
    lemma_no_removals_small(small);
    let rest = large_calls(large) + small_calls(small) + seq![FsCall::FsyncDir] + atomic_calls(
        cmdline_dest,
        cmdline_contents,
    ) + seq![FsCall::FsyncDir];
    assert(plan =~= stale_calls(stale) + rest);
    assert forall|k: int| 0 <= k < rest.len() implies !(#[trigger] rest[k] is Remove) by {
        let a = large_calls(large);
        let b = small_calls(small);
        if k < a.len() {
            assert(rest[k] == a[k]);
        } else if k < a.len() + b.len() {
            assert(rest[k] == b[k - a.len()]);
        }
    }
    assert forall|i: int, j: int|
        0 <= i < j < plan.len() && (#[trigger] plan[j] is Remove) implies (#[trigger] plan[i] is Remove) by {
        if j >= n {
            assert(plan[j] == rest[j - n]);
        }
        assert(i < n);
        assert(plan[i] == stale_calls(stale)[i]);
    }
}

/// In every sync plan, `cmdline.txt` is committed last: the last five calls
/// are a directory fsync, the write of `cmdline.txt`'s temporary file, its
/// fsync, its rename onto `cmdline.txt`, and a directory fsync; no write
/// follows the one of `cmdline.txt`'s temporary file.
pub proof fn lemma_cmdline_committed_last(
    stale: Seq<&str>,
    large: Seq<PendingWrite>,
    small: Seq<PendingWrite>,
    cmdline_dest: Seq<char>,
    cmdline_contents: Seq<u8>,
)
    ensures
        ({
            let plan = write_plan(stale, large, small, cmdline_dest, cmdline_contents);
            let n = plan.len();
            &&& n >= 5
            &&& plan[n - 5] == FsCall::FsyncDir
            &&& plan[n - 4] == FsCall::Write(tmp_name(cmdline_dest), cmdline_contents)
            &&& plan[n - 3] == FsCall::Fsync(tmp_name(cmdline_dest))
            &&& plan[n - 2] == FsCall::Rename(tmp_name(cmdline_dest), cmdline_dest)
            &&& plan[n - 1] == FsCall::FsyncDir
            &&& forall|k: int| n - 4 < k < n ==> !(#[trigger] plan[k] is Write)
        }),
{
    let pre = stale_calls(stale) + large_calls(large) + small_calls(small);
    let plan = write_plan(stale, large, small, cmdline_dest, cmdline_contents);
    let tail = seq![
        FsCall::FsyncDir,
        FsCall::Write(tmp_name(cmdline_dest), cmdline_contents),
        FsCall::Fsync(tmp_name(cmdline_dest)),
        FsCall::Rename(tmp_name(cmdline_dest), cmdline_dest),
        FsCall::FsyncDir,
    ];
    assert(plan =~= pre + tail);
}

proof fn lemma_stale_calls(stale: Seq<&str>)
    ensures
        stale_calls(stale).len() == stale.len(),
        forall|k: int| 0 <= k < stale.len() ==> (#[trigger] stale_calls(stale)[k] is Remove),
    decreases stale.len(),
{
    if stale.len() > 0 {
        lemma_stale_calls(stale.drop_last());
    }
}

proof fn lemma_no_removals_large(ws: Seq<PendingWrite>)
    ensures
        forall|k: int| 0 <= k < large_calls(ws).len() ==> !(#[trigger] large_calls(ws)[k] is Remove),
    decreases ws.len(),
{
    if ws.len() > 0 {
        lemma_no_removals_large(ws.drop_last());
        let a = large_calls(ws.drop_last());
        assert forall|k: int| 0 <= k < large_calls(ws).len() implies !(
        #[trigger] large_calls(ws)[k] is Remove) by {
            if k < a.len() {
                assert(large_calls(ws)[k] == a[k]);
            }
        }
    }
}

proof fn lemma_no_removals_small(ws: Seq<PendingWrite>)
    ensures
        forall|k: int| 0 <= k < small_calls(ws).len() ==> !(#[trigger] small_calls(ws)[k] is Remove),
    decreases ws.len(),
{
    if ws.len() > 0 {
        lemma_no_removals_small(ws.drop_last());
        let a = small_calls(ws.drop_last());
        assert forall|k: int| 0 <= k < small_calls(ws).len() implies !(
        #[trigger] small_calls(ws)[k] is Remove) by {
            if k < a.len() {
                assert(small_calls(ws)[k] == a[k]);
            }
        }
    }
}

proof fn lemma_stale_calls_at(stale: Seq<&str>)
    ensures
        stale_calls(stale).len() == stale.len(),
        forall|k: int| 0 <= k < stale.len() ==> #[trigger] stale_calls(stale)[k] == FsCall::Remove(stale[k]@),
    decreases stale.len(),
{
    if stale.len() > 0 {
        lemma_stale_calls_at(stale.drop_last());
        assert forall|k: int| 0 <= k < stale.len() implies #[trigger] stale_calls(stale)[k]
            == FsCall::Remove(stale[k]@) by {
            if k < stale.len() - 1 {
                assert(stale_calls(stale)[k] == stale_calls(stale.drop_last())[k]);
                assert(stale.drop_last()[k] == stale[k]);
            }
        }
    }
}

proof fn lemma_large_concat(a: Seq<PendingWrite>, b: Seq<PendingWrite>)
    ensures
        large_calls(a + b) == large_calls(a) + large_calls(b),
    decreases b.len(),
{
    if b.len() == 0 {
        assert(a + b =~= a);
        assert(large_calls(a) + large_calls(b) =~= large_calls(a));
    } else {
        lemma_large_concat(a, b.drop_last());
        assert((a + b).drop_last() =~= a + b.drop_last());
        assert((a + b).last() == b.last());
        assert(large_calls(a + b) =~= large_calls(a) + large_calls(b));
    }
}

proof fn lemma_small_concat(a: Seq<PendingWrite>, b: Seq<PendingWrite>)
    ensures
        small_calls(a + b) == small_calls(a) + small_calls(b),
    decreases b.len(),
{
    if b.len() == 0 {
        assert(a + b =~= a);
        assert(small_calls(a) + small_calls(b) =~= small_calls(a));
    } else {
        lemma_small_concat(a, b.drop_last());
        assert((a + b).drop_last() =~= a + b.drop_last());
        assert((a + b).last() == b.last());
        assert(small_calls(a + b) =~= small_calls(a) + small_calls(b));
    }
}

/// Every file of a sync is in its plan, before the five calls that commit
/// `cmdline.txt`: each stale name is removed; each large file is written in
/// place under its own name; each small file is written to `<dest>.new`,
/// fsynced and renamed onto `<dest>`, three calls in a row.
pub proof fn lemma_plan_covers_every_file(
    stale: Seq<&str>,
    large: Seq<PendingWrite>,
    small: Seq<PendingWrite>,
    cmdline_dest: Seq<char>,
    cmdline_contents: Seq<u8>,
)
    ensures
        ({
            let plan = write_plan(stale, large, small, cmdline_dest, cmdline_contents);
            let n = plan.len() as int;
            &&& n >= 5
            &&& forall|k: int|
                0 <= k < stale.len() ==> exists|j: int|
                    0 <= j < n - 5 && #[trigger] plan[j] == FsCall::Remove((#[trigger] stale[k])@)
            &&& forall|k: int|
                0 <= k < large.len() && (#[trigger] large[k]) is Large ==> exists|j: int|
                    0 <= j < n - 5 && #[trigger] plan[j] == FsCall::Write(
                        large[k]->Large_dest@,
                        large[k]->Large_contents@,
                    )
            &&& forall|k: int|
                0 <= k < small.len() && (#[trigger] small[k]) is Small ==> exists|j: int|
                    0 <= j && j + 2 < n - 5 && #[trigger] plan[j] == FsCall::Write(
                        small[k]->Small_dest@ + ".new"@,
                        small[k]->Small_contents@,
                    ) && plan[j + 1] == FsCall::Fsync(small[k]->Small_dest@ + ".new"@) && plan[j
                        + 2] == FsCall::Rename(small[k]->Small_dest@ + ".new"@, small[k]->Small_dest@)
        }),
{
    let sc = stale_calls(stale);
    let lc = large_calls(large);
    let mc = small_calls(small);
    let plan = write_plan(stale, large, small, cmdline_dest, cmdline_contents);
    let tail = seq![FsCall::FsyncDir] + atomic_calls(cmdline_dest, cmdline_contents) + seq![
        FsCall::FsyncDir,
    ];
    assert(plan =~= (sc + lc + mc) + tail);
    let n = plan.len() as int;
    assert(n == sc.len() + lc.len() + mc.len() + 5);
    lemma_stale_calls_at(stale);
    assert forall|k: int| 0 <= k < stale.len() implies exists|j: int|
        0 <= j < n - 5 && #[trigger] plan[j] == FsCall::Remove((#[trigger] stale[k])@) by {
        assert(plan[k] == sc[k]);
    }
    assert forall|k: int| 0 <= k < large.len() && (#[trigger] large[k]) is Large implies exists|
        j: int,
    |
        0 <= j < n - 5 && #[trigger] plan[j] == FsCall::Write(
            large[k]->Large_dest@,
            large[k]->Large_contents@,
        ) by {
        let a = large.take(k);
        let b = seq![large[k]];
        let c = large.skip(k + 1);
        assert(large =~= a + b + c);
        lemma_large_concat(a + b, c);
        lemma_large_concat(a, b);
        assert(b.drop_last() =~= Seq::<PendingWrite>::empty());
        assert(large_calls(Seq::<PendingWrite>::empty()) =~= Seq::<FsCall>::empty());
        assert(large_calls(b) =~= seq![
            FsCall::Write(large[k]->Large_dest@, large[k]->Large_contents@),
        ]);
        let j: int = sc.len() as int + large_calls(a).len() as int;
        assert(lc == large_calls(a) + large_calls(b) + large_calls(c));
        assert(plan[j] == lc[large_calls(a).len() as int]);
    }
    assert forall|k: int| 0 <= k < small.len() && (#[trigger] small[k]) is Small implies exists|
        j: int,
    |
        0 <= j && j + 2 < n - 5 && #[trigger] plan[j] == FsCall::Write(
            small[k]->Small_dest@ + ".new"@,
            small[k]->Small_contents@,
        ) && plan[j + 1] == FsCall::Fsync(small[k]->Small_dest@ + ".new"@) && plan[j + 2]
            == FsCall::Rename(small[k]->Small_dest@ + ".new"@, small[k]->Small_dest@) by {
        let a = small.take(k);
        let b = seq![small[k]];
        let c = small.skip(k + 1);
        assert(small =~= a + b + c);
        lemma_small_concat(a + b, c);
        lemma_small_concat(a, b);
        assert(b.drop_last() =~= Seq::<PendingWrite>::empty());
        assert(small_calls(Seq::<PendingWrite>::empty()) =~= Seq::<FsCall>::empty());
        let t = atomic_calls(small[k]->Small_dest@, small[k]->Small_contents@);
        assert(small_calls(b) =~= t);
        let i0 = small_calls(a).len() as int;
        let j: int = sc.len() as int + lc.len() as int + i0;
        assert(mc == small_calls(a) + t + small_calls(c));
        assert(plan[j] == mc[i0]);
        assert(plan[j + 1] == mc[i0 + 1]);
        assert(plan[j + 2] == mc[i0 + 2]);
        assert(mc[i0] == t[0] && mc[i0 + 1] == t[1] && mc[i0 + 2] == t[2]);
    }
}

/// When a sync is needed: with both destinations at their source sizes,
/// exactly when the two clock-stripped cmdlines differ as text; a
/// destination of another size, a missing destination of a non-empty
/// source, or any difference between the cmdlines always needs one.
pub proof fn lemma_sync_needed(
    src_kernel_size: u64,
    dst_kernel_size: Option<u64>,
    src_initramfs_size: u64,
    dst_initramfs_size: Option<u64>,
    current: Seq<char>,
    new: Seq<char>,
)
    ensures
        ({
            let b = sync_needed(
                src_kernel_size,
                dst_kernel_size,
                src_initramfs_size,
                dst_initramfs_size,
                current,
                new,
            );
            &&& dst_kernel_size == Some(src_kernel_size) && dst_initramfs_size == Some(
                src_initramfs_size,
            ) ==> (b <==> current != new)
            &&& current != new ==> b
            &&& (dst_kernel_size matches Some(x) && x != src_kernel_size) ==> b
            &&& (dst_initramfs_size matches Some(x) && x != src_initramfs_size) ==> b
            &&& (dst_kernel_size is None && src_kernel_size != 0) ==> b
            &&& (dst_initramfs_size is None && src_initramfs_size != 0) ==> b
        }),
{
}

} // verus!
