//! Boot and EFI partition location: prefer a mount that is already there,
//! otherwise locate the partition by PARTLABEL and temp-mount it.

use crate::text::{
    chars_of, line_spans, lines, push_all, range_equals, spans_within, span_view, string_of,
    sub_chars, token_spans, tokens,
};
use vstd::prelude::*;
use vstd::string::*;

verus! {

#[derive(Debug, Clone, PartialEq, Eq)]
pub enum BootMount {
    /// Already mounted at the given path.
    Existing(String),
    /// Not mounted: must be located by PARTLABEL and temp-mounted.
    NeedsTempMount,
}

/// The mathematical value of a [`BootMount`].
pub enum BootMountModel {
    Existing(Seq<char>),
    NeedsTempMount,
}

impl View for BootMount {
    type V = BootMountModel;

    open spec fn view(&self) -> BootMountModel {
        match self {
            BootMount::Existing(p) => BootMountModel::Existing(p@),
            BootMount::NeedsTempMount => BootMountModel::NeedsTempMount,
        }
    }
}

/// The first of two candidate mountpoints that is usable, else a temp mount.
pub open spec fn first_usable(a: bool, pa: Seq<char>, b: bool, pb: Seq<char>) -> BootMountModel {
    if a {
        BootMountModel::Existing(pa)
    } else if b {
        BootMountModel::Existing(pb)
    } else {
        BootMountModel::NeedsTempMount
    }
}

/// Locate the boot partition: `/boot`, then `/sysroot/boot`, else a temp mount.
pub fn locate_boot(mounted_at_boot: bool, mounted_at_sysroot_boot: bool) -> (r: BootMount)
    ensures
        r@ == first_usable(mounted_at_boot, "/boot"@, mounted_at_sysroot_boot, "/sysroot/boot"@),
{
    if mounted_at_boot {
        BootMount::Existing("/boot".to_owned())
    } else if mounted_at_sysroot_boot {
        BootMount::Existing("/sysroot/boot".to_owned())
    } else {
        BootMount::NeedsTempMount
    }
}

/// Locate the EFI partition. The inputs say whether `/boot/efi` and
/// `/sysroot/boot/efi` are mounts backed by the real EFI-SYSTEM partition;
/// an existing mount is trusted only then.
pub fn locate_efi(boot_efi_is_real_fat: bool, sysroot_boot_efi_is_real_fat: bool) -> (r: BootMount)
    ensures
        r@ == first_usable(
            boot_efi_is_real_fat,
            "/boot/efi"@,
            sysroot_boot_efi_is_real_fat,
            "/sysroot/boot/efi"@,
        ),
{
    if boot_efi_is_real_fat {
        BootMount::Existing("/boot/efi".to_owned())
    } else if sysroot_boot_efi_is_real_fat {
        BootMount::Existing("/sysroot/boot/efi".to_owned())
    } else {
        BootMount::NeedsTempMount
    }
}

/// The device of the first line of `ls` whose second column is `target`.
pub open spec fn device_in(ls: Seq<Seq<char>>, target: Seq<char>) -> Option<Seq<char>>
    decreases ls.len(),
{
    if ls.len() == 0 {
        None
    } else {
        let cols = tokens(ls[0]);
        if cols.len() >= 2 && cols[1] == target {
            Some(cols[0])
        } else {
            device_in(ls.drop_first(), target)
        }
    }
}

/// The backing device of the mountpoint `target` in `/proc/mounts` text.
pub open spec fn mount_device(proc_mounts: Seq<char>, target: Seq<char>) -> Option<Seq<char>> {
    device_in(lines(proc_mounts), target)
}

/// The backing device (first column) of the `target` mountpoint in
/// `/proc/mounts` text, or `None` if `target` is not a mountpoint.
pub fn parse_mount_device<'a>(proc_mounts: &'a str, target: &str) -> (r: Option<&'a str>)
    ensures
        match r {
            Some(d) => mount_device(proc_mounts@, target@) == Some(d@),
            None => mount_device(proc_mounts@, target@) is None,
        },
{
    let s = chars_of(proc_mounts);
    let t = chars_of(target);
    let spans = line_spans(&s);
    let ghost ls = lines(s@);
    let mut k: usize = 0;
    assert(ls.skip(0) =~= ls);
    while k < spans.len()
        invariant
            k <= spans@.len(),
            s@ == proc_mounts@,
            t@ == target@,
            spans_within(s@, spans@),
            span_view(s@, spans@) == ls,
            ls == lines(s@),
            device_in(ls, t@) == device_in(ls.skip(k as int), t@),
        decreases spans.len() - k,
    {
        let (a, b) = spans[k];
        let line = sub_chars(&s, a, b);
        assert(ls[k as int] == line@);
        assert(ls.skip(k as int).drop_first() =~= ls.skip(k + 1));
        let cols = token_spans(&line);
        if cols.len() >= 2 {
            let (x1, y1) = cols[1];
            assert(tokens(line@)[1] == line@.subrange(x1 as int, y1 as int));
            if range_equals(&line, x1, y1, &t) {
                let (x0, y0) = cols[0];
                assert(tokens(line@)[0] == line@.subrange(x0 as int, y0 as int));
                assert(line@.subrange(x0 as int, y0 as int) =~= s@.subrange(
                    a + x0,
                    a + y0,
                ));
                let d = proc_mounts.substring_char(a + x0, a + y0);
                return Some(d);
            }
        }
        k = k + 1;
    }
    None
}

/// How to have a partition mounted.
#[derive(Debug, Clone, PartialEq, Eq)]
pub enum MountStep {
    /// Use the mount that is already there.
    UseExisting(String),
    /// Mount the partition's device at `dir`, writable or read-only.
    TempMount { dir: String, writable: bool },
    /// No device carries any of the partition's labels: stop with
    /// `exit_code`.
    NotFound { exit_code: i32 },
}

/// The mathematical value of a [`MountStep`].
pub enum MountStepModel {
    UseExisting(Seq<char>),
    TempMount { dir: Seq<char>, writable: bool },
    NotFound { exit_code: int },
}

impl View for MountStep {
    type V = MountStepModel;

    open spec fn view(&self) -> MountStepModel {
        match self {
            MountStep::UseExisting(p) => MountStepModel::UseExisting(p@),
            MountStep::TempMount { dir, writable } => MountStepModel::TempMount {
                dir: dir@,
                writable: *writable,
            },
            MountStep::NotFound { exit_code } => MountStepModel::NotFound {
                exit_code: *exit_code as int,
            },
        }
    }
}

/// The temporary mountpoint for a partition, under `/run`, which stays
/// writable until late in shutdown.
pub open spec fn temp_mount_dir(label: Seq<char>) -> Seq<char> {
    "/run/rpi-bls-sync-"@ + label
}

/// The step for a located partition. A partition that must be temp-mounted
/// but has no device is a skip (exit 0) for the read-only boot partition and
/// a loud failure (exit 1) for the writable EFI partition: a missing EFI
/// partition must never look like a successful sync.
pub open spec fn mount_step_of(
    existing: BootMountModel,
    device_found: bool,
    first_label: Seq<char>,
    writable: bool,
) -> MountStepModel {
    match existing {
        BootMountModel::Existing(p) => MountStepModel::UseExisting(p),
        BootMountModel::NeedsTempMount => if device_found {
            MountStepModel::TempMount { dir: temp_mount_dir(first_label), writable }
        } else {
            MountStepModel::NotFound {
                exit_code: if writable {
                    1
                } else {
                    0
                },
            }
        },
    }
}

/// Decide how to have a partition mounted: the existing mount, a temp mount
/// at `/run/rpi-bls-sync-<first_label>` when a device was found by one of its
/// labels, or the exit code when none was.
pub fn mount_step(existing: &BootMount, device_found: bool, first_label: &str, writable: bool) -> (r:
    MountStep)
    ensures
        r@ == mount_step_of(existing@, device_found, first_label@, writable),
{
    match existing {
        BootMount::Existing(p) => MountStep::UseExisting(p.clone()),
        BootMount::NeedsTempMount => {
            if device_found {
                let mut d = chars_of("/run/rpi-bls-sync-");
                push_all(&mut d, &chars_of(first_label));
                MountStep::TempMount { dir: string_of(&d), writable }
            } else if writable {
                MountStep::NotFound { exit_code: 1 }
            } else {
                MountStep::NotFound { exit_code: 0 }
            }
        },
    }
}

/// How a partition gets mounted: an existing mount is used as it is;
/// otherwise a device found by label is mounted under
/// `/run/rpi-bls-sync-<label>`, writable exactly when a writable mount was
/// asked for; with no device the exit code is 1 when a writable (EFI)
/// partition was asked for and 0 for a read-only one.
pub proof fn lemma_mount_step(
    existing: BootMountModel,
    device_found: bool,
    first_label: Seq<char>,
    writable: bool,
)
    ensures
        existing matches BootMountModel::Existing(p) ==> mount_step_of(
            existing,
            device_found,
            first_label,
            writable,
        ) == MountStepModel::UseExisting(p),
        existing is NeedsTempMount && device_found ==> (mount_step_of(
            existing,
            device_found,
            first_label,
            writable,
        ) matches MountStepModel::TempMount { dir, writable: w } && w == writable && dir
            == "/run/rpi-bls-sync-"@ + first_label),
        existing is NeedsTempMount && !device_found ==> (mount_step_of(
            existing,
            device_found,
            first_label,
            writable,
        ) matches MountStepModel::NotFound { exit_code } && (exit_code == 1 <==> writable) && (
        exit_code == 0 <==> !writable)),
{
}

} // verus!
