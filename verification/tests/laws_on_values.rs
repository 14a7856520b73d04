//! Concrete instances of the library's laws, edge cases of its parsers, and
//! exact expected values for its text functions.

use rpi_bls_sync::bls::{parse_entry, select_default};
use rpi_bls_sync::cmdline::{dedup_tokens, inject_clock, strip_clock};
use rpi_bls_sync::config_txt;
use rpi_bls_sync::fatsync::{
    continues_after, plan_write_ops, stale_new_files, sync_file_set, sync_write_plan, BootFs, FsOp,
    PendingWrite,
};
use rpi_bls_sync::firmware::{
    firmware_dest, select_firmware_copies, FirmwareDir, FirmwareFile,
};
use rpi_bls_sync::model::KernelName;
use rpi_bls_sync::mounts::{mount_step, BootMount, MountStep};
use rpi_bls_sync::orchestrate::{plan_sync, SyncInputs, SyncPlan};
use rpi_bls_sync::paths::{dirname, slot_deploy_dir, sorted_conf_names};
use rpi_bls_sync::single_probe;
use rpi_bls_sync::single_probe::slot::{resolve as resolve1, DeployProbe as Probe1};
use rpi_bls_sync::slot::{resolve, DeployProbe, Resolution};

const ENTRY: &str = "title Fedora CoreOS\nversion 1\noptions ostree=/ostree/boot.1/rhcos/CSUM/0 root=/dev/mapper/root rw\nlinux /ostree/boot.1/rhcos/CSUM/0/vmlinuz\ninitrd /ostree/boot.1/rhcos/CSUM/0/initramfs.img";

fn inputs_for_law() -> SyncInputs<'static> {
    SyncInputs {
        model_raw: "Raspberry Pi 4 Model B Rev 1.4\0",
        bls_entries_sorted: &[("loader/entries/ostree-1.conf", ENTRY)],
        proc_cmdline: "ostree=/ostree/boot.0/rhcos/CSUM/0 quiet",
        ignition_firstboot_present: false,
        cmdline_d_contents_ordered: &["console=ttyS0\n", "console=tty1\n"],
        deploy_root_prefixes_present: [false, true],
        live_slot_dir_present_prefixes: [false, true],
        bls_slot_dir_present_prefixes: [false, true],
        clock_usec: 1_000,
        current_cmdline_txt: None,
        src_kernel_size: 10,
        dst_kernel_size: None,
        src_initramfs_size: 20,
        dst_initramfs_size: None,
    }
}

// ---- cmdline ----

#[test]
fn inject_clock_exact_value() {
    assert_eq!(
        inject_clock("  a  systemd.clock_usec=5 b  ", 42),
        "a b systemd.clock_usec=42"
    );
}

#[test]
fn inject_clock_on_empty_cmdline_is_only_the_clock() {
    assert_eq!(inject_clock("", 0), "systemd.clock_usec=0");
}

#[test]
fn strip_clock_exact_value() {
    assert_eq!(strip_clock(" x systemd.clock_usec=99   y "), "x y");
}

#[test]
fn clock_refresh_is_invisible_to_strip_clock() {
    let s = "ro systemd.clock_usec=7 console=tty1  quiet";
    assert_eq!(strip_clock(&inject_clock(s, 1)), strip_clock(&inject_clock(s, u64::MAX)));
}

#[test]
fn strip_clock_undoes_inject_clock() {
    for s in ["", "   ", "a  b", " systemd.clock_usec=3x y ", "x\ty  systemd.clock_usec=9"] {
        assert_eq!(strip_clock(&inject_clock(s, 31337)), strip_clock(s));
    }
}

#[test]
fn adopted_slot_is_the_first_ostree_token_written() {
    let probe = DeployProbe { root_accessible: true, live_slot_present: true, bls_slot_present: false };
    let bls = "a=ostree=/ostree/boot.1/r/c/0 ostree=/ostree/boot.1/r/c/0 b";
    let Resolution::Rewrite(out) = resolve(bls, "ostree=/ostree/boot.0/r/c/0", probe) else {
        panic!("expected Rewrite");
    };
    let first = out.split_whitespace().find(|t| t.starts_with("ostree="));
    assert_eq!(first, Some("ostree=/ostree/boot.0/r/c/0"));
}

#[test]
fn inject_clock_twice_is_inject_once() {
    for s in ["", "a  b ", "systemd.clock_usec=1 x"] {
        assert_eq!(inject_clock(&inject_clock(s, 5), 9), inject_clock(s, 9));
        let r = inject_clock(s, 9);
        assert_eq!(r, r.trim());
        assert!(!r.contains("  "));
        assert_eq!(r.matches("systemd.clock_usec=").count(), 1);
    }
}

#[test]
fn strip_clock_is_idempotent_and_keeps_clean_text() {
    let once = strip_clock("  a systemd.clock_usec=1   b ");
    assert_eq!(strip_clock(&once), once);
    assert_eq!(strip_clock("root=/dev/mapper/root console=ttyS0"), "root=/dev/mapper/root console=ttyS0");
}

#[test]
fn clock_token_is_the_last_token() {
    let out = inject_clock("systemd.clock_usec=1 a\tb", 77);
    assert_eq!(out.split_whitespace().last(), Some("systemd.clock_usec=77"));
    assert_eq!(out.matches("systemd.clock_usec=").count(), 1);
}

#[test]
fn dedup_is_idempotent_and_single_line() {
    let once = dedup_tokens("a b\na\tc\n\nb d\n");
    assert_eq!(once, "a b c d");
    assert!(!once.contains('\n'));
    assert_eq!(dedup_tokens(&once), once);
}

// ---- config.txt ----

#[test]
fn followkernel_second_call_changes_nothing() {
    let once = config_txt::ensure_followkernel("arm_64bit=1\n");
    assert!(once.starts_with("arm_64bit=1\n"));
    assert_eq!(config_txt::ensure_followkernel(&once), once);
}

#[test]
fn followkernel_quoted_in_comment_is_not_present() {
    let c = "# appends `initramfs initramfs.img followkernel` here\narm_64bit=1\n";
    let once = config_txt::ensure_followkernel(c);
    assert_eq!(
        once,
        "# appends `initramfs initramfs.img followkernel` here\narm_64bit=1\n\n# Direct kernel boot (rpi-bls-sync):\ninitramfs initramfs.img followkernel\n"
    );
    assert_eq!(config_txt::ensure_followkernel(&once), once);
}

// ---- BLS version parsing ----

#[test]
fn version_with_plus_sign_competes_as_number() {
    let a = parse_entry("version +7\noptions a");
    let b = parse_entry("version 6\noptions b");
    let entries = vec![b, a];
    assert_eq!(select_default(&entries).unwrap().options, "a");
}

#[test]
fn version_bare_minus_is_skipped_and_negative_never_wins() {
    let a = parse_entry("version -\noptions a");
    let b = parse_entry("version -3\noptions b");
    assert!(select_default(&[a.clone(), b.clone()]).is_none());
    let c = parse_entry("version 0\noptions c");
    assert_eq!(select_default(&[a, b, c]).unwrap().options, "c");
}

#[test]
fn version_overflowing_i64_is_skipped() {
    let a = parse_entry("version 9223372036854775808\noptions a");
    let b = parse_entry("options b");
    let entries = vec![a, b];
    assert_eq!(select_default(&entries).unwrap().options, "b");
}

#[test]
fn only_unparsable_versions_select_nothing() {
    let entries = vec![parse_entry("version x1\noptions a")];
    assert!(select_default(&entries).is_none());
}

// ---- slot guard ----

#[test]
fn guard_never_refuses_in_initrd() {
    let probe = DeployProbe { root_accessible: false, live_slot_present: false, bls_slot_present: false };
    let r = resolve(
        "ostree=/ostree/boot.1/r/c/0",
        "ostree=/ostree/boot.0/r/c/0",
        probe,
    );
    assert_eq!(r, Resolution::Rewrite("ostree=/ostree/boot.0/r/c/0".to_string()));
}

#[test]
fn guard_prefers_live_slot_when_both_present() {
    let probe = DeployProbe { root_accessible: true, live_slot_present: true, bls_slot_present: true };
    let r = resolve("x ostree=/ostree/boot.1/r/c/0 y", "ostree=/ostree/boot.0/r/c/0", probe);
    assert_eq!(r, Resolution::Rewrite("x ostree=/ostree/boot.0/r/c/0 y".to_string()));
}

#[test]
fn single_probe_guard_refuses_only_absent_target() {
    assert_eq!(
        resolve1("ostree=/ostree/boot.1/r/c/0", "", Probe1::RootAccessibleDirAbsent),
        Resolution::RefuseExit0
    );
    assert_eq!(resolve1("root=x", "", Probe1::RootAccessibleDirAbsent), Resolution::Keep);
    assert_eq!(
        resolve1("ostree=/ostree/boot.1/r/c/0", "", Probe1::RootInaccessible),
        Resolution::Keep
    );
}

// ---- plan_sync re-run ----

#[test]
fn rerun_after_sync_with_new_clock_is_already_in_sync() {
    let first = inputs_for_law();
    let SyncPlan::Sync { cmdline_txt, kernel_name } = plan_sync(&first) else {
        panic!("expected Sync");
    };
    assert_eq!(kernel_name, "kernel8.img");
    assert!(cmdline_txt.chars().all(|c| c == ' ' || !c.is_whitespace()));
    assert_eq!(
        cmdline_txt,
        "ostree=/ostree/boot.0/rhcos/CSUM/0 root=/dev/mapper/root rw console=ttyS0 console=tty1 systemd.clock_usec=1000"
    );
    let mut rerun = inputs_for_law();
    rerun.clock_usec = 999_999;
    rerun.current_cmdline_txt = Some(&cmdline_txt);
    rerun.dst_kernel_size = Some(rerun.src_kernel_size);
    rerun.dst_initramfs_size = Some(rerun.src_initramfs_size);
    assert_eq!(plan_sync(&rerun), SyncPlan::Skip("already in sync"));
}

#[test]
fn single_probe_rerun_after_sync_is_already_in_sync() {
    let mk = |clock: u64, current: Option<&'static str>, synced: bool| single_probe::orchestrate::SyncInputs {
        model_raw: "Raspberry Pi 5 Model B Rev 1.0",
        bls_entries_sorted: &[("loader/entries/ostree-1.conf", ENTRY)],
        proc_cmdline: "ostree=/ostree/boot.1/rhcos/CSUM/0",
        ignition_firstboot_present: true,
        cmdline_d_contents_ordered: &[],
        deploy_root_prefixes_present: [true, false],
        guard_target_dir_present_prefixes: [true, false],
        clock_usec: clock,
        current_cmdline_txt: current,
        src_kernel_size: 5,
        dst_kernel_size: if synced { Some(5) } else { None },
        src_initramfs_size: 6,
        dst_initramfs_size: if synced { Some(6) } else { None },
    };
    let SyncPlan::Sync { cmdline_txt, .. } = single_probe::orchestrate::plan_sync(&mk(1, None, false)) else {
        panic!("expected Sync");
    };
    let leaked: &'static str = Box::leak(cmdline_txt.into_boxed_str());
    assert_eq!(
        single_probe::orchestrate::plan_sync(&mk(2, Some(leaked), true)),
        SyncPlan::Skip("already in sync")
    );
}

// ---- firmware ----

#[test]
fn firmware_in_sync_copies_nothing() {
    let files = vec![FirmwareFile::new("a.dtb", 3), FirmwareFile::new("overlays/b.dtbo", 4)];
    assert!(select_firmware_copies(&files, &[Some(3), Some(4)]).is_empty());
    let again = select_firmware_copies(&files, &[Some(3), Some(5)]);
    assert_eq!(again.len(), 1);
    assert_eq!(again[0].dest, "overlays/b.dtbo");
}

#[test]
fn firmware_dest_routes_by_directory() {
    assert_eq!(
        firmware_dest(KernelName::Rpi5, FirmwareDir::Broadcom, "bcm2712-rpi-5-b.dtb"),
        Some("bcm2712-rpi-5-b.dtb".to_string())
    );
    assert_eq!(firmware_dest(KernelName::Rpi5, FirmwareDir::Broadcom, "bcm2711-rpi-4-b.dtb"), None);
    assert_eq!(
        firmware_dest(KernelName::Rpi4, FirmwareDir::Overlays, "vc4-kms-v3d.dtbo"),
        Some("overlays/vc4-kms-v3d.dtbo".to_string())
    );
    assert_eq!(firmware_dest(KernelName::Rpi4, FirmwareDir::Overlays, "README"), None);
}

// ---- write plan ----

fn call_text(op: &FsOp) -> String {
    match op {
        FsOp::Remove(p) => format!("remove {p}"),
        FsOp::Write(p, c) => format!("write {p} {}", c.len()),
        FsOp::Rename(a, b) => format!("rename {a} -> {b}"),
        FsOp::Fsync(p) => format!("fsync {p}"),
        FsOp::FsyncDir => "fsync_dir".to_string(),
    }
}

#[test]
fn write_plan_exact_order() {
    let ops = plan_write_ops(
        &["k.new"],
        &[PendingWrite::Large { dest: "k", contents: b"KK" }],
        &[PendingWrite::Small { dest: "config.txt", contents: b"C" }],
        "cmdline.txt",
        b"root=x",
    );
    let got: Vec<String> = ops.iter().map(call_text).collect();
    assert_eq!(
        got,
        vec![
            "remove k.new",
            "write k 2",
            "write config.txt.new 1",
            "fsync config.txt.new",
            "rename config.txt.new -> config.txt",
            "fsync_dir",
            "write cmdline.txt.new 6",
            "fsync cmdline.txt.new",
            "rename cmdline.txt.new -> cmdline.txt",
            "fsync_dir",
        ]
    );
}

#[test]
fn only_removal_failures_are_ignored() {
    assert!(continues_after(&FsOp::Remove("x".to_string()), false));
    assert!(!continues_after(&FsOp::FsyncDir, false));
    assert!(continues_after(&FsOp::FsyncDir, true));
}

#[test]
fn stale_new_files_name_every_temp_file() {
    assert_eq!(
        stale_new_files("kernel_2712.img"),
        vec!["kernel_2712.img.new", "initramfs.img.new", "cmdline.txt.new", "config.txt.new"]
    );
}

struct FailingFs {
    calls: Vec<String>,
    fail_write_of: &'static str,
}

impl BootFs for FailingFs {
    fn file_size(&self, _path: &str) -> Option<u64> {
        None
    }
    fn read_to_string(&self, _path: &str) -> Option<String> {
        None
    }
    fn write(&mut self, path: &str, _contents: &[u8]) -> std::io::Result<()> {
        self.calls.push(format!("write {path}"));
        if path == self.fail_write_of {
            return Err(std::io::Error::other("disk full"));
        }
        Ok(())
    }
    fn rename(&mut self, from: &str, to: &str) -> std::io::Result<()> {
        self.calls.push(format!("rename {from} -> {to}"));
        Ok(())
    }
    fn remove(&mut self, path: &str) -> std::io::Result<()> {
        self.calls.push(format!("remove {path}"));
        Err(std::io::Error::from(std::io::ErrorKind::NotFound))
    }
    fn fsync(&mut self, path: &str) -> std::io::Result<()> {
        self.calls.push(format!("fsync {path}"));
        Ok(())
    }
    fn fsync_dir(&mut self) -> std::io::Result<()> {
        self.calls.push("fsync_dir".to_string());
        Ok(())
    }
}

#[test]
fn failed_large_write_stops_before_cmdline_commit() {
    let mut fs = FailingFs { calls: Vec::new(), fail_write_of: "initramfs.img" };
    let r = sync_write_plan(
        &mut fs,
        &["a.new", "b.new"],
        &[
            PendingWrite::Large { dest: "kernel8.img", contents: b"K" },
            PendingWrite::Large { dest: "initramfs.img", contents: b"I" },
        ],
        &[],
        "cmdline.txt",
        b"x",
    );
    let e = r.unwrap_err();
    assert_eq!(e.kind(), std::io::ErrorKind::Other);
    assert_eq!(e.to_string(), "disk full");
    assert_eq!(
        fs.calls,
        vec!["remove a.new", "remove b.new", "write kernel8.img", "write initramfs.img"]
    );
}

// ---- mounts ----

#[test]
fn mount_step_uses_existing_mount() {
    assert_eq!(
        mount_step(&BootMount::Existing("/boot".to_string()), false, "boot", false),
        MountStep::UseExisting("/boot".to_string())
    );
}

#[test]
fn mount_step_temp_mounts_under_run() {
    assert_eq!(
        mount_step(&BootMount::NeedsTempMount, true, "EFI-SYSTEM", true),
        MountStep::TempMount { dir: "/run/rpi-bls-sync-EFI-SYSTEM".to_string(), writable: true }
    );
}

#[test]
fn missing_efi_partition_fails_loud_missing_boot_skips() {
    assert_eq!(
        mount_step(&BootMount::NeedsTempMount, false, "EFI-SYSTEM", true),
        MountStep::NotFound { exit_code: 1 }
    );
    assert_eq!(
        mount_step(&BootMount::NeedsTempMount, false, "boot", false),
        MountStep::NotFound { exit_code: 0 }
    );
}

// ---- paths ----

#[test]
fn dirname_posix_cases() {
    assert_eq!(dirname("/ostree/boot.1/rhcos/CSUM/0"), "/ostree/boot.1/rhcos/CSUM");
    assert_eq!(dirname("/a"), "/");
    assert_eq!(dirname("a"), ".");
    assert_eq!(dirname(""), ".");
    assert_eq!(dirname("a/b/"), "a/b");
}

#[test]
fn slot_deploy_dir_strips_every_leading_key() {
    assert_eq!(slot_deploy_dir("ostree=/ostree/boot.1/rhcos/CSUM/0"), "/ostree/boot.1/rhcos/CSUM");
    assert_eq!(slot_deploy_dir("ostree=ostree=/x/y"), "/x");
    assert_eq!(slot_deploy_dir("plain"), ".");
}

#[test]
fn conf_names_filtered_and_sorted_bytewise() {
    let names: Vec<String> = ["ostree-2.conf", "b.txt", "ostree-10.conf", "Z.conf", "ostree-1.conf"]
        .iter()
        .map(|s| s.to_string())
        .collect();
    assert_eq!(
        sorted_conf_names(&names, Some("ostree-"), ".conf"),
        vec!["ostree-1.conf", "ostree-10.conf", "ostree-2.conf"]
    );
    assert_eq!(
        sorted_conf_names(&names, None, ".conf"),
        vec!["Z.conf", "ostree-1.conf", "ostree-10.conf", "ostree-2.conf"]
    );
}

#[test]
fn sync_file_set_lists_large_then_small() {
    let fw = vec![("overlays/a.dtbo".to_string(), vec![1u8, 2])];
    let (large, small) = sync_file_set("kernel8.img", b"K", b"I", Some("cfg"), &fw);
    let shape = |w: &PendingWrite| match w {
        PendingWrite::Large { dest, contents } => format!("L {dest} {}", contents.len()),
        PendingWrite::Small { dest, contents } => format!("S {dest} {}", contents.len()),
    };
    assert_eq!(large.iter().map(shape).collect::<Vec<_>>(), vec!["L kernel8.img 1", "L initramfs.img 1"]);
    assert_eq!(small.iter().map(shape).collect::<Vec<_>>(), vec!["S config.txt 3", "S overlays/a.dtbo 2"]);
    let (_, none) = sync_file_set("kernel8.img", b"K", b"I", None, &[]);
    assert!(none.is_empty());
}

#[test]
fn failed_removal_does_not_stop_and_all_ok_is_ok() {
    let mut fs = FailingFs { calls: Vec::new(), fail_write_of: "" };
    let r = sync_write_plan(&mut fs, &["x.new"], &[], &[], "cmdline.txt", b"c");
    assert!(r.is_ok());
    assert_eq!(
        fs.calls,
        vec![
            "remove x.new",
            "fsync_dir",
            "write cmdline.txt.new",
            "fsync cmdline.txt.new",
            "rename cmdline.txt.new -> cmdline.txt",
            "fsync_dir"
        ]
    );
}
