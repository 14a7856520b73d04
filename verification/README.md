# rpi_bls_sync

Keeps the FAT32 EFI partition of an ostree-based Raspberry Pi (4 or 5) in
step with the default Boot Loader Specification entry: kernel, initramfs,
device-tree files, `config.txt` and `cmdline.txt`.

The decisions are a library verified with Verus:

- `model`: board detection from `/proc/device-tree/model`.
- `bls`: BLS entry parsing and default-entry selection (largest integer
  `version`, first on a tie).
- `cmdline`: firstboot expansion, whitespace-token dedup, clock injection and
  stripping.
- `slot`, `context`, `single_probe`: liveness-first `ostree=` slot
  re-resolution and the guard that never writes a slot whose directory is
  absent (two-probe and single-probe forms).
- `config_txt`: the `followkernel` directive, appended idempotently unless a
  non-comment line already carries it.
- `firmware`: which DTBs and overlays to copy, by size.
- `mounts`: where the boot and EFI partitions are and how to mount them.
- `fatsync`: the order of filesystem operations, `cmdline.txt` last.
- `orchestrate`: the whole pipeline as one function over gathered facts.
- `paths`, `text`: path and character-sequence operations.

Besides exact contracts, `src/` proves the laws the tool relies on, among
them: a re-run after a sync, with any fresh clock, is "already in sync";
stripping the clock undoes injecting it; dedup is idempotent and yields a
single line; appending the directive is idempotent; an adopted live slot is
the `ostree=` token that gets written; stale removals come first and the
`cmdline.txt` commit last in every write plan.

`app/` is the I/O shell: reading `/proc` and directories, mount(2) through
`rustix`, the `std::fs`-backed `BootFs`, and `run`, which feeds what it
gathered to the library and carries out the plan.
