//! Runtime sync of DTBs, overlays and (rpi4) GPU firmware to the EFI
//! partition, keeping them coupled to the kernel being synced.

use crate::model::KernelName;
use crate::text::{chars_of, find_char, lemma_find_char_at, matches_at, starts_with};
use vstd::prelude::*;
use vstd::string::*;

verus! {

/// The model-specific DTB file-name glob.
pub open spec fn glob_pattern(m: KernelName) -> Seq<char> {
    match m {
        KernelName::Rpi5 => "bcm2712*.dtb"@,
        KernelName::Rpi4 => "bcm2711*.dtb"@,
    }
}

/// What stands before the `*` of a glob.
pub open spec fn glob_prefix(p: Seq<char>) -> Seq<char> {
    match find_char(p, '*') {
        Some(k) => p.take(k),
        None => p,
    }
}

/// What stands after the `*` of a glob.
pub open spec fn glob_suffix(p: Seq<char>) -> Seq<char> {
    match find_char(p, '*') {
        Some(k) => p.skip(k + 1),
        None => Seq::empty(),
    }
}

/// `s` ends with `p`.
pub open spec fn ends_with(s: Seq<char>, p: Seq<char>) -> bool {
    p.len() <= s.len() && s.skip(s.len() - p.len()) == p
}

/// `f` matches the model's DTB glob: the fixed prefix and suffix both fit in
/// its byte length, it starts with the prefix and ends with the suffix.
pub open spec fn dtb_name_matches(m: KernelName, f: &str) -> bool {
    let pre = glob_prefix(glob_pattern(m));
    let suf = glob_suffix(glob_pattern(m));
    &&& f.spec_bytes().len() >= pre.len() + suf.len()
    &&& starts_with(f@, pre)
    &&& ends_with(f@, suf)
}

/// The rpi4 GPU firmware files; rpi5 has none.
pub open spec fn gpu_files(m: KernelName) -> Seq<Seq<char>> {
    match m {
        KernelName::Rpi4 => seq!["start4.elf"@, "fixup4.dat"@, "start4cd.elf"@, "fixup4cd.dat"@],
        KernelName::Rpi5 => Seq::empty(),
    }
}

/// The model-specific DTB glob: rpi5 `bcm2712*.dtb`, rpi4 `bcm2711*.dtb`.
pub fn dtb_glob_pattern(model: KernelName) -> (r: &'static str)
    ensures
        r@ == glob_pattern(model),
{
    match model {
        KernelName::Rpi5 => "bcm2712*.dtb",
        KernelName::Rpi4 => "bcm2711*.dtb",
    }
}

/// GPU firmware file names to sync: rpi4 only.
pub fn gpu_firmware_files(model: KernelName) -> (r: &'static [&'static str])
    ensures
        r@.map_values(|s: &str| s@) == gpu_files(model),
{
    match model {
        KernelName::Rpi4 => {
            let r: &'static [&'static str] = &["start4.elf", "fixup4.dat", "start4cd.elf", "fixup4cd.dat"];
            assert(r@.map_values(|s: &str| s@) =~= gpu_files(model));
            r
        },
        KernelName::Rpi5 => {
            let r: &'static [&'static str] = &[];
            assert(r@.map_values(|s: &str| s@) =~= gpu_files(model));
            r
        },
    }
}

/// Does `filename` match this model's DTB glob?
pub fn dtb_matches(model: KernelName, filename: &str) -> (b: bool)
    ensures
        b == dtb_name_matches(model, filename),
{
    let pat = chars_of(dtb_glob_pattern(model));
    let n = pat.len();
    let mut k: usize = 0;
    while k < n && pat[k] != '*'
        invariant
            k <= n == pat@.len(),
            forall|j: int| 0 <= j < k ==> pat@[j] != '*',
        decreases n - k,
    {
        k = k + 1;
    }
    proof {
        reveal_strlit("bcm2712*.dtb");
        reveal_strlit("bcm2711*.dtb");
        assert(pat@[7] == '*');
        lemma_find_char_at(pat@, '*', k as int);
    }
    if k >= n {
        return false;
    }
    let f = chars_of(filename);
    let pre_len = k;
    let suf_len = n - k - 1;
    let mut pre: Vec<char> = Vec::new();
    let mut suf: Vec<char> = Vec::new();
    let mut i: usize = 0;
    while i < n
        invariant
            k < n == pat@.len(),
            i <= n,
            pre@ == pat@.take(if i < k { i as int } else { k as int }),
            suf@ == pat@.subrange(k + 1, if i > k + 1 { i as int } else { k + 1 }),
        decreases n - i,
    {
        if i < k {
            pre.push(pat[i]);
        } else if i > k {
            suf.push(pat[i]);
        }
        i = i + 1;
        assert(pre@ =~= pat@.take(if i < k { i as int } else { k as int }));
        assert(suf@ =~= pat@.subrange(k + 1, if i > k + 1 { i as int } else { k + 1 }));
    }
    assert(suf@ =~= pat@.skip(k + 1));
    assert(pre@ =~= pat@.take(k as int));
    assert(glob_prefix(glob_pattern(model)) == pre@);
    assert(glob_suffix(glob_pattern(model)) == suf@);
    assert(pre@.len() == pre_len && suf@.len() == suf_len);
    let byte_len = filename.as_bytes().len();
    if byte_len < pre_len + suf_len {
        return false;
    }
    let starts = matches_at(&f, 0, &pre);
    proof {
        assert(f@.take(pre@.len() as int) =~= f@.subrange(0, pre@.len() as int));
    }
    if !starts || f.len() < suf_len {
        return false;
    }
    let ends = matches_at(&f, f.len() - suf_len, &suf);
    proof {
        assert(f@.skip(f@.len() - suf@.len()) =~= f@.subrange(f@.len() - suf@.len(), f@.len() as int));
    }
    ends
}


/// A firmware file found in the deploy source, with its source byte size;
/// `dest` is relative to the EFI mountpoint.
#[derive(Debug, Clone, PartialEq, Eq)]
pub struct FirmwareFile {
    pub dest: String,
    pub src_size: u64,
}

impl FirmwareFile {
    pub fn new(dest: &str, src_size: u64) -> (f: Self)
        ensures
            f.dest@ == dest@,
            f.src_size == src_size,
    {
        FirmwareFile { dest: dest.to_owned(), src_size }
    }
}

/// A file must be (re)written when its destination is missing or differs
/// in size from the source.
pub open spec fn needs_copy(f: FirmwareFile, dst_size: Option<u64>) -> bool {
    dst_size != Some(f.src_size)
}

/// The files that need copying, in their original order.
pub open spec fn copies(files: Seq<FirmwareFile>, dst_sizes: Seq<Option<u64>>) -> Seq<FirmwareFile>
    decreases files.len(),
{
    if files.len() == 0 {
        Seq::empty()
    } else {
        let r = copies(files.drop_last(), dst_sizes.take(files.len() - 1));
        if needs_copy(files.last(), dst_sizes[files.len() - 1]) {
            r.push(files.last())
        } else {
            r
        }
    }
}

/// The files whose destination size (`dst_sizes[i]` for `files[i]`) is
/// missing or differs from the source size.
pub fn select_firmware_copies<'a>(files: &'a [FirmwareFile], dst_sizes: &[Option<u64>]) -> (r: Vec<
    &'a FirmwareFile,
>)
    requires
        dst_sizes@.len() == files@.len(),
    ensures
        r@.map_values(|f: &FirmwareFile| *f) == copies(files@, dst_sizes@),
{
    let mut r: Vec<&'a FirmwareFile> = Vec::new();
    let mut k: usize = 0;
    assert(files@.take(0) =~= Seq::<FirmwareFile>::empty());
    while k < files.len()
        invariant
            k <= files@.len() == dst_sizes@.len(),
            r@.map_values(|f: &FirmwareFile| *f) == copies(
                files@.take(k as int),
                dst_sizes@.take(k as int),
            ),
        decreases files.len() - k,
    {
        let f = &files[k];
        assert(files@.take(k + 1).drop_last() =~= files@.take(k as int));
        assert(dst_sizes@.take(k + 1).take(k as int) =~= dst_sizes@.take(k as int));
        let ghost before = r@.map_values(|f: &FirmwareFile| *f);
        if dst_sizes[k] != Some(f.src_size) {
            r.push(f);
            assert(r@.map_values(|f: &FirmwareFile| *f) =~= before.push(files@[k as int]));
        }
        k = k + 1;
    }
    assert(files@.take(files@.len() as int) =~= files@);
    assert(dst_sizes@.take(files@.len() as int) =~= dst_sizes@);
    r
}

/// `f` reported size `v` when asked about a path with the characters `dest`.
pub open spec fn reports<F: Fn(&str) -> Option<u64>>(f: F, dest: Seq<char>, v: Option<u64>) -> bool {
    exists|a: &str| a@ == dest && #[trigger] f.ensures((a,), v)
}

/// Every size `f` can report for a file's destination is the file's source
/// size: the EFI partition already holds every file.
pub open spec fn reports_all_in_sync<F: Fn(&str) -> Option<u64>>(files: Seq<FirmwareFile>, f: F) -> bool {
    forall|i: int, a: &str, v: Option<u64>|
        #![trigger files[i], f.ensures((a,), v)]
        0 <= i < files.len() && a@ == files[i].dest@ && f.ensures((a,), v) ==> v == Some(
            files[i].src_size,
        )
}

/// Decide which firmware files must be (re)written to the EFI partition:
/// those whose destination is missing or differs in size from the source.
/// `dst_size` reports a destination's current size; the result rests on one
/// size it can report for each file's destination.
pub fn plan_firmware_copies<'a, F: Fn(&str) -> Option<u64>>(
    files: &'a [FirmwareFile],
    dst_size: F,
) -> (r: Vec<&'a FirmwareFile>)
    requires
        forall|s: &str| dst_size.requires((s,)),
    ensures
        exists|sizes: Seq<Option<u64>>|
            {
                &&& sizes.len() == files@.len()
                &&& forall|i: int|
                    0 <= i < files@.len() ==> #[trigger] reports(dst_size, files@[i].dest@, sizes[i])
                &&& r@.map_values(|f: &FirmwareFile| *f) == copies(files@, sizes)
            },
        reports_all_in_sync(files@, dst_size) ==> r@.len() == 0,
{
    let mut sizes: Vec<Option<u64>> = Vec::new();
    let mut k: usize = 0;
    while k < files.len()
        invariant
            k <= files@.len(),
            sizes@.len() == k,
            forall|s: &str| dst_size.requires((s,)),
            forall|i: int| 0 <= i < k ==> #[trigger] reports(dst_size, files@[i].dest@, sizes@[i]),
        decreases files.len() - k,
    {
        let a = files[k].dest.as_str();
        let v = dst_size(a);
        sizes.push(v);
        assert(dst_size.ensures((a,), sizes@[k as int]));
        assert(reports(dst_size, files@[k as int].dest@, sizes@[k as int]));
        k = k + 1;
    }
    let r = select_firmware_copies(files, &sizes);
    proof {
        if reports_all_in_sync(files@, dst_size) {
            assert forall|i: int| 0 <= i < files@.len() implies #[trigger] sizes@[i] == Some(
                files@[i].src_size,
            ) by {
                assert(reports(dst_size, files@[i].dest@, sizes@[i]));
                let a = choose|a: &str| a@ == files@[i].dest@ && #[trigger] dst_size.ensures(
                    (a,),
                    sizes@[i],
                );
            }
            lemma_copies(files@, sizes@);
            assert(r@.map_values(|f: &FirmwareFile| *f).len() == r@.len());
        }
    }
    r
}

/// Where a source firmware directory's entries go.
#[derive(Debug, Clone, Copy, PartialEq, Eq, Structural)]
pub enum FirmwareDir {
    /// `dtb/broadcom/`: the model's DTBs, copied to the EFI root.
    Broadcom,
    /// `dtb/overlays/`: every `.dtbo`, copied under EFI `overlays/`.
    Overlays,
}

/// The EFI destination of the entry `name` of a source directory, if it is
/// one to sync.
pub open spec fn firmware_dest_of(model: KernelName, dir: FirmwareDir, name: &str) -> Option<Seq<char>> {
    match dir {
        FirmwareDir::Broadcom => if dtb_name_matches(model, name) {
            Some(name@)
        } else {
            None
        },
        FirmwareDir::Overlays => if ends_with(name@, ".dtbo"@) {
            Some("overlays/"@ + name@)
        } else {
            None
        },
    }
}

/// The EFI destination of a firmware source entry: model DTBs from
/// `broadcom/` land at the EFI root, `.dtbo` overlays under `overlays/`;
/// `None` for an entry that is not synced.
pub fn firmware_dest(model: KernelName, dir: FirmwareDir, name: &str) -> (r: Option<String>)
    ensures
        match r {
            Some(d) => firmware_dest_of(model, dir, name) == Some(d@),
            None => firmware_dest_of(model, dir, name) is None,
        },
{
    match dir {
        FirmwareDir::Broadcom => {
            if dtb_matches(model, name) {
                Some(name.to_owned())
            } else {
                None
            }
        },
        FirmwareDir::Overlays => {
            let n = chars_of(name);
            let ext = chars_of(".dtbo");
            if n.len() < ext.len() {
                return None;
            }
            let at = n.len() - ext.len();
            let hit = matches_at(&n, at, &ext);
            assert(n@.skip(at as int) =~= n@.subrange(at as int, n@.len() as int));
            if hit {
                let mut d = chars_of("overlays/");
                crate::text::push_all(&mut d, &n);
                Some(crate::text::string_of(&d))
            } else {
                None
            }
        },
    }
}

/// Firmware copying is idempotent by size: nothing is copied exactly when
/// every destination already has its source's size, and every file whose
/// destination is missing or differs is copied.
pub proof fn lemma_copies(files: Seq<FirmwareFile>, dst_sizes: Seq<Option<u64>>)
    requires
        dst_sizes.len() == files.len(),
    ensures
        copies(files, dst_sizes).len() == 0 <==> forall|i: int|
            0 <= i < files.len() ==> #[trigger] dst_sizes[i] == Some(files[i].src_size),
        forall|i: int|
            0 <= i < files.len() && #[trigger] needs_copy(files[i], dst_sizes[i]) ==> copies(
                files,
                dst_sizes,
            ).contains(files[i]),
        forall|k: int|
            0 <= k < copies(files, dst_sizes).len() ==> exists|i: int|
                0 <= i < files.len() && files[i] == #[trigger] copies(files, dst_sizes)[k]
                    && needs_copy(files[i], dst_sizes[i]),
    decreases files.len(),
{
    if files.len() > 0 {
        let n = files.len() - 1;
        let fs = files.drop_last();
        let ds = dst_sizes.take(n);
        lemma_copies(fs, ds);
        let r = copies(fs, ds);
        let c = copies(files, dst_sizes);
        assert forall|i: int| 0 <= i < n implies #[trigger] fs[i] == files[i] && ds[i]
            == dst_sizes[i] by {}
        assert(files.last() == files[n]);
        if needs_copy(files[n], dst_sizes[n]) {
            assert(c == r.push(files[n]));
            assert(c[c.len() - 1] == files[n]);
            assert forall|i: int|
                0 <= i < files.len() && #[trigger] needs_copy(files[i], dst_sizes[i]) implies c.contains(
                files[i],
            ) by {
                if i < n {
                    assert(fs[i] == files[i] && ds[i] == dst_sizes[i]);
                    assert(r.contains(fs[i]));
                    let j = choose|j: int| 0 <= j < r.len() && r[j] == fs[i];
                    assert(c[j] == r[j]);
                } else {
                    assert(c[c.len() - 1] == files[i]);
                }
            }
            assert forall|k: int| 0 <= k < c.len() implies exists|i: int|
                0 <= i < files.len() && files[i] == #[trigger] c[k] && needs_copy(
                    files[i],
                    dst_sizes[i],
                ) by {
                if k < r.len() {
                    assert(c[k] == r[k]);
                    let i = choose|i: int|
                        0 <= i < fs.len() && fs[i] == #[trigger] r[k] && needs_copy(fs[i], ds[i]);
                    assert(files[i] == fs[i] && dst_sizes[i] == ds[i]);
                } else {
                    assert(files[n] == c[k]);
                }
            }
        } else {
            assert(c == r);
            assert forall|i: int|
                0 <= i < files.len() && #[trigger] needs_copy(files[i], dst_sizes[i]) implies c.contains(
                files[i],
            ) by {
                assert(i < n);
                assert(fs[i] == files[i] && ds[i] == dst_sizes[i]);
                assert(r.contains(fs[i]));
            }
            assert forall|k: int| 0 <= k < c.len() implies exists|i: int|
                0 <= i < files.len() && files[i] == #[trigger] c[k] && needs_copy(
                    files[i],
                    dst_sizes[i],
                ) by {
                let i = choose|i: int|
                    0 <= i < fs.len() && fs[i] == #[trigger] r[k] && needs_copy(fs[i], ds[i]);
                assert(files[i] == fs[i] && dst_sizes[i] == ds[i]);
            }
            if r.len() == 0 {
                assert forall|i: int| 0 <= i < files.len() implies #[trigger] dst_sizes[i] == Some(
                    files[i].src_size,
                ) by {
                    if i < n {
                        assert(fs[i] == files[i] && ds[i] == dst_sizes[i]);
                    }
                }
            }
        }
        if forall|i: int| 0 <= i < files.len() ==> #[trigger] dst_sizes[i] == Some(files[i].src_size) {
            assert forall|i: int| 0 <= i < fs.len() implies #[trigger] ds[i] == Some(fs[i].src_size) by {
                assert(fs[i] == files[i] && ds[i] == dst_sizes[i]);
                assert(dst_sizes[i] == Some(files[i].src_size));
            }
            assert(dst_sizes[n] == Some(files[n].src_size));
        }
    }
}

/// Where firmware files go: a DTB from `broadcom/` goes to the EFI root
/// under its own name exactly when it is one of the model's (for a Pi 4 a
/// name starting with `bcm2711`, for a Pi 5 with `bcm2712`, ending with
/// `.dtb`, at least the 11 bytes of those fixed parts long); an entry of
/// `overlays/` goes under `overlays/` exactly when it ends with `.dtbo`.
pub proof fn lemma_firmware_dest(model: KernelName, name: &str)
    ensures
        firmware_dest_of(model, FirmwareDir::Broadcom, name) == (if starts_with(
            name@,
            match model {
                KernelName::Rpi4 => "bcm2711"@,
                KernelName::Rpi5 => "bcm2712"@,
            },
        ) && name@.len() >= 4 && name@.skip(name@.len() - 4) == ".dtb"@
            && name.spec_bytes().len() >= 11 {
            Some(name@)
        } else {
            None
        }),
        firmware_dest_of(model, FirmwareDir::Overlays, name) == (if name@.len() >= 5 && name@.skip(
            name@.len() - 5,
        ) == ".dtbo"@ {
            Some("overlays/"@ + name@)
        } else {
            None
        }),
{
    reveal_strlit("bcm2711*.dtb");
    reveal_strlit("bcm2712*.dtb");
    reveal_strlit("bcm2711");
    reveal_strlit("bcm2712");
    reveal_strlit(".dtb");
    reveal_strlit(".dtbo");
    let p = glob_pattern(model);
    assert(p[7] == '*');
    lemma_find_char_at(p, '*', 7);
    assert(glob_prefix(p) =~= match model {
        KernelName::Rpi4 => "bcm2711"@,
        KernelName::Rpi5 => "bcm2712"@,
    });
    assert(glob_suffix(p) =~= ".dtb"@);
}

} // verus!
