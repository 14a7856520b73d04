//! Raspberry Pi model detection and the kernel file name it implies on the
//! EFI partition.

use crate::text::{chars_of, contains, contains_chars, remove_char, remove_char_chars, string_of};
use vstd::prelude::*;

verus! {

#[derive(Debug, Clone, Copy, PartialEq, Eq, Structural)]
pub enum KernelName {
    Rpi5,
    Rpi4,
}

/// The kernel file name on the EFI partition for each board.
pub open spec fn efi_name(k: KernelName) -> Seq<char> {
    match k {
        KernelName::Rpi5 => "kernel_2712.img"@,
        KernelName::Rpi4 => "kernel8.img"@,
    }
}

impl KernelName {
    pub fn efi_filename(self) -> (r: &'static str)
        ensures
            r@ == efi_name(self),
    {
        match self {
            KernelName::Rpi5 => "kernel_2712.img",
            KernelName::Rpi4 => "kernel8.img",
        }
    }
}

#[derive(Debug, PartialEq, Eq)]
pub struct UnsupportedModel(pub String);

/// The model string with its NUL characters removed.
pub open spec fn model_text(raw: Seq<char>) -> Seq<char> {
    remove_char(raw, '\0')
}

/// The board a model string names; "Raspberry Pi 5" is checked first.
pub open spec fn model_kind(raw: Seq<char>) -> Option<KernelName> {
    let m = model_text(raw);
    if contains(m, "Raspberry Pi 5"@) {
        Some(KernelName::Rpi5)
    } else if contains(m, "Raspberry Pi 4"@) {
        Some(KernelName::Rpi4)
    } else {
        None
    }
}

/// Detect the board from `/proc/device-tree/model` contents.
pub fn parse_model(raw: &str) -> (r: Result<KernelName, UnsupportedModel>)
    ensures
        match r {
            Ok(k) => model_kind(raw@) == Some(k),
            Err(e) => model_kind(raw@) is None && e.0@ == model_text(raw@),
        },
{
    let model = remove_char_chars(&chars_of(raw), '\0');
    if contains_chars(&model, &chars_of("Raspberry Pi 5")) {
        Ok(KernelName::Rpi5)
    } else if contains_chars(&model, &chars_of("Raspberry Pi 4")) {
        Ok(KernelName::Rpi4)
    } else {
        Err(UnsupportedModel(string_of(&model)))
    }
}

} // verus!
