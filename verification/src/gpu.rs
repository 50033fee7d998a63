//! Telling the maker of a graphics adapter from its name.

use vstd::prelude::*;
use vstd::string::StrSliceExecFns;
use vstd::string::StringExecFns;
use crate::text::{chars_of, contains_chars, contains_text, to_uppercase, uppercase};

verus! {

/// The maker of a graphics adapter, told by the words that its name holds in
/// upper case.
pub open spec fn vendor_of(name: Seq<char>) -> Seq<char> {
    let upper = uppercase(name);
    if contains_text(upper, "NVIDIA"@) || contains_text(upper, "GTX"@) || contains_text(upper, "RTX"@) {
        "NVIDIA"@
    } else if contains_text(upper, "AMD"@) || contains_text(upper, "RADEON"@) {
        "AMD"@
    } else if contains_text(upper, "INTEL"@) {
        "Intel"@
    } else {
        "Unknown"@
    }
}

fn holds(upper: &Vec<char>, word: &str) -> (r: bool)
    ensures
        r == contains_text(upper@, word@),
{
    let needle = chars_of(word);
    contains_chars(upper, &needle)
}

/// The maker of the graphics adapter of this name.
pub fn detect_vendor(name: &str) -> (vendor: String)
    ensures
        vendor@ == vendor_of(name@),
{
    let upper_text = to_uppercase(name);
    let upper = chars_of(upper_text.as_str());
    if holds(&upper, "NVIDIA") || holds(&upper, "GTX") || holds(&upper, "RTX") {
        String::from_str("NVIDIA")
    } else if holds(&upper, "AMD") || holds(&upper, "RADEON") {
        String::from_str("AMD")
    } else if holds(&upper, "INTEL") {
        String::from_str("Intel")
    } else {
        String::from_str("Unknown")
    }
}

} // verus!
