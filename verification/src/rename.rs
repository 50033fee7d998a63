//! The names that the files of a batch are renamed to.

use vstd::prelude::*;
use vstd::string::StrSliceExecFns;
use vstd::string::StringExecFns;
use crate::paths::{extension_of, file_extension};

verus! {

/// A request to give a list of files one name and a running number each.
#[derive(Debug, PartialEq, Eq)]
pub struct BatchRenameRequest {
    pub file_paths: Vec<String>,
    pub new_name: String,
}

/// The new paths of the files that were renamed, and the paths of those that
/// were not.
#[derive(Debug, PartialEq, Eq)]
pub struct BatchRenameResult {
    pub success: Vec<String>,
    pub failed: Vec<String>,
}

/// The ten digits.
pub open spec fn digits() -> Seq<char> {
    "0123456789"@
}

/// A number in decimal digits.
pub open spec fn decimal(n: nat) -> Seq<char>
    decreases n,
{
    if n < 10 {
        digits().subrange(n as int, n as int + 1)
    } else {
        decimal(n / 10) + digits().subrange((n % 10) as int, (n % 10) as int + 1)
    }
}

/// The name that the file at place `position` of a batch gets: the new name
/// and the number, and behind a dot the extension of the old name, if it
/// has one that is not empty.
pub open spec fn renamed(new_name: Seq<char>, position: nat, old_name: Seq<char>) -> Seq<char> {
    match extension_of(old_name) {
        Some(ext) => if ext.len() == 0 {
            new_name + decimal(position)
        } else {
            new_name + decimal(position) + "."@ + ext
        },
        None => new_name + decimal(position),
    }
}

fn digit_text(d: usize) -> (text: &'static str)
    requires
        d < 10,
    ensures
        text@ == digits().subrange(d as int, d + 1),
{
    proof {
        reveal_strlit("0123456789");
    }
    "0123456789".substring_char(d, d + 1)
}

/// A number in decimal digits.
pub fn decimal_string(n: usize) -> (text: String)
    ensures
        text@ == decimal(n as nat),
    decreases n,
{
    if n < 10 {
        String::from_str(digit_text(n))
    } else {
        decimal_string(n / 10).concat(digit_text(n % 10))
    }
}

/// The name that the file at place `position` of a batch gets, counted from 1.
pub fn renamed_file_name(new_name: &str, position: usize, old_name: &str) -> (name: String)
    ensures
        name@ == renamed(new_name@, position as nat, old_name@),
{
    let numbered = String::from_str(new_name).concat(decimal_string(position).as_str());
    match file_extension(old_name) {
        None => numbered,
        Some(ext) => {
            if ext.as_str().unicode_len() == 0 {
                numbered
            } else {
                numbered.concat(".").concat(ext.as_str())
            }
        },
    }
}

} // verus!
