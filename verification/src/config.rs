//! Configuration values as the surrounding process hands them in.
//!
//! The process reads toggles from its environment; only the
//! interpretation of such a value is logic of this crate: a toggle is
//! on exactly when its text, compared without regard to ASCII case,
//! is one of `1`, `true`, `y`, `yes`.

use vstd::prelude::*;
use vstd::string::StringSliceAdditionalSpecFns;

verus! {

/// ASCII lowercase folding of one byte (65..=90 are `A..=Z`).
pub open spec fn ascii_lower(b: u8) -> u8 {
    if 65 <= b <= 90 {
        (b + 32) as u8
    } else {
        b
    }
}

/// Whether a toggle's text means "on": case-insensitively `1` (49),
/// `y` (121), `yes` or `true`, written here over byte values.
pub open spec fn truthy(s: Seq<u8>) -> bool {
    ||| s.len() == 1 && (ascii_lower(s[0]) == 49 || ascii_lower(s[0]) == 121)
    ||| s.len() == 3 && ascii_lower(s[0]) == 121 && ascii_lower(s[1]) == 101 && ascii_lower(
        s[2],
    ) == 115
    ||| s.len() == 4 && ascii_lower(s[0]) == 116 && ascii_lower(s[1]) == 114 && ascii_lower(
        s[2],
    ) == 117 && ascii_lower(s[3]) == 101
}

/// Folds one byte to ASCII lowercase.
fn lower_byte(b: u8) -> (l: u8)
    ensures
        l == ascii_lower(b),
{
    if 65 <= b && b <= 90 {
        b + 32
    } else {
        b
    }
}

/// Interprets a toggle value taken from the environment.
pub fn is_truthy(s: &str) -> (on: bool)
    ensures
        on == truthy(s.spec_bytes()),
{
    let b = s.as_bytes();
    let n: usize = b.len();
    if n == 1 {
        let c = lower_byte(b[0]);
        c == 49 || c == 121
    } else if n == 3 {
        lower_byte(b[0]) == 121 && lower_byte(b[1]) == 101 && lower_byte(b[2]) == 115
    } else if n == 4 {
        lower_byte(b[0]) == 116 && lower_byte(b[1]) == 114 && lower_byte(b[2]) == 117
            && lower_byte(b[3]) == 101
    } else {
        false
    }
}

} // verus!
