use vstd::prelude::*;

verus! {

/// The Unicode `White_Space` characters, the set that `str::trim` removes.
pub open spec fn is_ws_char(c: char) -> bool {
    let u = c as u32;
    u == 32 || u == 9 || u == 10 || u == 11 || u == 12 || u == 13 || u == 0x85 || u == 0xA0
        || u == 0x1680 || (0x2000 <= u && u <= 0x200A) || u == 0x2028 || u == 0x2029 || u == 0x202F
        || u == 0x205F || u == 0x3000
}

/// Runtime check for [`is_ws_char`].
pub fn is_ws(c: char) -> (b: bool)
    ensures
        b == is_ws_char(c),
{
    let u = c as u32;
    u == 32 || u == 9 || u == 10 || u == 11 || u == 12 || u == 13 || u == 0x85 || u == 0xA0
        || u == 0x1680 || (0x2000 <= u && u <= 0x200A) || u == 0x2028 || u == 0x2029 || u == 0x202F
        || u == 0x205F || u == 0x3000
}

/// Code point of `c` with an ASCII capital letter shifted to lower case.
pub open spec fn spec_lower(c: char) -> u32 {
    let u = c as u32;
    if 65 <= u && u <= 90 {
        (u + 32) as u32
    } else {
        u
    }
}

/// Runtime value of [`spec_lower`].
pub fn lower_code(c: char) -> (u: u32)
    ensures
        u == spec_lower(c),
{
    let u = c as u32;
    if 65 <= u && u <= 90 {
        u + 32
    } else {
        u
    }
}

/// Case-insensitive character equality (ASCII case folding only).
pub open spec fn ci_eq(a: char, b: char) -> bool {
    spec_lower(a) == spec_lower(b)
}

pub open spec fn is_ascii_alpha(c: char) -> bool {
    let u = c as u32;
    (65 <= u && u <= 90) || (97 <= u && u <= 122)
}

pub fn ascii_alpha(c: char) -> (b: bool)
    ensures
        b == is_ascii_alpha(c),
{
    let u = c as u32;
    (65 <= u && u <= 90) || (97 <= u && u <= 122)
}

} // verus!
