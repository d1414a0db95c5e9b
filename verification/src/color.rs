use vstd::prelude::*;

verus! {

use vstd::string::StrSliceExecFns;

/// The numeric value of a hexadecimal digit; 16 marks a non-digit.
pub open spec fn hex_val(c: char) -> int {
    let v = c as int;
    if 48 <= v <= 57 {
        v - 48
    } else if 97 <= v <= 102 {
        v - 87
    } else if 65 <= v <= 70 {
        v - 55
    } else {
        16
    }
}

/// Whether `c` is a hexadecimal digit.
pub open spec fn is_hex(c: char) -> bool {
    hex_val(c) < 16
}

/// The byte two hexadecimal digits spell.
pub open spec fn byte_of(hi: char, lo: char) -> int {
    hex_val(hi) * 16 + hex_val(lo)
}

/// The numeric value of one digit character.
fn hex_digit(c: char) -> (res: u8)
    ensures
        res as int == hex_val(c),
{
    let v = c as u32;
    if 48 <= v && v <= 57 {
        (v - 48) as u8
    } else if 97 <= v && v <= 102 {
        (v - 87) as u8
    } else if 65 <= v && v <= 70 {
        (v - 55) as u8
    } else {
        16
    }
}

/// Reads the three channel bytes of a `#rrggbb` color: the six characters
/// after the leading marker, two hexadecimal digits per channel.  Anything
/// too short or holding a non-digit yields nothing.
pub fn parse_rgb(hex: &str) -> (res: Option<(u8, u8, u8)>)
    ensures
        match res {
            Some((r, g, b)) => {
                &&& hex@.len() >= 7
                &&& forall|i: int| 1 <= i < 7 ==> is_hex(#[trigger] hex@[i])
                &&& r as int == byte_of(hex@[1], hex@[2])
                &&& g as int == byte_of(hex@[3], hex@[4])
                &&& b as int == byte_of(hex@[5], hex@[6])
            },
            None => hex@.len() < 7 || exists|i: int| 1 <= i < 7 && !is_hex(#[trigger] hex@[i]),
        },
{
    if hex.unicode_len() < 7 {
        return None;
    }
    let d1 = hex_digit(hex.get_char(1));
    let d2 = hex_digit(hex.get_char(2));
    let d3 = hex_digit(hex.get_char(3));
    let d4 = hex_digit(hex.get_char(4));
    let d5 = hex_digit(hex.get_char(5));
    let d6 = hex_digit(hex.get_char(6));
    if d1 > 15 || d2 > 15 || d3 > 15 || d4 > 15 || d5 > 15 || d6 > 15 {
        proof {
            if d1 > 15 {
                assert(!is_hex(hex@[1]));
            } else if d2 > 15 {
                assert(!is_hex(hex@[2]));
            } else if d3 > 15 {
                assert(!is_hex(hex@[3]));
            } else if d4 > 15 {
                assert(!is_hex(hex@[4]));
            } else if d5 > 15 {
                assert(!is_hex(hex@[5]));
            } else {
                assert(!is_hex(hex@[6]));
            }
        }
        return None;
    }
    Some((d1 * 16 + d2, d3 * 16 + d4, d5 * 16 + d6))
}

} // verus!
