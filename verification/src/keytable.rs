//! The fixed keycode table: a closed mapping from the keycodes the capture
//! layer sees to the characters they stand for (26 letters and the space).

use vstd::prelude::*;

verus! {

/// The character a keycode stands for, or `None` when the table does not
/// list the code. Codes outside the table are not an error anywhere in the
/// pipeline: the decoder silently drops them.
pub open spec fn key_char(code: u8) -> Option<char> {
    match code {
        24u8 => Some('q'),
        25u8 => Some('w'),
        26u8 => Some('e'),
        27u8 => Some('r'),
        28u8 => Some('t'),
        29u8 => Some('y'),
        30u8 => Some('u'),
        31u8 => Some('i'),
        32u8 => Some('o'),
        33u8 => Some('p'),
        38u8 => Some('a'),
        39u8 => Some('s'),
        40u8 => Some('d'),
        41u8 => Some('f'),
        42u8 => Some('g'),
        43u8 => Some('h'),
        44u8 => Some('j'),
        45u8 => Some('k'),
        46u8 => Some('l'),
        52u8 => Some('z'),
        53u8 => Some('x'),
        54u8 => Some('c'),
        55u8 => Some('v'),
        56u8 => Some('b'),
        57u8 => Some('n'),
        58u8 => Some('m'),
        65u8 => Some(' '),
        _ => None,
    }
}

/// Looks a keycode up in the fixed table.
pub fn lookup_key(code: u8) -> (r: Option<char>)
    ensures
        r == key_char(code),
{
    match code {
        24u8 => Some('q'),
        25u8 => Some('w'),
        26u8 => Some('e'),
        27u8 => Some('r'),
        28u8 => Some('t'),
        29u8 => Some('y'),
        30u8 => Some('u'),
        31u8 => Some('i'),
        32u8 => Some('o'),
        33u8 => Some('p'),
        38u8 => Some('a'),
        39u8 => Some('s'),
        40u8 => Some('d'),
        41u8 => Some('f'),
        42u8 => Some('g'),
        43u8 => Some('h'),
        44u8 => Some('j'),
        45u8 => Some('k'),
        46u8 => Some('l'),
        52u8 => Some('z'),
        53u8 => Some('x'),
        54u8 => Some('c'),
        55u8 => Some('v'),
        56u8 => Some('b'),
        57u8 => Some('n'),
        58u8 => Some('m'),
        65u8 => Some(' '),
        _ => None,
    }
}

} // verus!
