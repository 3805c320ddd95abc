//! Windows virtual-key codes of the characters that keys are typed with.
use vstd::prelude::*;

verus! {

/// The virtual-key code of a character, ignoring ASCII case: digits and
/// letters have their own codes, eight punctuation marks their OEM codes, and
/// any other character has none.
pub open spec fn vk_code(c: char) -> Option<int> {
    if '0' <= c && c <= '9' {
        Some(c as int)
    } else if 'A' <= c && c <= 'Z' {
        Some(c as int)
    } else if 'a' <= c && c <= 'z' {
        Some(c as int - 32)
    } else if c == ',' {
        Some(0xBC)
    } else if c == '.' {
        Some(0xBE)
    } else if c == '/' {
        Some(0xBF)
    } else if c == ';' {
        Some(0xBA)
    } else if c == '[' {
        Some(0xDB)
    } else if c == ']' {
        Some(0xDD)
    } else if c == '-' {
        Some(0xBD)
    } else if c == '=' {
        Some(0xBB)
    } else {
        None
    }
}

/// Looks up the virtual-key code of `ch`.
pub fn get_virtual_key_code(ch: char) -> (r: Option<u16>)
    ensures
        match r {
            Some(v) => vk_code(ch) == Some(v as int),
            None => vk_code(ch) is None,
        },
{
    let c = ch as u32;
    if ('0' <= ch && ch <= '9') || ('A' <= ch && ch <= 'Z') {
        Some(c as u16)
    } else if 'a' <= ch && ch <= 'z' {
        Some((c - 32) as u16)
    } else {
        match ch {
            ',' => Some(0xBC),
            '.' => Some(0xBE),
            '/' => Some(0xBF),
            ';' => Some(0xBA),
            '[' => Some(0xDB),
            ']' => Some(0xDD),
            '-' => Some(0xBD),
            '=' => Some(0xBB),
            _ => None,
        }
    }
}

} // verus!
