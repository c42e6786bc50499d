//! Checking that a buffer holds hexadecimal digits only.
use vstd::prelude::*;

verus! {

/// An ASCII hexadecimal digit: `0-9`, `a-f` or `A-F`.
pub open spec fn is_hex_digit(b: u8) -> bool {
    (0x30 <= b <= 0x39) || (0x61 <= b <= 0x66) || (0x41 <= b <= 0x46)
}

/// True iff every byte of `src` is an ASCII hexadecimal digit.
pub fn hex_check(src: &[u8]) -> (r: bool)
    ensures
        r == forall|i: int| 0 <= i < src@.len() ==> is_hex_digit(#[trigger] src@[i]),
{
    let mut i: usize = 0;
    while i < src.len()
        invariant
            i <= src@.len(),
            forall|j: int| 0 <= j < i ==> is_hex_digit(#[trigger] src@[j]),
        decreases src@.len() - i,
    {
        let b = src[i];
        if !((0x30 <= b && b <= 0x39) || (0x61 <= b && b <= 0x66) || (0x41 <= b && b <= 0x46)) {
            return false;
        }
        i += 1;
    }
    true
}

} // verus!
