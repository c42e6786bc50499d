//! The model of UTF-16: code units of a character, well-formed unit
//! sequences, and decoding them back to characters.
use vstd::prelude::*;
use vstd::utf8::*;

verus! {

broadcast use vstd::utf8::group_utf8_lib;

pub open spec fn is_high_surrogate(u: u16) -> bool {
    0xD800 <= u <= 0xDBFF
}

pub open spec fn is_low_surrogate(u: u16) -> bool {
    0xDC00 <= u <= 0xDFFF
}

/// The scalar value that a high and a low surrogate stand for together.
pub open spec fn pair_scalar(hi: u16, lo: u16) -> u32 {
    (0x10000 + (hi - 0xD800) * 0x400 + (lo - 0xDC00)) as u32
}

/// The UTF-16 code units of one scalar value: one unit up to `0xFFFF`,
/// a surrogate pair above.
pub open spec fn encode_scalar_utf16(v: u32) -> Seq<u16> {
    if v <= 0xFFFF {
        seq![v as u16]
    } else {
        seq![(0xD800 + (v - 0x10000) / 0x400) as u16, (0xDC00 + (v - 0x10000) % 0x400) as u16]
    }
}

/// The UTF-16 encoding of a character sequence.
pub open spec fn encode_utf16(chars: Seq<char>) -> Seq<u16>
    decreases chars.len(),
{
    if chars.len() == 0 {
        seq![]
    } else {
        encode_scalar_utf16(chars[0] as u32) + encode_utf16(chars.drop_first())
    }
}

/// Every high surrogate is followed by a low surrogate, and no low surrogate
/// stands alone.
pub open spec fn valid_utf16(u: Seq<u16>) -> bool
    decreases u.len(),
{
    if u.len() == 0 {
        true
    } else if is_high_surrogate(u[0]) {
        u.len() >= 2 && is_low_surrogate(u[1]) && valid_utf16(u.subrange(2, u.len() as int))
    } else if is_low_surrogate(u[0]) {
        false
    } else {
        valid_utf16(u.drop_first())
    }
}

/// The number of code units that make up the first character of `u`.
pub open spec fn first_width_utf16(u: Seq<u16>) -> int {
    if is_high_surrogate(u[0]) && u.len() >= 2 {
        2
    } else {
        1
    }
}

/// The first scalar value of `u`.
pub open spec fn first_scalar_utf16(u: Seq<u16>) -> u32 {
    if is_high_surrogate(u[0]) && u.len() >= 2 {
        pair_scalar(u[0], u[1])
    } else {
        u[0] as u32
    }
}

/// The characters that well-formed UTF-16 units stand for.
pub open spec fn decode_utf16(u: Seq<u16>) -> Seq<char>
    decreases u.len(),
{
    if u.len() == 0 {
        seq![]
    } else {
        seq![first_scalar_utf16(u) as char] + decode_utf16(
            u.subrange(first_width_utf16(u), u.len() as int),
        )
    }
}

/// The first character of well-formed units is a scalar value, and the
/// units after it are well-formed too.
pub proof fn lemma_utf16_first(u: Seq<u16>)
    requires
        valid_utf16(u),
        u.len() > 0,
    ensures
        is_scalar(first_scalar_utf16(u)),
        (first_scalar_utf16(u) as char) as u32 == first_scalar_utf16(u),
        valid_utf16(u.subrange(first_width_utf16(u), u.len() as int)),
        first_width_utf16(u) == 2 ==> has_width_4_encoding(first_scalar_utf16(u)),
        first_width_utf16(u) == 1 ==> !has_width_4_encoding(first_scalar_utf16(u)),
{
    if is_high_surrogate(u[0]) {
        assert(u.drop_first() =~= u.subrange(1, u.len() as int));
    } else {
        assert(u.drop_first() =~= u.subrange(1, u.len() as int));
    }
}

/// Encoding a scalar value and reading it back gives the value.
proof fn lemma_scalar_utf16_round_trip(c: char)
    ensures
        valid_utf16(encode_scalar_utf16(c as u32)),
        first_width_utf16(encode_scalar_utf16(c as u32)) == encode_scalar_utf16(c as u32).len(),
        first_scalar_utf16(encode_scalar_utf16(c as u32)) as char == c,
{
    let v = c as u32;
    let e = encode_scalar_utf16(v);
    assert(is_scalar(v));
    if v <= 0xFFFF {
        assert(e.drop_first().len() == 0);
        assert(valid_utf16(e.drop_first()));
        assert(first_scalar_utf16(e) == v);
    } else {
        let w = (v - 0x10000) as int;
        assert(0 <= w / 0x400 < 0x400);
        assert(0 <= w % 0x400 < 0x400);
        assert(w == (w / 0x400) * 0x400 + w % 0x400);
        assert(e.subrange(2, 2).len() == 0);
        assert(valid_utf16(e.subrange(2, 2)));
        assert(first_scalar_utf16(e) == v);
    }
}

/// Characters survive a trip through UTF-16: their encoding is well-formed
/// and decodes to them.
pub proof fn lemma_encode_decode_utf16(chars: Seq<char>)
    ensures
        valid_utf16(encode_utf16(chars)),
        decode_utf16(encode_utf16(chars)) == chars,
    decreases chars.len(),
{
    if chars.len() > 0 {
        let e = encode_utf16(chars);
        let head = encode_scalar_utf16(chars[0] as u32);
        let tail = encode_utf16(chars.drop_first());
        lemma_scalar_utf16_round_trip(chars[0]);
        lemma_encode_decode_utf16(chars.drop_first());
        assert(e == head + tail);
        assert(e.subrange(head.len() as int, e.len() as int) =~= tail);
        if head.len() == 1 {
            assert(e.drop_first() =~= tail);
        }
        assert(first_width_utf16(e) == head.len());
        assert(first_scalar_utf16(e) == first_scalar_utf16(head));
        assert(decode_utf16(e) =~= seq![chars[0]] + chars.drop_first());
        assert(seq![chars[0]] + chars.drop_first() =~= chars);
    }
}

} // verus!
