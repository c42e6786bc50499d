//! Validation of UTF-8 and UTF-16, and transcoding between them.
use vstd::prelude::*;
use vstd::utf8::*;
use crate::error::CodecError;
use crate::utf16::{
    decode_utf16, encode_scalar_utf16, encode_utf16, first_scalar_utf16, first_width_utf16,
    lemma_encode_decode_utf16, lemma_utf16_first, valid_utf16,
};

verus! {

broadcast use vstd::utf8::group_utf8_lib;

/// The UTF-16 units that the UTF-8 bytes `b` stand for.
pub open spec fn utf8_as_utf16(b: Seq<u8>) -> Seq<u16> {
    encode_utf16(decode_utf8(b))
}

/// The UTF-8 bytes that the UTF-16 units `u` stand for.
pub open spec fn utf16_as_utf8(u: Seq<u16>) -> Seq<u8> {
    encode_utf8(decode_utf16(u))
}

/// Reads the scalar value that starts at `src[i]`, if the bytes there are a
/// well-formed UTF-8 encoding of one: the value and its length in bytes.
fn first_scalar_utf8(src: &[u8], i: usize) -> (r: Option<(u32, usize)>)
    requires
        i < src@.len(),
    ensures
        r.is_some() == valid_first_scalar(src@.subrange(i as int, src@.len() as int)),
        r.is_some() ==> r.unwrap().0 == decode_first_scalar(src@.subrange(i as int, src@.len() as int)),
        r.is_some() ==> r.unwrap().1 == length_of_first_scalar(src@.subrange(i as int, src@.len() as int)),
        r.is_some() ==> is_scalar(r.unwrap().0),
{
    let ghost rest = src@.subrange(i as int, src@.len() as int);
    let n = src.len();
    let b0 = src[i];
    let v: u32;
    let w: usize;
    if b0 <= 0x7f {
        v = (b0 & 0x7f) as u32;
        w = 1;
        assert(b0 & 0x7f <= 0x7f) by (bit_vector);
    } else if 0xc0 <= b0 && b0 <= 0xdf {
        if n - i < 2 {
            return None;
        }
        let b1 = src[i + 1];
        if !(0x80 <= b1 && b1 <= 0xbf) {
            return None;
        }
        v = (((b0 & 0x1f) as u32) << 6) | ((b1 & 0x3f) as u32);
        w = 2;
        assert((((b0 & 0x1f) as u32) << 6) | ((b1 & 0x3f) as u32) <= 0x7ff) by (bit_vector);
        if v < 0x80 {
            return None;
        }
    } else if 0xe0 <= b0 && b0 <= 0xef {
        if n - i < 3 {
            return None;
        }
        let b1 = src[i + 1];
        let b2 = src[i + 2];
        if !(0x80 <= b1 && b1 <= 0xbf && 0x80 <= b2 && b2 <= 0xbf) {
            return None;
        }
        v = (((b0 & 0x0f) as u32) << 12) | (((b1 & 0x3f) as u32) << 6) | ((b2 & 0x3f) as u32);
        w = 3;
        assert((((b0 & 0x0f) as u32) << 12) | (((b1 & 0x3f) as u32) << 6) | ((b2 & 0x3f) as u32)
            <= 0xffff) by (bit_vector);
        if v < 0x800 {
            return None;
        }
    } else if 0xf0 <= b0 && b0 <= 0xf7 {
        if n - i < 4 {
            return None;
        }
        let b1 = src[i + 1];
        let b2 = src[i + 2];
        let b3 = src[i + 3];
        if !(0x80 <= b1 && b1 <= 0xbf && 0x80 <= b2 && b2 <= 0xbf && 0x80 <= b3 && b3 <= 0xbf) {
            return None;
        }
        v = (((b0 & 0x07) as u32) << 18) | (((b1 & 0x3f) as u32) << 12) | (((b2 & 0x3f) as u32)
            << 6) | ((b3 & 0x3f) as u32);
        w = 4;
        if v < 0x10000 || v > 0x10ffff {
            return None;
        }
    } else {
        return None;
    }
    if 0xD800 <= v && v <= 0xDFFF {
        return None;
    }
    Some((v, w))
}

/// True iff `src` is well-formed UTF-8: no overlong forms, no surrogates,
/// nothing cut off at the end.
pub fn validate_utf8(src: &[u8]) -> (r: bool)
    ensures
        r == valid_utf8(src@),
{
    let n = src.len();
    let mut i: usize = 0;
    assert(src@.subrange(0, n as int) =~= src@);
    while i < n
        invariant
            n == src@.len(),
            i <= n,
            valid_utf8(src@) == valid_utf8(src@.subrange(i as int, n as int)),
        decreases n - i,
    {
        let ghost rest = src@.subrange(i as int, n as int);
        match first_scalar_utf8(src, i) {
            None => {
                return false;
            },
            Some((_, w)) => {
                assert(pop_first_scalar(rest) =~= src@.subrange(i + w, n as int));
                i = i + w;
            },
        }
    }
    assert(src@.subrange(n as int, n as int).len() == 0);
    true
}

/// True iff `src` is well-formed UTF-16: every high surrogate is followed by
/// a low one, and no low surrogate stands alone.
pub fn validate_utf16(src: &[u16]) -> (r: bool)
    ensures
        r == valid_utf16(src@),
{
    let n = src.len();
    let mut i: usize = 0;
    assert(src@.subrange(0, n as int) =~= src@);
    while i < n
        invariant
            n == src@.len(),
            i <= n,
            valid_utf16(src@) == valid_utf16(src@.subrange(i as int, n as int)),
        decreases n - i,
    {
        let ghost rest = src@.subrange(i as int, n as int);
        let u = src[i];
        if 0xD800 <= u && u <= 0xDBFF {
            if n - i < 2 {
                return false;
            }
            let l = src[i + 1];
            if !(0xDC00 <= l && l <= 0xDFFF) {
                return false;
            }
            assert(rest.subrange(2, rest.len() as int) =~= src@.subrange(i + 2, n as int));
            i = i + 2;
        } else if 0xDC00 <= u && u <= 0xDFFF {
            return false;
        } else {
            assert(rest.drop_first() =~= src@.subrange(i + 1, n as int));
            i = i + 1;
        }
    }
    assert(src@.subrange(n as int, n as int).len() == 0);
    true
}

proof fn lemma_encode_utf16_cons(c: char, xs: Seq<char>)
    ensures
        encode_utf16(seq![c] + xs) == encode_scalar_utf16(c as u32) + encode_utf16(xs),
{
    assert((seq![c] + xs).drop_first() =~= xs);
}

proof fn lemma_encode_utf8_cons(c: char, xs: Seq<char>)
    ensures
        encode_utf8(seq![c] + xs) == encode_scalar(c as u32) + encode_utf8(xs),
{
    assert((seq![c] + xs).drop_first() =~= xs);
}

/// One step through well-formed UTF-8: the first scalar value, and what
/// the rest stands for.
proof fn lemma_utf8_step(src: Seq<u8>, i: int, v: u32, w: int)
    requires
        0 <= i < src.len(),
        valid_utf8(src.subrange(i, src.len() as int)),
        v == decode_first_scalar(src.subrange(i, src.len() as int)),
        w == length_of_first_scalar(src.subrange(i, src.len() as int)),
        is_scalar(v),
    ensures
        i + w <= src.len(),
        1 <= w <= 4,
        valid_utf8(src.subrange(i + w, src.len() as int)),
        (v as char) as u32 == v,
        decode_utf8(src.subrange(i, src.len() as int)) == seq![v as char] + decode_utf8(
            src.subrange(i + w, src.len() as int),
        ),
        utf8_as_utf16(src.subrange(i, src.len() as int)) == encode_scalar_utf16(v) + utf8_as_utf16(
            src.subrange(i + w, src.len() as int),
        ),
        v <= 0xFFFF ==> w >= 1,
        v > 0xFFFF ==> w >= 2,
{
    let rest = src.subrange(i, src.len() as int);
    assert(pop_first_scalar(rest) =~= src.subrange(i + w, src.len() as int));
    lemma_encode_utf16_cons(v as char, decode_utf8(src.subrange(i + w, src.len() as int)));
}

/// One step through well-formed UTF-16: the first scalar value, and what
/// the rest stands for.
pub proof fn lemma_utf16_step(src: Seq<u16>, i: int)
    requires
        0 <= i < src.len(),
        valid_utf16(src.subrange(i, src.len() as int)),
    ensures
        ({
            let rest = src.subrange(i, src.len() as int);
            let v = first_scalar_utf16(rest);
            let w = first_width_utf16(rest);
            &&& 1 <= w <= 2
            &&& i + w <= src.len()
            &&& is_scalar(v)
            &&& (v as char) as u32 == v
            &&& valid_utf16(src.subrange(i + w, src.len() as int))
            &&& utf16_as_utf8(rest) == encode_scalar(v) + utf16_as_utf8(
                src.subrange(i + w, src.len() as int),
            )
            &&& encode_scalar(v).len() <= 2 * w + 1
        }),
{
    let rest = src.subrange(i, src.len() as int);
    let v = first_scalar_utf16(rest);
    let w = first_width_utf16(rest);
    lemma_utf16_first(rest);
    assert(rest.subrange(w, rest.len() as int) =~= src.subrange(i + w, src.len() as int));
    lemma_encode_utf8_cons(v as char, decode_utf16(src.subrange(i + w, src.len() as int)));
}

/// The scalar value that starts at `src[i]` in well-formed UTF-16, and the
/// number of units it takes.
fn next_scalar_utf16(src: &[u16], i: usize) -> (r: (u32, usize))
    requires
        i < src@.len(),
        valid_utf16(src@.subrange(i as int, src@.len() as int)),
    ensures
        r.0 == first_scalar_utf16(src@.subrange(i as int, src@.len() as int)),
        r.1 == first_width_utf16(src@.subrange(i as int, src@.len() as int)),
{
    let ghost rest = src@.subrange(i as int, src@.len() as int);
    proof {
        lemma_utf16_first(rest);
    }
    let u = src[i];
    if 0xD800 <= u && u <= 0xDBFF && src.len() - i >= 2 {
        let lo = src[i + 1];
        (0x10000 + ((u - 0xD800) as u32) * 0x400 + ((lo - 0xDC00) as u32), 2)
    } else {
        (u as u32, 1)
    }
}

/// The number of UTF-8 bytes that encode the scalar value `v`.
fn utf8_width(v: u32) -> (w: usize)
    requires
        is_scalar(v),
    ensures
        w == encode_scalar(v).len(),
{
    if v <= 0x7f {
        1
    } else if v <= 0x7ff {
        2
    } else if v <= 0xffff {
        3
    } else {
        4
    }
}

/// Writes the UTF-8 encoding of the scalar value `v` at `dst[j]`.
fn write_utf8_scalar(v: u32, dst: &mut [u8], j: usize) -> (w: usize)
    requires
        is_scalar(v),
        j + encode_scalar(v).len() <= old(dst)@.len(),
    ensures
        w == encode_scalar(v).len(),
        final(dst)@ == old(dst)@.subrange(0, j as int) + encode_scalar(v) + old(dst)@.subrange(
            j + w,
            old(dst)@.len() as int,
        ),
{
    let ghost d = dst@;
    if v <= 0x7f {
        dst[j] = (v & 0x7F) as u8;
        assert(dst@ =~= d.subrange(0, j as int) + encode_scalar(v) + d.subrange(j + 1, d.len() as int));
        1
    } else if v <= 0x7ff {
        dst[j] = 0xC0 | ((v >> 6) & 0x1F) as u8;
        dst[j + 1] = 0x80 | (v & 0x3F) as u8;
        assert(dst@ =~= d.subrange(0, j as int) + encode_scalar(v) + d.subrange(j + 2, d.len() as int));
        2
    } else if v <= 0xffff {
        dst[j] = 0xE0 | ((v >> 12) & 0x0F) as u8;
        dst[j + 1] = 0x80 | ((v >> 6) & 0x3F) as u8;
        dst[j + 2] = 0x80 | (v & 0x3F) as u8;
        assert(dst@ =~= d.subrange(0, j as int) + encode_scalar(v) + d.subrange(j + 3, d.len() as int));
        3
    } else {
        dst[j] = 0xF0 | ((v >> 18) & 0x7) as u8;
        dst[j + 1] = 0x80 | ((v >> 12) & 0x3F) as u8;
        dst[j + 2] = 0x80 | ((v >> 6) & 0x3F) as u8;
        dst[j + 3] = 0x80 | (v & 0x3F) as u8;
        assert(dst@ =~= d.subrange(0, j as int) + encode_scalar(v) + d.subrange(j + 4, d.len() as int));
        4
    }
}

/// Writes the UTF-16 encoding of the scalar value `v` at `dst[j]`.
fn write_utf16_scalar(v: u32, dst: &mut [u16], j: usize) -> (w: usize)
    requires
        is_scalar(v),
        j + encode_scalar_utf16(v).len() <= old(dst)@.len(),
    ensures
        w == encode_scalar_utf16(v).len(),
        final(dst)@ == old(dst)@.subrange(0, j as int) + encode_scalar_utf16(v) + old(
            dst,
        )@.subrange(j + w, old(dst)@.len() as int),
{
    let ghost d = dst@;
    if v <= 0xFFFF {
        dst[j] = v as u16;
        assert(dst@ =~= d.subrange(0, j as int) + encode_scalar_utf16(v) + d.subrange(
            j + 1,
            d.len() as int,
        ));
        1
    } else {
        let x = v - 0x10000;
        dst[j] = (0xD800 + x / 0x400) as u16;
        dst[j + 1] = (0xDC00 + x % 0x400) as u16;
        assert(dst@ =~= d.subrange(0, j as int) + encode_scalar_utf16(v) + d.subrange(
            j + 2,
            d.len() as int,
        ));
        2
    }
}

/// True iff `cap` units can hold the UTF-16 form of the UTF-8 text `src`.
fn utf16_fits(src: &[u8], cap: usize) -> (r: bool)
    requires
        valid_utf8(src@),
    ensures
        r == (utf8_as_utf16(src@).len() <= cap),
{
    let n = src.len();
    let mut i: usize = 0;
    let mut count: usize = 0;
    assert(src@.subrange(0, n as int) =~= src@);
    while i < n
        invariant
            n == src@.len(),
            i <= n,
            count <= cap,
            valid_utf8(src@.subrange(i as int, n as int)),
            count + utf8_as_utf16(src@.subrange(i as int, n as int)).len() == utf8_as_utf16(
                src@,
            ).len(),
        decreases n - i,
    {
        let (v, w) = first_scalar_utf8(src, i).unwrap();
        proof {
            lemma_utf8_step(src@, i as int, v, w as int);
        }
        let k: usize = if v <= 0xFFFF {
            1
        } else {
            2
        };
        if cap - count < k {
            return false;
        }
        count = count + k;
        i = i + w;
    }
    assert(src@.subrange(n as int, n as int).len() == 0);
    true
}

/// True iff `cap` bytes can hold the UTF-8 form of the UTF-16 text `src`.
fn utf8_fits(src: &[u16], cap: usize) -> (r: bool)
    requires
        valid_utf16(src@),
    ensures
        r == (utf16_as_utf8(src@).len() <= cap),
{
    let n = src.len();
    let mut i: usize = 0;
    let mut count: usize = 0;
    assert(src@.subrange(0, n as int) =~= src@);
    while i < n
        invariant
            n == src@.len(),
            i <= n,
            count <= cap,
            valid_utf16(src@.subrange(i as int, n as int)),
            count + utf16_as_utf8(src@.subrange(i as int, n as int)).len() == utf16_as_utf8(
                src@,
            ).len(),
        decreases n - i,
    {
        proof {
            lemma_utf16_step(src@, i as int);
        }
        let (v, w) = next_scalar_utf16(src, i);
        let k = utf8_width(v);
        if cap - count < k {
            return false;
        }
        count = count + k;
        i = i + w;
    }
    assert(src@.subrange(n as int, n as int).len() == 0);
    true
}

/// Writes the UTF-16 form of the well-formed UTF-8 text `src` to the front
/// of `dst` and returns the number of units written. Where `dst` is too
/// short for all of it, nothing is written.
pub fn utf8_to_utf16(src: &[u8], dst: &mut [u16]) -> (r: Result<usize, CodecError>)
    requires
        valid_utf8(src@),
    ensures
        final(dst)@.len() == old(dst)@.len(),
        r.is_ok() == (utf8_as_utf16(src@).len() <= old(dst)@.len()),
        match r {
            Ok(m) => {
                &&& m == utf8_as_utf16(src@).len()
                &&& final(dst)@.subrange(0, m as int) == utf8_as_utf16(src@)
                &&& final(dst)@.subrange(m as int, final(dst)@.len() as int) == old(
                    dst,
                )@.subrange(m as int, old(dst)@.len() as int)
            },
            Err(e) => e == CodecError::BufferTooSmall && final(dst)@ == old(dst)@,
        },
{
    if !utf16_fits(src, dst.len()) {
        return Err(CodecError::BufferTooSmall);
    }
    let cap = dst.len();
    let ghost orig = dst@;
    let ghost total = utf8_as_utf16(src@);
    let n = src.len();
    let mut i: usize = 0;
    let mut j: usize = 0;
    assert(src@.subrange(0, n as int) =~= src@);
    while i < n
        invariant
            n == src@.len(),
            i <= n,
            total == utf8_as_utf16(src@),
            total.len() <= orig.len(),
            cap == orig.len(),
            dst@.len() == orig.len(),
            valid_utf8(src@.subrange(i as int, n as int)),
            j <= dst@.len(),
            dst@.subrange(0, j as int) + utf8_as_utf16(src@.subrange(i as int, n as int)) == total,
            dst@.subrange(total.len() as int, dst@.len() as int) == orig.subrange(
                total.len() as int,
                orig.len() as int,
            ),
        decreases n - i,
    {
        let (v, w) = first_scalar_utf8(src, i).unwrap();
        proof {
            lemma_utf8_step(src@, i as int, v, w as int);
        }
        let ghost before = dst@;
        assert(j + encode_scalar_utf16(v).len() <= orig.len());
        let k = write_utf16_scalar(v, dst, j);
        assert(j + k <= orig.len());
        assert(dst@.subrange(0, j + k) =~= before.subrange(0, j as int) + encode_scalar_utf16(v));
        assert(dst@.subrange(total.len() as int, dst@.len() as int) =~= before.subrange(
            total.len() as int,
            before.len() as int,
        ));
        j = j + k;
        i = i + w;
    }
    assert(src@.subrange(n as int, n as int).len() == 0);
    assert(dst@.subrange(0, j as int) =~= total);
    Ok(j)
}

/// Writes the UTF-8 form of the well-formed UTF-16 text `src` to the front
/// of `dst` and returns the number of bytes written. Where `dst` is too
/// short for all of it, nothing is written.
pub fn utf16_to_utf8(src: &[u16], dst: &mut [u8]) -> (r: Result<usize, CodecError>)
    requires
        valid_utf16(src@),
    ensures
        final(dst)@.len() == old(dst)@.len(),
        r.is_ok() == (utf16_as_utf8(src@).len() <= old(dst)@.len()),
        match r {
            Ok(m) => {
                &&& m == utf16_as_utf8(src@).len()
                &&& final(dst)@.subrange(0, m as int) == utf16_as_utf8(src@)
                &&& final(dst)@.subrange(m as int, final(dst)@.len() as int) == old(
                    dst,
                )@.subrange(m as int, old(dst)@.len() as int)
            },
            Err(e) => e == CodecError::BufferTooSmall && final(dst)@ == old(dst)@,
        },
{
    if !utf8_fits(src, dst.len()) {
        return Err(CodecError::BufferTooSmall);
    }
    let cap = dst.len();
    let ghost orig = dst@;
    let ghost total = utf16_as_utf8(src@);
    let n = src.len();
    let mut i: usize = 0;
    let mut j: usize = 0;
    assert(src@.subrange(0, n as int) =~= src@);
    while i < n
        invariant
            n == src@.len(),
            i <= n,
            total == utf16_as_utf8(src@),
            total.len() <= orig.len(),
            cap == orig.len(),
            dst@.len() == orig.len(),
            valid_utf16(src@.subrange(i as int, n as int)),
            j <= dst@.len(),
            dst@.subrange(0, j as int) + utf16_as_utf8(src@.subrange(i as int, n as int)) == total,
            dst@.subrange(total.len() as int, dst@.len() as int) == orig.subrange(
                total.len() as int,
                orig.len() as int,
            ),
        decreases n - i,
    {
        proof {
            lemma_utf16_step(src@, i as int);
        }
        let (v, w) = next_scalar_utf16(src, i);
        let ghost before = dst@;
        assert(j + encode_scalar(v).len() <= orig.len());
        let k = write_utf8_scalar(v, dst, j);
        assert(j + k <= orig.len());
        assert(dst@.subrange(0, j + k) =~= before.subrange(0, j as int) + encode_scalar(v));
        assert(dst@.subrange(total.len() as int, dst@.len() as int) =~= before.subrange(
            total.len() as int,
            before.len() as int,
        ));
        j = j + k;
        i = i + w;
    }
    assert(src@.subrange(n as int, n as int).len() == 0);
    assert(dst@.subrange(0, j as int) =~= total);
    Ok(j)
}

/// No text takes more UTF-16 units than it takes UTF-8 bytes.
pub proof fn lemma_utf16_len_le_utf8(chars: Seq<char>)
    ensures
        encode_utf16(chars).len() <= encode_utf8(chars).len(),
    decreases chars.len(),
{
    if chars.len() > 0 {
        lemma_utf16_len_le_utf8(chars.drop_first());
    }
}

/// Well-formed UTF-8 taken to UTF-16 and back is the same bytes, and the
/// UTF-16 between is well-formed.
pub proof fn lemma_utf8_utf16_round_trip(b: Seq<u8>)
    requires
        valid_utf8(b),
    ensures
        valid_utf16(utf8_as_utf16(b)),
        utf16_as_utf8(utf8_as_utf16(b)) == b,
{
    lemma_encode_decode_utf16(decode_utf8(b));
}

/// Writes the UTF-16 form of `src` to the front of `dst`, which has room for
/// two units per byte of `src`, and returns the number of units written.
pub fn std_utf8_to_utf16(src: &str, dst: &mut [u16]) -> (r: usize)
    requires
        src.len() <= old(dst)@.len() / 2,
    ensures
        final(dst)@.len() == old(dst)@.len(),
        r == encode_utf16(src@).len(),
        final(dst)@.subrange(0, r as int) == encode_utf16(src@),
        final(dst)@.subrange(r as int, final(dst)@.len() as int) == old(dst)@.subrange(
            r as int,
            old(dst)@.len() as int,
        ),
{
    let bytes = src.as_bytes();
    // The byte count is a `usize`; this ties `src.len()` to the bytes' view.
    let byte_len = bytes.len();
    proof {
        lemma_utf16_len_le_utf8(src@);
        assert(bytes@ == encode_utf8(src@));
        assert(decode_utf8(bytes@) == src@);
        assert(byte_len <= dst@.len());
    }
    // The requirement leaves room for every unit, so the error cannot come.
    match utf8_to_utf16(bytes, dst) {
        Ok(m) => m,
        Err(_) => 0,
    }
}

} // verus!
