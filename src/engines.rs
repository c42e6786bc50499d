//! UTF-16 to UTF-8 through other libraries' transcoders: the same contract
//! as `transcode::utf16_to_utf8`, with the work done outside.
use vstd::prelude::*;
use crate::transcode::{lemma_utf16_step, utf16_as_utf8};
use crate::utf16::valid_utf16;

verus! {

/// Well-formed UTF-16 takes at most three UTF-8 bytes per unit.
pub proof fn lemma_utf8_len_bound(u: Seq<u16>)
    requires
        valid_utf16(u),
    ensures
        utf16_as_utf8(u).len() <= 3 * u.len(),
    decreases u.len(),
{
    if u.len() > 0 {
        assert(u.subrange(0, u.len() as int) =~= u);
        lemma_utf16_step(u, 0);
        let w = crate::utf16::first_width_utf16(u);
        lemma_utf8_len_bound(u.subrange(w, u.len() as int));
    }
}

/// Relies on widestring's `Utf16Str::from_slice`, which accepts well-formed
/// UTF-16, and `Utf16Str::encode_utf8`, which yields the UTF-8 bytes of its
/// characters in order.
#[verifier::external_body]
fn widestring_encode_utf8(src: &[u16]) -> (r: Vec<u8>)
    requires
        valid_utf16(src@),
    ensures
        r@ == utf16_as_utf8(src@),
{
    match widestring::Utf16Str::from_slice(src) {
        Ok(s) => s.encode_utf8().collect(),
        Err(_) => Vec::new(),
    }
}

/// Copies `bytes` to the front of `dst`.
fn copy_front(bytes: &[u8], dst: &mut [u8])
    requires
        bytes@.len() <= old(dst)@.len(),
    ensures
        final(dst)@ == bytes@ + old(dst)@.subrange(bytes@.len() as int, old(dst)@.len() as int),
{
    let ghost orig = dst@;
    let n = bytes.len();
    let mut k: usize = 0;
    while k < n
        invariant
            n == bytes@.len(),
            n <= orig.len(),
            k <= n,
            dst@.len() == orig.len(),
            forall|q: int| 0 <= q < k ==> dst@[q] == bytes@[q],
            forall|q: int| k <= q < orig.len() ==> dst@[q] == orig[q],
        decreases n - k,
    {
        dst[k] = bytes[k];
        k = k + 1;
    }
    assert(dst@ =~= bytes@ + orig.subrange(n as int, orig.len() as int));
}

/// Writes the UTF-8 form of the well-formed UTF-16 text `src`, through
/// widestring, to the front of `dst`, which has room for four bytes per
/// unit, and returns the number of bytes written.
pub fn widestring_utf16_to_utf8(src: &[u16], dst: &mut [u8]) -> (r: usize)
    requires
        valid_utf16(src@),
        src@.len() <= old(dst)@.len() / 4,
    ensures
        final(dst)@.len() == old(dst)@.len(),
        r == utf16_as_utf8(src@).len(),
        final(dst)@.subrange(0, r as int) == utf16_as_utf8(src@),
        final(dst)@.subrange(r as int, final(dst)@.len() as int) == old(dst)@.subrange(
            r as int,
            old(dst)@.len() as int,
        ),
{
    let bytes = widestring_encode_utf8(src);
    proof {
        lemma_utf8_len_bound(src@);
    }
    copy_front(bytes.as_slice(), dst);
    assert(dst@.subrange(0, bytes@.len() as int) =~= bytes@);
    bytes.len()
}

/// The UTF-16 units that little-endian byte pairs stand for.
pub open spec fn le_units(b: Seq<u8>) -> Seq<u16> {
    Seq::new(b.len() / 2, |i: int| (b[2 * i] + b[2 * i + 1] * 256) as u16)
}

/// The units of `src` as little-endian byte pairs.
fn to_le_bytes(src: &[u16]) -> (r: Vec<u8>)
    requires
        src@.len() * 2 <= usize::MAX,
    ensures
        r@.len() == 2 * src@.len(),
        le_units(r@) == src@,
{
    let n = src.len();
    let mut out: Vec<u8> = Vec::with_capacity(2 * n);
    let mut i: usize = 0;
    while i < n
        invariant
            n == src@.len(),
            i <= n,
            out@.len() == 2 * i,
            forall|q: int| 0 <= q < i ==> (out@[2 * q] + out@[2 * q + 1] * 256) == src@[q],
        decreases n - i,
    {
        let u = src[i];
        out.push((u % 256) as u8);
        out.push((u / 256) as u8);
        i = i + 1;
    }
    assert(le_units(out@) =~= src@);
    out
}

/// Relies on encoding_rs's UTF-16LE decoder made by
/// `new_decoder_without_bom_handling`, so that a leading byte order mark is
/// text like any other, and on `decode_to_utf8_without_replacement` with
/// `last` set: on well-formed UTF-16LE input and an output buffer of twice
/// the input's length (four bytes free before each unit, as it checks) it
/// reads the whole input and writes its UTF-8 form to the front of the
/// buffer, returning how many bytes it wrote.
#[verifier::external_body]
fn encoding_rs_decode_utf16le(src: &[u8], dst: &mut [u8]) -> (r: usize)
    requires
        src@.len() % 2 == 0,
        valid_utf16(le_units(src@)),
        2 * src@.len() <= old(dst)@.len(),
    ensures
        final(dst)@.len() == old(dst)@.len(),
        r <= final(dst)@.len(),
        final(dst)@.subrange(0, r as int) == utf16_as_utf8(le_units(src@)),
{
    let mut decoder = encoding_rs::UTF_16LE.new_decoder_without_bom_handling();
    let (_, _, written) = decoder.decode_to_utf8_without_replacement(src, dst, true);
    written
}

/// Writes the UTF-8 form of the well-formed UTF-16 text `src`, through
/// encoding_rs, to the front of `dst`, which has room for four bytes per
/// unit, and returns the number of bytes written.
pub fn encoding_rs_utf16_to_utf8(src: &[u16], dst: &mut [u8]) -> (r: usize)
    requires
        valid_utf16(src@),
        src@.len() <= old(dst)@.len() / 4,
    ensures
        final(dst)@.len() == old(dst)@.len(),
        r == utf16_as_utf8(src@).len(),
        final(dst)@.subrange(0, r as int) == utf16_as_utf8(src@),
{
    let cap = dst.len();
    assert(src@.len() * 2 <= cap);
    let bytes = to_le_bytes(src);
    encoding_rs_decode_utf16le(bytes.as_slice(), dst)
}

} // verus!
