//! A byte-oriented codec library: validation and transcoding between raw
//! bytes, UTF-8 text, UTF-16 text and Base64 text, with every operation
//! stated by a contract and proved.
use vstd::prelude::*;

pub mod base64;
pub mod engines;
pub mod error;
pub mod hex;
pub mod transcode;
pub mod utf16;

pub use base64::{forgiving_decode, Alphabet, Base64, Padding};
pub use engines::{encoding_rs_utf16_to_utf8, widestring_utf16_to_utf8};
pub use error::CodecError;
pub use hex::hex_check;
pub use transcode::{std_utf8_to_utf16, utf16_to_utf8, utf8_to_utf16, validate_utf16, validate_utf8};

verus! {

/// Relies on rand's `thread_rng` and `RngCore::fill_bytes`, which fills the
/// whole buffer and leaves its length as it was.
#[verifier::external_body]
fn fill_random(buf: &mut Vec<u8>)
    ensures
        final(buf)@.len() == old(buf)@.len(),
{
    rand::RngCore::fill_bytes(&mut rand::thread_rng(), buf.as_mut_slice())
}

/// `len` random bytes.
pub fn rand_bytes(len: usize) -> (r: Vec<u8>)
    ensures
        r@.len() == len,
{
    let mut buf: Vec<u8> = vec![0u8; len];
    fill_random(&mut buf);
    buf
}

/// Applies `f` to every item of `items`, in order, and collects the results.
pub fn map_collect<T, U, F: Fn(T) -> U>(items: Vec<T>, f: F) -> (r: Vec<U>)
    requires
        forall|i: int| 0 <= i < items.len() ==> call_requires(f, (#[trigger] items[i],)),
    ensures
        r.len() == items.len(),
        forall|i: int| 0 <= i < items.len() ==> call_ensures(f, (#[trigger] items[i],), r[i]),
{
    let ghost orig = items@;
    let n = items.len();
    let mut src = items;
    let mut rest: Vec<T> = Vec::with_capacity(n);
    while src.len() > 0
        invariant
            src.len() + rest.len() == n,
            n == orig.len(),
            forall|i: int| 0 <= i < src.len() ==> src[i] == orig[i],
            forall|i: int| 0 <= i < rest.len() ==> rest[i] == orig[n - 1 - i],
        decreases src.len(),
    {
        let x = src.pop().unwrap();
        rest.push(x);
    }
    let mut out: Vec<U> = Vec::with_capacity(n);
    while rest.len() > 0
        invariant
            out.len() + rest.len() == n,
            n == orig.len(),
            forall|i: int| 0 <= i < rest.len() ==> rest[i] == orig[n - 1 - i],
            forall|i: int| 0 <= i < out.len() ==> call_ensures(f, (orig[i],), #[trigger] out[i]),
            forall|i: int| 0 <= i < orig.len() ==> call_requires(f, (#[trigger] orig[i],)),
        decreases rest.len(),
    {
        let x = rest.pop().unwrap();
        let y = f(x);
        out.push(y);
    }
    out
}

} // verus!
