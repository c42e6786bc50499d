//! Base64 (RFC 4648): the standard and the URL-safe alphabet, with padding
//! required, optional or forbidden; a strict decoder and a forgiving one.
use vstd::prelude::*;
use crate::error::CodecError;

verus! {

/// Which two symbols stand for the values 62 and 63.
#[derive(Clone, Copy, Debug, PartialEq, Eq, Structural)]
pub enum Alphabet {
    /// `+` and `/`
    Standard,
    /// `-` and `_`
    UrlSafe,
}

/// Whether encoded text ends in `=` up to a multiple of four symbols.
#[derive(Clone, Copy, Debug, PartialEq, Eq, Structural)]
pub enum Padding {
    /// The encoder pads; the decoder wants a multiple of four symbols.
    Required,
    /// The encoder pads; the decoder takes text with or without padding.
    Optional,
    /// The encoder does not pad; the decoder refuses `=`.
    Forbidden,
}

/// An encoding descriptor: an alphabet and a padding policy.
#[derive(Clone, Copy, Debug, PartialEq, Eq, Structural)]
pub struct Base64 {
    pub alphabet: Alphabet,
    pub padding: Padding,
}

pub open spec fn pad_byte() -> u8 {
    0x3d
}

/// The symbol for the 6-bit value `v`.
pub open spec fn symbol(a: Alphabet, v: u8) -> u8 {
    if v < 26 {
        (0x41 + v) as u8
    } else if v < 52 {
        (0x61 + (v - 26)) as u8
    } else if v < 62 {
        (0x30 + (v - 52)) as u8
    } else if v == 62 {
        if a == Alphabet::Standard {
            0x2b
        } else {
            0x2d
        }
    } else {
        if a == Alphabet::Standard {
            0x2f
        } else {
            0x5f
        }
    }
}

/// The 6-bit value of the symbol `c`, if `c` is in the alphabet.
pub open spec fn symbol_value(a: Alphabet, c: u8) -> Option<u8> {
    if 0x41 <= c <= 0x5a {
        Some((c - 0x41) as u8)
    } else if 0x61 <= c <= 0x7a {
        Some((c - 0x61 + 26) as u8)
    } else if 0x30 <= c <= 0x39 {
        Some((c - 0x30 + 52) as u8)
    } else if (a == Alphabet::Standard && c == 0x2b) || (a == Alphabet::UrlSafe && c == 0x2d) {
        Some(62u8)
    } else if (a == Alphabet::Standard && c == 0x2f) || (a == Alphabet::UrlSafe && c == 0x5f) {
        Some(63u8)
    } else {
        None
    }
}

/// The four 6-bit values of three bytes.
pub open spec fn sextet0(b0: u8) -> u8 {
    b0 >> 2
}

pub open spec fn sextet1(b0: u8, b1: u8) -> u8 {
    ((b0 & 3) << 4) | (b1 >> 4)
}

pub open spec fn sextet2(b1: u8, b2: u8) -> u8 {
    ((b1 & 15) << 2) | (b2 >> 6)
}

pub open spec fn sextet3(b2: u8) -> u8 {
    b2 & 63
}

/// The symbols for `b`, without padding: four for every three bytes, and
/// two or three for a last group of one or two bytes.
pub open spec fn encode_symbols(a: Alphabet, b: Seq<u8>) -> Seq<u8>
    decreases b.len(),
{
    if b.len() == 0 {
        seq![]
    } else if b.len() == 1 {
        seq![symbol(a, sextet0(b[0])), symbol(a, sextet1(b[0], 0))]
    } else if b.len() == 2 {
        seq![symbol(a, sextet0(b[0])), symbol(a, sextet1(b[0], b[1])), symbol(a, sextet2(b[1], 0))]
    } else {
        seq![
            symbol(a, sextet0(b[0])),
            symbol(a, sextet1(b[0], b[1])),
            symbol(a, sextet2(b[1], b[2])),
            symbol(a, sextet3(b[2])),
        ] + encode_symbols(a, b.subrange(3, b.len() as int))
    }
}

/// The padding after the symbols for `n` bytes.
pub open spec fn padding_for(pad: bool, n: nat) -> Seq<u8> {
    if pad && n % 3 == 1 {
        seq![pad_byte(), pad_byte()]
    } else if pad && n % 3 == 2 {
        seq![pad_byte()]
    } else {
        seq![]
    }
}

/// The length of the encoding of `n` bytes.
pub open spec fn encoded_len(pad: bool, n: nat) -> nat {
    if n % 3 == 0 {
        n / 3 * 4
    } else if pad {
        n / 3 * 4 + 4
    } else {
        n / 3 * 4 + n % 3 + 1
    }
}

impl Base64 {
    /// Standard alphabet, padding required.
    pub fn standard() -> (r: Base64)
        ensures
            r.alphabet == Alphabet::Standard,
            r.padding == Padding::Required,
    {
        Base64 { alphabet: Alphabet::Standard, padding: Padding::Required }
    }

    /// URL-safe alphabet, padding required.
    pub fn url_safe() -> (r: Base64)
        ensures
            r.alphabet == Alphabet::UrlSafe,
            r.padding == Padding::Required,
    {
        Base64 { alphabet: Alphabet::UrlSafe, padding: Padding::Required }
    }

    /// Whether the encoder writes padding.
    pub open spec fn pads(self) -> bool {
        self.padding != Padding::Forbidden
    }

    /// The Base64 text for `b` under this descriptor.
    pub open spec fn encode_spec(self, b: Seq<u8>) -> Seq<u8> {
        encode_symbols(self.alphabet, b) + padding_for(self.pads(), b.len())
    }

    /// The exact length of the encoding of `n` bytes: `ceil(n / 3) * 4`
    /// with padding, `ceil(n * 4 / 3)` without.
    pub fn encoded_length(&self, n: usize) -> (r: usize)
        requires
            encoded_len(self.pads(), n as nat) <= usize::MAX,
        ensures
            r == encoded_len(self.pads(), n as nat),
    {
        let pads = match self.padding {
            Padding::Forbidden => false,
            _ => true,
        };
        if n % 3 == 0 {
            n / 3 * 4
        } else if pads {
            n / 3 * 4 + 4
        } else {
            n / 3 * 4 + n % 3 + 1
        }
    }
}

/// The symbol for the 6-bit value `v`.
fn symbol_of(a: Alphabet, v: u8) -> (r: u8)
    requires
        v < 64,
    ensures
        r == symbol(a, v),
{
    if v < 26 {
        0x41 + v
    } else if v < 52 {
        0x61 + (v - 26)
    } else if v < 62 {
        0x30 + (v - 52)
    } else if v == 62 {
        match a {
            Alphabet::Standard => 0x2b,
            Alphabet::UrlSafe => 0x2d,
        }
    } else {
        match a {
            Alphabet::Standard => 0x2f,
            Alphabet::UrlSafe => 0x5f,
        }
    }
}

proof fn lemma_sextets_small(b0: u8, b1: u8, b2: u8)
    ensures
        sextet0(b0) < 64,
        sextet1(b0, b1) < 64,
        sextet2(b1, b2) < 64,
        sextet3(b2) < 64,
{
    assert(b0 >> 2 < 64) by (bit_vector);
    assert(((b0 & 3) << 4) | (b1 >> 4) < 64) by (bit_vector);
    assert(((b1 & 15) << 2) | (b2 >> 6) < 64) by (bit_vector);
    assert(b2 & 63 < 64) by (bit_vector);
}

/// The encoding of `n` bytes is `encoded_len(n)` bytes long.
pub proof fn lemma_encode_symbols_len(a: Alphabet, b: Seq<u8>)
    ensures
        encode_symbols(a, b).len() == encoded_len(false, b.len()),
    decreases b.len(),
{
    if b.len() >= 3 {
        lemma_encode_symbols_len(a, b.subrange(3, b.len() as int));
    }
}

/// Encoding `n` bytes writes exactly `encoded_length(n)` bytes, for every
/// input of that length.
pub proof fn lemma_encoded_length_exact(d: Base64, b: Seq<u8>)
    ensures
        d.encode_spec(b).len() == encoded_len(d.pads(), b.len()),
{
    lemma_encode_symbols_len(d.alphabet, b);
}

impl Base64 {
    /// Writes the Base64 text for `src` to the front of `dst` and returns
    /// its length, `encoded_length(src.len())`. Where `dst` is shorter,
    /// nothing is written.
    #[verifier::rlimit(50)]
    pub fn encode(&self, src: &[u8], dst: &mut [u8]) -> (r: Result<usize, CodecError>)
        ensures
            final(dst)@.len() == old(dst)@.len(),
            r.is_ok() == (encoded_len(self.pads(), src@.len()) <= old(dst)@.len()),
            match r {
                Ok(m) => {
                    &&& m == encoded_len(self.pads(), src@.len())
                    &&& final(dst)@.subrange(0, m as int) == self.encode_spec(src@)
                    &&& final(dst)@.subrange(m as int, final(dst)@.len() as int) == old(
                        dst,
                    )@.subrange(m as int, old(dst)@.len() as int)
                },
                Err(e) => e == CodecError::BufferTooSmall && final(dst)@ == old(dst)@,
            },
    {
        let a = self.alphabet;
        let pads = match self.padding {
            Padding::Forbidden => false,
            _ => true,
        };
        let n = src.len();
        let cap = dst.len();
        let tail: usize = if n % 3 == 0 {
            0
        } else if pads {
            4
        } else {
            n % 3 + 1
        };
        if (cap / 4) < (n / 3) || cap - (n / 3) * 4 < tail {
            return Err(CodecError::BufferTooSmall);
        }
        let total = (n / 3) * 4 + tail;
        let ghost orig = dst@;
        let ghost whole = self.encode_spec(src@);
        proof {
            lemma_encoded_length_exact(*self, src@);
            lemma_encode_symbols_len(a, src@);
        }
        let mut i: usize = 0;
        let mut j: usize = 0;
        assert(src@.subrange(0, n as int) =~= src@);
        while n - i >= 3
            invariant
                n == src@.len(),
                i <= n,
                i % 3 == 0,
                j == i / 3 * 4,
                cap == orig.len(),
                total == encoded_len(pads, n as nat),
                total <= cap,
                pads == self.pads(),
                a == self.alphabet,
                whole == self.encode_spec(src@),
                dst@.len() == orig.len(),
                dst@.subrange(0, j as int) + encode_symbols(a, src@.subrange(i as int, n as int))
                    == encode_symbols(a, src@),
                dst@.subrange(total as int, cap as int) == orig.subrange(total as int, cap as int),
            decreases n - i,
        {
            let b0 = src[i];
            let b1 = src[i + 1];
            let b2 = src[i + 2];
            proof {
                lemma_sextets_small(b0, b1, b2);
                let rest = src@.subrange(i as int, n as int);
                assert(rest.subrange(3, rest.len() as int) =~= src@.subrange(i + 3, n as int));
                lemma_encode_symbols_len(a, src@.subrange(i + 3, n as int));
            }
            let ghost before = dst@;
            dst[j] = symbol_of(a, b0 >> 2);
            dst[j + 1] = symbol_of(a, ((b0 & 3) << 4) | (b1 >> 4));
            dst[j + 2] = symbol_of(a, ((b1 & 15) << 2) | (b2 >> 6));
            dst[j + 3] = symbol_of(a, b2 & 63);
            assert(dst@.subrange(0, j + 4) =~= before.subrange(0, j as int) + seq![
                symbol(a, sextet0(b0)),
                symbol(a, sextet1(b0, b1)),
                symbol(a, sextet2(b1, b2)),
                symbol(a, sextet3(b2)),
            ]);
            assert(dst@.subrange(total as int, cap as int) =~= before.subrange(total as int, cap as int));
            i = i + 3;
            j = j + 4;
        }
        let ghost before = dst@;
        let ghost rest = src@.subrange(i as int, n as int);
        if n - i == 1 {
            let b0 = src[i];
            proof {
                lemma_sextets_small(b0, 0, 0);
            }
            dst[j] = symbol_of(a, b0 >> 2);
            assert(((b0 & 3) << 4) | (0u8 >> 4) == (b0 & 3) << 4) by (bit_vector);
            dst[j + 1] = symbol_of(a, (b0 & 3) << 4);
            if pads {
                dst[j + 2] = 0x3d;
                dst[j + 3] = 0x3d;
            }
        } else if n - i == 2 {
            let b0 = src[i];
            let b1 = src[i + 1];
            proof {
                lemma_sextets_small(b0, b1, 0);
            }
            dst[j] = symbol_of(a, b0 >> 2);
            dst[j + 1] = symbol_of(a, ((b0 & 3) << 4) | (b1 >> 4));
            assert(((b1 & 15) << 2) | (0u8 >> 6) == (b1 & 15) << 2) by (bit_vector);
            dst[j + 2] = symbol_of(a, (b1 & 15) << 2);
            if pads {
                dst[j + 3] = 0x3d;
            }
        }
        assert(dst@.subrange(0, total as int) =~= whole);
        assert(dst@.subrange(total as int, cap as int) =~= orig.subrange(total as int, cap as int));
        Ok(total)
    }
}

/// The number of `=` bytes at the end of `s`.
pub open spec fn trailing_pads(s: Seq<u8>) -> nat
    decreases s.len(),
{
    if s.len() > 0 && s.last() == pad_byte() {
        1 + trailing_pads(s.drop_last())
    } else {
        0
    }
}

/// The first fault in the symbols `s[i..]`: `=` among them is a padding
/// fault, any other byte outside the alphabet a character fault at its
/// offset.
pub open spec fn symbols_error(a: Alphabet, s: Seq<u8>, i: int) -> Option<CodecError>
    decreases s.len() - i,
{
    if i < 0 || i >= s.len() {
        None
    } else if symbol_value(a, s[i]).is_none() {
        if s[i] == pad_byte() {
            Some(CodecError::InvalidPadding)
        } else {
            Some(CodecError::InvalidCharacter(i as usize))
        }
    } else {
        symbols_error(a, s, i + 1)
    }
}

/// The 6-bit value of a symbol known to be in the alphabet.
pub open spec fn val(a: Alphabet, c: u8) -> u8 {
    symbol_value(a, c).unwrap()
}

/// The bytes that the symbols `s` stand for: three for every four symbols,
/// and one or two for a last group of two or three symbols.
pub open spec fn decode_symbols(a: Alphabet, s: Seq<u8>) -> Seq<u8>
    decreases s.len(),
{
    if s.len() < 2 {
        seq![]
    } else if s.len() == 2 {
        seq![(val(a, s[0]) << 2) | (val(a, s[1]) >> 4)]
    } else if s.len() == 3 {
        seq![
            (val(a, s[0]) << 2) | (val(a, s[1]) >> 4),
            ((val(a, s[1]) & 15) << 4) | (val(a, s[2]) >> 2),
        ]
    } else {
        seq![
            (val(a, s[0]) << 2) | (val(a, s[1]) >> 4),
            ((val(a, s[1]) & 15) << 4) | (val(a, s[2]) >> 2),
            ((val(a, s[2]) & 3) << 6) | val(a, s[3]),
        ] + decode_symbols(a, s.subrange(4, s.len() as int))
    }
}

/// The number of bytes that `m` symbols stand for.
pub open spec fn decoded_len(m: nat) -> nat {
    if m % 4 == 0 {
        m / 4 * 3
    } else {
        m / 4 * 3 + (m % 4 - 1) as nat
    }
}

impl Base64 {
    /// The symbols of `s`: all but the padding at its end.
    pub open spec fn body(self, s: Seq<u8>) -> Seq<u8> {
        s.subrange(0, s.len() - trailing_pads(s))
    }

    /// Why `s` is not Base64 text under this descriptor, if it is not. A
    /// length of one more than a multiple of four is refused before
    /// anything else is looked at.
    pub open spec fn decode_error(self, s: Seq<u8>) -> Option<CodecError> {
        let k = trailing_pads(s);
        if s.len() % 4 == 1 || k > 2 {
            Some(CodecError::InvalidPadding)
        } else if self.padding == Padding::Required && s.len() % 4 != 0 {
            Some(CodecError::InvalidPadding)
        } else if k > 0 && (self.padding == Padding::Forbidden || s.len() % 4 != 0) {
            Some(CodecError::InvalidPadding)
        } else {
            symbols_error(self.alphabet, self.body(s), 0)
        }
    }

    /// The bytes that the Base64 text `s` stands for.
    pub open spec fn decode_spec(self, s: Seq<u8>) -> Seq<u8> {
        decode_symbols(self.alphabet, self.body(s))
    }

    /// What decoding `s` into a buffer of `cap` bytes comes to.
    pub open spec fn decode_outcome(self, s: Seq<u8>, cap: nat) -> Result<Seq<u8>, CodecError> {
        match self.decode_error(s) {
            Some(e) => Err(e),
            None => if self.decode_spec(s).len() <= cap {
                Ok(self.decode_spec(s))
            } else {
                Err(CodecError::BufferTooSmall)
            },
        }
    }
}

/// The 6-bit value of the symbol `c`, if `c` is in the alphabet.
fn value_of(a: Alphabet, c: u8) -> (r: Option<u8>)
    ensures
        r == symbol_value(a, c),
{
    if 0x41 <= c && c <= 0x5a {
        Some(c - 0x41)
    } else if 0x61 <= c && c <= 0x7a {
        Some(c - 0x61 + 26)
    } else if 0x30 <= c && c <= 0x39 {
        Some(c - 0x30 + 52)
    } else {
        match a {
            Alphabet::Standard => if c == 0x2b {
                Some(62)
            } else if c == 0x2f {
                Some(63)
            } else {
                None
            },
            Alphabet::UrlSafe => if c == 0x2d {
                Some(62)
            } else if c == 0x5f {
                Some(63)
            } else {
                None
            },
        }
    }
}

/// Symbols stand for `decoded_len` bytes.
proof fn lemma_decode_symbols_len(a: Alphabet, s: Seq<u8>)
    requires
        s.len() % 4 != 1,
    ensures
        decode_symbols(a, s).len() == decoded_len(s.len()),
    decreases s.len(),
{
    if s.len() >= 4 {
        lemma_decode_symbols_len(a, s.subrange(4, s.len() as int));
    }
}

/// Where the symbols hold no fault from `i` on, every one of them from `i`
/// on is in the alphabet.
proof fn lemma_symbols_error_none(a: Alphabet, s: Seq<u8>, i: int)
    requires
        0 <= i,
    ensures
        symbols_error(a, s, i).is_none() <==> (forall|k: int|
            i <= k < s.len() ==> (#[trigger] symbol_value(a, s[k])).is_some()),
    decreases s.len() - i,
{
    if i < s.len() {
        lemma_symbols_error_none(a, s, i + 1);
    }
}

/// Writes `x0`, `x1`, `x2` at `dst[j]`.
fn write3(dst: &mut [u8], j: usize, x0: u8, x1: u8, x2: u8)
    requires
        j + 3 <= old(dst)@.len(),
    ensures
        final(dst)@ == old(dst)@.subrange(0, j as int) + seq![x0, x1, x2] + old(dst)@.subrange(
            j + 3,
            old(dst)@.len() as int,
        ),
{
    let ghost d = dst@;
    dst[j] = x0;
    dst[j + 1] = x1;
    dst[j + 2] = x2;
    assert(dst@ =~= d.subrange(0, j as int) + seq![x0, x1, x2] + d.subrange(j + 3, d.len() as int));
}

/// One group of four symbols at `i`: the three bytes it stands for, and
/// the rest.
proof fn lemma_decode_step(a: Alphabet, body: Seq<u8>, i: int)
    requires
        0 <= i,
        i + 4 <= body.len(),
        forall|q: int| 0 <= q < body.len() ==> (#[trigger] symbol_value(a, body[q])).is_some(),
    ensures
        symbol_value(a, body[i]).is_some(),
        symbol_value(a, body[i + 1]).is_some(),
        symbol_value(a, body[i + 2]).is_some(),
        symbol_value(a, body[i + 3]).is_some(),
        decode_symbols(a, body.subrange(i, body.len() as int)) == seq![
            (val(a, body[i]) << 2) | (val(a, body[i + 1]) >> 4),
            ((val(a, body[i + 1]) & 15) << 4) | (val(a, body[i + 2]) >> 2),
            ((val(a, body[i + 2]) & 3) << 6) | val(a, body[i + 3]),
        ] + decode_symbols(a, body.subrange(i + 4, body.len() as int)),
{
    let rest = body.subrange(i, body.len() as int);
    assert(rest.subrange(4, rest.len() as int) =~= body.subrange(i + 4, body.len() as int));
    assert(symbol_value(a, body[i]).is_some());
    assert(symbol_value(a, body[i + 1]).is_some());
    assert(symbol_value(a, body[i + 2]).is_some());
    assert(symbol_value(a, body[i + 3]).is_some());
}

/// Counts the `=` bytes at the end of `src`.
fn count_trailing_pads(src: &[u8]) -> (k: usize)
    ensures
        k == trailing_pads(src@),
        k <= src@.len(),
{
    let n = src.len();
    let mut k: usize = 0;
    assert(src@.subrange(0, n as int) =~= src@);
    while k < n && src[n - 1 - k] == 0x3d
        invariant
            n == src@.len(),
            k <= n,
            trailing_pads(src@) == k + trailing_pads(src@.subrange(0, n - k)),
        decreases n - k,
    {
        let ghost t = src@.subrange(0, n - k);
        assert(t.drop_last() =~= src@.subrange(0, n - k - 1));
        k = k + 1;
    }
    k
}

impl Base64 {
    /// Why `src` is not Base64 text under this descriptor, or `None`.
    fn find_error(&self, src: &[u8]) -> (r: (Option<CodecError>, usize))
        ensures
            r.0 == self.decode_error(src@),
            r.1 == trailing_pads(src@),
    {
        let n = src.len();
        let k = count_trailing_pads(src);
        if n % 4 == 1 || k > 2 {
            return (Some(CodecError::InvalidPadding), k);
        }
        let required = match self.padding {
            Padding::Required => true,
            _ => false,
        };
        let forbidden = match self.padding {
            Padding::Forbidden => true,
            _ => false,
        };
        if required && n % 4 != 0 {
            return (Some(CodecError::InvalidPadding), k);
        }
        if k > 0 && (forbidden || n % 4 != 0) {
            return (Some(CodecError::InvalidPadding), k);
        }
        let m = n - k;
        let ghost body = self.body(src@);
        assert(self.decode_error(src@) == symbols_error(self.alphabet, body, 0));
        let mut i: usize = 0;
        while i < m
            invariant
                m == body.len(),
                body == src@.subrange(0, m as int),
                m <= src@.len(),
                i <= m,
                k == trailing_pads(src@),
                self.decode_error(src@) == symbols_error(self.alphabet, body, 0),
                symbols_error(self.alphabet, body, 0) == symbols_error(self.alphabet, body, i as int),
            decreases m - i,
        {
            let c = src[i];
            assert(body[i as int] == c);
            if value_of(self.alphabet, c).is_none() {
                assert(symbol_value(self.alphabet, body[i as int]).is_none());
                if c == 0x3d {
                    return (Some(CodecError::InvalidPadding), k);
                } else {
                    return (Some(CodecError::InvalidCharacter(i)), k);
                }
            }
            i = i + 1;
        }
        (None, k)
    }

    /// True iff `src` is Base64 text under this descriptor: symbols of the
    /// alphabet, then padding where the policy allows it.
    pub fn check(&self, src: &[u8]) -> (r: bool)
        ensures
            r == self.decode_error(src@).is_none(),
    {
        self.find_error(src).0.is_none()
    }

    /// A bound on the decoded length of any `n` bytes of Base64 text.
    pub fn estimated_decoded_length(&self, n: usize) -> (r: usize)
        ensures
            r == n / 4 * 3 + 2,
    {
        n / 4 * 3 + 2
    }

    /// Decodes the Base64 text `src` to the front of `dst` and returns the
    /// number of bytes written. On an error nothing is written.
    #[verifier::rlimit(50)]
    pub fn decode(&self, src: &[u8], dst: &mut [u8]) -> (r: Result<usize, CodecError>)
        ensures
            final(dst)@.len() == old(dst)@.len(),
            match r {
                Ok(m) => {
                    &&& self.decode_outcome(src@, old(dst)@.len()) == Ok::<Seq<u8>, CodecError>(
                        final(dst)@.subrange(0, m as int),
                    )
                    &&& final(dst)@.subrange(m as int, final(dst)@.len() as int) == old(
                        dst,
                    )@.subrange(m as int, old(dst)@.len() as int)
                },
                Err(e) => {
                    &&& self.decode_outcome(src@, old(dst)@.len()) == Err::<Seq<u8>, CodecError>(e)
                    &&& final(dst)@ == old(dst)@
                },
            },
    {
        let (err, k) = self.find_error(src);
        if let Some(e) = err {
            return Err(e);
        }
        let a = self.alphabet;
        let n = src.len();
        let m = n - k;
        let ghost body = self.body(src@);
        proof {
            lemma_symbols_error_none(a, body, 0);
            lemma_decode_symbols_len(a, body);
        }
        let total: usize = if m % 4 == 0 {
            m / 4 * 3
        } else {
            m / 4 * 3 + (m % 4 - 1)
        };
        let cap = dst.len();
        if total > cap {
            return Err(CodecError::BufferTooSmall);
        }
        let ghost orig = dst@;
        let ghost whole = decode_symbols(a, body);
        let mut i: usize = 0;
        let mut j: usize = 0;
        assert(body.subrange(0, m as int) =~= body);
        while m - i >= 4
            invariant
                m == body.len(),
                body == src@.subrange(0, m as int),
                m <= src@.len(),
                m % 4 != 1,
                i <= m,
                i % 4 == 0,
                j == i / 4 * 3,
                j <= total,
                forall|q: int| 0 <= q < m ==> (#[trigger] symbol_value(a, body[q])).is_some(),
                whole == decode_symbols(a, body),
                whole.len() == total,
                total <= cap,
                cap == orig.len(),
                dst@.len() == orig.len(),
                dst@.subrange(0, j as int) + decode_symbols(a, body.subrange(i as int, m as int))
                    == whole,
                dst@.subrange(total as int, cap as int) == orig.subrange(total as int, cap as int),
            decreases m - i,
        {
            proof {
                lemma_decode_step(a, body, i as int);
                lemma_decode_symbols_len(a, body.subrange(i + 4, m as int));
            }
            let v0 = value_of(a, src[i]).unwrap();
            let v1 = value_of(a, src[i + 1]).unwrap();
            let v2 = value_of(a, src[i + 2]).unwrap();
            let v3 = value_of(a, src[i + 3]).unwrap();
            let ghost before = dst@;
            write3(dst, j, (v0 << 2) | (v1 >> 4), ((v1 & 15) << 4) | (v2 >> 2), ((v2 & 3) << 6) | v3);
            assert(dst@.subrange(0, j + 3) =~= before.subrange(0, j as int) + seq![
                (v0 << 2) | (v1 >> 4),
                ((v1 & 15) << 4) | (v2 >> 2),
                ((v2 & 3) << 6) | v3,
            ]);
            assert(dst@.subrange(total as int, cap as int) =~= before.subrange(total as int, cap as int));
            i = i + 4;
            j = j + 3;
        }
        proof {
            lemma_decode_symbols_len(a, body.subrange(i as int, m as int));
        }
        if m - i == 2 {
            proof {
                assert(symbol_value(a, body[i as int]).is_some());
                assert(symbol_value(a, body[i + 1]).is_some());
            }
            let v0 = value_of(a, src[i]).unwrap();
            let v1 = value_of(a, src[i + 1]).unwrap();
            dst[j] = (v0 << 2) | (v1 >> 4);
        } else if m - i == 3 {
            proof {
                assert(symbol_value(a, body[i as int]).is_some());
                assert(symbol_value(a, body[i + 1]).is_some());
                assert(symbol_value(a, body[i + 2]).is_some());
            }
            let v0 = value_of(a, src[i]).unwrap();
            let v1 = value_of(a, src[i + 1]).unwrap();
            let v2 = value_of(a, src[i + 2]).unwrap();
            dst[j] = (v0 << 2) | (v1 >> 4);
            dst[j + 1] = ((v1 & 15) << 4) | (v2 >> 2);
        }
        assert(dst@.subrange(0, total as int) =~= whole);
        assert(dst@.subrange(total as int, cap as int) =~= orig.subrange(total as int, cap as int));
        Ok(total)
    }
}

proof fn lemma_symbol_round_trip(a: Alphabet, v: u8)
    requires
        v < 64,
    ensures
        symbol_value(a, symbol(a, v)) == Some(v),
        symbol(a, v) != pad_byte(),
{
}

proof fn lemma_group_round_trip(b0: u8, b1: u8, b2: u8)
    ensures
        (sextet0(b0) << 2) | (sextet1(b0, b1) >> 4) == b0,
        ((sextet1(b0, b1) & 15) << 4) | (sextet2(b1, b2) >> 2) == b1,
        ((sextet2(b1, b2) & 3) << 6) | sextet3(b2) == b2,
{
    assert(((b0 >> 2) << 2) | ((((b0 & 3) << 4) | (b1 >> 4)) >> 4) == b0) by (bit_vector);
    assert((((((b0 & 3) << 4) | (b1 >> 4)) & 15) << 4) | ((((b1 & 15) << 2) | (b2 >> 6)) >> 2)
        == b1) by (bit_vector);
    assert((((((b1 & 15) << 2) | (b2 >> 6)) & 3) << 6) | (b2 & 63) == b2) by (bit_vector);
}

/// Every byte of an encoding is a symbol of the alphabet, and symbols
/// decode to the bytes they were made from.
proof fn lemma_encode_symbols_decode(a: Alphabet, b: Seq<u8>)
    ensures
        forall|q: int|
            0 <= q < encode_symbols(a, b).len() ==> (#[trigger] symbol_value(
                a,
                encode_symbols(a, b)[q],
            )).is_some() && encode_symbols(a, b)[q] != pad_byte(),
        decode_symbols(a, encode_symbols(a, b)) == b,
    decreases b.len(),
{
    let e = encode_symbols(a, b);
    if b.len() == 0 {
    } else if b.len() == 1 {
        lemma_sextets_small(b[0], 0, 0);
        lemma_group_round_trip(b[0], 0, 0);
        lemma_symbol_round_trip(a, sextet0(b[0]));
        lemma_symbol_round_trip(a, sextet1(b[0], 0));
        assert(decode_symbols(a, e) =~= b);
    } else if b.len() == 2 {
        lemma_sextets_small(b[0], b[1], 0);
        lemma_group_round_trip(b[0], b[1], 0);
        lemma_symbol_round_trip(a, sextet0(b[0]));
        lemma_symbol_round_trip(a, sextet1(b[0], b[1]));
        lemma_symbol_round_trip(a, sextet2(b[1], 0));
        assert(decode_symbols(a, e) =~= b);
    } else {
        let rest = b.subrange(3, b.len() as int);
        lemma_sextets_small(b[0], b[1], b[2]);
        lemma_group_round_trip(b[0], b[1], b[2]);
        lemma_symbol_round_trip(a, sextet0(b[0]));
        lemma_symbol_round_trip(a, sextet1(b[0], b[1]));
        lemma_symbol_round_trip(a, sextet2(b[1], b[2]));
        lemma_symbol_round_trip(a, sextet3(b[2]));
        lemma_encode_symbols_decode(a, rest);
        lemma_encode_symbols_len(a, rest);
        assert(e.subrange(4, e.len() as int) =~= encode_symbols(a, rest));
        assert forall|q: int| 0 <= q < e.len() implies (#[trigger] symbol_value(
            a,
            e[q],
        )).is_some() && e[q] != pad_byte() by {
            if q >= 4 {
                assert(e[q] == encode_symbols(a, rest)[q - 4]);
            }
        }
        assert(decode_symbols(a, e) =~= seq![b[0], b[1], b[2]] + rest);
        assert(seq![b[0], b[1], b[2]] + rest =~= b);
    }
}

/// Symbols followed by padding: the padding is all that counts as trailing.
proof fn lemma_trailing_pads_after_symbols(x: Seq<u8>, p: Seq<u8>)
    requires
        forall|q: int| 0 <= q < x.len() ==> x[q] != pad_byte(),
        p.len() <= 2,
        forall|q: int| 0 <= q < p.len() ==> p[q] == pad_byte(),
    ensures
        trailing_pads(x + p) == p.len(),
{
    if x.len() > 0 {
        assert(x.last() != pad_byte());
    }
    assert(trailing_pads(x) == 0);
    let y = x + seq![pad_byte()];
    assert(y.last() == pad_byte());
    assert(y.drop_last() =~= x);
    assert(trailing_pads(y) == 1);
    if p.len() == 0 {
        assert(x + p =~= x);
    } else if p.len() == 1 {
        assert(x + p =~= y);
    } else {
        assert((x + p).last() == pad_byte());
        assert((x + p).drop_last() =~= y);
        assert(trailing_pads(x + p) == 1 + trailing_pads(y));
    }
}

/// Decoding what was encoded gives back the bytes, under every descriptor.
pub proof fn lemma_base64_round_trip(d: Base64, b: Seq<u8>)
    ensures
        d.decode_outcome(d.encode_spec(b), b.len()) == Ok::<Seq<u8>, CodecError>(b),
{
    let a = d.alphabet;
    let x = encode_symbols(a, b);
    let p = padding_for(d.pads(), b.len());
    let s = d.encode_spec(b);
    lemma_encode_symbols_decode(a, b);
    lemma_encode_symbols_len(a, b);
    assert forall|q: int| 0 <= q < x.len() implies x[q] != pad_byte() by {
        assert(symbol_value(a, x[q]).is_some());
    }
    lemma_trailing_pads_after_symbols(x, p);
    assert(d.body(s) =~= x);
    lemma_symbols_error_none(a, x, 0);
    let n = b.len();
    assert(n == n / 3 * 3 + n % 3);
    assert((n / 3 * 4) % 4 == 0);
    if n % 3 == 1 {
        assert((n / 3 * 4 + 2) % 4 == 2);
        assert((n / 3 * 4 + 4) % 4 == 0);
    } else if n % 3 == 2 {
        assert((n / 3 * 4 + 3) % 4 == 3);
        assert((n / 3 * 4 + 4) % 4 == 0);
    }
}

/// Encoding splits at any multiple of three bytes: the encoding of
/// `b1 + b2` is the unpadded encoding of `b1` followed by the encoding of
/// `b2`, so chunks encoded apart and joined give the same text.
pub proof fn lemma_encode_chunks(d: Base64, b1: Seq<u8>, b2: Seq<u8>)
    requires
        b1.len() % 3 == 0,
    ensures
        d.encode_spec(b1 + b2) == encode_symbols(d.alphabet, b1) + d.encode_spec(b2),
    decreases b1.len(),
{
    let a = d.alphabet;
    if b1.len() == 0 {
        assert(b1 + b2 =~= b2);
        assert(encode_symbols(a, b1) + d.encode_spec(b2) =~= d.encode_spec(b2));
    } else {
        let r1 = b1.subrange(3, b1.len() as int);
        assert((b1 + b2).subrange(3, (b1 + b2).len() as int) =~= r1 + b2);
        lemma_encode_chunks(d, r1, b2);
        assert(encode_symbols(a, b1 + b2) =~= encode_symbols(a, b1).subrange(0, 4) + encode_symbols(
            a,
            r1 + b2,
        ));
        assert(encode_symbols(a, b1) =~= encode_symbols(a, b1).subrange(0, 4) + encode_symbols(
            a,
            r1,
        ));
        assert((b1 + b2).len() == (r1 + b2).len() + 3);
        let p = padding_for(d.pads(), (b1 + b2).len());
        assert(p == padding_for(d.pads(), (r1 + b2).len()));
        let h = encode_symbols(a, b1).subrange(0, 4);
        let tail = encode_symbols(a, r1 + b2);
        assert(d.encode_spec(r1 + b2) == tail + p);
        assert(d.encode_spec(b1 + b2) =~= h + (tail + p));
        assert(h + (encode_symbols(a, r1) + d.encode_spec(b2)) =~= (h + encode_symbols(a, r1))
            + d.encode_spec(b2));
    }
}

/// Decoding splits at any multiple of four symbols: the bytes of `s1 + s2`
/// are the bytes of `s1` followed by those of `s2`.
pub proof fn lemma_decode_chunks(a: Alphabet, s1: Seq<u8>, s2: Seq<u8>)
    requires
        s1.len() % 4 == 0,
    ensures
        decode_symbols(a, s1 + s2) == decode_symbols(a, s1) + decode_symbols(a, s2),
    decreases s1.len(),
{
    if s1.len() == 0 {
        assert(s1 + s2 =~= s2);
        assert(decode_symbols(a, s1) + decode_symbols(a, s2) =~= decode_symbols(a, s2));
    } else {
        let r1 = s1.subrange(4, s1.len() as int);
        assert((s1 + s2).subrange(4, (s1 + s2).len() as int) =~= r1 + s2);
        lemma_decode_chunks(a, r1, s2);
        assert(decode_symbols(a, s1 + s2) =~= decode_symbols(a, s1).subrange(0, 3) + decode_symbols(
            a,
            r1 + s2,
        ));
        assert(decode_symbols(a, s1) =~= decode_symbols(a, s1).subrange(0, 3) + decode_symbols(
            a,
            r1,
        ));
        assert(decode_symbols(a, s1 + s2) =~= decode_symbols(a, s1) + decode_symbols(a, s2));
    }
}

/// Text whose length is one more than a multiple of four is refused with a
/// padding error, whatever the alphabet, policy or buffer.
pub proof fn lemma_wrong_length_refused(d: Base64, s: Seq<u8>, cap: nat)
    requires
        s.len() % 4 == 1,
    ensures
        d.decode_outcome(s, cap) == Err::<Seq<u8>, CodecError>(CodecError::InvalidPadding),
{
}

/// Valid text of `n` bytes decodes to at most `n / 4 * 3 + 2` bytes, and to
/// fewer bytes than it has, unless it is empty.
pub proof fn lemma_decoded_length_bound(d: Base64, s: Seq<u8>)
    requires
        d.decode_error(s).is_none(),
    ensures
        d.decode_spec(s).len() <= s.len() / 4 * 3 + 2,
        s.len() > 0 ==> d.decode_spec(s).len() < s.len(),
{
    let m = d.body(s).len();
    lemma_decode_symbols_len(d.alphabet, d.body(s));
    assert(m <= s.len());
    assert(m / 4 <= s.len() / 4) by (nonlinear_arith)
        requires
            m <= s.len(),
    ;
}

/// The ASCII whitespace that the forgiving decoder skips: space, tab, line
/// feed and carriage return.
pub open spec fn is_skipped_whitespace(c: u8) -> bool {
    c == 0x20 || c == 0x09 || c == 0x0a || c == 0x0d
}

/// `s` without its whitespace.
pub open spec fn strip_whitespace(s: Seq<u8>) -> Seq<u8>
    decreases s.len(),
{
    if s.len() == 0 {
        seq![]
    } else if is_skipped_whitespace(s.last()) {
        strip_whitespace(s.drop_last())
    } else {
        strip_whitespace(s.drop_last()).push(s.last())
    }
}

/// The descriptor that forgiving decoding applies once whitespace is gone:
/// standard alphabet, padding optional.
pub open spec fn forgiving() -> Base64 {
    Base64 { alphabet: Alphabet::Standard, padding: Padding::Optional }
}

/// Decodes Base64 text the forgiving way: whitespace is skipped, padding may
/// be left out, and the standard alphabet applies. Offsets in errors count
/// the bytes that are not whitespace.
pub fn forgiving_decode(src: &[u8], dst: &mut [u8]) -> (r: Result<usize, CodecError>)
    ensures
        final(dst)@.len() == old(dst)@.len(),
        match r {
            Ok(m) => {
                &&& forgiving().decode_outcome(strip_whitespace(src@), old(dst)@.len()) == Ok::<
                    Seq<u8>,
                    CodecError,
                >(final(dst)@.subrange(0, m as int))
                &&& final(dst)@.subrange(m as int, final(dst)@.len() as int) == old(
                    dst,
                )@.subrange(m as int, old(dst)@.len() as int)
            },
            Err(e) => {
                &&& forgiving().decode_outcome(strip_whitespace(src@), old(dst)@.len()) == Err::<
                    Seq<u8>,
                    CodecError,
                >(e)
                &&& final(dst)@ == old(dst)@
            },
        },
{
    let n = src.len();
    let mut text: Vec<u8> = Vec::new();
    let mut i: usize = 0;
    while i < n
        invariant
            n == src@.len(),
            i <= n,
            text@ == strip_whitespace(src@.subrange(0, i as int)),
        decreases n - i,
    {
        let c = src[i];
        assert(src@.subrange(0, i + 1).drop_last() =~= src@.subrange(0, i as int));
        if !(c == 0x20 || c == 0x09 || c == 0x0a || c == 0x0d) {
            text.push(c);
        }
        i = i + 1;
    }
    assert(src@.subrange(0, n as int) =~= src@);
    let d = Base64 { alphabet: Alphabet::Standard, padding: Padding::Optional };
    d.decode(text.as_slice(), dst)
}

} // verus!
