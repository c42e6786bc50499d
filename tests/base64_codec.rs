use textcodec::{forgiving_decode, Alphabet, Base64, CodecError, Padding};

fn encode_vec(d: &Base64, src: &[u8]) -> Vec<u8> {
    let mut dst = vec![0u8; d.encoded_length(src.len())];
    let n = d.encode(src, &mut dst).unwrap();
    dst.truncate(n);
    dst
}

fn decode_vec(d: &Base64, src: &[u8]) -> Result<Vec<u8>, CodecError> {
    let mut dst = vec![0u8; d.estimated_decoded_length(src.len())];
    let n = d.decode(src, &mut dst)?;
    dst.truncate(n);
    Ok(dst)
}

#[test]
fn encode_foo_standard() {
    let d = Base64::standard();
    assert_eq!(encode_vec(&d, &[0x66, 0x6f, 0x6f]), b"Zm9v".to_vec());
}

#[test]
fn encode_empty_is_empty() {
    let d = Base64::standard();
    assert_eq!(d.encoded_length(0), 0);
    let mut dst: Vec<u8> = Vec::new();
    assert_eq!(d.encode(&[], &mut dst), Ok(0));
}

#[test]
fn decode_empty_is_empty() {
    let d = Base64::standard();
    assert_eq!(decode_vec(&d, b""), Ok(Vec::new()));
    let mut dst: Vec<u8> = Vec::new();
    assert_eq!(forgiving_decode(b"", &mut dst), Ok(0));
}

#[test]
fn rfc4648_vectors() {
    let d = Base64::standard();
    let cases: [(&[u8], &[u8]); 7] = [
        (b"", b""),
        (b"f", b"Zg=="),
        (b"fo", b"Zm8="),
        (b"foo", b"Zm9v"),
        (b"foob", b"Zm9vYg=="),
        (b"fooba", b"Zm9vYmE="),
        (b"foobar", b"Zm9vYmFy"),
    ];
    for (plain, text) in cases {
        assert_eq!(encode_vec(&d, plain), text.to_vec());
        assert_eq!(decode_vec(&d, text), Ok(plain.to_vec()));
    }
}

#[test]
fn unpadded_encoding() {
    let d = Base64 { alphabet: Alphabet::Standard, padding: Padding::Forbidden };
    assert_eq!(encode_vec(&d, b"f"), b"Zg".to_vec());
    assert_eq!(encode_vec(&d, b"fo"), b"Zm8".to_vec());
    assert_eq!(decode_vec(&d, b"Zm8"), Ok(b"fo".to_vec()));
    assert_eq!(decode_vec(&d, b"Zm8="), Err(CodecError::InvalidPadding));
}

#[test]
fn encoded_length_formulas() {
    let padded = Base64::standard();
    let bare = Base64 { alphabet: Alphabet::Standard, padding: Padding::Forbidden };
    assert_eq!(padded.encoded_length(1), 4);
    assert_eq!(padded.encoded_length(5), 8);
    assert_eq!(padded.encoded_length(6), 8);
    assert_eq!(bare.encoded_length(1), 2);
    assert_eq!(bare.encoded_length(2), 3);
    assert_eq!(bare.encoded_length(4), 6);
    assert_eq!(padded.estimated_decoded_length(8), 8);
    assert_eq!(padded.estimated_decoded_length(0), 2);
}

#[test]
fn encoded_length_matches_written() {
    for pad in [Padding::Required, Padding::Optional, Padding::Forbidden] {
        let d = Base64 { alphabet: Alphabet::UrlSafe, padding: pad };
        for n in 0..20usize {
            let src: Vec<u8> = (0..n).map(|i| (i * 37 + 11) as u8).collect();
            assert_eq!(encode_vec(&d, &src).len(), d.encoded_length(n));
        }
    }
}

#[test]
fn round_trip_all_descriptors() {
    for alphabet in [Alphabet::Standard, Alphabet::UrlSafe] {
        for padding in [Padding::Required, Padding::Optional, Padding::Forbidden] {
            let d = Base64 { alphabet, padding };
            for n in 0..40usize {
                let src: Vec<u8> = (0..n).map(|i| (i * 97 + 200) as u8).collect();
                let text = encode_vec(&d, &src);
                assert_eq!(decode_vec(&d, &text), Ok(src));
            }
        }
    }
}

#[test]
fn url_safe_alphabet() {
    let d = Base64::url_safe();
    assert_eq!(encode_vec(&d, &[0xfb, 0xff]), b"-_8=".to_vec());
    assert_eq!(encode_vec(&Base64::standard(), &[0xfb, 0xff]), b"+/8=".to_vec());
    assert_eq!(decode_vec(&d, b"+/8="), Err(CodecError::InvalidCharacter(0)));
}

#[test]
fn wrong_length_is_padding_error() {
    for alphabet in [Alphabet::Standard, Alphabet::UrlSafe] {
        for padding in [Padding::Required, Padding::Optional, Padding::Forbidden] {
            let d = Base64 { alphabet, padding };
            assert_eq!(decode_vec(&d, b"Z"), Err(CodecError::InvalidPadding));
            assert_eq!(decode_vec(&d, b"Zm9vY"), Err(CodecError::InvalidPadding));
            assert_eq!(decode_vec(&d, b"!!!!!"), Err(CodecError::InvalidPadding));
        }
    }
    let mut dst = vec![0u8; 8];
    assert_eq!(forgiving_decode(b"Zm9 vY", &mut dst), Err(CodecError::InvalidPadding));
}

#[test]
fn invalid_character_offset() {
    let d = Base64::standard();
    assert_eq!(decode_vec(&d, b"Zm!v"), Err(CodecError::InvalidCharacter(2)));
    assert!(!d.check(b"Zm!v"));
    assert!(d.check(b"Zm9vYg=="));
}

#[test]
fn padding_errors() {
    let d = Base64::standard();
    assert_eq!(decode_vec(&d, b"Zm9"), Err(CodecError::InvalidPadding));
    assert_eq!(decode_vec(&d, b"Z==="), Err(CodecError::InvalidPadding));
    assert_eq!(decode_vec(&d, b"Zm=v"), Err(CodecError::InvalidPadding));
    let opt = Base64 { alphabet: Alphabet::Standard, padding: Padding::Optional };
    assert_eq!(decode_vec(&opt, b"Zm9"), Ok(b"fo".to_vec()));
    assert_eq!(decode_vec(&opt, b"Zm8="), Ok(b"fo".to_vec()));
    assert_eq!(decode_vec(&opt, b"Zg="), Err(CodecError::InvalidPadding));
}

#[test]
fn buffer_too_small_writes_nothing() {
    let d = Base64::standard();
    let mut dst = vec![7u8; 3];
    assert_eq!(d.encode(b"foo", &mut dst), Err(CodecError::BufferTooSmall));
    assert_eq!(dst, vec![7u8; 3]);
    let mut out = vec![7u8; 2];
    assert_eq!(d.decode(b"Zm9v", &mut out), Err(CodecError::BufferTooSmall));
    assert_eq!(out, vec![7u8; 2]);
}

#[test]
fn decode_leaves_tail_alone() {
    let d = Base64::standard();
    let mut dst = vec![9u8; 6];
    assert_eq!(d.decode(b"Zm8=", &mut dst), Ok(2));
    assert_eq!(dst, vec![b'f', b'o', 9, 9, 9, 9]);
}

#[test]
fn forgiving_accepts_unpadded() {
    let mut a = vec![0u8; 8];
    let n = forgiving_decode(b"Zm9v", &mut a).unwrap();
    let mut b = vec![0u8; 8];
    let m = Base64::standard().decode(b"Zm9v", &mut b).unwrap();
    assert_eq!(&a[..n], b"foo");
    assert_eq!(&a[..n], &b[..m]);
    let mut c = vec![0u8; 8];
    let k = forgiving_decode(b"Zm8", &mut c).unwrap();
    assert_eq!(&c[..k], b"fo");
}

#[test]
fn forgiving_skips_whitespace() {
    let mut dst = vec![0u8; 16];
    let n = forgiving_decode(b" Zm9v\nYmFy\r\n\tYg ==", &mut dst).unwrap();
    assert_eq!(&dst[..n], b"foobarb");
    assert_eq!(forgiving_decode(b"Zm9v-A==", &mut dst), Err(CodecError::InvalidCharacter(4)));
}

#[test]
fn chunked_encode_and_decode_match_whole() {
    let d = Base64::standard();
    for n in [0usize, 1, 2, 3, 7, 8, 9, 31, 100] {
        let src: Vec<u8> = (0..n).map(|i| (i * 13 + 5) as u8).collect();
        let whole = encode_vec(&d, &src);
        let mut joined = Vec::new();
        for chunk in src.chunks(6) {
            joined.extend(encode_vec(&d, chunk));
        }
        assert_eq!(joined, whole);
        let mut bytes = Vec::new();
        for chunk in whole.chunks(8) {
            bytes.extend(decode_vec(&d, chunk).unwrap());
        }
        assert_eq!(bytes, src);
    }
}
