use textcodec::{
    encoding_rs_utf16_to_utf8, std_utf8_to_utf16, utf8_to_utf16, validate_utf16,
    validate_utf8, widestring_utf16_to_utf8, CodecError,
};

const SAMPLES: [&str; 6] = ["", "hello", "\u{feff}marked", "héllo wörld", "火星は太陽系の惑星", "mars 🪐 ∂ 𝄞 x"];

#[test]
fn lone_high_surrogate_fails_then_pair_passes() {
    assert!(!validate_utf16(&[0xD800]));
    assert!(validate_utf16(&[0xD800, 0xDC00]));
    assert!(!validate_utf16(&[0xDC00]));
    assert!(!validate_utf16(&[0xD800, 0x0041]));
    assert!(validate_utf16(&[]));
}

#[test]
fn utf8_validation() {
    assert!(validate_utf8(b""));
    assert!(validate_utf8("héllo 🪐".as_bytes()));
    assert!(!validate_utf8(&[0xC0, 0x80]));
    assert!(!validate_utf8(&[0xED, 0xA0, 0x80]));
    assert!(!validate_utf8(&[0xE2, 0x82]));
    assert!(!validate_utf8(&[0xF4, 0x90, 0x80, 0x80]));
    assert!(!validate_utf8(&[0x80]));
    assert!(validate_utf8(&[0xF4, 0x8F, 0xBF, 0xBF]));
}

#[test]
fn validation_is_repeatable() {
    let b = "mars 🪐".as_bytes();
    assert_eq!(validate_utf8(b), validate_utf8(b));
    let u = [0xD800u16, 0xDC00, 0x41];
    assert_eq!(validate_utf16(&u), validate_utf16(&u));
}

#[test]
fn utf8_to_utf16_matches_std() {
    for s in SAMPLES {
        let expected: Vec<u16> = s.encode_utf16().collect();
        let mut dst = vec![0u16; s.len()];
        let n = utf8_to_utf16(s.as_bytes(), &mut dst).unwrap();
        assert_eq!(&dst[..n], expected.as_slice());
    }
}

#[test]
fn utf16_to_utf8() {
    for content in SAMPLES {
        let utf16: Vec<u16> = content.encode_utf16().collect();
        assert!(validate_utf16(&utf16));
        let mut dst = vec![0u8; utf16.len() * 4];
        let written = textcodec::utf16_to_utf8(&utf16, &mut dst).unwrap();
        assert!(written > 0 || content.is_empty());
        assert!(&dst[..written] == content.as_bytes(), "{content} failed");
    }
}

#[test]
fn utf8_utf16_round_trip() {
    for s in SAMPLES {
        let mut units = vec![0u16; s.len()];
        let n = utf8_to_utf16(s.as_bytes(), &mut units).unwrap();
        let mut bytes = vec![0u8; s.len()];
        let m = textcodec::utf16_to_utf8(&units[..n], &mut bytes).unwrap();
        assert_eq!(&bytes[..m], s.as_bytes());
    }
}

#[test]
fn transcoders_refuse_short_buffers() {
    let mut units = vec![5u16; 1];
    assert_eq!(utf8_to_utf16(b"ab", &mut units), Err(CodecError::BufferTooSmall));
    assert_eq!(units, vec![5u16]);
    let mut bytes = vec![5u8; 3];
    assert_eq!(textcodec::utf16_to_utf8(&[0xD83D, 0xDE00], &mut bytes), Err(CodecError::BufferTooSmall));
    assert_eq!(bytes, vec![5u8; 3]);
    let mut exact = vec![0u8; 4];
    assert_eq!(textcodec::utf16_to_utf8(&[0xD83D, 0xDE00], &mut exact), Ok(4));
    assert_eq!(exact, vec![0xF0, 0x9F, 0x98, 0x80]);
}

#[test]
fn surrogate_pair_to_utf16() {
    let mut dst = vec![0u16; 4];
    assert_eq!(utf8_to_utf16("𝄞".as_bytes(), &mut dst), Ok(2));
    assert_eq!(&dst[..2], &[0xD834, 0xDD1E]);
}

#[test]
fn std_path_writes_all_units() {
    for s in SAMPLES {
        let mut dst = vec![0u16; s.len() * 2];
        let n = std_utf8_to_utf16(s, &mut dst);
        let expected: Vec<u16> = s.encode_utf16().collect();
        assert_eq!(&dst[..n], expected.as_slice());
    }
}

#[test]
fn library_paths_agree() {
    for s in SAMPLES {
        let units: Vec<u16> = s.encode_utf16().collect();
        let mut a = vec![0u8; units.len() * 4];
        let mut b = vec![0u8; units.len() * 4];
        let n = widestring_utf16_to_utf8(&units, &mut a);
        let m = encoding_rs_utf16_to_utf8(&units, &mut b);
        assert_eq!(&a[..n], s.as_bytes());
        assert_eq!(&b[..m], s.as_bytes());
    }
}
