use dasl::base32;
use dasl::cid::{Cid, CidParseError, Codec, Multihash, MultihashParseError, ParseCodecError};

#[test]
fn test_base_sha2_256() {
    // Sha2 256: "foo"
    let cid_str = "bafkreibme22gw2h7y2h7tg2fhqotaqjucnbc24deqo72b6mkl2egezxhvy";
    let parsed: Cid = Cid::from_str(cid_str).unwrap();
    assert_eq!(parsed.codec(), Codec::Raw);
    assert!(matches!(parsed.multihash_type(), Multihash::Sha2256));

    let cid_str_back = parsed.to_string();
    assert_eq!(cid_str_back, cid_str);
}

#[test]
fn test_base_blake3() {
    // Blake3: "foo"
    let cid_str = "bafkr4iae4c5tt4yldi76xcpvg3etxykqkvec352im5fqbutolj2xo5yc5e";
    let parsed: Cid = Cid::from_str(cid_str).unwrap();
    assert_eq!(parsed.codec(), Codec::Raw);
    assert!(matches!(parsed.multihash_type(), Multihash::Blake3));

    let cid_str_back = parsed.to_string();
    assert_eq!(cid_str_back, cid_str);
}

#[test]
fn test_digest_sha2_256() {
    let cid_str = "bafkreibme22gw2h7y2h7tg2fhqotaqjucnbc24deqo72b6mkl2egezxhvy";
    assert_eq!(Cid::digest_sha2(Codec::Raw, b"foo").to_string(), cid_str);
}

#[test]
fn test_digest_blake3() {
    let cid_str = "bafkr4iae4c5tt4yldi76xcpvg3etxykqkvec352im5fqbutolj2xo5yc5e";
    assert_eq!(Cid::digest_blake3(Codec::Raw, b"foo").to_string(), cid_str);
}

#[test]
fn digest_sha2_layout_and_hash() {
    let cid = Cid::digest_sha2(Codec::Drisl, b"foo");
    let bytes = cid.as_bytes();
    assert_eq!(bytes.len(), 36);
    assert_eq!(&bytes[..4], &[0x01, 0x71, 0x12, 0x20]);
    // SHA2-256("foo")
    assert_eq!(
        cid.hash(),
        &[
            0x2c, 0x26, 0xb4, 0x6b, 0x68, 0xff, 0xc6, 0x8f, 0xf9, 0x9b, 0x45, 0x3c, 0x1d, 0x30,
            0x41, 0x34, 0x13, 0x42, 0x2d, 0x70, 0x64, 0x83, 0xbf, 0xa0, 0xf9, 0x8a, 0x5e, 0x88,
            0x62, 0x66, 0xe7, 0xae
        ]
    );
    assert_eq!(cid.codec(), Codec::Drisl);
    assert_eq!(cid.multihash_type(), Multihash::Sha2256);
}

#[test]
fn digest_differs_by_input() {
    let a = Cid::digest_blake3(Codec::Raw, b"foo");
    let b = Cid::digest_blake3(Codec::Raw, b"bar");
    assert_ne!(a.hash(), b.hash());
    let c = Cid::digest_sha2(Codec::Raw, b"bar");
    assert_ne!(a.hash(), c.hash());
}

#[test]
fn empty_cids() {
    let s = Cid::empty_sha2_256(Codec::Drisl);
    assert_eq!(s.as_bytes(), &[0x01, 0x71, 0x12, 0x00]);
    assert_eq!(s.hash(), &[] as &[u8]);
    assert_eq!(s.codec(), Codec::Drisl);
    assert_eq!(s.multihash_type(), Multihash::Sha2256);
    let b = Cid::empty_blake3(Codec::Raw);
    assert_eq!(b.as_bytes(), &[0x01, 0x55, 0x1e, 0x00]);
    assert_eq!(b.multihash_type(), Multihash::Blake3);
    // text round trip of an empty CID
    let text = b.to_string();
    assert_eq!(text, "bafkr4aa");
    assert_eq!(Cid::from_str(&text).unwrap(), b);
}

#[test]
fn from_bytes_raw_roundtrip() {
    let cid = Cid::digest_sha2(Codec::Raw, b"hello");
    let again = Cid::from_bytes_raw(cid.as_bytes()).unwrap();
    assert_eq!(again, cid);
    let mut framed = vec![0u8];
    framed.extend_from_slice(cid.as_bytes());
    assert_eq!(Cid::from_bytes(&framed).unwrap(), cid);
}

#[test]
fn from_bytes_raw_errors() {
    assert_eq!(Cid::from_bytes_raw(&[1, 0x55]), Err(CidParseError::TooShort));
    assert_eq!(
        Cid::from_bytes_raw(&[0u8; 37]),
        Err(CidParseError::InvalidMultihash(MultihashParseError::InvalidLength(37)))
    );
    assert_eq!(
        Cid::from_bytes_raw(&[2, 0x55, 0x12, 0]),
        Err(CidParseError::InvalidCidVersion(2))
    );
    assert_eq!(
        Cid::from_bytes_raw(&[1, 0x56, 0x12, 0]),
        Err(CidParseError::InvalidCodec(ParseCodecError::UnknownCodec(0x56)))
    );
    assert_eq!(
        Cid::from_bytes_raw(&[1, 0x55, 0x13, 0]),
        Err(CidParseError::InvalidMultihash(MultihashParseError::UnknownHash(0x13)))
    );
    assert_eq!(
        Cid::from_bytes_raw(&[1, 0x55, 0x12, 0, 0]),
        Err(CidParseError::InvalidMultihash(MultihashParseError::InvalidLength(5)))
    );
    assert_eq!(
        Cid::from_bytes_raw(&[1, 0x55, 0x12, 32, 0]),
        Err(CidParseError::InvalidMultihash(MultihashParseError::InvalidLength(5)))
    );
    assert_eq!(
        Cid::from_bytes_raw(&[1, 0x55, 0x12, 7]),
        Err(CidParseError::InvalidMultihash(MultihashParseError::InvalidLengthPrefix))
    );
}

#[test]
fn from_bytes_errors() {
    assert_eq!(Cid::from_bytes(&[]), Err(CidParseError::TooShort));
    assert_eq!(Cid::from_bytes(&[1, 1, 0x55, 0x12, 0]), Err(CidParseError::InvalidEncoding));
    let ok = Cid::from_bytes(&[0, 1, 0x55, 0x12, 0]).unwrap();
    assert_eq!(ok.as_bytes(), &[1, 0x55, 0x12, 0]);
}

#[test]
fn from_str_errors() {
    assert_eq!(Cid::from_str(""), Err(CidParseError::InvalidEncoding));
    assert_eq!(Cid::from_str("zabc"), Err(CidParseError::InvalidEncoding));
    // not base32 (upper case, padding, bad length)
    assert_eq!(Cid::from_str("bAFKR4AA"), Err(CidParseError::InvalidEncoding));
    assert_eq!(Cid::from_str("bafkr4aa="), Err(CidParseError::InvalidEncoding));
    assert_eq!(Cid::from_str("bae"), Err(CidParseError::TooShort));
    // non-canonical trailing bits
    assert_eq!(Cid::from_str("bafkr4ab"), Err(CidParseError::InvalidEncoding));
}

#[test]
fn codec_and_multihash_codes() {
    assert_eq!(Codec::Raw.code(), 0x55);
    assert_eq!(Codec::Drisl.code(), 0x71);
    assert_eq!(Codec::from_code(0x71), Ok(Codec::Drisl));
    assert_eq!(Codec::from_code(0x00), Err(ParseCodecError::UnknownCodec(0)));
    assert_eq!(Multihash::Blake3.code(), 0x1e);
    assert_eq!(Multihash::from_code(0x12), Ok(Multihash::Sha2256));
    assert_eq!(Multihash::from_code(0x11), Err(MultihashParseError::UnknownHash(0x11)));
}

#[test]
fn base32_vectors() {
    // RFC 4648 test vectors, lower case, without padding
    let cases: [(&[u8], &str); 7] = [
        (b"", ""),
        (b"f", "my"),
        (b"fo", "mzxq"),
        (b"foo", "mzxw6"),
        (b"foob", "mzxw6yq"),
        (b"fooba", "mzxw6ytb"),
        (b"foobar", "mzxw6ytboi"),
    ];
    for (raw, text) in cases {
        assert_eq!(base32::encode(raw), text.as_bytes());
        assert_eq!(base32::decode(text.as_bytes()).unwrap(), raw);
    }
}

#[test]
fn base32_rejects() {
    assert_eq!(base32::decode(b"m"), None);
    assert_eq!(base32::decode(b"mzx"), None);
    assert_eq!(base32::decode(b"mzxw6y"), None);
    assert_eq!(base32::decode(b"mz"), None); // trailing bits set
    assert_eq!(base32::decode(b"MY"), None);
    assert_eq!(base32::decode(b"m1"), None);
}

#[test]
fn with_digest_layout() {
    let digest = [7u8; 32];
    let cid = Cid::with_digest(Codec::Drisl, Multihash::Blake3, &digest);
    assert_eq!(&cid.as_bytes()[..4], &[0x01, 0x71, 0x1e, 0x20]);
    assert_eq!(cid.hash(), &digest[..]);
    assert_eq!(Cid::digest_blake3(Codec::Raw, b"foo").as_bytes().len(), 36);
}

#[test]
fn text_form_roundtrip() {
    for cid in [
        Cid::digest_sha2(Codec::Drisl, b"text"),
        Cid::digest_blake3(Codec::Raw, b""),
        Cid::empty_sha2_256(Codec::Raw),
    ] {
        let text = cid.to_string();
        assert!(text.starts_with('b'));
        assert_eq!(Cid::from_str(&text).unwrap(), cid);
        assert_eq!(Cid::from_str(&text).unwrap().to_string(), text);
    }
}

#[test]
fn valid_prefix_without_length_is_too_short() {
    assert_eq!(Cid::from_bytes_raw(&[1, 0x55, 0x12]), Err(CidParseError::TooShort));
    assert_eq!(Cid::from_bytes(&[0, 1, 0x71, 0x1e]), Err(CidParseError::TooShort));
    // "b" + base32 of [1, 0x55, 0x12]
    let text = format!("b{}", String::from_utf8(base32::encode(&[1, 0x55, 0x12])).unwrap());
    assert_eq!(Cid::from_str(&text), Err(CidParseError::TooShort));
}

#[test]
fn binary_form_roundtrip() {
    let cid = Cid::digest_sha2(Codec::Drisl, b"bin");
    let bytes = cid.to_bytes();
    assert_eq!(bytes[0], 0);
    assert_eq!(&bytes[1..], cid.as_bytes());
    assert_eq!(Cid::from_bytes(&bytes).unwrap(), cid);
}
