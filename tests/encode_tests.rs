use apkdoctor::decode::{
    decode_i16, decode_i32, decode_nbytes_as_f32, decode_nbytes_as_f64, decode_nbytes_signed,
    decode_nbytes_unsigned, decode_sleb128, decode_u16, decode_u32, decode_u64, decode_uleb128,
    decode_uleb128p1,
};
use apkdoctor::encode::{
    encode_i16, encode_i32, encode_nbytes, encode_nbytes_for_double, encode_nbytes_for_float,
    encode_sleb128, encode_u16, encode_u32, encode_u64, encode_uleb128, encode_uleb128p1,
    size_sleb128, size_uleb128, size_uleb128p1,
};
use apkdoctor::DeserializeError;

#[test]
fn test1() {
    let mut out = vec![];
    encode_sleb128(&mut out, 1);
    let (sleb, _) = decode_sleb128(&out, 0).unwrap();
    assert_eq!(sleb, 1);
}

#[test]
fn test11016() {
    let mut out = vec![];
    assert_eq!(size_uleb128(11016), 2);
    encode_uleb128(&mut out, 11016);
    let (leb, end) = decode_uleb128(&out, 0).unwrap();
    assert_eq!(leb, 11016);
    assert_eq!(end, 2);
}

#[test]
fn uleb128_known_encodings() {
    let cases: Vec<(u32, Vec<u8>)> = vec![
        (0, vec![0x00]),
        (1, vec![0x01]),
        (127, vec![0x7f]),
        (128, vec![0x80, 0x01]),
        (16256, vec![0x80, 0x7f]),
        (11016, vec![0x88, 0x56]),
        (0xffff_ffff, vec![0xff, 0xff, 0xff, 0xff, 0x0f]),
    ];
    for (v, bytes) in cases {
        let mut out = vec![];
        encode_uleb128(&mut out, v);
        assert_eq!(out, bytes);
        assert_eq!(size_uleb128(v), bytes.len());
        assert_eq!(decode_uleb128(&bytes, 0), Ok((v, bytes.len())));
    }
}

#[test]
fn sleb128_known_encodings() {
    let cases: Vec<(i32, Vec<u8>)> = vec![
        (0, vec![0x00]),
        (1, vec![0x01]),
        (-1, vec![0x7f]),
        (-128, vec![0x80, 0x7f]),
        (63, vec![0x3f]),
        (64, vec![0xc0, 0x00]),
        (-64, vec![0x40]),
        (-65, vec![0xbf, 0x7f]),
        (i32::MAX, vec![0xff, 0xff, 0xff, 0xff, 0x07]),
        (i32::MIN, vec![0x80, 0x80, 0x80, 0x80, 0x78]),
    ];
    for (v, bytes) in cases {
        let mut out = vec![];
        encode_sleb128(&mut out, v);
        assert_eq!(out, bytes, "encoding {}", v);
        assert_eq!(size_sleb128(v), bytes.len());
        assert_eq!(decode_sleb128(&bytes, 0), Ok((v, bytes.len())));
    }
}

#[test]
fn uleb128p1_known_encodings() {
    let mut out = vec![];
    encode_uleb128p1(&mut out, -1);
    encode_uleb128p1(&mut out, 0);
    encode_uleb128p1(&mut out, 127);
    assert_eq!(out, vec![0x00, 0x01, 0x80, 0x01]);
    assert_eq!(size_uleb128p1(-1), 1);
    assert_eq!(size_uleb128p1(127), 2);
    assert_eq!(decode_uleb128p1(&out, 0), Ok((-1, 1)));
    assert_eq!(decode_uleb128p1(&out, 1), Ok((0, 2)));
    assert_eq!(decode_uleb128p1(&out, 2), Ok((127, 4)));
}

#[test]
fn leb128_round_trips_over_a_range() {
    let mut v: u32 = 0;
    while v < 0x0100_0000 {
        let mut out = vec![];
        encode_uleb128(&mut out, v);
        out.push(0xaa);
        assert_eq!(decode_uleb128(&out, 0), Ok((v, out.len() - 1)));
        let s = (v as i32).wrapping_sub(0x0080_0000);
        let mut out = vec![];
        encode_sleb128(&mut out, s);
        assert_eq!(decode_sleb128(&out, 0), Ok((s, out.len())));
        v += 997;
    }
}

#[test]
fn leb128_rejects_malformed_input() {
    // A redundant trailing zero group.
    assert_eq!(decode_uleb128(&[0x80, 0x00], 0), Err(DeserializeError::FormatError));
    // Longer than five bytes.
    assert_eq!(
        decode_uleb128(&[0x80, 0x80, 0x80, 0x80, 0x80, 0x01], 0),
        Err(DeserializeError::FormatError)
    );
    // Beyond 32 bits.
    assert_eq!(decode_uleb128(&[0xff, 0xff, 0xff, 0xff, 0x1f], 0), Err(DeserializeError::FormatError));
    // Input ends inside the value.
    assert_eq!(decode_uleb128(&[0x80, 0x80], 0), Err(DeserializeError::IoError));
    assert_eq!(decode_uleb128(&[], 0), Err(DeserializeError::IoError));
    // Redundant sign groups.
    assert_eq!(decode_sleb128(&[0x80, 0x00], 0), Err(DeserializeError::FormatError));
    assert_eq!(decode_sleb128(&[0xff, 0x7f], 0), Err(DeserializeError::FormatError));
    // A ULEB128p1 value past the signed 32-bit range.
    assert_eq!(
        decode_uleb128p1(&[0xff, 0xff, 0xff, 0xff, 0x0f], 0),
        Err(DeserializeError::FormatError)
    );
}

#[test]
fn fixed_width_little_endian() {
    let mut out = vec![];
    encode_u16(&mut out, 0x1234);
    encode_u32(&mut out, 0xdead_beef);
    encode_u64(&mut out, 0x0102_0304_0506_0708);
    encode_i16(&mut out, -2);
    encode_i32(&mut out, -1);
    assert_eq!(
        out,
        vec![
            0x34, 0x12, 0xef, 0xbe, 0xad, 0xde, 0x08, 0x07, 0x06, 0x05, 0x04, 0x03, 0x02, 0x01,
            0xfe, 0xff, 0xff, 0xff, 0xff, 0xff
        ]
    );
    assert_eq!(decode_u16(&out, 0), Ok((0x1234, 2)));
    assert_eq!(decode_u32(&out, 2), Ok((0xdead_beef, 6)));
    assert_eq!(decode_u64(&out, 6), Ok((0x0102_0304_0506_0708, 14)));
    assert_eq!(decode_i16(&out, 14), Ok((-2, 16)));
    assert_eq!(decode_i32(&out, 16), Ok((-1, 20)));
    assert_eq!(decode_u32(&out, 17), Err(DeserializeError::IoError));
}

#[test]
fn nbytes_sign_and_zero_extension() {
    assert_eq!(decode_nbytes_signed(&[0xff], 0, 1), Ok((-1, 1)));
    assert_eq!(decode_nbytes_signed(&[0x80, 0x00], 0, 2), Ok((128, 2)));
    assert_eq!(decode_nbytes_signed(&[0x00, 0x80], 0, 2), Ok((-32768, 2)));
    assert_eq!(decode_nbytes_signed(&[0xef, 0x00], 0, 2), Ok((239, 2)));
    assert_eq!(decode_nbytes_signed(&[0xff; 8], 0, 8), Ok((-1, 8)));
    assert_eq!(decode_nbytes_unsigned(&[0xff, 0xff, 0x01], 0, 3), Ok((0x1ffff, 3)));
    let mut out = vec![];
    encode_nbytes(&mut out, 3, 0xaabb_ccdd);
    assert_eq!(out, vec![0xdd, 0xcc, 0xbb]);
}

#[test]
fn nbytes_float_right_padding() {
    let bits = 1.0f32.to_bits();
    let mut out = vec![];
    encode_nbytes_for_float(&mut out, 2, bits);
    assert_eq!(out, vec![0x80, 0x3f]);
    let (read, end) = decode_nbytes_as_f32(&out, 0, 2).unwrap();
    assert_eq!(f32::from_bits(read), 1.0);
    assert_eq!(end, 2);

    let bits = 2.0f64.to_bits();
    let mut out = vec![];
    encode_nbytes_for_double(&mut out, 1, bits);
    assert_eq!(out, vec![0x40]);
    let (read, _) = decode_nbytes_as_f64(&out, 0, 1).unwrap();
    assert_eq!(f64::from_bits(read), 2.0);
}
