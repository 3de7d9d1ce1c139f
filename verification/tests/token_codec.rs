use nlzss11::LzssCode;

#[test]
pub fn test_roundtrip() {
    let mut buf = Vec::new();
    for len in 3..0x1011 {
        for dist in 1..0xFFF {
            buf.clear();
            LzssCode {
                distance: dist,
                length: len,
            }
            .write(&mut buf);
            let (LzssCode { distance, length }, read_bytes) = LzssCode::read(&buf)
                .ok_or_else(|| format!("dist: {}, len: {}", dist, len))
                .unwrap();
            if !(len == length && dist == distance && read_bytes == buf.len()) {
                panic!("err len: {}, dist: {}", len, dist);
            }
        }
    }
}

fn roundtrip_one(dist: u32, len: u32, expected: &[u8]) {
    let mut buf = Vec::new();
    LzssCode {
        distance: dist,
        length: len,
    }
    .write(&mut buf);
    assert_eq!(buf, expected);
    let (code, advance) = LzssCode::read(&buf).unwrap();
    assert_eq!(code.distance, dist);
    assert_eq!(code.length, len);
    assert_eq!(advance, buf.len());
}

#[test]
fn two_byte_tier_bounds() {
    roundtrip_one(1, 3, &[0x20, 0x00]);
    roundtrip_one(0xFFF, 16, &[0xFF, 0xFE]);
}

#[test]
fn three_byte_tier_bounds() {
    roundtrip_one(1, 17, &[0x00, 0x00, 0x00]);
    roundtrip_one(0xFFF, 272, &[0x0F, 0xFF, 0xFE]);
}

#[test]
fn four_byte_tier_bounds() {
    roundtrip_one(1, 273, &[0x10, 0x00, 0x00, 0x00]);
    roundtrip_one(0xFFF, 0x10110, &[0x1F, 0xFF, 0xFF, 0xFE]);
}

#[test]
fn max_length_token_roundtrip() {
    // lengths above the short-test range, one from each end of the 4-byte tier
    for &(dist, len) in &[(1u32, 0x5000u32), (4095, 0x10110), (2048, 0xFFFF)] {
        let mut buf = Vec::new();
        LzssCode {
            distance: dist,
            length: len,
        }
        .write(&mut buf);
        let (code, advance) = LzssCode::read(&buf).unwrap();
        assert_eq!((code.distance, code.length, advance), (dist, len, buf.len()));
    }
}

#[test]
fn read_rejects_truncated_tokens() {
    // empty and one-byte buffers never hold a token
    assert!(LzssCode::read(&[]).is_none());
    assert!(LzssCode::read(&[0x20]).is_none());
    // three-byte layout announced (top nibble 0) but only two bytes present
    assert!(LzssCode::read(&[0x00, 0x00]).is_none());
    // four-byte layout announced (top nibble 1) but only three bytes present
    assert!(LzssCode::read(&[0x10, 0x00, 0x00]).is_none());
}
