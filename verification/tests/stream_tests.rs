use nlzss11::{compress, decompress, make_hash, DecompressError, Lzss11Writer, MatchSearcher};

fn assert_roundtrip(data: &[u8]) {
    let compressed = compress(data);
    let decompressed = decompress(&compressed).unwrap();
    assert_eq!(decompressed, data);
}

#[test]
fn roundtrip_empty() {
    assert_roundtrip(&[]);
}

#[test]
fn roundtrip_small_inputs() {
    assert_roundtrip(&[0x42]);
    assert_roundtrip(b"hello");
    assert_roundtrip(b"hello world, hello world, hello world");
    assert_roundtrip(&[0x00, 0xFF, 0x00, 0xFF, 0x00, 0xFF]);
}

#[test]
fn roundtrip_overlapping_copy() {
    // ten identical bytes compress to a literal plus a self-overlapping
    // match (distance 1, length 9), which the decoder must expand byte by
    // byte
    let data = b"aaaaaaaaaa";
    let compressed = compress(data);
    assert!(compressed.len() < data.len());
    assert_eq!(decompress(&compressed).unwrap(), data);
}

#[test]
fn roundtrip_larger_mixed_input() {
    let mut data = Vec::new();
    let mut x: u32 = 0x12345678;
    for i in 0..40000u32 {
        // xorshift noise with long runs mixed in, covering every tier
        x ^= x << 13;
        x ^= x >> 17;
        x ^= x << 5;
        if i % 97 < 40 {
            data.push(0xAB);
        } else {
            data.push(x as u8);
        }
    }
    assert_roundtrip(&data);
}

#[test]
fn roundtrip_long_runs_cover_every_tier() {
    // a long run compresses to one literal and one self-overlapping match;
    // the run length picks the match token's tier
    assert_roundtrip(&vec![b'x'; 10]); // 2-byte tier
    assert_roundtrip(&vec![b'y'; 100]); // 3-byte tier
    assert_roundtrip(&vec![b'z'; 2000]); // 4-byte tier
}

#[test]
fn group_boundary_eight_tokens() {
    // eight distinct bytes become eight literal tokens: exactly one full
    // group
    let data = b"abcdefgh";
    let compressed = compress(data);
    let mut expected = vec![0x11, 8, 0, 0, 0x00];
    expected.extend_from_slice(data);
    assert_eq!(compressed, expected);
    assert_eq!(decompress(&compressed).unwrap(), data);
}

#[test]
fn group_boundary_nine_tokens() {
    // nine distinct bytes force a second group header holding a single tag
    let data = b"abcdefghi";
    let compressed = compress(data);
    let mut expected = vec![0x11, 9, 0, 0, 0x00];
    expected.extend_from_slice(b"abcdefgh");
    expected.push(0x00);
    expected.push(b'i');
    assert_eq!(compressed, expected);
    assert_eq!(decompress(&compressed).unwrap(), data);
}

#[test]
fn size_header_escape_boundary() {
    // one byte below the escape threshold: 3-byte little-endian size header
    let mut buf = Vec::new();
    let w = Lzss11Writer::new(&mut buf, 0xFFFFFE);
    let header = w.into_inner();
    assert_eq!(header, vec![0x11, 0xFE, 0xFF, 0xFF, 0x00]);
    // at the threshold: three zero bytes, then the 32-bit escape field
    let mut buf = Vec::new();
    let w = Lzss11Writer::new(&mut buf, 0xFFFFFF);
    let header = w.into_inner();
    assert_eq!(header, vec![0x11, 0, 0, 0, 0xFF, 0xFF, 0xFF, 0x00, 0x00]);
}

#[test]
fn decoder_distinguishes_header_forms() {
    // the same two literals, declared through either size-header form
    let short_form = [0x11, 2, 0, 0, 0x00, 0xAA, 0xBB];
    assert_eq!(decompress(&short_form).unwrap(), vec![0xAA, 0xBB]);
    let escape_form = [0x11, 0, 0, 0, 2, 0, 0, 0, 0x00, 0xAA, 0xBB];
    assert_eq!(decompress(&escape_form).unwrap(), vec![0xAA, 0xBB]);
}

#[test]
fn magic_only_stream_is_too_short() {
    match decompress(&[0x11]) {
        Err(DecompressError::LibraryError(m)) => assert_eq!(m, "Too short"),
        other => panic!("expected the too-short error, got {:?}", other),
    }
}

#[test]
fn wrong_magic_is_rejected() {
    let r = decompress(&[0x12, 1, 0, 0, 0x00, 0xAA]);
    assert!(matches!(r, Err(DecompressError::InvalidMagic)));
}

#[test]
fn escape_header_needs_eight_bytes() {
    let r = decompress(&[0x11, 0, 0, 0, 1, 0]);
    assert!(matches!(r, Err(DecompressError::LibraryError(_))));
}

#[test]
fn distance_beyond_output_is_invalid_index() {
    // a match token asking to copy from before the start of the output
    let r = decompress(&[0x11, 1, 0, 0, 0x80, 0x30, 0x00]);
    assert!(matches!(r, Err(DecompressError::InvalidIndex(0))));
}

#[test]
fn truncated_stream_is_invalid_index() {
    // two bytes declared but the literal bytes are missing
    let r = decompress(&[0x11, 2, 0, 0, 0x00]);
    assert!(matches!(r, Err(DecompressError::InvalidIndex(5))));
}

#[test]
fn truncated_token_reports_buffer_length() {
    // a match token whose second byte is cut off
    let r = decompress(&[0x11, 4, 0, 0, 0x80, 0x30]);
    assert!(matches!(r, Err(DecompressError::InvalidIndex(6))));
}

#[test]
fn match_overrunning_declared_length_is_rejected() {
    // declares 2 bytes, but a literal plus a length-3 match would expand to
    // 4: the decoder must reject the stream, not hand back an oversized
    // buffer
    let r = decompress(&[0x11, 0x02, 0x00, 0x00, 0x40, 0x61, 0x20, 0x00]);
    assert!(matches!(r, Err(DecompressError::InvalidIndex(2))));
}

#[test]
fn decompressed_buffer_has_declared_length() {
    let stream = [0x11, 3, 0, 0, 0x00, 0x61, 0x62, 0x63];
    assert_eq!(decompress(&stream).unwrap().len(), 3);
}

#[test]
fn trailing_padding_is_ignored() {
    let padded = [0x11, 1, 0, 0, 0x00, 0xAA, 0x99, 0x99, 0x99];
    assert_eq!(decompress(&padded).unwrap(), vec![0xAA]);
}

#[test]
fn writer_emits_match_tokens() {
    // three literals then a back-reference (distance 3, length 3)
    let mut buf = Vec::new();
    let mut w = Lzss11Writer::new(&mut buf, 6);
    w.handle_match(0, b'a' as u32);
    w.handle_match(0, b'b' as u32);
    w.handle_match(0, b'c' as u32);
    w.handle_match(3, 3);
    w.finish();
    let stream = w.into_inner();
    assert_eq!(stream, vec![0x11, 6, 0, 0, 0x10, b'a', b'b', b'c', 0x20, 0x02]);
    assert_eq!(decompress(&stream).unwrap(), b"abcabc");
}

#[test]
fn writer_appends_after_existing_bytes() {
    let mut buf = vec![0x7E];
    let mut w = Lzss11Writer::new(&mut buf, 1);
    assert!(buf.is_empty());
    w.handle_match(0, 0x55);
    w.finish();
    let stream = w.into_inner();
    assert_eq!(stream, vec![0x7E, 0x11, 1, 0, 0, 0x00, 0x55]);
    // the stream proper starts after the preexisting byte
    assert_eq!(decompress(&stream[1..]).unwrap(), vec![0x55]);
}

#[test]
fn hash_is_a_table_index() {
    assert!(make_hash([0, 0, 0, 0]) < 0x10000);
    assert!(make_hash([0xFF, 0xFF, 0xFF, 0xFF]) < 0x10000);
    assert_eq!(make_hash([1, 2, 3, 4]), make_hash([1, 2, 3, 4]));
}

#[test]
fn searcher_finds_recorded_match() {
    let data = b"abcdabcd";
    let mut s = MatchSearcher::new();
    for p in 0..4u32 {
        s.submit_val(data, p);
    }
    assert_eq!(s.get_lz_code(data, 4), Some((4, 4)));
}

#[test]
fn searcher_reports_nothing_without_candidates() {
    let data = b"abcdabcd";
    let s = MatchSearcher::new();
    assert_eq!(s.get_lz_code(data, 4), None);
    // fewer than four bytes left: no match possible
    let mut s = MatchSearcher::new();
    s.submit_val(data, 0);
    assert_eq!(s.get_lz_code(data, 6), None);
}
