use qoi::{decode, encode, Image, ParseError, Pixel, PixelIter};

fn header(width: u32, height: u32, channels: u8, colorspace: u8) -> Vec<u8> {
    let mut h = vec![0x71, 0x6F, 0x69, 0x66];
    h.extend_from_slice(&width.to_be_bytes());
    h.extend_from_slice(&height.to_be_bytes());
    h.push(channels);
    h.push(colorspace);
    h
}

const END: [u8; 8] = [0, 0, 0, 0, 0, 0, 0, 1];

fn stream(width: u32, height: u32, channels: u8, ops: &[u8]) -> Vec<u8> {
    let mut s = header(width, height, channels, 0);
    s.extend_from_slice(ops);
    s.extend_from_slice(&END);
    s
}

#[test]
fn two_identical_pixels_encode_to_literal_and_run() {
    let img = Image { width: 2, height: 1, channels: 3, colorspace: 0, data: vec![10, 20, 30, 10, 20, 30] };
    let bytes = encode(&img);
    assert_eq!(bytes, stream(2, 1, 3, &[0xFE, 10, 20, 30, 0xC0]));
    let back = decode(&bytes).unwrap();
    assert_eq!(back.width, 2);
    assert_eq!(back.height, 1);
    assert_eq!(back.channels, 3);
    assert_eq!(back.colorspace, 0);
    assert_eq!(back.data, vec![10, 20, 30, 10, 20, 30]);
}

#[test]
fn alpha_change_forces_rgba_literal() {
    let img = Image { width: 1, height: 1, channels: 4, colorspace: 0, data: vec![1, 2, 3, 4] };
    let bytes = encode(&img);
    assert_eq!(bytes, stream(1, 1, 4, &[0xFF, 1, 2, 3, 4]));
    let back = decode(&bytes).unwrap();
    assert_eq!(back.data, vec![1, 2, 3, 4]);
}

#[test]
fn sixty_three_repeats_split_into_two_runs() {
    let img = Image { width: 63, height: 1, channels: 4, colorspace: 0, data: [0, 0, 0, 255].repeat(63) };
    let bytes = encode(&img);
    assert_eq!(bytes, stream(63, 1, 4, &[0xFD, 0xC0]));
    let back = decode(&bytes).unwrap();
    assert_eq!(back.data, [0, 0, 0, 255].repeat(63));
}

#[test]
fn small_delta_uses_one_diff_byte() {
    let img = Image { width: 1, height: 1, channels: 4, colorspace: 0, data: vec![1, 1, 1, 255] };
    let bytes = encode(&img);
    assert_eq!(bytes, stream(1, 1, 4, &[0x7F]));
    let back = decode(&bytes).unwrap();
    assert_eq!(back.data, vec![1, 1, 1, 255]);
}

#[test]
fn luma_delta_uses_two_bytes() {
    let img = Image { width: 1, height: 1, channels: 4, colorspace: 0, data: vec![12, 10, 8, 255] };
    let bytes = encode(&img);
    assert_eq!(bytes, stream(1, 1, 4, &[0xAA, 0xA6]));
    let back = decode(&bytes).unwrap();
    assert_eq!(back.data, vec![12, 10, 8, 255]);
}

#[test]
fn repeated_pixel_hits_the_cache() {
    let data = vec![10, 20, 30, 200, 100, 50, 10, 20, 30];
    let img = Image { width: 3, height: 1, channels: 3, colorspace: 0, data: data.clone() };
    let bytes = encode(&img);
    assert_eq!(bytes, stream(3, 1, 3, &[0xFE, 10, 20, 30, 0xFE, 200, 100, 50, 0x09]));
    let back = decode(&bytes).unwrap();
    assert_eq!(back.data, data);
}

#[test]
fn rgb_literal_keeps_previous_alpha() {
    let img = Image { width: 2, height: 1, channels: 4, colorspace: 0, data: vec![1, 2, 3, 4, 100, 2, 3, 4] };
    let bytes = encode(&img);
    assert_eq!(bytes, stream(2, 1, 4, &[0xFF, 1, 2, 3, 4, 0xFE, 100, 2, 3]));
    let back = decode(&bytes).unwrap();
    assert_eq!(back.data, vec![1, 2, 3, 4, 100, 2, 3, 4]);
}

#[test]
fn empty_image_round_trips() {
    let img = Image { width: 0, height: 0, channels: 3, colorspace: 1, data: vec![] };
    let bytes = encode(&img);
    let mut expected = header(0, 0, 3, 1);
    expected.extend_from_slice(&END);
    assert_eq!(bytes, expected);
    let back = decode(&bytes).unwrap();
    assert_eq!(back.colorspace, 1);
    assert!(back.data.is_empty());
}

#[test]
fn mixed_opcodes_round_trip() {
    let mut data: Vec<u8> = Vec::new();
    for _ in 0..3 {
        data.extend_from_slice(&[0, 0, 0, 255]);
    }
    data.extend_from_slice(&[1, 1, 1, 255]);
    data.extend_from_slice(&[12, 11, 9, 255]);
    data.extend_from_slice(&[200, 0, 0, 7]);
    data.extend_from_slice(&[1, 1, 1, 255]);
    let img = Image { width: 7, height: 1, channels: 4, colorspace: 0, data: data.clone() };
    let bytes = encode(&img);
    let back = decode(&bytes).unwrap();
    assert_eq!(back.data, data);
    assert_eq!(encode(&back), bytes);
}

#[test]
fn wrong_magic_is_rejected() {
    let mut bad = stream(0, 0, 3, &[]);
    bad[0] = 0x61;
    assert!(matches!(decode(&bad), Err(ParseError::InvalidMagic)));
}

#[test]
fn short_buffer_is_truncated() {
    assert!(matches!(decode(&[]), Err(ParseError::TruncatedFile)));
    assert!(matches!(decode(&[0x71, 0x6F, 0x69, 0x66, 0, 0]), Err(ParseError::TruncatedFile)));
    let thirteen = vec![0x71, 0x6F, 0x69, 0x66, 0, 0, 0, 1, 0, 0, 0, 1, 4];
    assert!(matches!(decode(&thirteen), Err(ParseError::TruncatedFile)));
}

#[test]
fn missing_end_marker_is_truncated() {
    let mut s = header(0, 0, 3, 0);
    s.extend_from_slice(&[0, 0, 0, 0, 0, 0, 0, 0]);
    assert!(matches!(decode(&s), Err(ParseError::TruncatedFile)));
}

#[test]
fn truncated_opcode_is_rejected() {
    let s = stream(1, 1, 4, &[0xFF, 1, 2]);
    assert!(matches!(decode(&s), Err(ParseError::TruncatedFile)));
    let t = stream(1, 1, 4, &[0xFE, 7]);
    assert!(matches!(decode(&t), Err(ParseError::TruncatedFile)));
    let u = stream(1, 1, 4, &[0x85]);
    assert!(matches!(decode(&u), Err(ParseError::TruncatedFile)));
}

#[test]
fn decoder_errors_match_check_order() {
    let mut s = stream(0, 0, 3, &[]);
    s[0] = 0x62;
    s[21] = 0;
    assert!(matches!(decode(&s), Err(ParseError::InvalidMagic)));
}

#[test]
fn pixel_iterator_yields_decoded_pixels() {
    let ops = [0x7F, 0xC1];
    let mut it = PixelIter::new(&ops);
    assert_eq!(it.next(), Some(Pixel { r: 1, g: 1, b: 1, a: 255 }));
    assert_eq!(it.next(), Some(Pixel { r: 1, g: 1, b: 1, a: 255 }));
    assert_eq!(it.next(), Some(Pixel { r: 1, g: 1, b: 1, a: 255 }));
    assert_eq!(it.next(), None);
}

#[test]
fn run_opcode_sets_the_pending_counter() {
    let ops = [0xC3];
    let mut it = PixelIter::new(&ops);
    assert_eq!(it.next(), Some(Pixel { r: 0, g: 0, b: 0, a: 255 }));
    assert_eq!(it.run_length, 3);
    assert!(it.data.is_empty());
    assert_eq!(it.next(), Some(Pixel { r: 0, g: 0, b: 0, a: 255 }));
    assert_eq!(it.run_length, 2);
}

#[test]
fn truncated_opcode_leaves_state_unchanged() {
    let ops = [0xFE, 1];
    let mut it = PixelIter::new(&ops);
    assert_eq!(it.next(), None);
    assert_eq!(it.data.len(), 2);
    assert_eq!(it.run_length, 0);
    assert_eq!(it.pixel, Pixel { r: 0, g: 0, b: 0, a: 255 });
}

#[test]
fn cache_slot_follows_hash() {
    let ops = [0xFE, 10, 20, 30];
    let mut it = PixelIter::new(&ops);
    let p = it.next().unwrap();
    assert_eq!(p, Pixel { r: 10, g: 20, b: 30, a: 255 });
    assert_eq!(it.pixel_cache[9], p);
}

#[test]
fn non_canonical_stream_re_encodes_differently() {
    // A literal opcode for a pixel that equals the previous pixel is valid
    // but not canonical: the encoder prefers the run opcode, so only
    // canonically encoded streams re-encode to themselves byte-for-byte.
    let b = stream(1, 1, 4, &[0xFF, 0, 0, 0, 255]);
    let back = decode(&b).unwrap();
    assert_eq!(back.data, vec![0, 0, 0, 255]);
    assert_eq!(encode(&back), stream(1, 1, 4, &[0xC0]));
}

#[test]
fn wrapping_deltas_cross_channel_bounds() {
    let img = Image { width: 2, height: 1, channels: 3, colorspace: 0, data: vec![0, 1, 2, 255, 0, 1] };
    let bytes = encode(&img);
    let back = decode(&bytes).unwrap();
    assert_eq!(back.data, vec![0, 1, 2, 255, 0, 1]);
}
