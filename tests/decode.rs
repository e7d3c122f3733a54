use zen_jpeg::decoder::decode_bytes;
use zen_jpeg::error::IoError;
use zen_jpeg::{DecodeError, Decoder};

fn segment(marker: u8, payload: &[u8]) -> Vec<u8> {
    let len = payload.len() + 2;
    let mut v = vec![0xFF, marker, (len >> 8) as u8, (len & 0xFF) as u8];
    v.extend_from_slice(payload);
    v
}

fn dqt_ones() -> Vec<u8> {
    let mut p = vec![0x00];
    p.extend_from_slice(&[1u8; 64]);
    segment(0xDB, &p)
}

fn sof(precision: u8, height: u16, width: u16, ncomp: u8) -> Vec<u8> {
    let mut p = vec![
        precision,
        (height >> 8) as u8,
        (height & 0xFF) as u8,
        (width >> 8) as u8,
        (width & 0xFF) as u8,
        ncomp,
    ];
    for c in 0..ncomp {
        p.extend_from_slice(&[c + 1, 0x11, 0]);
    }
    segment(0xC0, &p)
}

/// One code of length 1, for symbol `sym`.
fn dht_single(class: u8, id: u8, sym: u8) -> Vec<u8> {
    let mut p = vec![(class << 4) | id, 1];
    p.extend_from_slice(&[0u8; 15]);
    p.push(sym);
    segment(0xC4, &p)
}

fn sos(ncomp: u8) -> Vec<u8> {
    let mut p = vec![ncomp];
    for c in 0..ncomp {
        p.extend_from_slice(&[c + 1, 0x00]);
    }
    p.extend_from_slice(&[0, 63, 0]);
    segment(0xDA, &p)
}

fn app0() -> Vec<u8> {
    segment(
        0xE0,
        &[b'J', b'F', b'I', b'F', 0, 1, 1, 0, 0, 1, 0, 1, 0, 0],
    )
}

/// An image whose blocks all have DC 0 and no AC coefficient; `entropy` is the scan data.
fn flat_image(height: u16, width: u16, ncomp: u8, entropy: &[u8], eoi: bool) -> Vec<u8> {
    let mut v = vec![0xFF, 0xD8];
    v.extend(app0());
    v.extend(dqt_ones());
    v.extend(sof(8, height, width, ncomp));
    v.extend(dht_single(0, 0, 0x00));
    v.extend(dht_single(1, 0, 0x00));
    v.extend(sos(ncomp));
    v.extend_from_slice(entropy);
    if eoi {
        v.extend_from_slice(&[0xFF, 0xD9]);
    }
    v
}

#[test]
fn one_pixel_ycbcr_gray() {
    // three blocks, each: DC size 0 (bit 0) and EOB (bit 0); padded with ones
    let data = flat_image(1, 1, 3, &[0x03], true);
    let mut d = Decoder::new(data);
    let r = d.decode().unwrap();
    assert_eq!(r.width, 1);
    assert_eq!(r.height, 1);
    assert_eq!(r.channels, 3);
    assert_eq!(r.pixels, vec![128, 128, 128]);
}

#[test]
fn single_block_grayscale_is_level_shifted_zero() {
    let data = flat_image(8, 8, 1, &[0x3F], true);
    let r = Decoder::new(data).decode().unwrap();
    assert_eq!((r.width, r.height, r.channels), (8, 8, 1));
    assert_eq!(r.pixels, vec![128u8; 64]);
}

#[test]
fn raster_has_declared_dimensions() {
    // 20 x 12: 3 x 2 blocks, one bit pair each, for one component
    let data = flat_image(12, 20, 1, &[0x00, 0x0F], true);
    let r = Decoder::new(data).decode().unwrap();
    assert_eq!((r.width, r.height, r.channels), (20, 12, 1));
    assert_eq!(r.pixels.len(), 20 * 12);
    assert!(r.pixels.iter().all(|&p| p == 128));
}

#[test]
fn rgb_raster_has_declared_dimensions() {
    // 9 x 9: 2 x 2 MCUs of three blocks: 24 zero bits
    let data = flat_image(9, 9, 3, &[0x00, 0x00, 0x00], true);
    let r = decode_bytes(&data).unwrap();
    assert_eq!((r.width, r.height, r.channels), (9, 9, 3));
    assert_eq!(r.pixels.len(), 9 * 9 * 3);
}

#[test]
fn decode_without_eoi_ends_with_input() {
    let data = flat_image(8, 8, 1, &[0x3F], false);
    let r = decode_bytes(&data).unwrap();
    assert_eq!(r.pixels, vec![128u8; 64]);
}

#[test]
fn precision_twelve_is_unsupported() {
    let mut v = vec![0xFF, 0xD8];
    v.extend(sof(12, 8, 8, 1));
    v.extend_from_slice(&[0xFF, 0xD9]);
    assert_eq!(decode_bytes(&v).err(), Some(DecodeError::UnsupportedProfile));
}

#[test]
fn truncated_scan_is_unexpected_eof() {
    // 64 x 8: eight blocks, but the data holds bits for four only
    let data = flat_image(8, 64, 1, &[0x00], false);
    let r = Decoder::new(data).decode();
    assert!(r.is_err());
    assert_eq!(r.err(), Some(DecodeError::Io(IoError::UnexpectedEof)));
}

#[test]
fn scan_with_no_data_is_unexpected_eof() {
    let data = flat_image(8, 8, 1, &[], false);
    assert_eq!(decode_bytes(&data).err(), Some(DecodeError::Io(IoError::UnexpectedEof)));
}

#[test]
fn dht_with_too_many_codes_is_malformed() {
    // counts: 255 codes of length 16 and 2 of length 15 would be 257 symbols
    let mut p = vec![0x00];
    let mut counts = [0u8; 16];
    counts[14] = 2;
    counts[15] = 255;
    p.extend_from_slice(&counts);
    p.extend_from_slice(&[0u8; 257]);
    let mut v = vec![0xFF, 0xD8];
    v.extend(segment(0xC4, &p));
    assert_eq!(decode_bytes(&v).err(), Some(DecodeError::MalformedSegment));
}

#[test]
fn empty_input_is_unexpected_eof() {
    assert_eq!(
        decode_bytes(&[]).err(),
        Some(DecodeError::Io(IoError::UnexpectedEof))
    );
}

#[test]
fn missing_soi_is_invalid_marker() {
    assert_eq!(
        decode_bytes(&[0x12, 0x34, 0xFF, 0xD9]).err(),
        Some(DecodeError::InvalidMarker)
    );
}

#[test]
fn byte_where_marker_expected_is_invalid_marker() {
    let v = vec![0xFF, 0xD8, 0x00, 0x10];
    assert_eq!(decode_bytes(&v).err(), Some(DecodeError::InvalidMarker));
}

#[test]
fn progressive_frame_is_unsupported() {
    let mut v = vec![0xFF, 0xD8];
    v.extend(segment(0xC2, &[8, 0, 8, 0, 8, 1, 1, 0x11, 0]));
    assert_eq!(decode_bytes(&v).err(), Some(DecodeError::UnsupportedProfile));
}

#[test]
fn restart_marker_is_unsupported() {
    let v = vec![0xFF, 0xD8, 0xFF, 0xD0];
    assert_eq!(decode_bytes(&v).err(), Some(DecodeError::UnsupportedProfile));
}

#[test]
fn scan_without_huffman_tables_is_invalid_code() {
    let mut v = vec![0xFF, 0xD8];
    v.extend(dqt_ones());
    v.extend(sof(8, 8, 8, 1));
    v.extend(sos(1));
    v.extend_from_slice(&[0x3F, 0xFF, 0xD9]);
    assert_eq!(decode_bytes(&v).err(), Some(DecodeError::InvalidHuffmanCode));
}

#[test]
fn scan_before_frame_is_malformed() {
    let mut v = vec![0xFF, 0xD8];
    v.extend(sos(1));
    assert_eq!(decode_bytes(&v).err(), Some(DecodeError::MalformedSegment));
}

#[test]
fn ac_run_past_the_block_is_invalid_coefficient() {
    // the AC table's one symbol is ZRL (16 zeros); the fourth ZRL runs past position 63
    let mut v = vec![0xFF, 0xD8];
    v.extend(dqt_ones());
    v.extend(sof(8, 8, 8, 1));
    v.extend(dht_single(0, 0, 0x00));
    v.extend(dht_single(1, 0, 0xF0));
    v.extend(sos(1));
    v.extend_from_slice(&[0x00, 0xFF, 0xD9]);
    assert_eq!(decode_bytes(&v).err(), Some(DecodeError::InvalidCoefficient));
}

#[test]
fn bad_jfif_identifier_is_malformed() {
    let mut v = vec![0xFF, 0xD8];
    v.extend(segment(0xE0, &[b'X', b'Y', b'Z', 0, 0]));
    assert_eq!(decode_bytes(&v).err(), Some(DecodeError::MalformedSegment));
}

#[test]
fn segment_past_end_is_unexpected_eof() {
    let v = vec![0xFF, 0xD8, 0xFF, 0xFE, 0x00, 0x10, 0x01];
    assert_eq!(
        decode_bytes(&v).err(),
        Some(DecodeError::Io(IoError::UnexpectedEof))
    );
}

#[test]
fn comment_segments_are_skipped() {
    let mut v = vec![0xFF, 0xD8];
    v.extend(segment(0xFE, b"hello"));
    v.extend(flat_image(8, 8, 1, &[0x3F], true)[2..].to_vec());
    let r = decode_bytes(&v).unwrap();
    assert_eq!(r.pixels, vec![128u8; 64]);
}

#[test]
fn dc_difference_shifts_the_samples() {
    // DC table: symbol 3 (size 3) with code 0; bits 0 then 101 (5) gives DC 5;
    // quantization 16 makes it 80, which the transform spreads as 10 per sample.
    let mut v = vec![0xFF, 0xD8];
    let mut q = vec![0x00];
    q.extend_from_slice(&[16u8; 64]);
    v.extend(segment(0xDB, &q));
    v.extend(sof(8, 8, 8, 1));
    v.extend(dht_single(0, 0, 0x03));
    v.extend(dht_single(1, 0, 0x00));
    v.extend(sos(1));
    // bits: 0 101 0 then ones: 0101 0111
    v.extend_from_slice(&[0x57, 0xFF, 0xD9]);
    let r = decode_bytes(&v).unwrap();
    assert_eq!(r.pixels, vec![138u8; 64]);
}

#[test]
fn later_dht_replaces_earlier_one() {
    // the first DC table codes size 3 with a 0 bit; the second codes size 0, which is the
    // one in effect at the scan, so the block is flat 128
    let mut v = vec![0xFF, 0xD8];
    v.extend(dqt_ones());
    v.extend(sof(8, 8, 8, 1));
    v.extend(dht_single(0, 0, 0x03));
    v.extend(dht_single(0, 0, 0x00));
    v.extend(dht_single(1, 0, 0x00));
    v.extend(sos(1));
    v.extend_from_slice(&[0x3F, 0xFF, 0xD9]);
    let r = decode_bytes(&v).unwrap();
    assert_eq!(r.pixels, vec![128u8; 64]);
}

#[test]
fn segments_after_the_scan_are_read() {
    let mut v = flat_image(8, 8, 1, &[0x3F], false);
    v.extend(segment(0xFE, b"trailing"));
    v.extend_from_slice(&[0xFF, 0xD9]);
    let r = decode_bytes(&v).unwrap();
    assert_eq!(r.pixels, vec![128u8; 64]);
    // a second frame after the scan is refused
    let mut w = flat_image(8, 8, 1, &[0x3F], false);
    w.extend(sof(8, 8, 8, 1));
    assert_eq!(decode_bytes(&w).err(), Some(DecodeError::UnsupportedProfile));
}

#[test]
fn stuffed_byte_in_scan_data() {
    // DC table: code 0 for size 0, code 1 for size 7. The bits 1 (size 7) and 111 1111
    // (value 127) make the data byte 0xFF, stuffed as 0xFF 0x00; then EOB (0) and padding
    // give 0x7F. DC 127 with quantization 1 is 16 per sample.
    let mut v = vec![0xFF, 0xD8];
    v.extend(dqt_ones());
    v.extend(sof(8, 8, 8, 1));
    let mut p = vec![0x00, 2];
    p.extend_from_slice(&[0u8; 15]);
    p.extend_from_slice(&[0x00, 0x07]);
    v.extend(segment(0xC4, &p));
    v.extend(dht_single(1, 0, 0x00));
    v.extend(sos(1));
    v.extend_from_slice(&[0xFF, 0x00, 0x7F, 0xFF, 0xD9]);
    let r = decode_bytes(&v).unwrap();
    assert_eq!(r.pixels, vec![144u8; 64]);
}

#[test]
fn unknown_marker_with_bad_length_is_invalid_marker() {
    let v = vec![0xFF, 0xD8, 0xFF, 0xE5, 0x00, 0x01];
    assert_eq!(decode_bytes(&v).err(), Some(DecodeError::InvalidMarker));
    let w = vec![0xFF, 0xD8, 0xFF, 0xDB, 0x00, 0x01];
    assert_eq!(decode_bytes(&w).err(), Some(DecodeError::MalformedSegment));
}

#[test]
fn restart_marker_inside_scan_is_unsupported() {
    // 16 x 8: two blocks, with a restart marker between them
    let data = flat_image(8, 16, 1, &[0x3F, 0xFF, 0xD0, 0x3F], true);
    assert_eq!(decode_bytes(&data).err(), Some(DecodeError::UnsupportedProfile));
    // the same blocks without the marker decode
    let plain = flat_image(8, 16, 1, &[0x0F], true);
    assert_eq!(decode_bytes(&plain).unwrap().pixels, vec![128u8; 128]);
}

#[test]
fn lone_byte_where_marker_expected() {
    assert_eq!(decode_bytes(&[0x12]).err(), Some(DecodeError::InvalidMarker));
    assert_eq!(
        decode_bytes(&[0xFF]).err(),
        Some(DecodeError::Io(IoError::UnexpectedEof))
    );
    assert_eq!(
        decode_bytes(&[0xFF, 0xD8, 0x12]).err(),
        Some(DecodeError::InvalidMarker)
    );
    assert_eq!(
        decode_bytes(&[0xFF, 0xD8, 0xFF]).err(),
        Some(DecodeError::Io(IoError::UnexpectedEof))
    );
}
