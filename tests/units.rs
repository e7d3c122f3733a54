use zen_jpeg::bitstream::{find_scan_end, read_u16, read_u8, BitReader};
use zen_jpeg::block::{decode_matrix, dequantize, zigzag_descan};
use zen_jpeg::color::{block_samples, clamp, level_shift, ycbcr_to_rgb};
use zen_jpeg::dct::idct;
use zen_jpeg::ec::{sign_code, HuffmanTree};
use zen_jpeg::error::IoError;
use zen_jpeg::markers::{get_jpeg_segment_name, JpegMarker};
use zen_jpeg::segments::{check_app0, parse_dht, parse_dqt, parse_sof, parse_sos};
use zen_jpeg::util::{likely, unlikely};
use zen_jpeg::DecodeError;

const ZIGZAG_ORDER: [usize; 64] = [
    0, 1, 8, 16, 9, 2, 3, 10, 17, 24, 32, 25, 18, 11, 4, 5, 12, 19, 26, 33, 40, 48, 41, 34, 27,
    20, 13, 6, 7, 14, 21, 28, 35, 42, 49, 56, 57, 50, 43, 36, 29, 22, 15, 23, 30, 37, 44, 51, 58,
    59, 52, 45, 38, 31, 39, 46, 53, 60, 61, 54, 47, 55, 62, 63,
];

#[test]
fn reads_bytes_and_big_endian_words() {
    let data = [0x12, 0x34, 0x56];
    let mut pos = 0usize;
    assert_eq!(read_u16(&data, &mut pos), Ok(0x1234));
    assert_eq!(pos, 2);
    assert_eq!(read_u8(&data, &mut pos), Ok(0x56));
    assert_eq!(pos, 3);
    assert_eq!(
        read_u8(&data, &mut pos),
        Err(DecodeError::Io(IoError::UnexpectedEof))
    );
    let mut pos = 2usize;
    assert_eq!(
        read_u16(&data, &mut pos),
        Err(DecodeError::Io(IoError::UnexpectedEof))
    );
    assert_eq!(pos, 2);
}

#[test]
fn destuffing_exposes_data_bytes_then_stops_at_marker() {
    let data = [0xAB, 0xFF, 0x00, 0xCD, 0xFF, 0xD9];
    let mut r = BitReader::new(0);
    assert_eq!(r.get_n_bits(&data, 8), Some(0xAB));
    assert_eq!(r.get_n_bits(&data, 8), Some(0xFF));
    assert_eq!(r.get_n_bits(&data, 8), Some(0xCD));
    assert_eq!(r.get_bit(&data), None);
    assert_eq!(r.get_n_bits(&data, 1), None);
    assert_eq!(r.end_of_scan(&data), 4);
    assert_eq!(find_scan_end(&data, 0), 4);
}

#[test]
fn stuffed_ff_gives_one_byte() {
    let data = [0xFF, 0x00, 0x0F];
    let mut r = BitReader::new(0);
    assert_eq!(r.get_n_bits(&data, 16), Some(0xFF0F));
    assert_eq!(r.get_bit(&data), None);
}

#[test]
fn bits_come_most_significant_first() {
    let data = [0b1010_0000, 0b1100_0011];
    let mut r = BitReader::new(0);
    assert_eq!(r.get_bit(&data), Some(true));
    assert_eq!(r.get_bit(&data), Some(false));
    assert_eq!(r.get_n_bits(&data, 3), Some(0b100));
    assert_eq!(r.get_n_bits(&data, 7), Some(0b000_1100));
    assert_eq!(r.get_n_bits(&data, 5), None);
    assert_eq!(r.get_n_bits(&data, 4), Some(0b0011));
}

#[test]
fn peek_pads_with_zeros_and_consume_advances() {
    let data = [0xA5, 0xFF, 0xD9];
    let mut r = BitReader::new(0);
    assert_eq!(r.peek_bits(&data, 4), 0xA);
    assert_eq!(r.peek_bits(&data, 16), 0xA500);
    r.consume_bits(&data, 4);
    assert_eq!(r.peek_bits(&data, 4), 0x5);
    assert_eq!(r.get_n_bits(&data, 4), Some(0x5));
    assert_eq!(r.peek_bits(&data, 8), 0);
}

#[test]
fn reader_can_start_past_the_header() {
    let data = [0x00, 0x00, 0xF0];
    let mut r = BitReader::new(2);
    assert_eq!(r.get_n_bits(&data, 4), Some(0xF));
}

#[test]
fn sign_extension_values() {
    assert_eq!(sign_code(0, 0), 0);
    assert_eq!(sign_code(1, 0), -1);
    assert_eq!(sign_code(1, 1), 1);
    assert_eq!(sign_code(3, 0b010), -5);
    assert_eq!(sign_code(3, 0b100), 4);
    assert_eq!(sign_code(11, 0), -2047);
    assert_eq!(sign_code(11, 2047), 2047);
    assert_eq!(sign_code(16, 0), -65535);
    assert_eq!(sign_code(16, 0x8000), 32768);
}

#[test]
fn sign_extension_law_holds_for_all_small_sizes() {
    for size in 1u32..=12 {
        for bits in 0u32..(1 << size) {
            let expected = if bits >= 1 << (size - 1) {
                bits as i32
            } else {
                bits as i32 - ((1i32 << size) - 1)
            };
            assert_eq!(sign_code(size, bits as u16), expected);
        }
    }
}

fn luminance_dc_table() -> HuffmanTree {
    let counts = vec![0, 1, 5, 1, 1, 1, 1, 1, 1, 0, 0, 0, 0, 0, 0, 0];
    let symbols: Vec<u8> = (0..12).collect();
    HuffmanTree::build(counts, symbols).unwrap()
}

/// The canonical codes of the table above, as (code, length).
const LUMINANCE_DC_CODES: [(u32, u32); 12] = [
    (0b00, 2),
    (0b010, 3),
    (0b011, 3),
    (0b100, 3),
    (0b101, 3),
    (0b110, 3),
    (0b1110, 4),
    (0b11110, 5),
    (0b111110, 6),
    (0b1111110, 7),
    (0b11111110, 8),
    (0b111111110, 9),
];

#[test]
fn each_symbol_decodes_from_its_code() {
    let t = luminance_dc_table();
    for (sym, &(code, len)) in LUMINANCE_DC_CODES.iter().enumerate() {
        // the code, then ones, in 16 bits
        let word: u32 = (code << (16 - len)) | ((1 << (16 - len)) - 1);
        // a data byte 0xFF is stuffed with 0x00
        let mut data = Vec::new();
        for b in [(word >> 8) as u8, (word & 0xFF) as u8] {
            data.push(b);
            if b == 0xFF {
                data.push(0x00);
            }
        }
        let mut r = BitReader::new(0);
        assert_eq!(t.read_code(&mut r, &data), Ok(sym as u8));
        // exactly `len` bits were consumed: the rest are the ones
        assert_eq!(r.get_n_bits(&data, 16 - len), Some(((1u32 << (16 - len)) - 1) as u16));
    }
}

#[test]
fn code_of_sixteen_ones_matches_nothing() {
    let t = luminance_dc_table();
    let data = [0xFF, 0x00, 0xFF, 0x00];
    let mut r = BitReader::new(0);
    assert_eq!(t.read_code(&mut r, &data), Err(DecodeError::InvalidHuffmanCode));
}

#[test]
fn empty_table_is_refused_before_reading() {
    let t = HuffmanTree::new();
    let data = [0x00, 0x00];
    let mut r = BitReader::new(0);
    assert_eq!(t.read_code(&mut r, &data), Err(DecodeError::InvalidHuffmanCode));
    let short = [0xA5];
    let mut r = BitReader::new(0);
    assert_eq!(t.read_code(&mut r, &short), Err(DecodeError::InvalidHuffmanCode));
    // no bit was read
    assert_eq!(r.get_n_bits(&short, 8), Some(0xA5));
}

#[test]
fn single_data_byte_is_read_once() {
    let data = [0x05];
    let mut r = BitReader::new(0);
    assert_eq!(r.get_n_bits(&data, 8), Some(0x05));
    assert_eq!(r.get_bit(&data), None);
    assert_eq!(r.end_of_scan(&data), 1);
}

#[test]
fn oversubscribed_or_oversized_tables_are_refused() {
    // three codes of length 1 do not fit
    let mut counts = vec![0u8; 16];
    counts[0] = 3;
    assert_eq!(
        HuffmanTree::build(counts, vec![1, 2, 3]).err(),
        Some(DecodeError::MalformedSegment)
    );
    // 257 codes
    let mut counts = vec![0u8; 16];
    counts[14] = 2;
    counts[15] = 255;
    assert_eq!(
        HuffmanTree::build(counts, vec![0; 257]).err(),
        Some(DecodeError::MalformedSegment)
    );
    // symbol count differs from the counts
    let mut counts = vec![0u8; 16];
    counts[1] = 2;
    assert_eq!(
        HuffmanTree::build(counts, vec![7]).err(),
        Some(DecodeError::MalformedSegment)
    );
}

#[test]
fn zigzag_descan_inverts_the_scan() {
    // coefficient at stream position i carries the value of its natural position
    let mut stream = [0i32; 64];
    for i in 0..64 {
        stream[i] = ZIGZAG_ORDER[i] as i32;
    }
    let natural = zigzag_descan(&stream);
    for j in 0..64 {
        assert_eq!(natural[j], j as i32);
    }
}

#[test]
fn dequantize_multiplies_elementwise() {
    let mut c = [0i32; 64];
    let mut q = [0u16; 64];
    for i in 0..64 {
        c[i] = i as i32 - 32;
        q[i] = (i as u16) + 1;
    }
    c[0] = -32768;
    q[0] = 65535;
    dequantize(&mut c, &q);
    assert_eq!(c[0], -32768 * 65535);
    for i in 1..64 {
        assert_eq!(c[i], (i as i32 - 32) * (i as i32 + 1));
    }
}

#[test]
fn decode_matrix_places_ac_after_runs() {
    // DC table: symbol 0 for code 0. AC table: symbol 0x21 (run 2, size 1) for code 0,
    // EOB for code 1 (lengths 1 and 2: codes 0 and 10).
    let mut dc_counts = vec![0u8; 16];
    dc_counts[0] = 1;
    let dc = HuffmanTree::build(dc_counts, vec![0]).unwrap();
    let mut ac_counts = vec![0u8; 16];
    ac_counts[0] = 1;
    ac_counts[1] = 1;
    let ac = HuffmanTree::build(ac_counts, vec![0x21, 0x00]).unwrap();
    let q = [2u16; 64];
    // bits: DC 0 | AC 0 then value bit 1 | EOB 10 | padding: 0 0 1 10 111 = 0b0011_0111
    let data = [0x37];
    let mut r = BitReader::new(0);
    let mut pred = 7i32;
    let m = decode_matrix(&dc, &ac, &q, &mut r, &data, &mut pred).unwrap();
    assert_eq!(pred, 7);
    let mut expected = [0i32; 64];
    expected[0] = 14;
    // stream position 3 is natural position 16
    expected[16] = 2;
    assert_eq!(m, expected);
}

#[test]
fn idct_of_dc_only_block_is_flat() {
    let mut c = [0i32; 64];
    let mut out = [0i64; 64];
    idct(&c, &mut out);
    assert_eq!(out, [0i64; 64]);
    c[0] = 80;
    idct(&c, &mut out);
    assert_eq!(out, [10i64; 64]);
    c[0] = -1024;
    idct(&c, &mut out);
    assert_eq!(out, [-128i64; 64]);
}

#[test]
fn idct_matches_reference_within_one() {
    let mut c = [0i32; 64];
    c[0] = 100;
    c[1] = -30;
    c[8] = 45;
    c[9] = 12;
    c[18] = -7;
    let mut out = [0i64; 64];
    idct(&c, &mut out);
    let pi = std::f64::consts::PI;
    let alpha = |k: usize| if k == 0 { 1.0 / 2f64.sqrt() } else { 1.0 };
    for y in 0..8 {
        for x in 0..8 {
            let mut s = 0.0;
            for v in 0..8 {
                for u in 0..8 {
                    s += alpha(u)
                        * alpha(v)
                        * c[v * 8 + u] as f64
                        * (((2 * x + 1) as f64) * u as f64 * pi / 16.0).cos()
                        * (((2 * y + 1) as f64) * v as f64 * pi / 16.0).cos();
                }
            }
            let reference = s / 4.0;
            let got = out[y * 8 + x] as f64;
            assert!((got - reference).abs() <= 1.0, "at ({x}, {y}): {got} vs {reference}");
        }
    }
}

#[test]
fn block_samples_level_shift_and_clamp() {
    let mut c = [0i32; 64];
    assert_eq!(block_samples(&c), [128u8; 64]);
    c[0] = 8000;
    assert_eq!(block_samples(&c), [255u8; 64]);
    c[0] = -8000;
    assert_eq!(block_samples(&c), [0u8; 64]);
}

#[test]
fn clamp_and_level_shift() {
    assert_eq!(clamp(-5), 0);
    assert_eq!(clamp(300), 255);
    assert_eq!(clamp(77), 77);
    assert_eq!(level_shift(0), 128);
    assert_eq!(level_shift(-200), 0);
    assert_eq!(level_shift(127), 255);
    assert_eq!(level_shift(128), 255);
}

#[test]
fn ycbcr_conversion_values() {
    assert_eq!(ycbcr_to_rgb(128, 128, 128), [128, 128, 128]);
    assert_eq!(ycbcr_to_rgb(255, 128, 128), [255, 255, 255]);
    assert_eq!(ycbcr_to_rgb(0, 128, 128), [0, 0, 0]);
    assert_eq!(ycbcr_to_rgb(128, 128, 255), [255, 37, 128]);
    assert_eq!(ycbcr_to_rgb(128, 255, 128), [128, 84, 255]);
    assert_eq!(ycbcr_to_rgb(100, 50, 200), [201, 75, 0]);
}

#[test]
fn marker_kinds_and_names() {
    assert_eq!(JpegMarker::from_code(0xFFD8), Some(JpegMarker::StartOfImage));
    assert_eq!(JpegMarker::from_code(0xFFC0), Some(JpegMarker::StartOfFrame));
    assert_eq!(JpegMarker::from_code(0xFFC2), Some(JpegMarker::OtherFrame));
    assert_eq!(JpegMarker::from_code(0xFFD3), Some(JpegMarker::Restart));
    assert_eq!(JpegMarker::from_code(0xFFE5), Some(JpegMarker::Other));
    assert_eq!(JpegMarker::from_code(0x12FF), None);
    assert_eq!(JpegMarker::StartOfScan.segment_name(), "Start of Scan");
    assert_eq!(get_jpeg_segment_name(0xFFDB), "Define Quantization Table");
    assert_eq!(get_jpeg_segment_name(0xFFD9), "End of Image");
}

#[test]
fn sof_fields_and_errors() {
    let p = [8, 0x01, 0x00, 0x00, 0x40, 1, 1, 0x11, 0];
    let f = parse_sof(&p, 0, p.len()).unwrap();
    assert_eq!((f.precision, f.height, f.width), (8, 256, 64));
    assert_eq!(f.components.len(), 1);
    assert_eq!(f.components[0].id, 1);
    assert_eq!(f.components[0].sampling, 0x11);
    assert_eq!(f.components[0].quant, 0);
    let p12 = [12, 0, 8, 0, 8, 1, 1, 0x11, 0];
    assert_eq!(parse_sof(&p12, 0, 9).err(), Some(DecodeError::UnsupportedProfile));
    let zero_width = [8, 0, 8, 0, 0, 1, 1, 0x11, 0];
    assert_eq!(parse_sof(&zero_width, 0, 9).err(), Some(DecodeError::MalformedSegment));
    let two_comps = [8, 0, 8, 0, 8, 2, 1, 0x11, 0, 2, 0x11, 0];
    assert_eq!(parse_sof(&two_comps, 0, 12).err(), Some(DecodeError::MalformedSegment));
    let subsampled = [8, 0, 8, 0, 8, 3, 1, 0x22, 0, 2, 0x11, 1, 3, 0x11, 1];
    assert_eq!(parse_sof(&subsampled, 0, 15).err(), Some(DecodeError::UnsupportedProfile));
    let bad_quant = [8, 0, 8, 0, 8, 1, 1, 0x11, 4];
    assert_eq!(parse_sof(&bad_quant, 0, 9).err(), Some(DecodeError::MalformedSegment));
}

#[test]
fn sos_selectors_and_errors() {
    let f = parse_sof(&[8, 0, 8, 0, 8, 3, 1, 0x11, 0, 2, 0x11, 1, 3, 0x11, 1], 0, 15).unwrap();
    let p = [3, 1, 0x00, 2, 0x11, 3, 0x11, 0, 63, 0];
    let s = parse_sos(&p, 0, p.len(), &f).unwrap();
    assert_eq!(s.dc, vec![0, 1, 1]);
    assert_eq!(s.ac, vec![0, 1, 1]);
    let partial = [1, 1, 0x00, 0, 63, 0];
    assert_eq!(parse_sos(&partial, 0, 6, &f).err(), Some(DecodeError::UnsupportedProfile));
    let progressive = [3, 1, 0x00, 2, 0x11, 3, 0x11, 1, 5, 0];
    assert_eq!(parse_sos(&progressive, 0, 10, &f).err(), Some(DecodeError::UnsupportedProfile));
    let wrong_id = [3, 1, 0x00, 5, 0x11, 3, 0x11, 0, 63, 0];
    assert_eq!(parse_sos(&wrong_id, 0, 10, &f).err(), Some(DecodeError::MalformedSegment));
}

#[test]
fn dqt_reads_eight_and_sixteen_bit_tables() {
    let mut p = vec![0x01];
    for i in 0..64u8 {
        p.push(i + 1);
    }
    p.push(0x12);
    for i in 0..64u16 {
        let v = 256 + i;
        p.push((v >> 8) as u8);
        p.push((v & 0xFF) as u8);
    }
    let mut tables = vec![[0u16; 64]; 4];
    let mut defined = vec![false; 4];
    assert_eq!(parse_dqt(&p, 0, p.len(), &mut tables, &mut defined), Ok(()));
    assert_eq!(defined, vec![false, true, true, false]);
    assert_eq!(tables[1][0], 1);
    assert_eq!(tables[1][63], 64);
    assert_eq!(tables[2][0], 256);
    assert_eq!(tables[2][63], 319);
    let bad_id = [0x04u8; 65];
    assert_eq!(
        parse_dqt(&bad_id, 0, 65, &mut tables, &mut defined),
        Err(DecodeError::MalformedSegment)
    );
    let short = [0x00u8; 10];
    assert_eq!(
        parse_dqt(&short, 0, 10, &mut tables, &mut defined),
        Err(DecodeError::MalformedSegment)
    );
    assert_eq!(
        parse_dqt(&short, 0, 0, &mut tables, &mut defined),
        Err(DecodeError::MalformedSegment)
    );
}

#[test]
fn dht_reads_several_tables() {
    let mut p = vec![0x00, 1];
    p.extend_from_slice(&[0u8; 15]);
    p.push(5);
    p.push(0x13);
    p.extend_from_slice(&[0, 2]);
    p.extend_from_slice(&[0u8; 14]);
    p.extend_from_slice(&[0x01, 0x02]);
    let defs = parse_dht(&p, 0, p.len()).unwrap();
    assert_eq!(defs.len(), 2);
    assert_eq!((defs[0].class, defs[0].id), (0, 0));
    assert_eq!((defs[1].class, defs[1].id), (1, 3));
    let data = [0b0100_0000];
    let mut r = BitReader::new(0);
    assert_eq!(defs[1].table.read_code(&mut r, &data), Ok(0x02));
    let bad_class = [0x20u8; 17];
    assert!(matches!(parse_dht(&bad_class, 0, 17), Err(DecodeError::MalformedSegment)));
    assert!(matches!(parse_dht(&p, 0, 0), Err(DecodeError::MalformedSegment)));
}

#[test]
fn app0_identifier() {
    assert_eq!(check_app0(b"JFIF\0\x01\x02", 0, 7), Ok(()));
    assert_eq!(check_app0(b"JFXX\0", 0, 5), Ok(()));
    assert_eq!(check_app0(b"JFIF", 0, 4), Err(DecodeError::MalformedSegment));
    assert_eq!(check_app0(b"Exif\0", 0, 5), Err(DecodeError::MalformedSegment));
}

#[test]
fn hints_return_their_argument() {
    assert!(likely(true));
    assert!(!likely(false));
    assert!(unlikely(true));
    assert!(!unlikely(false));
}

#[test]
fn io_error_converts_into_decode_error() {
    assert_eq!(
        DecodeError::from(IoError::UnexpectedEof),
        DecodeError::Io(IoError::UnexpectedEof)
    );
}
