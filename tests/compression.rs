use rust_compression::bits::{get_bit, BitWriter};
use rust_compression::bytes::{get_byte_array_from_u32, get_u32_from_byte_array};
use rust_compression::codec::{frequency_list, hc_decode, hc_encode};
use rust_compression::error::CodecError;
use rust_compression::huffman::{code_table, frequency_list_to_huffman_tree, HuffTree};
use rust_compression::lz::{
    find_match_in_window, get_byte_array_from_u16, get_data_from_indicator,
    get_indicator_from_data, get_u16_from_byte_array, LzConfig,
};
use rust_compression::pipeline::{compress, decompress, first_mismatch};
use rust_compression::tokens::{lz_decode, lz_encode};

fn small() -> LzConfig {
    LzConfig::new(4, 4, 4).unwrap()
}

fn round_trip(cfg: &LzConfig, input: &Vec<u8>) -> Vec<u8> {
    let packed = compress(cfg, input).unwrap();
    let back = decompress(cfg, &packed).unwrap();
    assert_eq!(&back, input);
    packed
}

fn pseudo_random(n: usize, seed: u32) -> Vec<u8> {
    let mut x = seed;
    let mut v = Vec::new();
    for _ in 0..n {
        x = x.wrapping_mul(1_103_515_245).wrapping_add(12_345);
        v.push((x >> 16) as u8);
    }
    v
}

#[test]
fn round_trip_empty() {
    round_trip(&LzConfig::standard(), &vec![]);
    round_trip(&small(), &vec![]);
}

#[test]
fn round_trip_single_byte() {
    round_trip(&LzConfig::standard(), &vec![42]);
    round_trip(&small(), &vec![0]);
}

#[test]
fn round_trip_repetitive() {
    round_trip(&LzConfig::standard(), &vec![7u8; 5000]);
    round_trip(&small(), &b"abababababababababababababab".to_vec());
    round_trip(&small(), &vec![1u8; 300]);
}

#[test]
fn round_trip_text() {
    let text = b"It was the best of times, it was the worst of times, it was the age of wisdom, \
                 it was the age of foolishness, it was the epoch of belief."
        .to_vec();
    round_trip(&LzConfig::standard(), &text);
    round_trip(&small(), &text);
    round_trip(&LzConfig::new(8, 6, 3).unwrap(), &text);
}

#[test]
fn round_trip_all_byte_values() {
    let mut v: Vec<u8> = (0..=255u8).collect();
    v.extend((0..=255u8).rev());
    round_trip(&LzConfig::standard(), &v);
    round_trip(&small(), &v);
}

#[test]
fn round_trip_noise() {
    round_trip(&LzConfig::standard(), &pseudo_random(3000, 1));
    round_trip(&small(), &pseudo_random(3000, 2));
    round_trip(&LzConfig::new(10, 8, 1).unwrap(), &pseudo_random(700, 3));
}

#[test]
fn long_literal_runs_are_split() {
    // with 1-bit runs every literal needs its own indicator
    let cfg = LzConfig::new(6, 4, 1).unwrap();
    let v = b"abcdefghij".to_vec();
    let tokens = lz_encode(&cfg, &v);
    assert_eq!(lz_decode(&cfg, &tokens).unwrap(), v);
    assert!(tokens.len() > v.len() + 2);
    round_trip(&cfg, &v);
}

#[test]
fn repeated_byte_compresses_sublinearly() {
    // runs longer than the window: 2^18 - 1 bytes for the standard widths
    let cfg = LzConfig::standard();
    let short = round_trip(&cfg, &vec![b'x'; 300_000]).len();
    let long = round_trip(&cfg, &vec![b'x'; 1_200_000]).len();
    assert!(short < 300_000 / 1000);
    assert!(long < 4 * short);
    // and for a 15-byte window
    let cfg = small();
    let short = round_trip(&cfg, &vec![b'y'; 1_000]).len();
    let long = round_trip(&cfg, &vec![b'y'; 4_000]).len();
    assert!(short < 1_000 / 10);
    assert!(long < 4 * short);
}

#[test]
fn abc_repeats_become_back_references() {
    let cfg = small();
    let input = b"abcabcabcabc".to_vec();
    let tokens = lz_encode(&cfg, &input);
    // 16-bit literal-run length 3, the literals, then one indicator
    // (back_ref 3, length 9, run 0) packed on 4 + 4 + 4 bits
    assert_eq!(tokens, vec![0, 3, b'a', b'b', b'c', 0x03, 0x90]);
    let (back_ref, length, run) = get_data_from_indicator(&cfg, &tokens[5..7]);
    assert_eq!((back_ref, length, run), (3, 9, 0));
    assert_eq!(lz_decode(&cfg, &tokens).unwrap(), input);
    let packed = round_trip(&cfg, &input);
    assert_eq!(decompress(&cfg, &packed).unwrap().len(), 12);
}

#[test]
fn overlapping_copy_decodes_forward() {
    let cfg = small();
    // "a", then copy 5 bytes from 1 back
    let tokens = vec![0, 1, b'a', 0x01, 0x50];
    assert_eq!(lz_decode(&cfg, &tokens).unwrap(), b"aaaaaa".to_vec());
    assert_eq!(lz_encode(&cfg, &b"aaaaaa".to_vec()), tokens);
    // a copy 2 back over 5 bytes repeats the pair
    let tokens = vec![0, 2, b'x', b'y', 0x02, 0x50];
    assert_eq!(lz_decode(&cfg, &tokens).unwrap(), b"xyxyxyx".to_vec());
}

#[test]
fn match_search_near_the_start() {
    let cfg = LzConfig::standard();
    assert_eq!(find_match_in_window(&cfg, &b"aaaa".to_vec(), 0), (0, 0));
    assert_eq!(find_match_in_window(&cfg, &b"ab".to_vec(), 1), (0, 0));
    assert_eq!(find_match_in_window(&cfg, &b"aa".to_vec(), 1), (1, 1));
    assert_eq!(find_match_in_window(&cfg, &b"abab".to_vec(), 2), (2, 2));
    assert_eq!(find_match_in_window(&cfg, &b"aaaa".to_vec(), 1), (1, 3));
    assert_eq!(find_match_in_window(&cfg, &b"abc".to_vec(), 3), (0, 0));
}

#[test]
fn match_search_prefers_the_closest_of_equal_matches() {
    let cfg = LzConfig::standard();
    // "xa" at 0 and at 3 both match "xa" at 6; the closer one wins
    let v = b"xaqxazxa".to_vec();
    assert_eq!(find_match_in_window(&cfg, &v, 6), (3, 2));
    // a longer match further back beats a shorter close one
    let v = b"abcdxabxabcd".to_vec();
    assert_eq!(find_match_in_window(&cfg, &v, 8), (8, 4));
}

#[test]
fn match_search_respects_window_and_length_caps() {
    let cfg = LzConfig::new(2, 2, 4).unwrap();
    // window 3, length 3
    let v = b"aaaaaaaa".to_vec();
    assert_eq!(find_match_in_window(&cfg, &v, 4), (1, 3));
    let v = b"zbbbbz".to_vec();
    assert_eq!(find_match_in_window(&cfg, &v, 5), (0, 0));
}

#[test]
fn indicator_packing() {
    let cfg = LzConfig::standard();
    assert_eq!(cfg.indicator_bytes(), 5);
    let ind = get_indicator_from_data(&cfg, 1, 2, 3);
    assert_eq!(ind, vec![0x00, 0x00, 0x40, 0x08, 0x03]);
    assert_eq!(get_data_from_indicator(&cfg, &ind), (1, 2, 3));
    let ind = get_indicator_from_data(&cfg, 262_143, 4095, 1023);
    assert_eq!(ind, vec![0xff, 0xff, 0xff, 0xff, 0xff]);
    assert_eq!(get_data_from_indicator(&cfg, &ind), (262_143, 4095, 1023));
}

#[test]
fn big_endian_helpers() {
    assert_eq!(get_byte_array_from_u16(0x1234), [0x12, 0x34]);
    assert_eq!(get_u16_from_byte_array(&[0xab, 0xcd]), 0xabcd);
    assert_eq!(get_byte_array_from_u32(0x0102_0304), [1, 2, 3, 4]);
    assert_eq!(get_u32_from_byte_array(&[0xde, 0xad, 0xbe, 0xef]), 0xdead_beef);
    assert_eq!(get_u32_from_byte_array(&get_byte_array_from_u32(987_654_321)), 987_654_321);
}

#[test]
fn config_limits() {
    assert_eq!(LzConfig::new(0, 4, 4), Err(CodecError::InvalidConfig));
    assert_eq!(LzConfig::new(4, 0, 4), Err(CodecError::InvalidConfig));
    assert_eq!(LzConfig::new(4, 4, 17), Err(CodecError::InvalidConfig));
    assert_eq!(LzConfig::new(30, 20, 7), Err(CodecError::InvalidConfig));
    assert!(LzConfig::new(30, 10, 16).is_ok());
    assert_eq!(LzConfig::new(4, 4, 4).unwrap().indicator_bytes(), 2);
}

#[test]
fn bit_writer_packs_msb_first() {
    let mut w = BitWriter::new();
    w.extend(&vec![true, false, true]);
    assert_eq!(w.collect(), vec![0b1010_0000, 3]);
    let mut w = BitWriter::new();
    w.extend(&vec![true; 8]);
    w.push_bit(true);
    assert_eq!(w.collect(), vec![0xff, 0x80, 1]);
    let w = BitWriter::new();
    assert_eq!(w.collect(), vec![0, 0]);
    assert!(get_bit(&[0b0100_0000], 1));
    assert!(!get_bit(&[0b0100_0000], 0));
    assert!(get_bit(&[0, 1], 15));
}

#[test]
fn frequency_table_counts() {
    let f = frequency_list(&b"banana".to_vec());
    assert_eq!(f, vec![(b'a', 3), (b'b', 1), (b'n', 2)]);
    assert_eq!(frequency_list(&vec![]), vec![]);
}

#[test]
fn huffman_tree_building() {
    assert!(frequency_list_to_huffman_tree(&vec![]).is_none());
    match frequency_list_to_huffman_tree(&vec![(7, 5)]) {
        Some(HuffTree::Leaf(7)) => {}
        other => panic!("unexpected tree {:?}", other),
    }
    // b (1) and n (2) join first, then that node (3) and a (3): the node
    // came last, so a, the earlier, goes left
    let t = frequency_list_to_huffman_tree(&vec![(b'a', 3), (b'b', 1), (b'n', 2)]).unwrap();
    let codes = code_table(&t);
    assert_eq!(codes[b'a' as usize], vec![false]);
    assert_eq!(codes[b'b' as usize], vec![true, false]);
    assert_eq!(codes[b'n' as usize], vec![true, true]);
    assert!(codes[b'z' as usize].is_empty());
}

#[test]
fn single_symbol_tree_uses_one_bit() {
    let t = frequency_list_to_huffman_tree(&vec![(9, 4)]).unwrap();
    assert_eq!(code_table(&t)[9], vec![false]);
    let enc = hc_encode(&vec![9, 9, 9, 9]).unwrap();
    // header: 0 (one entry), 9, count 4; then 4 zero bits and the trailer
    assert_eq!(enc, vec![0, 9, 0, 0, 0, 4, 0, 4]);
    assert_eq!(hc_decode(&enc).unwrap(), vec![9, 9, 9, 9]);
}

#[test]
fn huffman_round_trip_and_header() {
    let input = b"mississippi river".to_vec();
    let enc = hc_encode(&input).unwrap();
    let entries = frequency_list(&input);
    assert_eq!(enc[0] as usize + 1, entries.len());
    for (i, (value, count)) in entries.iter().enumerate() {
        assert_eq!(enc[1 + 5 * i], *value);
        assert_eq!(get_u32_from_byte_array(&enc[2 + 5 * i..6 + 5 * i]), *count);
    }
    assert_eq!(hc_decode(&enc).unwrap(), input);
    // every symbol of the table decodes alone
    for (value, _) in entries {
        let enc = hc_encode(&vec![value, value]).unwrap();
        assert_eq!(hc_decode(&enc).unwrap(), vec![value, value]);
    }
}

#[test]
fn huffman_encoding_changes_the_bytes() {
    let input = b"aaaaaaaabbbc".to_vec();
    let enc = hc_encode(&input).unwrap();
    // header of 3 entries (16 bytes), then 8 + 6 + 2 = 16 bits in two full
    // bytes, an empty partial byte and the trailer
    assert_eq!(enc.len(), 16 + 4);
    assert_ne!(&enc[16..], &input[..]);
    assert_eq!(enc[enc.len() - 1], 0);
}

#[test]
fn empty_input_has_no_huffman_encoding() {
    assert_eq!(hc_encode(&vec![]), Err(CodecError::EmptyInput));
}

#[test]
fn corrupt_streams_are_refused() {
    let cfg = small();
    assert_eq!(lz_decode(&cfg, &vec![]), Err(CodecError::Corrupt));
    assert_eq!(lz_decode(&cfg, &vec![0]), Err(CodecError::Corrupt));
    // literal run longer than the stream
    assert_eq!(lz_decode(&cfg, &vec![0, 5, 1]), Err(CodecError::Corrupt));
    // back-reference before the start of the output
    assert_eq!(lz_decode(&cfg, &vec![0, 1, b'a', 0x02, 0x10]), Err(CodecError::Corrupt));
    // truncated indicator
    assert_eq!(lz_decode(&cfg, &vec![0, 1, b'a', 0x01]), Err(CodecError::Corrupt));
    assert_eq!(hc_decode(&vec![]), Err(CodecError::Corrupt));
    assert_eq!(hc_decode(&vec![0, 9, 0, 0, 0]), Err(CodecError::Corrupt));
    // trailer larger than a byte
    assert_eq!(hc_decode(&vec![0, 9, 0, 0, 0, 4, 0, 9]), Err(CodecError::Corrupt));
    assert_eq!(decompress(&cfg, &vec![1, 2, 3]), Err(CodecError::Corrupt));
}

#[test]
fn lz_round_trip_alone() {
    let cfg = LzConfig::standard();
    for input in [vec![], vec![3], b"hello hello hello hello".to_vec(), pseudo_random(500, 9)] {
        let tokens = lz_encode(&cfg, &input);
        assert_eq!(lz_decode(&cfg, &tokens).unwrap(), input);
    }
    assert_eq!(lz_encode(&cfg, &vec![]), vec![0, 0]);
    assert_eq!(lz_encode(&cfg, &vec![3, 4]), vec![0, 2, 3, 4]);
}

#[test]
fn mismatch_positions() {
    assert_eq!(first_mismatch(&vec![1, 2, 3], &vec![1, 2, 3]), None);
    assert_eq!(first_mismatch(&vec![1, 2, 3], &vec![1, 5, 3]), Some(1));
    assert_eq!(first_mismatch(&vec![1, 2], &vec![1, 2, 3]), Some(2));
    assert_eq!(first_mismatch(&vec![], &vec![]), None);
}
