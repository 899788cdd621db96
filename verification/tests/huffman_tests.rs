use jfif::huffman::{map_lookup, DHTType, HuffmanTable};

/// The worked AC-chrominance reference table.
fn reference_table() -> HuffmanTable {
    HuffmanTable {
        class: DHTType::ChrominanceAC,
        symbols: vec![
            vec![],
            vec![0x01],
            vec![0x02, 0x11],
            vec![0x00, 0x03, 0x04, 0x21],
            vec![0x05, 0x12, 0x31],
            vec![0x06, 0x41, 0x51, 0x61],
            vec![0x13, 0x22, 0x71, 0x81, 0x91, 0xa1],
            vec![0x14, 0x32, 0xb1, 0xd1, 0xf0],
            vec![0x15, 0x23, 0x35, 0x42, 0xb2, 0xc1],
            vec![0x07, 0x16, 0x24, 0x33, 0x52, 0x72, 0x73, 0xe1],
            vec![0x25, 0x34, 0x43, 0x53, 0x62, 0x74, 0x82, 0x94, 0xa2, 0xf1],
            vec![0x26, 0x44, 0x54, 0x63, 0x64, 0x92, 0x93, 0xc2, 0xd2],
            vec![0x55, 0x56, 0x84, 0xb3],
            vec![0x45, 0x83],
            vec![0x46, 0xa3, 0xe2],
            vec![],
        ],
    }
}

#[test]
fn make_translation_map_test() {
    let table = reference_table();

    let translation = table.make_translation_map();

    assert_eq!(map_lookup(&translation, 2, 0b00), Some(0x01));
    assert_eq!(map_lookup(&translation, 3, 0b010), Some(0x02));
    assert_eq!(map_lookup(&translation, 4, 0b1010), Some(0x04));
    assert_eq!(map_lookup(&translation, 4, 0b1011), Some(0x21));
}

#[test]
fn huffman_decode_test() {
    let coded = vec![0b00011100, 0b10101011];
    let decoded = vec![0x01, 0x02, 0x00, 0x11, 0x04];
    let table = HuffmanTable {
        class: DHTType::ChrominanceAC,
        symbols: vec![
            vec![],
            vec![0x01, 0x02],
            vec![0x03],
            vec![0x11, 0x04, 0x00],
            vec![],
            vec![],
            vec![],
            vec![],
            vec![],
            vec![],
            vec![],
            vec![],
            vec![],
            vec![],
            vec![],
            vec![],
        ],
    };

    assert_eq!(table.huffman_decode(coded.as_slice()), Ok(decoded))
}

#[test]
fn reference_stream_decode() {
    let table = reference_table();
    let coded = vec![0b00001010, 0b10111001];

    let decoded = table.huffman_decode(coded.as_slice()).unwrap();

    assert_eq!(decoded, vec![0x01, 0x01, 0x04, 0x21, 0x03]);
}

#[test]
fn decode_is_deterministic() {
    let table = reference_table();
    let coded = vec![0b00001010, 0b10111001];

    let first = table.huffman_decode(coded.as_slice());
    let second = table.huffman_decode(coded.as_slice());

    assert_eq!(first, second);
}

#[test]
fn decode_empty_buffer_yields_no_symbols() {
    let table = reference_table();

    assert_eq!(table.huffman_decode(&[]), Ok(vec![]));
}

#[test]
fn decode_fails_on_unmatchable_bits() {
    // Three codes of length two decode, then two bits remain that no
    // code word of any length matches before the bits run out.
    let table = reference_table();
    let coded = vec![0b00000001];

    assert!(table.huffman_decode(coded.as_slice()).is_err());
}

#[test]
fn well_formed_accepts_reference_table() {
    assert!(reference_table().well_formed());
}

#[test]
fn well_formed_rejects_overfull_bucket() {
    // Three codes of length one cannot fit in a one-bit space.
    let mut symbols: Vec<Vec<u8>> = vec![vec![]; 16];
    symbols[0] = vec![0x01, 0x02, 0x03];
    let table = HuffmanTable { class: DHTType::LuminanceDC, symbols };

    assert!(!table.well_formed());
}

#[test]
fn well_formed_rejects_wrong_bucket_count() {
    let table = HuffmanTable { class: DHTType::LuminanceDC, symbols: vec![vec![]; 15] };

    assert!(!table.well_formed());
}

#[test]
fn map_lookup_misses_unassigned_pattern() {
    let table = reference_table();
    let translation = table.make_translation_map();

    // The one-bit patterns carry no code word in the reference table.
    assert_eq!(map_lookup(&translation, 1, 0b0), None);
    assert_eq!(map_lookup(&translation, 1, 0b1), None);
    // Pattern 11 of length two is the prefix of longer codes, not a code.
    assert_eq!(map_lookup(&translation, 2, 0b11), None);
}
