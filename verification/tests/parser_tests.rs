use jfif::decode;
use jfif::huffman::{DHTType, HuffmanTable};
use jfif::parser::{
    huffman_tables, ColorComponentMetaData, ImageStream, Marker, QuantizationTable, SomeMarker,
    StartOfStreamMetaData,
};

#[test]
fn huffman_test() {
    let huffman_table_sample = vec![
        0xFF, 0xC4, 0x00, 0x1F, 0x00, 0x00, 0x00, 0x07, 0x01, 0x01, 0x01, 0x01, 0x01, 0x00, 0x00,
        0x00, 0x00, 0x00, 0x00, 0x00, 0x00, 0x04, 0x05, 0x03, 0x02, 0x06, 0x01, 0x00, 0x07, 0x08,
        0x09, 0x0A, 0x0B,
    ];

    let (tables, consumed) = huffman_tables(&huffman_table_sample).unwrap();

    assert_eq!(consumed, huffman_table_sample.len());
    assert_eq!(
        tables,
        vec![HuffmanTable {
            class: DHTType::LuminanceDC,
            symbols: vec![
                vec![],
                vec![],
                vec![0x04, 0x05, 0x03, 0x02, 0x06, 0x01, 0x00],
                vec![0x07],
                vec![0x08],
                vec![0x09],
                vec![0x0A],
                vec![0x0B],
                vec![],
                vec![],
                vec![],
                vec![],
                vec![],
                vec![],
                vec![],
                vec![],
            ],
        }]
    )
}

#[test]
fn decode_test() {
    let minimal_jpeg = vec![
        0xFF, 0xD8, 0xFF, 0xDB, 0x00, 0x43, 0x00, 0x03, 0x02, 0x02, 0x02, 0x02, 0x02, 0x03, 0x02,
        0x02, 0x02, 0x03, 0x03, 0x03, 0x03, 0x04, 0x06, 0x04, 0x04, 0x04, 0x04, 0x04, 0x08, 0x06,
        0x06, 0x05, 0x06, 0x09, 0x08, 0x0A, 0x0A, 0x09, 0x08, 0x09, 0x09, 0x0A, 0x0C, 0x0F, 0x0C,
        0x0A, 0x0B, 0x0E, 0x0B, 0x09, 0x09, 0x0D, 0x11, 0x0D, 0x0E, 0x0F, 0x10, 0x10, 0x11, 0x10,
        0x0A, 0x0C, 0x12, 0x13, 0x12, 0x10, 0x13, 0x0F, 0x10, 0x10, 0x10, 0xFF, 0xC9, 0x00, 0x0B,
        0x08, 0x00, 0x01, 0x00, 0x01, 0x01, 0x01, 0x11, 0x00, 0xFF, 0xCC, 0x00, 0x06, 0x00, 0x10,
        0x10, 0x05, 0xFF, 0xDA, 0x00, 0x08, 0x01, 0x01, 0x00, 0x00, 0x3F, 0x00, 0xD2, 0xCF, 0x20,
        0xFF, 0xD9,
    ];

    assert_eq!(
        decode(&minimal_jpeg[..]).unwrap(),
        vec![
            Marker::DQT(QuantizationTable {
                id: 0,
                data: vec![
                    0x03, 0x02, 0x02, 0x02, 0x02, 0x02, 0x03, 0x02, 0x02, 0x02, 0x03, 0x03, 0x03,
                    0x03, 0x04, 0x06, 0x04, 0x04, 0x04, 0x04, 0x04, 0x08, 0x06, 0x06, 0x05, 0x06,
                    0x09, 0x08, 0x0A, 0x0A, 0x09, 0x08, 0x09, 0x09, 0x0A, 0x0C, 0x0F, 0x0C, 0x0A,
                    0x0B, 0x0E, 0x0B, 0x09, 0x09, 0x0D, 0x11, 0x0D, 0x0E, 0x0F, 0x10, 0x10, 0x11,
                    0x10, 0x0A, 0x0C, 0x12, 0x13, 0x12, 0x10, 0x13, 0x0F, 0x10, 0x10, 0x10
                ],
            }),
            Marker::Other(SomeMarker {
                tag: 0xc9,
                length: 0x9,
                data: vec![0x08, 0x00, 0x01, 0x00, 0x01, 0x01, 0x01, 0x11, 0x00],
            }),
            Marker::Other(SomeMarker {
                tag: 0xcc,
                length: 0x4,
                data: vec![0x00, 0x10, 0x10, 0x05],
            }),
            Marker::Image(ImageStream {
                metadata: StartOfStreamMetaData {
                    precision: 1,
                    height: 0x100,
                    width: 0x3F,
                    component_metadata: vec![]
                },
                data: vec![0xD2, 0xCF, 0x20],
            })
        ]
    );
}

#[test]
fn decode_scan_with_components() {
    // SOS declaring one three-byte component descriptor.
    let file = vec![
        0xFF, 0xD8, 0xFF, 0xDA, 0x00, 0x0B, 0x08, 0x01, 0x00, 0x02, 0x80, 0x01, 0x01, 0x22, 0x03,
        0xAA, 0xBB, 0xFF, 0xD9,
    ];

    let markers = decode(&file[..]).unwrap();

    assert_eq!(
        markers,
        vec![Marker::Image(ImageStream {
            metadata: StartOfStreamMetaData {
                precision: 8,
                height: 0x100,
                width: 0x280,
                component_metadata: vec![ColorComponentMetaData {
                    id: 1,
                    sampling_resolution: 0x22,
                    quantization_table: 3,
                }],
            },
            data: vec![0xAA, 0xBB],
        })]
    );
}

#[test]
fn decode_stops_at_terminator_and_ignores_trailing_bytes() {
    let file = vec![0xFF, 0xD8, 0xFF, 0xD9, 0x12, 0x34];

    assert_eq!(decode(&file[..]).unwrap(), vec![]);
}

#[test]
fn decode_is_deterministic_over_the_whole_file() {
    let file = vec![
        0xFF, 0xD8, 0xFF, 0xC0, 0x00, 0x04, 0xAB, 0xCD, 0xFF, 0xD9,
    ];

    assert_eq!(decode(&file[..]), decode(&file[..]));
}

#[test]
fn decode_rejects_missing_start_of_image() {
    assert!(decode(&[0x00, 0x01, 0xFF, 0xD9]).is_err());
    assert!(decode(&[0xFF]).is_err());
    assert!(decode(&[]).is_err());
}

#[test]
fn decode_rejects_length_below_minimum() {
    // A generic marker whose declared length does not even cover the
    // length field itself.
    let file = vec![0xFF, 0xD8, 0xFF, 0xC0, 0x00, 0x01, 0xFF, 0xD9];

    assert!(decode(&file[..]).is_err());
}

#[test]
fn decode_rejects_truncated_segment() {
    // A generic marker declaring more payload than the buffer holds.
    let file = vec![0xFF, 0xD8, 0xFF, 0xC0, 0x00, 0x10, 0x01, 0x02];

    assert!(decode(&file[..]).is_err());
}

#[test]
fn decode_rejects_input_exhausted_before_terminator() {
    let file = vec![0xFF, 0xD8, 0xFF, 0xC0, 0x00, 0x04, 0xAB, 0xCD];

    assert!(decode(&file[..]).is_err());
}

#[test]
fn decode_rejects_truncated_quantization_table() {
    let file = vec![0xFF, 0xD8, 0xFF, 0xDB, 0x00, 0x43, 0x00, 0x01, 0x02, 0xFF, 0xD9];

    assert!(decode(&file[..]).is_err());
}

#[test]
fn decode_rejects_scan_without_terminator() {
    let file = vec![
        0xFF, 0xD8, 0xFF, 0xDA, 0x00, 0x08, 0x01, 0x01, 0x00, 0x00, 0x3F, 0x00, 0xD2, 0xCF,
    ];

    assert!(decode(&file[..]).is_err());
}

#[test]
fn huffman_tables_parses_two_packed_definitions() {
    let mut segment = vec![0xFF, 0xC4, 0x00, 0x25];
    // First table: luminance DC, no symbols at all.
    segment.push(0x00);
    segment.extend_from_slice(&[0x00; 16]);
    // Second table: chrominance DC, one symbol of code length one.
    segment.push(0x10);
    let mut counts = [0x00u8; 16];
    counts[0] = 0x01;
    segment.extend_from_slice(&counts);
    segment.push(0xAB);

    let (tables, consumed) = huffman_tables(&segment).unwrap();

    assert_eq!(consumed, segment.len());
    assert_eq!(tables.len(), 2);
    assert_eq!(tables[0].class, DHTType::LuminanceDC);
    assert!(tables[0].symbols.iter().all(|b| b.is_empty()));
    assert_eq!(tables[1].class, DHTType::ChrominanceDC);
    assert_eq!(tables[1].symbols[0], vec![0xAB]);
}

#[test]
fn huffman_tables_rejects_unknown_class_pair() {
    let mut segment = vec![0xFF, 0xC4, 0x00, 0x13];
    segment.push(0x21);
    segment.extend_from_slice(&[0x00; 16]);

    assert!(huffman_tables(&segment).is_err());
}

#[test]
fn huffman_tables_rejects_length_below_minimum() {
    let segment = vec![0xFF, 0xC4, 0x00, 0x05, 0x00, 0x00, 0x00];

    assert!(huffman_tables(&segment).is_err());
}

#[test]
fn huffman_tables_rejects_counts_overrunning_segment() {
    let mut segment = vec![0xFF, 0xC4, 0x00, 0x13];
    segment.push(0x00);
    let mut counts = [0x00u8; 16];
    counts[0] = 0x02;
    segment.extend_from_slice(&counts);

    assert!(huffman_tables(&segment).is_err());
}

#[test]
fn huffman_tables_rejects_leftover_segment_bytes() {
    // Declared length leaves one byte after the only table definition.
    let mut segment = vec![0xFF, 0xC4, 0x00, 0x14];
    segment.push(0x00);
    segment.extend_from_slice(&[0x00; 16]);
    segment.push(0x00);

    assert!(huffman_tables(&segment).is_err());
}

#[test]
fn huffman_tables_rejects_wrong_tag() {
    let segment = vec![0xFF, 0xDB, 0x00, 0x13];

    assert!(huffman_tables(&segment).is_err());
}
