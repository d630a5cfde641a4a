use opcode_stats::bytecode::Bytecode;
use opcode_stats::opcode::OpcodeId;
use opcode_stats::stats::{count_opcodes, has_other_invalid, nonzero_opcode_counts};

fn elems(code: &Bytecode) -> Vec<(u8, bool)> {
    code.code.iter().map(|e| (e.value, e.is_code)).collect()
}

#[test]
fn opcode_push_classification_bounds() {
    assert!(!OpcodeId::from_byte(0x5f).is_push_with_data());
    assert!(OpcodeId::from_byte(0x60).is_push_with_data());
    assert!(OpcodeId::from_byte(0x7f).is_push_with_data());
    assert!(!OpcodeId::from_byte(0x80).is_push_with_data());
}

#[test]
fn opcode_postfix_lengths() {
    assert_eq!(OpcodeId::from_byte(0x60).postfix(), Some(1));
    assert_eq!(OpcodeId::from_byte(0x7f).postfix(), Some(32));
    assert_eq!(OpcodeId::from_byte(0x01).postfix(), None);
    assert_eq!(OpcodeId::from_byte(0xff).postfix(), None);
}

#[test]
fn opcode_immediate_lengths() {
    assert_eq!(OpcodeId::from_byte(0x60).immediate_len(), 1);
    assert_eq!(OpcodeId::from_byte(0x7f).immediate_len(), 32);
    assert_eq!(OpcodeId::from_byte(0x01).immediate_len(), 0);
    assert_eq!(OpcodeId::from_byte(0x5f).immediate_len(), 0);
}

#[test]
fn opcode_as_u8_round_trip() {
    for b in 0..=255u8 {
        assert_eq!(OpcodeId::from_byte(b).as_u8(), b);
    }
}

#[test]
fn opcode_other_invalid_classification() {
    // Assigned instructions are not "other invalid", the designated
    // INVALID byte 0xfe included.
    assert!(!OpcodeId::from_byte(0x00).is_other_invalid());
    assert!(!OpcodeId::from_byte(0x60).is_other_invalid());
    assert!(!OpcodeId::from_byte(0xfe).is_other_invalid());
    assert!(!OpcodeId::from_byte(0xff).is_other_invalid());
    // Gaps in the instruction set are.
    assert!(OpcodeId::from_byte(0x0c).is_other_invalid());
    assert!(OpcodeId::from_byte(0x1e).is_other_invalid());
    assert!(OpcodeId::from_byte(0x21).is_other_invalid());
    assert!(OpcodeId::from_byte(0x49).is_other_invalid());
    assert!(OpcodeId::from_byte(0x5c).is_other_invalid());
    assert!(OpcodeId::from_byte(0xa5).is_other_invalid());
    assert!(OpcodeId::from_byte(0xf6).is_other_invalid());
}

#[test]
fn decode_empty_bytecode() {
    // Empty input: empty element sequence and no statistics.
    let code = Bytecode::from_bytes(vec![]);
    assert_eq!(code.code.len(), 0);
    let counts = count_opcodes(&code);
    assert!(counts.iter().all(|c| *c == 0));
    assert_eq!(nonzero_opcode_counts(&counts).len(), 0);
}

#[test]
fn decode_push1_program() {
    // PUSH1 0x11, PUSH1 0x22, ADD: three code bytes, two data bytes.
    let code = Bytecode::from_bytes(vec![0x60, 0x11, 0x60, 0x22, 0x01]);
    assert_eq!(
        elems(&code),
        vec![
            (0x60, true),
            (0x11, false),
            (0x60, true),
            (0x22, false),
            (0x01, true),
        ]
    );
    let counts = count_opcodes(&code);
    assert_eq!(counts[0x60], 2);
    assert_eq!(counts[0x01], 1);
    assert_eq!(counts[0x11], 0);
    assert_eq!(counts[0x22], 0);
    assert_eq!(nonzero_opcode_counts(&counts), vec![(0x01, 1), (0x60, 2)]);
}

#[test]
fn decode_truncated_push32() {
    // PUSH32 with no data: one code element, graceful stop.
    let code = Bytecode::from_bytes(vec![0x7f]);
    assert_eq!(elems(&code), vec![(0x7f, true)]);
}

#[test]
fn decode_truncated_push2() {
    // PUSH2 with one byte of data: the byte is still emitted as data.
    let code = Bytecode::from_bytes(vec![0x61, 0xaa]);
    assert_eq!(elems(&code), vec![(0x61, true), (0xaa, false)]);
}

#[test]
fn decode_trims_cbor_metadata_tail() {
    // Two instruction bytes, a seven-byte CBOR payload (a text item and an
    // unsigned item), and the big-endian length 7.
    let bytes = vec![
        0x00, 0x01, // STOP, ADD
        0x65, b'h', b'e', b'l', b'l', b'o', 0x00, // "hello", 0
        0x00, 0x07, // metadata length
    ];
    let code = Bytecode::from_bytes(bytes);
    assert_eq!(elems(&code), vec![(0x00, true), (0x01, true)]);
}

#[test]
fn decode_keeps_corrupted_metadata_tail() {
    // Same shape, but the payload's first byte is corrupted into a header
    // with a reserved additional-information value: no longer valid CBOR,
    // so nothing is trimmed and all eleven bytes decode.
    let bytes = vec![
        0x00, 0x01, 0x7c, b'h', b'e', b'l', b'l', b'o', 0x00, 0x00, 0x07,
    ];
    let code = Bytecode::from_bytes(bytes.clone());
    assert_eq!(code.code.len(), bytes.len());
    let values: Vec<u8> = code.code.iter().map(|e| e.value).collect();
    assert_eq!(values, bytes);
}

#[test]
fn decode_keeps_tail_when_length_does_not_fit() {
    // The last two bytes claim a metadata region longer than the input:
    // nothing is trimmed.
    let bytes = vec![0x00, 0x01, 0x02, 0xff, 0xff];
    let code = Bytecode::from_bytes(bytes.clone());
    assert_eq!(code.code.len(), bytes.len());
}

#[test]
fn decode_two_byte_input_is_never_trimmed() {
    let code = Bytecode::from_bytes(vec![0x00, 0x00]);
    assert_eq!(elems(&code), vec![(0x00, true), (0x00, true)]);
}

#[test]
fn decode_trims_empty_metadata_region() {
    // A zero length with valid (empty) payload: only the two length bytes
    // go.
    let code = Bytecode::from_bytes(vec![0x01, 0x02, 0x03, 0x00, 0x00]);
    assert_eq!(elems(&code), vec![(0x01, true), (0x02, true), (0x03, true)]);
}

#[test]
fn decode_trims_solidity_style_metadata_map() {
    // A definite-length CBOR map with two byte-string entries, as compilers
    // append: { "a": h'01', "b": h'0203' }, ten bytes.
    let bytes = vec![
        0x60, 0x2a, // PUSH1 42
        0xa2, 0x61, b'a', 0x41, 0x01, 0x61, b'b', 0x42, 0x02, 0x03, // the map
        0x00, 0x0a, // metadata length 10
    ];
    let code = Bytecode::from_bytes(bytes);
    assert_eq!(elems(&code), vec![(0x60, true), (0x2a, false)]);
}

#[test]
fn decode_rejects_incomplete_cbor_map_payload() {
    // A map header announcing one pair followed only by its key: not a
    // complete item sequence, so the tail stays.
    let bytes = vec![
        0x00, 0x01, 0xa1, 0x65, b'h', b'e', b'l', b'l', b'o', 0x00, 0x07,
    ];
    let code = Bytecode::from_bytes(bytes.clone());
    assert_eq!(code.code.len(), bytes.len());
}

#[test]
fn decode_push_data_is_not_counted_as_code() {
    // PUSH1 0x60: the data byte equals the PUSH opcode but is not code.
    let code = Bytecode::from_bytes(vec![0x60, 0x60]);
    assert_eq!(elems(&code), vec![(0x60, true), (0x60, false)]);
    let counts = count_opcodes(&code);
    assert_eq!(counts[0x60], 1);
}

#[test]
fn decode_trims_long_metadata_region() {
    // A 303-byte metadata region: one byte-string item of 300 bytes, so the
    // two-byte big-endian length matters beyond one byte.
    let mut bytes = vec![0x01, 0x02];
    bytes.extend([0x59, 0x01, 0x2c]); // bytes(300)
    bytes.extend(std::iter::repeat(0x7f).take(300));
    bytes.extend([0x01, 0x2f]); // metadata length 303
    let code = Bytecode::from_bytes(bytes);
    assert_eq!(elems(&code), vec![(0x01, true), (0x02, true)]);
}

#[test]
fn nonzero_counts_are_ascending_and_complete() {
    let code = Bytecode::from_bytes(vec![0xff, 0x00, 0x50, 0x00, 0x50, 0x50]);
    let pairs = nonzero_opcode_counts(&count_opcodes(&code));
    assert_eq!(pairs, vec![(0x00, 2), (0x50, 3), (0xff, 1)]);
}

#[test]
fn push0_is_assigned_but_carries_no_data() {
    let op = OpcodeId::from_byte(0x5f);
    assert!(!op.is_push_with_data());
    assert!(!op.is_other_invalid());
    assert_eq!(op.postfix(), None);
}

#[test]
fn writer_appends_elements() {
    let mut code = Bytecode::new();
    code.write_op(OpcodeId::from_byte(0x60));
    code.write(0x2a, false);
    assert_eq!(elems(&code), vec![(0x60, true), (0x2a, false)]);
    assert_eq!(code.num_opcodes, 1);
}

#[test]
fn default_bytecode_is_empty() {
    let code = Bytecode::default();
    assert_eq!(code.code.len(), 0);
    assert_eq!(code.num_opcodes, 0);
}

#[test]
fn has_other_invalid_flags_unassigned_opcodes() {
    let clean = Bytecode::from_bytes(vec![0x60, 0x11, 0x01]);
    assert!(!has_other_invalid(&clean));
    let dirty = Bytecode::from_bytes(vec![0x0c]);
    assert!(has_other_invalid(&dirty));
    // An unassigned byte inside push data is data, not an opcode.
    let data_only = Bytecode::from_bytes(vec![0x60, 0x0c]);
    assert!(!has_other_invalid(&data_only));
}
