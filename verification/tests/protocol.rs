use wasm_dispatch::protocol::{AckInfo, Error, Message, ModuleInfo, Type};

#[test]
fn test_client_ready() {
    let msg = Message::ClientReady { modules: vec!["test".into()], device_ram: 0 };
    let encoded = msg.encode().unwrap();
    let decoded = Message::decode(&encoded).unwrap();
    assert_eq!(msg, decoded.0);
}

#[test]
fn test_server_task() {
    let msg = Message::ServerTask {
        task_id: 99,
        module: ModuleInfo { name: "test".into(), size: 1024, chunk_size: 256, total_chunks: 4 },
        params: vec![
            Type::Void,
            Type::I32(-123),
            Type::F32(core::f32::consts::PI.to_bits()),
            Type::I64(987_654_321),
            Type::F64(core::f64::consts::E.to_bits()),
            Type::V128(123456789012345678901234567890),
        ],
    };
    let encoded = msg.encode().unwrap();
    let decoded = Message::decode(&encoded).unwrap();
    assert_eq!(msg, decoded.0);
}

#[test]
fn test_server_module() {
    let msg = Message::ServerModule { task_id: 99, chunk_index: 1, chunk_data: vec![10, 20, 30, 40, 50] };
    let encoded = msg.encode().unwrap();
    let decoded = Message::decode(&encoded).unwrap();
    assert_eq!(msg, decoded.0);
}

#[test]
fn test_client_ack() {
    let msg_success = Message::ClientAck {
        task_id: 99,
        ack_info: AckInfo::Task { modules: vec!["test".into()] },
    };
    let encoded = msg_success.encode().unwrap();
    let decoded = Message::decode(&encoded).unwrap();
    assert_eq!(msg_success, decoded.0);
}

#[test]
fn test_client_result() {
    let msg = Message::ClientResult {
        task_id: 99,
        result: vec![Type::I32(42), Type::F64((-5.67f64).to_bits())],
    };
    let encoded = msg.encode().unwrap();
    let decoded = Message::decode(&encoded).unwrap();
    assert_eq!(msg, decoded.0);
}

#[test]
fn test_server_ack() {
    let msg_success = Message::ServerAck { task_id: 1, success: true };
    let encoded = msg_success.encode().unwrap();
    let decoded = Message::decode(&encoded).unwrap();
    assert_eq!(msg_success, decoded.0);
}

#[test]
fn test_heartbeat() {
    let msg = Message::Heartbeat { timestamp: 1234567890 };
    let encoded = msg.encode().unwrap();
    let decoded = Message::decode(&encoded).unwrap();
    assert_eq!(msg, decoded.0);
}

#[test]
fn test_encode_invalid_message() {
    let long_string = "a".repeat(u16::MAX as usize + 1);
    let msg = Message::ClientReady { modules: vec![long_string], device_ram: 0 };
    let result = msg.encode();
    assert!(result.is_err());
    assert!(matches!(result.unwrap_err(), Error::InvalidMessage));
}

#[test]
fn test_decode_insufficient_data_header() {
    let data = vec![1];
    let result = Message::decode(&data);
    assert!(result.is_err());
    assert!(matches!(result.unwrap_err(), Error::InsufficientData));
}

#[test]
fn test_decode_insufficient_data_payload() {
    let data = vec![0, 5, 1, 2, 3];
    let result = Message::decode(&data);
    assert!(result.is_err());
    assert!(matches!(result.unwrap_err(), Error::InsufficientData));
}

#[test]
fn test_decode_decode_error() {
    let msg = Message::ClientReady { modules: Vec::new(), device_ram: 0 };
    let mut encoded = msg.encode().unwrap();
    if encoded.len() > 2 {
        encoded[2] = encoded[2].wrapping_add(1);
    }
    let result = Message::decode(&encoded);
    assert!(result.is_err());
    assert!(matches!(result.unwrap_err(), Error::Malformed));
}

#[test]
fn decode_reports_the_bytes_consumed() {
    let msg = Message::Heartbeat { timestamp: 7 };
    let mut bytes = msg.encode().unwrap();
    let frame_len = bytes.len();
    bytes.extend_from_slice(&[0xff, 0xff, 0xff]);
    let (decoded, consumed) = Message::decode(&bytes).unwrap();
    assert_eq!(decoded, msg);
    assert_eq!(consumed, frame_len);
}

#[test]
fn frame_layout_is_length_then_payload() {
    let bytes = Message::ServerAck { task_id: 300, success: true }.encode().unwrap();
    assert_eq!(bytes, vec![0, 5, 5, 251, 1, 44, 1]);
    let bytes = Message::Heartbeat { timestamp: 250 }.encode().unwrap();
    assert_eq!(bytes, vec![0, 2, 6, 250]);
    let bytes = Message::Heartbeat { timestamp: 0x1_0000 }.encode().unwrap();
    assert_eq!(bytes, vec![0, 6, 6, 252, 0, 1, 0, 0]);
    let bytes = Message::Heartbeat { timestamp: 0x1_0000_0000 }.encode().unwrap();
    assert_eq!(bytes, vec![0, 10, 6, 253, 0, 0, 0, 1, 0, 0, 0, 0]);
}

#[test]
fn typed_values_are_tag_count_and_big_endian_words() {
    let bytes = Message::ClientResult {
        task_id: 1,
        result: vec![Type::Void, Type::I32(-2), Type::I64(1), Type::F32(0x3f80_0000), Type::V128(-1)],
    }
    .encode()
    .unwrap();
    let mut expected = vec![4u8, 1, 5];
    expected.extend_from_slice(&[0, 0]);
    expected.extend_from_slice(&[1, 1, 0xff, 0xff, 0xff, 0xfe]);
    expected.extend_from_slice(&[2, 2, 0, 0, 0, 0, 0, 0, 0, 1]);
    expected.extend_from_slice(&[3, 1, 0x3f, 0x80, 0, 0]);
    expected.extend_from_slice(&[5, 4]);
    expected.extend_from_slice(&[0xff; 16]);
    assert_eq!(&bytes[..2], &[0, expected.len() as u8]);
    assert_eq!(&bytes[2..], &expected[..]);
}

#[test]
fn decode_accepts_integers_that_are_not_in_shortest_form() {
    let bytes = vec![0, 4, 6, 251, 0, 9];
    let (decoded, consumed) = Message::decode(&bytes).unwrap();
    assert_eq!(decoded, Message::Heartbeat { timestamp: 9 });
    assert_eq!(consumed, 6);
}

#[test]
fn decode_refuses_a_payload_longer_than_its_message() {
    let bytes = vec![0, 3, 6, 9, 0];
    assert!(matches!(Message::decode(&bytes).unwrap_err(), Error::InvalidMessage));
}

#[test]
fn decode_refuses_a_word_count_that_does_not_match_the_tag() {
    let bytes = vec![0, 9, 4, 1, 1, 1, 2, 0, 0, 0, 0];
    assert!(matches!(Message::decode(&bytes).unwrap_err(), Error::Malformed));
}

#[test]
fn decode_refuses_text_that_is_not_utf8() {
    let bytes = vec![0, 5, 0, 1, 1, 0xff, 0];
    assert!(matches!(Message::decode(&bytes).unwrap_err(), Error::Malformed));
}

#[test]
fn primitive_encodings_agree_with_bincode() {
    let config = bincode::config::standard().with_variable_int_encoding().with_big_endian();
    for value in [0u64, 1, 250, 251, 65535, 65536, 0xffff_ffff, 0x1_0000_0000, u64::MAX] {
        let ours = Message::Heartbeat { timestamp: value }.encode().unwrap();
        let theirs = bincode::encode_to_vec(value, config).unwrap();
        assert_eq!(&ours[3..], &theirs[..]);
    }
    let names: Vec<String> = vec!["alpha".into(), "".into(), "häagen".into()];
    let ours = Message::ClientReady { modules: names.clone(), device_ram: 77 }.encode().unwrap();
    let mut theirs = bincode::encode_to_vec(0u32, config).unwrap();
    theirs.extend(bincode::encode_to_vec(&names, config).unwrap());
    theirs.extend(bincode::encode_to_vec(77u64, config).unwrap());
    assert_eq!(&ours[2..], &theirs[..]);
    let chunk: Vec<u8> = (0..=255).collect();
    let ours = Message::ServerModule { task_id: 5, chunk_index: 70000, chunk_data: chunk.clone() }
        .encode()
        .unwrap();
    let mut theirs = bincode::encode_to_vec(2u32, config).unwrap();
    theirs.extend(bincode::encode_to_vec(5u64, config).unwrap());
    theirs.extend(bincode::encode_to_vec(70000u32, config).unwrap());
    theirs.extend(bincode::encode_to_vec(&chunk, config).unwrap());
    assert_eq!(&ours[2..], &theirs[..]);
}
