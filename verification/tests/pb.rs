use moshcatty::error::ProtobufError;
use moshcatty::pb::{HostInstruction, TransportInstruction, UserInstruction};

// Cases adapted from unixshells/mosh-go pb_test.go

#[test]
fn transport_roundtrip_always_emits_nums() {
    let msg = TransportInstruction {
        protocol_version: 2,
        old_num: 0,
        new_num: 1,
        ack_num: 0,
        throwaway_num: 0,
        diff: b"hello from server".to_vec(),
        chaff: vec![],
    };
    let encoded = msg.encode();
    // old_num=0 is still present as a field (mosh-go always encodes).
    assert!(encoded.len() > 10);
    let decoded = TransportInstruction::decode(&encoded).unwrap();
    assert_eq!(decoded, msg);
}

#[test]
fn transport_instruction_full_roundtrip() {
    let ti = TransportInstruction {
        protocol_version: 2,
        old_num: 10,
        new_num: 11,
        ack_num: 9,
        throwaway_num: 8,
        diff: b"hello".to_vec(),
        chaff: vec![0xde, 0xad],
    };
    let got = TransportInstruction::decode(&ti.encode()).unwrap();
    assert_eq!(got, ti);
}

#[test]
fn transport_instruction_empty() {
    let ti = TransportInstruction::default();
    let got = TransportInstruction::decode(&ti.encode()).unwrap();
    assert_eq!(got.old_num, 0);
    assert_eq!(got.new_num, 0);
    assert!(got.diff.is_empty());
}

#[test]
fn transport_instruction_large_values() {
    let ti = TransportInstruction {
        old_num: (1u64 << 63) - 1,
        new_num: (1u64 << 63) - 1,
        ack_num: (1u64 << 63) - 1,
        throwaway_num: (1u64 << 63) - 1,
        ..Default::default()
    };
    let got = TransportInstruction::decode(&ti.encode()).unwrap();
    assert_eq!(got.old_num, ti.old_num);
    assert_eq!(got.new_num, ti.new_num);
    assert_eq!(got.ack_num, ti.ack_num);
    assert_eq!(got.throwaway_num, ti.throwaway_num);
}

#[test]
fn transport_malformed_truncated_varint() {
    let data = vec![0x80u8; 20];
    assert!(TransportInstruction::decode(&data).is_err());
}

#[test]
fn transport_malformed_length_exceeds_buffer() {
    // Field 6 (diff bytes): tag (6<<3)|2 = 0x32, claim huge length.
    let mut data = vec![0x32];
    // varint 1<<30
    let mut v = 1u64 << 30;
    while v >= 0x80 {
        data.push((v as u8) | 0x80);
        v >>= 7;
    }
    data.push(v as u8);
    data.extend_from_slice(&[0x01, 0x02, 0x03, 0x04]);
    assert!(TransportInstruction::decode(&data).is_err());
}

#[test]
fn transport_empty_input_ok() {
    let got = TransportInstruction::decode(&[]).unwrap();
    assert_eq!(got, TransportInstruction::default());
}

#[test]
fn transport_unknown_field_skipped() {
    // field 99 wire type 0 (varint) value 1, then valid field 3 new_num=5
    // tag for field 99 wire 0: (99<<3)|0 = 792 = 0x318 → varint 0x98 0x06
    let mut data = vec![0x98, 0x06, 0x01];
    // field 3 new_num: tag (3<<3)|0 = 0x18, value 5
    data.extend_from_slice(&[0x18, 0x05]);
    let got = TransportInstruction::decode(&data).unwrap();
    assert_eq!(got.new_num, 5);
}

#[test]
fn user_keystroke_and_resize() {
    let msg = UserInstruction::encode_message(&[
        UserInstruction::keystroke(b"ls\n"),
        UserInstruction::resize(80, 24),
    ]);
    assert!(msg.windows(3).any(|w| w == b"ls\n"));
    assert!(msg.contains(&80));
    assert!(msg.contains(&24));
}

#[test]
fn user_message_roundtrip() {
    let instrs = vec![
        UserInstruction::keystroke(b"ls -la\n"),
        UserInstruction::resize(120, 40),
        UserInstruction {
            keys: b"a".to_vec(),
            width: 80,
            height: 24,
        },
    ];
    let enc = UserInstruction::encode_message(&instrs);
    let got = UserInstruction::decode_message(&enc).unwrap();
    assert_eq!(got.len(), instrs.len());
    for (a, b) in got.iter().zip(instrs.iter()) {
        assert_eq!(a.keys, b.keys);
        assert_eq!(a.width, b.width);
        assert_eq!(a.height, b.height);
    }
}

#[test]
fn user_message_empty() {
    let enc = UserInstruction::encode_message(&[]);
    let got = UserInstruction::decode_message(&enc).unwrap();
    assert!(got.is_empty());
}

#[test]
fn host_message_roundtrip() {
    let instrs = vec![
        HostInstruction {
            hoststring: b"\x1b[H\x1b[2J".to_vec(),
            echo_ack_num: -1,
            ..Default::default()
        },
        HostInstruction {
            width: 80,
            height: 24,
            echo_ack_num: -1,
            ..Default::default()
        },
        HostInstruction {
            echo_ack_num: 42,
            ..Default::default()
        },
        HostInstruction {
            hoststring: b"hello".to_vec(),
            width: 132,
            height: 43,
            echo_ack_num: 7,
        },
    ];
    let enc = HostInstruction::encode_message(&instrs);
    let got = HostInstruction::decode_message(&enc).unwrap();
    assert_eq!(got.len(), instrs.len());
    for (a, b) in got.iter().zip(instrs.iter()) {
        assert_eq!(a.hoststring, b.hoststring);
        assert_eq!(a.width, b.width);
        assert_eq!(a.height, b.height);
        assert_eq!(a.echo_ack_num, b.echo_ack_num);
    }
}

#[test]
fn host_message_empty() {
    let enc = HostInstruction::encode_message(&[]);
    let got = HostInstruction::decode_message(&enc).unwrap();
    assert!(got.is_empty());
}

// ---------------------------------------------------------------- more cases

#[test]
fn transport_default_encodes_the_four_numbers() {
    let enc = TransportInstruction::default().encode();
    assert_eq!(enc, vec![0x10, 0x00, 0x18, 0x00, 0x20, 0x00, 0x28, 0x00]);
}

#[test]
fn transport_exact_encoding() {
    let ti = TransportInstruction {
        protocol_version: 2,
        old_num: 300,
        new_num: 1,
        ack_num: 0,
        throwaway_num: 0,
        diff: vec![0xaa],
        chaff: vec![0xbb, 0xcc],
    };
    assert_eq!(
        ti.encode(),
        vec![
            0x08, 0x02, 0x10, 0xac, 0x02, 0x18, 0x01, 0x20, 0x00, 0x28, 0x00, 0x32, 0x01, 0xaa,
            0x3a, 0x02, 0xbb, 0xcc
        ]
    );
}

#[test]
fn transport_max_u64_roundtrip() {
    let ti = TransportInstruction {
        protocol_version: u32::MAX,
        old_num: u64::MAX,
        new_num: u64::MAX - 1,
        ack_num: 1 << 56,
        throwaway_num: 127,
        ..Default::default()
    };
    let enc = ti.encode();
    assert_eq!(TransportInstruction::decode(&enc).unwrap(), ti);
}

#[test]
fn transport_protocol_version_keeps_low_32_bits() {
    // field 1, value 2^32 + 5
    let mut data = vec![0x08];
    let mut v = (1u64 << 32) + 5;
    while v >= 0x80 {
        data.push((v as u8) | 0x80);
        v >>= 7;
    }
    data.push(v as u8);
    let got = TransportInstruction::decode(&data).unwrap();
    assert_eq!(got.protocol_version, 5);
}

#[test]
fn transport_last_field_wins() {
    let data = vec![0x18, 0x05, 0x18, 0x07];
    assert_eq!(TransportInstruction::decode(&data).unwrap().new_num, 7);
}

#[test]
fn varint_ten_bytes_wraps() {
    // field 2 with a ten-byte varint whose last byte sets bit 63 and bit 70
    let mut data = vec![0x10];
    data.extend_from_slice(&[0x80; 9]);
    data.push(0x03);
    assert_eq!(TransportInstruction::decode(&data).unwrap().old_num, 1u64 << 63);
}

#[test]
fn error_truncated_varint() {
    assert_eq!(
        TransportInstruction::decode(&[0x80u8; 5]),
        Err(ProtobufError::TruncatedVarint)
    );
    assert_eq!(
        TransportInstruction::decode(&[0x10, 0x80]),
        Err(ProtobufError::TruncatedVarint)
    );
}

#[test]
fn error_varint_too_long() {
    assert_eq!(
        TransportInstruction::decode(&[0x80u8; 20]),
        Err(ProtobufError::VarintTooLong)
    );
}

#[test]
fn error_truncated_bytes() {
    assert_eq!(
        TransportInstruction::decode(&[0x32, 0x05, 0x01]),
        Err(ProtobufError::TruncatedBytes)
    );
}

#[test]
fn error_truncated_skip() {
    // field 9, wire type 2, claims 5 bytes
    assert_eq!(
        TransportInstruction::decode(&[0x4a, 0x05, 0x01]),
        Err(ProtobufError::TruncatedSkip)
    );
    // field 1 sent as bytes is skipped, not read
    assert_eq!(
        TransportInstruction::decode(&[0x0a, 0x05, 0x01]),
        Err(ProtobufError::TruncatedSkip)
    );
}

#[test]
fn error_unknown_wire_type() {
    // field 1, wire type 3
    assert_eq!(
        TransportInstruction::decode(&[0x0b]),
        Err(ProtobufError::UnknownWireType(3))
    );
}

#[test]
fn fixed_width_fields_are_skipped() {
    // field 9 fixed32, field 10 fixed64, then new_num = 4
    let mut data = vec![0x4d, 1, 2, 3, 4, 0x51, 1, 2, 3, 4, 5, 6, 7, 8];
    data.extend_from_slice(&[0x18, 0x04]);
    assert_eq!(TransportInstruction::decode(&data).unwrap().new_num, 4);
}

#[test]
fn unknown_varint_prefix_is_skipped() {
    let ti = TransportInstruction {
        protocol_version: 2,
        new_num: 3,
        diff: b"x".to_vec(),
        ..Default::default()
    };
    let mut data = vec![0x30, 0x07]; // field 6 as a varint: not the diff
    data.extend_from_slice(&ti.encode());
    assert_eq!(TransportInstruction::decode(&data).unwrap(), ti);
}

#[test]
fn user_keystroke_and_resize_constructors() {
    let k = UserInstruction::keystroke(b"q");
    assert_eq!(k, UserInstruction { keys: b"q".to_vec(), width: 0, height: 0 });
    let r = UserInstruction::resize(3, -4);
    assert_eq!(r, UserInstruction { keys: vec![], width: 3, height: -4 });
}

#[test]
fn user_exact_encoding() {
    let enc = UserInstruction::encode_message(&[UserInstruction {
        keys: b"a".to_vec(),
        width: 80,
        height: 24,
    }]);
    assert_eq!(
        enc,
        vec![0x0a, 0x0b, 0x12, 0x03, 0x22, 0x01, b'a', 0x1a, 0x04, 0x28, 0x50, 0x30, 0x18]
    );
}

#[test]
fn user_negative_height_roundtrips_when_width_positive() {
    let instrs = vec![UserInstruction::resize(5, -3)];
    let got = UserInstruction::decode_message(&UserInstruction::encode_message(&instrs)).unwrap();
    assert_eq!(got, instrs);
}

#[test]
fn user_nonpositive_resize_is_not_sent() {
    let instrs = vec![UserInstruction::resize(-1, 0)];
    let enc = UserInstruction::encode_message(&instrs);
    assert_eq!(enc, vec![0x0a, 0x00]);
    let got = UserInstruction::decode_message(&enc).unwrap();
    assert_eq!(got, vec![UserInstruction::default()]);
}

#[test]
fn user_repeated_keys_accumulate() {
    // one instruction, keystroke with keys "a" then keys "b"
    let data = vec![0x0a, 0x08, 0x12, 0x06, 0x22, 0x01, b'a', 0x22, 0x01, b'b'];
    let got = UserInstruction::decode_message(&data).unwrap();
    assert_eq!(got[0].keys, b"ab".to_vec());
}

#[test]
fn user_inner_error_is_reported() {
    // instruction whose keystroke holds a truncated keys field
    let data = vec![0x0a, 0x04, 0x12, 0x02, 0x22, 0x05];
    assert_eq!(
        UserInstruction::decode_message(&data),
        Err(ProtobufError::TruncatedBytes)
    );
}

#[test]
fn host_echo_absent_decodes_as_minus_one() {
    let got = HostInstruction::decode_message(&[0x0a, 0x00]).unwrap();
    assert_eq!(got[0].echo_ack_num, -1);
    assert!(got[0].hoststring.is_empty());
}

#[test]
fn host_echo_below_minus_one_is_not_sent() {
    let instrs = vec![HostInstruction { echo_ack_num: -2, ..Default::default() }];
    let got = HostInstruction::decode_message(&HostInstruction::encode_message(&instrs)).unwrap();
    assert_eq!(got[0].echo_ack_num, -1);
}

#[test]
fn host_exact_encoding() {
    let enc = HostInstruction::encode_message(&[HostInstruction {
        hoststring: b"hi".to_vec(),
        width: 0,
        height: 0,
        echo_ack_num: 7,
    }]);
    assert_eq!(
        enc,
        vec![0x0a, 0x0a, 0x12, 0x04, 0x22, 0x02, b'h', b'i', 0x3a, 0x02, 0x40, 0x07]
    );
}

#[test]
fn host_last_hoststring_wins() {
    let data = vec![0x0a, 0x08, 0x12, 0x06, 0x22, 0x01, b'a', 0x22, 0x01, b'b'];
    let got = HostInstruction::decode_message(&data).unwrap();
    assert_eq!(got[0].hoststring, b"b".to_vec());
}

#[test]
fn overrun_checks() {
    // field 1 as fixed32 with no bytes after the key
    assert!(TransportInstruction::decode_overruns(&[0x0d]));
    assert!(!TransportInstruction::decode_overruns(&[0x0d, 1, 2, 3, 4]));
    assert!(!TransportInstruction::decode_overruns(&[0x80]));
    // an instruction holding a fixed64 with two bytes
    assert!(UserInstruction::decode_message_overruns(&[0x0a, 0x03, 0x09, 1, 2]));
    assert!(HostInstruction::decode_message_overruns(&[0x0a, 0x03, 0x09, 1, 2]));
    assert!(!UserInstruction::decode_message_overruns(&[0x0a, 0x00]));
    assert!(!HostInstruction::decode_message_overruns(&[0x0a, 0x00]));
}

#[test]
fn user_message_roundtrip_as_sent() {
    let instrs = vec![
        UserInstruction { keys: b"k".to_vec(), width: -1, height: -1 },
        UserInstruction { keys: vec![], width: 0, height: 7 },
    ];
    let got = UserInstruction::decode_message(&UserInstruction::encode_message(&instrs)).unwrap();
    assert_eq!(
        got,
        vec![
            UserInstruction { keys: b"k".to_vec(), width: 0, height: 0 },
            UserInstruction { keys: vec![], width: 0, height: 7 },
        ]
    );
}

#[test]
fn host_message_roundtrip_as_sent() {
    let instrs = vec![HostInstruction {
        hoststring: b"z".to_vec(),
        width: -3,
        height: 0,
        echo_ack_num: -5,
    }];
    let got = HostInstruction::decode_message(&HostInstruction::encode_message(&instrs)).unwrap();
    assert_eq!(
        got,
        vec![HostInstruction { hoststring: b"z".to_vec(), width: 0, height: 0, echo_ack_num: -1 }]
    );
}

#[test]
fn concatenated_messages_decode_to_concatenated_lists() {
    let a = vec![UserInstruction::keystroke(b"a"), UserInstruction::resize(1, 2)];
    let b = vec![UserInstruction::keystroke(b"b")];
    let mut bytes = UserInstruction::encode_message(&a);
    bytes.extend_from_slice(&UserInstruction::encode_message(&b));
    let mut both = a.clone();
    both.extend(b.clone());
    assert_eq!(UserInstruction::decode_message(&bytes).unwrap(), both);

    let x = vec![HostInstruction { echo_ack_num: 3, ..Default::default() }];
    let y = vec![HostInstruction { hoststring: b"q".to_vec(), echo_ack_num: -1, ..Default::default() }];
    let mut hb = HostInstruction::encode_message(&x);
    hb.extend_from_slice(&HostInstruction::encode_message(&y));
    let got = HostInstruction::decode_message(&hb).unwrap();
    assert_eq!(got, vec![x[0].clone(), y[0].clone()]);
}
