use protocol::connection::{Connection, ConnectionError, ConnectionState, PollOutcome};
use protocol::crypto::XorCryptoMode;
use protocol::packet::{Packet, PacketRegistry, RegisteredPacketImpl, UnknownPacket};
use protocol::value::{TypeTag, Value};

fn sample_registry() -> PacketRegistry {
    let mut reg = PacketRegistry::new();
    reg.register_packet(RegisteredPacketImpl::new(
        5,
        2,
        vec![TypeTag::Int, TypeTag::Str],
    ))
    .unwrap();
    reg
}

fn sample_packet() -> Packet {
    Packet::Known {
        packet_id: 5,
        model_id: 2,
        fields: vec![Value::Int(77), Value::Str("frame".to_string())],
    }
}

#[test]
fn frame_round_trip_over_a_pair_of_connections() {
    let mut sender = Connection::new(sample_registry());
    let mut receiver = Connection::new(sample_registry());
    sender.send(&sample_packet()).unwrap();
    let bytes = sender.outgoing().clone();
    let n = bytes.len();
    sender.mark_sent(n);
    assert!(sender.outgoing().is_empty());

    receiver.receive(&bytes);
    match receiver.poll_packet() {
        PollOutcome::Packet(p) => assert_eq!(p, sample_packet()),
        other => panic!("expected a packet, got {:?}", other),
    }
    assert!(matches!(receiver.poll_packet(), PollOutcome::Pending));
}

#[test]
fn frame_layout_is_length_id_payload() {
    let mut sender = Connection::new(sample_registry());
    sender.send(&sample_packet()).unwrap();
    let bytes = sender.outgoing();
    // 8-byte header, 4-byte int field, then the string field:
    // flag + length + 5 UTF-8 bytes.
    assert_eq!(bytes.len(), 8 + 4 + 1 + 4 + 5);
    let total = bytes.len() as u32;
    assert_eq!(&bytes[0..4], total.to_be_bytes().as_slice());
    assert_eq!(&bytes[4..8], 5i32.to_be_bytes().as_slice());
}

#[test]
fn chunked_delivery_equals_single_delivery() {
    let mut sender = Connection::new(sample_registry());
    sender.send(&sample_packet()).unwrap();
    let bytes = sender.outgoing().clone();

    // One chunk.
    let mut whole = Connection::new(sample_registry());
    whole.receive(&bytes);
    let from_whole = match whole.poll_packet() {
        PollOutcome::Packet(p) => p,
        other => panic!("expected a packet, got {:?}", other),
    };

    // Byte-by-byte, polling in between: exactly one packet at the end.
    let mut pieces = Connection::new(sample_registry());
    for (i, b) in bytes.iter().enumerate() {
        if i + 1 < bytes.len() {
            pieces.receive(&[*b]);
            assert!(matches!(pieces.poll_packet(), PollOutcome::Pending));
        } else {
            pieces.receive(&[*b]);
        }
    }
    let from_pieces = match pieces.poll_packet() {
        PollOutcome::Packet(p) => p,
        other => panic!("expected a packet, got {:?}", other),
    };
    assert_eq!(from_pieces, from_whole);
    assert_eq!(from_pieces, sample_packet());
    assert!(matches!(pieces.poll_packet(), PollOutcome::Pending));
}

#[test]
fn two_frames_arrive_in_order() {
    let mut sender = Connection::new(sample_registry());
    let first = sample_packet();
    let second = Packet::Known {
        packet_id: 5,
        model_id: 2,
        fields: vec![Value::Int(-1), Value::Str(String::new())],
    };
    sender.send(&first).unwrap();
    sender.send(&second).unwrap();
    let bytes = sender.outgoing().clone();

    let mut receiver = Connection::new(sample_registry());
    receiver.receive(&bytes);
    match receiver.poll_packet() {
        PollOutcome::Packet(p) => assert_eq!(p, first),
        other => panic!("expected the first packet, got {:?}", other),
    }
    match receiver.poll_packet() {
        PollOutcome::Packet(p) => assert_eq!(p, second),
        other => panic!("expected the second packet, got {:?}", other),
    }
    assert!(matches!(receiver.poll_packet(), PollOutcome::Pending));
}

fn oversized_case(length_field: u32, reported: usize) {
    let mut receiver = Connection::new(sample_registry());
    let mut bytes = length_field.to_be_bytes().to_vec();
    bytes.extend_from_slice(&[0, 0, 0, 0]);
    receiver.receive(&bytes);
    match receiver.poll_packet() {
        PollOutcome::Failed(e) => {
            assert_eq!(e, ConnectionError::InvalidPacketSize(reported));
        },
        other => panic!("expected a framing failure, got {:?}", other),
    }
    assert_eq!(receiver.state(), ConnectionState::Disconnected);
    // Once disconnected, the packet sequence is exhausted for good.
    assert!(matches!(receiver.poll_packet(), PollOutcome::Closed));
    assert!(matches!(receiver.poll_packet(), PollOutcome::Closed));
}

#[test]
fn zero_length_frame_is_rejected() {
    oversized_case(0, 0);
}

#[test]
fn seven_byte_frame_is_rejected() {
    oversized_case(7, 7);
}

#[test]
fn oversized_frame_is_rejected() {
    oversized_case(70000, 70000);
}

#[test]
fn unknown_id_yields_an_unknown_packet_with_exact_payload() {
    let mut receiver = Connection::new(sample_registry());
    let payload: Vec<u8> = vec![0xde, 0xad, 0xbe, 0xef, 0x00];
    let mut frame = ((8 + payload.len()) as u32).to_be_bytes().to_vec();
    frame.extend_from_slice(&999i32.to_be_bytes());
    frame.extend_from_slice(&payload);
    receiver.receive(&frame);
    match receiver.poll_packet() {
        PollOutcome::Packet(p) => {
            let up = p.as_unknown().expect("expected an unknown packet");
            assert_eq!(up.packet_id(), 999);
            assert_eq!(up.payload(), &payload);
        },
        other => panic!("expected a packet, got {:?}", other),
    }
    assert_eq!(receiver.state(), ConnectionState::Connected);
}

#[test]
fn unknown_packet_payload_is_sent_verbatim() {
    let mut sender = Connection::new(sample_registry());
    let packet = Packet::Unknown(UnknownPacket::new(321, vec![1, 2, 3]));
    sender.send(&packet).unwrap();
    let bytes = sender.outgoing();
    assert_eq!(bytes.len(), 11);
    assert_eq!(&bytes[0..4], 11u32.to_be_bytes().as_slice());
    assert_eq!(&bytes[4..8], 321i32.to_be_bytes().as_slice());
    assert_eq!(&bytes[8..], &[1, 2, 3]);
}

#[test]
fn malformed_payload_is_a_terminal_decode_error() {
    let mut receiver = Connection::new(sample_registry());
    // Packet id 5 wants an int and a string; hand it one lone byte.
    let frame: Vec<u8> = vec![0, 0, 0, 9, 0, 0, 0, 5, 0xff];
    receiver.receive(&frame);
    match receiver.poll_packet() {
        PollOutcome::Failed(ConnectionError::DecodeError(_)) => {},
        other => panic!("expected a decode failure, got {:?}", other),
    }
    assert_eq!(receiver.state(), ConnectionState::Disconnected);
    assert!(matches!(receiver.poll_packet(), PollOutcome::Closed));
}

#[test]
fn encrypted_frame_round_trip() {
    let key: Vec<i8> = vec![11, -22, 33, -44];
    let mut sender = Connection::new(sample_registry());
    let mut receiver = Connection::new(sample_registry());
    sender.set_crypto(XorCryptoMode::Server, &key);
    receiver.set_crypto(XorCryptoMode::Client, &key);

    sender.send(&sample_packet()).unwrap();
    let bytes = sender.outgoing().clone();
    // The payload region is ciphertext; the header is not encrypted.
    assert_eq!(&bytes[4..8], 5i32.to_be_bytes().as_slice());

    receiver.receive(&bytes);
    match receiver.poll_packet() {
        PollOutcome::Packet(p) => assert_eq!(p, sample_packet()),
        other => panic!("expected a packet, got {:?}", other),
    }

    // A second frame still decrypts: both stream states stay in step.
    sender.send(&sample_packet()).unwrap();
    let more = sender.outgoing().clone();
    receiver.receive(&more[bytes.len()..].to_vec());
    match receiver.poll_packet() {
        PollOutcome::Packet(p) => assert_eq!(p, sample_packet()),
        other => panic!("expected a packet, got {:?}", other),
    }
}

#[test]
fn init_crypto_upgrades_the_cipher_in_place() {
    let mut sender = Connection::new(sample_registry());
    sender.init_crypto().unwrap();
    sender.send(&sample_packet()).unwrap();
    // Under an unknown random key the payload is unreadable to an identity
    // receiver, but the frame header still parses.
    let bytes = sender.outgoing();
    assert_eq!(&bytes[0..4], ((bytes.len()) as u32).to_be_bytes().as_slice());
}

#[test]
fn mark_sent_drains_the_queue_in_order() {
    let mut sender = Connection::new(sample_registry());
    sender.send(&sample_packet()).unwrap();
    let all = sender.outgoing().clone();
    sender.mark_sent(3);
    assert_eq!(sender.outgoing().as_slice(), &all[3..]);
    let rest = sender.outgoing().len();
    sender.mark_sent(rest);
    assert!(sender.outgoing().is_empty());
}

#[test]
fn end_of_stream_disconnects() {
    let mut receiver = Connection::new(sample_registry());
    let err = receiver.on_end_of_stream();
    assert_eq!(err, ConnectionError::SocketEndOfFile);
    assert_eq!(receiver.state(), ConnectionState::Disconnected);
    assert!(matches!(receiver.poll_packet(), PollOutcome::Closed));
}

#[test]
fn send_failure_leaves_the_connection_untouched() {
    let mut sender = Connection::new(sample_registry());
    let unregistered = Packet::Known {
        packet_id: 6,
        model_id: 0,
        fields: vec![],
    };
    match sender.send(&unregistered) {
        Err(ConnectionError::SendError(_)) => {},
        other => panic!("expected a send error, got {:?}", other),
    }
    assert!(sender.outgoing().is_empty());
    assert_eq!(sender.state(), ConnectionState::Connected);
}
