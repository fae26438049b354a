use protocol::bytes::ByteReader;
use protocol::codec::CodecError;
use protocol::packet::{Packet, PacketRegistry, RegisteredPacketImpl, UnknownPacket};
use protocol::value::{TypeTag, Value};

fn sample_registry() -> PacketRegistry {
    let mut reg = PacketRegistry::new();
    reg.register_codec(TypeTag::Optional(Box::new(TypeTag::Str))).unwrap();
    reg.register_packet(RegisteredPacketImpl::new(
        5,
        2,
        vec![
            TypeTag::Int,
            TypeTag::Optional(Box::new(TypeTag::Str)),
            TypeTag::Bool,
        ],
    ))
    .unwrap();
    reg
}

fn sample_packet() -> Packet {
    Packet::Known {
        packet_id: 5,
        model_id: 2,
        fields: vec![
            Value::Int(123),
            Value::Optional(Some(Box::new(Value::Str("payload".to_string())))),
            Value::Bool(true),
        ],
    }
}

#[test]
fn packet_decode_eq_encode() {
    let reg = sample_registry();
    let packet = sample_packet();
    let mut encoded: Vec<u8> = Vec::new();
    reg.encode(&mut encoded, &packet).unwrap();
    let mut reader = ByteReader::new(encoded);
    let decoded = reg.decode(&mut reader, 5).unwrap().unwrap();
    assert_eq!(decoded, packet);
}

#[test]
fn unregistered_id_decodes_to_none() {
    let reg = sample_registry();
    let mut reader = ByteReader::new(vec![0, 0, 0, 1]);
    assert!(reg.decode(&mut reader, 99).unwrap().is_none());
}

#[test]
fn duplicate_packet_registration_is_a_fatal_configuration_error() {
    let mut reg = PacketRegistry::new();
    reg.register_packet(RegisteredPacketImpl::new(7, 1, vec![TypeTag::Int]))
        .unwrap();
    // Same id again, even with another schema: rejected at build time.
    assert_eq!(
        reg.register_packet(RegisteredPacketImpl::new(7, 3, vec![TypeTag::Bool])),
        Err(CodecError::InvalidArgument)
    );
    // A different id is still fine, and decoding never reports the
    // configuration error: an absent id is merely `None`.
    reg.register_packet(RegisteredPacketImpl::new(8, 1, vec![TypeTag::Int]))
        .unwrap();
    let mut reader = ByteReader::new(vec![0, 0, 0, 1]);
    assert!(reg.decode(&mut reader, 9).unwrap().is_none());
}

#[test]
fn encode_with_unregistered_id_is_no_codec() {
    let reg = sample_registry();
    let packet = Packet::Known {
        packet_id: 6,
        model_id: 2,
        fields: vec![Value::Int(1)],
    };
    let mut encoded: Vec<u8> = Vec::new();
    assert_eq!(reg.encode(&mut encoded, &packet), Err(CodecError::NoCodec));
    assert!(encoded.is_empty());
}

#[test]
fn encode_with_wrong_model_id_is_a_downcast_error() {
    let reg = sample_registry();
    let packet = Packet::Known {
        packet_id: 5,
        model_id: 9,
        fields: vec![
            Value::Int(123),
            Value::Optional(None),
            Value::Bool(false),
        ],
    };
    let mut encoded: Vec<u8> = Vec::new();
    assert_eq!(reg.encode(&mut encoded, &packet), Err(CodecError::DowncastError));
}

#[test]
fn encode_of_unknown_packet_under_registered_id_is_a_downcast_error() {
    let reg = sample_registry();
    let packet = Packet::Unknown(UnknownPacket::new(5, vec![1, 2, 3]));
    let mut encoded: Vec<u8> = Vec::new();
    assert_eq!(reg.encode(&mut encoded, &packet), Err(CodecError::DowncastError));
    let stray = Packet::Unknown(UnknownPacket::new(77, vec![1, 2, 3]));
    assert_eq!(reg.encode(&mut encoded, &stray), Err(CodecError::NoCodec));
}

#[test]
fn unknown_packet_reports_its_parts() {
    let up = UnknownPacket::new(41, vec![9, 8, 7]);
    assert_eq!(up.packet_id(), 41);
    assert_eq!(up.model_id(), i32::MIN);
    assert_eq!(up.payload(), &vec![9, 8, 7]);
    let p = Packet::Unknown(up);
    assert_eq!(p.packet_id(), 41);
    assert_eq!(p.model_id(), i32::MIN);
    assert!(p.as_unknown().is_some());
    assert!(sample_packet().as_unknown().is_none());
}

#[test]
fn packet_accessors_report_ids() {
    let p = sample_packet();
    assert_eq!(p.packet_id(), 5);
    assert_eq!(p.model_id(), 2);
}
