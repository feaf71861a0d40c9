use puffin::protocol::{
    check_server_version, packet_header, u16_from_le_bytes, u16_to_le_bytes, u32_from_le_bytes,
    ProtocolError, DEFAULT_PORT, PROTOCOL_VERSION,
};

#[test]
fn protocol_constants() {
    assert_eq!(PROTOCOL_VERSION, 2);
    assert_eq!(DEFAULT_PORT, 8585);
}

#[test]
fn packet_header_is_version_le() {
    assert_eq!(packet_header(), vec![2u8, 0u8]);
    assert_eq!(packet_header(), PROTOCOL_VERSION.to_le_bytes().to_vec());
}

#[test]
fn version_bytes_round_trip() {
    for v in [0u16, 1, 2, 255, 256, 0x1234, u16::MAX] {
        let b = u16_to_le_bytes(v);
        assert_eq!(b, v.to_le_bytes());
        assert_eq!(u16_from_le_bytes(b), v);
    }
    assert_eq!(u16_from_le_bytes([0x34, 0x12]), 0x1234);
}

#[test]
fn message_len_decoding() {
    assert_eq!(u32_from_le_bytes([0x78, 0x56, 0x34, 0x12]), 0x1234_5678);
    assert_eq!(u32_from_le_bytes([0xff, 0xff, 0xff, 0xff]), u32::MAX);
    assert_eq!(u32_from_le_bytes([0, 0, 0, 0]), 0);
}

#[test]
fn server_version_check() {
    assert_eq!(check_server_version(2), Ok(()));
    assert_eq!(
        check_server_version(1),
        Err(ProtocolError::OlderServer { server: 1, client: 2 })
    );
    assert_eq!(
        check_server_version(3),
        Err(ProtocolError::NewerServer { server: 3, client: 2 })
    );
}
