use custom_dmq::error::DmqError;
use custom_dmq::message::{HandshakeRequest, Message};
use custom_dmq::protocol::{
    encode_v2_frame, flag_enabled, negotiated_version, parse_v2_body, process_handshake, validate_protocol_version,
    Frame, WireFormat,
};

#[test]
fn validate_rejects_unknown_version() {
    assert!(validate_protocol_version(99).is_err());
    assert_eq!(validate_protocol_version(2).unwrap(), 2);
}

#[test]
fn v2_frame_preserves_correlation_id() {
    let frame = Frame::v2(42, Message::Handshake(HandshakeRequest { protocol_version: 2, auth_token: b"secret".to_vec() }));
    let wire = encode_v2_frame(&frame).unwrap();
    assert_eq!(wire[0], 0xFF);
    assert_eq!(wire[1], 2);
    let len = u16::from_be_bytes([wire[2], wire[3]]) as usize;
    assert_eq!(len, wire.len() - 4);
    let (decoded, format) = parse_v2_body(&wire[4..]).unwrap();
    assert_eq!(format, WireFormat::V2);
    assert_eq!(decoded.correlation_id, 42);
    assert_eq!(decoded.message, frame.message);
}

#[test]
fn v2_body_errors() {
    assert_eq!(parse_v2_body(&[2, 0, 0]).unwrap_err(), DmqError::FrameTooShort);
    assert_eq!(parse_v2_body(&[3, 0, 0, 0, 0, 1]).unwrap_err(), DmqError::UnsupportedFrameVersion(3));
}

#[test]
fn handshake_checks_token_then_version() {
    let ok = HandshakeRequest { protocol_version: 2, auth_token: b"secret".to_vec() };
    assert_eq!(process_handshake(&ok, Some(b"secret")), Ok(2));
    assert_eq!(process_handshake(&ok, None), Ok(2));
    let bad_token = HandshakeRequest { protocol_version: 2, auth_token: b"wrong".to_vec() };
    assert_eq!(process_handshake(&bad_token, Some(b"secret")), Err((2, "invalid auth token".to_string())));
    let bad_version = HandshakeRequest { protocol_version: 7, auth_token: vec![] };
    assert_eq!(
        process_handshake(&bad_version, None),
        Err((1, "unsupported protocol version 7; max supported 2".to_string()))
    );
}

#[test]
fn settings_and_negotiation() {
    assert!(flag_enabled(Some(b"1")));
    assert!(flag_enabled(Some(b"TRUE")));
    assert!(!flag_enabled(Some(b"0")));
    assert!(!flag_enabled(None));
    assert_eq!(negotiated_version(None), 2);
    assert_eq!(negotiated_version(Some(0)), 1);
    assert_eq!(negotiated_version(Some(9)), 2);
    assert_eq!(negotiated_version(Some(1)), 1);
}

#[test]
fn v1_frame_roundtrip() {
    let frame = Frame::v1(Message::Echo("hi".into()));
    let wire = custom_dmq::protocol::encode_v1_frame(&frame.message).unwrap();
    assert_eq!(wire[0] as usize, wire.len() - 1);
    let decoded = Frame::v1(custom_dmq::message::parse_frame(&wire[1..]).unwrap());
    assert_eq!(decoded, frame);
}

#[test]
fn validate_accepts_matching_token() {
    assert!(custom_dmq::auth::validate_token(b"secret", Some(b"secret")).is_ok());
    assert!(custom_dmq::auth::validate_token(b"wrong", Some(b"secret")).is_err());
}
