use bswitch::protocol::{
    create_prefixed_message, prefixed_message_len, FrameError, MessageType, MessageWrapper,
};

#[test]
fn message_type_codes() {
    assert_eq!(MessageType::Request.code(), 1);
    assert_eq!(MessageType::Response.code(), 2);
    assert_eq!(MessageType::Notification.code(), 3);
    assert_eq!(MessageType::try_from(2), Ok(MessageType::Response));
    assert_eq!(MessageType::try_from(0), Err(()));
    assert_eq!(MessageType::try_from(4), Err(()));
}

#[test]
fn serialize_layout() {
    let m = MessageWrapper::new(MessageType::Request, 0x0403_0201, "GETA".to_string());
    assert_eq!(m.serialize(), vec![1, 0, 1, 2, 3, 4, b'G', b'E', b'T', b'A']);
}

#[test]
fn deserialize_round_trip() {
    let m = MessageWrapper::new(MessageType::Notification, 77, "h\u{e9}llo".to_string());
    let back = MessageWrapper::deserialize(&m.serialize()).unwrap();
    assert_eq!(back.message_type, MessageType::Notification);
    assert_eq!(back.priority, 0);
    assert_eq!(back.message_id, 77);
    assert_eq!(back.message(), "h\u{e9}llo");
}

#[test]
fn deserialize_errors() {
    assert_eq!(
        MessageWrapper::deserialize(&vec![2, 0, 0, 0, 0]).unwrap_err(),
        FrameError::TooShort
    );
    assert_eq!(
        MessageWrapper::deserialize(&vec![9, 0, 0, 0, 0, 0]).unwrap_err(),
        FrameError::UnknownMessageType(9)
    );
    assert_eq!(
        MessageWrapper::deserialize(&vec![2, 0, 0, 0, 0, 0, 0xc3]).unwrap_err(),
        FrameError::InvalidUtf8
    );
}

#[test]
fn prefixed_frame() {
    let framed = create_prefixed_message(&vec![9, 8, 7]);
    assert_eq!(framed, vec![127, 54, 60, 162, 3, 0, 0, 0, 9, 8, 7]);
    assert_eq!(prefixed_message_len(&framed), 3);
    assert_eq!(prefixed_message_len(&[0, 0, 0, 0, 1, 1, 0, 0]), 257);
}
