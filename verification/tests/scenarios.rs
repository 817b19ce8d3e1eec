use wasm_types::{BoundedString, Message, Sender};

#[test]
fn scenario_host_message_wire_bytes() {
    let message =
        Message { sender: Sender::Host, message: BoundedString::from_str("message from host") };
    let encoded = message.encode();
    let expected: Vec<u8> = vec![
        0x00, 0x11, 0x6d, 0x65, 0x73, 0x73, 0x61, 0x67, 0x65, 0x20, 0x66, 0x72, 0x6f, 0x6d, 0x20,
        0x68, 0x6f, 0x73, 0x74,
    ];
    assert_eq!(encoded, expected);
    let decoded = Message::decode_all(&encoded).unwrap();
    assert_eq!(decoded, message);
}

#[test]
fn scenario_emoji_truncation() {
    let input = format!("{}{}", "a".repeat(127), "❤️");
    assert_eq!(input.len(), 133);
    let bounded = BoundedString::from_str(&input);
    assert_eq!(bounded.len(), 127);
    assert_eq!(bounded.as_str(), "a".repeat(127));
}
