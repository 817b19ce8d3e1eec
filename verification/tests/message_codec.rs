use wasm_types::{BoundedString, Message, Sender};

#[test]
fn lib_encode_decode_works() {
    let message =
        Message { sender: Sender::Wasm, message: BoundedString::from_str("some message") };
    let encoded = message.encode();
    let decoded = Message::decode_all(encoded.as_slice()).unwrap();
    assert_eq!(message, decoded);
}
