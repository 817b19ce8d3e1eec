use wasm_types::Sender;

#[test]
fn sender_encode_decode_works() {
    let tests = [(Sender::Host, "Host"), (Sender::Wasm, "Wasm")];
    for (sender, display) in tests {
        let encoded = sender.encode();
        let decoded = Sender::decode_all(encoded.as_slice()).unwrap();
        assert_eq!(decoded, sender);
        assert_eq!(format!("{}", sender.name()), display);
    }
}
