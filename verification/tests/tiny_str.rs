use wasm_types::BoundedString;

#[test]
fn tiny_str_it_works() {
    let tests = ["", "hello", "hello world", "a"];
    for test in tests {
        let s = BoundedString::try_from_str(test).unwrap();
        assert_eq!(s.as_str(), test);
        assert_eq!(format!("{}", s.as_str()), format!("{test}"));
        assert_eq!(format!("{:?}", s.as_str()), format!("{test:?}"));
    }
}
