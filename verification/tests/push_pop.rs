use wasm_types::BoundedString;

#[test]
fn push_then_pop_restores_content() {
    let mut s = BoundedString::from_str("ab");
    assert!(s.try_push('é'));
    assert_eq!(s.as_str(), "abé");
    assert_eq!(s.pop(), Some('é'));
    assert_eq!(s.as_str(), "ab");
    assert_eq!(s.len(), 2);
}

#[test]
fn pop_returns_last_character() {
    let mut s = BoundedString::from_str("abč");
    assert_eq!(s.pop(), Some('č'));
    assert_eq!(s.pop(), Some('b'));
    assert_eq!(s.pop(), Some('a'));
    assert_eq!(s.pop(), None);
    assert!(s.is_empty());
}

#[test]
fn pop_empty_returns_none() {
    let mut s = BoundedString::new();
    assert_eq!(s.pop(), None);
    assert!(s.is_empty());
    assert_eq!(s.len(), 0);
}

#[test]
fn push_rejected_when_full() {
    let mut s = BoundedString::from_str(&"a".repeat(127));
    assert_eq!(s.len(), 127);
    assert!(!s.try_push('x'));
    assert_eq!(s.len(), 127);

    // a multi-byte character that does not fit is rejected whole, never
    // partially written
    let mut t = BoundedString::from_str(&"a".repeat(126));
    assert!(!t.try_push('❤'));
    assert_eq!(t.len(), 126);
    assert!(t.try_push('b'));
    assert_eq!(t.len(), 127);
}

#[test]
fn push_four_byte_character() {
    let mut s = BoundedString::new();
    assert!(s.try_push('💜'));
    assert_eq!(s.len(), 4);
    assert_eq!(s.as_str(), "💜");
    assert_eq!(s.pop(), Some('💜'));
    assert!(s.is_empty());
}

#[test]
fn chars_lists_characters() {
    let word = BoundedString::from_str("goodbye");
    assert_eq!(word.chars(), vec!['g', 'o', 'o', 'd', 'b', 'y', 'e']);

    let y = BoundedString::from_str("y̆");
    assert_eq!(y.chars(), vec!['y', '\u{0306}']);
}
