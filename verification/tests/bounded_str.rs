use unicode_segmentation::UnicodeSegmentation;
use wasm_types::{BoundedString, CHAR_LIMIT};

#[test]
fn bounded_str_it_works() {
    let tests = ["", "hello", "hello world", "a"];
    for test in tests {
        let s = BoundedString::from_str(test);
        assert_eq!(s.as_str(), test);
        assert_eq!(format!("{}", s.as_str()), format!("{test}"));
        assert_eq!(format!("{:?}", s.as_str()), format!("{test:?}"));
    }
}

#[test]
fn test_from_str() {
    // Make sure `BoundedString::from_str` always parses valid utf-8 chars
    // when the provided string is greater than `CHAR_LIMIT`.
    let unicode_chars = "❤️🧡💛💚💙💜";
    assert_eq!(unicode_chars.len(), 26);

    // Notice the number of utf-8 chars isn't the same as the number of
    // Unicode chars. The emoji `❤️` uses 6 bytes, and the first 3 bytes
    // also represents a valid utf-8 char `❤`. For simplicity we only
    // consider the utf-8 char boundary.
    assert_eq!(unicode_chars.graphemes(true).count(), 6);
    assert_eq!(unicode_chars.chars().count(), 7);

    // Get the indices of UTF-8 chars (not unicode).
    let mut indices = unicode_chars.char_indices().map(|i| i.0).collect::<Vec<_>>();

    // Use the indices to compute the byte size of each char.
    let mut prev = indices[0];
    for i in 0..indices.len() {
        indices[i] = indices
            .get(i + 1)
            .copied()
            .map_or_else(|| unicode_chars.len() - indices[i], |next| next - prev);
        prev += indices[i];
    }

    // Create a string we will use in the tests, it must be
    // prefixed with `CHAR_LIMIT` single byte utf-8 chars.
    let input = {
        let prefix_len = usize::max(CHAR_LIMIT, unicode_chars.len());
        let mut s = String::with_capacity(prefix_len + unicode_chars.len());
        // append single utf-8
        while s.len() < prefix_len {
            s.push('a');
        }
        // append unicode suffix.
        s.push_str(unicode_chars);
        s
    };
    // Convert `String` to `&str`
    let mut text = input.as_str();

    // If we pass the whole string to `BoundedString`,
    // it must contain only the prefix.
    let mut bounded = BoundedString::from_str(text);
    assert_eq!(bounded.as_str(), &text[..CHAR_LIMIT]);

    for index in indices {
        for i in 1..index {
            text = &text[1..];
            bounded = BoundedString::from_str(text);
            assert_eq!(bounded.as_str(), &text[0..(CHAR_LIMIT - i)]);
        }
        text = &text[1..];
        bounded = BoundedString::from_str(text);
        assert_eq!(bounded.as_str(), &text[..CHAR_LIMIT]);
    }
    assert!(bounded.as_str().ends_with(unicode_chars));
}
