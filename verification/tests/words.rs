use wordle_scorer::word::{parse_word, parse_words, MalformedLine, WORD_LEN};

#[test]
fn word_length_is_five() {
    assert_eq!(WORD_LEN, 5);
}

#[test]
fn five_bytes_are_a_word() {
    assert_eq!(parse_word(b"abcde"), Some(*b"abcde"));
    assert_eq!(parse_word(&[0, 1, 2, 3, 255]), Some([0, 1, 2, 3, 255]));
}

#[test]
fn other_lengths_are_no_word() {
    assert_eq!(parse_word(b""), None);
    assert_eq!(parse_word(b"abcd"), None);
    assert_eq!(parse_word(b"abcdef"), None);
    // Four letters, one of them two bytes long.
    assert_eq!(parse_word("abc\u{e9}".as_bytes()), Some([b'a', b'b', b'c', 0xc3, 0xa9]));
    assert_eq!(parse_word("abcd\u{e9}".as_bytes()), None);
}

#[test]
fn lines_become_words_in_order() {
    let lines = vec![b"abcde".to_vec(), b"fghij".to_vec(), b"abcde".to_vec()];
    assert_eq!(
        parse_words(&lines),
        Ok(vec![*b"abcde", *b"fghij", *b"abcde"])
    );
}

#[test]
fn empty_list_has_no_words() {
    assert_eq!(parse_words(&Vec::new()), Ok(Vec::new()));
}

#[test]
fn first_malformed_line_is_reported() {
    let lines = vec![
        b"abcde".to_vec(),
        b"abcd".to_vec(),
        b"fghij".to_vec(),
        b"toolong".to_vec(),
    ];
    assert_eq!(parse_words(&lines), Err(MalformedLine { line: 1, len: 4 }));
}

#[test]
fn empty_line_is_malformed() {
    let lines = vec![b"abcde".to_vec(), Vec::new()];
    assert_eq!(parse_words(&lines), Err(MalformedLine { line: 1, len: 0 }));
}
