use wordle_scorer::resume::{init_output, resume_point, same_word, InitError, StoredRow};
use wordle_scorer::word::Word;

fn words() -> Vec<Word> {
    vec![*b"abcde", *b"fghij", *b"klmno"]
}

fn row(score: &str, word: &[u8]) -> StoredRow {
    Ok(vec![score.as_bytes().to_vec(), word.to_vec()])
}

#[test]
fn nothing_stored_starts_at_the_beginning() {
    assert_eq!(resume_point(&words(), &Vec::new()), Ok(0));
    assert_eq!(init_output(b"", &words()), Ok(0));
}

#[test]
fn stored_prefix_gives_its_length() {
    let rows = vec![row("1.5", b"abcde"), row("2", b"fghij")];
    assert_eq!(resume_point(&words(), &rows), Ok(2));
}

#[test]
fn complete_output_gives_the_length_of_the_list() {
    let rows = vec![row("1", b"abcde"), row("1", b"fghij"), row("1", b"klmno")];
    assert_eq!(resume_point(&words(), &rows), Ok(3));
}

#[test]
fn rows_beyond_the_list_are_not_looked_at() {
    let rows = vec![
        row("1", b"abcde"),
        row("1", b"fghij"),
        row("1", b"klmno"),
        row("1", b"zzzzz"),
        Err(String::from("broken")),
    ];
    assert_eq!(resume_point(&words(), &rows), Ok(3));
    assert_eq!(resume_point(&Vec::new(), &rows), Ok(0));
}

#[test]
fn different_word_is_rejected_whatever_the_score() {
    for score in ["1.5", "1", "", "not a number"] {
        let rows = vec![row("1.5", b"abcde"), row(score, b"fghiz")];
        assert_eq!(
            resume_point(&words(), &rows),
            Err(InitError::Incompatible { line: 1 })
        );
    }
}

#[test]
fn same_word_is_accepted_whatever_the_score() {
    for score in ["1.5", "1", "", "not a number"] {
        let rows = vec![row(score, b"abcde")];
        assert_eq!(resume_point(&words(), &rows), Ok(1));
    }
}

#[test]
fn words_in_another_order_are_rejected() {
    let rows = vec![row("1", b"fghij"), row("1", b"abcde")];
    assert_eq!(
        resume_point(&words(), &rows),
        Err(InitError::Incompatible { line: 0 })
    );
}

#[test]
fn row_without_word_field_is_rejected() {
    let rows = vec![row("1", b"abcde"), Ok(vec![b"fghij".to_vec()])];
    assert_eq!(
        resume_point(&words(), &rows),
        Err(InitError::MissingWord { line: 1 })
    );
    let rows = vec![Ok(Vec::new())];
    assert_eq!(
        resume_point(&words(), &rows),
        Err(InitError::MissingWord { line: 0 })
    );
}

#[test]
fn stored_word_of_wrong_length_is_rejected() {
    let rows = vec![row("1", b"abcde"), row("1", b"fghi")];
    assert_eq!(
        resume_point(&words(), &rows),
        Err(InitError::WordLength { line: 1 })
    );
    let rows = vec![row("1", b"abcdef")];
    assert_eq!(
        resume_point(&words(), &rows),
        Err(InitError::WordLength { line: 0 })
    );
}

#[test]
fn unreadable_row_is_rejected_with_its_message() {
    let rows = vec![row("1", b"abcde"), Err(String::from("broken"))];
    assert_eq!(
        resume_point(&words(), &rows),
        Err(InitError::Unreadable {
            line: 1,
            message: String::from("broken")
        })
    );
}

#[test]
fn first_fault_wins() {
    let rows = vec![
        row("1", b"abcde"),
        row("1", b"fgh"),
        Err(String::from("broken")),
    ];
    assert_eq!(
        resume_point(&words(), &rows),
        Err(InitError::WordLength { line: 1 })
    );
}

#[test]
fn third_field_is_ignored() {
    let rows: Vec<StoredRow> = vec![Ok(vec![
        b"1".to_vec(),
        b"abcde".to_vec(),
        b"extra".to_vec(),
    ])];
    assert_eq!(resume_point(&words(), &rows), Ok(1));
}

#[test]
fn error_names_its_line() {
    assert_eq!(InitError::MissingWord { line: 3 }.line(), 3);
    assert_eq!(InitError::WordLength { line: 0 }.line(), 0);
    assert_eq!(InitError::Incompatible { line: 7 }.line(), 7);
    let unreadable = InitError::Unreadable {
        line: 9,
        message: String::new(),
    };
    assert_eq!(unreadable.line(), 9);
}

#[test]
fn words_are_compared_letter_by_letter() {
    assert!(same_word(b"abcde", b"abcde"));
    assert!(!same_word(b"abcde", b"abcdf"));
    assert!(!same_word(b"abcde", b"xbcde"));
    assert!(!same_word(b"abcde", b"abxde"));
}

#[test]
fn stored_bytes_are_split_into_records() {
    assert_eq!(init_output(b"1.5,abcde\n2,fghij\n", &words()), Ok(2));
    assert_eq!(init_output(b"1.5,abcde\n2,fghij", &words()), Ok(2));
    assert_eq!(init_output(b"1.5,abcde\r\n2,fghij\r\n3,klmno\r\n", &words()), Ok(3));
}

#[test]
fn first_record_is_data_not_a_header() {
    assert_eq!(init_output(b"1.5,abcde\n", &words()), Ok(1));
    assert_eq!(
        init_output(b"score,word\n1.5,abcde\n", &words()),
        Err(InitError::WordLength { line: 0 })
    );
}

#[test]
fn quoted_word_is_unquoted() {
    assert_eq!(init_output(b"1.5,\"abcde\"\n", &words()), Ok(1));
    let with_comma = vec![*b"ab,de"];
    assert_eq!(init_output(b"1.5,\"ab,de\"\n", &with_comma), Ok(1));
}

#[test]
fn stored_bytes_with_other_word_are_rejected_whatever_the_score() {
    assert_eq!(
        init_output(b"1.5,abcde\n1.5,fghiz\n", &words()),
        Err(InitError::Incompatible { line: 1 })
    );
    assert_eq!(
        init_output(b"1,abcde\n1,fghij\n1,klmnx\n", &words()),
        Err(InitError::Incompatible { line: 2 })
    );
}

#[test]
fn stored_bytes_with_one_field_have_no_word() {
    assert_eq!(
        init_output(b"abcde\nfghij\n", &words()),
        Err(InitError::MissingWord { line: 0 })
    );
}

#[test]
fn stored_bytes_with_short_word_are_rejected() {
    assert_eq!(
        init_output(b"1.5,abcde\n2,fghi\n", &words()),
        Err(InitError::WordLength { line: 1 })
    );
}

#[test]
fn record_with_other_field_count_is_unreadable() {
    let result = init_output(b"1.5,abcde\nfghij\n", &words());
    match result {
        Err(InitError::Unreadable { line, message }) => {
            assert_eq!(line, 1);
            assert!(message.contains("found record with 1 fields"));
        }
        other => panic!("unexpected result: {:?}", other),
    }
}

#[test]
fn record_that_is_not_text_is_unreadable() {
    let result = init_output(b"1.5,ab\xffde\n", &vec![[b'a', b'b', 0xff, b'd', b'e']]);
    match result {
        Err(InitError::Unreadable { line, message }) => {
            assert_eq!(line, 0);
            assert!(message.contains("invalid utf-8"));
        }
        other => panic!("unexpected result: {:?}", other),
    }
}

#[test]
fn faulty_record_beyond_the_list_is_not_looked_at() {
    let one = vec![*b"abcde"];
    assert_eq!(init_output(b"1.5,abcde\nfghij\n", &one), Ok(1));
    assert_eq!(init_output(b"1.5,abcde\n1,zzzzz\n", &one), Ok(1));
}
