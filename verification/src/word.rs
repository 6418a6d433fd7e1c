//! Words of the list: five letters, one byte each.

use vstd::prelude::*;

verus! {

/// Number of letters in every word.
pub const WORD_LEN: usize = 5;

/// A word: exactly five byte-valued letters, compared position by position.
pub type Word = [u8; 5];

/// A line of the word list that is not a word.
#[derive(Debug, Clone, Copy, PartialEq, Eq)]
pub struct MalformedLine {
    /// Index of the line in the list, counted from zero.
    pub line: usize,
    /// Number of bytes found on that line.
    pub len: usize,
}

/// The letters of each word of a list, as sequences.
pub open spec fn words_view(words: Seq<Word>) -> Seq<Seq<u8>> {
    words.map_values(|w: Word| w@)
}

/// Reads one word from the bytes of a line.
///
/// A line is a word exactly when it holds five bytes; the bytes are taken as
/// they are, without decoding.
pub fn parse_word(bytes: &[u8]) -> (word: Option<Word>)
    ensures
        word is Some <==> bytes@.len() == WORD_LEN,
        word matches Some(w) ==> w@ == bytes@,
{
    if bytes.len() == WORD_LEN {
        let w: Word = [bytes[0], bytes[1], bytes[2], bytes[3], bytes[4]];
        assert(w@ =~= bytes@);
        Some(w)
    } else {
        None
    }
}

/// Turns the lines of a word list into words, keeping their order.
///
/// Fails on the first line that is not five bytes long, and reports it.
pub fn parse_words(lines: &Vec<Vec<u8>>) -> (result: Result<Vec<Word>, MalformedLine>)
    ensures
        match result {
            Ok(words) => {
                &&& words@.len() == lines@.len()
                &&& forall|i: int| 0 <= i < lines@.len() ==> (#[trigger] words@[i])@ == lines@[i]@
            },
            Err(bad) => {
                &&& bad.line < lines@.len()
                &&& bad.len == lines@[bad.line as int]@.len()
                &&& bad.len != WORD_LEN
                &&& forall|i: int| 0 <= i < bad.line ==> (#[trigger] lines@[i])@.len() == WORD_LEN
            },
        },
{
    let mut words: Vec<Word> = Vec::new();
    let mut i: usize = 0;
    while i < lines.len()
        invariant
            i <= lines@.len(),
            words@.len() == i,
            forall|k: int| 0 <= k < i ==> (#[trigger] words@[k])@ == lines@[k]@,
            forall|k: int| 0 <= k < i ==> (#[trigger] lines@[k])@.len() == WORD_LEN,
        decreases lines@.len() - i,
    {
        match parse_word(lines[i].as_slice()) {
            Some(w) => {
                words.push(w);
            },
            None => {
                return Err(MalformedLine { line: i, len: lines[i].len() });
            },
        }
        i += 1;
    }
    Ok(words)
}

} // verus!
