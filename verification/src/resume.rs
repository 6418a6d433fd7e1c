//! Finding where an interrupted run left off.
//!
//! A run appends one `score,word` record per word of the list, in the order
//! of the list. Before a run continues, what is already stored is held
//! against the list: every stored word must be the word of the list at the
//! same place.

use crate::word::{parse_word, words_view, Word, WORD_LEN};
use vstd::prelude::*;

verus! {

/// One stored record as read back: its fields, or the reader's message where
/// the record could not be read.
pub type StoredRow = Result<Vec<Vec<u8>>, String>;

/// Mathematical content of a [`StoredRow`].
pub type RowView = Result<Seq<Seq<u8>>, Seq<char>>;

/// Index of the field that holds the word; the score stands before it.
pub const WORD_FIELD: usize = 1;

/// Why what is stored cannot be continued.
#[derive(Debug, PartialEq, Eq)]
pub enum InitError {
    /// The record at `line` could not be read.
    Unreadable { line: usize, message: String },
    /// The record at `line` has no field for the word.
    MissingWord { line: usize },
    /// The word stored at `line` is not five bytes long.
    WordLength { line: usize },
    /// The word stored at `line` is not the word of the list at that place.
    Incompatible { line: usize },
}

/// What is wrong with one stored record.
pub enum Fault {
    Unreadable(Seq<char>),
    MissingWord,
    WordLength,
    Incompatible,
}

impl InitError {
    /// The record that the error is about, counted from zero.
    pub open spec fn spec_line(&self) -> usize {
        match self {
            InitError::Unreadable { line, .. } => *line,
            InitError::MissingWord { line } => *line,
            InitError::WordLength { line } => *line,
            InitError::Incompatible { line } => *line,
        }
    }

    /// What the error says of that record.
    pub open spec fn fault(&self) -> Fault {
        match self {
            InitError::Unreadable { message, .. } => Fault::Unreadable(message@),
            InitError::MissingWord { .. } => Fault::MissingWord,
            InitError::WordLength { .. } => Fault::WordLength,
            InitError::Incompatible { .. } => Fault::Incompatible,
        }
    }

    /// The record that the error is about, counted from zero.
    #[verifier::when_used_as_spec(spec_line)]
    pub fn line(&self) -> (line: usize)
        ensures
            line == self.spec_line(),
    {
        match self {
            InitError::Unreadable { line, .. } => *line,
            InitError::MissingWord { line } => *line,
            InitError::WordLength { line } => *line,
            InitError::Incompatible { line } => *line,
        }
    }
}

/// The content of one stored record.
pub open spec fn row_view(row: StoredRow) -> RowView {
    match row {
        Ok(fields) => Ok(fields@.map_values(|field: Vec<u8>| field@)),
        Err(message) => Err(message@),
    }
}

/// The content of stored records, in order.
pub open spec fn rows_view(rows: Seq<StoredRow>) -> Seq<RowView> {
    rows.map_values(|row: StoredRow| row_view(row))
}

/// What is wrong with a stored record that should hold `word`, if anything.
///
/// Only the field of the word is looked at: the score beside it plays no part.
pub open spec fn row_fault(word: Seq<u8>, row: RowView) -> Option<Fault> {
    match row {
        Err(message) => Some(Fault::Unreadable(message)),
        Ok(fields) => if fields.len() <= WORD_FIELD {
            Some(Fault::MissingWord)
        } else if fields[WORD_FIELD as int].len() != WORD_LEN {
            Some(Fault::WordLength)
        } else if fields[WORD_FIELD as int] != word {
            Some(Fault::Incompatible)
        } else {
            None
        },
    }
}

/// Number of stored records that are compared with the list: all of them,
/// but no more than the list has words.
pub open spec fn compared(words: Seq<Seq<u8>>, rows: Seq<RowView>) -> nat {
    if words.len() <= rows.len() {
        words.len()
    } else {
        rows.len()
    }
}

/// Each of the first `upto` stored records holds the word of the list at its
/// place.
pub open spec fn agrees_upto(words: Seq<Seq<u8>>, rows: Seq<RowView>, upto: int) -> bool {
    forall|i: int| 0 <= i < upto ==> row_fault(words[i], #[trigger] rows[i]) is None
}

/// Tells whether `result` is the answer owed for a list and stored records.
///
/// Success is owed exactly when every compared record holds the word of the
/// list at its place, and then names the number of compared records.
/// Otherwise the error names the first record that does not, and what is
/// wrong with it.
pub open spec fn is_resume_outcome(
    words: Seq<Seq<u8>>,
    rows: Seq<RowView>,
    result: Result<usize, InitError>,
) -> bool {
    &&& result is Ok <==> agrees_upto(words, rows, compared(words, rows) as int)
    &&& match result {
        Ok(start) => start == compared(words, rows),
        Err(error) => {
            &&& error.spec_line() < compared(words, rows)
            &&& agrees_upto(words, rows, error.spec_line() as int)
            &&& row_fault(words[error.spec_line() as int], rows[error.spec_line() as int])
                == Some(error.fault())
        },
    }
}

/// Tells whether two words are the same, letter by letter.
pub fn same_word(a: &Word, b: &Word) -> (same: bool)
    ensures
        same == (a@ == b@),
{
    let mut i: usize = 0;
    while i < WORD_LEN
        invariant
            i <= WORD_LEN,
            forall|k: int| 0 <= k < i ==> a@[k] == b@[k],
        decreases WORD_LEN - i,
    {
        if a[i] != b[i] {
            return false;
        }
        i += 1;
    }
    assert(a@ =~= b@);
    true
}

/// Examines one stored record that should hold `word`.
fn examine_row(word: &Word, row: &StoredRow, line: usize) -> (result: Result<(), InitError>)
    ensures
        match result {
            Ok(()) => row_fault(word@, row_view(*row)) is None,
            Err(error) => error.spec_line() == line && row_fault(word@, row_view(*row)) == Some(
                error.fault(),
            ),
        },
{
    match row {
        Err(message) => Err(InitError::Unreadable { line, message: message.clone() }),
        Ok(fields) => {
            if fields.len() <= WORD_FIELD {
                return Err(InitError::MissingWord { line });
            }
            match parse_word(fields[WORD_FIELD].as_slice()) {
                None => Err(InitError::WordLength { line }),
                Some(stored) => {
                    if same_word(&stored, word) {
                        Ok(())
                    } else {
                        Err(InitError::Incompatible { line })
                    }
                },
            }
        },
    }
}

/// Finds the index of the first word that has no stored record yet.
///
/// The stored records are held against the list in order, as far as both
/// reach. Where all of them hold the word of the list at their place, the
/// result is their number. Otherwise the first record that does not is
/// reported, whatever score is stored beside it, and nothing may be appended.
pub fn resume_point(words: &Vec<Word>, rows: &Vec<StoredRow>) -> (result: Result<usize, InitError>)
    ensures
        is_resume_outcome(words_view(words@), rows_view(rows@), result),
{
    let ghost list = words_view(words@);
    let ghost stored = rows_view(rows@);
    let mut i: usize = 0;
    while i < words.len() && i < rows.len()
        invariant
            i <= compared(list, stored),
            list == words_view(words@),
            stored == rows_view(rows@),
            agrees_upto(list, stored, i as int),
        decreases words@.len() - i,
    {
        match examine_row(&words[i], &rows[i], i) {
            Ok(()) => {},
            Err(error) => {
                return Err(error);
            },
        }
        i += 1;
    }
    Ok(i)
}

/// The records that the `csv` reader yields for `data` when it reads without
/// a header row: one entry per record, in order, with the fields of a record
/// that it could read and its message for one that it could not.
pub uninterp spec fn csv_rows(data: Seq<u8>) -> Seq<Result<Seq<Seq<u8>>, Seq<char>>>;

/// Reads every record of `data` with `csv::ReaderBuilder` (no header row) and
/// `csv::Reader::into_records`.
///
/// Nothing is proved of the reader: its result is only given the name
/// [`csv_rows`], which claims that the same bytes always yield the same
/// records. A record that the reader reports as an error is kept at its
/// place, as the text of that error.
#[verifier::external_body]
fn read_rows(data: &[u8]) -> (rows: Vec<StoredRow>)
    ensures
        rows_view(rows@) == csv_rows(data@),
{
    csv::ReaderBuilder::new()
        .has_headers(false)
        .from_reader(data)
        .into_records()
        .map(|row| match row {
            Ok(record) => Ok(record.iter().map(|field| field.as_bytes().to_vec()).collect()),
            Err(error) => Err(error.to_string()),
        })
        .collect()
}

/// Finds where a run continues, from the bytes of what it has stored so far.
///
/// The bytes are split into records by the `csv` reader and the records are
/// handed to [`resume_point`]: the result is what it returns for them.
pub fn init_output(contents: &[u8], words: &Vec<Word>) -> (result: Result<usize, InitError>)
    ensures
        is_resume_outcome(words_view(words@), csv_rows(contents@), result),
{
    let rows = read_rows(contents);
    resume_point(words, &rows)
}

/// Whether a stored record is accepted depends on the word it holds alone:
/// two records with the same word field fare alike, whatever their scores.
pub proof fn lemma_fault_ignores_score(word: Seq<u8>, a: Seq<Seq<u8>>, b: Seq<Seq<u8>>)
    requires
        a.len() > WORD_FIELD,
        b.len() > WORD_FIELD,
        a[WORD_FIELD as int] == b[WORD_FIELD as int],
    ensures
        row_fault(word, Ok(a)) == row_fault(word, Ok(b)),
{
}

} // verus!
