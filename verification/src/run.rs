//! The records of a run: one per word of the list.
//!
//! A run in the order of the list can be interrupted and continued; a listing
//! of the same records by ascending score is written in one piece.

use crate::resume::{agrees_upto, compared, row_fault, RowView, WORD_FIELD};
use crate::score::{score, survivor_total};
use crate::word::{words_view, Word, WORD_LEN};
use vstd::prelude::*;

verus! {

/// One line of output: a word, and the sum over all hidden words of the
/// candidates it leaves. The score of the word is `total` divided by the
/// length of the list.
#[derive(Debug, Clone, Copy, PartialEq, Eq)]
pub struct Record {
    pub total: u128,
    pub word: Word,
}

impl View for Record {
    type V = (nat, Seq<u8>);

    open spec fn view(&self) -> (nat, Seq<u8>) {
        (self.total as nat, self.word@)
    }
}

/// The content of records, in order.
pub open spec fn records_view(records: Seq<Record>) -> Seq<(nat, Seq<u8>)> {
    records.map_values(|r: Record| r@)
}

/// The record of the word at place `i` of the list.
pub open spec fn record_of(words: Seq<Seq<u8>>, i: int) -> (nat, Seq<u8>) {
    (survivor_total(words[i], words), words[i])
}

/// The records of a whole run, in the order of the list.
pub open spec fn run_records(words: Seq<Seq<u8>>) -> Seq<(nat, Seq<u8>)> {
    Seq::new(words.len(), |i: int| record_of(words, i))
}

/// The totals do not fall from one record to the next.
pub open spec fn ascending(records: Seq<(nat, Seq<u8>)>) -> bool {
    forall|i: int, j: int| 0 <= i <= j < records.len() ==> records[i].0 <= records[j].0
}

/// Computes the record that a run appends when `written` records are stored.
///
/// Returns `None` once every word of the list has its record.
pub fn next_record(words: &Vec<Word>, written: usize) -> (next: Option<Record>)
    ensures
        next is Some <==> written < words@.len(),
        next matches Some(record) ==> record@ == run_records(words_view(words@))[written as int],
{
    if written < words.len() {
        let word = words[written];
        let total = score(&word, words);
        Some(Record { total, word })
    } else {
        None
    }
}

/// Computes the records that a run still appends when it continues at word
/// `start`: those of the words from there on, in the order of the list.
pub fn records_from(words: &Vec<Word>, start: usize) -> (records: Vec<Record>)
    ensures
        start <= words@.len() ==> records_view(records@) == run_records(words_view(words@)).skip(
            start as int,
        ),
        start > words@.len() ==> records@.len() == 0,
{
    let ghost run = run_records(words_view(words@));
    let mut records: Vec<Record> = Vec::new();
    let n = words.len();
    let mut at: usize = start;
    loop
        invariant
            n == words@.len(),
            start <= at,
            start <= n ==> at <= n,
            start > n ==> at == start,
            run == run_records(words_view(words@)),
            records@.len() == at - start,
            forall|k: int| 0 <= k < records@.len() ==> (#[trigger] records@[k])@ == run[start + k],
        ensures
            at >= n,
        decreases n - at,
    {
        let next = next_record(words, at);
        match next {
            Some(record) => {
                records.push(record);
                at += 1;
            },
            None => {
                break;
            },
        }
    }
    if start <= words.len() {
        assert(records_view(records@) =~= run.skip(start as int));
    }
    records
}

/// Computes the records of a whole run, in the order of the list.
pub fn all_records(words: &Vec<Word>) -> (records: Vec<Record>)
    ensures
        records_view(records@) == run_records(words_view(words@)),
{
    let records = records_from(words, 0);
    assert(run_records(words_view(words@)).skip(0) =~= run_records(words_view(words@)));
    records
}

/// Orders records by ascending total, which is by ascending score.
///
/// The result holds the records that were given, each as often as it was
/// given; only their order changes.
pub fn rank_records(records: &Vec<Record>) -> (ranked: Vec<Record>)
    ensures
        ascending(records_view(ranked@)),
        records_view(ranked@).to_multiset() == records_view(records@).to_multiset(),
{
    let mut ranked: Vec<Record> = Vec::new();
    let mut k: usize = 0;
    assert(records_view(records@).take(0) =~= records_view(ranked@));
    while k < records.len()
        invariant
            k <= records@.len(),
            ranked@.len() == k,
            ascending(records_view(ranked@)),
            records_view(ranked@).to_multiset() == records_view(records@).take(
                k as int,
            ).to_multiset(),
        decreases records@.len() - k,
    {
        let record = records[k];
        let mut at: usize = 0;
        while at < ranked.len() && ranked[at].total <= record.total
            invariant
                at <= ranked@.len(),
                forall|i: int| 0 <= i < at ==> (#[trigger] ranked@[i]).total <= record.total,
            decreases ranked@.len() - at,
        {
            at += 1;
        }
        let ghost before = records_view(ranked@);
        ranked.insert(at, record);
        proof {
            let after = records_view(ranked@);
            assert(after =~= before.insert(at as int, record@));
            vstd::seq_lib::to_multiset_insert(before, at as int, record@);
            let taken = records_view(records@).take(k as int);
            assert(records_view(records@).take(k + 1) =~= taken.push(record@));
            vstd::seq_lib::to_multiset_build(taken, record@);
            assert forall|i: int, j: int| 0 <= i <= j < after.len() implies after[i].0
                <= after[j].0 by {
                if i < at && j > at {
                    assert(before[i].0 <= before[j - 1].0);
                } else if i < at && j < at {
                    assert(before[i].0 <= before[j].0);
                } else if i > at {
                    assert(before[i - 1].0 <= before[j - 1].0);
                } else if i == at && j > at {
                    assert(before[at as int].0 <= before[j - 1].0);
                } else if j == at && i < at {
                    assert(before[i] == ranked@[i]@);
                }
            }
        }
        k += 1;
    }
    assert(records_view(records@).take(k as int) =~= records_view(records@));
    ranked
}

/// Computes the records of a whole run and orders them by ascending score.
///
/// The listing holds exactly the records that a run in the order of the list
/// produces.
pub fn ranked_run(words: &Vec<Word>) -> (ranked: Vec<Record>)
    ensures
        ascending(records_view(ranked@)),
        records_view(ranked@).to_multiset() == run_records(words_view(words@)).to_multiset(),
        ranked@.len() == words@.len(),
{
    let records = all_records(words);
    let ranked = rank_records(&records);
    proof {
        vstd::seq_lib::to_multiset_len(records_view(ranked@));
        vstd::seq_lib::to_multiset_len(records_view(records@));
    }
    ranked
}

/// A run that was interrupted continues where it stopped.
///
/// Where the stored records hold the first `k` words of the list, whatever
/// scores stand beside them, nothing stored is rejected and the run continues
/// at word `k`. The first `k` records of an uninterrupted run, followed by
/// what is appended from `k` on, are the records of an uninterrupted run: one
/// per word, in the order of the list.
pub proof fn lemma_interrupted_run_continues(words: Seq<Seq<u8>>, rows: Seq<RowView>, k: nat)
    requires
        forall|j: int| 0 <= j < words.len() ==> (#[trigger] words[j]).len() == WORD_LEN,
        k <= words.len(),
        rows.len() == k,
        forall|i: int|
            0 <= i < k ==> (#[trigger] rows[i] matches Ok(fields) && fields.len() > WORD_FIELD
                && fields[WORD_FIELD as int] == words[i]),
    ensures
        compared(words, rows) == k,
        agrees_upto(words, rows, k as int),
        run_records(words).take(k as int) + run_records(words).skip(k as int) == run_records(
            words,
        ),
        run_records(words).take(k as int).len() + run_records(words).skip(k as int).len()
            == words.len(),
{
    assert forall|i: int| 0 <= i < k implies row_fault(words[i], #[trigger] rows[i]) is None by {
        assert(words[i].len() == WORD_LEN);
    }
    assert(run_records(words).take(k as int) + run_records(words).skip(k as int) =~= run_records(
        words,
    ));
}

} // verus!
