//! From lines to records.

use crate::cli::Input;
use crate::engine::record::{read_record, Record, RecordView};
use crate::engine::readable;
use crate::text::views;
use vstd::prelude::*;

verus! {

/// The records of `lines`, in order. A line that gives no record leaves no
/// trace.
pub open spec fn records(lines: Seq<Seq<char>>, input: Input) -> Seq<RecordView>
    decreases lines.len(),
{
    if lines.len() == 0 {
        Seq::<RecordView>::empty()
    } else {
        let before = records(lines.drop_last(), input);
        match read_record(lines.last(), input) {
            Some(rec) => before.push(rec),
            None => before,
        }
    }
}

/// There are as many records as lines that give one. Read as text, every
/// line gives its record.
pub proof fn lemma_records_count(lines: Seq<Seq<char>>, input: Input)
    ensures
        records(lines, input).len() == readable(lines, input),
        input != Input::Json ==> records(lines, input).len() == lines.len(),
    decreases lines.len(),
{
    if lines.len() > 0 {
        lemma_records_count(lines.drop_last(), input);
    }
}

/// Reads every line under `input` and keeps the records of those that give
/// one.
pub fn iter_records(lines: Vec<String>, input: Input) -> (r: Vec<Record>)
    ensures
        views(r@) == records(views(lines@), input),
{
    let ghost all = views(lines@);
    let mut out: Vec<Record> = Vec::new();
    let mut i: usize = 0;
    assert(all.take(0) =~= Seq::<Seq<char>>::empty());
    assert(views(out@) =~= records(all.take(0), input));
    while i < lines.len()
        invariant
            i <= lines.len(),
            all == views(lines@),
            views(out@) == records(all.take(i as int), input),
        decreases lines.len() - i,
    {
        proof {
            assert(all.take(i + 1).drop_last() =~= all.take(i as int));
            assert(all.take(i + 1).last() == lines[i as int]@);
        }
        let ghost before = out@;
        match Record::from_line(lines[i].clone(), input) {
            Ok(rec) => {
                out.push(rec);
                assert(views(out@) =~= views(before).push(rec@));
            },
            Err(_) => {},
        }
        i += 1;
    }
    assert(all.take(lines.len() as int) =~= all);
    out
}

} // verus!
