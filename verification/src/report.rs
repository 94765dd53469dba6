//! Reading a whole report: the lines of a report parsed as compact records.
//!
//! A malformed line aborts the report with its error; a truncated or
//! corrupted report must not yield a partial aggregate.

use vstd::prelude::*;

use crate::policy::{parse_entry_spec, Entry, EntryV, UsageError};
use crate::scan::{split_lines, split_lines_vec};

verus! {

/// What parsing every line of a report yields: the records in order, or the
/// first error.
pub open spec fn parse_report_spec(lines: Seq<Seq<u8>>) -> Result<Seq<EntryV>, UsageError>
    decreases lines.len(),
{
    if lines.len() == 0 {
        Ok(Seq::empty())
    } else {
        match parse_report_spec(lines.drop_last()) {
            Err(e) => Err(e),
            Ok(es) => match parse_entry_spec(lines.last()) {
                Err(e) => Err(e),
                Ok(e) => Ok(es.push(e)),
            },
        }
    }
}

/// The records of a whole report, by its raw bytes.
pub open spec fn report_records(report: Seq<u8>) -> Result<Seq<EntryV>, UsageError> {
    parse_report_spec(split_lines(report))
}

/// The sum of the byte counts of all records, with nothing deduplicated.
pub open spec fn sum_bytes(es: Seq<EntryV>) -> int
    decreases es.len(),
{
    if es.len() == 0 {
        0
    } else {
        sum_bytes(es.drop_last()) + es.last().bytes
    }
}

pub proof fn lemma_sum_bytes_nonneg(es: Seq<EntryV>)
    ensures
        sum_bytes(es) >= 0,
    decreases es.len(),
{
    if es.len() > 0 {
        lemma_sum_bytes_nonneg(es.drop_last());
    }
}

pub proof fn lemma_sum_bytes_mono(es: Seq<EntryV>, k: int)
    requires
        0 <= k <= es.len(),
    ensures
        sum_bytes(es.take(k)) <= sum_bytes(es),
        k < es.len() ==> sum_bytes(es.take(k)) + es[k].bytes == sum_bytes(es.take(k + 1)),
    decreases es.len() - k,
{
    if k < es.len() {
        assert(es.take(k + 1).drop_last() =~= es.take(k));
        assert(es.take(k + 1).last() == es[k]);
        lemma_sum_bytes_mono(es, k + 1);
    } else {
        assert(es.take(k) =~= es);
    }
}

/// A parse failure on one line fails the whole report with that error.
pub proof fn lemma_parse_report_err(lines: Seq<Seq<u8>>, k: int, e: UsageError)
    requires
        0 <= k < lines.len(),
        parse_report_spec(lines.take(k)) is Ok,
        parse_entry_spec(lines[k]) == Err::<EntryV, UsageError>(e),
    ensures
        parse_report_spec(lines) == Err::<Seq<EntryV>, UsageError>(e),
    decreases lines.len(),
{
    if lines.len() == k + 1 {
        assert(lines.drop_last() =~= lines.take(k));
    } else {
        assert(lines.drop_last().take(k) =~= lines.take(k));
        assert(lines.drop_last()[k] == lines[k]);
        lemma_parse_report_err(lines.drop_last(), k, e);
    }
}

/// Parses every line of a report, in order; the first malformed line fails
/// the whole report.
pub fn parse_report(lines: &Vec<Vec<u8>>) -> (r: Result<Vec<Entry>, UsageError>)
    ensures
        match r {
            Ok(es) => parse_report_spec(lines.deep_view()) == Ok::<Seq<EntryV>, UsageError>(
                es.deep_view(),
            ),
            Err(e) => parse_report_spec(lines.deep_view()) == Err::<Seq<EntryV>, UsageError>(e),
        },
{
    let mut out: Vec<Entry> = Vec::new();
    let mut k: usize = 0;
    proof {
        assert(lines.deep_view().take(0) =~~= Seq::<Seq<u8>>::empty());
        assert(out.deep_view() =~= Seq::<EntryV>::empty());
    }
    while k < lines.len()
        invariant
            0 <= k <= lines@.len(),
            lines.deep_view().len() == lines@.len(),
            parse_report_spec(lines.deep_view().take(k as int)) == Ok::<
                Seq<EntryV>,
                UsageError,
            >(out.deep_view()),
        decreases lines@.len() - k,
    {
        proof {
            assert(lines@[k as int]@ =~= lines.deep_view()[k as int]);
        }
        let ghost prev = out.deep_view();
        match Entry::parse(lines[k].as_slice()) {
            Ok(e) => {
                let ghost ev = e@;
                out.push(e);
                k = k + 1;
                proof {
                    let dv = lines.deep_view();
                    assert(out.deep_view() =~~= prev.push(ev));
                    assert(dv.take(k as int).drop_last() =~~= dv.take(k as int - 1));
                    assert(dv.take(k as int).last() == dv[k as int - 1]);
                    assert(parse_report_spec(dv.take(k as int)) == Ok::<
                        Seq<EntryV>,
                        UsageError,
                    >(prev.push(ev)));
                }
            },
            Err(e) => {
                proof {
                    lemma_parse_report_err(lines.deep_view(), k as int, e);
                }
                return Err(e);
            },
        }
    }
    proof {
        assert(lines.deep_view().take(lines@.len() as int) =~~= lines.deep_view());
    }
    Ok(out)
}

/// Splits a raw report into lines and parses every line.
pub fn read_records(report: &[u8]) -> (r: Result<Vec<Entry>, UsageError>)
    ensures
        match r {
            Ok(es) => report_records(report@) == Ok::<Seq<EntryV>, UsageError>(es.deep_view()),
            Err(e) => report_records(report@) == Err::<Seq<EntryV>, UsageError>(e),
        },
{
    let lines = split_lines_vec(report);
    parse_report(&lines)
}

} // verus!
