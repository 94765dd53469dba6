//! Whole-tree totals: one pass over the records, hard links deduplicated
//! unless every link occurrence is to be counted.

use vstd::prelude::*;

use crate::policy::{EntryV, UsageError};
use crate::report::{
    lemma_sum_bytes_mono, lemma_sum_bytes_nonneg, read_records, report_records, sum_bytes,
};
use crate::usage::{contains_u64, Acc};

verus! {

/// The running state of a total pass: the counts so far and the inodes of
/// hard-linked objects already counted.
pub ghost struct TotalState {
    pub inodes: int,
    pub bytes: int,
    pub seen: Set<u64>,
}

impl TotalState {
    pub open spec fn empty() -> TotalState {
        TotalState { inodes: 0, bytes: 0, seen: Set::empty() }
    }
}

/// One record folded into a total.  When every link occurrence counts, or
/// the object has a single link, it always contributes; otherwise only the
/// first occurrence of its inode does.
pub open spec fn total_step(st: TotalState, e: EntryV, count_links: bool) -> TotalState {
    if count_links || e.nlink == 1 {
        TotalState { inodes: st.inodes + 1, bytes: st.bytes + e.bytes, seen: st.seen }
    } else if st.seen.contains(e.inode) {
        st
    } else {
        TotalState {
            inodes: st.inodes + 1,
            bytes: st.bytes + e.bytes,
            seen: st.seen.insert(e.inode),
        }
    }
}

/// A whole record sequence folded into a total, in order.
pub open spec fn total_fold(es: Seq<EntryV>, count_links: bool) -> TotalState
    decreases es.len(),
{
    if es.len() == 0 {
        TotalState::empty()
    } else {
        total_step(total_fold(es.drop_last(), count_links), es.last(), count_links)
    }
}

/// A total never exceeds the undeduplicated sum, and never counts more
/// objects than there are records.
pub proof fn lemma_total_fold_bounds(es: Seq<EntryV>, count_links: bool)
    ensures
        0 <= total_fold(es, count_links).inodes <= es.len(),
        0 <= total_fold(es, count_links).bytes <= sum_bytes(es),
    decreases es.len(),
{
    if es.len() > 0 {
        lemma_total_fold_bounds(es.drop_last(), count_links);
    }
}

/// Whether a record sequence is small enough for its totals to fit in the
/// counters.
pub open spec fn fits_u64(es: Seq<EntryV>) -> bool {
    sum_bytes(es) <= u64::MAX
}

/// Sums a whole report into one rollup.
///
/// Returns the first parse error if a line is malformed.  On success the
/// counts are exactly the fold of the report's records: with `count_links`
/// every record contributes its size and one object; otherwise an object
/// with more than one link contributes only at the first occurrence of its
/// inode.  An empty report yields the zero rollup.
pub fn sum(report: &[u8], count_links: bool) -> (r: Result<Acc, UsageError>)
    requires
        report_records(report@) matches Ok(es) ==> fits_u64(es),
    ensures
        match r {
            Ok(acc) => report_records(report@) matches Ok(es) && acc.inodes == total_fold(
                es,
                count_links,
            ).inodes && acc.bytes == total_fold(es, count_links).bytes,
            Err(e) => report_records(report@) == Err::<Seq<EntryV>, UsageError>(e),
        },
{
    let entries = match read_records(report) {
        Ok(es) => es,
        Err(e) => {
            return Err(e);
        },
    };
    let ghost es = entries.deep_view();
    let mut acc = Acc::zero();
    let mut seen: Vec<u64> = Vec::new();
    let mut k: usize = 0;
    proof {
        assert(es.take(0) =~= Seq::<EntryV>::empty());
    }
    while k < entries.len()
        invariant
            0 <= k <= entries@.len(),
            es == entries.deep_view(),
            es.len() == entries@.len(),
            fits_u64(es),
            acc.inodes == total_fold(es.take(k as int), count_links).inodes,
            acc.bytes == total_fold(es.take(k as int), count_links).bytes,
            total_fold(es.take(k as int), count_links).seen == seen@.to_set(),
        decreases entries@.len() - k,
    {
        let ghost stk = total_fold(es.take(k as int), count_links);
        proof {
            assert(es.take(k as int + 1).drop_last() =~= es.take(k as int));
            assert(es.take(k as int + 1).last() == es[k as int]);
            assert(entries@[k as int]@ == es[k as int]);
            lemma_total_fold_bounds(es.take(k as int), count_links);
            lemma_sum_bytes_mono(es, k as int);
            lemma_sum_bytes_mono(es, k as int + 1);
            lemma_sum_bytes_nonneg(es.drop_last());
            assert(total_fold(es.take(k as int), count_links).bytes <= sum_bytes(
                es.take(k as int),
            ));
            assert(es.take(k as int).len() == k as int);
        }
        let ghost seen0 = seen@;
        let e = &entries[k];
        if count_links || e.nlink == 1 {
            acc.add_assign(e.bytes);
        } else {
            let found = contains_u64(&seen, e.inode);
            if !found {
                acc.add_assign(e.bytes);
                seen.push(e.inode);
            }
        }
        k = k + 1;
        proof {
            let ev = es[k as int - 1];
            let st2 = total_fold(es.take(k as int), count_links);
            assert(st2 == total_step(stk, ev, count_links));
            if !count_links && ev.nlink != 1 && !stk.seen.contains(ev.inode) {
                assert(seen@ == seen0.push(ev.inode));
                seen0.lemma_push_to_set_commute(ev.inode);
                assert(st2.seen =~= seen@.to_set());
            } else {
                assert(st2.seen == stk.seen);
                assert(seen@ == seen0);
            }
        }
    }
    proof {
        assert(es.take(es.len() as int) =~= es);
    }
    Ok(acc)
}

} // verus!
