//! Laws of the library, stated and proved once for all inputs.

use vstd::prelude::*;

use crate::depth::{
    depth_apply_upto, depth_fold, depth_step_value, entry_levels, lemma_depth_apply_frame,
    level_key, map_get, DepthAccV,
};
use crate::digits::{all_digits, dec_of, is_digit, lemma_dec_of_val};
use crate::policy::{
    find_sep_from, lemma_find_sep_is, parse_entry_spec, render_entry, sep_at, EntryV, UsageError,
    DASH, SLASH,
};
use crate::scan::{lemma_split_byte_cons, lemma_split_byte_whole, split_byte, SP};
use crate::total::{total_fold, total_step, TotalState};

verus! {

/// A digit string holds no space and no dash.
proof fn lemma_digits_not_special(s: Seq<u8>)
    requires
        all_digits(s),
    ensures
        forall|i: int| 0 <= i < s.len() ==> s[i] != SP && s[i] != DASH,
{
    assert forall|i: int| 0 <= i < s.len() implies s[i] != SP && s[i] != DASH by {
        assert(is_digit(s[i]));
    }
}

/// Round trip: any record rendered as a line parses back to the same
/// record, even when the path contains the separator text.
#[verifier::rlimit(100)]
#[verifier::spinoff_prover]
pub proof fn lemma_entry_round_trip(e: EntryV)
    requires
        e.path.len() > 0,
        e.path[0] == SLASH,
    ensures
        parse_entry_spec(render_entry(e)) == Ok::<EntryV, UsageError>(e),
{
    let d1 = dec_of(e.inode as nat);
    let d2 = dec_of(e.generation as nat);
    let d3 = dec_of(e.snapshot as nat);
    let d4 = dec_of(e.bytes as nat);
    let d5 = dec_of(e.nlink as nat);
    lemma_dec_of_val(e.inode as nat);
    lemma_dec_of_val(e.generation as nat);
    lemma_dec_of_val(e.snapshot as nat);
    lemma_dec_of_val(e.bytes as nat);
    lemma_dec_of_val(e.nlink as nat);
    lemma_digits_not_special(d1);
    lemma_digits_not_special(d2);
    lemma_digits_not_special(d3);
    lemma_digits_not_special(d4);
    lemma_digits_not_special(d5);
    let meta = d1 + seq![SP] + d2 + seq![SP] + d3 + seq![SP, SP] + d4 + seq![SP] + d5;
    let line = render_entry(e);
    let spos = meta.len() as int;
    assert(line =~= meta + seq![SP, DASH, DASH, SP] + e.path);
    // the metadata holds digits and spaces only, so no separator fits in it
    assert(forall|i: int| 0 <= i < meta.len() ==> meta[i] == SP || is_digit(#[trigger] meta[i]));
    assert(sep_at(line, spos));
    assert forall|j: int| 0 <= j < spos implies !sep_at(line, j) by {
        if sep_at(line, j) {
            if j + 1 < spos {
                assert(line[j + 1] == meta[j + 1]);
                assert(meta[j + 1] == SP || is_digit(meta[j + 1]));
            } else {
                assert(line[j + 1] == SP);
            }
        }
    }
    lemma_find_sep_is(line, spos);
    assert(find_sep_from(line, 0) == Some(spos));
    assert(line.take(spos) =~= meta);
    assert(line.skip(spos + 4) =~= e.path);
    // the metadata splits into the five numerals around an empty piece
    let rest1 = d2 + seq![SP] + d3 + seq![SP, SP] + d4 + seq![SP] + d5;
    let rest2 = d3 + seq![SP, SP] + d4 + seq![SP] + d5;
    let rest3 = Seq::<u8>::empty() + seq![SP] + d4 + seq![SP] + d5;
    let rest4 = d4 + seq![SP] + d5;
    assert(meta =~= d1 + seq![SP] + rest1);
    lemma_split_byte_cons(d1, SP, rest1);
    assert(rest1 =~= d2 + seq![SP] + rest2);
    lemma_split_byte_cons(d2, SP, rest2);
    assert(rest2 =~= d3 + seq![SP] + rest3);
    lemma_split_byte_cons(d3, SP, rest3);
    assert(rest3 =~= Seq::<u8>::empty() + seq![SP] + rest4);
    lemma_split_byte_cons(Seq::<u8>::empty(), SP, rest4);
    lemma_split_byte_cons(d4, SP, d5);
    lemma_split_byte_whole(d5, SP);
    let pieces = split_byte(meta, SP);
    assert(pieces =~~= seq![d1, d2, d3, Seq::<u8>::empty(), d4, d5]);
    assert(parse_entry_spec(line) == Ok::<EntryV, UsageError>(e));
}

/// Total dedup: a record set that repeats one hard-linked object of size
/// `s` any number of times contributes `s` once with deduplication, and
/// `n * s` when every link occurrence counts.
#[verifier::rlimit(100)]
#[verifier::spinoff_prover]
pub proof fn lemma_total_dedup(es: Seq<EntryV>, ino: u64, s: u64)
    requires
        es.len() > 0,
        forall|i: int|
            0 <= i < es.len() ==> (#[trigger] es[i]).inode == ino && es[i].nlink > 1 && es[i].bytes
                == s,
    ensures
        total_fold(es, false).inodes == 1,
        total_fold(es, false).bytes == s,
        total_fold(es, true).inodes == es.len(),
        total_fold(es, true).bytes == es.len() * s,
        total_fold(es, false).seen == Set::empty().insert(ino),
    decreases es.len(),
{
    if es.len() == 1 {
        assert(es.drop_last() =~= Seq::<EntryV>::empty());
        assert(total_fold(es.drop_last(), false) == TotalState::empty());
        assert(total_fold(es.drop_last(), true) == TotalState::empty());
        assert(es.last() == es[0]);
        assert(es[0].inode == ino && es[0].nlink > 1 && es[0].bytes == s);
        assert(total_fold(es, false) == total_step(TotalState::empty(), es.last(), false));
        assert(total_fold(es, true) == total_step(TotalState::empty(), es.last(), true));
        assert(es.len() * s == s) by (nonlinear_arith)
            requires es.len() == 1;
    } else {
        assert(forall|i: int|
            0 <= i < es.len() - 1 ==> es.drop_last()[i] == #[trigger] es[i]);
        lemma_total_dedup(es.drop_last(), ino, s);
        assert(es.last().inode == ino);
        assert(total_fold(es.drop_last(), false).seen.contains(ino));
        assert(total_fold(es, false) == total_fold(es.drop_last(), false));
        assert(es.len() * s == (es.len() - 1) * s + s) by (nonlinear_arith);
    }
}

/// Depth scoping: one hard-linked object appearing once under each of two
/// different depth-one prefixes is counted once in each prefix's own
/// rollup, and only once in the root's rollup.
#[verifier::rlimit(100)]
#[verifier::spinoff_prover]
pub proof fn lemma_depth_scoping(r1: EntryV, r2: EntryV, rootlen: int)
    requires
        0 <= rootlen,
        r1.inode == r2.inode,
        r1.nlink > 1,
        r2.nlink > 1,
        crate::paths::path_comps(r1.path).len() == rootlen + 2,
        crate::paths::path_comps(r2.path).len() == rootlen + 2,
        level_key(r1, rootlen, 0) == level_key(r2, rootlen, 0),
        level_key(r1, rootlen, 1) != level_key(r2, rootlen, 1),
    ensures
        ({
            let m = depth_fold(seq![r1, r2], rootlen, 1, false);
            &&& m[level_key(r1, rootlen, 1)].inodes == 1
            &&& m[level_key(r1, rootlen, 1)].bytes == r1.bytes
            &&& m[level_key(r2, rootlen, 1)].inodes == 1
            &&& m[level_key(r2, rootlen, 1)].bytes == r2.bytes
            &&& m[level_key(r1, rootlen, 0)].inodes == 1
            &&& m[level_key(r1, rootlen, 0)].bytes == r1.bytes
        }),
{
    let es = seq![r1, r2];
    let kroot = level_key(r1, rootlen, 0);
    let ka = level_key(r1, rootlen, 1);
    let kb = level_key(r2, rootlen, 1);
    assert(es.drop_last() =~= seq![r1]);
    assert(seq![r1].drop_last() =~= Seq::<EntryV>::empty());
    let m0 = Map::<Seq<u8>, DepthAccV>::empty();
    let m1 = depth_fold(seq![r1], rootlen, 1, false);
    let m = depth_fold(es, rootlen, 1, false);
    assert(entry_levels(r1, rootlen, 1) == 2);
    assert(entry_levels(r2, rootlen, 1) == 2);
    assert(seq![r1].last() == r1);
    assert(es.last() == r2);
    assert(depth_fold(Seq::<EntryV>::empty(), rootlen, 1, false) == Map::<
        Seq<u8>,
        DepthAccV,
    >::empty());
    assert(m1 == depth_apply_upto(m0, r1, rootlen, false, 2));
    assert(m == depth_apply_upto(m1, r2, rootlen, false, 2));
    lemma_depth_apply_frame(m0, r1, rootlen, false, 2);
    crate::depth::lemma_level_keys_distinct(r1, rootlen, 0, 1);
    crate::depth::lemma_level_keys_distinct(r2, rootlen, 0, 1);
    // after the first record: the root and its first prefix each hold it once
    assert(map_get(m1, kroot) == Some(depth_step_value(map_get(m0, kroot), r1, false)));
    assert(map_get(m1, ka) == Some(depth_step_value(map_get(m0, ka), r1, false)));
    let da1 = depth_step_value(None, r1, false);
    assert(da1.inodes == 1 && da1.bytes == r1.bytes && da1.seen == Set::empty().insert(r1.inode));
    // the second record: its own prefix is fresh, the root already saw the inode
    lemma_depth_apply_frame(m1, r2, rootlen, false, 2);
    assert(map_get(m, kb) == Some(depth_step_value(map_get(m1, kb), r2, false)));
    assert(map_get(m1, kb) is None) by {
        if m1.dom().contains(kb) {
            assert(!crate::depth::is_level_key(r1, rootlen, 2, kb));
            assert(map_get(m1, kb) == map_get(m0, kb));
        }
    }
    let db = depth_step_value(None, r2, false);
    assert(db.inodes == 1 && db.bytes == r2.bytes);
    assert(map_get(m, kroot) == Some(depth_step_value(map_get(m1, kroot), r2, false)));
    assert(m1[kroot].seen.contains(r2.inode));
    assert(m[kroot] == m1[kroot]);
    assert(map_get(m, ka) == map_get(m1, ka)) by {
        assert(!crate::depth::is_level_key(r2, rootlen, 2, ka));
    }
}

/// The records of a report whose inode differs from the given one.
pub open spec fn other_records(es: Seq<EntryV>, ino: u64) -> Seq<EntryV>
    decreases es.len(),
{
    if es.len() == 0 {
        Seq::empty()
    } else if es.last().inode != ino {
        other_records(es.drop_last(), ino).push(es.last())
    } else {
        other_records(es.drop_last(), ino)
    }
}

/// Whether an inode occurs in a report.
pub open spec fn has_inode(es: Seq<EntryV>, ino: u64) -> bool {
    exists|i: int| 0 <= i < es.len() && (#[trigger] es[i]).inode == ino
}

/// Total dedup amid other records: whatever else the report holds, one
/// hard-linked object of uniform size `s` contributes `s` and one object to
/// the deduplicated total, at its first occurrence, and its later
/// occurrences add nothing; with every link counted it contributes once per
/// occurrence.
#[verifier::rlimit(100)]
#[verifier::spinoff_prover]
pub proof fn lemma_total_dedup_amid(es: Seq<EntryV>, ino: u64, s: u64)
    requires
        forall|i: int|
            0 <= i < es.len() && (#[trigger] es[i]).inode == ino ==> es[i].nlink > 1 && es[i].bytes
                == s,
    ensures
        has_inode(es, ino) ==> {
            &&& total_fold(es, false).bytes == total_fold(other_records(es, ino), false).bytes + s
            &&& total_fold(es, false).inodes == total_fold(other_records(es, ino), false).inodes
                + 1
            &&& total_fold(es, false).seen == total_fold(other_records(es, ino), false).seen.insert(
                ino,
            )
        },
        !has_inode(es, ino) ==> total_fold(es, false) == total_fold(other_records(es, ino), false),
        total_fold(es, true).bytes == total_fold(other_records(es, ino), true).bytes + (es.len()
            - other_records(es, ino).len()) * s,
        total_fold(es, true).inodes == total_fold(other_records(es, ino), true).inodes + (es.len()
            - other_records(es, ino).len()),
        !total_fold(other_records(es, ino), false).seen.contains(ino),
        other_records(es, ino).len() <= es.len(),
    decreases es.len(),
{
    if es.len() == 0 {
        assert(other_records(es, ino) =~= es);
        assert(total_fold(es, true).inodes == total_fold(other_records(es, ino), true).inodes);
    } else {
        let dl = es.drop_last();
        let last = es.last();
        assert(forall|i: int| 0 <= i < dl.len() ==> dl[i] == #[trigger] es[i]);
        lemma_total_dedup_amid(dl, ino, s);
        let cnt_dl = dl.len() - other_records(dl, ino).len();
        if last.inode == ino {
            assert(other_records(es, ino) == other_records(dl, ino));
            assert(has_inode(es, ino)) by {
                assert(es[es.len() - 1].inode == ino);
            }
            if has_inode(dl, ino) {
                assert(total_fold(dl, false).seen.contains(ino));
                assert(total_fold(es, false) == total_fold(dl, false));
            } else {
                assert(!total_fold(dl, false).seen.contains(ino));
            }
            assert((es.len() - other_records(es, ino).len()) * s == cnt_dl * s + s)
                by (nonlinear_arith)
                requires es.len() - other_records(es, ino).len() == cnt_dl + 1;
        } else {
            assert(other_records(es, ino) == other_records(dl, ino).push(last));
            assert(other_records(es, ino).drop_last() =~= other_records(dl, ino));
            assert(total_fold(other_records(es, ino), false) == total_step(
                total_fold(other_records(dl, ino), false),
                last,
                false,
            ));
            assert(total_fold(other_records(es, ino), true) == total_step(
                total_fold(other_records(dl, ino), true),
                last,
                true,
            ));
            if has_inode(dl, ino) {
                assert(has_inode(es, ino));
                // the two seen sets differ only in the tracked inode, which
                // this record does not carry
                assert(total_fold(dl, false).seen.contains(last.inode)
                    == total_fold(other_records(dl, ino), false).seen.contains(last.inode));
                if !(last.nlink == 1) && !total_fold(dl, false).seen.contains(last.inode) {
                    assert(total_fold(es, false).seen =~= total_fold(
                        other_records(es, ino),
                        false,
                    ).seen.insert(ino));
                }
            } else {
                assert(!has_inode(es, ino)) by {
                    if has_inode(es, ino) {
                        let i = choose|i: int|
                            0 <= i < es.len() && (#[trigger] es[i]).inode == ino;
                        assert(i < dl.len() && dl[i].inode == ino);
                    }
                }
            }
            assert((es.len() - other_records(es, ino).len()) * s == cnt_dl * s)
                by (nonlinear_arith)
                requires es.len() - other_records(es, ino).len() == cnt_dl;
        }
    }
}

} // verus!
