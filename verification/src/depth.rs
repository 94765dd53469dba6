//! Depth-bounded rollups: a mapping from each ancestor prefix of the scan
//! root, up to a maximum depth, to that prefix's own deduplicated rollup.
//!
//! The hard-link scope is one prefix: an inode counted under `/root/a` is
//! counted again under `/root/b`, because each prefix's rollup is a
//! self-contained view, but never twice under the same prefix.

use vstd::prelude::*;

use crate::paths::{
    comps_of, lemma_path_comps_wf, lemma_render_len_mono, path_comps, render_comps, render_prefix,
};
use crate::policy::{EntryV, UsageError};
use crate::report::{
    lemma_sum_bytes_mono, lemma_sum_bytes_nonneg, read_records, report_records, sum_bytes,
};
use crate::scan::{bytes_eq, lemma_lex_trans, lemma_lex_trichotomy, lex_cmp, lex_lt};
use crate::total::fits_u64;
use crate::usage::{contains_u64, Acc};

verus! {

/// One prefix's running rollup: the counts so far and the inodes of
/// hard-linked objects already counted under this prefix.
pub ghost struct DepthAccV {
    pub inodes: int,
    pub bytes: int,
    pub seen: Set<u64>,
}

/// One prefix's rollup under construction.
pub struct DepthAcc {
    pub acc: Acc,
    pub hard_links: Vec<u64>,
}

impl DepthAcc {
    /// The mathematical content of the rollup.
    pub open spec fn view_acc(self) -> DepthAccV {
        DepthAccV {
            inodes: self.acc.inodes as int,
            bytes: self.acc.bytes as int,
            seen: self.hard_links@.to_set(),
        }
    }
}

/// A map entry looked up without committing to membership.
pub open spec fn map_get(m: Map<Seq<u8>, DepthAccV>, key: Seq<u8>) -> Option<DepthAccV> {
    if m.dom().contains(key) {
        Some(m[key])
    } else {
        None
    }
}

/// One record folded into one prefix's rollup: with `count_links` or a
/// single link it always contributes; otherwise only the first occurrence
/// of its inode under this prefix does.
pub open spec fn depth_step_value(
    prior: Option<DepthAccV>,
    e: EntryV,
    count_links: bool,
) -> DepthAccV {
    match prior {
        None => {
            if count_links || e.nlink == 1 {
                DepthAccV { inodes: 1, bytes: e.bytes as int, seen: Set::empty() }
            } else {
                DepthAccV { inodes: 1, bytes: e.bytes as int, seen: Set::empty().insert(e.inode) }
            }
        },
        Some(d) => {
            if count_links || e.nlink == 1 {
                DepthAccV { inodes: d.inodes + 1, bytes: d.bytes + e.bytes, seen: d.seen }
            } else if d.seen.contains(e.inode) {
                d
            } else {
                DepthAccV {
                    inodes: d.inodes + 1,
                    bytes: d.bytes + e.bytes,
                    seen: d.seen.insert(e.inode),
                }
            }
        },
    }
}

/// The prefix of the record's path truncated `i` components below the root.
pub open spec fn level_key(e: EntryV, rootlen: int, i: int) -> Seq<u8> {
    render_comps(path_comps(e.path).take(rootlen + i))
}

/// Whether `key` is one of the first `j` level prefixes of a record.
pub open spec fn is_level_key(e: EntryV, rootlen: int, j: int, key: Seq<u8>) -> bool {
    exists|i: int| 0 <= i < j && key == level_key(e, rootlen, i)
}

/// One record folded into the rollups of its first `j` level prefixes.
pub open spec fn depth_apply_upto(
    m: Map<Seq<u8>, DepthAccV>,
    e: EntryV,
    rootlen: int,
    count_links: bool,
    j: int,
) -> Map<Seq<u8>, DepthAccV>
    decreases j,
{
    if j <= 0 {
        m
    } else {
        let prev = depth_apply_upto(m, e, rootlen, count_links, j - 1);
        let key = level_key(e, rootlen, j - 1);
        prev.insert(key, depth_step_value(map_get(prev, key), e, count_links))
    }
}

/// How many prefixes a record reaches: one per depth from zero up to the
/// maximum depth or the record's own depth below the root, whichever is
/// smaller.
pub open spec fn entry_levels(e: EntryV, rootlen: int, max_depth: int) -> int {
    let suffix = path_comps(e.path).len() - rootlen;
    (if max_depth < suffix {
        max_depth
    } else {
        suffix
    }) + 1
}

/// A whole record sequence folded into per-prefix rollups, in order.
pub open spec fn depth_fold(
    es: Seq<EntryV>,
    rootlen: int,
    max_depth: int,
    count_links: bool,
) -> Map<Seq<u8>, DepthAccV>
    decreases es.len(),
{
    if es.len() == 0 {
        Map::empty()
    } else {
        depth_apply_upto(
            depth_fold(es.drop_last(), rootlen, max_depth, count_links),
            es.last(),
            rootlen,
            count_links,
            entry_levels(es.last(), rootlen, max_depth),
        )
    }
}

/// Whether every record's path lies at or below the root depth.
pub open spec fn under_root(es: Seq<EntryV>, rootlen: int) -> bool {
    forall|i: int| 0 <= i < es.len() ==> path_comps(#[trigger] es[i].path).len() >= rootlen
}

/// Two distinct levels of one record have distinct prefixes.
pub proof fn lemma_level_keys_distinct(e: EntryV, rootlen: int, i1: int, i2: int)
    requires
        0 <= rootlen,
        0 <= i1 < i2,
        rootlen + i2 <= path_comps(e.path).len(),
    ensures
        level_key(e, rootlen, i1) != level_key(e, rootlen, i2),
{
    lemma_path_comps_wf(e.path);
    lemma_render_len_mono(path_comps(e.path), rootlen + i1, rootlen + i2);
}

/// Folding one record changes exactly its level prefixes, each by one step.
pub proof fn lemma_depth_apply_frame(
    m: Map<Seq<u8>, DepthAccV>,
    e: EntryV,
    rootlen: int,
    count_links: bool,
    j: int,
)
    requires
        0 <= rootlen,
        0 <= j,
        rootlen + j <= path_comps(e.path).len() + 1,
    ensures
        forall|key: Seq<u8>|
            !is_level_key(e, rootlen, j, key) ==> map_get(
                depth_apply_upto(m, e, rootlen, count_links, j),
                key,
            ) == map_get(m, key),
        forall|i: int|
            0 <= i < j ==> map_get(
                depth_apply_upto(m, e, rootlen, count_links, j),
                #[trigger] level_key(e, rootlen, i),
            ) == Some(
                depth_step_value(map_get(m, level_key(e, rootlen, i)), e, count_links),
            ),
    decreases j,
{
    if j > 0 {
        lemma_depth_apply_frame(m, e, rootlen, count_links, j - 1);
        let prev = depth_apply_upto(m, e, rootlen, count_links, j - 1);
        let keyj = level_key(e, rootlen, j - 1);
        assert(!is_level_key(e, rootlen, j - 1, keyj)) by {
            if is_level_key(e, rootlen, j - 1, keyj) {
                let i = choose|i: int| 0 <= i < j - 1 && keyj == level_key(e, rootlen, i);
                lemma_level_keys_distinct(e, rootlen, i, j - 1);
            }
        }
        assert(map_get(prev, keyj) == map_get(m, keyj));
        assert forall|i: int| 0 <= i < j implies map_get(
            depth_apply_upto(m, e, rootlen, count_links, j),
            #[trigger] level_key(e, rootlen, i),
        ) == Some(depth_step_value(map_get(m, level_key(e, rootlen, i)), e, count_links)) by {
            if i < j - 1 {
                lemma_level_keys_distinct(e, rootlen, i, j - 1);
            }
        }
    }
}

/// No prefix's rollup exceeds the undeduplicated whole, nor counts more
/// objects than there are records.
pub proof fn lemma_depth_fold_bounds(es: Seq<EntryV>, rootlen: int, max_depth: int, cl: bool)
    requires
        0 <= rootlen,
        0 <= max_depth,
        under_root(es, rootlen),
    ensures
        forall|key: Seq<u8>|
            #[trigger] depth_fold(es, rootlen, max_depth, cl).dom().contains(key) ==> {
                let d = depth_fold(es, rootlen, max_depth, cl)[key];
                0 <= d.inodes <= es.len() && 0 <= d.bytes <= sum_bytes(es)
            },
    decreases es.len(),
{
    if es.len() > 0 {
        let prior = es.drop_last();
        assert(under_root(prior, rootlen)) by {
            assert(forall|i: int| 0 <= i < prior.len() ==> prior[i] == #[trigger] es[i]);
        }
        lemma_depth_fold_bounds(prior, rootlen, max_depth, cl);
        lemma_sum_bytes_nonneg(prior);
        let e = es.last();
        let mp = depth_fold(prior, rootlen, max_depth, cl);
        let levels = entry_levels(e, rootlen, max_depth);
        assert(path_comps(es.last().path).len() >= rootlen);
        lemma_depth_apply_frame(mp, e, rootlen, cl, levels);
        let m = depth_fold(es, rootlen, max_depth, cl);
        assert forall|key: Seq<u8>| #[trigger] m.dom().contains(key) implies {
            let d = m[key];
            0 <= d.inodes <= es.len() && 0 <= d.bytes <= sum_bytes(es)
        } by {
            if is_level_key(e, rootlen, levels, key) {
                let i = choose|i: int| 0 <= i < levels && key == level_key(e, rootlen, i);
                assert(map_get(m, key) == Some(
                    depth_step_value(map_get(mp, key), e, cl),
                ));
            } else {
                assert(map_get(m, key) == map_get(mp, key));
            }
        }
    }
}


/// The slots mirror the map: keys are unique, every slot is in the map with
/// its value, and every key of the map has a slot.
pub open spec fn sums_match(s: Seq<(Vec<u8>, DepthAcc)>, m: Map<Seq<u8>, DepthAccV>) -> bool {
    &&& forall|i1: int, i2: int| 0 <= i1 < i2 < s.len() ==> s[i1].0@ != s[i2].0@
    &&& forall|i: int| 0 <= i < s.len() ==> m.dom().contains(#[trigger] s[i].0@)
    &&& forall|i: int| 0 <= i < s.len() ==> m[#[trigger] s[i].0@] == s[i].1.view_acc()
    &&& forall|key: Seq<u8>|
        #[trigger] m.dom().contains(key) ==> exists|i: int| 0 <= i < s.len() && s[i].0@ == key
}

/// Finds the slot of a prefix, if any.
fn find_key(sums: &Vec<(Vec<u8>, DepthAcc)>, key: &Vec<u8>) -> (r: Option<usize>)
    ensures
        match r {
            Some(i) => 0 <= i < sums@.len() && sums@[i as int].0@ == key@,
            None => forall|i: int| 0 <= i < sums@.len() ==> sums@[i].0@ != key@,
        },
{
    let mut i: usize = 0;
    while i < sums.len()
        invariant
            0 <= i <= sums@.len(),
            forall|k: int| 0 <= k < i ==> sums@[k].0@ != key@,
        decreases sums@.len() - i,
    {
        if bytes_eq(sums[i].0.as_slice(), key.as_slice()) {
            return Some(i);
        }
        i = i + 1;
    }
    None
}

/// Folds one record into one prefix's slot.
#[verifier::rlimit(50)]
pub(crate) fn apply_one(
    sums: &mut Vec<(Vec<u8>, DepthAcc)>,
    key: Vec<u8>,
    einode: u64,
    ebytes: u64,
    enlink: u32,
    count_links: bool,
    Ghost(ev): Ghost<EntryV>,
    Ghost(mj): Ghost<Map<Seq<u8>, DepthAccV>>,
    Ghost(bb): Ghost<int>,
    Ghost(kb): Ghost<int>,
)
    requires
        sums_match(old(sums)@, mj),
        mj.dom().contains(key@) ==> mj[key@].bytes <= bb && mj[key@].inodes <= kb,
        bb + ebytes <= u64::MAX,
        kb + 1 <= u64::MAX,
        0 <= bb,
        0 <= kb,
        einode == ev.inode,
        ebytes == ev.bytes,
        enlink == ev.nlink,
    ensures
        sums_match(
            final(sums)@,
            mj.insert(key@, depth_step_value(map_get(mj, key@), ev, count_links)),
        ),
{
    let ghost m2 = mj.insert(key@, depth_step_value(map_get(mj, key@), ev, count_links));
    let dedup = !(count_links || enlink == 1);
    match find_key(sums, &key) {
        Some(i) => {
            let ghost sums0 = sums@;
            let ghost d0 = sums@[i as int].1.view_acc();
            proof {
                assert(mj.dom().contains(key@));
                assert(mj[key@] == d0);
            }
            let kept_key = vstd::slice::slice_to_vec(sums[i].0.as_slice());
            let old_acc = sums[i].1.acc;
            if dedup && contains_u64(&sums[i].1.hard_links, einode) {
                proof {
                    assert(sums@[i as int].1.hard_links@.contains(ev.inode));
                    assert(d0.seen.contains(ev.inode));
                    assert(depth_step_value(map_get(mj, key@), ev, count_links) == d0);
                    assert(m2 =~= mj);
                    assert(sums_match(sums@, m2));
                }
            } else {
                let mut links = vstd::slice::slice_to_vec(sums[i].1.hard_links.as_slice());
                let ghost links0 = links@;
                if dedup {
                    links.push(einode);
                }
                let mut acc2 = old_acc;
                acc2.add_assign(ebytes);
                sums.set(i, (kept_key, DepthAcc { acc: acc2, hard_links: links }));
                proof {
                    let d2 = depth_step_value(Some(d0), ev, count_links);
                    assert(sums@[i as int].1.view_acc() == d2) by {
                        if dedup {
                            links0.lemma_push_to_set_commute(ev.inode);
                            assert(links@.to_set() =~= d0.seen.insert(ev.inode));
                        } else {
                            assert(links@.to_set() =~= d0.seen);
                        }
                    }
                    assert(sums_match(sums@, m2)) by {
                        assert(forall|q: int|
                            0 <= q < sums@.len() ==> sums@[q].0@ == #[trigger] sums0[q].0@);
                        assert(forall|q: int|
                            0 <= q < sums@.len() && q != i as int ==> sums@[q].1 == #[trigger] sums0[q].1);
                        assert forall|kk: Seq<u8>| #[trigger] m2.dom().contains(kk) implies exists|ii: int|
                            0 <= ii < sums@.len() && sums@[ii].0@ == kk by {
                            if kk == key@ {
                                assert(sums@[i as int].0@ == kk);
                            } else {
                                assert(mj.dom().contains(kk));
                                let ii = choose|ii: int| 0 <= ii < sums0.len() && sums0[ii].0@ == kk;
                                assert(sums@[ii].0@ == kk);
                            }
                        }
                    }
                }
            }
        },
        None => {
            let ghost sums0 = sums@;
            proof {
                assert(map_get(mj, key@) is None) by {
                    if mj.dom().contains(key@) {
                        let ii = choose|ii: int| 0 <= ii < sums@.len() && sums@[ii].0@ == key@;
                        assert(sums@[ii].0@ == key@);
                        assert(sums@[ii].0@ != key@);
                    }
                }
            }
            let mut links: Vec<u64> = Vec::new();
            if dedup {
                links.push(einode);
            }
            sums.push((key, DepthAcc { acc: Acc::new(ebytes), hard_links: links }));
            proof {
                let d2 = depth_step_value(None, ev, count_links);
                assert(sums@[sums@.len() - 1].1.view_acc() == d2) by {
                    if dedup {
                        assert(links@ =~= Seq::<u64>::empty().push(ev.inode));
                        Seq::<u64>::empty().lemma_push_to_set_commute(ev.inode);
                        assert(links@.to_set() =~= Set::empty().insert(ev.inode));
                    } else {
                        assert(links@.to_set() =~= Set::<u64>::empty()) by {
                            assert(forall|x: u64| !links@.contains(x));
                        }
                    }
                }
                assert(sums_match(sums@, m2)) by {
                    assert(forall|q: int| 0 <= q < sums0.len() ==> sums@[q] == #[trigger] sums0[q]);
                    assert(sums@[sums@.len() - 1].0@ == key@);
                    assert forall|kk: Seq<u8>| #[trigger] m2.dom().contains(kk) implies exists|ii: int|
                        0 <= ii < sums@.len() && sums@[ii].0@ == kk by {
                        if kk == key@ {
                            assert(sums@[sums@.len() - 1].0@ == kk);
                        } else {
                            assert(mj.dom().contains(kk));
                            let ii = choose|ii: int| 0 <= ii < sums0.len() && sums0[ii].0@ == kk;
                            assert(sums@[ii].0@ == kk);
                        }
                    }
                }
            }
        },
    }
}

/// Folds one record into the rollups of all its level prefixes.
#[verifier::rlimit(50)]
pub(crate) fn apply_levels(
    sums: &mut Vec<(Vec<u8>, DepthAcc)>,
    pc: &Vec<Vec<u8>>,
    rootlen: usize,
    max_depth: usize,
    einode: u64,
    ebytes: u64,
    enlink: u32,
    count_links: bool,
    Ghost(ev): Ghost<EntryV>,
    Ghost(mbase): Ghost<Map<Seq<u8>, DepthAccV>>,
    Ghost(bb): Ghost<int>,
    Ghost(kb): Ghost<int>,
)
    requires
        sums_match(old(sums)@, mbase),
        pc.deep_view() == path_comps(ev.path),
        pc@.len() == path_comps(ev.path).len(),
        rootlen as int <= pc@.len(),
        forall|key: Seq<u8>|
            #[trigger] mbase.dom().contains(key) ==> 0 <= mbase[key].inodes <= kb && 0
                <= mbase[key].bytes <= bb,
        bb + ebytes <= u64::MAX,
        kb + 1 <= u64::MAX,
        0 <= bb,
        0 <= kb,
        einode == ev.inode,
        ebytes == ev.bytes,
        enlink == ev.nlink,
    ensures
        sums_match(
            final(sums)@,
            depth_apply_upto(
                mbase,
                ev,
                rootlen as int,
                count_links,
                entry_levels(ev, rootlen as int, max_depth as int),
            ),
        ),
{
    let ghost grootlen = rootlen as int;
    let pclen = pc.len();
    let suffix = pclen - rootlen;
    let lim = if max_depth < suffix {
        max_depth
    } else {
        suffix
    };
    let ghost levels = entry_levels(ev, grootlen, max_depth as int);
    proof {
        assert(levels == lim as int + 1);
    }
    let mut j: usize = 0;
    loop
        invariant_except_break
            0 <= j <= lim,
            lim as int + 1 == levels,
            levels == entry_levels(ev, grootlen, max_depth as int),
            grootlen == rootlen as int,
            rootlen as int + lim as int <= pclen as int,
            pclen as int == pc@.len(),
            pc.deep_view() == path_comps(ev.path),
            pc@.len() == path_comps(ev.path).len(),
            forall|key: Seq<u8>|
                #[trigger] mbase.dom().contains(key) ==> 0 <= mbase[key].inodes <= kb && 0
                    <= mbase[key].bytes <= bb,
            bb + ebytes <= u64::MAX,
            kb + 1 <= u64::MAX,
            0 <= bb,
            0 <= kb,
            einode == ev.inode,
            ebytes == ev.bytes,
            enlink == ev.nlink,
            sums_match(sums@, depth_apply_upto(mbase, ev, grootlen, count_links, j as int)),
        ensures
            sums_match(sums@, depth_apply_upto(mbase, ev, grootlen, count_links, levels)),
        decreases lim - j,
    {
        let ghost mj = depth_apply_upto(mbase, ev, grootlen, count_links, j as int);
        let key = render_prefix(pc, rootlen + j);
        proof {
            assert(key@ == level_key(ev, grootlen, j as int));
            lemma_depth_apply_frame(mbase, ev, grootlen, count_links, j as int);
            assert(!is_level_key(ev, grootlen, j as int, key@)) by {
                if is_level_key(ev, grootlen, j as int, key@) {
                    let i = choose|i: int| 0 <= i < j as int && key@ == level_key(ev, grootlen, i);
                    lemma_level_keys_distinct(ev, grootlen, i, j as int);
                }
            }
            assert(map_get(mj, key@) == map_get(mbase, key@));
            assert(mj.dom().contains(key@) ==> mj[key@].bytes <= bb && mj[key@].inodes <= kb);
        }
        apply_one(
            sums,
            key,
            einode,
            ebytes,
            enlink,
            count_links,
            Ghost(ev),
            Ghost(mj),
            Ghost(bb),
            Ghost(kb),
        );
        proof {
            assert(depth_apply_upto(mbase, ev, grootlen, count_links, j as int + 1) == mj.insert(
                level_key(ev, grootlen, j as int),
                depth_step_value(map_get(mj, level_key(ev, grootlen, j as int)), ev, count_links),
            ));
        }
        if j == lim {
            break;
        }
        j = j + 1;
    }
}

/// Rows in strictly ascending prefix order.
pub open spec fn rows_sorted(s: Seq<(Vec<u8>, Acc)>) -> bool {
    forall|i1: int, i2: int| 0 <= i1 < i2 < s.len() ==> lex_lt(s[i1].0@, s[i2].0@)
}

/// Whether row `q` carries slot `p`: the same prefix and the same counts.
pub open spec fn row_match(
    rows: Seq<(Vec<u8>, Acc)>,
    q: int,
    sums: Seq<(Vec<u8>, DepthAcc)>,
    p: int,
) -> bool {
    &&& 0 <= q < rows.len()
    &&& 0 <= p < sums.len()
    &&& rows[q].0@ == sums[p].0@
    &&& rows[q].1 == sums[p].1.acc
}

/// Whether row `q` carries one of the first `upto` slots that kept more
/// than one object.
pub open spec fn row_sourced(
    rows: Seq<(Vec<u8>, Acc)>,
    q: int,
    sums: Seq<(Vec<u8>, DepthAcc)>,
    upto: int,
) -> bool {
    exists|p: int| p < upto && #[trigger] row_match(rows, q, sums, p) && sums[p].1.acc.inodes > 1
}

/// Whether slot `p` stands in some row.
pub open spec fn slot_rowed(
    rows: Seq<(Vec<u8>, Acc)>,
    sums: Seq<(Vec<u8>, DepthAcc)>,
    p: int,
) -> bool {
    exists|q: int| #[trigger] row_match(rows, q, sums, p)
}

/// Whether two row lists carry the same row at `q` and `p`.
pub open spec fn row_same(a: Seq<(Vec<u8>, Acc)>, q: int, b: Seq<(Vec<u8>, Acc)>, p: int) -> bool {
    &&& 0 <= q < a.len()
    &&& 0 <= p < b.len()
    &&& a[q].0@ == b[p].0@
    &&& a[q].1 == b[p].1
}

/// Whether row `q` of `now` already stood in `prior`.
pub open spec fn row_from(now: Seq<(Vec<u8>, Acc)>, q: int, prior: Seq<(Vec<u8>, Acc)>) -> bool {
    exists|p: int| #[trigger] row_same(now, q, prior, p)
}

/// Whether row `p` of `prior` still stands in `now`.
pub open spec fn row_kept(now: Seq<(Vec<u8>, Acc)>, prior: Seq<(Vec<u8>, Acc)>, p: int) -> bool {
    exists|q: int| #[trigger] row_same(now, q, prior, p)
}

/// The first position whose row orders after `key`.
fn find_insert_pos(rows: &Vec<(Vec<u8>, Acc)>, key: &Vec<u8>) -> (p: usize)
    ensures
        0 <= p <= rows@.len(),
        forall|q: int| 0 <= q < p ==> !lex_lt(key@, #[trigger] rows@[q].0@),
        (p as int) < rows@.len() ==> lex_lt(key@, rows@[p as int].0@),
{
    let mut p: usize = 0;
    while p < rows.len()
        invariant
            0 <= p <= rows@.len(),
            forall|q: int| 0 <= q < p ==> !lex_lt(key@, #[trigger] rows@[q].0@),
        decreases rows@.len() - p,
    {
        let c = lex_cmp(key.as_slice(), rows[p].0.as_slice());
        if c < 0 {
            return p;
        }
        p = p + 1;
    }
    p
}

/// Inserts a fresh row at its place in a sorted row list.
#[verifier::rlimit(100)]
#[verifier::spinoff_prover]
fn sorted_insert(rows: &mut Vec<(Vec<u8>, Acc)>, key: Vec<u8>, acc: Acc)
    requires
        rows_sorted(old(rows)@),
        forall|i: int| 0 <= i < old(rows)@.len() ==> old(rows)@[i].0@ != key@,
    ensures
        rows_sorted(final(rows)@),
        final(rows)@.len() == old(rows)@.len() + 1,
        forall|q: int|
            0 <= q < final(rows)@.len() ==> (final(rows)@[q].0@ == key@ && final(rows)@[q].1
                == acc) || #[trigger] row_from(final(rows)@, q, old(rows)@),
        forall|p: int| 0 <= p < old(rows)@.len() ==> #[trigger] row_kept(final(rows)@, old(rows)@, p),
        exists|q: int|
            0 <= q < final(rows)@.len() && #[trigger] final(rows)@[q].0@ == key@
                && final(rows)@[q].1 == acc,
{
    let ghost prior = rows@;
    let p = find_insert_pos(rows, &key);
    proof {
        assert forall|q: int| 0 <= q < p implies lex_lt(#[trigger] prior[q].0@, key@) by {
            lemma_lex_trichotomy(key@, prior[q].0@);
        }
        if (p as int) < prior.len() {
            assert forall|q: int| p <= q < prior.len() implies lex_lt(
                key@,
                #[trigger] prior[q].0@,
            ) by {
                if q > p {
                    lemma_lex_trans(key@, prior[p as int].0@, prior[q].0@);
                }
            }
        }
    }
    rows.insert(p, (key, acc));
    proof {
        let now = rows@;
        assert(now[p as int].0@ == key@ && now[p as int].1 == acc);
        assert forall|q: int| 0 <= q < now.len() && !(now[q].0@ == key@ && now[q].1
            == acc) implies #[trigger] row_from(now, q, prior) by {
            if q < p {
                assert(row_same(now, q, prior, q));
            } else if q > p {
                assert(row_same(now, q, prior, q - 1));
            }
        }
        assert forall|pp: int| 0 <= pp < prior.len() implies #[trigger] row_kept(
            now,
            prior,
            pp,
        ) by {
            if pp < p {
                assert(row_same(now, pp, prior, pp));
            } else {
                assert(row_same(now, pp + 1, prior, pp));
            }
        }
        assert forall|q1: int, q2: int| 0 <= q1 < q2 < now.len() implies lex_lt(
            now[q1].0@,
            now[q2].0@,
        ) by {
            if q1 < p && q2 > p {
                lemma_lex_trans(now[q1].0@, key@, prior[q2 - 1].0@);
            }
        }
    }
}

/// Keeps the prefixes that gathered more than one object, in ascending
/// prefix order.
#[verifier::rlimit(100)]
#[verifier::spinoff_prover]
pub(crate) fn filter_rows(sums: &Vec<(Vec<u8>, DepthAcc)>, Ghost(m): Ghost<Map<Seq<u8>, DepthAccV>>) -> (rows:
    Vec<(Vec<u8>, Acc)>)
    requires
        sums_match(sums@, m),
    ensures
        rows_sorted(rows@),
        forall|q: int|
            0 <= q < rows@.len() ==> m.dom().contains(#[trigger] rows@[q].0@)
                && m[rows@[q].0@].inodes == rows@[q].1.inodes && m[rows@[q].0@].bytes
                == rows@[q].1.bytes && rows@[q].1.inodes > 1,
        forall|key: Seq<u8>|
            #[trigger] m.dom().contains(key) && m[key].inodes > 1 ==> exists|q: int|
                0 <= q < rows@.len() && rows@[q].0@ == key,
{
    let mut rows: Vec<(Vec<u8>, Acc)> = Vec::new();
    let mut i: usize = 0;
    while i < sums.len()
        invariant
            0 <= i <= sums@.len(),
            forall|i1: int, i2: int|
                #![trigger sums@[i1].0@, sums@[i2].0@]
                0 <= i1 < i2 < sums@.len() ==> sums@[i1].0@ != sums@[i2].0@,
            rows_sorted(rows@),
            forall|q: int|
                0 <= q < rows@.len() ==> #[trigger] row_sourced(rows@, q, sums@, i as int),
            forall|p: int|
                0 <= p < i && #[trigger] sums@[p].1.acc.inodes > 1 ==> slot_rowed(rows@, sums@, p),
        decreases sums@.len() - i,
    {
        let ghost gi = i as int;
        if sums[i].1.acc.inodes > 1 {
            let key = vstd::slice::slice_to_vec(sums[i].0.as_slice());
            let acc = sums[i].1.acc;
            let ghost gkey = key@;
            let ghost prevrows = rows@;
            proof {
                assert(gkey == sums@[gi].0@);
                assert forall|q: int| 0 <= q < rows@.len() implies rows@[q].0@ != gkey by {
                    assert(row_sourced(rows@, q, sums@, gi));
                    let p = choose|p: int|
                        p < gi && #[trigger] row_match(rows@, q, sums@, p)
                            && sums@[p].1.acc.inodes > 1;
                    assert(sums@[p].0@ != sums@[gi].0@);
                }
            }
            sorted_insert(&mut rows, key, acc);
            proof {
                assert forall|q: int| 0 <= q < rows@.len() implies #[trigger] row_sourced(
                    rows@,
                    q,
                    sums@,
                    gi + 1,
                ) by {
                    if rows@[q].0@ == gkey && rows@[q].1 == acc {
                        assert(row_match(rows@, q, sums@, gi));
                    } else {
                        assert(row_from(rows@, q, prevrows));
                        let pp = choose|pp: int| #[trigger] row_same(rows@, q, prevrows, pp);
                        assert(row_sourced(prevrows, pp, sums@, gi));
                        let p = choose|p: int|
                            p < gi && #[trigger] row_match(prevrows, pp, sums@, p)
                                && sums@[p].1.acc.inodes > 1;
                        assert(row_match(rows@, q, sums@, p));
                    }
                }
                assert forall|p: int|
                    0 <= p < gi + 1 && #[trigger] sums@[p].1.acc.inodes > 1 implies slot_rowed(
                    rows@,
                    sums@,
                    p,
                ) by {
                    if p == gi {
                        let q = choose|q: int|
                            0 <= q < rows@.len() && #[trigger] rows@[q].0@ == gkey && rows@[q].1
                                == acc;
                        assert(row_match(rows@, q, sums@, p));
                    } else {
                        assert(slot_rowed(prevrows, sums@, p));
                        let q0 = choose|q0: int| #[trigger] row_match(prevrows, q0, sums@, p);
                        assert(row_kept(rows@, prevrows, q0));
                        let q = choose|q: int| #[trigger] row_same(rows@, q, prevrows, q0);
                        assert(row_match(rows@, q, sums@, p));
                    }
                }
            }
        } else {
            proof {
                assert forall|p: int|
                    0 <= p < gi + 1 && #[trigger] sums@[p].1.acc.inodes > 1 implies slot_rowed(
                    rows@,
                    sums@,
                    p,
                ) by {
                    assert(p != gi);
                }
                assert forall|q: int| 0 <= q < rows@.len() implies #[trigger] row_sourced(
                    rows@,
                    q,
                    sums@,
                    gi + 1,
                ) by {
                    assert(row_sourced(rows@, q, sums@, gi));
                    let p = choose|p: int|
                        p < gi && #[trigger] row_match(rows@, q, sums@, p)
                            && sums@[p].1.acc.inodes > 1;
                    assert(row_match(rows@, q, sums@, p));
                }
            }
        }
        i = i + 1;
    }
    proof {
        assert forall|q: int| 0 <= q < rows@.len() implies m.dom().contains(
            #[trigger] rows@[q].0@,
        ) && m[rows@[q].0@].inodes == rows@[q].1.inodes && m[rows@[q].0@].bytes == rows@[q].1.bytes
            && rows@[q].1.inodes > 1 by {
            assert(row_sourced(rows@, q, sums@, sums@.len() as int));
            let p = choose|p: int|
                p < sums@.len() && #[trigger] row_match(rows@, q, sums@, p)
                    && sums@[p].1.acc.inodes > 1;
            assert(m.dom().contains(sums@[p].0@));
            assert(m[sums@[p].0@] == sums@[p].1.view_acc());
        }
        assert forall|key: Seq<u8>|
            #[trigger] m.dom().contains(key) && m[key].inodes > 1 implies exists|q: int|
            0 <= q < rows@.len() && rows@[q].0@ == key by {
            let p = choose|p: int| 0 <= p < sums@.len() && #[trigger] sums@[p].0@ == key;
            assert(m[sums@[p].0@] == sums@[p].1.view_acc());
            assert(sums@[p].1.acc.inodes > 1);
            assert(slot_rowed(rows@, sums@, p));
            let q = choose|q: int| #[trigger] row_match(rows@, q, sums@, p);
            assert(0 <= q < rows@.len() && rows@[q].0@ == key);
        }
    }
    rows
}

/// Sums a whole report into depth-bounded per-prefix rollups.
///
/// Returns the first parse error if a line is malformed.  On success the
/// rows are exactly the prefixes whose folded rollup counted more than one
/// object, in ascending prefix order: prefixes that gathered a single
/// object, bare files and empty directories, are dropped.
#[verifier::rlimit(50)]
pub fn sum(dir: &[u8], max_depth: usize, report: &[u8], count_links: bool) -> (r: Result<
    Vec<(Vec<u8>, Acc)>,
    UsageError,
>)
    requires
        report_records(report@) matches Ok(es) ==> fits_u64(es) && under_root(
            es,
            path_comps(dir@).len() as int,
        ),
    ensures
        match r {
            Ok(rows) => report_records(report@) matches Ok(es) && {
                let m = depth_fold(
                    es,
                    path_comps(dir@).len() as int,
                    max_depth as int,
                    count_links,
                );
                &&& rows_sorted(rows@)
                &&& forall|q: int|
                    0 <= q < rows@.len() ==> m.dom().contains(#[trigger] rows@[q].0@)
                        && m[rows@[q].0@].inodes == rows@[q].1.inodes && m[rows@[q].0@].bytes
                        == rows@[q].1.bytes && rows@[q].1.inodes > 1
                &&& forall|key: Seq<u8>|
                    #[trigger] m.dom().contains(key) && m[key].inodes > 1 ==> exists|q: int|
                        0 <= q < rows@.len() && rows@[q].0@ == key
            },
            Err(e) => report_records(report@) == Err::<Seq<EntryV>, UsageError>(e),
        },
{
    let entries = match read_records(report) {
        Ok(es) => es,
        Err(e) => {
            return Err(e);
        },
    };
    let ghost es = entries.deep_view();
    let root_comps = comps_of(dir);
    let rootlen = root_comps.len();
    let ghost grootlen = path_comps(dir@).len() as int;
    proof {
        assert(grootlen == rootlen as int);
    }
    let mut sums: Vec<(Vec<u8>, DepthAcc)> = Vec::new();
    let mut k: usize = 0;
    proof {
        assert(es.take(0) =~= Seq::<EntryV>::empty());
    }
    while k < entries.len()
        invariant
            0 <= k <= entries@.len(),
            es == entries.deep_view(),
            es.len() == entries@.len(),
            grootlen == rootlen as int,
            fits_u64(es),
            under_root(es, grootlen),
            sums_match(
                sums@,
                depth_fold(es.take(k as int), grootlen, max_depth as int, count_links),
            ),
        decreases entries@.len() - k,
    {
        let ghost mbase = depth_fold(es.take(k as int), grootlen, max_depth as int, count_links);
        let ghost ev = es[k as int];
        proof {
            assert(entries@[k as int]@ == ev);
            assert(es.take(k as int + 1).drop_last() =~= es.take(k as int));
            assert(es.take(k as int + 1).last() == ev);
            assert(under_root(es.take(k as int), grootlen)) by {
                assert(forall|i: int|
                    0 <= i < k as int ==> es.take(k as int)[i] == #[trigger] es[i]);
            }
            lemma_depth_fold_bounds(es.take(k as int), grootlen, max_depth as int, count_links);
            lemma_sum_bytes_mono(es, k as int);
            lemma_sum_bytes_mono(es, k as int + 1);
            lemma_sum_bytes_nonneg(es.take(k as int));
        }
        let e = &entries[k];
        let pc = comps_of(e.path.as_slice());
        proof {
            assert(e.path@ == ev.path);
            assert(pc.deep_view() == path_comps(ev.path));
            assert(pc@.len() == path_comps(ev.path).len());
        }
        let ghost bb = sum_bytes(es.take(k as int));
        let ghost kb = k as int;
        apply_levels(
            &mut sums,
            &pc,
            rootlen,
            max_depth,
            e.inode,
            e.bytes,
            e.nlink,
            count_links,
            Ghost(ev),
            Ghost(mbase),
            Ghost(bb),
            Ghost(kb),
        );
        k = k + 1;
        proof {
            assert(depth_fold(es.take(k as int), grootlen, max_depth as int, count_links)
                == depth_apply_upto(
                mbase,
                ev,
                grootlen,
                count_links,
                entry_levels(ev, grootlen, max_depth as int),
            ));
        }
    }
    proof {
        assert(es.take(es.len() as int) =~= es);
    }
    let ghost m = depth_fold(es, grootlen, max_depth as int, count_links);
    let rows = filter_rows(&sums, Ghost(m));
    proof {
        assert(report_records(report@) == Ok::<Seq<EntryV>, UsageError>(es));
        assert(m == depth_fold(es, path_comps(dir@).len() as int, max_depth as int, count_links));
        assert(rows_sorted(rows@));
        assert(forall|q: int|
            0 <= q < rows@.len() ==> m.dom().contains(#[trigger] rows@[q].0@)
                && m[rows@[q].0@].inodes == rows@[q].1.inodes && m[rows@[q].0@].bytes
                == rows@[q].1.bytes && rows@[q].1.inodes > 1);
        assert(forall|key: Seq<u8>|
            #[trigger] m.dom().contains(key) && m[key].inodes > 1 ==> exists|q: int|
                0 <= q < rows@.len() && rows@[q].0@ == key);
    }
    Ok(rows)
}

} // verus!
