//! The hierarchical tree: reconstruction from unordered extended records,
//! reduction to totals and depth-bounded rollups, and the interchange
//! export.

use vstd::prelude::*;

use crate::config::ByteMode;
use crate::depth::{
    apply_levels, depth_apply_upto, depth_fold, entry_levels, filter_rows,
    lemma_depth_fold_bounds, rows_sorted, sums_match, under_root, DepthAcc,
};
use crate::digits::{dec_of, u128_to_dec, u64_to_dec};
use crate::policy::{is_dir_mode, EntryV, NcduEntry, NcduEntryV, UsageError};
use crate::policy::parse_ncdu_spec;
use crate::report::{lemma_sum_bytes_mono, lemma_sum_bytes_nonneg, sum_bytes};
use crate::scan::{split_lines, split_lines_vec};
use crate::total::{lemma_total_fold_bounds, total_fold, total_step};
use crate::usage::{contains_u64, Acc};

verus! {

/// The payload of one tree node: both byte accountings, the hard-link
/// count, and the inode, which is meaningful only for hard-linked objects.
#[derive(Clone, Copy, Debug, Default, PartialEq, Eq, Structural)]
pub struct Data {
    pub file_size: u64,
    pub kb_allocated: u64,
    pub nlink: u32,
    pub inode: u64,
}

/// What an extended record contributes to its node: the inode is kept only
/// when the object is hard-linked.
pub open spec fn data_of(e: NcduEntryV) -> Data {
    Data {
        file_size: e.file_size,
        kb_allocated: e.kb_allocated,
        nlink: e.nlink,
        inode: if e.nlink > 1 {
            e.inode
        } else {
            0
        },
    }
}

/// The text `,"asize":`.
pub open spec fn asize_key() -> Seq<u8> {
    seq![0x2c, 0x22, 0x61, 0x73, 0x69, 0x7a, 0x65, 0x22, 0x3a]
}

/// The text `,"dsize":`.
pub open spec fn dsize_key() -> Seq<u8> {
    seq![0x2c, 0x22, 0x64, 0x73, 0x69, 0x7a, 0x65, 0x22, 0x3a]
}

/// The text `,"nlink":`.
pub open spec fn nlink_key() -> Seq<u8> {
    seq![0x2c, 0x22, 0x6e, 0x6c, 0x69, 0x6e, 0x6b, 0x22, 0x3a]
}

/// The text `,"ino":`.
pub open spec fn ino_key() -> Seq<u8> {
    seq![0x2c, 0x22, 0x69, 0x6e, 0x6f, 0x22, 0x3a]
}

/// The rendered attribute fragment of a node: the apparent size and the
/// allocated size when nonzero, and the link count with the inode when the
/// object is hard-linked.  The allocated size is exported in bytes.
pub open spec fn render_data(d: Data) -> Seq<u8> {
    let asize = if d.file_size != 0 {
        asize_key() + dec_of(d.file_size as nat)
    } else {
        Seq::<u8>::empty()
    };
    let dsize = if d.kb_allocated != 0 {
        asize + dsize_key() + dec_of((d.kb_allocated * 1024) as nat)
    } else {
        asize
    };
    if d.nlink > 1 {
        dsize + nlink_key() + dec_of(d.nlink as nat) + ino_key() + dec_of(d.inode as nat)
    } else {
        dsize
    }
}

fn push_key(out: &mut Vec<u8>, which: u8)
    requires
        which == 0x61 || which == 0x64,
    ensures
        which == 0x61 ==> final(out)@ == old(out)@ + asize_key(),
        which == 0x64 ==> final(out)@ == old(out)@ + dsize_key(),
{
    out.push(0x2c);
    out.push(0x22);
    out.push(which);
    out.push(0x73);
    out.push(0x69);
    out.push(0x7a);
    out.push(0x65);
    out.push(0x22);
    out.push(0x3a);
    proof {
        if which == 0x61 {
            assert(out@ =~= old(out)@ + asize_key());
        } else {
            assert(out@ =~= old(out)@ + dsize_key());
        }
    }
}

impl Data {
    /// The payload an extended record carries.
    pub fn from_entry(e: &NcduEntry) -> (d: Data)
        ensures
            d == data_of(e@),
    {
        let inode = if e.nlink > 1 {
            e.inode
        } else {
            0
        };
        Data { file_size: e.file_size, kb_allocated: e.kb_allocated, nlink: e.nlink, inode }
    }

    /// Renders the node's attribute fragment for the interchange format.
    pub fn write(&self) -> (r: Vec<u8>)
        ensures
            r@ == render_data(*self),
    {
        let mut out: Vec<u8> = Vec::new();
        if self.file_size != 0 {
            push_key(&mut out, 0x61);
            let mut digits = u64_to_dec(self.file_size);
            out.append(&mut digits);
        }
        if self.kb_allocated != 0 {
            let ghost before = out@;
            push_key(&mut out, 0x64);
            let wide = (self.kb_allocated as u128) * 1024;
            let mut digits = u128_to_dec(wide);
            out.append(&mut digits);
            proof {
                assert(wide as nat == (self.kb_allocated * 1024) as nat);
                assert(out@ =~= before + dsize_key() + dec_of((self.kb_allocated * 1024) as nat));
            }
        }
        if self.nlink > 1 {
            let ghost before = out@;
            out.push(0x2c);
            out.push(0x22);
            out.push(0x6e);
            out.push(0x6c);
            out.push(0x69);
            out.push(0x6e);
            out.push(0x6b);
            out.push(0x22);
            out.push(0x3a);
            let mut digits = u64_to_dec(self.nlink as u64);
            out.append(&mut digits);
            out.push(0x2c);
            out.push(0x22);
            out.push(0x69);
            out.push(0x6e);
            out.push(0x6f);
            out.push(0x22);
            out.push(0x3a);
            let mut digits = u64_to_dec(self.inode);
            out.append(&mut digits);
            proof {
                assert(out@ =~= before + nlink_key() + dec_of(self.nlink as nat) + ino_key()
                    + dec_of(self.inode as nat));
            }
        }
        proof {
            assert(out@ =~= render_data(*self));
        }
        out
    }
}

/// A child of a tree node: a subdirectory with its own subtree, or a leaf.
#[derive(Debug, PartialEq, Eq)]
pub enum FSObj {
    Dir(FSTree),
    Node(Data),
}

/// A tree node: its own absolute path as components, its own payload, and
/// its children keyed by their final path component, in ascending order.
#[derive(Debug, PartialEq, Eq)]
pub struct FSTree {
    pub path: Vec<Vec<u8>>,
    pub data: Data,
    pub children: Vec<(Vec<u8>, FSObj)>,
}

/// The mathematical content of a child.
pub ghost enum ObjV {
    Dir(TreeV),
    Node(Data),
}

/// The mathematical content of a tree node.
pub ghost struct TreeV {
    pub path: Seq<Seq<u8>>,
    pub data: Data,
    pub children: Seq<(Seq<u8>, ObjV)>,
}

/// The payload every placeholder node starts with.
pub open spec fn data_zero() -> Data {
    Data { file_size: 0, kb_allocated: 0, nlink: 0, inode: 0 }
}

impl FSObj {
    /// The mathematical content of this child.
    pub open spec fn ov(self) -> ObjV
        decreases self,
    {
        match self {
            FSObj::Dir(sub) => ObjV::Dir(sub.tv()),
            FSObj::Node(d) => ObjV::Node(d),
        }
    }
}

/// The views of the first `n` children.
pub open spec fn kids_v(cs: Seq<(Vec<u8>, FSObj)>, n: int) -> Seq<(Seq<u8>, ObjV)>
    decreases cs, n,
{
    if n <= 0 || cs.len() < n {
        Seq::empty()
    } else {
        kids_v(cs, n - 1).push((cs[n - 1].0@, cs[n - 1].1.ov()))
    }
}

impl FSTree {
    /// The mathematical content of this node.
    pub open spec fn tv(self) -> TreeV
        decreases self,
    {
        TreeV {
            path: self.path.deep_view(),
            data: self.data,
            children: kids_v(self.children@, self.children@.len() as int),
        }
    }
}

pub proof fn lemma_kids_v_index(cs: Seq<(Vec<u8>, FSObj)>, n: int)
    requires
        0 <= n <= cs.len(),
    ensures
        kids_v(cs, n).len() == n,
        forall|i: int| 0 <= i < n ==> #[trigger] kids_v(cs, n)[i] == (cs[i].0@, cs[i].1.ov()),
    decreases n,
{
    if n > 0 {
        lemma_kids_v_index(cs, n - 1);
    }
}

/// A component a tree key may hold: nonempty and without a slash.
pub open spec fn comp_ok(c: Seq<u8>) -> bool {
    c.len() > 0 && forall|i: int| 0 <= i < c.len() ==> c[i] != crate::policy::SLASH
}

/// Whether a child is well formed under its parent: a directory child's own
/// path is the parent's extended by the key.
pub open spec fn obj_wf(o: ObjV, parent: Seq<Seq<u8>>, comp: Seq<u8>) -> bool
    decreases o,
{
    match o {
        ObjV::Dir(sub) => sub.path == parent.push(comp) && tree_wf(sub),
        ObjV::Node(_) => true,
    }
}

/// Well-formedness of a tree: path components are proper, children are in
/// strictly ascending key order (so keys are unique), and every directory
/// child's path extends this node's by its key.
pub open spec fn tree_wf(t: TreeV) -> bool
    decreases t,
{
    &&& forall|i: int| 0 <= i < t.path.len() ==> comp_ok(#[trigger] t.path[i])
    &&& forall|i: int, j: int|
        0 <= i < j < t.children.len() ==> crate::scan::lex_lt(
            t.children[i].0,
            t.children[j].0,
        )
    &&& forall|i: int| 0 <= i < t.children.len() ==> comp_ok(#[trigger] t.children[i].0)
    &&& forall|i: int|
        0 <= i < t.children.len() ==> obj_wf(#[trigger] t.children[i].1, t.path, t.children[i].0)
}

/// The first position of a key among children, or their number if absent.
pub open spec fn find_idx(cs: Seq<(Seq<u8>, ObjV)>, key: Seq<u8>) -> int
    decreases cs.len(),
{
    if cs.len() == 0 {
        0
    } else if cs[0].0 == key {
        0
    } else {
        1 + find_idx(cs.drop_first(), key)
    }
}

pub proof fn lemma_find_idx(cs: Seq<(Seq<u8>, ObjV)>, key: Seq<u8>)
    ensures
        0 <= find_idx(cs, key) <= cs.len(),
        find_idx(cs, key) < cs.len() ==> cs[find_idx(cs, key)].0 == key,
        forall|i: int| 0 <= i < find_idx(cs, key) ==> cs[i].0 != key,
    decreases cs.len(),
{
    if cs.len() > 0 && cs[0].0 != key {
        lemma_find_idx(cs.drop_first(), key);
        assert forall|i: int| 0 <= i < find_idx(cs, key) implies cs[i].0 != key by {
            if i >= 1 {
                assert(cs.drop_first()[i - 1] == cs[i]);
            }
        }
        if find_idx(cs, key) < cs.len() {
            assert(cs.drop_first()[find_idx(cs, key) - 1] == cs[find_idx(cs, key)]);
        }
    }
}

/// The place a fresh key takes among sorted children.
pub open spec fn ipos(cs: Seq<(Seq<u8>, ObjV)>, key: Seq<u8>) -> int
    decreases cs.len(),
{
    if cs.len() == 0 {
        0
    } else if !crate::scan::lex_lt(cs[0].0, key) {
        0
    } else {
        1 + ipos(cs.drop_first(), key)
    }
}

pub proof fn lemma_ipos(cs: Seq<(Seq<u8>, ObjV)>, key: Seq<u8>)
    ensures
        0 <= ipos(cs, key) <= cs.len(),
        forall|i: int| 0 <= i < ipos(cs, key) ==> crate::scan::lex_lt(#[trigger] cs[i].0, key),
        ipos(cs, key) < cs.len() ==> !crate::scan::lex_lt(cs[ipos(cs, key)].0, key),
    decreases cs.len(),
{
    if cs.len() > 0 && crate::scan::lex_lt(cs[0].0, key) {
        lemma_ipos(cs.drop_first(), key);
        assert forall|i: int| 0 <= i < ipos(cs, key) implies crate::scan::lex_lt(
            #[trigger] cs[i].0,
            key,
        ) by {
            if i >= 1 {
                assert(cs.drop_first()[i - 1] == cs[i]);
            }
        }
        if ipos(cs, key) < cs.len() {
            assert(cs.drop_first()[ipos(cs, key) - 1] == cs[ipos(cs, key)]);
        }
    }
}

/// What inserting one extended record into a tree yields: the new tree, and
/// the structural error if the record was routed into a leaf.
///
/// A record for this very node overwrites its payload.  A record for a
/// direct child updates the child in place, or creates it, as a directory
/// or a leaf by its mode.  A deeper record descends into the directory
/// child one component below, creating a placeholder if it is absent; a
/// leaf standing in the way is the error, and the tree is unchanged from
/// that level down.
pub open spec fn tree_insert(t: TreeV, e: NcduEntryV) -> (TreeV, Option<UsageError>)
    decreases crate::paths::path_comps(e.path).len() - t.path.len(),
{
    let pc = crate::paths::path_comps(e.path);
    let d = data_of(e);
    if pc == t.path {
        (TreeV { path: t.path, data: d, children: t.children }, None)
    } else if pc.len() <= t.path.len() {
        (t, None)
    } else {
        let comp = pc[t.path.len() as int];
        let i = find_idx(t.children, comp);
        if pc.len() == t.path.len() + 1 {
            if i < t.children.len() {
                let obj2 = match t.children[i].1 {
                    ObjV::Dir(sub) => ObjV::Dir(
                        TreeV { path: sub.path, data: d, children: sub.children },
                    ),
                    ObjV::Node(_) => ObjV::Node(d),
                };
                (
                    TreeV {
                        path: t.path,
                        data: t.data,
                        children: t.children.update(i, (comp, obj2)),
                    },
                    None,
                )
            } else {
                let obj = if is_dir_mode(e.mode) {
                    ObjV::Dir(TreeV { path: pc, data: d, children: Seq::empty() })
                } else {
                    ObjV::Node(d)
                };
                (
                    TreeV {
                        path: t.path,
                        data: t.data,
                        children: t.children.insert(ipos(t.children, comp), (comp, obj)),
                    },
                    None,
                )
            }
        } else {
            if i < t.children.len() {
                match t.children[i].1 {
                    ObjV::Dir(sub) => {
                        if sub.path.len() == t.path.len() + 1 {
                            let sub2 = tree_insert(sub, e);
                            (
                                TreeV {
                                    path: t.path,
                                    data: t.data,
                                    children: t.children.update(i, (comp, ObjV::Dir(sub2.0))),
                                },
                                sub2.1,
                            )
                        } else {
                            (t, None)
                        }
                    },
                    ObjV::Node(_) => (t, Some(UsageError::InsertIntoLeaf)),
                }
            } else {
                let holder = TreeV { path: t.path.push(comp), data: data_zero(), children: Seq::empty() };
                let sub2 = tree_insert(holder, e);
                (
                    TreeV {
                        path: t.path,
                        data: t.data,
                        children: t.children.insert(ipos(t.children, comp), (comp, ObjV::Dir(sub2.0))),
                    },
                    sub2.1,
                )
            }
        }
    }
}

/// Inserting preserves well-formedness and never moves the node's path.
#[verifier::rlimit(100)]
#[verifier::spinoff_prover]
pub proof fn lemma_tree_insert_wf(t: TreeV, e: NcduEntryV)
    requires
        tree_wf(t),
        t.path.is_prefix_of(crate::paths::path_comps(e.path)),
    ensures
        tree_insert(t, e).0.path == t.path,
        tree_wf(tree_insert(t, e).0),
    decreases crate::paths::path_comps(e.path).len() - t.path.len(),
{
    let pc = crate::paths::path_comps(e.path);
    let d = data_of(e);
    crate::paths::lemma_path_comps_ok(e.path);
    if pc == t.path || pc.len() <= t.path.len() {
        // the payload alone changes; well-formedness does not mention it
        let t2 = tree_insert(t, e).0;
        assert(t2.children == t.children);
        assert(t2.path == t.path);
    } else {
        let comp = pc[t.path.len() as int];
        assert(comp_ok(comp));
        let i = find_idx(t.children, comp);
        lemma_find_idx(t.children, comp);
        let t2 = tree_insert(t, e).0;
        if pc.len() == t.path.len() + 1 {
            assert(pc =~= t.path.push(comp)) by {
                assert(pc.take(t.path.len() as int) == t.path);
            }
            if i < t.children.len() {
                let obj2 = match t.children[i].1 {
                    ObjV::Dir(sub) => ObjV::Dir(
                        TreeV { path: sub.path, data: d, children: sub.children },
                    ),
                    ObjV::Node(_) => ObjV::Node(d),
                };
                assert(t2.children == t.children.update(i, (comp, obj2)));
                assert(forall|q: int|
                    0 <= q < t2.children.len() ==> #[trigger] t2.children[q].0 == t.children[q].0);
                assert(obj_wf(obj2, t.path, comp)) by {
                    if t.children[i].1 is Dir {
                        let sub = t.children[i].1->Dir_0;
                        assert(obj_wf(t.children[i].1, t.path, t.children[i].0));
                        let sub2 = TreeV { path: sub.path, data: d, children: sub.children };
                        assert(tree_wf(sub2)) by {
                            assert(tree_wf(sub));
                            assert(sub2.children == sub.children && sub2.path == sub.path);
                        }
                    }
                }
                assert forall|q: int| 0 <= q < t2.children.len() implies obj_wf(
                    #[trigger] t2.children[q].1,
                    t2.path,
                    t2.children[q].0,
                ) by {
                    if q != i {
                        assert(t2.children[q] == t.children[q]);
                        assert(obj_wf(t.children[q].1, t.path, t.children[q].0));
                    }
                }
            } else {
                let obj = if is_dir_mode(e.mode) {
                    ObjV::Dir(TreeV { path: pc, data: d, children: Seq::empty() })
                } else {
                    ObjV::Node(d)
                };
                let p = ipos(t.children, comp);
                lemma_ipos(t.children, comp);
                assert(t2.children == t.children.insert(p, (comp, obj)));
                assert(obj_wf(obj, t.path, comp)) by {
                    if is_dir_mode(e.mode) {
                        let sub = TreeV { path: pc, data: d, children: Seq::empty() };
                        assert(tree_wf(sub)) by {
                            assert(forall|q: int|
                                0 <= q < pc.len() ==> comp_ok(#[trigger] pc[q]));
                        }
                    }
                }
                // the fresh key is absent, so order around the slot is strict
                assert forall|q: int| p <= q < t.children.len() implies crate::scan::lex_lt(
                    comp,
                    #[trigger] t.children[q].0,
                ) by {
                    assert(t.children[p].0 != comp);
                    crate::scan::lemma_lex_trichotomy(t.children[p].0, comp);
                    assert(crate::scan::lex_lt(comp, t.children[p].0));
                    if q > p {
                        crate::scan::lemma_lex_trans(comp, t.children[p].0, t.children[q].0);
                    }
                }
                assert forall|q1: int, q2: int|
                    0 <= q1 < q2 < t2.children.len() implies crate::scan::lex_lt(
                    t2.children[q1].0,
                    t2.children[q2].0,
                ) by {
                    if q2 < p {
                    } else if q1 < p && q2 == p {
                        assert(t2.children[q1] == t.children[q1]);
                    } else if q1 < p && q2 > p {
                        assert(t2.children[q2] == t.children[q2 - 1]);
                        crate::scan::lemma_lex_trans(
                            t.children[q1].0,
                            comp,
                            t.children[q2 - 1].0,
                        );
                    } else if q1 == p {
                        assert(t2.children[q2] == t.children[q2 - 1]);
                    } else {
                        assert(t2.children[q1] == t.children[q1 - 1]);
                        assert(t2.children[q2] == t.children[q2 - 1]);
                    }
                }
                assert forall|q: int| 0 <= q < t2.children.len() implies obj_wf(
                    #[trigger] t2.children[q].1,
                    t2.path,
                    t2.children[q].0,
                ) && comp_ok(t2.children[q].0) by {
                    if q < p {
                        assert(t2.children[q] == t.children[q]);
                        assert(obj_wf(t.children[q].1, t.path, t.children[q].0));
                    } else if q > p {
                        assert(t2.children[q] == t.children[q - 1]);
                        assert(obj_wf(t.children[q - 1].1, t.path, t.children[q - 1].0));
                    }
                }
            }
        } else {
            // descend one component below
            assert(pc.take(t.path.len() as int) == t.path);
            if i < t.children.len() {
                match t.children[i].1 {
                    ObjV::Dir(sub) => {
                        assert(obj_wf(t.children[i].1, t.path, comp));
                        assert(sub.path == t.path.push(comp));
                        assert(sub.path.is_prefix_of(pc)) by {
                            assert(pc.take(t.path.len() as int + 1) =~= t.path.push(comp)) by {
                                assert(forall|q: int|
                                    0 <= q < t.path.len() ==> pc.take(t.path.len() as int + 1)[q]
                                        == #[trigger] t.path[q]);
                            }
                        }
                        lemma_tree_insert_wf(sub, e);
                        let sub2 = tree_insert(sub, e).0;
                        assert(t2.children == t.children.update(i, (comp, ObjV::Dir(sub2))));
                        assert(forall|q: int|
                            0 <= q < t2.children.len() ==> #[trigger] t2.children[q].0
                                == t.children[q].0);
                        assert forall|q: int| 0 <= q < t2.children.len() implies obj_wf(
                            #[trigger] t2.children[q].1,
                            t2.path,
                            t2.children[q].0,
                        ) by {
                            if q != i {
                                assert(t2.children[q] == t.children[q]);
                                assert(obj_wf(t.children[q].1, t.path, t.children[q].0));
                            }
                        }
                    },
                    ObjV::Node(_) => {},
                }
            } else {
                let holder = TreeV {
                    path: t.path.push(comp),
                    data: data_zero(),
                    children: Seq::empty(),
                };
                assert(tree_wf(holder)) by {
                    assert(forall|q: int|
                        0 <= q < holder.path.len() ==> comp_ok(#[trigger] holder.path[q]));
                }
                assert(holder.path.is_prefix_of(pc)) by {
                    assert(pc.take(t.path.len() as int + 1) =~= t.path.push(comp)) by {
                        assert(forall|q: int|
                            0 <= q < t.path.len() ==> pc.take(t.path.len() as int + 1)[q]
                                == #[trigger] t.path[q]);
                    }
                }
                lemma_tree_insert_wf(holder, e);
                let sub2 = tree_insert(holder, e).0;
                let p = ipos(t.children, comp);
                lemma_ipos(t.children, comp);
                assert(t2.children == t.children.insert(p, (comp, ObjV::Dir(sub2))));
                assert forall|q: int| p <= q < t.children.len() implies crate::scan::lex_lt(
                    comp,
                    #[trigger] t.children[q].0,
                ) by {
                    assert(t.children[p].0 != comp);
                    crate::scan::lemma_lex_trichotomy(t.children[p].0, comp);
                    assert(crate::scan::lex_lt(comp, t.children[p].0));
                    if q > p {
                        crate::scan::lemma_lex_trans(comp, t.children[p].0, t.children[q].0);
                    }
                }
                assert forall|q1: int, q2: int|
                    0 <= q1 < q2 < t2.children.len() implies crate::scan::lex_lt(
                    t2.children[q1].0,
                    t2.children[q2].0,
                ) by {
                    if q2 < p {
                    } else if q1 < p && q2 == p {
                        assert(t2.children[q1] == t.children[q1]);
                    } else if q1 < p && q2 > p {
                        assert(t2.children[q2] == t.children[q2 - 1]);
                        crate::scan::lemma_lex_trans(
                            t.children[q1].0,
                            comp,
                            t.children[q2 - 1].0,
                        );
                    } else if q1 == p {
                        assert(t2.children[q2] == t.children[q2 - 1]);
                    } else {
                        assert(t2.children[q1] == t.children[q1 - 1]);
                        assert(t2.children[q2] == t.children[q2 - 1]);
                    }
                }
                assert forall|q: int| 0 <= q < t2.children.len() implies obj_wf(
                    #[trigger] t2.children[q].1,
                    t2.path,
                    t2.children[q].0,
                ) && comp_ok(t2.children[q].0) by {
                    if q < p {
                        assert(t2.children[q] == t.children[q]);
                        assert(obj_wf(t.children[q].1, t.path, t.children[q].0));
                    } else if q > p {
                        assert(t2.children[q] == t.children[q - 1]);
                        assert(obj_wf(t.children[q - 1].1, t.path, t.children[q - 1].0));
                    }
                }
            }
        }
    }
}

pub proof fn lemma_kids_v_update(s: Seq<(Vec<u8>, FSObj)>, i: int, p: (Vec<u8>, FSObj))
    requires
        0 <= i < s.len(),
    ensures
        kids_v(s.update(i, p), s.len() as int) == kids_v(s, s.len() as int).update(
            i,
            (p.0@, p.1.ov()),
        ),
{
    lemma_kids_v_index(s.update(i, p), s.len() as int);
    lemma_kids_v_index(s, s.len() as int);
    assert(kids_v(s.update(i, p), s.len() as int) =~= kids_v(s, s.len() as int).update(
        i,
        (p.0@, p.1.ov()),
    ));
}

pub proof fn lemma_kids_v_insert(s: Seq<(Vec<u8>, FSObj)>, i: int, p: (Vec<u8>, FSObj))
    requires
        0 <= i <= s.len(),
    ensures
        kids_v(s.insert(i, p), s.len() as int + 1) == kids_v(s, s.len() as int).insert(
            i,
            (p.0@, p.1.ov()),
        ),
{
    lemma_kids_v_index(s.insert(i, p), s.len() as int + 1);
    lemma_kids_v_index(s, s.len() as int);
    assert(kids_v(s.insert(i, p), s.len() as int + 1) =~= kids_v(s, s.len() as int).insert(
        i,
        (p.0@, p.1.ov()),
    ));
}

/// Finds the child slot of a key, if any; the position agrees with the
/// view-level search.
fn find_child(cs: &Vec<(Vec<u8>, FSObj)>, key: &Vec<u8>) -> (r: Option<usize>)
    ensures
        ({
            let kv = kids_v(cs@, cs@.len() as int);
            match r {
                Some(i) => 0 <= i < cs@.len() && find_idx(kv, key@) == i && cs@[i as int].0@
                    == key@,
                None => find_idx(kv, key@) == cs@.len(),
            }
        }),
{
    let ghost kv = kids_v(cs@, cs@.len() as int);
    proof {
        lemma_kids_v_index(cs@, cs@.len() as int);
        lemma_find_idx(kv, key@);
    }
    let mut i: usize = 0;
    while i < cs.len()
        invariant
            0 <= i <= cs@.len(),
            kv == kids_v(cs@, cs@.len() as int),
            kv.len() == cs@.len(),
            forall|q: int| 0 <= q < kv.len() ==> #[trigger] kv[q] == (cs@[q].0@, cs@[q].1.ov()),
            forall|q: int| 0 <= q < i ==> #[trigger] cs@[q].0@ != key@,
        decreases cs@.len() - i,
    {
        if crate::scan::bytes_eq(cs[i].0.as_slice(), key.as_slice()) {
            proof {
                lemma_find_idx(kv, key@);
                if find_idx(kv, key@) < i {
                    assert(kv[find_idx(kv, key@)].0 == key@);
                }
                if find_idx(kv, key@) > i {
                    assert(kv[i as int].0 != key@);
                }
            }
            return Some(i);
        }
        i = i + 1;
    }
    proof {
        lemma_find_idx(kv, key@);
        if find_idx(kv, key@) < cs@.len() {
            assert(kv[find_idx(kv, key@)].0 == key@);
        }
    }
    None
}

/// The place a fresh key takes among the sorted children; agrees with the
/// view-level position.
fn find_child_pos(cs: &Vec<(Vec<u8>, FSObj)>, key: &Vec<u8>) -> (p: usize)
    ensures
        ({
            let kv = kids_v(cs@, cs@.len() as int);
            0 <= p <= cs@.len() && ipos(kv, key@) == p
        }),
{
    let ghost kv = kids_v(cs@, cs@.len() as int);
    proof {
        lemma_kids_v_index(cs@, cs@.len() as int);
        lemma_ipos(kv, key@);
    }
    let mut p: usize = 0;
    while p < cs.len()
        invariant
            0 <= p <= cs@.len(),
            kv == kids_v(cs@, cs@.len() as int),
            kv.len() == cs@.len(),
            forall|q: int| 0 <= q < kv.len() ==> #[trigger] kv[q] == (cs@[q].0@, cs@[q].1.ov()),
            forall|q: int| 0 <= q < p ==> crate::scan::lex_lt(#[trigger] kv[q].0, key@),
        decreases cs@.len() - p,
    {
        let c = crate::scan::lex_cmp(cs[p].0.as_slice(), key.as_slice());
        if c >= 0 {
            proof {
                lemma_ipos(kv, key@);
                if ipos(kv, key@) < p {
                    assert(!crate::scan::lex_lt(kv[ipos(kv, key@)].0, key@));
                }
                if ipos(kv, key@) > p {
                    assert(crate::scan::lex_lt(kv[p as int].0, key@));
                }
            }
            return p;
        }
        p = p + 1;
    }
    proof {
        lemma_ipos(kv, key@);
        if ipos(kv, key@) < cs@.len() {
            assert(!crate::scan::lex_lt(kv[ipos(kv, key@)].0, key@));
        }
    }
    p
}

/// Clones a component list.
fn clone_comps(v: &Vec<Vec<u8>>) -> (r: Vec<Vec<u8>>)
    ensures
        r.deep_view() == v.deep_view(),
{
    let mut r: Vec<Vec<u8>> = Vec::new();
    let mut i: usize = 0;
    while i < v.len()
        invariant
            0 <= i <= v@.len(),
            r.deep_view() =~~= v.deep_view().take(i as int),
        decreases v@.len() - i,
    {
        r.push(vstd::slice::slice_to_vec(v[i].as_slice()));
        proof {
            assert(r.deep_view() =~~= v.deep_view().take(i as int).push(v.deep_view()[i as int]));
            assert(r.deep_view() =~~= v.deep_view().take(i as int + 1));
        }
        i = i + 1;
    }
    proof {
        assert(v.deep_view().take(v@.len() as int) =~~= v.deep_view());
    }
    r
}

impl FSTree {
    /// Inserts one extended record into the tree rooted here.
    ///
    /// Records arrive in arbitrary order: a record for a node that does not
    /// exist yet creates placeholder directories down to it, and a
    /// placeholder's own record later overwrites its payload in place.  A
    /// record routed into a leaf is the structural error, and leaves the
    /// tree unchanged from that level down.
    #[verifier::rlimit(100)]
    #[verifier::spinoff_prover]
    pub fn insert(&mut self, e: &NcduEntry) -> (r: Result<(), UsageError>)
        requires
            tree_wf(old(self).tv()),
            old(self).path.deep_view().is_prefix_of(crate::paths::path_comps(e@.path)),
        ensures
            tree_wf(final(self).tv()),
            final(self).tv() == tree_insert(old(self).tv(), e@).0,
            (match r {
                Ok(_) => tree_insert(old(self).tv(), e@).1 is None,
                Err(er) => tree_insert(old(self).tv(), e@).1 == Some(er),
            }),
        decreases crate::paths::path_comps(e@.path).len() - old(self).path@.len(),
    {
        let ghost t0 = old(self).tv();
        let ghost pcs = crate::paths::path_comps(e@.path);
        proof {
            lemma_tree_insert_wf(t0, e@);
        }
        let pc = crate::paths::comps_of(e.path.as_slice());
        proof {
            assert(pc.deep_view() == pcs);
            assert(pc@.len() == pcs.len());
        }
        let d = Data::from_entry(e);
        let mylen = self.path.len();
        if pc.len() == mylen {
            proof {
                assert(pcs =~~= t0.path);
            }
            self.data = d;
            proof {
                assert(self.tv() == tree_insert(t0, e@).0);
            }
            return Ok(());
        }
        proof {
            assert(pcs.len() > t0.path.len());
            assert(pcs != t0.path);
        }
        let comp = vstd::slice::slice_to_vec(pc[mylen].as_slice());
        let ghost gcomp = comp@;
        proof {
            assert(gcomp == pcs[t0.path.len() as int]);
        }
        let ghost kv0 = t0.children;
        proof {
            assert(kv0 == kids_v(self.children@, self.children@.len() as int));
        }
        let direct = pc.len() == mylen + 1;
        match find_child(&self.children, &comp) {
            Some(i) => {
                let ghost cs0 = self.children@;
                let (key, obj) = self.children.remove(i);
                proof {
                    lemma_kids_v_index(cs0, cs0.len() as int);
                    assert(kv0[i as int] == (cs0[i as int].0@, cs0[i as int].1.ov()));
                    assert(key@ == gcomp);
                }
                if direct {
                    let obj2 = match obj {
                        FSObj::Dir(mut sub) => {
                            let ghost subv0 = sub.tv();
                            sub.data = d;
                            proof {
                                assert(sub.tv() == (TreeV {
                                    path: subv0.path,
                                    data: d,
                                    children: subv0.children,
                                }));
                            }
                            FSObj::Dir(sub)
                        },
                        FSObj::Node(_) => FSObj::Node(d),
                    };
                    proof {
                        assert(obj.ov() == kv0[i as int].1);
                    }
                    self.children.insert(i, (key, obj2));
                    proof {
                        assert(self.children@ =~= cs0.update(i as int, self.children@[i as int]));
                        lemma_kids_v_update(cs0, i as int, self.children@[i as int]);
                        let spec2 = match kv0[i as int].1 {
                            ObjV::Dir(sub) => ObjV::Dir(
                                TreeV { path: sub.path, data: data_of(e@), children: sub.children },
                            ),
                            ObjV::Node(_) => ObjV::Node(data_of(e@)),
                        };
                        assert(self.children@[i as int].1.ov() == spec2);
                        assert(self.tv().children =~= tree_insert(t0, e@).0.children);
                        assert(self.tv() == tree_insert(t0, e@).0);
                    }
                    return Ok(());
                }
                match obj {
                    FSObj::Dir(mut sub) => {
                        proof {
                            lemma_kids_v_index(cs0, cs0.len() as int);
                            assert(kv0[i as int] == (cs0[i as int].0@, cs0[i as int].1.ov()));
                            assert(obj_wf(kv0[i as int].1, t0.path, kv0[i as int].0));
                            assert(sub.tv().path == t0.path.push(gcomp));
                            assert(sub.path@.len() == old(self).path@.len() + 1);
                            assert(sub.tv().path.is_prefix_of(pcs)) by {
                                assert(pcs.take(t0.path.len() as int + 1) =~= t0.path.push(
                                    gcomp,
                                )) by {
                                    assert(pcs.take(t0.path.len() as int) == t0.path);
                                    assert(forall|q: int|
                                        0 <= q < t0.path.len() ==> pcs.take(
                                            t0.path.len() as int + 1,
                                        )[q] == #[trigger] t0.path[q]);
                                }
                            }
                        }
                        let r = sub.insert(e);
                        let ghost pair = (key@, FSObj::Dir(sub).ov());
                        self.children.insert(i, (key, FSObj::Dir(sub)));
                        proof {
                            assert(self.children@ =~= cs0.update(
                                i as int,
                                self.children@[i as int],
                            ));
                            lemma_kids_v_update(cs0, i as int, self.children@[i as int]);
                            assert(self.tv().children =~= tree_insert(t0, e@).0.children);
                            assert(self.tv() == tree_insert(t0, e@).0);
                        }
                        return r;
                    },
                    FSObj::Node(nd) => {
                        self.children.insert(i, (key, FSObj::Node(nd)));
                        proof {
                            assert(self.children@ =~= cs0.update(
                                i as int,
                                self.children@[i as int],
                            ));
                            lemma_kids_v_update(cs0, i as int, self.children@[i as int]);
                            lemma_kids_v_index(cs0, cs0.len() as int);
                            assert(self.tv().children =~= t0.children);
                            assert(self.tv() == tree_insert(t0, e@).0);
                        }
                        return Err(UsageError::InsertIntoLeaf);
                    },
                }
            },
            None => {
                let p = find_child_pos(&self.children, &comp);
                let ghost cs0 = self.children@;
                if direct {
                    let obj = if e.dir_mode() {
                        let mut newpath = clone_comps(&self.path);
                        newpath.push(vstd::slice::slice_to_vec(comp.as_slice()));
                        proof {
                            assert(newpath.deep_view() =~~= t0.path.push(gcomp));
                            assert(newpath.deep_view() =~~= pcs);
                        }
                        FSObj::Dir(FSTree { path: newpath, data: d, children: Vec::new() })
                    } else {
                        FSObj::Node(d)
                    };
                    self.children.insert(p, (comp, obj));
                    proof {
                        assert(self.children@ =~= cs0.insert(p as int, self.children@[p as int]));
                        lemma_kids_v_insert(cs0, p as int, self.children@[p as int]);
                        let specobj = if is_dir_mode(e@.mode) {
                            ObjV::Dir(TreeV { path: pcs, data: data_of(e@), children: Seq::empty() })
                        } else {
                            ObjV::Node(data_of(e@))
                        };
                        assert(self.children@[p as int].1.ov() == specobj) by {
                            if is_dir_mode(e@.mode) {
                                assert(self.children@[p as int].1->Dir_0.children@.len() == 0);
                                assert(kids_v(self.children@[p as int].1->Dir_0.children@, 0)
                                    =~= Seq::<(Seq<u8>, ObjV)>::empty());
                            }
                        }
                        assert(self.children@[p as int].0@ == gcomp);
                        let lhs = self.tv().children;
                        let rhs = tree_insert(t0, e@).0.children;
                        lemma_kids_v_index(cs0, cs0.len() as int);
                        assert(find_idx(t0.children, gcomp) == t0.children.len());
                        assert(rhs == t0.children.insert(
                            ipos(t0.children, gcomp),
                            (gcomp, specobj),
                        ));
                        assert(rhs.len() == kv0.len() + 1);
                        assert(self.children@.len() == cs0.len() + 1);
                        assert(lhs == kids_v(self.children@, cs0.len() as int + 1));
                        assert(lhs == kv0.insert(p as int, (self.children@[p as int].0@,
                            self.children@[p as int].1.ov())));
                        assert(lhs.len() == rhs.len());
                        assert forall|q: int| 0 <= q < lhs.len() implies lhs[q] == rhs[q] by {
                            if q < p {
                                assert(lhs[q] == kv0[q] && rhs[q] == kv0[q]);
                            } else if q > p {
                                assert(lhs[q] == kv0[q - 1] && rhs[q] == kv0[q - 1]);
                            }
                        }
                        assert(lhs =~= rhs);
                        assert(self.tv() == tree_insert(t0, e@).0);
                    }
                    return Ok(());
                }
                let mut newpath = clone_comps(&self.path);
                newpath.push(vstd::slice::slice_to_vec(comp.as_slice()));
                let mut sub = FSTree {
                    path: newpath,
                    data: Data { file_size: 0, kb_allocated: 0, nlink: 0, inode: 0 },
                    children: Vec::new(),
                };
                proof {
                    assert(sub.tv().path =~~= t0.path.push(gcomp));
                    assert(sub.tv().children =~= Seq::<(Seq<u8>, ObjV)>::empty());
                    assert(tree_wf(sub.tv())) by {
                        crate::paths::lemma_path_comps_ok(e@.path);
                        assert(forall|q: int|
                            0 <= q < sub.tv().path.len() ==> comp_ok(#[trigger] sub.tv().path[q]));
                    }
                    assert(sub.tv().path.is_prefix_of(pcs)) by {
                        assert(pcs.take(t0.path.len() as int + 1) =~= t0.path.push(gcomp)) by {
                            assert(pcs.take(t0.path.len() as int) == t0.path);
                            assert(forall|q: int|
                                0 <= q < t0.path.len() ==> pcs.take(t0.path.len() as int + 1)[q]
                                    == #[trigger] t0.path[q]);
                        }
                    }
                    assert(sub.tv() == (TreeV {
                        path: t0.path.push(gcomp),
                        data: data_zero(),
                        children: Seq::empty(),
                    }));
                }
                let ghost holder = TreeV {
                    path: t0.path.push(gcomp),
                    data: data_zero(),
                    children: Seq::empty(),
                };
                let r = sub.insert(e);
                proof {
                    assert(sub.tv() == tree_insert(holder, e@).0);
                }
                self.children.insert(p, (comp, FSObj::Dir(sub)));
                proof {
                    lemma_kids_v_index(cs0, cs0.len() as int);
                    assert(self.children@ =~= cs0.insert(p as int, self.children@[p as int]));
                    lemma_kids_v_insert(cs0, p as int, self.children@[p as int]);
                    assert(self.children@[p as int].1.ov() == ObjV::Dir(tree_insert(holder, e@).0));
                    assert(self.children@[p as int].0@ == gcomp);
                    let lhs = self.tv().children;
                    let rhs = tree_insert(t0, e@).0.children;
                    assert(lhs.len() == rhs.len());
                    assert forall|q: int| 0 <= q < lhs.len() implies lhs[q] == rhs[q] by {
                        if q < p {
                            assert(lhs[q] == kv0[q] && rhs[q] == kv0[q]);
                        } else if q > p {
                            assert(lhs[q] == kv0[q - 1] && rhs[q] == kv0[q - 1]);
                        }
                    }
                    assert(lhs =~= rhs);
                    assert(self.tv() == tree_insert(t0, e@).0);
                }
                return r;
            },
        }
    }
}

/// The byte accounting a node contributes under a mode.
pub open spec fn node_value(d: Data, mode: ByteMode) -> u64 {
    match mode {
        ByteMode::FileSize => d.file_size,
        ByteMode::KBAllocated => d.kb_allocated,
    }
}

/// The record a node stands for when a built tree is reduced: the node's
/// canonical path, its chosen byte accounting, and its link identity.
pub open spec fn entry_of(cs: Seq<Seq<u8>>, d: Data, mode: ByteMode) -> EntryV {
    EntryV {
        inode: d.inode,
        generation: 0,
        snapshot: 0,
        bytes: node_value(d, mode),
        nlink: d.nlink,
        path: crate::paths::render_comps(cs),
    }
}

/// The records of a whole subtree, in traversal order: the node itself
/// first, then each child in ascending key order, subtrees in full.
pub open spec fn tree_entries(t: TreeV, mode: ByteMode) -> Seq<EntryV>
    decreases t, 0int,
{
    seq![entry_of(t.path, t.data, mode)] + entries_kids(
        t.children,
        t.path,
        mode,
        t.children.len() as int,
    )
}

/// The records of the first `n` children.
pub open spec fn entries_kids(
    cs: Seq<(Seq<u8>, ObjV)>,
    par: Seq<Seq<u8>>,
    mode: ByteMode,
    n: int,
) -> Seq<EntryV>
    decreases cs, n,
{
    if n <= 0 || cs.len() < n {
        Seq::empty()
    } else {
        entries_kids(cs, par, mode, n - 1) + obj_entries(cs[n - 1].1, par.push(cs[n - 1].0), mode)
    }
}

/// The records of one child.
pub open spec fn obj_entries(o: ObjV, path: Seq<Seq<u8>>, mode: ByteMode) -> Seq<EntryV>
    decreases o, 0int,
{
    match o {
        ObjV::Dir(sub) => tree_entries(sub, mode),
        ObjV::Node(d) => seq![entry_of(path, d, mode)],
    }
}

/// A collected traversal row: the node's path as components, and the
/// scalars its record carries.
struct Rec {
    comps: Vec<Vec<u8>>,
    value: u64,
    nlink: u32,
    inode: u64,
}

/// Whether a collected row carries a record: the same path, down to its
/// components, and the same scalars.
spec fn rec_matches(r: Rec, e: EntryV) -> bool {
    &&& r.comps.deep_view() == crate::paths::path_comps(e.path)
    &&& r.value == e.bytes
    &&& r.nlink == e.nlink
    &&& r.inode == e.inode
}

/// Whether collected rows carry a record sequence, one for one.
spec fn recs_match(rs: Seq<Rec>, es: Seq<EntryV>) -> bool {
    rs.len() == es.len() && forall|k: int| 0 <= k < rs.len() ==> rec_matches(#[trigger] rs[k], es[k])
}

impl FSTree {
    /// Walks the tree in traversal order, collecting each node's record.
    #[verifier::rlimit(100)]
    #[verifier::spinoff_prover]
    fn collect(&self, byte_mode: ByteMode) -> (out: Vec<Rec>)
        requires
            tree_wf(self.tv()),
        ensures
            recs_match(out@, tree_entries(self.tv(), byte_mode)),
        decreases *self, 1int,
    {
        let ghost t = self.tv();
        let ghost es = tree_entries(t, byte_mode);
        let mut out: Vec<Rec> = Vec::new();
        let value = match byte_mode {
            ByteMode::FileSize => self.data.file_size,
            ByteMode::KBAllocated => self.data.kb_allocated,
        };
        let comps = clone_comps(&self.path);
        out.push(Rec { comps, value, nlink: self.data.nlink, inode: self.data.inode });
        proof {
            crate::paths::lemma_render_round_trip(t.path);
            assert(rec_matches(out@[0], entry_of(t.path, t.data, byte_mode)));
            assert(entries_kids(t.children, t.path, byte_mode, 0) =~= Seq::<EntryV>::empty());
            assert(recs_match(
                out@,
                seq![entry_of(t.path, t.data, byte_mode)] + entries_kids(
                    t.children,
                    t.path,
                    byte_mode,
                    0,
                ),
            ));
            lemma_kids_v_index(self.children@, self.children@.len() as int);
        }
        let mut k: usize = 0;
        while k < self.children.len()
            invariant
                0 <= k <= self.children@.len(),
                t == self.tv(),
                tree_wf(t),
                t.children.len() == self.children@.len(),
                forall|q: int|
                    0 <= q < t.children.len() ==> #[trigger] t.children[q] == (
                        self.children@[q].0@,
                        self.children@[q].1.ov(),
                    ),
                recs_match(
                    out@,
                    seq![entry_of(t.path, t.data, byte_mode)] + entries_kids(
                        t.children,
                        t.path,
                        byte_mode,
                        k as int,
                    ),
                ),
            decreases self.children@.len() - k,
        {
            let ghost prefix = seq![entry_of(t.path, t.data, byte_mode)] + entries_kids(
                t.children,
                t.path,
                byte_mode,
                k as int,
            );
            let ghost out0 = out@;
            proof {
                assert(entries_kids(t.children, t.path, byte_mode, k as int + 1) == entries_kids(
                    t.children,
                    t.path,
                    byte_mode,
                    k as int,
                ) + obj_entries(
                    t.children[k as int].1,
                    t.path.push(t.children[k as int].0),
                    byte_mode,
                ));
                assert(obj_wf(t.children[k as int].1, t.path, t.children[k as int].0));
            }
            match &self.children[k].1 {
                FSObj::Dir(sub) => {
                    proof {
                        assert(self.children@[k as int].1.ov() == ObjV::Dir(sub.tv()));
                        assert(tree_wf(sub.tv()));
                    }
                    let mut rs = sub.collect(byte_mode);
                    let ghost rsv = rs@;
                    out.append(&mut rs);
                    proof {
                        assert(out@ == out0 + rsv);
                        assert(obj_entries(
                            t.children[k as int].1,
                            t.path.push(t.children[k as int].0),
                            byte_mode,
                        ) == tree_entries(sub.tv(), byte_mode));
                        assert forall|q: int| 0 <= q < out@.len() implies rec_matches(
                            #[trigger] out@[q],
                            (prefix + tree_entries(sub.tv(), byte_mode))[q],
                        ) by {
                            if q < out0.len() {
                                assert(out@[q] == out0[q]);
                            } else {
                                assert(out@[q] == rsv[q - out0.len()]);
                            }
                        }
                    }
                },
                FSObj::Node(d) => {
                    let mut comps = clone_comps(&self.path);
                    comps.push(vstd::slice::slice_to_vec(self.children[k].0.as_slice()));
                    let value = match byte_mode {
                        ByteMode::FileSize => d.file_size,
                        ByteMode::KBAllocated => d.kb_allocated,
                    };
                    let nd = *d;
                    out.push(Rec { comps, value, nlink: nd.nlink, inode: nd.inode });
                    proof {
                        let leafpath = t.path.push(t.children[k as int].0);
                        assert(out@[out@.len() - 1].comps.deep_view() =~~= leafpath);
                        assert(forall|q: int|
                            0 <= q < leafpath.len() ==> comp_ok(#[trigger] leafpath[q]));
                        crate::paths::lemma_render_round_trip(leafpath);
                        assert(self.children@[k as int].1.ov() == ObjV::Node(nd));
                        assert(t.children[k as int].1 == ObjV::Node(nd));
                        assert(rec_matches(
                            out@[out@.len() - 1],
                            entry_of(leafpath, nd, byte_mode),
                        ));
                        assert forall|q: int| 0 <= q < out@.len() implies rec_matches(
                            #[trigger] out@[q],
                            (prefix + obj_entries(t.children[k as int].1, leafpath, byte_mode))[q],
                        ) by {
                            if q < out0.len() {
                                assert(out@[q] == out0[q]);
                            }
                        }
                    }
                },
            }
            k = k + 1;
        }
        proof {
            assert(entries_kids(t.children, t.path, byte_mode, t.children.len() as int)
                == entries_kids(t.children, t.path, byte_mode, self.children@.len() as int));
        }
        out
    }
}

impl FSTree {
    /// Reduces the tree to one whole-tree rollup.
    ///
    /// The counts are exactly the fold of the tree's records in traversal
    /// order: with `count_links` every node contributes its chosen size and
    /// one object; otherwise a node with more than one link contributes
    /// only at the first occurrence of its inode in the walk.
    #[verifier::rlimit(100)]
    #[verifier::spinoff_prover]
    pub fn to_total(&self, count_links: bool, byte_mode: ByteMode) -> (acc: Acc)
        requires
            tree_wf(self.tv()),
            sum_bytes(tree_entries(self.tv(), byte_mode)) <= u64::MAX,
        ensures
            acc.inodes == total_fold(tree_entries(self.tv(), byte_mode), count_links).inodes,
            acc.bytes == total_fold(tree_entries(self.tv(), byte_mode), count_links).bytes,
    {
        let recs = self.collect(byte_mode);
        let ghost es = tree_entries(self.tv(), byte_mode);
        let mut acc = Acc::zero();
        let mut seen: Vec<u64> = Vec::new();
        let mut k: usize = 0;
        proof {
            assert(es.take(0) =~= Seq::<EntryV>::empty());
        }
        while k < recs.len()
            invariant
                0 <= k <= recs@.len(),
                recs_match(recs@, es),
                es.len() == recs@.len(),
                sum_bytes(es) <= u64::MAX,
                acc.inodes == total_fold(es.take(k as int), count_links).inodes,
                acc.bytes == total_fold(es.take(k as int), count_links).bytes,
                total_fold(es.take(k as int), count_links).seen == seen@.to_set(),
            decreases recs@.len() - k,
        {
            let ghost stk = total_fold(es.take(k as int), count_links);
            proof {
                assert(es.take(k as int + 1).drop_last() =~= es.take(k as int));
                assert(es.take(k as int + 1).last() == es[k as int]);
                assert(rec_matches(recs@[k as int], es[k as int]));
                lemma_total_fold_bounds(es.take(k as int), count_links);
                lemma_sum_bytes_mono(es, k as int);
                lemma_sum_bytes_mono(es, k as int + 1);
                lemma_sum_bytes_nonneg(es.take(k as int));
                assert(es.take(k as int).len() == k as int);
            }
            let ghost seen0 = seen@;
            let r = &recs[k];
            if count_links || r.nlink == 1 {
                acc.add_assign(r.value);
            } else {
                let found = contains_u64(&seen, r.inode);
                if !found {
                    acc.add_assign(r.value);
                    seen.push(r.inode);
                }
            }
            k = k + 1;
            proof {
                let ev = es[k as int - 1];
                let st2 = total_fold(es.take(k as int), count_links);
                assert(st2 == total_step(stk, ev, count_links));
                if !count_links && ev.nlink != 1 && !stk.seen.contains(ev.inode) {
                    assert(seen@ == seen0.push(ev.inode));
                    seen0.lemma_push_to_set_commute(ev.inode);
                    assert(st2.seen =~= seen@.to_set());
                } else {
                    assert(st2.seen == stk.seen);
                    assert(seen@ == seen0);
                }
            }
        }
        proof {
            assert(es.take(es.len() as int) =~= es);
        }
        acc
    }

    /// Reduces the tree to depth-bounded per-prefix rollups, the hard-link
    /// scope one prefix, exactly as the flat accumulation over the tree's
    /// records in traversal order; prefixes that gathered a single object
    /// are dropped, and rows come in ascending prefix order.
    #[verifier::rlimit(100)]
    #[verifier::spinoff_prover]
    pub fn to_depth(&self, dir: &[u8], max_depth: usize, count_links: bool, byte_mode: ByteMode)
        -> (rows: Vec<(Vec<u8>, Acc)>)
        requires
            tree_wf(self.tv()),
            sum_bytes(tree_entries(self.tv(), byte_mode)) <= u64::MAX,
            under_root(
                tree_entries(self.tv(), byte_mode),
                crate::paths::path_comps(dir@).len() as int,
            ),
        ensures
            ({
                let m = depth_fold(
                    tree_entries(self.tv(), byte_mode),
                    crate::paths::path_comps(dir@).len() as int,
                    max_depth as int,
                    count_links,
                );
                &&& rows_sorted(rows@)
                &&& forall|q: int|
                    0 <= q < rows@.len() ==> m.dom().contains(#[trigger] rows@[q].0@)
                        && m[rows@[q].0@].inodes == rows@[q].1.inodes && m[rows@[q].0@].bytes
                        == rows@[q].1.bytes && rows@[q].1.inodes > 1
                &&& forall|key: Seq<u8>|
                    #[trigger] m.dom().contains(key) && m[key].inodes > 1 ==> exists|q: int|
                        0 <= q < rows@.len() && rows@[q].0@ == key
            }),
    {
        let recs = self.collect(byte_mode);
        let ghost es = tree_entries(self.tv(), byte_mode);
        let root_comps = crate::paths::comps_of(dir);
        let rootlen = root_comps.len();
        let ghost grootlen = crate::paths::path_comps(dir@).len() as int;
        proof {
            assert(grootlen == rootlen as int);
        }
        let mut sums: Vec<(Vec<u8>, DepthAcc)> = Vec::new();
        let mut k: usize = 0;
        proof {
            assert(es.take(0) =~= Seq::<EntryV>::empty());
        }
        while k < recs.len()
            invariant
                0 <= k <= recs@.len(),
                recs_match(recs@, es),
                es.len() == recs@.len(),
                grootlen == rootlen as int,
                sum_bytes(es) <= u64::MAX,
                under_root(es, grootlen),
                sums_match(
                    sums@,
                    depth_fold(es.take(k as int), grootlen, max_depth as int, count_links),
                ),
            decreases recs@.len() - k,
        {
            let ghost mbase = depth_fold(
                es.take(k as int),
                grootlen,
                max_depth as int,
                count_links,
            );
            let ghost ev = es[k as int];
            proof {
                assert(rec_matches(recs@[k as int], ev));
                assert(es.take(k as int + 1).drop_last() =~= es.take(k as int));
                assert(es.take(k as int + 1).last() == ev);
                assert(under_root(es.take(k as int), grootlen)) by {
                    assert(forall|i: int|
                        0 <= i < k as int ==> es.take(k as int)[i] == #[trigger] es[i]);
                }
                lemma_depth_fold_bounds(es.take(k as int), grootlen, max_depth as int, count_links);
                lemma_sum_bytes_mono(es, k as int);
                lemma_sum_bytes_mono(es, k as int + 1);
                lemma_sum_bytes_nonneg(es.take(k as int));
            }
            let r = &recs[k];
            let ghost bb = sum_bytes(es.take(k as int));
            let ghost kb = k as int;
            apply_levels(
                &mut sums,
                &r.comps,
                rootlen,
                max_depth,
                r.inode,
                r.value,
                r.nlink,
                count_links,
                Ghost(ev),
                Ghost(mbase),
                Ghost(bb),
                Ghost(kb),
            );
            k = k + 1;
            proof {
                assert(depth_fold(es.take(k as int), grootlen, max_depth as int, count_links)
                    == depth_apply_upto(
                    mbase,
                    ev,
                    grootlen,
                    count_links,
                    entry_levels(ev, grootlen, max_depth as int),
                ));
            }
        }
        proof {
            assert(es.take(es.len() as int) =~= es);
        }
        let ghost m = depth_fold(es, grootlen, max_depth as int, count_links);
        let rows = filter_rows(&sums, Ghost(m));
        rows
    }
}

/// The text `,\n[{"name":"` that opens a directory element.
pub open spec fn dir_open() -> Seq<u8> {
    seq![0x2c, 0x0a, 0x5b, 0x7b, 0x22, 0x6e, 0x61, 0x6d, 0x65, 0x22, 0x3a, 0x22]
}

/// The text `,\n{"name":"` that opens a leaf element.
pub open spec fn leaf_open() -> Seq<u8> {
    seq![0x2c, 0x0a, 0x7b, 0x22, 0x6e, 0x61, 0x6d, 0x65, 0x22, 0x3a, 0x22]
}

/// The text `[1,2,{"progname":"mmdu","progver":"` that opens a report.
pub open spec fn report_open() -> Seq<u8> {
    seq![
        0x5b, 0x31, 0x2c, 0x32, 0x2c, 0x7b, 0x22, 0x70, 0x72, 0x6f, 0x67, 0x6e, 0x61, 0x6d,
        0x65, 0x22, 0x3a, 0x22, 0x6d, 0x6d, 0x64, 0x75, 0x22, 0x2c, 0x22, 0x70, 0x72, 0x6f,
        0x67, 0x76, 0x65, 0x72, 0x22, 0x3a, 0x22,
    ]
}

/// A leaf element: its name, then its attribute fragment.
pub open spec fn render_leaf(name: Seq<u8>, d: Data) -> Seq<u8> {
    leaf_open() + name + seq![0x22] + render_data(d) + seq![0x7d]
}

/// A directory element: its name and attributes, then every child in
/// ascending key order, subtrees in full.
pub open spec fn render_tree(t: TreeV, root: bool) -> Seq<u8>
    decreases t, 1int,
{
    let name = if root {
        crate::paths::render_comps(t.path)
    } else if t.path.len() > 0 {
        t.path.last()
    } else {
        Seq::empty()
    };
    dir_open() + name + seq![0x22] + render_data(t.data) + seq![0x7d] + render_kids(
        t.children,
        t.children.len() as int,
    ) + seq![0x5d]
}

/// The rendered elements of the first `n` children.
pub open spec fn render_kids(cs: Seq<(Seq<u8>, ObjV)>, n: int) -> Seq<u8>
    decreases cs, n,
{
    if n <= 0 || cs.len() < n {
        Seq::empty()
    } else {
        render_kids(cs, n - 1) + (match cs[n - 1].1 {
            ObjV::Dir(sub) => render_tree(sub, false),
            ObjV::Node(d) => render_leaf(cs[n - 1].0, d),
        })
    }
}

/// A whole interchange report: the header with the given version text, the
/// tree, and the closing bracket on its own line.
pub open spec fn render_report(t: TreeV, progver: Seq<u8>) -> Seq<u8> {
    report_open() + progver + seq![0x22, 0x7d] + render_tree(t, true) + seq![0x5d, 0x0a]
}

fn push_name_open(out: &mut Vec<u8>, dir: bool)
    ensures
        dir ==> final(out)@ == old(out)@ + dir_open(),
        !dir ==> final(out)@ == old(out)@ + leaf_open(),
{
    out.push(0x2c);
    out.push(0x0a);
    if dir {
        out.push(0x5b);
    }
    out.push(0x7b);
    out.push(0x22);
    out.push(0x6e);
    out.push(0x61);
    out.push(0x6d);
    out.push(0x65);
    out.push(0x22);
    out.push(0x3a);
    out.push(0x22);
    proof {
        if dir {
            assert(out@ =~= old(out)@ + dir_open());
        } else {
            assert(out@ =~= old(out)@ + leaf_open());
        }
    }
}

impl FSTree {
    /// Renders this subtree as one interchange element.
    #[verifier::rlimit(100)]
    #[verifier::spinoff_prover]
    fn write_tree(&self, root: bool) -> (out: Vec<u8>)
        ensures
            out@ == render_tree(self.tv(), root),
        decreases *self, 1int,
    {
        let ghost t = self.tv();
        let mut out: Vec<u8> = Vec::new();
        push_name_open(&mut out, true);
        if root {
            let mut name = crate::paths::render_path(&self.path);
            out.append(&mut name);
        } else if self.path.len() > 0 {
            let mut name = vstd::slice::slice_to_vec(self.path[self.path.len() - 1].as_slice());
            out.append(&mut name);
            proof {
                assert(self.path@[self.path@.len() - 1]@ == t.path.last());
            }
        }
        out.push(0x22);
        let mut attrs = self.data.write();
        out.append(&mut attrs);
        out.push(0x7d);
        let ghost head = out@;
        proof {
            assert(head =~= dir_open() + (if root {
                crate::paths::render_comps(t.path)
            } else if t.path.len() > 0 {
                t.path.last()
            } else {
                Seq::<u8>::empty()
            }) + seq![0x22] + render_data(t.data) + seq![0x7d]);
            assert(render_kids(t.children, 0) =~= Seq::<u8>::empty());
            assert(out@ =~= head + render_kids(t.children, 0));
            lemma_kids_v_index(self.children@, self.children@.len() as int);
        }
        let mut k: usize = 0;
        while k < self.children.len()
            invariant
                0 <= k <= self.children@.len(),
                t == self.tv(),
                t.children.len() == self.children@.len(),
                forall|q: int|
                    0 <= q < t.children.len() ==> #[trigger] t.children[q] == (
                        self.children@[q].0@,
                        self.children@[q].1.ov(),
                    ),
                out@ == head + render_kids(t.children, k as int),
            decreases self.children@.len() - k,
        {
            let ghost out0 = out@;
            proof {
                assert(render_kids(t.children, k as int + 1) == render_kids(t.children, k as int)
                    + (match t.children[k as int].1 {
                    ObjV::Dir(sub) => render_tree(sub, false),
                    ObjV::Node(d) => render_leaf(t.children[k as int].0, d),
                }));
            }
            match &self.children[k].1 {
                FSObj::Dir(sub) => {
                    proof {
                        assert(self.children@[k as int].1.ov() == ObjV::Dir(sub.tv()));
                    }
                    let mut piece = sub.write_tree(false);
                    out.append(&mut piece);
                },
                FSObj::Node(d) => {
                    push_name_open(&mut out, false);
                    let mut name = vstd::slice::slice_to_vec(self.children[k].0.as_slice());
                    out.append(&mut name);
                    out.push(0x22);
                    let mut attrs = d.write();
                    out.append(&mut attrs);
                    out.push(0x7d);
                    proof {
                        assert(self.children@[k as int].1.ov() == ObjV::Node(
                            self.children@[k as int].1->Node_0,
                        ));
                        assert(out@ =~= out0 + render_leaf(
                            t.children[k as int].0,
                            t.children[k as int].1->Node_0,
                        ));
                    }
                },
            }
            k = k + 1;
        }
        out.push(0x5d);
        proof {
            assert(out@ =~= render_tree(t, root));
        }
        out
    }

    /// Renders the whole interchange report, with the given version text in
    /// the header; the caller hands the bytes to its sink.
    pub fn write(&self, progver: &[u8]) -> (out: Vec<u8>)
        ensures
            out@ == render_report(self.tv(), progver@),
    {
        let mut out: Vec<u8> = Vec::new();
        out.push(0x5b);
        out.push(0x31);
        out.push(0x2c);
        out.push(0x32);
        out.push(0x2c);
        out.push(0x7b);
        out.push(0x22);
        out.push(0x70);
        out.push(0x72);
        out.push(0x6f);
        out.push(0x67);
        out.push(0x6e);
        out.push(0x61);
        out.push(0x6d);
        out.push(0x65);
        out.push(0x22);
        out.push(0x3a);
        out.push(0x22);
        out.push(0x6d);
        out.push(0x6d);
        out.push(0x64);
        out.push(0x75);
        out.push(0x22);
        out.push(0x2c);
        out.push(0x22);
        out.push(0x70);
        out.push(0x72);
        out.push(0x6f);
        out.push(0x67);
        out.push(0x76);
        out.push(0x65);
        out.push(0x72);
        out.push(0x22);
        out.push(0x3a);
        out.push(0x22);
        proof {
            assert(out@ =~= report_open());
        }
        let mut ver = vstd::slice::slice_to_vec(progver);
        out.append(&mut ver);
        out.push(0x22);
        out.push(0x7d);
        let mut body = self.write_tree(true);
        out.append(&mut body);
        out.push(0x5d);
        out.push(0x0a);
        proof {
            assert(out@ =~= render_report(self.tv(), progver@));
        }
        out
    }
}

/// The empty tree a build starts from: the scan root with no payload yet.
pub open spec fn init_tree(dir: Seq<u8>) -> TreeV {
    TreeV { path: crate::paths::path_comps(dir), data: data_zero(), children: Seq::empty() }
}

/// What folding a report's lines into a tree yields: each line parsed as an
/// extended record and inserted in order; the first malformed line or
/// structural conflict aborts the build with its error.
pub open spec fn build_fold(t: TreeV, lines: Seq<Seq<u8>>) -> Result<TreeV, UsageError>
    decreases lines.len(),
{
    if lines.len() == 0 {
        Ok(t)
    } else {
        match build_fold(t, lines.drop_last()) {
            Err(e) => Err(e),
            Ok(t1) => match parse_ncdu_spec(lines.last()) {
                Err(e) => Err(e),
                Ok(ev) => {
                    let r = tree_insert(t1, ev);
                    if r.1 is Some {
                        Err(r.1->0)
                    } else {
                        Ok(r.0)
                    }
                },
            },
        }
    }
}

/// Whether every record a report parses to lies at or below the scan root.
pub open spec fn under_tree(lines: Seq<Seq<u8>>, root: Seq<Seq<u8>>) -> bool {
    forall|k: int|
        0 <= k < lines.len() ==> match parse_ncdu_spec(#[trigger] lines[k]) {
            Ok(e) => root.is_prefix_of(crate::paths::path_comps(e.path)),
            Err(_) => true,
        }
}

/// A failure on one line fails the whole build with that error.
pub proof fn lemma_build_fold_err(t: TreeV, lines: Seq<Seq<u8>>, k: int, e: UsageError)
    requires
        0 <= k < lines.len(),
        build_fold(t, lines.take(k)) is Ok,
        ({
            let t1 = build_fold(t, lines.take(k))->Ok_0;
            match parse_ncdu_spec(lines[k]) {
                Err(pe) => pe == e,
                Ok(ev) => tree_insert(t1, ev).1 == Some(e),
            }
        }),
    ensures
        build_fold(t, lines) == Err::<TreeV, UsageError>(e),
    decreases lines.len(),
{
    if lines.len() == k + 1 {
        assert(lines.drop_last() =~= lines.take(k));
    } else {
        assert(lines.drop_last().take(k) =~= lines.take(k));
        assert(lines.drop_last()[k] == lines[k]);
        lemma_build_fold_err(t, lines.drop_last(), k, e);
    }
}

/// Reconstructs the tree of a whole extended report, in arbitrary record
/// order.
///
/// Returns the first parse error if a line is malformed, and the
/// structural error if a record is routed into a leaf.  On success the tree
/// is exactly the fold of the report's records into the empty root.
#[verifier::rlimit(100)]
#[verifier::spinoff_prover]
pub fn sum(dir: &[u8], report: &[u8]) -> (r: Result<FSTree, UsageError>)
    requires
        under_tree(split_lines(report@), crate::paths::path_comps(dir@)),
    ensures
        match r {
            Ok(tree) => tree_wf(tree.tv()) && build_fold(init_tree(dir@), split_lines(report@))
                == Ok::<TreeV, UsageError>(tree.tv()),
            Err(e) => build_fold(init_tree(dir@), split_lines(report@)) == Err::<
                TreeV,
                UsageError,
            >(e),
        },
{
    let ghost initv = init_tree(dir@);
    let lines = split_lines_vec(report);
    let ghost dv = lines.deep_view();
    let root_comps = crate::paths::comps_of(dir);
    let mut tree = FSTree {
        path: root_comps,
        data: Data { file_size: 0, kb_allocated: 0, nlink: 0, inode: 0 },
        children: Vec::new(),
    };
    proof {
        assert(tree.tv().children =~= Seq::<(Seq<u8>, ObjV)>::empty());
        assert(tree.tv() == initv);
        assert(tree_wf(tree.tv())) by {
            crate::paths::lemma_path_comps_ok(dir@);
        }
        assert(dv.take(0) =~~= Seq::<Seq<u8>>::empty());
        assert(build_fold(initv, dv.take(0)) == Ok::<TreeV, UsageError>(initv));
    }
    let mut k: usize = 0;
    while k < lines.len()
        invariant
            0 <= k <= lines@.len(),
            dv == lines.deep_view(),
            dv.len() == lines@.len(),
            dv == split_lines(report@),
            under_tree(dv, crate::paths::path_comps(dir@)),
            initv == init_tree(dir@),
            initv.path == crate::paths::path_comps(dir@),
            tree_wf(tree.tv()),
            tree.tv().path == initv.path,
            build_fold(initv, dv.take(k as int)) == Ok::<TreeV, UsageError>(tree.tv()),
        decreases lines@.len() - k,
    {
        proof {
            assert(lines@[k as int]@ =~= dv[k as int]);
            assert(dv.take(k as int + 1).drop_last() =~~= dv.take(k as int));
            assert(dv.take(k as int + 1).last() == dv[k as int]);
        }
        let entry = match NcduEntry::parse(lines[k].as_slice()) {
            Ok(entry) => entry,
            Err(e) => {
                proof {
                    lemma_build_fold_err(initv, dv, k as int, e);
                }
                return Err(e);
            },
        };
        proof {
            assert(parse_ncdu_spec(dv[k as int]) == Ok::<NcduEntryV, UsageError>(entry@));
            assert(initv.path.is_prefix_of(crate::paths::path_comps(entry@.path)));
        }
        let ghost before = tree.tv();
        match tree.insert(&entry) {
            Ok(_) => {
                proof {
                    assert(build_fold(initv, dv.take(k as int + 1)) == Ok::<
                        TreeV,
                        UsageError,
                    >(tree.tv()));
                }
            },
            Err(e) => {
                proof {
                    assert(tree_insert(before, entry@).1 == Some(e));
                    lemma_build_fold_err(initv, dv, k as int, e);
                }
                return Err(e);
            },
        }
        k = k + 1;
        proof {
            lemma_tree_insert_wf(before, entry@);
        }
    }
    proof {
        assert(dv.take(dv.len() as int) =~~= dv);
    }
    Ok(tree)
}

/// The child value a key maps to, if any.
pub open spec fn child_at(cs: Seq<(Seq<u8>, ObjV)>, key: Seq<u8>) -> Option<ObjV> {
    if find_idx(cs, key) < cs.len() {
        Some(cs[find_idx(cs, key)].1)
    } else {
        None
    }
}

/// Children in strictly ascending key order have pairwise distinct keys.
pub proof fn lemma_sorted_keys_unique(cs: Seq<(Seq<u8>, ObjV)>)
    requires
        forall|i: int, j: int|
            0 <= i < j < cs.len() ==> crate::scan::lex_lt(cs[i].0, cs[j].0),
    ensures
        forall|i: int, j: int| 0 <= i < j < cs.len() ==> cs[i].0 != cs[j].0,
{
    assert forall|i: int, j: int| 0 <= i < j < cs.len() implies cs[i].0 != cs[j].0 by {
        crate::scan::lemma_lex_trichotomy(cs[i].0, cs[j].0);
    }
}

/// A key's first position is the position where it stands with none before.
pub proof fn lemma_find_idx_at(cs: Seq<(Seq<u8>, ObjV)>, key: Seq<u8>, i: int)
    requires
        0 <= i < cs.len(),
        cs[i].0 == key,
        forall|j: int| 0 <= j < i ==> cs[j].0 != key,
    ensures
        find_idx(cs, key) == i,
        child_at(cs, key) == Some(cs[i].1),
{
    lemma_find_idx(cs, key);
    let f = find_idx(cs, key);
    if f < i {
        assert(cs[f].0 != key);
    }
    if f > i {
        assert(cs[i].0 != key);
    }
}

/// A key absent from every slot maps to nothing.
pub proof fn lemma_find_idx_none(cs: Seq<(Seq<u8>, ObjV)>, key: Seq<u8>)
    requires
        forall|j: int| 0 <= j < cs.len() ==> cs[j].0 != key,
    ensures
        find_idx(cs, key) == cs.len(),
        child_at(cs, key) is None,
{
    lemma_find_idx(cs, key);
    if find_idx(cs, key) < cs.len() {
        assert(cs[find_idx(cs, key)].0 != key);
    }
}

/// Updating one slot in place changes that key's value and no other.
pub proof fn lemma_child_at_update(
    cs: Seq<(Seq<u8>, ObjV)>,
    i: int,
    pair: (Seq<u8>, ObjV),
    key: Seq<u8>,
)
    requires
        0 <= i < cs.len(),
        pair.0 == cs[i].0,
        forall|q: int, j: int| 0 <= q < j < cs.len() ==> cs[q].0 != cs[j].0,
    ensures
        child_at(cs.update(i, pair), key) == (if key == pair.0 {
            Some(pair.1)
        } else {
            child_at(cs, key)
        }),
{
    let upd = cs.update(i, pair);
    assert(forall|q: int| 0 <= q < cs.len() ==> #[trigger] upd[q].0 == cs[q].0);
    if key == pair.0 {
        assert(forall|j: int| 0 <= j < i ==> upd[j].0 != key);
        lemma_find_idx_at(upd, key, i);
    } else {
        lemma_find_idx(cs, key);
        let f = find_idx(cs, key);
        if f < cs.len() {
            assert(f != i);
            lemma_find_idx_at(upd, key, f);
            assert(upd[f].1 == cs[f].1);
        } else {
            lemma_find_idx_none(upd, key);
        }
    }
}

/// Inserting a fresh slot adds that key's value and keeps every other.
pub proof fn lemma_child_at_insert(
    cs: Seq<(Seq<u8>, ObjV)>,
    p: int,
    pair: (Seq<u8>, ObjV),
    key: Seq<u8>,
)
    requires
        0 <= p <= cs.len(),
        forall|q: int| 0 <= q < cs.len() ==> cs[q].0 != pair.0,
    ensures
        child_at(cs.insert(p, pair), key) == (if key == pair.0 {
            Some(pair.1)
        } else {
            child_at(cs, key)
        }),
{
    let ins = cs.insert(p, pair);
    assert(forall|q: int| 0 <= q < p ==> #[trigger] ins[q].0 == cs[q].0);
    assert(ins[p].0 == pair.0 && ins[p].1 == pair.1);
    assert(forall|q: int| p < q < ins.len() ==> #[trigger] ins[q].0 == cs[q - 1].0);
    if key == pair.0 {
        assert(forall|j: int| 0 <= j < p ==> ins[j].0 != key);
        lemma_find_idx_at(ins, key, p);
    } else {
        lemma_find_idx(cs, key);
        let f = find_idx(cs, key);
        if f < cs.len() {
            if f < p {
                assert(forall|j: int| 0 <= j < f ==> ins[j].0 != key);
                lemma_find_idx_at(ins, key, f);
                assert(ins[f].1 == cs[f].1);
            } else {
                assert forall|j: int| 0 <= j < f + 1 implies ins[j].0 != key by {
                    if j < p {
                        assert(ins[j].0 == cs[j].0);
                    } else if j > p {
                        assert(ins[j].0 == cs[j - 1].0);
                    }
                }
                assert(ins[f + 1].0 == cs[f].0);
                lemma_find_idx_at(ins, key, f + 1);
                assert(ins[f + 1].1 == cs[f].1);
            }
        } else {
            assert forall|j: int| 0 <= j < ins.len() implies ins[j].0 != key by {
                if j < p {
                    assert(ins[j].0 == cs[j].0);
                } else if j > p {
                    assert(ins[j].0 == cs[j - 1].0);
                }
            }
            lemma_find_idx_none(ins, key);
        }
    }
}

/// Two sorted child lists mapping every key alike are the same list.
pub proof fn lemma_sorted_assoc_ext(x: Seq<(Seq<u8>, ObjV)>, y: Seq<(Seq<u8>, ObjV)>)
    requires
        forall|i: int, j: int|
            0 <= i < j < x.len() ==> crate::scan::lex_lt(x[i].0, x[j].0),
        forall|i: int, j: int|
            0 <= i < j < y.len() ==> crate::scan::lex_lt(y[i].0, y[j].0),
        forall|key: Seq<u8>| #[trigger] child_at(x, key) == child_at(y, key),
    ensures
        x == y,
    decreases x.len() + y.len(),
{
    if x.len() == 0 && y.len() == 0 {
        assert(x =~= y);
    } else if x.len() == 0 {
        lemma_find_idx_at(y, y[0].0, 0);
        lemma_find_idx_none(x, y[0].0);
        assert(child_at(x, y[0].0) == child_at(y, y[0].0));
        assert(false);
    } else if y.len() == 0 {
        lemma_find_idx_at(x, x[0].0, 0);
        lemma_find_idx_none(y, x[0].0);
        assert(child_at(x, x[0].0) == child_at(y, x[0].0));
        assert(false);
    } else {
        let kx = x[0].0;
        let ky = y[0].0;
        lemma_find_idx_at(x, kx, 0);
        lemma_find_idx_at(y, ky, 0);
        assert(kx == ky) by {
            if kx != ky {
                // each head key stands in the other list, above its head
                assert(child_at(y, kx) is Some);
                lemma_find_idx(y, kx);
                let f = find_idx(y, kx);
                assert(f < y.len() && y[f].0 == kx && f != 0);
                assert(crate::scan::lex_lt(ky, kx));
                assert(child_at(x, ky) is Some);
                lemma_find_idx(x, ky);
                let g = find_idx(x, ky);
                assert(g < x.len() && x[g].0 == ky && g != 0);
                assert(crate::scan::lex_lt(kx, ky));
                crate::scan::lemma_lex_trichotomy(kx, ky);
            }
        }
        assert(x[0].1 == y[0].1) by {
            assert(child_at(x, kx) == child_at(y, kx));
        }
        let xt = x.drop_first();
        let yt = y.drop_first();
        assert(forall|i: int| 0 <= i < xt.len() ==> xt[i] == #[trigger] x[i + 1]);
        assert(forall|i: int| 0 <= i < yt.len() ==> yt[i] == #[trigger] y[i + 1]);
        assert forall|key: Seq<u8>| #[trigger] child_at(xt, key) == child_at(yt, key) by {
            if key == kx {
                assert forall|j: int| 0 <= j < xt.len() implies xt[j].0 != key by {
                    crate::scan::lemma_lex_trichotomy(kx, x[j + 1].0);
                }
                assert forall|j: int| 0 <= j < yt.len() implies yt[j].0 != key by {
                    crate::scan::lemma_lex_trichotomy(ky, y[j + 1].0);
                }
                lemma_find_idx_none(xt, key);
                lemma_find_idx_none(yt, key);
            } else {
                lemma_find_idx(xt, key);
                lemma_find_idx(yt, key);
                assert(find_idx(x, key) == 1 + find_idx(xt, key));
                assert(find_idx(y, key) == 1 + find_idx(yt, key));
                assert(child_at(x, key) == child_at(xt, key)) by {
                    if find_idx(xt, key) < xt.len() {
                        assert(xt[find_idx(xt, key)] == x[find_idx(xt, key) + 1]);
                        assert(x[find_idx(x, key)].1 == xt[find_idx(xt, key)].1);
                    }
                }
                assert(child_at(y, key) == child_at(yt, key)) by {
                    if find_idx(yt, key) < yt.len() {
                        assert(yt[find_idx(yt, key)] == y[find_idx(yt, key) + 1]);
                        assert(y[find_idx(y, key)].1 == yt[find_idx(yt, key)].1);
                    }
                }
            }
        }
        lemma_sorted_assoc_ext(xt, yt);
        assert(x.len() == y.len());
        assert forall|i: int| 0 <= i < x.len() implies x[i] == y[i] by {
            if i >= 1 {
                assert(xt[i - 1] == x[i]);
                assert(yt[i - 1] == y[i]);
            }
        }
        assert(x =~= y);
    }
}

/// What one slot becomes when a record is folded in under a parent: a
/// record for the slot itself overwrites it; a deeper record descends into
/// a directory, bounces off a leaf, or grows from a fresh placeholder.
pub open spec fn slot_after(prior: Option<ObjV>, e: NcduEntryV, par: Seq<Seq<u8>>) -> Option<
    ObjV,
> {
    let pc = crate::paths::path_comps(e.path);
    let d = data_of(e);
    let comp = pc[par.len() as int];
    if pc.len() == par.len() + 1 {
        match prior {
            Some(ObjV::Dir(sub)) => Some(
                ObjV::Dir(TreeV { path: sub.path, data: d, children: sub.children }),
            ),
            Some(ObjV::Node(_)) => Some(ObjV::Node(d)),
            None => Some(
                if is_dir_mode(e.mode) {
                    ObjV::Dir(TreeV { path: pc, data: d, children: Seq::empty() })
                } else {
                    ObjV::Node(d)
                },
            ),
        }
    } else {
        match prior {
            Some(ObjV::Dir(sub)) => Some(ObjV::Dir(tree_insert(sub, e).0)),
            Some(ObjV::Node(nd)) => Some(ObjV::Node(nd)),
            None => Some(
                ObjV::Dir(
                    tree_insert(
                        TreeV { path: par.push(comp), data: data_zero(), children: Seq::empty() },
                        e,
                    ).0,
                ),
            ),
        }
    }
}

/// Inserting below a node touches exactly one child slot: the one under the
/// record's next component, which becomes what the record makes of it.
#[verifier::rlimit(100)]
#[verifier::spinoff_prover]
pub proof fn lemma_insert_slots(t: TreeV, e: NcduEntryV)
    requires
        tree_wf(t),
        t.path.is_prefix_of(crate::paths::path_comps(e.path)),
        crate::paths::path_comps(e.path).len() > t.path.len(),
    ensures
        tree_insert(t, e).0.path == t.path,
        tree_insert(t, e).0.data == t.data,
        child_at(
            tree_insert(t, e).0.children,
            crate::paths::path_comps(e.path)[t.path.len() as int],
        ) == slot_after(
            child_at(t.children, crate::paths::path_comps(e.path)[t.path.len() as int]),
            e,
            t.path,
        ),
        forall|k: Seq<u8>|
            k != crate::paths::path_comps(e.path)[t.path.len() as int] ==> #[trigger] child_at(
                tree_insert(t, e).0.children,
                k,
            ) == child_at(t.children, k),
{
    let pc = crate::paths::path_comps(e.path);
    let comp = pc[t.path.len() as int];
    let cs = t.children;
    assert(pc != t.path);
    lemma_sorted_keys_unique(cs);
    lemma_find_idx(cs, comp);
    let i = find_idx(cs, comp);
    let t2 = tree_insert(t, e).0;
    if i < cs.len() {
        assert(child_at(cs, comp) == Some(cs[i].1));
        if pc.len() == t.path.len() + 1 {
            let obj2 = match cs[i].1 {
                ObjV::Dir(sub) => ObjV::Dir(
                    TreeV { path: sub.path, data: data_of(e), children: sub.children },
                ),
                ObjV::Node(_) => ObjV::Node(data_of(e)),
            };
            assert(t2.children == cs.update(i, (comp, obj2)));
            lemma_child_at_update(cs, i, (comp, obj2), comp);
            assert forall|k: Seq<u8>| k != comp implies #[trigger] child_at(t2.children, k)
                == child_at(cs, k) by {
                lemma_child_at_update(cs, i, (comp, obj2), k);
            }
        } else {
            match cs[i].1 {
                ObjV::Dir(sub) => {
                    assert(obj_wf(cs[i].1, t.path, cs[i].0));
                    assert(sub.path.len() == t.path.len() + 1);
                    let obj2 = ObjV::Dir(tree_insert(sub, e).0);
                    assert(t2.children == cs.update(i, (comp, obj2)));
                    lemma_child_at_update(cs, i, (comp, obj2), comp);
                    assert forall|k: Seq<u8>| k != comp implies #[trigger] child_at(
                        t2.children,
                        k,
                    ) == child_at(cs, k) by {
                        lemma_child_at_update(cs, i, (comp, obj2), k);
                    }
                },
                ObjV::Node(_) => {
                    assert(t2 == t);
                },
            }
        }
    } else {
        lemma_find_idx_none(cs, comp);
        lemma_ipos(cs, comp);
        let p = ipos(cs, comp);
        if pc.len() == t.path.len() + 1 {
            let obj = if is_dir_mode(e.mode) {
                ObjV::Dir(TreeV { path: pc, data: data_of(e), children: Seq::empty() })
            } else {
                ObjV::Node(data_of(e))
            };
            assert(t2.children == cs.insert(p, (comp, obj)));
            lemma_child_at_insert(cs, p, (comp, obj), comp);
            assert forall|k: Seq<u8>| k != comp implies #[trigger] child_at(t2.children, k)
                == child_at(cs, k) by {
                lemma_child_at_insert(cs, p, (comp, obj), k);
            }
        } else {
            let holder = TreeV { path: t.path.push(comp), data: data_zero(), children: Seq::empty() };
            let obj = ObjV::Dir(tree_insert(holder, e).0);
            assert(t2.children == cs.insert(p, (comp, obj)));
            lemma_child_at_insert(cs, p, (comp, obj), comp);
            assert forall|k: Seq<u8>| k != comp implies #[trigger] child_at(t2.children, k)
                == child_at(cs, k) by {
                lemma_child_at_insert(cs, p, (comp, obj), k);
            }
        }
    }
}

/// Order independence: two records whose paths do not lie on one line of
/// ancestry land in a tree in either order with the same result.
#[verifier::rlimit(100)]
#[verifier::spinoff_prover]
pub proof fn lemma_insert_swap(t: TreeV, a: NcduEntryV, b: NcduEntryV)
    requires
        tree_wf(t),
        t.path.is_prefix_of(crate::paths::path_comps(a.path)),
        t.path.is_prefix_of(crate::paths::path_comps(b.path)),
        crate::paths::path_comps(a.path).len() > t.path.len(),
        crate::paths::path_comps(b.path).len() > t.path.len(),
        !crate::paths::path_comps(a.path).is_prefix_of(crate::paths::path_comps(b.path)),
        !crate::paths::path_comps(b.path).is_prefix_of(crate::paths::path_comps(a.path)),
    ensures
        tree_insert(tree_insert(t, a).0, b).0 == tree_insert(tree_insert(t, b).0, a).0,
    decreases crate::paths::path_comps(a.path).len() - t.path.len(),
{
    let pa = crate::paths::path_comps(a.path);
    let pb = crate::paths::path_comps(b.path);
    let plen = t.path.len() as int;
    let ca = pa[plen];
    let cb = pb[plen];
    let ta = tree_insert(t, a).0;
    let tb = tree_insert(t, b).0;
    let f1 = tree_insert(ta, b).0;
    let f2 = tree_insert(tb, a).0;
    lemma_tree_insert_wf(t, a);
    lemma_tree_insert_wf(t, b);
    lemma_insert_slots(t, a);
    lemma_insert_slots(t, b);
    lemma_tree_insert_wf(ta, b);
    lemma_tree_insert_wf(tb, a);
    lemma_insert_slots(ta, b);
    lemma_insert_slots(tb, a);
    if ca != cb {
        assert forall|k: Seq<u8>| #[trigger] child_at(f1.children, k) == child_at(
            f2.children,
            k,
        ) by {
            if k == ca {
                assert(child_at(f1.children, ca) == child_at(ta.children, ca));
                assert(child_at(tb.children, ca) == child_at(t.children, ca));
            } else if k == cb {
                assert(child_at(f2.children, cb) == child_at(tb.children, cb));
                assert(child_at(ta.children, cb) == child_at(t.children, cb));
            }
        }
        lemma_sorted_assoc_ext(f1.children, f2.children);
        assert(f1 == f2);
    } else {
        // the paths share their next component, so both records descend
        assert(pa.len() > plen + 1) by {
            if pa.len() == plen + 1 {
                assert(pa =~= pb.take(plen + 1)) by {
                    assert(forall|q: int| 0 <= q < plen ==> pa[q] == #[trigger] t.path[q]);
                    assert(forall|q: int| 0 <= q < plen ==> pb[q] == #[trigger] t.path[q]);
                }
                assert(pa.is_prefix_of(pb));
            }
        }
        assert(pb.len() > plen + 1) by {
            if pb.len() == plen + 1 {
                assert(pb =~= pa.take(plen + 1)) by {
                    assert(forall|q: int| 0 <= q < plen ==> pa[q] == #[trigger] t.path[q]);
                    assert(forall|q: int| 0 <= q < plen ==> pb[q] == #[trigger] t.path[q]);
                }
                assert(pb.is_prefix_of(pa));
            }
        }
        let deeper = t.path.push(ca);
        assert(deeper.is_prefix_of(pa)) by {
            assert(pa.take(plen + 1) =~= deeper) by {
                assert(forall|q: int| 0 <= q < plen ==> pa[q] == #[trigger] t.path[q]);
            }
        }
        assert(deeper.is_prefix_of(pb)) by {
            assert(pb.take(plen + 1) =~= deeper) by {
                assert(forall|q: int| 0 <= q < plen ==> pb[q] == #[trigger] t.path[q]);
            }
        }
        match child_at(t.children, ca) {
            Some(obj) => match obj {
                ObjV::Dir(sub) => {
                    lemma_find_idx(t.children, ca);
                    assert(obj_wf(t.children[find_idx(t.children, ca)].1, t.path, ca));
                    assert(sub.path == deeper && tree_wf(sub));
                    lemma_insert_swap(sub, a, b);
                    assert(child_at(f1.children, ca) == Some(
                        ObjV::Dir(tree_insert(tree_insert(sub, a).0, b).0),
                    )) by {
                        assert(child_at(ta.children, ca) == Some(
                            ObjV::Dir(tree_insert(sub, a).0),
                        ));
                    }
                    assert(child_at(f2.children, ca) == Some(
                        ObjV::Dir(tree_insert(tree_insert(sub, b).0, a).0),
                    )) by {
                        assert(child_at(tb.children, ca) == Some(
                            ObjV::Dir(tree_insert(sub, b).0),
                        ));
                    }
                },
                ObjV::Node(_) => {
                    assert(child_at(f1.children, ca) == child_at(t.children, ca));
                    assert(child_at(f2.children, ca) == child_at(t.children, ca));
                },
            },
            None => {
                let holder = TreeV { path: deeper, data: data_zero(), children: Seq::empty() };
                assert(tree_wf(holder)) by {
                    crate::paths::lemma_path_comps_ok(a.path);
                    assert(forall|q: int|
                        0 <= q < holder.path.len() ==> comp_ok(#[trigger] holder.path[q]));
                }
                lemma_insert_swap(holder, a, b);
                assert(child_at(f1.children, ca) == Some(
                    ObjV::Dir(tree_insert(tree_insert(holder, a).0, b).0),
                )) by {
                    assert(child_at(ta.children, ca) == Some(
                        ObjV::Dir(tree_insert(holder, a).0),
                    ));
                }
                assert(child_at(f2.children, ca) == Some(
                    ObjV::Dir(tree_insert(tree_insert(holder, b).0, a).0),
                )) by {
                    assert(child_at(tb.children, ca) == Some(
                        ObjV::Dir(tree_insert(holder, b).0),
                    ));
                }
            },
        }
        assert forall|k: Seq<u8>| #[trigger] child_at(f1.children, k) == child_at(
            f2.children,
            k,
        ) by {
            if k != ca {
                assert(child_at(ta.children, k) == child_at(t.children, k));
                assert(child_at(tb.children, k) == child_at(t.children, k));
            }
        }
        lemma_sorted_assoc_ext(f1.children, f2.children);
        assert(f1 == f2);
    }
}

} // verus!
