//! Absolute paths as component lists.
//!
//! A path is modelled by its nonempty components: `/data/test` has the
//! components `data` and `test`; the root `/` has none.  Repeated and
//! trailing slashes carry no components.  Rendering joins the components
//! with slashes back into a canonical absolute path.

use vstd::prelude::*;

use crate::policy::SLASH;
use crate::scan::{split_byte, split_byte_vec};

verus! {

/// The nonempty pieces of a piece list, in order.
pub open spec fn nonempty_pieces(ss: Seq<Seq<u8>>) -> Seq<Seq<u8>>
    decreases ss.len(),
{
    if ss.len() == 0 {
        Seq::empty()
    } else if ss.last().len() > 0 {
        nonempty_pieces(ss.drop_last()).push(ss.last())
    } else {
        nonempty_pieces(ss.drop_last())
    }
}

/// The components of an absolute path: the nonempty segments between
/// slashes.
pub open spec fn path_comps(p: Seq<u8>) -> Seq<Seq<u8>> {
    nonempty_pieces(split_byte(p, SLASH))
}

/// Pieces of a split never hold the byte that was split on.
pub proof fn lemma_split_byte_no_sep(s: Seq<u8>, b: u8)
    ensures
        forall|i: int, j: int|
            0 <= i < split_byte(s, b).len() && 0 <= j < split_byte(s, b)[i].len()
                ==> #[trigger] split_byte(s, b)[i][j] != b,
    decreases s.len(),
{
    crate::scan::lemma_find_byte_from(s, b, 0);
    let pieces = split_byte(s, b);
    match crate::scan::find_byte_from(s, b, 0) {
        Some(k) => {
            lemma_split_byte_no_sep(s.skip(k + 1), b);
            let rest = split_byte(s.skip(k + 1), b);
            assert forall|i: int, j: int|
                0 <= i < pieces.len() && 0 <= j < pieces[i].len() implies #[trigger] pieces[i][j]
                != b by {
                if i == 0 {
                    assert(pieces[0] == s.take(k));
                    assert(s.take(k)[j] == s[j]);
                } else {
                    assert(pieces[i] == rest[i - 1]);
                }
            }
        },
        None => {
            assert forall|i: int, j: int|
                0 <= i < pieces.len() && 0 <= j < pieces[i].len() implies #[trigger] pieces[i][j]
                != b by {
                assert(pieces[0] == s);
            }
        },
    }
}

/// Nonempty pieces are pieces: every element property carries over.
pub proof fn lemma_nonempty_pieces_from(ss: Seq<Seq<u8>>)
    ensures
        forall|i: int|
            0 <= i < nonempty_pieces(ss).len() ==> exists|k: int|
                0 <= k < ss.len() && #[trigger] nonempty_pieces(ss)[i] == ss[k],
    decreases ss.len(),
{
    if ss.len() > 0 {
        lemma_nonempty_pieces_from(ss.drop_last());
        let np = nonempty_pieces(ss);
        let npd = nonempty_pieces(ss.drop_last());
        assert forall|i: int| 0 <= i < np.len() implies exists|k: int|
            0 <= k < ss.len() && #[trigger] np[i] == ss[k] by {
            if ss.last().len() > 0 && i == np.len() - 1 {
                assert(np[i] == ss[ss.len() - 1]);
            } else {
                assert(np[i] == npd[i]);
                let k = choose|k: int| 0 <= k < ss.drop_last().len() && npd[i] == ss.drop_last()[k];
                assert(np[i] == ss[k]);
            }
        }
    }
}

/// Every component of a path is nonempty and holds no slash.
pub proof fn lemma_path_comps_ok(p: Seq<u8>)
    ensures
        forall|i: int|
            0 <= i < path_comps(p).len() ==> #[trigger] path_comps(p)[i].len() > 0 && forall|
                j: int,
            | 0 <= j < path_comps(p)[i].len() ==> path_comps(p)[i][j] != SLASH,
{
    lemma_nonempty_pieces(split_byte(p, SLASH));
    lemma_nonempty_pieces_from(split_byte(p, SLASH));
    lemma_split_byte_no_sep(p, SLASH);
    let cs = path_comps(p);
    let ss = split_byte(p, SLASH);
    assert forall|i: int| 0 <= i < cs.len() implies #[trigger] cs[i].len() > 0 && forall|j: int|
        0 <= j < cs[i].len() ==> cs[i][j] != SLASH by {
        let k = choose|k: int| 0 <= k < ss.len() && cs[i] == ss[k];
        assert(forall|j: int| 0 <= j < ss[k].len() ==> #[trigger] ss[k][j] != SLASH);
    }
}

/// Every component is nonempty.
pub proof fn lemma_nonempty_pieces(ss: Seq<Seq<u8>>)
    ensures
        forall|i: int|
            0 <= i < nonempty_pieces(ss).len() ==> #[trigger] nonempty_pieces(ss)[i].len() > 0,
    decreases ss.len(),
{
    if ss.len() > 0 {
        lemma_nonempty_pieces(ss.drop_last());
        let np = nonempty_pieces(ss);
        let npd = nonempty_pieces(ss.drop_last());
        assert forall|i: int| 0 <= i < np.len() implies #[trigger] np[i].len() > 0 by {
            if ss.last().len() > 0 {
                if i < np.len() - 1 {
                    assert(np[i] == npd[i]);
                } else {
                    assert(np[i] == ss.last());
                }
            } else {
                assert(np[i] == npd[i]);
            }
        }
    }
}

/// Splits a path into its components.
pub fn comps_of(p: &[u8]) -> (comps: Vec<Vec<u8>>)
    ensures
        comps.deep_view() == path_comps(p@),
{
    let pieces = split_byte_vec(p, SLASH);
    let mut comps: Vec<Vec<u8>> = Vec::new();
    let mut k: usize = 0;
    proof {
        assert(pieces.deep_view().take(0) =~~= Seq::<Seq<u8>>::empty());
        assert(comps.deep_view() =~~= nonempty_pieces(pieces.deep_view().take(0)));
    }
    while k < pieces.len()
        invariant
            0 <= k <= pieces@.len(),
            pieces.deep_view().len() == pieces@.len(),
            comps.deep_view() == nonempty_pieces(pieces.deep_view().take(k as int)),
        decreases pieces@.len() - k,
    {
        let ghost dv = pieces.deep_view();
        let ghost prev = comps.deep_view();
        proof {
            assert(dv.take(k as int + 1).drop_last() =~~= dv.take(k as int));
            assert(dv.take(k as int + 1).last() == dv[k as int]);
            assert(pieces@[k as int]@ == dv[k as int]);
        }
        if pieces[k].len() > 0 {
            let piece = vstd::slice::slice_to_vec(pieces[k].as_slice());
            comps.push(piece);
            proof {
                assert(comps.deep_view() =~~= prev.push(dv[k as int]));
            }
        }
        k = k + 1;
    }
    proof {
        assert(pieces.deep_view().take(pieces@.len() as int) =~~= pieces.deep_view());
    }
    comps
}

/// The components joined, each preceded by a slash.
pub open spec fn cat_comps(cs: Seq<Seq<u8>>) -> Seq<u8>
    decreases cs.len(),
{
    if cs.len() == 0 {
        Seq::empty()
    } else {
        cat_comps(cs.drop_last()) + seq![SLASH] + cs.last()
    }
}

/// The canonical absolute path of a component list; the empty list is the
/// root.
pub open spec fn render_comps(cs: Seq<Seq<u8>>) -> Seq<u8> {
    if cs.len() == 0 {
        seq![SLASH]
    } else {
        cat_comps(cs)
    }
}

/// Whether every component of a list is nonempty.
pub open spec fn comps_wf(cs: Seq<Seq<u8>>) -> bool {
    forall|i: int| 0 <= i < cs.len() ==> #[trigger] cs[i].len() > 0
}

pub proof fn lemma_path_comps_wf(p: Seq<u8>)
    ensures
        comps_wf(path_comps(p)),
{
    lemma_nonempty_pieces(split_byte(p, SLASH));
}

/// Joined nonempty components take at least two bytes each.
pub proof fn lemma_cat_comps_len(cs: Seq<Seq<u8>>)
    requires
        comps_wf(cs),
    ensures
        cat_comps(cs).len() >= 2 * cs.len(),
    decreases cs.len(),
{
    if cs.len() > 0 {
        assert(comps_wf(cs.drop_last())) by {
            assert(forall|i: int|
                0 <= i < cs.len() - 1 ==> cs.drop_last()[i] == #[trigger] cs[i]);
        }
        lemma_cat_comps_len(cs.drop_last());
        assert(cs.last().len() > 0);
    }
}

/// Longer prefixes of one component list render to longer paths, so two
/// different prefix depths never collide.
pub proof fn lemma_render_len_mono(cs: Seq<Seq<u8>>, m1: int, m2: int)
    requires
        comps_wf(cs),
        0 <= m1 < m2 <= cs.len(),
    ensures
        render_comps(cs.take(m1)).len() < render_comps(cs.take(m2)).len(),
    decreases m2 - m1,
{
    assert(comps_wf(cs.take(m2))) by {
        assert(forall|i: int| 0 <= i < m2 ==> cs.take(m2)[i] == #[trigger] cs[i]);
    }
    if m1 + 1 == m2 {
        assert(cs.take(m2).drop_last() =~= cs.take(m1));
        assert(cat_comps(cs.take(m2)) == cat_comps(cs.take(m1)) + seq![SLASH] + cs[m1]);
        if m1 == 0 {
            assert(cs.take(0) =~= Seq::<Seq<u8>>::empty());
            assert(cat_comps(cs.take(m2)).len() >= 2) by {
                lemma_cat_comps_len(cs.take(m2));
            }
        }
    } else {
        lemma_render_len_mono(cs, m1, m2 - 1);
        lemma_render_len_mono(cs, m2 - 1, m2);
    }
}

/// Renders the first `m` components of a path.
pub fn render_prefix(comps: &Vec<Vec<u8>>, m: usize) -> (r: Vec<u8>)
    requires
        m <= comps@.len(),
    ensures
        r@ == render_comps(comps.deep_view().take(m as int)),
{
    let ghost dv = comps.deep_view();
    let mut out: Vec<u8> = Vec::new();
    if m == 0 {
        out.push(SLASH);
        proof {
            assert(dv.take(0) =~~= Seq::<Seq<u8>>::empty());
            assert(out@ =~= render_comps(dv.take(0)));
        }
        return out;
    }
    let mut j: usize = 0;
    proof {
        assert(dv.take(0) =~~= Seq::<Seq<u8>>::empty());
        assert(out@ =~= cat_comps(dv.take(0)));
    }
    while j < m
        invariant
            0 <= j <= m <= comps@.len(),
            dv == comps.deep_view(),
            dv.len() == comps@.len(),
            out@ == cat_comps(dv.take(j as int)),
        decreases m - j,
    {
        let ghost prev = out@;
        out.push(SLASH);
        let mut part = vstd::slice::slice_to_vec(comps[j].as_slice());
        out.append(&mut part);
        j = j + 1;
        proof {
            assert(dv.take(j as int).drop_last() =~~= dv.take(j as int - 1));
            assert(dv.take(j as int).last() == dv[j as int - 1]);
            assert(comps@[j as int - 1]@ == dv[j as int - 1]);
            assert(out@ =~= cat_comps(dv.take(j as int - 1)) + seq![SLASH] + dv[j as int - 1]);
        }
    }
    out
}

/// Renders a whole component list.
pub fn render_path(comps: &Vec<Vec<u8>>) -> (r: Vec<u8>)
    ensures
        r@ == render_comps(comps.deep_view()),
{
    let m = comps.len();
    let r = render_prefix(comps, m);
    proof {
        assert(comps.deep_view().take(comps.deep_view().len() as int) =~~= comps.deep_view());
    }
    r
}

/// The components joined with slashes between them, no slash in front.
pub open spec fn fcat(cs: Seq<Seq<u8>>) -> Seq<u8>
    decreases cs.len(),
{
    if cs.len() == 0 {
        Seq::empty()
    } else if cs.len() == 1 {
        cs[0]
    } else {
        cs[0] + seq![SLASH] + fcat(cs.drop_first())
    }
}

/// The front join grows at the back one component at a time.
pub proof fn lemma_fcat_snoc(cs: Seq<Seq<u8>>)
    requires
        cs.len() >= 2,
    ensures
        fcat(cs) == fcat(cs.drop_last()) + seq![SLASH] + cs.last(),
    decreases cs.len(),
{
    if cs.len() == 2 {
        assert(cs.drop_first() =~= seq![cs[1]]);
        assert(cs.drop_last() =~= seq![cs[0]]);
        assert(seq![cs[1]].len() == 1 && seq![cs[1]][0] == cs[1]);
        assert(fcat(seq![cs[1]]) == cs[1]);
        assert(fcat(seq![cs[0]]) == cs[0]);
        assert(fcat(cs) == cs[0] + seq![SLASH] + fcat(cs.drop_first()));
        assert(fcat(cs) =~= fcat(cs.drop_last()) + seq![SLASH] + cs.last());
    } else {
        let df = cs.drop_first();
        lemma_fcat_snoc(df);
        assert(df.drop_last() =~= cs.drop_last().drop_first());
        assert(df.last() == cs.last());
        assert(cs.drop_last()[0] == cs[0]);
        assert(cs.drop_last().len() >= 2);
        assert(fcat(cs.drop_last()) == cs[0] + seq![SLASH] + fcat(cs.drop_last().drop_first()));
        assert(fcat(cs) == cs[0] + seq![SLASH] + fcat(df));
        assert(fcat(df) == fcat(cs.drop_last().drop_first()) + seq![SLASH] + cs.last());
        assert(fcat(cs) =~= fcat(cs.drop_last()) + seq![SLASH] + cs.last());
    }
}

/// A joined component list is the slash, then the front join.
pub proof fn lemma_cat_is_fcat(cs: Seq<Seq<u8>>)
    requires
        cs.len() >= 1,
    ensures
        cat_comps(cs) == seq![SLASH] + fcat(cs),
    decreases cs.len(),
{
    if cs.len() == 1 {
        assert(cs.drop_last() =~= Seq::<Seq<u8>>::empty());
        assert(cat_comps(cs) =~= seq![SLASH] + fcat(cs));
    } else {
        lemma_cat_is_fcat(cs.drop_last());
        lemma_fcat_snoc(cs);
        assert(cat_comps(cs) == cat_comps(cs.drop_last()) + seq![SLASH] + cs.last());
        assert(cat_comps(cs.drop_last()) == seq![SLASH] + fcat(cs.drop_last()));
        assert(fcat(cs) == fcat(cs.drop_last()) + seq![SLASH] + cs.last());
        assert(cat_comps(cs) =~= seq![SLASH] + fcat(cs));
    }
}

/// Splitting a front join recovers the components.
pub proof fn lemma_split_fcat(cs: Seq<Seq<u8>>)
    requires
        cs.len() >= 1,
        forall|i: int, j: int|
            0 <= i < cs.len() && 0 <= j < cs[i].len() ==> #[trigger] cs[i][j] != SLASH,
    ensures
        split_byte(fcat(cs), SLASH) == cs,
    decreases cs.len(),
{
    if cs.len() == 1 {
        assert(forall|j: int| 0 <= j < cs[0].len() ==> #[trigger] cs[0][j] != SLASH);
        crate::scan::lemma_split_byte_whole(cs[0], SLASH);
        assert(split_byte(fcat(cs), SLASH) =~= cs);
    } else {
        let df = cs.drop_first();
        assert(forall|i: int, j: int|
            0 <= i < df.len() && 0 <= j < df[i].len() ==> #[trigger] df[i][j] != SLASH) by {
            assert(forall|i: int| 0 <= i < df.len() ==> df[i] == #[trigger] cs[i + 1]);
        }
        lemma_split_fcat(df);
        assert(forall|j: int| 0 <= j < cs[0].len() ==> #[trigger] cs[0][j] != SLASH);
        crate::scan::lemma_split_byte_cons(cs[0], SLASH, fcat(df));
        assert(split_byte(fcat(cs), SLASH) =~= cs) by {
            assert(split_byte(cs[0] + seq![SLASH] + fcat(df), SLASH) == seq![cs[0]] + df);
            assert(seq![cs[0]] + df =~= cs);
        }
    }
}

/// Dropping empties from a concatenation splits over the parts.
pub proof fn lemma_nonempty_concat(a: Seq<Seq<u8>>, b: Seq<Seq<u8>>)
    ensures
        nonempty_pieces(a + b) == nonempty_pieces(a) + nonempty_pieces(b),
    decreases b.len(),
{
    if b.len() == 0 {
        assert(a + b =~= a);
        assert(nonempty_pieces(a) + nonempty_pieces(b) =~= nonempty_pieces(a));
    } else {
        lemma_nonempty_concat(a, b.drop_last());
        assert((a + b).drop_last() =~= a + b.drop_last());
        assert((a + b).last() == b.last());
        if b.last().len() > 0 {
            assert(nonempty_pieces(a + b) =~= nonempty_pieces(a) + nonempty_pieces(b));
        } else {
            assert(nonempty_pieces(a + b) =~= nonempty_pieces(a) + nonempty_pieces(b));
        }
    }
}

/// A list of nonempty pieces is left as it stands.
pub proof fn lemma_nonempty_id(cs: Seq<Seq<u8>>)
    requires
        forall|i: int| 0 <= i < cs.len() ==> #[trigger] cs[i].len() > 0,
    ensures
        nonempty_pieces(cs) == cs,
    decreases cs.len(),
{
    if cs.len() > 0 {
        assert(forall|i: int|
            0 <= i < cs.len() - 1 ==> cs.drop_last()[i] == #[trigger] cs[i]);
        lemma_nonempty_id(cs.drop_last());
        assert(nonempty_pieces(cs) =~= cs);
    }
}

/// One empty piece carries no component.
pub proof fn lemma_nonempty_single_empty()
    ensures
        nonempty_pieces(seq![Seq::<u8>::empty()]) == Seq::<Seq<u8>>::empty(),
{
    let one = seq![Seq::<u8>::empty()];
    assert(one.last().len() == 0);
    assert(one.drop_last() =~= Seq::<Seq<u8>>::empty());
    assert(nonempty_pieces(Seq::<Seq<u8>>::empty()) == Seq::<Seq<u8>>::empty());
    assert(nonempty_pieces(one) == nonempty_pieces(one.drop_last()));
}

/// Round trip: the components of a rendered component list are the list
/// itself, for proper components.
pub proof fn lemma_render_round_trip(cs: Seq<Seq<u8>>)
    requires
        forall|i: int|
            0 <= i < cs.len() ==> #[trigger] cs[i].len() > 0 && forall|j: int|
                0 <= j < cs[i].len() ==> cs[i][j] != SLASH,
    ensures
        path_comps(render_comps(cs)) == cs,
{
    if cs.len() == 0 {
        let root = seq![SLASH];
        let emp = Seq::<u8>::empty();
        assert(root =~= emp + seq![SLASH] + emp);
        crate::scan::lemma_split_byte_cons(emp, SLASH, emp);
        crate::scan::lemma_split_byte_whole(emp, SLASH);
        assert(split_byte(emp + seq![SLASH] + emp, SLASH) == seq![emp] + split_byte(emp, SLASH));
        assert(split_byte(emp, SLASH) == seq![emp]);
        assert(split_byte(root, SLASH) == seq![Seq::<u8>::empty()] + seq![Seq::<u8>::empty()]);
        lemma_nonempty_concat(seq![Seq::<u8>::empty()], seq![Seq::<u8>::empty()]);
        lemma_nonempty_single_empty();
        assert(nonempty_pieces(split_byte(root, SLASH)) =~= cs);
    } else {
        lemma_cat_is_fcat(cs);
        assert(forall|i: int, j: int|
            0 <= i < cs.len() && 0 <= j < cs[i].len() ==> #[trigger] cs[i][j] != SLASH);
        lemma_split_fcat(cs);
        assert(render_comps(cs) =~= Seq::<u8>::empty() + seq![SLASH] + fcat(cs));
        crate::scan::lemma_split_byte_cons(Seq::<u8>::empty(), SLASH, fcat(cs));
        assert(split_byte(render_comps(cs), SLASH) == seq![Seq::<u8>::empty()] + cs);
        lemma_nonempty_concat(seq![Seq::<u8>::empty()], cs);
        lemma_nonempty_single_empty();
        lemma_nonempty_id(cs);
        assert(path_comps(render_comps(cs)) =~= cs);
    }
}

} // verus!
