//! Byte-level scanning: finding bytes, splitting a report into lines,
//! splitting metadata into fields, and lexicographic comparison.

use vstd::prelude::*;

verus! {

/// ASCII line feed.
pub const NL: u8 = 0x0a;

/// ASCII space.
pub const SP: u8 = 0x20;

/// The first position at or after `i` holding byte `b`.
pub open spec fn find_byte_from(s: Seq<u8>, b: u8, i: int) -> Option<int>
    decreases s.len() - i,
{
    if i < 0 || i >= s.len() {
        None
    } else if s[i] == b {
        Some(i)
    } else {
        find_byte_from(s, b, i + 1)
    }
}

pub proof fn lemma_find_byte_from(s: Seq<u8>, b: u8, i: int)
    requires
        0 <= i <= s.len(),
    ensures
        match find_byte_from(s, b, i) {
            Some(j) => i <= j < s.len() && s[j] == b && (forall|k: int| i <= k < j ==> s[k] != b),
            None => forall|k: int| i <= k < s.len() ==> s[k] != b,
        },
    decreases s.len() - i,
{
    if i < s.len() && s[i] != b {
        lemma_find_byte_from(s, b, i + 1);
    }
}

/// Scanning from the start finds the first occurrence.
pub proof fn lemma_find_byte_is(s: Seq<u8>, b: u8, j: int)
    requires
        0 <= j < s.len(),
        s[j] == b,
        forall|k: int| 0 <= k < j ==> s[k] != b,
    ensures
        find_byte_from(s, b, 0) == Some(j),
    decreases j,
{
    lemma_find_byte_from(s, b, 0);
    if find_byte_from(s, b, 0) is None {
        assert(s[j] != b);
    }
}

pub fn find_byte(s: &[u8], b: u8) -> (r: Option<usize>)
    ensures
        find_byte_from(s@, b, 0) == (match r {
            Some(j) => Some(j as int),
            None => None::<int>,
        }),
{
    let mut i: usize = 0;
    while i < s.len()
        invariant
            0 <= i <= s@.len(),
            find_byte_from(s@, b, 0) == find_byte_from(s@, b, i as int),
        decreases s@.len() - i,
    {
        if s[i] == b {
            return Some(i);
        }
        i = i + 1;
    }
    None
}

/// Splitting a byte string at every occurrence of `b`; the pieces do not
/// contain `b`, and an empty string is one empty piece.
pub open spec fn split_byte(s: Seq<u8>, b: u8) -> Seq<Seq<u8>>
    decreases s.len(),
{
    match find_byte_from(s, b, 0) {
        Some(i) => if 0 <= i < s.len() {
            seq![s.take(i)] + split_byte(s.skip(i + 1), b)
        } else {
            seq![s]
        },
        None => seq![s],
    }
}

/// Splitting at a known first occurrence.
pub proof fn lemma_split_byte_cons(p: Seq<u8>, b: u8, rest: Seq<u8>)
    requires
        forall|k: int| 0 <= k < p.len() ==> p[k] != b,
    ensures
        split_byte(p + seq![b] + rest, b) == seq![p] + split_byte(rest, b),
{
    let s = p + seq![b] + rest;
    assert(s[p.len() as int] == b);
    lemma_find_byte_is(s, b, p.len() as int);
    assert(s.take(p.len() as int) =~= p);
    assert(s.skip(p.len() as int + 1) =~= rest);
}

/// Splitting a string without the separator.
pub proof fn lemma_split_byte_whole(p: Seq<u8>, b: u8)
    requires
        forall|k: int| 0 <= k < p.len() ==> p[k] != b,
    ensures
        split_byte(p, b) == seq![p],
{
    lemma_find_byte_from(p, b, 0);
    if find_byte_from(p, b, 0) is Some {
        let j = find_byte_from(p, b, 0)->Some_0;
        assert(p[j] != b);
    }
}

/// The lines of a report: split at every line feed, the line feed consumed;
/// a final line feed ends the last line rather than opening an empty one.
pub open spec fn split_lines(r: Seq<u8>) -> Seq<Seq<u8>>
    decreases r.len(),
{
    if r.len() == 0 {
        Seq::empty()
    } else {
        match find_byte_from(r, NL, 0) {
            Some(i) => if 0 <= i < r.len() {
                seq![r.take(i)] + split_lines(r.skip(i + 1))
            } else {
                seq![r]
            },
            None => seq![r],
        }
    }
}

/// Splits a report into its lines.
pub fn split_lines_vec(r: &[u8]) -> (lines: Vec<Vec<u8>>)
    ensures
        lines.deep_view() == split_lines(r@),
{
    let mut lines: Vec<Vec<u8>> = Vec::new();
    let mut start: usize = 0;
    let mut i: usize = 0;
    proof {
        assert(r@.skip(0) =~= r@);
        assert(lines.deep_view() + split_lines(r@) =~~= split_lines(r@));
    }
    while i < r.len()
        invariant
            0 <= start <= i <= r@.len(),
            forall|k: int| start <= k < i ==> r@[k] != NL,
            split_lines(r@) =~~= lines.deep_view() + split_lines(r@.skip(start as int)),
        decreases r@.len() - i,
    {
        if r[i] == NL {
            let seg = vstd::slice::slice_to_vec(vstd::slice::slice_subrange(r, start, i));
            proof {
                let suf = r@.skip(start as int);
                assert(suf[i - start as int] == NL);
                lemma_find_byte_is(suf, NL, i - start as int);
                assert(suf.take(i - start as int) =~= r@.subrange(start as int, i as int));
                assert(suf.skip(i - start as int + 1) =~= r@.skip(i as int + 1));
                assert(split_lines(suf) == seq![r@.subrange(start as int, i as int)]
                    + split_lines(r@.skip(i as int + 1)));
            }
            lines.push(seg);
            proof {
                assert(split_lines(r@) =~~= lines.deep_view() + split_lines(
                    r@.skip(i as int + 1),
                ));
            }
            start = i + 1;
        }
        i = i + 1;
    }
    if start < r.len() {
        let seg = vstd::slice::slice_to_vec(vstd::slice::slice_subrange(r, start, r.len()));
        proof {
            let suf = r@.skip(start as int);
            lemma_find_byte_from(suf, NL, 0);
            if find_byte_from(suf, NL, 0) is Some {
                let j = find_byte_from(suf, NL, 0)->Some_0;
                assert(r@[start as int + j] != NL);
            }
            assert(split_lines(suf) == seq![suf]);
            assert(suf =~= r@.subrange(start as int, r@.len() as int));
        }
        lines.push(seg);
        proof {
            assert(lines.deep_view() =~~= split_lines(r@));
        }
    } else {
        proof {
            assert(r@.skip(start as int) =~= Seq::<u8>::empty());
            assert(lines.deep_view() =~~= split_lines(r@));
        }
    }
    lines
}

/// Splits a field group at every space.
pub fn split_byte_vec(s: &[u8], b: u8) -> (pieces: Vec<Vec<u8>>)
    ensures
        pieces.deep_view() == split_byte(s@, b),
    decreases s@.len(),
{
    match find_byte(s, b) {
        Some(i) => {
            let n = s.len();
            proof {
                lemma_find_byte_from(s@, b, 0);
                assert((i as int) < s@.len());
            }
            let head = vstd::slice::slice_to_vec(vstd::slice::slice_subrange(s, 0, i));
            let rest = vstd::slice::slice_subrange(s, i + 1, n);
            let mut pieces = split_byte_vec(rest, b);
            pieces.insert(0, head);
            proof {
                assert(s@.take(i as int) =~= s@.subrange(0, i as int));
                assert(s@.skip(i as int + 1) =~= s@.subrange(i as int + 1, s@.len() as int));
                assert(pieces.deep_view() =~~= split_byte(s@, b));
            }
            pieces
        },
        None => {
            let mut pieces: Vec<Vec<u8>> = Vec::new();
            pieces.push(vstd::slice::slice_to_vec(s));
            proof {
                assert(pieces.deep_view() =~~= split_byte(s@, b));
            }
            pieces
        },
    }
}

/// Byte equality of two byte strings.
pub fn bytes_eq(a: &[u8], b: &[u8]) -> (r: bool)
    ensures
        r == (a@ == b@),
{
    if a.len() != b.len() {
        return false;
    }
    let mut i: usize = 0;
    while i < a.len()
        invariant
            0 <= i <= a@.len(),
            a@.len() == b@.len(),
            forall|k: int| 0 <= k < i ==> a@[k] == b@[k],
        decreases a@.len() - i,
    {
        if a[i] != b[i] {
            return false;
        }
        i = i + 1;
    }
    proof {
        assert(a@ =~= b@);
    }
    true
}

/// Strict lexicographic order on byte strings.
pub open spec fn lex_lt(a: Seq<u8>, b: Seq<u8>) -> bool
    decreases a.len(),
{
    if b.len() == 0 {
        false
    } else if a.len() == 0 {
        true
    } else if a[0] < b[0] {
        true
    } else if a[0] > b[0] {
        false
    } else {
        lex_lt(a.skip(1), b.skip(1))
    }
}

/// Equal prefixes do not change the comparison of the rest.
pub proof fn lemma_lex_skip(a: Seq<u8>, b: Seq<u8>, i: int)
    requires
        0 <= i <= a.len(),
        i <= b.len(),
        forall|k: int| 0 <= k < i ==> a[k] == b[k],
    ensures
        lex_lt(a, b) == lex_lt(a.skip(i), b.skip(i)),
    decreases i,
{
    if i > 0 {
        assert(a.skip(1).skip(i - 1) =~= a.skip(i));
        assert(b.skip(1).skip(i - 1) =~= b.skip(i));
        assert(forall|k: int| 0 <= k < i - 1 ==> a.skip(1)[k] == b.skip(1)[k]);
        lemma_lex_skip(a.skip(1), b.skip(1), i - 1);
    } else {
        assert(a.skip(0) =~= a);
        assert(b.skip(0) =~= b);
    }
}

/// Exactly one of `lex_lt(a, b)`, `a == b`, `lex_lt(b, a)` holds.
pub proof fn lemma_lex_trichotomy(a: Seq<u8>, b: Seq<u8>)
    ensures
        lex_lt(a, b) || lex_lt(b, a) || a == b,
        lex_lt(a, b) ==> !lex_lt(b, a) && a != b,
        lex_lt(b, a) ==> !lex_lt(a, b) && a != b,
    decreases a.len(),
{
    if a.len() > 0 && b.len() > 0 && a[0] == b[0] {
        lemma_lex_trichotomy(a.skip(1), b.skip(1));
        if a.skip(1) == b.skip(1) {
            assert forall|i: int| 0 <= i < a.len() implies a[i] == b[i] by {
                if i >= 1 {
                    assert(a[i] == a.skip(1)[i - 1]);
                    assert(b[i] == b.skip(1)[i - 1]);
                }
            }
            assert(a.len() == b.len());
            assert(a =~= b);
        }
        if a == b {
            assert(a.skip(1) =~= b.skip(1));
        }
    } else {
        if a.len() == 0 && b.len() == 0 {
            assert(a =~= b);
        }
    }
}

/// Lexicographic order is transitive.
pub proof fn lemma_lex_trans(a: Seq<u8>, b: Seq<u8>, c: Seq<u8>)
    requires
        lex_lt(a, b),
        lex_lt(b, c),
    ensures
        lex_lt(a, c),
    decreases a.len() + b.len() + c.len(),
{
    if b.len() == 0 {
        // lex_lt(b, c) gives c.len() > 0, and lex_lt(a, b) is impossible
    } else if a.len() == 0 {
        // c.len() > 0 since lex_lt(b, c)
    } else {
        // a, b nonempty; c nonempty since lex_lt(b, c)
        if a[0] == b[0] && b[0] == c[0] {
            lemma_lex_trans(a.skip(1), b.skip(1), c.skip(1));
        }
    }
}

/// Three-way lexicographic comparison; negative for less, zero for equal,
/// positive for greater.
pub fn lex_cmp(a: &[u8], b: &[u8]) -> (o: i8)
    ensures
        (o == -1) == lex_lt(a@, b@),
        (o == 1) == lex_lt(b@, a@),
        (o == 0) == (a@ == b@),
        o == -1 || o == 0 || o == 1,
{
    proof {
        lemma_lex_trichotomy(a@, b@);
    }
    let n = if a.len() < b.len() {
        a.len()
    } else {
        b.len()
    };
    let mut i: usize = 0;
    while i < n
        invariant
            0 <= i <= n,
            n == if a@.len() < b@.len() {
                a@.len() as int
            } else {
                b@.len() as int
            },
            forall|k: int| 0 <= k < i ==> a@[k] == b@[k],
        decreases n - i,
    {
        let x = a[i];
        let y = b[i];
        if x < y {
            proof {
                lemma_lex_skip(a@, b@, i as int);
                lemma_lex_trichotomy(a@, b@);
            }
            return -1;
        }
        if x > y {
            proof {
                lemma_lex_skip(a@, b@, i as int);
                lemma_lex_trichotomy(a@, b@);
            }
            return 1;
        }
        i = i + 1;
    }
    proof {
        lemma_lex_skip(a@, b@, n as int);
        lemma_lex_trichotomy(a@, b@);
    }
    if a.len() < b.len() {
        -1
    } else if a.len() > b.len() {
        1
    } else {
        proof {
            assert(a@ =~= b@);
        }
        0
    }
}

} // verus!
