//! Shared adjacency-row machinery: labeled arcs, their well-formedness,
//! and the verified set-like update helpers the algorithms build on.

use crate::reach::reaches;
use vstd::prelude::*;

verus! {

/// One labeled arc of an automaton graph: the target node together with the
/// non-empty list of symbols whose edge it is. A single arc stands for the
/// whole symbol set of the edge from its source to `to`.
pub struct CharArc {
    pub to: usize,
    pub syms: Vec<char>,
}

/// `v` is an element of the integer list `s`.
pub open spec fn seq_has(s: Seq<usize>, v: int) -> bool {
    exists|k: int| 0 <= k < s.len() && (#[trigger] s[k]) as int == v
}

/// Some arc of `row` points at `v`.
pub open spec fn row_has_arc(row: Seq<CharArc>, v: int) -> bool {
    exists|k: int| 0 <= k < row.len() && (#[trigger] row[k]).to as int == v
}

/// Some arc of `row` points at `v` and carries the symbol `c`.
pub open spec fn row_arc_sym(row: Seq<CharArc>, v: int, c: char) -> bool {
    exists|k: int|
        0 <= k < row.len() && (#[trigger] row[k]).to as int == v && row[k].syms@.contains(c)
}

/// Well-formedness of one adjacency row: targets in range, symbol lists
/// non-empty and duplicate-free, at most one arc per target.
pub open spec fn row_wf(row: Seq<CharArc>, n: int) -> bool {
    &&& forall|k: int|
        0 <= k < row.len() ==> {
            &&& (#[trigger] row[k]).to < n
            &&& row[k].syms@.len() > 0
            &&& row[k].syms@.no_duplicates()
        }
    &&& forall|k1: int, k2: int|
        0 <= k1 < k2 < row.len() ==> (#[trigger] row[k1]).to != (#[trigger] row[k2]).to
}

/// Well-formedness of one epsilon target list: targets in range, no
/// duplicates.
pub open spec fn eps_row_wf(row: Seq<usize>, n: int) -> bool {
    &&& forall|k: int| 0 <= k < row.len() ==> (#[trigger] row[k]) < n
    &&& row.no_duplicates()
}

impl Clone for CharArc {
    /// Copies the arc, symbols included.
    fn clone(&self) -> (r: Self)
        ensures
            r.to == self.to,
            r.syms@ == self.syms@,
    {
        CharArc { to: self.to, syms: clone_chars(&self.syms) }
    }
}

/// Copies a list of symbols.
pub fn clone_chars(v: &Vec<char>) -> (r: Vec<char>)
    ensures
        r@ == v@,
{
    let mut r: Vec<char> = Vec::new();
    let mut i: usize = 0;
    while i < v.len()
        invariant
            i <= v@.len(),
            r@ == v@.subrange(0, i as int),
        decreases v@.len() - i,
    {
        r.push(v[i]);
        i += 1;
        proof {
            assert(r@ =~= v@.subrange(0, i as int));
        }
    }
    proof {
        assert(r@ =~= v@);
    }
    r
}

/// Copies a list of node identifiers.
pub fn clone_ids(v: &Vec<usize>) -> (r: Vec<usize>)
    ensures
        r@ == v@,
{
    let mut r: Vec<usize> = Vec::new();
    let mut i: usize = 0;
    while i < v.len()
        invariant
            i <= v@.len(),
            r@ == v@.subrange(0, i as int),
        decreases v@.len() - i,
    {
        r.push(v[i]);
        i += 1;
        proof {
            assert(r@ =~= v@.subrange(0, i as int));
        }
    }
    proof {
        assert(r@ =~= v@);
    }
    r
}

/// Copies an adjacency row, arcs included.
pub fn clone_arcs(v: &Vec<CharArc>) -> (r: Vec<CharArc>)
    ensures
        r@.len() == v@.len(),
        forall|k: int|
            0 <= k < v@.len() ==> (#[trigger] r@[k]).to == v@[k].to && r@[k].syms@
                == v@[k].syms@,
{
    let mut r: Vec<CharArc> = Vec::new();
    let mut i: usize = 0;
    while i < v.len()
        invariant
            i <= v@.len(),
            r@.len() == i,
            forall|k: int|
                0 <= k < i ==> (#[trigger] r@[k]).to == v@[k].to && r@[k].syms@ == v@[k].syms@,
        decreases v@.len() - i,
    {
        r.push(v[i].clone());
        i += 1;
    }
    r
}

/// Adds symbol `c` to the edge from the row's source to `to`, materializing
/// the arc if it does not exist yet, exactly as inserting into the edge's
/// symbol set.
pub fn merge_arc_sym(row: &mut Vec<CharArc>, to: usize, c: char, Ghost(n): Ghost<int>)
    requires
        row_wf(old(row)@, n),
        to < n,
    ensures
        row_wf(final(row)@, n),
        final(row)@.len() <= old(row)@.len() + 1,
        row_has_arc(old(row)@, to as int) ==> final(row)@.len() == old(row)@.len(),
        forall|v: int, x: char|
            row_arc_sym(final(row)@, v, x) <==> row_arc_sym(old(row)@, v, x) || (v == to as int
                && x == c),
        forall|v: int|
            row_has_arc(final(row)@, v) <==> row_has_arc(old(row)@, v) || v == to as int,
{
    let ghost row0 = row@;
    let mut k: usize = 0;
    let l = row.len();
    loop
        invariant
            row@ == row0,
            k <= l,
            l == row@.len(),
            forall|j: int| 0 <= j < k ==> (#[trigger] row@[j]).to != to,
        ensures
            row@ == row0,
            k <= row@.len(),
            forall|j: int| 0 <= j < k ==> (#[trigger] row@[j]).to != to,
            k < row@.len() ==> row@[k as int].to == to,
            k == row@.len() ==> !row_has_arc(row@, to as int),
        decreases l - k,
    {
        if k == l {
            break;
        }
        if row[k].to == to {
            break;
        }
        k += 1;
    }
    if k < row.len() {
        let mut arc = row.swap_remove(k);
        let ghost syms0 = arc.syms@;
        let mut present = false;
        let mut j: usize = 0;
        let sl = arc.syms.len();
        while j < sl
            invariant
                j <= sl,
                sl == arc.syms@.len(),
                present <==> exists|i: int| 0 <= i < j && arc.syms@[i] == c,
            decreases sl - j,
        {
            if arc.syms[j] == c {
                present = true;
                proof {
                    assert(exists|i: int| 0 <= i < j + 1 && arc.syms@[i] == c);
                }
            }
            j += 1;
        }
        if !present {
            arc.syms.push(c);
        }
        proof {
            if present {
                let i = choose|i: int| 0 <= i < syms0.len() && syms0[i] == c;
                assert(syms0.contains(c));
                assert(arc.syms@ == syms0);
                assert(forall|x: char| arc.syms@.contains(x) <==> syms0.contains(x) || x == c);
            } else {
                assert(arc.syms@ == syms0.push(c));
                assert(!syms0.contains(c)) by {
                    if syms0.contains(c) {
                        let i = choose|i: int| 0 <= i < syms0.len() && syms0[i] == c;
                        assert(exists|i: int| 0 <= i < sl && syms0[i] == c);
                    }
                }
                assert forall|x: char| arc.syms@.contains(x) <==> syms0.contains(x) || x == c by {
                    if arc.syms@.contains(x) {
                        let i = choose|i: int| 0 <= i < arc.syms@.len() && arc.syms@[i] == x;
                        if i < syms0.len() {
                            assert(syms0[i] == x);
                        }
                    }
                    if syms0.contains(x) {
                        let i = choose|i: int| 0 <= i < syms0.len() && syms0[i] == x;
                        assert(arc.syms@[i] == x);
                    }
                    if x == c {
                        assert(arc.syms@[arc.syms@.len() - 1] == c);
                    }
                }
                assert(arc.syms@.no_duplicates());
            }
        }
        row.push(arc);
        proof {
            let rf = row@;
            assert forall|v: int, x: char|
                row_arc_sym(rf, v, x) <==> row_arc_sym(row0, v, x) || (v == to as int && x == c)
            by {
                if row_arc_sym(rf, v, x) {
                    let i = choose|i: int|
                        0 <= i < rf.len() && (#[trigger] rf[i]).to as int == v && rf[i].syms@.contains(x);
                    if i == rf.len() - 1 {
                        if syms0.contains(x) {
                            assert(row0[k as int].to as int == v && row0[k as int].syms@.contains(x));
                            assert(row_arc_sym(row0, v, x));
                        }
                    } else if i == k as int {
                        assert(rf[i] == row0[row0.len() - 1]);
                        assert(row_arc_sym(row0, v, x));
                    } else {
                        assert(rf[i] == row0[i]);
                        assert(row_arc_sym(row0, v, x));
                    }
                }
                if row_arc_sym(row0, v, x) {
                    let i = choose|i: int|
                        0 <= i < row0.len() && (#[trigger] row0[i]).to as int == v
                            && row0[i].syms@.contains(x);
                    if i == k as int {
                        assert(rf[rf.len() - 1].to as int == v && rf[rf.len() - 1].syms@.contains(x));
                    } else if i == row0.len() - 1 {
                        assert(rf[k as int] == row0[i]);
                    } else {
                        assert(rf[i] == row0[i]);
                    }
                }
                if v == to as int && x == c {
                    assert(rf[rf.len() - 1].to as int == v && rf[rf.len() - 1].syms@.contains(x));
                }
            }
            assert forall|v: int|
                row_has_arc(rf, v) <==> row_has_arc(row0, v) || v == to as int
            by {
                if row_has_arc(rf, v) {
                    let i = choose|i: int| 0 <= i < rf.len() && (#[trigger] rf[i]).to as int == v;
                    if i == rf.len() - 1 {
                    } else if i == k as int {
                        assert(rf[i] == row0[row0.len() - 1]);
                        assert(row_has_arc(row0, v));
                    } else {
                        assert(rf[i] == row0[i]);
                        assert(row_has_arc(row0, v));
                    }
                }
                if row_has_arc(row0, v) {
                    let i = choose|i: int| 0 <= i < row0.len() && (#[trigger] row0[i]).to as int == v;
                    if i == k as int {
                        assert(rf[rf.len() - 1].to as int == v);
                    } else if i == row0.len() - 1 {
                        assert(rf[k as int] == row0[i]);
                    } else {
                        assert(rf[i] == row0[i]);
                    }
                }
            }
            assert forall|k1: int, k2: int| 0 <= k1 < k2 < rf.len() implies (#[trigger] rf[k1]).to
                != (#[trigger] rf[k2]).to by {
                let m = rf.len() - 1;
                assert(rf[m].to == row0[k as int].to);
                if k2 == m {
                    if k1 == k as int {
                        assert(rf[k1] == row0[m]);
                        assert(row0[m].to != row0[k as int].to);
                    } else {
                        assert(rf[k1] == row0[k1]);
                        assert(row0[k1].to != row0[k as int].to);
                    }
                } else if k2 == k as int {
                    assert(rf[k2] == row0[m]);
                    assert(rf[k1] == row0[k1]);
                    assert(row0[k1].to != row0[m].to);
                } else if k1 == k as int {
                    assert(rf[k1] == row0[m]);
                    assert(rf[k2] == row0[k2]);
                    assert(row0[m].to != row0[k2].to);
                } else {
                    assert(rf[k1] == row0[k1] && rf[k2] == row0[k2]);
                }
            }
        }
    } else {
        let mut syms: Vec<char> = Vec::new();
        syms.push(c);
        row.push(CharArc { to, syms });
        proof {
            let rf = row@;
            assert forall|v: int, x: char|
                row_arc_sym(rf, v, x) <==> row_arc_sym(row0, v, x) || (v == to as int && x == c)
            by {
                if row_arc_sym(rf, v, x) {
                    let i = choose|i: int|
                        0 <= i < rf.len() && (#[trigger] rf[i]).to as int == v && rf[i].syms@.contains(x);
                    if i < rf.len() - 1 {
                        assert(rf[i] == row0[i]);
                        assert(row_arc_sym(row0, v, x));
                    } else {
                        assert(rf[i].syms@ =~= seq![c]);
                    }
                }
                if row_arc_sym(row0, v, x) {
                    let i = choose|i: int|
                        0 <= i < row0.len() && (#[trigger] row0[i]).to as int == v
                            && row0[i].syms@.contains(x);
                    assert(rf[i] == row0[i]);
                }
                if v == to as int && x == c {
                    assert(rf[rf.len() - 1].to as int == v && rf[rf.len() - 1].syms@[0] == c);
                    assert(rf[rf.len() - 1].syms@.contains(c));
                }
            }
            assert forall|v: int|
                row_has_arc(rf, v) <==> row_has_arc(row0, v) || v == to as int
            by {
                if row_has_arc(rf, v) {
                    let i = choose|i: int| 0 <= i < rf.len() && (#[trigger] rf[i]).to as int == v;
                    if i < rf.len() - 1 {
                        assert(rf[i] == row0[i]);
                        assert(row_has_arc(row0, v));
                    }
                }
                if row_has_arc(row0, v) {
                    let i = choose|i: int| 0 <= i < row0.len() && (#[trigger] row0[i]).to as int == v;
                    assert(rf[i] == row0[i]);
                }
                if v == to as int {
                    assert(rf[rf.len() - 1].to as int == v);
                }
            }
            assert forall|k1: int, k2: int| 0 <= k1 < k2 < rf.len() implies (#[trigger] rf[k1]).to
                != (#[trigger] rf[k2]).to by {
                if k2 == rf.len() - 1 {
                    assert(rf[k1] == row0[k1]);
                    assert(!row_has_arc(row0, to as int));
                } else {
                    assert(rf[k1] == row0[k1] && rf[k2] == row0[k2]);
                }
            }
        }
    }
}

/// Adds `j` to an epsilon target list unless it is already there, exactly
/// as inserting into the edge set.
pub fn add_eps_target(row: &mut Vec<usize>, j: usize, Ghost(n): Ghost<int>)
    requires
        eps_row_wf(old(row)@, n),
        j < n,
    ensures
        eps_row_wf(final(row)@, n),
        final(row)@.len() <= old(row)@.len() + 1,
        forall|v: int| seq_has(final(row)@, v) <==> seq_has(old(row)@, v) || v == j as int,
{
    let ghost row0 = row@;
    let mut present = false;
    let mut k: usize = 0;
    let l = row.len();
    while k < l
        invariant
            k <= l,
            l == row@.len(),
            row@ == row0,
            present <==> exists|i: int| 0 <= i < k && row@[i] == j,
        decreases l - k,
    {
        if row[k] == j {
            present = true;
            proof {
                assert(exists|i: int| 0 <= i < k + 1 && row@[i] == j);
            }
        }
        k += 1;
    }
    if !present {
        row.push(j);
    }
    proof {
        assert forall|v: int| seq_has(row@, v) <==> seq_has(row0, v) || v == j as int by {
            if present {
                let i = choose|i: int| 0 <= i < l && row0[i] == j;
                assert((row0[i]) as int == j as int);
                assert(seq_has(row0, j as int));
            } else {
                if seq_has(row@, v) {
                    let i = choose|i: int| 0 <= i < row@.len() && (#[trigger] row@[i]) as int == v;
                    if i < row@.len() - 1 {
                        assert(row0[i] as int == v);
                        assert(seq_has(row0, v));
                    }
                }
                if seq_has(row0, v) {
                    let i = choose|i: int| 0 <= i < row0.len() && (#[trigger] row0[i]) as int == v;
                    assert(row@[i] as int == v);
                }
                if v == j as int {
                    assert(row@[row@.len() - 1] as int == v);
                }
            }
        }
        if !present {
            assert(!row0.contains(j)) by {
                if row0.contains(j) {
                    let i = choose|i: int| 0 <= i < row0.len() && row0[i] == j;
                    assert(exists|i: int| 0 <= i < l && row0[i] == j);
                }
            }
            assert(row@.no_duplicates());
        }
        assert(forall|v: int| seq_has(row@, v) <==> seq_has(row0, v) || v == j as int);
    }
}

/// Row well-formedness only depends on targets being below the node count,
/// so it survives growing the graph.
pub proof fn lemma_row_wf_mono(row: Seq<CharArc>, n1: int, n2: int)
    requires
        row_wf(row, n1),
        n1 <= n2,
    ensures
        row_wf(row, n2),
{
}

/// Epsilon row well-formedness survives growing the graph.
pub proof fn lemma_eps_row_wf_mono(row: Seq<usize>, n1: int, n2: int)
    requires
        eps_row_wf(row, n1),
        n1 <= n2,
    ensures
        eps_row_wf(row, n2),
{
}

/// An id list shifted by `ord` holds exactly the shifted members.
pub proof fn lemma_offset_ids(a: Seq<usize>, b: Seq<usize>, ord: int, na: int)
    requires
        b.len() == a.len(),
        forall|j: int| 0 <= j < a.len() ==> ((#[trigger] b[j]) as int) == a[j] + ord,
        eps_row_wf(a, na),
        ord >= 0,
    ensures
        eps_row_wf(b, ord + na),
        forall|v: int| seq_has(b, v) <==> seq_has(a, v - ord),
{
    assert forall|v: int| seq_has(b, v) <==> seq_has(a, v - ord) by {
        if seq_has(b, v) {
            let k = choose|k: int| 0 <= k < b.len() && ((#[trigger] b[k]) as int) == v;
            assert((a[k] as int) == v - ord);
            assert(seq_has(a, v - ord));
        }
        if seq_has(a, v - ord) {
            let k = choose|k: int| 0 <= k < a.len() && ((#[trigger] a[k]) as int) == v - ord;
            assert((b[k] as int) == v);
        }
    }
    assert(b.no_duplicates()) by {
        assert forall|k1: int, k2: int| 0 <= k1 < k2 < b.len() implies b[k1] != b[k2] by {
            assert(a[k1] != a[k2]);
            assert((b[k1] as int) == a[k1] + ord && (b[k2] as int) == a[k2] + ord);
        }
    }
}

/// An arc row whose targets are shifted by `ord` describes exactly the
/// shifted edges, with the same symbol sets.
pub proof fn lemma_offset_arcs(a: Seq<CharArc>, b: Seq<CharArc>, ord: int, na: int)
    requires
        b.len() == a.len(),
        forall|j: int|
            0 <= j < a.len() ==> ((#[trigger] b[j]).to as int) == a[j].to + ord && b[j].syms@
                == a[j].syms@,
        row_wf(a, na),
        ord >= 0,
    ensures
        row_wf(b, ord + na),
        forall|v: int, c: char| row_arc_sym(b, v, c) <==> row_arc_sym(a, v - ord, c),
        forall|v: int| row_has_arc(b, v) <==> row_has_arc(a, v - ord),
{
    assert forall|v: int, c: char| row_arc_sym(b, v, c) <==> row_arc_sym(a, v - ord, c) by {
        if row_arc_sym(b, v, c) {
            let k = choose|k: int|
                0 <= k < b.len() && ((#[trigger] b[k]).to as int) == v && b[k].syms@.contains(c);
            assert((a[k].to as int) == v - ord && a[k].syms@.contains(c));
            assert(row_arc_sym(a, v - ord, c));
        }
        if row_arc_sym(a, v - ord, c) {
            let k = choose|k: int|
                0 <= k < a.len() && ((#[trigger] a[k]).to as int) == v - ord && a[k].syms@.contains(
                    c,
                );
            assert((b[k].to as int) == v && b[k].syms@.contains(c));
        }
    }
    assert forall|v: int| row_has_arc(b, v) <==> row_has_arc(a, v - ord) by {
        if row_has_arc(b, v) {
            let k = choose|k: int| 0 <= k < b.len() && ((#[trigger] b[k]).to as int) == v;
            assert((a[k].to as int) == v - ord);
            assert(row_has_arc(a, v - ord));
        }
        if row_has_arc(a, v - ord) {
            let k = choose|k: int| 0 <= k < a.len() && ((#[trigger] a[k]).to as int) == v - ord;
            assert((b[k].to as int) == v);
        }
    }
    assert forall|k1: int, k2: int| 0 <= k1 < k2 < b.len() implies (#[trigger] b[k1]).to
        != (#[trigger] b[k2]).to by {
        assert(a[k1].to != a[k2].to);
    }
}

/// Unions every edge of `src` into `dst`, symbol set by symbol set.
pub fn merge_rows(dst: &mut Vec<CharArc>, src: &Vec<CharArc>, Ghost(n): Ghost<int>)
    requires
        row_wf(old(dst)@, n),
        row_wf(src@, n),
    ensures
        row_wf(final(dst)@, n),
        final(dst)@.len() <= old(dst)@.len() + src@.len(),
        forall|v: int, x: char|
            #[trigger] row_arc_sym(final(dst)@, v, x) <==> row_arc_sym(old(dst)@, v, x)
                || row_arc_sym(src@, v, x),
        forall|v: int|
            #[trigger] row_has_arc(final(dst)@, v) <==> row_has_arc(old(dst)@, v) || row_has_arc(
                src@,
                v,
            ),
{
    let ghost dst0 = dst@;
    let mut k: usize = 0;
    let kl = src.len();
    while k < kl
        invariant
            k <= kl,
            kl == src@.len(),
            row_wf(dst@, n),
            row_wf(src@, n),
            dst@.len() <= dst0.len() + k,
            forall|v: int, x: char|
                #[trigger] row_arc_sym(dst@, v, x) <==> row_arc_sym(dst0, v, x) || (exists|t: int|
                    0 <= t < k && ((#[trigger] src@[t]).to as int) == v && src@[t].syms@.contains(
                        x,
                    )),
            forall|v: int|
                #[trigger] row_has_arc(dst@, v) <==> row_has_arc(dst0, v) || (exists|t: int|
                    0 <= t < k && ((#[trigger] src@[t]).to as int) == v),
        decreases kl - k,
    {
        let ghost dpre = dst@;
        let to = src[k].to;
        let mut j: usize = 0;
        let jl = src[k].syms.len();
        while j < jl
            invariant
                j <= jl,
                k < src@.len(),
                jl == src@[k as int].syms@.len(),
                to == src@[k as int].to,
                (to as int) < n,
                row_wf(dst@, n),
                dst@.len() <= dpre.len() + if j > 0 { 1int } else { 0int },
                forall|v: int, x: char|
                    #[trigger] row_arc_sym(dst@, v, x) <==> row_arc_sym(dpre, v, x) || (v
                        == to as int && exists|s: int|
                        0 <= s < j && (#[trigger] src@[k as int].syms@[s]) == x),
                forall|v: int|
                    #[trigger] row_has_arc(dst@, v) <==> row_has_arc(dpre, v) || (v == to as int
                        && j > 0),
            decreases jl - j,
        {
            merge_arc_sym(dst, to, src[k].syms[j], Ghost(n));
            j += 1;
            proof {
                assert forall|v: int, x: char|
                    #[trigger] row_arc_sym(dst@, v, x) <==> row_arc_sym(dpre, v, x) || (v
                        == to as int && exists|s: int|
                        0 <= s < j && (#[trigger] src@[k as int].syms@[s]) == x)
                by {
                    if v == to as int && x == src@[k as int].syms@[j - 1] {
                        assert((#[trigger] src@[k as int].syms@[j - 1]) == x);
                    }
                    if v == to as int && exists|s: int|
                        0 <= s < j && (#[trigger] src@[k as int].syms@[s]) == x {
                        let s = choose|s: int|
                            0 <= s < j && (#[trigger] src@[k as int].syms@[s]) == x;
                        if s < j - 1 {
                            assert(exists|s2: int|
                                0 <= s2 < j - 1 && (#[trigger] src@[k as int].syms@[s2]) == x);
                        }
                    }
                }
            }
        }
        k += 1;
        proof {
            assert forall|v: int, x: char|
                #[trigger] row_arc_sym(dst@, v, x) <==> row_arc_sym(dst0, v, x) || (exists|t: int|
                    0 <= t < k && ((#[trigger] src@[t]).to as int) == v && src@[t].syms@.contains(
                        x,
                    ))
            by {
                if row_arc_sym(dst@, v, x) {
                    if !row_arc_sym(dpre, v, x) {
                        assert(v == src@[k - 1].to as int);
                        let s = choose|s: int|
                            0 <= s < jl && (#[trigger] src@[k as int - 1].syms@[s]) == x;
                        assert(src@[k - 1].syms@.contains(x));
                        assert(((#[trigger] src@[k - 1]).to as int) == v
                            && src@[k - 1].syms@.contains(x));
                    }
                }
                if exists|t: int|
                    0 <= t < k && ((#[trigger] src@[t]).to as int) == v && src@[t].syms@.contains(
                        x,
                    ) {
                    let t = choose|t: int|
                        0 <= t < k && ((#[trigger] src@[t]).to as int) == v
                            && src@[t].syms@.contains(x);
                    if t < k - 1 {
                        assert(exists|t2: int|
                            0 <= t2 < k - 1 && ((#[trigger] src@[t2]).to as int) == v
                                && src@[t2].syms@.contains(x));
                    } else {
                        let s = choose|s: int|
                            0 <= s < src@[t].syms@.len() && src@[t].syms@[s] == x;
                        assert(exists|s2: int|
                            0 <= s2 < jl && (#[trigger] src@[k as int - 1].syms@[s2]) == x);
                    }
                }
            }
            assert forall|v: int|
                #[trigger] row_has_arc(dst@, v) <==> row_has_arc(dst0, v) || (exists|t: int|
                    0 <= t < k && ((#[trigger] src@[t]).to as int) == v)
            by {
                if row_has_arc(dst@, v) && !row_has_arc(dpre, v) {
                    assert(((#[trigger] src@[k - 1]).to as int) == v);
                }
                if exists|t: int| 0 <= t < k && ((#[trigger] src@[t]).to as int) == v {
                    let t = choose|t: int| 0 <= t < k && ((#[trigger] src@[t]).to as int) == v;
                    if t < k - 1 {
                        assert(exists|t2: int|
                            0 <= t2 < k - 1 && ((#[trigger] src@[t2]).to as int) == v);
                    } else {
                        if src@[t].syms@.len() > 0 {
                        }
                        assert(row_has_arc(dst@, v));
                    }
                }
            }
        }
    }
}

/// Two rows whose arcs agree field for field describe the same edges.
pub proof fn lemma_like_rows(a: Seq<CharArc>, b: Seq<CharArc>)
    requires
        a.len() == b.len(),
        forall|j: int|
            0 <= j < a.len() ==> (#[trigger] a[j]).to == b[j].to && a[j].syms@ == b[j].syms@,
    ensures
        forall|v: int, c: char| #[trigger] row_arc_sym(a, v, c) <==> row_arc_sym(b, v, c),
        forall|v: int| #[trigger] row_has_arc(a, v) <==> row_has_arc(b, v),
        forall|n: int| #[trigger] row_wf(a, n) <==> row_wf(b, n),
{
    assert forall|v: int, c: char| #[trigger] row_arc_sym(a, v, c) <==> row_arc_sym(b, v, c) by {
        if row_arc_sym(a, v, c) {
            let k = choose|k: int|
                0 <= k < a.len() && ((#[trigger] a[k]).to as int) == v && a[k].syms@.contains(c);
            assert((b[k].to as int) == v && b[k].syms@.contains(c));
        }
        if row_arc_sym(b, v, c) {
            let k = choose|k: int|
                0 <= k < b.len() && ((#[trigger] b[k]).to as int) == v && b[k].syms@.contains(c);
            assert((a[k].to as int) == v && a[k].syms@.contains(c));
        }
    }
    assert forall|v: int| #[trigger] row_has_arc(a, v) <==> row_has_arc(b, v) by {
        if row_has_arc(a, v) {
            let k = choose|k: int| 0 <= k < a.len() && ((#[trigger] a[k]).to as int) == v;
            assert((b[k].to as int) == v);
        }
        if row_has_arc(b, v) {
            let k = choose|k: int| 0 <= k < b.len() && ((#[trigger] b[k]).to as int) == v;
            assert((a[k].to as int) == v);
        }
    }
    assert forall|n: int| #[trigger] row_wf(a, n) <==> row_wf(b, n) by {
        if row_wf(a, n) {
            assert forall|k: int| 0 <= k < b.len() implies {
                &&& (#[trigger] b[k]).to < n
                &&& b[k].syms@.len() > 0
                &&& b[k].syms@.no_duplicates()
            } by {
                assert(a[k].to < n && a[k].syms@.len() > 0 && a[k].syms@.no_duplicates());
            }
            assert forall|k1: int, k2: int| 0 <= k1 < k2 < b.len() implies (#[trigger] b[k1]).to
                != (#[trigger] b[k2]).to by {
                assert(a[k1].to != a[k2].to);
            }
        }
        if row_wf(b, n) {
            assert forall|k: int| 0 <= k < a.len() implies {
                &&& (#[trigger] a[k]).to < n
                &&& a[k].syms@.len() > 0
                &&& a[k].syms@.no_duplicates()
            } by {
                assert(b[k].to < n && b[k].syms@.len() > 0 && b[k].syms@.no_duplicates());
            }
            assert forall|k1: int, k2: int| 0 <= k1 < k2 < a.len() implies (#[trigger] a[k1]).to
                != (#[trigger] a[k2]).to by {
                assert(b[k1].to != b[k2].to);
            }
        }
    }
}

/// The edge relation of a plain adjacency structure, as used by the
/// reachability wrappers.
pub open spec fn adj_rel(adj: Seq<Seq<usize>>) -> spec_fn(int, int) -> bool {
    |u: int, v: int| 0 <= u < adj.len() && seq_has(adj[u], v)
}

/// `v` is reachable from `u` in the adjacency structure `adj`.
pub open spec fn adj_reaches(adj: Seq<Seq<usize>>, u: int, v: int) -> bool {
    reaches(adj_rel(adj), u, v)
}

} // verus!
