//! Cardinality of families of distinct bit vectors, which bounds the
//! subset construction's work.

use vstd::prelude::*;
use vstd::seq_lib::*;
use vstd::set_lib::{lemma_int_range, lemma_len_subset, set_int_range};

verus! {

/// Two to the power `n`.
pub open spec fn two_to(n: nat) -> nat
    decreases n,
{
    if n == 0 {
        1
    } else {
        2 * two_to((n - 1) as nat)
    }
}

/// The number encoded by a bit vector, lowest bit first.
pub open spec fn bits_val(s: Seq<bool>) -> nat
    decreases s.len(),
{
    if s.len() == 0 {
        0
    } else {
        (if s[0] {
            1nat
        } else {
            0nat
        }) + 2 * bits_val(s.drop_first())
    }
}

proof fn lemma_bits_val_bound(s: Seq<bool>)
    ensures
        bits_val(s) < two_to(s.len()),
    decreases s.len(),
{
    if s.len() > 0 {
        lemma_bits_val_bound(s.drop_first());
    }
}

proof fn lemma_bits_val_inj(a: Seq<bool>, b: Seq<bool>)
    requires
        a.len() == b.len(),
        bits_val(a) == bits_val(b),
    ensures
        a == b,
    decreases a.len(),
{
    if a.len() == 0 {
        assert(a =~= b);
    } else {
        assert(a[0] == b[0]);
        lemma_bits_val_inj(a.drop_first(), b.drop_first());
        assert forall|i: int| 0 <= i < a.len() implies a[i] == b[i] by {
            if i > 0 {
                assert(a.drop_first()[i - 1] == b.drop_first()[i - 1]);
            }
        }
        assert(a =~= b);
    }
}

/// A family of pairwise distinct bit vectors of length `n` has at most
/// `2^n` members.
pub proof fn lemma_distinct_bitvecs_bound(seen: Seq<Seq<bool>>, n: nat)
    requires
        forall|i: int| 0 <= i < seen.len() ==> (#[trigger] seen[i]).len() == n,
        forall|i: int, j: int|
            0 <= i < j < seen.len() ==> (#[trigger] seen[i]) != (#[trigger] seen[j]),
    ensures
        seen.len() <= two_to(n),
{
    let vals = Seq::new(seen.len(), |i: int| bits_val(seen[i]) as int);
    assert forall|i: int, j: int| 0 <= i < j < vals.len() implies vals[i] != vals[j] by {
        if bits_val(seen[i]) == bits_val(seen[j]) {
            lemma_bits_val_inj(seen[i], seen[j]);
        }
    }
    assert(vals.no_duplicates());
    vals.unique_seq_to_set();
    let rng = set_int_range(0, two_to(n) as int);
    assert forall|x: int| vals.to_set().contains(x) implies rng.contains(x) by {
        let i = choose|i: int| 0 <= i < vals.len() && vals[i] == x;
        lemma_bits_val_bound(seen[i]);
    }
    lemma_int_range(0, two_to(n) as int);
    lemma_len_subset(vals.to_set(), rng);
}

} // verus!
