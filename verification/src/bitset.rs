//! The column sets of the optimizer, kept in `fixedbitset::FixedBitSet`.
//!
//! A bit set is known to the proofs by two names: the set of its enabled bits
//! and its length in bits.  Every enabled bit is below the length.
use vstd::prelude::*;

verus! {

#[verifier::external_type_specification]
#[verifier::external_body]
pub struct ExFixedBitSet(fixedbitset::FixedBitSet);

/// The enabled bits of a bit set.
pub uninterp spec fn bitset_ones(b: fixedbitset::FixedBitSet) -> Set<usize>;

/// The length of a bit set in bits, enabled and disabled.
pub uninterp spec fn bitset_len(b: fixedbitset::FixedBitSet) -> nat;

/// Every enabled bit lies below the length.
pub open spec fn bitset_wf(b: fixedbitset::FixedBitSet) -> bool {
    forall|x: usize| #[trigger] bitset_ones(b).contains(x) ==> (x as nat) < bitset_len(b)
}

/// One more than the largest element of `s`, or 0 for an empty `s`: the
/// length that a bit set grows to when the elements of `s` are enabled.
pub open spec fn seq_bound(s: Seq<usize>) -> nat
    decreases s.len(),
{
    if s.len() == 0 {
        0
    } else {
        let rest = seq_bound(s.drop_last());
        if (s.last() as nat) + 1 > rest {
            (s.last() as nat) + 1
        } else {
            rest
        }
    }
}

/// The larger of two lengths.
pub open spec fn max_nat(a: nat, b: nat) -> nat {
    if a >= b {
        a
    } else {
        b
    }
}

/// Every element of `s` lies below `seq_bound(s)`, and the bound of a
/// sequence is 0 or one more than one of its elements.
pub proof fn lemma_seq_bound(s: Seq<usize>)
    ensures
        forall|i: int| 0 <= i < s.len() ==> (#[trigger] s[i] as nat) < seq_bound(s),
        seq_bound(s) == 0 || exists|i: int| 0 <= i < s.len() && seq_bound(s) == (s[i] as nat) + 1,
    decreases s.len(),
{
    if s.len() > 0 {
        lemma_seq_bound(s.drop_last());
        assert forall|i: int| 0 <= i < s.len() implies (#[trigger] s[i] as nat) < seq_bound(s) by {
            if i < s.len() - 1 {
                assert(s[i] == s.drop_last()[i]);
            }
        }
        if seq_bound(s) != (s.last() as nat) + 1 && seq_bound(s) != 0 {
            let i = choose|i: int|
                0 <= i < s.drop_last().len() && seq_bound(s.drop_last()) == (
                s.drop_last()[i] as nat) + 1;
            assert(s[i] == s.drop_last()[i]);
        }
    }
}

/// A bit set built from a slice has its enabled bits below its length.
pub proof fn lemma_from_slice_wf(b: fixedbitset::FixedBitSet, bits: Seq<usize>)
    requires
        bitset_ones(b) == bits.to_set(),
        bitset_len(b) == seq_bound(bits),
    ensures
        bitset_wf(b),
{
    lemma_seq_bound(bits);
    assert forall|x: usize| #[trigger] bitset_ones(b).contains(x) implies (x as nat) < bitset_len(b) by {
        assert(bits.to_set().contains(x));
        let i = choose|i: int| 0 <= i < bits.len() && bits[i] == x;
        assert((bits[i] as nat) < seq_bound(bits));
    }
}

/// The members of `s` below `n`, in ascending order.
pub open spec fn ones_below(s: Set<usize>, n: nat) -> Seq<usize>
    decreases n,
{
    if n == 0 {
        Seq::empty()
    } else {
        let prev = ones_below(s, (n - 1) as nat);
        if s.contains((n - 1) as usize) {
            prev.push((n - 1) as usize)
        } else {
            prev
        }
    }
}

/// A bit set `bits` bits long with no bit enabled
/// (`FixedBitSet::with_capacity`).
#[verifier::external_body]
pub(crate) fn bitset_with_capacity(bits: usize) -> (b: fixedbitset::FixedBitSet)
    ensures
        bitset_ones(b) == Set::<usize>::empty(),
        bitset_len(b) == bits as nat,
{
    fixedbitset::FixedBitSet::with_capacity(bits)
}

/// A bit set with exactly the bits of `bits` enabled, one bit longer than
/// the largest of them (`FixedBitSet::from_iter`: it starts empty and grows
/// to `i + 1` bits for each bit `i` past its end).  No bit may be
/// `usize::MAX`, whose length would not fit in a `usize`.
#[verifier::external_body]
pub(crate) fn bitset_from_slice(bits: &[usize]) -> (b: fixedbitset::FixedBitSet)
    requires
        forall|i: int| 0 <= i < bits@.len() ==> (#[trigger] bits@[i]) < usize::MAX,
    ensures
        bitset_ones(b) == bits@.to_set(),
        bitset_len(b) == seq_bound(bits@),
{
    <fixedbitset::FixedBitSet as core::iter::FromIterator<usize>>::from_iter(bits.iter().copied())
}

/// Enables `bit`, which lies below the length; the length stays
/// (`FixedBitSet::insert`, which panics on a bit at or past the length).
#[verifier::external_body]
pub(crate) fn bitset_insert(b: &mut fixedbitset::FixedBitSet, bit: usize)
    requires
        (bit as nat) < bitset_len(*old(b)),
    ensures
        bitset_ones(*final(b)) == bitset_ones(*old(b)).insert(bit),
        bitset_len(*final(b)) == bitset_len(*old(b)),
{
    b.insert(bit)
}

/// Enables every bit of `bits`, growing the set to one bit past the largest
/// of them where it is shorter (`FixedBitSet::extend`).  No bit may be
/// `usize::MAX`, whose length would not fit in a `usize`.
#[verifier::external_body]
pub(crate) fn bitset_extend(b: &mut fixedbitset::FixedBitSet, bits: &[usize])
    requires
        forall|i: int| 0 <= i < bits@.len() ==> (#[trigger] bits@[i]) < usize::MAX,
    ensures
        bitset_ones(*final(b)) == bitset_ones(*old(b)).union(bits@.to_set()),
        bitset_len(*final(b)) == max_nat(bitset_len(*old(b)), seq_bound(bits@)),
{
    b.extend(bits.iter().copied())
}

/// Whether `bit` is enabled; false past the end (`FixedBitSet::contains`).
#[verifier::external_body]
pub(crate) fn bitset_contains(b: &fixedbitset::FixedBitSet, bit: usize) -> (r: bool)
    ensures
        r == bitset_ones(*b).contains(bit),
{
    b.contains(bit)
}

/// The length in bits (`FixedBitSet::len`).
#[verifier::external_body]
pub(crate) fn bitset_length(b: &fixedbitset::FixedBitSet) -> (r: usize)
    ensures
        r as nat == bitset_len(*b),
{
    b.len()
}

/// The enabled bits in ascending order, each once, collected from
/// `FixedBitSet::ones` (which walks the blocks from the first, and each block
/// from its lowest bit).
#[verifier::external_body]
pub(crate) fn bitset_ones_vec(b: &fixedbitset::FixedBitSet) -> (r: Vec<usize>)
    requires
        bitset_wf(*b),
    ensures
        r@ == ones_below(bitset_ones(*b), bitset_len(*b)),
{
    b.ones().collect()
}

} // verus!
