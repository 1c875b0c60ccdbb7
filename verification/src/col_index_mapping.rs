//! Mappings between the column indices of a plan's input and of its output.
use vstd::prelude::*;
use crate::bitset::{
    bitset_contains, bitset_len, bitset_length, bitset_ones, ones_below,
};
use crate::order::{FieldOrder, Order};

verus! {

/// A partial map from source column indices to target column indices.
pub struct ColIndexMapping {
    map: Vec<Option<usize>>,
    target_size: usize,
}

/// The mapping that keeps the columns in `kept` (all below `n`) and numbers
/// them anew in ascending order: column `i` goes to the count of kept columns
/// below it.
pub open spec fn remaining_map(kept: Set<usize>, n: nat) -> Seq<Option<usize>> {
    Seq::new(
        n,
        |i: int|
            if kept.contains(i as usize) {
                Some(ones_below(kept, i as nat).len() as usize)
            } else {
                None
            },
    )
}

/// A field order moved through a mapping (its index must be mapped).
pub open spec fn map_field(map: Seq<Option<usize>>, fo: FieldOrder) -> FieldOrder {
    FieldOrder { index: map[fo.index as int]->0, direct: fo.direct }
}

/// Every key of the order has a mapped index.
pub open spec fn maps_all(map: Seq<Option<usize>>, o: Seq<FieldOrder>) -> bool {
    forall|i: int|
        0 <= i < o.len() ==> (#[trigger] o[i]).index < map.len() && map[o[i].index as int] is Some
}

/// The order with each key moved through the mapping.
pub open spec fn map_order(map: Seq<Option<usize>>, o: Seq<FieldOrder>) -> Seq<FieldOrder> {
    Seq::new(o.len(), |i: int| map_field(map, o[i]))
}

impl ColIndexMapping {
    /// Where each source column goes, if anywhere.
    pub closed spec fn map_view(&self) -> Seq<Option<usize>> {
        self.map@
    }

    /// The number of target columns.
    pub closed spec fn target_view(&self) -> nat {
        self.target_size as nat
    }

    /// A mapping from its table and its target size.
    pub fn new(map: Vec<Option<usize>>, target_size: usize) -> (m: Self)
        ensures
            m.map_view() == map@,
            m.target_view() == target_size as nat,
    {
        ColIndexMapping { map, target_size }
    }

    /// The mapping that keeps the enabled columns of `cols` and numbers them
    /// anew in ascending order.
    pub fn with_remaining_columns(cols: &fixedbitset::FixedBitSet) -> (m: Self)
        ensures
            m.map_view() == remaining_map(bitset_ones(*cols), bitset_len(*cols)),
            m.target_view() == ones_below(bitset_ones(*cols), bitset_len(*cols)).len(),
    {
        let n = bitset_length(cols);
        let ghost kept = bitset_ones(*cols);
        let mut map: Vec<Option<usize>> = Vec::new();
        let mut count: usize = 0;
        let mut i: usize = 0;
        while i < n
            invariant
                i <= n,
                n as nat == bitset_len(*cols),
                kept == bitset_ones(*cols),
                count as nat == ones_below(kept, i as nat).len(),
                count <= i,
                map@ =~= remaining_map(kept, i as nat),
            decreases n - i,
        {
            if bitset_contains(cols, i) {
                map.push(Some(count));
                count = count + 1;
            } else {
                map.push(None);
            }
            i = i + 1;
            assert(map@ =~= remaining_map(kept, i as nat));
        }
        ColIndexMapping { map, target_size: count }
    }

    /// The number of source columns.
    pub fn source_size(&self) -> (r: usize)
        ensures
            r as nat == self.map_view().len(),
    {
        self.map.len()
    }

    /// The number of target columns.
    pub fn target_size(&self) -> (r: usize)
        ensures
            r as nat == self.target_view(),
    {
        self.target_size
    }

    /// Where `index` goes, if anywhere.
    pub fn try_map(&self, index: usize) -> (r: Option<usize>)
        ensures
            r == if (index as nat) < self.map_view().len() {
                self.map_view()[index as int]
            } else {
                None
            },
    {
        if index < self.map.len() {
            self.map[index]
        } else {
            None
        }
    }

    /// Where `index` goes; the caller knows it is mapped.
    pub fn map(&self, index: usize) -> (r: usize)
        requires
            (index as nat) < self.map_view().len(),
            self.map_view()[index as int] is Some,
        ensures
            Some(r) == self.map_view()[index as int],
    {
        match self.map[index] {
            Some(t) => t,
            None => 0,
        }
    }

    /// The order with each key's column moved through this mapping, or `None`
    /// when some key's column is not mapped.
    pub fn rewrite_required_order(&self, order: &Order) -> (r: Option<Order>)
        ensures
            match r {
                Some(o) => maps_all(self.map_view(), order.field_order@) && o.field_order@
                    == map_order(self.map_view(), order.field_order@),
                None => !maps_all(self.map_view(), order.field_order@),
            },
    {
        let mut fields: Vec<FieldOrder> = Vec::new();
        let mut i: usize = 0;
        while i < order.field_order.len()
            invariant
                i <= order.field_order@.len(),
                maps_all(self.map_view(), order.field_order@.take(i as int)),
                fields@ =~= map_order(self.map_view(), order.field_order@.take(i as int)),
            decreases order.field_order.len() - i,
        {
            let fo = order.field_order[i];
            match self.try_map(fo.index) {
                Some(t) => {
                    fields.push(FieldOrder { index: t, direct: fo.direct });
                },
                None => {
                    assert(order.field_order@[i as int] == fo);
                    return None;
                },
            }
            i = i + 1;
            assert(order.field_order@.take(i as int).drop_last() =~= order.field_order@.take(
                i - 1,
            ));
            assert(fields@ =~= map_order(self.map_view(), order.field_order@.take(i as int)));
        }
        assert(order.field_order@.take(i as int) =~= order.field_order@);
        Some(Order::new(fields))
    }
}


/// There are at most `n` members below `n`.
pub proof fn lemma_ones_below_len(kept: Set<usize>, n: nat)
    ensures
        ones_below(kept, n).len() <= n,
    decreases n,
{
    if n > 0 {
        lemma_ones_below_len(kept, (n - 1) as nat);
    }
}

/// Counting members below a bound grows with the bound, strictly past a member.
pub proof fn lemma_ones_below_monotone(kept: Set<usize>, a: nat, b: nat)
    requires
        a <= b <= usize::MAX as nat + 1,
    ensures
        ones_below(kept, a).len() <= ones_below(kept, b).len(),
        a < b && kept.contains(a as usize) ==> ones_below(kept, a).len() < ones_below(kept, b).len(),
    decreases b,
{
    if a < b {
        lemma_ones_below_monotone(kept, a, (b - 1) as nat);
    }
}

/// The `j`-th member below `n` in ascending order is a member, and exactly
/// `j` members lie below it.
pub proof fn lemma_ones_below_rank(kept: Set<usize>, n: nat, j: int)
    requires
        n <= usize::MAX as nat + 1,
        0 <= j < ones_below(kept, n).len(),
    ensures
        kept.contains(ones_below(kept, n)[j]),
        (ones_below(kept, n)[j] as nat) < n,
        ones_below(kept, ones_below(kept, n)[j] as nat).len() == j,
    decreases n,
{
    let prev = ones_below(kept, (n - 1) as nat);
    if j < prev.len() {
        lemma_ones_below_rank(kept, (n - 1) as nat, j);
    } else {
        assert(ones_below(kept, n)[j] == (n - 1) as usize);
    }
}

/// Keeping columns preserves their relative order: of two kept columns the
/// smaller goes to the smaller number, and every kept column goes below the
/// number of kept columns.
pub proof fn lemma_remaining_map_order_preserving(kept: Set<usize>, n: nat, a: int, b: int)
    requires
        0 <= a < b < n <= usize::MAX as nat + 1,
        kept.contains(a as usize),
        kept.contains(b as usize),
    ensures
        remaining_map(kept, n)[a]->0 < remaining_map(kept, n)[b]->0,
        (remaining_map(kept, n)[b]->0 as nat) < ones_below(kept, n).len(),
{
    lemma_ones_below_monotone(kept, a as nat, b as nat);
    lemma_ones_below_monotone(kept, b as nat, n);
    lemma_ones_below_len(kept, a as nat);
    lemma_ones_below_len(kept, b as nat);
}

/// Keeping columns numbers them without gaps: every number below the count of
/// kept columns is where exactly one kept column goes.
pub proof fn lemma_remaining_map_onto(kept: Set<usize>, n: nat, j: int)
    requires
        n <= usize::MAX as nat + 1,
        0 <= j < ones_below(kept, n).len(),
    ensures
        exists|c: int| 0 <= c < n && remaining_map(kept, n)[c] == Some(j as usize),
        forall|c: int, d: int|
            0 <= c < n && 0 <= d < n && remaining_map(kept, n)[c] == Some(j as usize)
                && remaining_map(kept, n)[d] == Some(j as usize) ==> c == d,
{
    lemma_ones_below_rank(kept, n, j);
    lemma_ones_below_len(kept, n);
    let c = ones_below(kept, n)[j] as int;
    assert(remaining_map(kept, n)[c] == Some(j as usize));
    assert forall|c: int, d: int|
        0 <= c < n && 0 <= d < n && remaining_map(kept, n)[c] == Some(j as usize)
            && remaining_map(kept, n)[d] == Some(j as usize) implies c == d by {
        if c < d {
            lemma_remaining_map_order_preserving(kept, n, c, d);
        } else if d < c {
            lemma_remaining_map_order_preserving(kept, n, d, c);
        }
    }
}

} // verus!
