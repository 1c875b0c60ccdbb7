//! Sort orders over the columns of a plan's output.
use vstd::prelude::*;

verus! {

/// The direction of one sort key.
#[derive(Debug, Clone, Copy, PartialEq, Eq, Structural)]
pub enum Direction {
    Asc,
    Desc,
    Any,
}

/// One sort key: a column index and its direction.
#[derive(Debug, Clone, Copy, PartialEq, Eq, Structural)]
pub struct FieldOrder {
    pub index: usize,
    pub direct: Direction,
}

/// A sort order: the sort keys, most significant first.
#[derive(Debug)]
pub struct Order {
    pub field_order: Vec<FieldOrder>,
}

/// `required` is a prefix of `provided`: data sorted by `provided` is also
/// sorted by `required`.
pub open spec fn order_satisfies(provided: Seq<FieldOrder>, required: Seq<FieldOrder>) -> bool {
    &&& required.len() <= provided.len()
    &&& forall|i: int| 0 <= i < required.len() ==> #[trigger] provided[i] == required[i]
}

impl Order {
    /// The order that asks for nothing.
    pub fn any() -> (o: Order)
        ensures
            o.field_order@ == Seq::<FieldOrder>::empty(),
    {
        Order { field_order: Vec::new() }
    }

    /// An order with the given sort keys.
    pub fn new(field_order: Vec<FieldOrder>) -> (o: Order)
        ensures
            o.field_order@ == field_order@,
    {
        Order { field_order }
    }

    /// A copy of this order.
    pub fn copy(&self) -> (o: Order)
        ensures
            o.field_order@ == self.field_order@,
    {
        let mut v: Vec<FieldOrder> = Vec::new();
        let mut i: usize = 0;
        while i < self.field_order.len()
            invariant
                i <= self.field_order@.len(),
                v@ == self.field_order@.take(i as int),
            decreases self.field_order.len() - i,
        {
            v.push(self.field_order[i]);
            i = i + 1;
            assert(v@ =~= self.field_order@.take(i as int));
        }
        assert(self.field_order@.take(i as int) =~= self.field_order@);
        Order { field_order: v }
    }

    /// Whether data in this order is also in the `other` order: `other`'s keys
    /// are the first keys of this one.
    pub fn satisfies(&self, other: &Order) -> (r: bool)
        ensures
            r == order_satisfies(self.field_order@, other.field_order@),
            r == (other.field_order@.len() <= self.field_order@.len() && other.field_order@
                == self.field_order@.take(other.field_order@.len() as int)),
    {
        if self.field_order.len() < other.field_order.len() {
            return false;
        }
        let mut i: usize = 0;
        while i < other.field_order.len()
            invariant
                i <= other.field_order@.len(),
                other.field_order@.len() <= self.field_order@.len(),
                forall|j: int| 0 <= j < i ==> #[trigger] self.field_order@[j] == other.field_order@[j],
            decreases other.field_order.len() - i,
        {
            if self.field_order[i] != other.field_order[i] {
                return false;
            }
            i = i + 1;
        }
        assert(other.field_order@ =~= self.field_order@.take(other.field_order@.len() as int));
        true
    }
}

/// An order is satisfied exactly by the orders that begin with its keys:
/// `required` is a prefix of `provided`, key for key.
pub proof fn lemma_satisfies_is_prefix(provided: Seq<FieldOrder>, required: Seq<FieldOrder>)
    ensures
        order_satisfies(provided, required) <==> (required.len() <= provided.len() && required
            == provided.take(required.len() as int)),
{
    if required.len() <= provided.len() && required == provided.take(required.len() as int) {
        assert forall|i: int| 0 <= i < required.len() implies #[trigger] provided[i] == required[i] by {
            assert(provided.take(required.len() as int)[i] == provided[i]);
        }
    }
    if order_satisfies(provided, required) {
        assert(required =~= provided.take(required.len() as int));
    }
}

/// Every order satisfies the order that asks for nothing.
pub proof fn lemma_satisfies_any(provided: Seq<FieldOrder>)
    ensures
        order_satisfies(provided, Seq::empty()),
{
}

/// Every order satisfies itself.
pub proof fn lemma_satisfies_reflexive(o: Seq<FieldOrder>)
    ensures
        order_satisfies(o, o),
{
}

/// Satisfying orders chain: data in order `a` that satisfies `b`, where `b`
/// satisfies `c`, is in order `c`.
pub proof fn lemma_satisfies_transitive(a: Seq<FieldOrder>, b: Seq<FieldOrder>, c: Seq<FieldOrder>)
    requires
        order_satisfies(a, b),
        order_satisfies(b, c),
    ensures
        order_satisfies(a, c),
{
    assert forall|i: int| 0 <= i < c.len() implies #[trigger] a[i] == c[i] by {
        assert(a[i] == b[i]);
    }
}

} // verus!
