//! The logical Top-N plan node, and the few plan nodes it builds.
//!
//! A plan is a tree of shared nodes.  Nodes of kinds defined elsewhere in the
//! optimizer appear here as `PlanNode::Other`, known only by their base.
use vstd::prelude::*;
use std::rc::Rc;
use crate::bitset::{
    bitset_extend, bitset_from_slice, bitset_insert, bitset_len, bitset_ones, bitset_ones_vec,
    bitset_with_capacity, lemma_from_slice_wf, lemma_seq_bound, max_nat, ones_below, seq_bound,
};
use crate::col_index_mapping::{lemma_ones_below_len, lemma_remaining_map_order_preserving, maps_all, map_order, remaining_map, ColIndexMapping};
use crate::order::{lemma_satisfies_any, order_satisfies, FieldOrder, Order};
use crate::catalog::{Field, Schema};

verus! {

/// The optimizer's state, shared by the nodes of one plan.
#[derive(Debug)]
pub struct OptimizerContext {
    pub session_id: u64,
}

/// A shared reference to the optimizer's state.
pub type OptimizerContextRef = Rc<OptimizerContext>;

/// How a plan's output rows are spread over the compute nodes.
#[derive(Debug)]
pub enum Distribution {
    /// No requirement, as for logical plans.
    Any,
    /// All rows on a single node.
    Single,
    /// Every row on every node.
    Broadcast,
    /// Spread over the nodes in some way.
    AnyShard,
    /// Spread over the nodes by some key.
    SomeShard,
    /// Spread over the nodes by the hash of these columns.
    HashShard(Vec<usize>),
}

/// Two distributions are the same.
pub open spec fn same_dist(a: Distribution, b: Distribution) -> bool {
    match (a, b) {
        (Distribution::HashShard(x), Distribution::HashShard(y)) => x@ == y@,
        (Distribution::HashShard(_), _) => false,
        (_, Distribution::HashShard(_)) => false,
        _ => a == b,
    }
}

/// A copy of a list of column indices.
fn copy_indices(v: &Vec<usize>) -> (r: Vec<usize>)
    ensures
        r@ == v@,
{
    let mut r: Vec<usize> = Vec::new();
    let mut i: usize = 0;
    while i < v.len()
        invariant
            i <= v@.len(),
            r@ == v@.take(i as int),
        decreases v.len() - i,
    {
        r.push(v[i]);
        i = i + 1;
        assert(r@ =~= v@.take(i as int));
    }
    assert(v@.take(i as int) =~= v@);
    r
}

impl Distribution {
    /// A copy of this distribution.
    pub fn copy(&self) -> (d: Distribution)
        ensures
            same_dist(d, *self),
    {
        match self {
            Distribution::Any => Distribution::Any,
            Distribution::Single => Distribution::Single,
            Distribution::Broadcast => Distribution::Broadcast,
            Distribution::AnyShard => Distribution::AnyShard,
            Distribution::SomeShard => Distribution::SomeShard,
            Distribution::HashShard(keys) => Distribution::HashShard(copy_indices(keys)),
        }
    }
}

/// What every plan node knows of its output: the optimizer it belongs to, its
/// columns, the columns of its primary key, and how its rows are spread.
#[derive(Debug)]
pub struct PlanBase {
    pub ctx: OptimizerContextRef,
    pub schema: Schema,
    pub pk_indices: Vec<usize>,
    pub dist: Distribution,
}

/// Two bases describe the same output: same optimizer, same columns, same key.
pub open spec fn same_output(a: PlanBase, b: PlanBase) -> bool {
    &&& a.ctx == b.ctx
    &&& a.schema.fields@ == b.schema.fields@
    &&& a.pk_indices@ == b.pk_indices@
}

impl PlanBase {
    /// The base of a logical node: no distribution asked for.
    pub fn new_logical(ctx: OptimizerContextRef, schema: Schema, pk_indices: Vec<usize>) -> (b: PlanBase)
        ensures
            b.ctx == ctx,
            b.schema == schema,
            b.pk_indices == pk_indices,
            b.dist is Any,
    {
        PlanBase { ctx, schema, pk_indices, dist: Distribution::Any }
    }

    /// The base of a batch node: no primary key.
    pub fn new_batch(ctx: OptimizerContextRef, schema: Schema, dist: Distribution) -> (b: PlanBase)
        ensures
            b.ctx == ctx,
            b.schema == schema,
            b.pk_indices@ == Seq::<usize>::empty(),
            b.dist == dist,
    {
        PlanBase { ctx, schema, pk_indices: Vec::new(), dist }
    }

    /// The base of a streaming node.
    pub fn new_stream(
        ctx: OptimizerContextRef,
        schema: Schema,
        pk_indices: Vec<usize>,
        dist: Distribution,
    ) -> (b: PlanBase)
        ensures
            b.ctx == ctx,
            b.schema == schema,
            b.pk_indices == pk_indices,
            b.dist == dist,
    {
        PlanBase { ctx, schema, pk_indices, dist }
    }
}

/// A shared reference to a plan node.
pub type PlanRef = Rc<PlanNode>;

/// A node of a query plan.
pub enum PlanNode {
    /// A node of a kind defined elsewhere in the optimizer.
    Other(PlanBase),
    LogicalTopN(LogicalTopN),
    BatchTopN(BatchTopN),
    StreamTopN(StreamTopN),
    LogicalProject(LogicalProject),
    BatchSort(BatchSort),
}

/// The base of a plan node.
pub open spec fn node_base(n: PlanNode) -> PlanBase {
    match n {
        PlanNode::Other(b) => b,
        PlanNode::LogicalTopN(t) => t.base_view(),
        PlanNode::BatchTopN(t) => t.base,
        PlanNode::StreamTopN(t) => t.base,
        PlanNode::LogicalProject(p) => p.base,
        PlanNode::BatchSort(s) => s.base,
    }
}

impl PlanNode {
    /// The base of this node.
    pub fn base(&self) -> (b: &PlanBase)
        ensures
            *b == node_base(*self),
    {
        match self {
            PlanNode::Other(b) => b,
            PlanNode::LogicalTopN(t) => &t.base,
            PlanNode::BatchTopN(t) => &t.base,
            PlanNode::StreamTopN(t) => &t.base,
            PlanNode::LogicalProject(p) => &p.base,
            PlanNode::BatchSort(s) => &s.base,
        }
    }
}

/// Another reference to the same shared value (`Rc::clone`).
#[verifier::external_body]
fn share<T>(p: &Rc<T>) -> (r: Rc<T>)
    ensures
        r == *p,
{
    Rc::clone(p)
}

/// The primary key of a projection: the input's key columns moved through
/// the mapping, or no key when some key column is dropped.
pub open spec fn projected_pk(map: Seq<Option<usize>>, pk: Seq<usize>) -> Seq<usize> {
    if forall|i: int| 0 <= i < pk.len() ==> (#[trigger] pk[i] as nat) < map.len() && map[pk[i] as int] is Some {
        Seq::new(pk.len(), |i: int| map[pk[i] as int]->0)
    } else {
        Seq::empty()
    }
}

/// The columns that a projection keeps: those of its input that the mapping
/// maps, in the input's order.
pub open spec fn projected_fields(map: Seq<Option<usize>>, fields: Seq<Field>) -> Seq<Field>
    decreases map.len(),
{
    if map.len() == 0 {
        Seq::empty()
    } else {
        let rest = projected_fields(map.drop_last(), fields);
        if map.last() is Some {
            rest.push(fields[map.len() - 1])
        } else {
            rest
        }
    }
}

/// Every column that the mapping maps is a column of an input of `width`.
pub open spec fn mapped_below(map: Seq<Option<usize>>, width: nat) -> bool {
    forall|s: int| 0 <= s < map.len() && (#[trigger] map[s]) is Some ==> s < width
}

/// A projection that keeps and renumbers columns of its input.
pub struct LogicalProject {
    pub base: PlanBase,
    pub input: PlanRef,
    pub mapping: ColIndexMapping,
}

impl LogicalProject {
    /// The projection of `input` along `mapping`: it outputs the input's
    /// mapped columns.  Every mapped column must be a column of the input.
    pub fn with_mapping(input: PlanRef, mapping: ColIndexMapping) -> (r: PlanRef)
        requires
            mapped_below(mapping.map_view(), node_base(*input).schema.fields@.len()),
        ensures
            match *r {
                PlanNode::LogicalProject(p) => {
                    &&& p.input == input
                    &&& p.mapping == mapping
                    &&& p.base.ctx == node_base(*input).ctx
                    &&& p.base.schema.fields@ == projected_fields(mapping.map_view(), node_base(*input).schema.fields@)
                    &&& p.base.pk_indices@ == projected_pk(mapping.map_view(), node_base(*input).pk_indices@)
                    &&& p.base.dist is Any
                },
                _ => false,
            },
    {
        let input_base = input.base();
        let input_pk = &input_base.pk_indices;
        let ghost fields = input_base.schema.fields@;
        let mut pk: Vec<usize> = Vec::new();
        let mut i: usize = 0;
        let mut all_mapped = true;
        while i < input_pk.len()
            invariant
                i <= input_pk@.len(),
                input_pk@ == node_base(*input).pk_indices@,
                all_mapped ==> pk@ =~= Seq::new(i as nat, |k: int| mapping.map_view()[input_pk@[k] as int]->0),
                all_mapped ==> forall|k: int| 0 <= k < i ==> (#[trigger] input_pk@[k] as nat) < mapping.map_view().len() && mapping.map_view()[input_pk@[k] as int] is Some,
                !all_mapped ==> exists|k: int| 0 <= k < input_pk@.len() && !((#[trigger] input_pk@[k] as nat) < mapping.map_view().len() && mapping.map_view()[input_pk@[k] as int] is Some),
            decreases input_pk.len() - i,
        {
            if all_mapped {
                match mapping.try_map(input_pk[i]) {
                    Some(t) => {
                        pk.push(t);
                    },
                    None => {
                        all_mapped = false;
                        assert(!((input_pk@[i as int] as nat) < mapping.map_view().len() && mapping.map_view()[input_pk@[i as int] as int] is Some));
                    },
                }
            }
            i = i + 1;
        }
        let pk = if all_mapped { pk } else { Vec::new() };
        let n = mapping.source_size();
        let mut out: Vec<Field> = Vec::new();
        let mut s: usize = 0;
        while s < n
            invariant
                s <= n,
                n as nat == mapping.map_view().len(),
                fields == input_base.schema.fields@,
                mapped_below(mapping.map_view(), fields.len()),
                out@ == projected_fields(mapping.map_view().take(s as int), fields),
            decreases n - s,
        {
            assert(mapping.map_view().take(s + 1).drop_last() =~= mapping.map_view().take(s as int));
            if mapping.try_map(s).is_some() {
                out.push(input_base.schema.fields[s].copy());
            }
            s = s + 1;
        }
        assert(mapping.map_view().take(s as int) =~= mapping.map_view());
        let base = PlanBase::new_logical(share(&input_base.ctx), Schema { fields: out }, pk);
        Rc::new(PlanNode::LogicalProject(LogicalProject { base, input, mapping }))
    }
}

/// A batch sort that enforces an order on its input.
pub struct BatchSort {
    pub base: PlanBase,
    pub input: PlanRef,
    pub order: Order,
}

/// Puts `plan` in `order` by a batch sort above it.
pub fn enforce(order: &Order, plan: PlanRef) -> (r: PlanRef)
    ensures
        match *r {
            PlanNode::BatchSort(s) => {
                &&& s.input == plan
                &&& s.order.field_order@ == order.field_order@
                &&& s.base.ctx == node_base(*plan).ctx
                &&& s.base.schema.fields@ == node_base(*plan).schema.fields@
                &&& s.base.pk_indices@ == Seq::<usize>::empty()
                &&& same_dist(s.base.dist, node_base(*plan).dist)
            },
            _ => false,
        },
{
    let b = plan.base();
    let base = PlanBase::new_batch(share(&b.ctx), b.schema.copy(), b.dist.copy());
    Rc::new(PlanNode::BatchSort(BatchSort { base, input: plan, order: order.copy() }))
}

/// The batch Top-N operator, built from a logical one.
pub struct BatchTopN {
    pub base: PlanBase,
    pub logical: LogicalTopN,
}

/// The streaming Top-N operator, built from a logical one.
pub struct StreamTopN {
    pub base: PlanBase,
    pub logical: LogicalTopN,
}

/// `LogicalTopN` sorts the input data and fetches up to `limit` rows from
/// `offset`.
pub struct LogicalTopN {
    pub base: PlanBase,
    input: PlanRef,
    limit: usize,
    offset: usize,
    order: Order,
}

/// `t` is the Top-N node over `input` with these parameters; its output has
/// the input's columns and key, and it asks for no distribution.
pub open spec fn is_topn(
    t: LogicalTopN,
    input: PlanRef,
    limit: usize,
    offset: usize,
    order: Seq<FieldOrder>,
) -> bool {
    &&& t.input_view() == input
    &&& t.limit_view() == limit
    &&& t.offset_view() == offset
    &&& t.order_view() == order
    &&& same_output(t.base_view(), node_base(*input))
    &&& t.base_view().dist is Any
}

/// `b` is the batch Top-N built from the logical node `t`: the logical
/// node's columns, no key, and the distribution of its input.
pub open spec fn is_batch_topn(b: BatchTopN, t: LogicalTopN) -> bool {
    &&& b.logical == t
    &&& b.base.ctx == t.base_view().ctx
    &&& b.base.schema.fields@ == t.base_view().schema.fields@
    &&& b.base.pk_indices@ == Seq::<usize>::empty()
    &&& same_dist(b.base.dist, node_base(*t.input_view()).dist)
}

/// `s` is the streaming Top-N built from the logical node `t`: the logical
/// node's columns and key, and the distribution of its input.
pub open spec fn is_stream_topn(s: StreamTopN, t: LogicalTopN) -> bool {
    &&& s.logical == t
    &&& same_output(s.base, t.base_view())
    &&& same_dist(s.base.dist, node_base(*t.input_view()).dist)
}

impl BatchTopN {
    pub fn new(logical: LogicalTopN) -> (b: BatchTopN)
        ensures
            is_batch_topn(b, logical),
    {
        let lb = &logical.base;
        let dist = logical.input.base().dist.copy();
        let base = PlanBase::new_batch(share(&lb.ctx), lb.schema.copy(), dist);
        BatchTopN { base, logical }
    }
}

impl StreamTopN {
    pub fn new(logical: LogicalTopN) -> (s: StreamTopN)
        ensures
            is_stream_topn(s, logical),
    {
        let lb = &logical.base;
        let dist = logical.input.base().dist.copy();
        let base = PlanBase::new_stream(share(&lb.ctx), lb.schema.copy(), copy_indices(&lb.pk_indices), dist);
        StreamTopN { base, logical }
    }
}

/// The columns of `fields` at `cols`, in the order of `cols`.
pub open spec fn pruned_fields(fields: Seq<Field>, cols: Seq<usize>) -> Seq<Field> {
    Seq::new(cols.len(), |i: int| fields[cols[i] as int])
}

/// Each element is smaller than the next.
pub open spec fn strictly_increasing(s: Seq<usize>) -> bool {
    forall|i: int, j: int| 0 <= i < j < s.len() ==> s[i] < s[j]
}

/// The columns that the keys of an order sort by.
pub open spec fn order_columns(o: Seq<FieldOrder>) -> Set<usize> {
    Set::new(|c: usize| exists|i: int| 0 <= i < o.len() && (#[trigger] o[i]).index == c)
}

/// Every key of the order sorts by a column below `n`.
pub open spec fn order_below(o: Seq<FieldOrder>, n: nat) -> bool {
    forall|i: int| 0 <= i < o.len() ==> ((#[trigger] o[i]).index as nat) < n
}

/// The columns that the Top-N node needs of its input to give
/// `required`: those asked for and those it sorts by.
pub open spec fn spec_input_required_cols(required: Seq<usize>, o: Seq<FieldOrder>) -> Set<usize> {
    required.to_set().union(order_columns(o))
}

/// The mapping from the Top-N node's columns to the columns it keeps.
pub open spec fn prune_mapping(required: Seq<usize>, o: Seq<FieldOrder>) -> Seq<Option<usize>> {
    remaining_map(spec_input_required_cols(required, o), seq_bound(required))
}

/// The kept columns in ascending order.
pub open spec fn prune_kept_cols(required: Seq<usize>, o: Seq<FieldOrder>) -> Seq<usize> {
    ones_below(spec_input_required_cols(required, o), seq_bound(required))
}

/// The asked-for columns, numbered as the pruned Top-N node outputs them.
pub open spec fn prune_mapped_required(required: Seq<usize>, o: Seq<FieldOrder>) -> Seq<usize> {
    Seq::new(required.len(), |i: int| prune_mapping(required, o)[required[i] as int]->0)
}

/// The columns that the projection above the pruned Top-N node keeps, and the
/// width it starts from.
pub open spec fn project_kept(required: Seq<usize>, o: Seq<FieldOrder>) -> Set<usize> {
    prune_mapped_required(required, o).to_set()
}

pub open spec fn project_width(required: Seq<usize>, o: Seq<FieldOrder>, topn_width: nat) -> nat {
    max_nat(topn_width, seq_bound(prune_mapped_required(required, o)))
}

impl LogicalTopN {
    pub closed spec fn base_view(&self) -> PlanBase {
        self.base
    }

    pub closed spec fn input_view(&self) -> PlanRef {
        self.input
    }

    pub closed spec fn limit_view(&self) -> usize {
        self.limit
    }

    pub closed spec fn offset_view(&self) -> usize {
        self.offset
    }

    /// The columns of the input.
    spec fn input_fields(&self) -> Seq<Field> {
        node_base(*self.input).schema.fields@
    }

    pub closed spec fn order_view(&self) -> Seq<FieldOrder> {
        self.order.field_order@
    }

    /// The Top-N node over `input`; its output has the input's columns and key.
    pub fn new(input: PlanRef, limit: usize, offset: usize, order: Order) -> (t: Self)
        ensures
            is_topn(t, input, limit, offset, order.field_order@),
    {
        let ib = input.base();
        let base = PlanBase::new_logical(share(&ib.ctx), ib.schema.copy(), copy_indices(&ib.pk_indices));
        LogicalTopN { base, input, limit, offset, order }
    }

    /// The Top-N node over `input`, as a plan.
    pub fn create(input: PlanRef, limit: usize, offset: usize, order: Order) -> (r: PlanRef)
        ensures
            match *r {
                PlanNode::LogicalTopN(t) => is_topn(t, input, limit, offset, order.field_order@),
                _ => false,
            },
    {
        Rc::new(PlanNode::LogicalTopN(Self::new(input, limit, offset, order)))
    }

    /// The columns of the node's output.
    pub fn schema(&self) -> (r: &Schema)
        ensures
            *r == self.base_view().schema,
    {
        &self.base.schema
    }

    /// The primary key of the node's output.
    pub fn pk_indices(&self) -> (r: &Vec<usize>)
        ensures
            *r == self.base_view().pk_indices,
    {
        &self.base.pk_indices
    }

    /// The optimizer the node belongs to.
    pub fn ctx(&self) -> (r: OptimizerContextRef)
        ensures
            r == self.base_view().ctx,
    {
        share(&self.base.ctx)
    }

    pub fn limit(&self) -> (r: usize)
        ensures
            r == self.limit_view(),
    {
        self.limit
    }

    pub fn offset(&self) -> (r: usize)
        ensures
            r == self.offset_view(),
    {
        self.offset
    }

    /// The order of the Top-N operator.  `order()` of a plan would give the
    /// order of the operator's output, which is never guaranteed for a
    /// streaming query, while `topn_order()` is what the operator sorts by.
    pub fn topn_order(&self) -> (r: &Order)
        ensures
            r.field_order@ == self.order_view(),
    {
        &self.order
    }

    /// The input plan.
    pub fn input(&self) -> (r: PlanRef)
        ensures
            r == self.input_view(),
    {
        share(&self.input)
    }

    /// The same Top-N over another input.
    pub fn clone_with_input(&self, input: PlanRef) -> (t: Self)
        ensures
            is_topn(t, input, self.limit_view(), self.offset_view(), self.order_view()),
    {
        Self::new(input, self.limit, self.offset, self.order.copy())
    }

    /// The same Top-N over an input whose columns were renumbered by
    /// `input_col_change`; the sort keys follow their columns.  Every sort
    /// column must survive the renumbering.
    pub fn rewrite_with_input(&self, input: PlanRef, input_col_change: ColIndexMapping) -> (r: (
        Self,
        ColIndexMapping,
    ))
        requires
            maps_all(input_col_change.map_view(), self.order_view()),
        ensures
            is_topn(
                r.0,
                input,
                self.limit_view(),
                self.offset_view(),
                map_order(input_col_change.map_view(), self.order_view()),
            ),
            r.1 == input_col_change,
    {
        let new_order = match input_col_change.rewrite_required_order(&self.order) {
            Some(o) => o,
            None => Order::any(),
        };
        (Self::new(input, self.limit, self.offset, new_order), input_col_change)
    }

    /// The Top-N node that outputs only `required_cols`.  `new_input` is the
    /// input pruned to `required_cols`: its columns are the input's columns
    /// at `required_cols`, in that order.
    ///
    /// The node keeps the asked-for columns and the columns it sorts by, and
    /// renumbers its sort keys into them; when that is another arrangement
    /// than `required_cols`, a projection above it keeps the asked-for
    /// columns.  Every sort column must lie below one more than the largest
    /// asked-for column, as the bit set of kept columns is only that long;
    /// and the kept columns may be no more than the asked-for ones, as the
    /// projection can only keep columns that the pruned input has.
    pub fn prune_col(&self, required_cols: &[usize], new_input: PlanRef) -> (r: PlanRef)
        requires
            forall|i: int|
                0 <= i < required_cols@.len() ==> ((#[trigger] required_cols@[i]) as nat)
                    < node_base(*self.input_view()).schema.fields@.len(),
            order_below(self.order_view(), seq_bound(required_cols@)),
            prune_kept_cols(required_cols@, self.order_view()).len() <= required_cols@.len(),
            node_base(*new_input).schema.fields@ == pruned_fields(
                node_base(*self.input_view()).schema.fields@,
                required_cols@,
            ),
        ensures
            ({
                let req = required_cols@;
                let o = self.order_view();
                let new_order = map_order(prune_mapping(req, o), o);
                let topn_ok = |t: LogicalTopN|
                    is_topn(t, new_input, self.limit_view(), self.offset_view(), new_order);
                if req == prune_kept_cols(req, o) {
                    match *r {
                        PlanNode::LogicalTopN(t) => topn_ok(t),
                        _ => false,
                    }
                } else {
                    match *r {
                        PlanNode::LogicalProject(p) => {
                            &&& (match *p.input {
                                PlanNode::LogicalTopN(t) => topn_ok(t),
                                _ => false,
                            })
                            &&& p.mapping.map_view() == remaining_map(project_kept(req, o), req.len())
                            &&& p.mapping.target_view() == ones_below(project_kept(req, o), req.len()).len()
                            &&& p.base.ctx == node_base(*new_input).ctx
                            &&& p.base.schema.fields@ == projected_fields(
                                p.mapping.map_view(),
                                node_base(*new_input).schema.fields@,
                            )
                            &&& p.base.pk_indices@ == projected_pk(
                                p.mapping.map_view(),
                                node_base(*new_input).pk_indices@,
                            )
                        },
                        _ => false,
                    }
                }
            }),
            strictly_increasing(required_cols@) && order_columns(self.order_view()).subset_of(
                required_cols@.to_set(),
            ) ==> match *r {
                PlanNode::LogicalTopN(t) => {
                    &&& t.base_view().schema.fields@ == pruned_fields(
                        node_base(*self.input_view()).schema.fields@,
                        required_cols@,
                    )
                    &&& t.limit_view() == self.limit_view()
                    &&& t.offset_view() == self.offset_view()
                    &&& t.order_view().len() == self.order_view().len()
                    &&& forall|k: int|
                        0 <= k < self.order_view().len() ==> {
                            &&& (t.order_view()[k].index as nat) < required_cols@.len()
                            &&& required_cols@[t.order_view()[k].index as int] == self.order_view()[k].index
                            &&& t.order_view()[k].direct == self.order_view()[k].direct
                        }
                },
                _ => false,
            },
            required_cols@.no_duplicates() ==> {
                &&& node_base(*r).schema.fields@ == pruned_fields(
                    node_base(*self.input_view()).schema.fields@,
                    required_cols@,
                )
                &&& match *r {
                    PlanNode::LogicalProject(p) => {
                        &&& p.mapping.map_view() == Seq::new(required_cols@.len(), |i: int| Some(i as usize))
                        &&& p.mapping.target_view() == required_cols@.len()
                    },
                    _ => true,
                }
            },
    {
        let ghost req = required_cols@;
        let ghost o = self.order_view();
        let ghost pruned = pruned_fields(self.input_fields(), req);
        // Both lengths fit in a `usize`: every asked-for column is below the
        // input's width, so none is `usize::MAX`.
        let input_width = self.input.base().schema.len();
        let required_len = required_cols.len();
        proof {
            assert(req.len() == required_len);
            lemma_prune_sorted_required(req, o);
            assert forall|i: int| 0 <= i < req.len() implies (#[trigger] req[i]) < usize::MAX by {
                assert((req[i] as nat) < input_width);
            }
        }
        let mut input_required_cols = bitset_from_slice(required_cols);
        proof {
            lemma_from_slice_wf(input_required_cols, req);
        }
        let mut i: usize = 0;
        while i < self.order.field_order.len()
            invariant
                i <= o.len(),
                o == self.order.field_order@,
                order_below(o, seq_bound(req)),
                bitset_len(input_required_cols) == seq_bound(req),
                bitset_ones(input_required_cols) =~= req.to_set().union(
                    Set::new(|c: usize| exists|k: int| 0 <= k < i && (#[trigger] o[k]).index == c),
                ),
                forall|x: usize| #[trigger] bitset_ones(input_required_cols).contains(x) ==> (x as nat) < bitset_len(input_required_cols),
            decreases o.len() - i,
        {
            let fo = self.order.field_order[i];
            assert(o[i as int] == fo);
            bitset_insert(&mut input_required_cols, fo.index);
            i = i + 1;
        }
        assert(bitset_ones(input_required_cols) =~= spec_input_required_cols(req, o));

        let mapping = ColIndexMapping::with_remaining_columns(&input_required_cols);
        assert(mapping.map_view() == prune_mapping(req, o));
        let mut new_fields: Vec<FieldOrder> = Vec::new();
        let mut j: usize = 0;
        while j < self.order.field_order.len()
            invariant
                j <= o.len(),
                o == self.order.field_order@,
                order_below(o, seq_bound(req)),
                mapping.map_view() == prune_mapping(req, o),
                new_fields@ =~= map_order(prune_mapping(req, o), o.take(j as int)),
            decreases o.len() - j,
        {
            let fo = self.order.field_order[j];
            assert(o[j as int] == fo);
            assert(order_columns(o).contains(fo.index));
            let idx = mapping.map(fo.index);
            new_fields.push(FieldOrder { index: idx, direct: fo.direct });
            j = j + 1;
            assert(new_fields@ =~= map_order(prune_mapping(req, o), o.take(j as int)));
        }
        assert(o.take(j as int) =~= o);
        let new_order = Order::new(new_fields);
        let width = new_input.base().schema.len();
        let top_n = Rc::new(PlanNode::LogicalTopN(Self::new(new_input, self.limit, self.offset, new_order)));
        let kept = bitset_ones_vec(&input_required_cols);

        if slices_equal(required_cols, kept.as_slice()) {
            top_n
        } else {
            let mut mapped: Vec<usize> = Vec::new();
            let mut k: usize = 0;
            proof {
                lemma_seq_bound(req);
            }
            while k < required_cols.len()
                invariant
                    k <= req.len(),
                    req == required_cols@,
                    mapping.map_view() == prune_mapping(req, o),
                    mapped@ =~= prune_mapped_required(req, o).take(k as int),
                    forall|x: int| 0 <= x < k ==> (#[trigger] mapped@[x]) < usize::MAX,
                    forall|x: int| 0 <= x < k ==> ((#[trigger] mapped@[x]) as nat) < req.len(),
                    prune_kept_cols(req, o).len() <= req.len(),
                    forall|x: int| 0 <= x < req.len() ==> (#[trigger] req[x] as nat) < seq_bound(req),
                    seq_bound(req) == 0 || exists|x: int| 0 <= x < req.len() && seq_bound(req) == (req[x] as nat) + 1,
                    forall|x: int| 0 <= x < req.len() ==> (#[trigger] req[x]) < usize::MAX,
                decreases req.len() - k,
            {
                let c = required_cols[k];
                assert(req.to_set().contains(c)) by {
                    assert(req[k as int] == c);
                }
                let t = mapping.map(c);
                proof {
                    lemma_remaining_map_below(spec_input_required_cols(req, o), seq_bound(req), c as int);
                }
                mapped.push(t);
                k = k + 1;
            }
            assert(mapped@ =~= prune_mapped_required(req, o));
            proof {
                lemma_seq_bound(mapped@);
                assert(width == req.len());
                assert(seq_bound(mapped@) <= req.len());
            }
            let mut remaining_columns = bitset_with_capacity(width);
            bitset_extend(&mut remaining_columns, mapped.as_slice());
            assert(bitset_ones(remaining_columns) =~= project_kept(req, o));
            let projected = LogicalProject::with_mapping(
                top_n,
                ColIndexMapping::with_remaining_columns(&remaining_columns),
            );
            proof {
                if req.no_duplicates() {
                    lemma_prune_distinct_keeps_every_column(req, o);
                    let ident = Seq::new(req.len(), |i: int| Some(i as usize));
                    lemma_projected_all_kept(ident, pruned);
                    assert(pruned.take(req.len() as int) =~= pruned);
                }
            }
            projected
        }
    }

    /// The batch plan of this Top-N over `batch_input` (the input's batch
    /// plan), sorted into `required_order` unless the Top-N order already
    /// satisfies it.
    pub fn to_batch_with_order_required(&self, batch_input: PlanRef, required_order: &Order) -> (r: PlanRef)
        ensures
            order_satisfies(self.order_view(), required_order.field_order@) ==> match *r {
                PlanNode::BatchTopN(b) => is_topn(b.logical, batch_input, self.limit_view(), self.offset_view(), self.order_view())
                    && is_batch_topn(b, b.logical),
                _ => false,
            },
            !order_satisfies(self.order_view(), required_order.field_order@) ==> match *r {
                PlanNode::BatchSort(s) => {
                    &&& s.order.field_order@ == required_order.field_order@
                    &&& s.base.ctx == node_base(*s.input).ctx
                    &&& s.base.schema.fields@ == node_base(*s.input).schema.fields@
                    &&& s.base.pk_indices@ == Seq::<usize>::empty()
                    &&& same_dist(s.base.dist, node_base(*s.input).dist)
                    &&& match *s.input {
                        PlanNode::BatchTopN(b) => is_topn(b.logical, batch_input, self.limit_view(), self.offset_view(), self.order_view())
                            && is_batch_topn(b, b.logical),
                        _ => false,
                    }
                },
                _ => false,
            },
    {
        let new_logical = self.clone_with_input(batch_input);
        let ret = Rc::new(PlanNode::BatchTopN(BatchTopN::new(new_logical)));
        if self.topn_order().satisfies(required_order) {
            ret
        } else {
            enforce(required_order, ret)
        }
    }

    /// The batch plan of this Top-N over `batch_input`, with no order asked
    /// of its output: the batch Top-N alone, with no sort above it.
    pub fn to_batch(&self, batch_input: PlanRef) -> (r: PlanRef)
        ensures
            match *r {
                PlanNode::BatchTopN(b) => is_topn(b.logical, batch_input, self.limit_view(), self.offset_view(), self.order_view())
                    && is_batch_topn(b, b.logical),
                _ => false,
            },
    {
        let any = Order::any();
        proof {
            lemma_satisfies_any(self.order_view());
        }
        self.to_batch_with_order_required(batch_input, &any)
    }

    /// The streaming plan of this Top-N over `stream_input`, the input's
    /// streaming plan gathered to a single node.  Unlike the batch operator,
    /// the streaming one does not guarantee the order of its output.
    pub fn to_stream(&self, stream_input: PlanRef) -> (r: PlanRef)
        requires
            node_base(*stream_input).dist is Single,
        ensures
            match *r {
                PlanNode::StreamTopN(s) => {
                    &&& is_topn(s.logical, stream_input, self.limit_view(), self.offset_view(), self.order_view())
                    &&& is_stream_topn(s, s.logical)
                    &&& s.base.dist is Single
                },
                _ => false,
            },
    {
        Rc::new(PlanNode::StreamTopN(StreamTopN::new(self.clone_with_input(stream_input))))
    }

    /// This Top-N over `input`, the input rewritten for streaming, whose
    /// columns moved by `input_col_change`; the mapping passes through.
    pub fn logical_rewrite_for_stream(&self, input: PlanRef, input_col_change: ColIndexMapping) -> (r: (
        PlanRef,
        ColIndexMapping,
    ))
        requires
            maps_all(input_col_change.map_view(), self.order_view()),
        ensures
            match *r.0 {
                PlanNode::LogicalTopN(t) => is_topn(
                    t,
                    input,
                    self.limit_view(),
                    self.offset_view(),
                    map_order(input_col_change.map_view(), self.order_view()),
                ),
                _ => false,
            },
            r.1 == input_col_change,
    {
        let (top_n, out_col_change) = self.rewrite_with_input(input, input_col_change);
        (Rc::new(PlanNode::LogicalTopN(top_n)), out_col_change)
    }
}

/// A kept column goes to a number below the count of all kept columns.
proof fn lemma_remaining_map_below(kept: Set<usize>, n: nat, c: int)
    requires
        0 <= c < n,
        kept.contains(c as usize),
    ensures
        ones_below(kept, c as nat).len() < ones_below(kept, n).len(),
        ones_below(kept, n).len() <= n,
    decreases n,
{
    lemma_ones_below_len(kept, n);
    if c < n - 1 {
        lemma_remaining_map_below(kept, (n - 1) as nat, c);
    }
}

/// Pruning keeps each sort key's direction, and keeps the sort keys in the
/// relative order of their columns: a key on a smaller column than another
/// still sorts by a smaller column after the columns are renumbered.
pub proof fn lemma_prune_keeps_sort_column_order(
    required: Seq<usize>,
    o: Seq<FieldOrder>,
    i: int,
    j: int,
)
    requires
        0 <= i < o.len(),
        0 <= j < o.len(),
        o[i].index < o[j].index,
        order_below(o, seq_bound(required)),
    ensures
        map_order(prune_mapping(required, o), o)[i].index < map_order(prune_mapping(required, o), o)[j].index,
        map_order(prune_mapping(required, o), o)[i].direct == o[i].direct,
{
    lemma_seq_bound(required);
    let kept = spec_input_required_cols(required, o);
    assert(order_columns(o).contains(o[i].index));
    assert(order_columns(o).contains(o[j].index));
    lemma_remaining_map_order_preserving(kept, seq_bound(required), o[i].index as int, o[j].index as int);
}

/// The members of the set of a strictly increasing sequence below `m` are
/// its first `k` elements, those below `m`.
proof fn lemma_ones_below_increasing(s: Seq<usize>, m: nat, k: int)
    requires
        strictly_increasing(s),
        0 <= k <= s.len(),
        m <= usize::MAX as nat + 1,
        forall|i: int| 0 <= i < k ==> (s[i] as nat) < m,
        forall|i: int| k <= i < s.len() ==> (s[i] as nat) >= m,
    ensures
        ones_below(s.to_set(), m) == s.take(k),
    decreases m,
{
    if m == 0 {
        if k > 0 {
            assert((s[0] as nat) < m);
        }
        assert(s.take(k) =~= Seq::<usize>::empty());
    } else {
        let c = (m - 1) as usize;
        if k > 0 && s[k - 1] == c {
            lemma_ones_below_increasing(s, (m - 1) as nat, k - 1);
            assert(s.to_set().contains(s[k - 1]));
            assert(s.take(k) =~= s.take(k - 1).push(c));
        } else {
            lemma_ones_below_increasing(s, (m - 1) as nat, k);
            if s.to_set().contains(c) {
                let j = choose|j: int| 0 <= j < s.len() && s[j] == c;
                if j < k && j < k - 1 {
                    assert(s[j] < s[k - 1]);
                }
            }
        }
    }
}

/// When the asked-for columns are strictly increasing and hold every sort
/// column, pruning keeps exactly them, and each sort column goes to its
/// position among them.
pub proof fn lemma_prune_sorted_required(req: Seq<usize>, o: Seq<FieldOrder>)
    requires
        req.len() <= usize::MAX,
    ensures
        strictly_increasing(req) && order_columns(o).subset_of(req.to_set()) ==> {
            &&& prune_kept_cols(req, o) == req
            &&& forall|k: int|
                0 <= k < o.len() ==> {
                    &&& prune_mapping(req, o)[o[k].index as int] is Some
                    &&& (prune_mapping(req, o)[o[k].index as int]->0 as nat) < req.len()
                    &&& req[prune_mapping(req, o)[o[k].index as int]->0 as int] == o[k].index
                }
        },
{
    if strictly_increasing(req) && order_columns(o).subset_of(req.to_set()) {
        lemma_seq_bound(req);
        let n = seq_bound(req);
        assert(spec_input_required_cols(req, o) =~= req.to_set());
        lemma_ones_below_increasing(req, n, req.len() as int);
        assert(req.take(req.len() as int) =~= req);
        assert forall|k: int| 0 <= k < o.len() implies {
            &&& prune_mapping(req, o)[o[k].index as int] is Some
            &&& (prune_mapping(req, o)[o[k].index as int]->0 as nat) < req.len()
            &&& req[prune_mapping(req, o)[o[k].index as int]->0 as int] == o[k].index
        } by {
            let c = o[k].index;
            assert(order_columns(o).contains(c));
            assert(req.to_set().contains(c));
            let j = choose|j: int| 0 <= j < req.len() && req[j] == c;
            assert((c as nat) < n);
            lemma_ones_below_increasing(req, c as nat, j);
            assert(req.take(j).len() == j);
            assert(ones_below(req.to_set(), c as nat).len() == j);
            assert(prune_mapping(req, o)[c as int] == Some(j as usize));
        }
    }
}

/// The members of `s` below `m`, listed by `ones_below`, are exactly the
/// members of `s` below `m`, each once, ascending.
proof fn lemma_ones_below_members(s: Set<usize>, m: nat)
    requires
        m <= usize::MAX as nat + 1,
    ensures
        forall|x: usize|
            #![trigger ones_below(s, m).contains(x)]
            #![trigger s.contains(x)]
            ones_below(s, m).contains(x) <==> s.contains(x) && (x as nat) < m,
        forall|i: int, j: int|
            0 <= i < j < ones_below(s, m).len() ==> ones_below(s, m)[i] < ones_below(s, m)[j],
        ones_below(s, m).no_duplicates(),
    decreases m,
{
    if m > 0 {
        let prev = ones_below(s, (m - 1) as nat);
        lemma_ones_below_members(s, (m - 1) as nat);
        let c = (m - 1) as usize;
        if s.contains(c) {
            let cur = prev.push(c);
            assert(ones_below(s, m) == cur);
            assert forall|x: usize| cur.contains(x) <==> s.contains(x) && (x as nat) < m by {
                if cur.contains(x) && x != c {
                    let k = choose|k: int| 0 <= k < cur.len() && cur[k] == x;
                    assert(k < prev.len());
                    assert(prev[k] == x);
                    assert(prev.contains(x));
                }
                if cur.contains(x) && x == c {
                    assert((x as nat) < m);
                }
                if s.contains(x) && (x as nat) < m {
                    if x == c {
                        assert(cur[prev.len() as int] == x);
                    } else {
                        assert(prev.contains(x));
                        let k = choose|k: int| 0 <= k < prev.len() && prev[k] == x;
                        assert(cur[k] == x);
                    }
                }
            }
            assert forall|i: int, j: int| 0 <= i < j < cur.len() implies cur[i] < cur[j] by {
                assert(cur[i] == prev[i]);
                if j == prev.len() {
                    assert(prev.contains(prev[i]));
                    assert((prev[i] as nat) < m - 1);
                } else {
                    assert(cur[j] == prev[j]);
                }
            }
        }
        assert forall|i: int, j: int|
            0 <= i < ones_below(s, m).len() && 0 <= j < ones_below(s, m).len() && i != j implies
            ones_below(s, m)[i] != ones_below(s, m)[j] by {
            if i < j {
                assert(ones_below(s, m)[i] < ones_below(s, m)[j]);
            } else {
                assert(ones_below(s, m)[j] < ones_below(s, m)[i]);
            }
        }
    }
}

/// When every number below `m` is a member, there are `m` members below `m`.
proof fn lemma_ones_below_full(s: Set<usize>, m: nat)
    requires
        m <= usize::MAX as nat + 1,
        forall|x: usize| (x as nat) < m ==> s.contains(x),
    ensures
        ones_below(s, m).len() == m,
    decreases m,
{
    if m > 0 {
        assert(s.contains((m - 1) as usize));
        lemma_ones_below_full(s, (m - 1) as nat);
    }
}

/// A projection whose mapping keeps every one of the first columns outputs
/// those columns.
proof fn lemma_projected_all_kept(map: Seq<Option<usize>>, fields: Seq<Field>)
    requires
        map.len() <= fields.len(),
        forall|i: int| 0 <= i < map.len() ==> (#[trigger] map[i]) is Some,
    ensures
        projected_fields(map, fields) == fields.take(map.len() as int),
    decreases map.len(),
{
    if map.len() > 0 {
        assert(map.drop_last().len() == map.len() - 1);
        assert forall|i: int| 0 <= i < map.drop_last().len() implies (#[trigger] map.drop_last()[i]) is Some by {
            assert(map.drop_last()[i] == map[i]);
        }
        lemma_projected_all_kept(map.drop_last(), fields);
        assert(map.last() is Some);
        assert(fields.take(map.len() - 1).push(fields[map.len() - 1]) =~= fields.take(map.len() as int));
    }
}

/// Pruning to distinct asked-for columns that the node can output (as
/// `prune_col` requires) keeps exactly those columns, among them every sort
/// column; and the projection that puts them back in the asked-for order
/// keeps every column of the pruned node, numbered as it is: the plan
/// outputs one column per asked-for column.
pub proof fn lemma_prune_distinct_keeps_every_column(req: Seq<usize>, o: Seq<FieldOrder>)
    requires
        req.no_duplicates(),
        req.len() <= usize::MAX,
        forall|i: int| 0 <= i < req.len() ==> (#[trigger] req[i]) < usize::MAX,
        order_below(o, seq_bound(req)),
        prune_kept_cols(req, o).len() <= req.len(),
    ensures
        order_columns(o).subset_of(req.to_set()),
        prune_kept_cols(req, o).len() == req.len(),
        forall|x: usize| #[trigger] project_kept(req, o).contains(x) <==> (x as nat) < req.len(),
        remaining_map(project_kept(req, o), req.len()) == Seq::new(req.len(), |i: int| Some(i as usize)),
        ones_below(project_kept(req, o), req.len()).len() == req.len(),
{
    lemma_seq_bound(req);
    let n = req.len();
    let b = seq_bound(req);
    let kept = spec_input_required_cols(req, o);
    let listed = ones_below(kept, b);
    assert(b <= usize::MAX as nat + 1) by {
        if b > 0 {
            let i = choose|i: int| 0 <= i < req.len() && b == (req[i] as nat) + 1;
        }
    }
    lemma_ones_below_members(kept, b);
    // Every kept column lies below the bound, so the listing is the kept set.
    assert(listed.to_set() =~= kept) by {
        assert forall|x: usize| kept.contains(x) implies (x as nat) < b by {
            if req.to_set().contains(x) {
                let i = choose|i: int| 0 <= i < req.len() && req[i] == x;
            } else {
                let k = choose|k: int| 0 <= k < o.len() && (#[trigger] o[k]).index == x;
            }
        }
    }
    listed.unique_seq_to_set();
    req.unique_seq_to_set();
    vstd::seq_lib::seq_to_set_is_finite(listed);
    assert(req.to_set().subset_of(kept));
    vstd::set_lib::lemma_len_subset(req.to_set(), kept);
    vstd::set_lib::lemma_subset_equality(req.to_set(), kept);
    assert(req.to_set() =~= kept);
    assert forall|c: usize| order_columns(o).contains(c) implies req.to_set().contains(c) by {
        assert(kept.contains(c));
    }
    // The asked-for columns go to every number below their count.
    let mapped = prune_mapped_required(req, o);
    assert forall|x: usize| #[trigger] project_kept(req, o).contains(x) <==> (x as nat) < n by {
        if project_kept(req, o).contains(x) {
            let i = choose|i: int| 0 <= i < mapped.len() && mapped[i] == x;
            assert(kept.contains(req[i]));
            lemma_ones_below_rank_of_member(kept, b, req[i]);
        }
        if (x as nat) < n {
            crate::col_index_mapping::lemma_remaining_map_onto(kept, b, x as int);
            let c = choose|c: int| 0 <= c < b && remaining_map(kept, b)[c] == Some(x);
            assert(kept.contains(c as usize));
            assert(req.to_set().contains(c as usize));
            let i = choose|i: int| 0 <= i < req.len() && req[i] == c as usize;
            assert(mapped[i] == x);
        }
    }
    lemma_ones_below_full(project_kept(req, o), n);
    assert forall|i: int| 0 <= i < n implies #[trigger] remaining_map(project_kept(req, o), n)[i] == Some(i as usize) by {
        lemma_ones_below_full(project_kept(req, o), i as nat);
        assert(project_kept(req, o).contains(i as usize));
    }
    assert(remaining_map(project_kept(req, o), n) =~= Seq::new(n, |i: int| Some(i as usize)));
}

/// A kept column below the bound goes to a number below the count of kept
/// columns.
proof fn lemma_ones_below_rank_of_member(kept: Set<usize>, b: nat, c: usize)
    requires
        kept.contains(c),
        (c as nat) < b <= usize::MAX as nat + 1,
    ensures
        ones_below(kept, c as nat).len() < ones_below(kept, b).len(),
{
    crate::col_index_mapping::lemma_ones_below_monotone(kept, c as nat, b);
}

/// Whether two slices hold the same elements in the same order.
fn slices_equal(a: &[usize], b: &[usize]) -> (r: bool)
    ensures
        r == (a@ == b@),
{
    if a.len() != b.len() {
        return false;
    }
    let mut i: usize = 0;
    while i < a.len()
        invariant
            i <= a@.len(),
            a@.len() == b@.len(),
            forall|k: int| 0 <= k < i ==> a@[k] == b@[k],
        decreases a.len() - i,
    {
        if a[i] != b[i] {
            return false;
        }
        i = i + 1;
    }
    assert(a@ =~= b@);
    true
}

} // verus!
