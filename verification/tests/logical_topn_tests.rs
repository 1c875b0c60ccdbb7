use std::rc::Rc;

use fixedbitset::FixedBitSet;
use rw_core::catalog::{DataType, Field, Schema};
use rw_core::col_index_mapping::ColIndexMapping;
use rw_core::logical_topn::{
    Distribution, LogicalTopN, OptimizerContext, OptimizerContextRef, PlanBase, PlanNode, PlanRef,
};
use rw_core::order::{Direction, FieldOrder, Order};

fn ctx() -> OptimizerContextRef {
    Rc::new(OptimizerContext { session_id: 7 })
}

fn field(name: &str) -> Field {
    Field::with_name(DataType::Int32, name.to_string())
}

fn schema(names: &[&str]) -> Schema {
    Schema { fields: names.iter().map(|n| field(n)).collect() }
}

fn names(s: &Schema) -> Vec<String> {
    s.fields.iter().map(|f| f.name.clone()).collect()
}

fn leaf_in(c: &OptimizerContextRef, cols: &[&str], pk: Vec<usize>, dist: Distribution) -> PlanRef {
    Rc::new(PlanNode::Other(PlanBase::new_stream(c.clone(), schema(cols), pk, dist)))
}

fn leaf(cols: &[&str], pk: Vec<usize>) -> PlanRef {
    Rc::new(PlanNode::Other(PlanBase::new_logical(ctx(), schema(cols), pk)))
}

fn asc(index: usize) -> FieldOrder {
    FieldOrder { index, direct: Direction::Asc }
}

fn desc(index: usize) -> FieldOrder {
    FieldOrder { index, direct: Direction::Desc }
}

fn indices(o: &Order) -> Vec<(usize, Direction)> {
    o.field_order.iter().map(|f| (f.index, f.direct)).collect()
}

#[test]
fn create_keeps_parameters_and_input_base() {
    let c = ctx();
    let input = leaf_in(&c, &["a", "b", "c", "d"], vec![0, 2], Distribution::Single);
    let plan = LogicalTopN::create(input.clone(), 10, 5, Order::new(vec![asc(1)]));
    match &*plan {
        PlanNode::LogicalTopN(t) => {
            assert_eq!(t.limit(), 10);
            assert_eq!(t.offset(), 5);
            assert_eq!(indices(t.topn_order()), vec![(1, Direction::Asc)]);
            assert_eq!(names(t.schema()), vec!["a", "b", "c", "d"]);
            assert_eq!(t.pk_indices(), &vec![0, 2]);
            assert!(Rc::ptr_eq(&t.ctx(), &c));
            assert!(matches!(t.base.dist, Distribution::Any));
            assert!(Rc::ptr_eq(&t.input(), &input));
        }
        _ => panic!("expected a logical Top-N"),
    }
}

#[test]
fn clone_with_input_changes_only_the_input() {
    let t = LogicalTopN::new(leaf(&["a", "b", "c"], vec![]), 7, 1, Order::new(vec![desc(2)]));
    let other = leaf(&["x", "y", "z", "w", "v"], vec![4]);
    let c = t.clone_with_input(other.clone());
    assert_eq!((c.limit(), c.offset()), (7, 1));
    assert_eq!(indices(c.topn_order()), vec![(2, Direction::Desc)]);
    assert_eq!(names(c.schema()), vec!["x", "y", "z", "w", "v"]);
    assert_eq!(c.pk_indices(), &vec![4]);
    assert!(Rc::ptr_eq(&c.input(), &other));
}

#[test]
fn prune_col_without_projection() {
    let t = LogicalTopN::new(leaf(&["a", "b", "c", "d", "e"], vec![]), 3, 0, Order::new(vec![asc(2)]));
    let required = [0usize, 2];
    let pruned_input = leaf(&["a", "c"], vec![]);
    let plan = t.prune_col(&required, pruned_input.clone());
    match &*plan {
        PlanNode::LogicalTopN(top) => {
            assert_eq!(indices(top.topn_order()), vec![(1, Direction::Asc)]);
            assert_eq!(top.limit(), 3);
            assert_eq!(names(top.schema()), vec!["a", "c"]);
            assert!(Rc::ptr_eq(&top.input(), &pruned_input));
        }
        _ => panic!("expected a logical Top-N"),
    }
}

#[test]
fn prune_col_all_columns_is_identity() {
    let t = LogicalTopN::new(leaf(&["a", "b", "c"], vec![]), 2, 1, Order::new(vec![desc(2), asc(0)]));
    let plan = t.prune_col(&[0, 1, 2], leaf(&["a", "b", "c"], vec![]));
    match &*plan {
        PlanNode::LogicalTopN(top) => {
            assert_eq!(indices(top.topn_order()), vec![(2, Direction::Desc), (0, Direction::Asc)]);
            assert_eq!((top.limit(), top.offset()), (2, 1));
            assert_eq!(names(top.schema()), vec!["a", "b", "c"]);
        }
        _ => panic!("expected a logical Top-N"),
    }
}

#[test]
fn prune_col_unsorted_required_gets_projection() {
    let t = LogicalTopN::new(leaf(&["a", "b", "c"], vec![]), 1, 0, Order::new(vec![asc(0)]));
    let required = [1usize, 0];
    let plan = t.prune_col(&required, leaf(&["b", "a"], vec![]));
    match &*plan {
        PlanNode::LogicalProject(p) => {
            assert_eq!(p.mapping.source_size(), 2);
            assert_eq!(p.mapping.try_map(0), Some(0));
            assert_eq!(p.mapping.try_map(1), Some(1));
            assert_eq!(names(&p.base.schema), vec!["b", "a"]);
            match &*p.input {
                PlanNode::LogicalTopN(top) => {
                    assert_eq!(indices(top.topn_order()), vec![(0, Direction::Asc)]);
                }
                _ => panic!("expected a logical Top-N under the projection"),
            }
        }
        _ => panic!("expected a projection"),
    }
}

#[test]
fn rewrite_with_input_moves_sort_keys() {
    let t = LogicalTopN::new(leaf(&["a", "b", "c"], vec![]), 4, 0, Order::new(vec![asc(2), desc(0)]));
    let change = ColIndexMapping::new(vec![Some(1), None, Some(0)], 2);
    let (r, m) = t.rewrite_with_input(leaf(&["c", "a"], vec![]), change);
    assert_eq!(indices(r.topn_order()), vec![(0, Direction::Asc), (1, Direction::Desc)]);
    assert_eq!(m.target_size(), 2);
    assert_eq!(names(r.schema()), vec!["c", "a"]);
    let (p, _) = t.logical_rewrite_for_stream(
        leaf(&["c", "a"], vec![]),
        ColIndexMapping::new(vec![Some(1), None, Some(0)], 2),
    );
    match &*p {
        PlanNode::LogicalTopN(top) => assert_eq!(top.topn_order().field_order[0].index, 0),
        _ => panic!("expected a logical Top-N"),
    }
}

#[test]
fn to_batch_sorts_only_when_needed() {
    let t = LogicalTopN::new(leaf(&["a", "b", "c"], vec![0]), 4, 0, Order::new(vec![asc(2), desc(0)]));
    let c = ctx();
    let batch_in = leaf_in(&c, &["a", "b", "c"], vec![], Distribution::HashShard(vec![1]));
    match &*t.to_batch_with_order_required(batch_in.clone(), &Order::new(vec![asc(2)])) {
        PlanNode::BatchTopN(b) => {
            assert_eq!(b.logical.limit(), 4);
            assert!(b.base.pk_indices.is_empty());
            assert!(matches!(&b.base.dist, Distribution::HashShard(k) if k == &vec![1]));
        }
        _ => panic!("expected a batch Top-N"),
    }
    match &*t.to_batch_with_order_required(batch_in.clone(), &Order::new(vec![desc(2)])) {
        PlanNode::BatchSort(s) => {
            assert_eq!(indices(&s.order), vec![(2, Direction::Desc)]);
            assert!(matches!(&*s.input, PlanNode::BatchTopN(_)));
            assert_eq!(names(&s.base.schema), vec!["a", "b", "c"]);
        }
        _ => panic!("expected a batch sort"),
    }
    assert!(matches!(&*t.to_batch(batch_in), PlanNode::BatchTopN(_)));
}

#[test]
fn to_stream_over_single_input() {
    let t = LogicalTopN::new(leaf(&["a", "b"], vec![0]), 4, 0, Order::new(vec![asc(1)]));
    let c = ctx();
    let stream_in = leaf_in(&c, &["a", "b"], vec![0], Distribution::Single);
    match &*t.to_stream(stream_in) {
        PlanNode::StreamTopN(s) => {
            assert!(matches!(s.base.dist, Distribution::Single));
            assert_eq!(s.base.pk_indices, vec![0]);
            assert_eq!(s.logical.offset(), 0);
        }
        _ => panic!("expected a streaming Top-N"),
    }
}

#[test]
fn order_satisfies_prefixes() {
    let o = Order::new(vec![asc(1), desc(2)]);
    assert!(o.satisfies(&Order::any()));
    assert!(o.satisfies(&Order::new(vec![asc(1)])));
    assert!(o.satisfies(&o.copy()));
    assert!(!o.satisfies(&Order::new(vec![desc(1)])));
    assert!(!Order::new(vec![asc(1)]).satisfies(&o));
}

#[test]
fn remaining_columns_mapping_preserves_order() {
    let mut bits = FixedBitSet::with_capacity(6);
    bits.insert(1);
    bits.insert(3);
    bits.insert(4);
    let m = ColIndexMapping::with_remaining_columns(&bits);
    assert_eq!(m.source_size(), 6);
    assert_eq!(m.target_size(), 3);
    let mapped: Vec<Option<usize>> = (0..7).map(|i| m.try_map(i)).collect();
    assert_eq!(mapped, vec![None, Some(0), None, Some(1), Some(2), None, None]);
    assert_eq!(m.map(4), 2);
}

#[test]
fn rewrite_required_order_fails_on_dropped_column() {
    let m = ColIndexMapping::new(vec![Some(0), None], 1);
    assert!(m.rewrite_required_order(&Order::new(vec![asc(1)])).is_none());
    let ok = m.rewrite_required_order(&Order::new(vec![desc(0)])).unwrap();
    assert_eq!(indices(&ok), vec![(0, Direction::Desc)]);
}
