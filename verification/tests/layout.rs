use query_plan::aexpr::{AExpr, AggKind, LiteralValue, Operator};
use query_plan::alp::{ALogicalPlan, FileScan};
use query_plan::arena::{Arena, Node};
use query_plan::error::PolarsError;
use query_plan::predicate_pushdown::driver::PredicatePushDown;

fn columns(list: &[&str]) -> Vec<String> {
    list.iter().map(|s| s.to_string()).collect()
}

fn comparison(exprs: &mut Arena<AExpr>, name: &str, op: Operator, value: i64) -> Node {
    let c = exprs.add_expr(AExpr::Column(name.to_string()));
    let v = exprs.add_expr(AExpr::Literal(LiteralValue::Int64(value)));
    exprs.add_expr(AExpr::BinaryExpr { left: c, op, right: v })
}

fn parquet(lps: &mut Arena<ALogicalPlan>, names: &[&str]) -> Node {
    lps.add(ALogicalPlan::Scan {
        path: "data".to_string(),
        schema: columns(names),
        predicate: None,
        scan_type: FileScan::Parquet,
    })
}

#[test]
fn kept_node_reads_the_slot_it_read_and_the_slot_holds_the_rewritten_input() {
    let mut lps = Arena::new();
    let mut exprs = Arena::new();
    let scan = parquet(&mut lps, &["a", "b", "c"]);
    let on_b = comparison(&mut exprs, "b", Operator::Eq, 1);
    let filter = lps.add(ALogicalPlan::Selection { input: scan, predicate: on_b });
    let key = exprs.add_expr(AExpr::Column("c".to_string()));
    let a = exprs.add_expr(AExpr::Column("a".to_string()));
    let sum = exprs.add_expr(AExpr::Agg { kind: AggKind::Sum, input: a });
    let root = ALogicalPlan::Aggregate {
        input: filter,
        keys: vec![key],
        aggs: vec![sum],
        schema: columns(&["c", "a"]),
    };
    let slots = lps.len();
    let out = PredicatePushDown::new().optimize(root, &mut lps, &mut exprs).unwrap();
    // the aggregate still reads the slot of the filter
    match out {
        ALogicalPlan::Aggregate { input, .. } => assert_eq!(input, filter),
        other => panic!("expected the aggregate, got {:?}", other),
    }
    // which now holds the scan with the predicate
    match lps.try_get(filter) {
        Some(ALogicalPlan::Scan { predicate, .. }) => assert_eq!(*predicate, Some(on_b)),
        other => panic!("expected the scan, got {:?}", other),
    }
    // the scan was taken out of its slot, and no slot was added
    assert!(lps.try_get(scan).is_none());
    assert_eq!(lps.len(), slots);
}

#[test]
fn new_filter_reads_one_new_slot_that_holds_the_node_below_it() {
    let mut lps = Arena::new();
    let mut exprs = Arena::new();
    let table = lps.add(ALogicalPlan::DataFrameScan { schema: columns(&["a"]), selection: None });
    let slice = lps.add(ALogicalPlan::Slice { input: table, offset: 0, len: 1 });
    let on_a = comparison(&mut exprs, "a", Operator::Gt, 5);
    let root = ALogicalPlan::Selection { input: slice, predicate: on_a };
    let slots = lps.len();
    let out = PredicatePushDown::new().optimize(root, &mut lps, &mut exprs).unwrap();
    // one slot was added, and the filter reads it
    assert_eq!(lps.len(), slots + 1);
    match out {
        ALogicalPlan::Selection { input, predicate } => {
            assert_eq!(input, Node(slots));
            assert_eq!(predicate, on_a);
        }
        other => panic!("expected a filter, got {:?}", other),
    }
    // it holds the slice, which still reads the slot of the table
    match lps.try_get(Node(slots)) {
        Some(ALogicalPlan::Slice { input, .. }) => assert_eq!(*input, table),
        other => panic!("expected the slice, got {:?}", other),
    }
    match lps.try_get(table) {
        Some(ALogicalPlan::DataFrameScan { selection, .. }) => assert_eq!(*selection, None),
        other => panic!("expected the table, got {:?}", other),
    }
    // the slice was taken out of the slot that the old filter read
    assert!(lps.try_get(slice).is_none());
}

#[test]
fn table_that_takes_the_predicate_adds_no_slot() {
    let mut lps = Arena::new();
    let mut exprs = Arena::new();
    let table = lps.add(ALogicalPlan::DataFrameScan { schema: columns(&["a"]), selection: None });
    let on_a = comparison(&mut exprs, "a", Operator::Gt, 1);
    let root = ALogicalPlan::Selection { input: table, predicate: on_a };
    let out = PredicatePushDown::new().optimize(root, &mut lps, &mut exprs).unwrap();
    match out {
        ALogicalPlan::DataFrameScan { selection, .. } => assert_eq!(selection, Some(on_a)),
        other => panic!("expected the table, got {:?}", other),
    }
    assert_eq!(lps.len(), 1);
    assert!(lps.try_get(table).is_none());
}

#[test]
fn plan_without_filters_leaves_the_arena_as_it_is() {
    let mut lps = Arena::new();
    let mut exprs = Arena::new();
    let first = parquet(&mut lps, &["a"]);
    let second = parquet(&mut lps, &["a"]);
    let root = ALogicalPlan::Union { inputs: vec![first, second] };
    let out = PredicatePushDown::new().optimize(root, &mut lps, &mut exprs).unwrap();
    match out {
        ALogicalPlan::Union { inputs } => assert_eq!(inputs, vec![first, second]),
        other => panic!("expected the union, got {:?}", other),
    }
    assert_eq!(lps.len(), 2);
    assert!(matches!(lps.try_get(first), Some(ALogicalPlan::Scan { predicate: None, .. })));
    assert!(matches!(lps.try_get(second), Some(ALogicalPlan::Scan { predicate: None, .. })));
}

#[test]
fn failed_pass_leaves_the_slot_it_took_vacant() {
    let mut lps = Arena::new();
    let mut exprs = Arena::new();
    let on_a = comparison(&mut exprs, "a", Operator::Gt, 1);
    // a filter whose input is not in the arena
    let broken = lps.add(ALogicalPlan::Selection { input: Node(7), predicate: on_a });
    let other = parquet(&mut lps, &["a"]);
    let root = ALogicalPlan::Slice { input: broken, offset: 0, len: 1 };
    match PredicatePushDown::new().optimize(root, &mut lps, &mut exprs) {
        Err(PolarsError::InvariantViolation(msg)) => {
            assert_eq!(msg, "the plan is not a tree: an input is missing from the arena")
        }
        found => panic!("unexpected {:?}", found),
    }
    assert!(lps.try_get(broken).is_none());
    // a slot that is no part of the plan is as it was
    assert!(matches!(lps.try_get(other), Some(ALogicalPlan::Scan { predicate: None, .. })));
    assert_eq!(lps.len(), 2);
}
