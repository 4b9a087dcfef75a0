use query_plan::aexpr::{AExpr, ExprTest, LiteralValue, Operator};
use query_plan::alp::{ALogicalPlan, FileScan, FunctionNode, JoinType, UniqueKeepStrategy};
use query_plan::arena::{Arena, Node};
use query_plan::expr_walk::has_aexpr;
use query_plan::plan_schema::plan_schema;
use query_plan::predicate_pushdown::driver::PredicatePushDown;

fn names(list: &[&str]) -> Vec<String> {
    list.iter().map(|s| s.to_string()).collect()
}

struct Plan {
    lps: Arena<ALogicalPlan>,
    exprs: Arena<AExpr>,
    /// the predicates of the filters, from the top down
    predicates: Vec<Node>,
}

fn compare(exprs: &mut Arena<AExpr>, name: &str, op: Operator, value: i64) -> Node {
    let c = exprs.add_expr(AExpr::Column(name.to_string()));
    let v = exprs.add_expr(AExpr::Literal(LiteralValue::Int64(value)));
    exprs.add_expr(AExpr::BinaryExpr { left: c, op, right: v })
}

/// filter(window) / filter(a > 1) / sort / distinct / filter(b < 9) /
/// union(parquet scan, csv scan)
fn sample() -> (Plan, ALogicalPlan) {
    let mut lps = Arena::new();
    let mut exprs = Arena::new();
    let first = lps.add(ALogicalPlan::Scan {
        path: "one".to_string(),
        schema: names(&["a", "b"]),
        predicate: None,
        scan_type: FileScan::Parquet,
    });
    let second = lps.add(ALogicalPlan::Scan {
        path: "two".to_string(),
        schema: names(&["a", "b"]),
        predicate: None,
        scan_type: FileScan::Csv,
    });
    let union = lps.add(ALogicalPlan::Union { inputs: vec![first, second] });
    let on_b = compare(&mut exprs, "b", Operator::Lt, 9);
    let f1 = lps.add(ALogicalPlan::Selection { input: union, predicate: on_b });
    let distinct = lps.add(ALogicalPlan::Distinct {
        input: f1,
        keep_strategy: UniqueKeepStrategy::Any,
    });
    let sort = lps.add(ALogicalPlan::Sort { input: distinct, by_column: vec![], descending: false });
    let on_a = compare(&mut exprs, "a", Operator::Gt, 1);
    let f2 = lps.add(ALogicalPlan::Selection { input: sort, predicate: on_a });
    let a = exprs.add_expr(AExpr::Column("a".to_string()));
    let window = exprs.add_expr(AExpr::Window { function: a, partition_by: vec![] });
    let zero = exprs.add_expr(AExpr::Literal(LiteralValue::Int64(0)));
    let on_window = exprs.add_expr(AExpr::BinaryExpr { left: window, op: Operator::Gt, right: zero });
    let root = ALogicalPlan::Selection { input: f2, predicate: on_window };
    (Plan { lps, exprs, predicates: vec![on_window, on_a, on_b] }, root)
}

/// The plan as text, without the handles of plan nodes.
fn describe(lps: &Arena<ALogicalPlan>, node: &ALogicalPlan) -> String {
    let inputs: Vec<String> = node
        .get_inputs()
        .iter()
        .map(|n| describe(lps, lps.try_get(*n).expect("a populated slot")))
        .collect();
    let head = match node {
        ALogicalPlan::Selection { predicate, .. } => format!("Selection({:?})", predicate),
        ALogicalPlan::Scan { path, predicate, .. } => format!("Scan({}, {:?})", path, predicate),
        ALogicalPlan::Union { .. } => "Union".to_string(),
        ALogicalPlan::Sort { .. } => "Sort".to_string(),
        ALogicalPlan::Distinct { .. } => "Distinct".to_string(),
        other => format!("{:?}", other),
    };
    format!("{}[{}]", head, inputs.join(", "))
}

/// The predicates that the filters and scans of the plan hold, split
/// into the predicates that they are conjunctions of.
fn split(exprs: &Arena<AExpr>, p: Node, out: &mut Vec<Node>) {
    out.push(p);
    if let AExpr::BinaryExpr { left, op: Operator::And, right } = exprs.get(p) {
        split(exprs, *left, out);
        split(exprs, *right, out);
    }
}

fn held(lps: &Arena<ALogicalPlan>, exprs: &Arena<AExpr>, node: &ALogicalPlan, out: &mut Vec<Node>) {
    match node {
        ALogicalPlan::Selection { predicate, .. } => split(exprs, *predicate, out),
        ALogicalPlan::Scan { predicate: Some(p), .. } => split(exprs, *p, out),
        _ => {}
    }
    for n in node.get_inputs() {
        held(lps, exprs, lps.try_get(n).expect("a populated slot"), out);
    }
}

fn below_filters<'a>(lps: &'a Arena<ALogicalPlan>, mut node: &'a ALogicalPlan) -> &'a ALogicalPlan {
    while let ALogicalPlan::Selection { input, .. } = node {
        node = lps.try_get(*input).expect("a populated slot");
    }
    node
}

#[test]
fn pass_keeps_the_columns_of_the_plan() {
    let (mut plan, root) = sample();
    let (_, copy) = sample();
    let slot = plan.lps.add(copy);
    let before = plan_schema(&plan.lps, slot, 20).unwrap();
    assert_eq!(before, names(&["a", "b"]));
    let out = PredicatePushDown::new().optimize(root, &mut plan.lps, &mut plan.exprs).unwrap();
    let slot = plan.lps.add(out);
    assert_eq!(plan_schema(&plan.lps, slot, 20).unwrap(), before);

    // a rename in between
    let mut lps = Arena::new();
    let mut exprs = Arena::new();
    let source = lps.add(ALogicalPlan::DataFrameScan { schema: names(&["a", "b"]), selection: None });
    let rename = lps.add(ALogicalPlan::MapFunction {
        input: source,
        function: FunctionNode::Rename { existing: names(&["a"]), new: names(&["x"]) },
    });
    let p = compare(&mut exprs, "x", Operator::Gt, 1);
    let root = ALogicalPlan::Selection { input: rename, predicate: p };
    let out = PredicatePushDown::new().optimize(root, &mut lps, &mut exprs).unwrap();
    let slot = lps.add(out);
    assert_eq!(plan_schema(&lps, slot, 20).unwrap(), names(&["x", "b"]));
}

#[test]
fn pass_loses_no_predicate() {
    let (mut plan, root) = sample();
    let out = PredicatePushDown::new().optimize(root, &mut plan.lps, &mut plan.exprs).unwrap();
    let mut found = Vec::new();
    held(&plan.lps, &plan.exprs, &out, &mut found);
    for p in &plan.predicates {
        assert!(found.contains(p), "predicate {:?} is not in {}", p, describe(&plan.lps, &out));
    }
}

#[test]
fn pass_puts_no_boundary_predicate_below_the_node_that_holds_it_back() {
    let (mut plan, root) = sample();
    let out = PredicatePushDown::new().optimize(root, &mut plan.lps, &mut plan.exprs).unwrap();
    let sort = below_filters(&plan.lps, &out);
    assert!(matches!(sort, ALogicalPlan::Sort { .. }));
    let mut below = Vec::new();
    for n in sort.get_inputs() {
        held(&plan.lps, &plan.exprs, plan.lps.try_get(n).unwrap(), &mut below);
    }
    assert!(!below.is_empty());
    for p in below {
        assert!(!has_aexpr(p, &plan.exprs, ExprTest::SortBoundary));
    }
    // what was held back is above the sort
    match &out {
        ALogicalPlan::Selection { predicate, .. } => assert_eq!(*predicate, plan.predicates[0]),
        other => panic!("unexpected {:?}", other),
    }
}

#[test]
fn second_pass_changes_nothing_where_the_first_left_no_filter() {
    let mut lps = Arena::new();
    let mut exprs = Arena::new();
    let left = lps.add(ALogicalPlan::Scan {
        path: "left".to_string(),
        schema: names(&["a"]),
        predicate: None,
        scan_type: FileScan::Parquet,
    });
    let right = lps.add(ALogicalPlan::DataFrameScan { schema: names(&["b"]), selection: None });
    let join = lps.add(ALogicalPlan::Join {
        input_left: left,
        input_right: right,
        left_on: vec![],
        right_on: vec![],
        schema: names(&["a", "b"]),
        how: JoinType::Cross,
    });
    let on_a = compare(&mut exprs, "a", Operator::Gt, 1);
    let on_b = compare(&mut exprs, "b", Operator::Gt, 2);
    let inner = lps.add(ALogicalPlan::Selection { input: join, predicate: on_a });
    let root = ALogicalPlan::Selection { input: inner, predicate: on_b };
    let pass = PredicatePushDown::new();
    let once = pass.optimize(root, &mut lps, &mut exprs).unwrap();
    let text = describe(&lps, &once);
    assert!(matches!(once, ALogicalPlan::Join { .. }));
    let slots = lps.len();
    let expressions = exprs.len();
    let twice = pass.optimize(once, &mut lps, &mut exprs).unwrap();
    assert_eq!(describe(&lps, &twice), text);
    assert_eq!((lps.len(), exprs.len()), (slots, expressions));
}

#[test]
fn second_pass_may_move_a_predicate_that_the_first_held_back() {
    // a predicate on a sorted column above a plain filter
    let mut lps = Arena::new();
    let mut exprs = Arena::new();
    let source = lps.add(ALogicalPlan::Scan {
        path: "data".to_string(),
        schema: names(&["a"]),
        predicate: None,
        scan_type: FileScan::Parquet,
    });
    let plain = compare(&mut exprs, "a", Operator::Gt, 1);
    let a = exprs.add_expr(AExpr::Column("a".to_string()));
    let sorted = exprs.add_expr(AExpr::Sort { expr: a, descending: false });
    let zero = exprs.add_expr(AExpr::Literal(LiteralValue::Int64(0)));
    let on_sorted = exprs.add_expr(AExpr::BinaryExpr { left: sorted, op: Operator::Gt, right: zero });
    let inner = lps.add(ALogicalPlan::Selection { input: source, predicate: plain });
    let root = ALogicalPlan::Selection { input: inner, predicate: on_sorted };
    let pass = PredicatePushDown::new();
    let once = pass.optimize(root, &mut lps, &mut exprs).unwrap();
    let first = describe(&lps, &once);
    assert!(first.starts_with("Selection("));
    // the filter that the first pass left meets no other filter now
    let twice = pass.optimize(once, &mut lps, &mut exprs).unwrap();
    assert!(describe(&lps, &twice).starts_with("Scan("));
}

#[test]
fn second_pass_leaves_filters_above_nodes_that_hand_them_back() {
    let mut lps = Arena::new();
    let mut exprs = Arena::new();
    let source = lps.add(ALogicalPlan::Scan {
        path: "data".to_string(),
        schema: names(&["a", "b"]),
        predicate: None,
        scan_type: FileScan::Csv,
    });
    let below = compare(&mut exprs, "b", Operator::Gt, 2);
    let f1 = lps.add(ALogicalPlan::Selection { input: source, predicate: below });
    let aggregate = lps.add(ALogicalPlan::Aggregate {
        input: f1,
        keys: vec![],
        aggs: vec![],
        schema: names(&["a"]),
    });
    let above = compare(&mut exprs, "a", Operator::Gt, 1);
    let root = ALogicalPlan::Selection { input: aggregate, predicate: above };
    let pass = PredicatePushDown::new();
    let once = pass.optimize(root, &mut lps, &mut exprs).unwrap();
    let text = describe(&lps, &once);
    assert!(text.starts_with(&format!("Selection({:?})[Aggregate", above)));
    assert!(text.contains(&format!("Selection({:?})[Scan(data, None)", below)));
    let expressions = exprs.len();
    let twice = pass.optimize(once, &mut lps, &mut exprs).unwrap();
    assert_eq!(describe(&lps, &twice), text);
    assert_eq!(exprs.len(), expressions);
}

#[test]
fn pass_places_each_predicate_once() {
    // filter(a > 1) / sort / filter(b < 9) / parquet scan
    let mut lps = Arena::new();
    let mut exprs = Arena::new();
    let source = lps.add(ALogicalPlan::Scan {
        path: "one".to_string(),
        schema: names(&["a", "b"]),
        predicate: None,
        scan_type: FileScan::Parquet,
    });
    let on_b = compare(&mut exprs, "b", Operator::Lt, 9);
    let f1 = lps.add(ALogicalPlan::Selection { input: source, predicate: on_b });
    let sort = lps.add(ALogicalPlan::Sort { input: f1, by_column: vec![], descending: false });
    let on_a = compare(&mut exprs, "a", Operator::Gt, 1);
    let root = ALogicalPlan::Selection { input: sort, predicate: on_a };
    let out = PredicatePushDown::new().optimize(root, &mut lps, &mut exprs).unwrap();
    assert!(describe(&lps, &out).starts_with("Sort[Scan(one, Some("));
    let mut found = Vec::new();
    held(&lps, &exprs, &out, &mut found);
    for p in [on_a, on_b] {
        assert_eq!(found.iter().filter(|q| **q == p).count(), 1);
    }
    // the scan holds the conjunction of the two and nothing else
    assert_eq!(found.len(), 3);
}

#[test]
fn second_pass_leaves_a_filter_above_a_filter() {
    // filter(window) / filter(a > 1) / csv scan
    let mut lps = Arena::new();
    let mut exprs = Arena::new();
    let source = lps.add(ALogicalPlan::Scan {
        path: "two".to_string(),
        schema: names(&["a", "b"]),
        predicate: None,
        scan_type: FileScan::Csv,
    });
    let on_a = compare(&mut exprs, "a", Operator::Gt, 1);
    let below = lps.add(ALogicalPlan::Selection { input: source, predicate: on_a });
    let a = exprs.add_expr(AExpr::Column("a".to_string()));
    let window = exprs.add_expr(AExpr::Window { function: a, partition_by: vec![] });
    let zero = exprs.add_expr(AExpr::Literal(LiteralValue::Int64(0)));
    let on_window = exprs.add_expr(AExpr::BinaryExpr { left: window, op: Operator::Gt, right: zero });
    let root = ALogicalPlan::Selection { input: below, predicate: on_window };
    let pass = PredicatePushDown::new();
    let once = pass.optimize(root, &mut lps, &mut exprs).unwrap();
    let text = describe(&lps, &once);
    assert_eq!(
        text,
        format!("Selection({:?})[Selection({:?})[Scan(two, None)[]]]", on_window, on_a)
    );
    let size = exprs.len();
    let twice = pass.optimize(once, &mut lps, &mut exprs).unwrap();
    assert_eq!(describe(&lps, &twice), text);
    assert_eq!(exprs.len(), size);
}

#[test]
fn second_pass_leaves_a_filter_that_a_sink_cannot_hand_down() {
    // filter(z > 1) / sink / table without the column z
    let mut lps = Arena::new();
    let mut exprs = Arena::new();
    let source = lps.add(ALogicalPlan::DataFrameScan { schema: names(&["a"]), selection: None });
    let sink = lps.add(ALogicalPlan::FileSink { input: source, path: "out".to_string() });
    let on_z = compare(&mut exprs, "z", Operator::Gt, 1);
    let root = ALogicalPlan::Selection { input: sink, predicate: on_z };
    let pass = PredicatePushDown::new();
    let once = pass.optimize(root, &mut lps, &mut exprs).unwrap();
    let text = describe(&lps, &once);
    assert!(text.starts_with(&format!("Selection({:?})[", on_z)));
    let twice = pass.optimize(once, &mut lps, &mut exprs).unwrap();
    assert_eq!(describe(&lps, &twice), text);
}

#[test]
fn pass_moves_no_predicate_above_the_node_it_stood_below() {
    // join(filter(a > 1) / sort / scan one, filter(b < 9) / slice / scan two)
    let mut lps = Arena::new();
    let mut exprs = Arena::new();
    let one = lps.add(ALogicalPlan::Scan {
        path: "one".to_string(),
        schema: names(&["a"]),
        predicate: None,
        scan_type: FileScan::Parquet,
    });
    let sort = lps.add(ALogicalPlan::Sort { input: one, by_column: vec![], descending: false });
    let on_a = compare(&mut exprs, "a", Operator::Gt, 1);
    let left = lps.add(ALogicalPlan::Selection { input: sort, predicate: on_a });
    let two = lps.add(ALogicalPlan::Scan {
        path: "two".to_string(),
        schema: names(&["b"]),
        predicate: None,
        scan_type: FileScan::Parquet,
    });
    let slice = lps.add(ALogicalPlan::Slice { input: two, offset: 0, len: 3 });
    let on_b = compare(&mut exprs, "b", Operator::Lt, 9);
    let right = lps.add(ALogicalPlan::Selection { input: slice, predicate: on_b });
    let root = ALogicalPlan::Join {
        input_left: left,
        input_right: right,
        left_on: vec![],
        right_on: vec![],
        schema: names(&["a", "b"]),
        how: JoinType::Cross,
    };
    let out = PredicatePushDown::new().optimize(root, &mut lps, &mut exprs).unwrap();
    // the join is the root still, with its two inputs
    let (l, r) = match &out {
        ALogicalPlan::Join { input_left, input_right, .. } => (*input_left, *input_right),
        other => panic!("expected the join, got {:?}", other),
    };
    // each predicate is in the plan of the input in which it stood
    let mut in_left = Vec::new();
    held(&lps, &exprs, lps.try_get(l).unwrap(), &mut in_left);
    let mut in_right = Vec::new();
    held(&lps, &exprs, lps.try_get(r).unwrap(), &mut in_right);
    assert!(in_left.contains(&on_a) && !in_left.contains(&on_b));
    assert!(in_right.contains(&on_b) && !in_right.contains(&on_a));
    // one went down to the scan, the other stays above the slice
    assert_eq!(describe(&lps, lps.try_get(l).unwrap()), format!("Sort[Scan(one, Some({:?}))[]]", on_a));
    assert!(describe(&lps, lps.try_get(r).unwrap()).starts_with(&format!("Selection({:?})[", on_b)));
}
