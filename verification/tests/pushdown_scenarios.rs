use query_plan::aexpr::{AExpr, AggKind, LiteralValue, Operator};
use query_plan::alp::{ALogicalPlan, FileScan, FunctionNode, JoinType};
use query_plan::arena::{Arena, Node};
use query_plan::predicate_pushdown::driver::PredicatePushDown;

fn names(list: &[&str]) -> Vec<String> {
    list.iter().map(|s| s.to_string()).collect()
}

fn col(arena: &mut Arena<AExpr>, name: &str) -> Node {
    arena.add_expr(AExpr::Column(name.to_string()))
}

fn lit(arena: &mut Arena<AExpr>, v: i64) -> Node {
    arena.add_expr(AExpr::Literal(LiteralValue::Int64(v)))
}

fn binary(arena: &mut Arena<AExpr>, left: Node, op: Operator, right: Node) -> Node {
    arena.add_expr(AExpr::BinaryExpr { left, op, right })
}

/// `name op value`
fn compare(arena: &mut Arena<AExpr>, name: &str, op: Operator, value: i64) -> Node {
    let c = col(arena, name);
    let v = lit(arena, value);
    binary(arena, c, op, v)
}

fn scan(columns: &[&str], scan_type: FileScan) -> ALogicalPlan {
    ALogicalPlan::Scan {
        path: "data".to_string(),
        schema: names(columns),
        predicate: None,
        scan_type,
    }
}

fn is_comparison(arena: &Arena<AExpr>, node: Node, name: &str, op: Operator, value: i64) -> bool {
    match arena.get(node) {
        AExpr::BinaryExpr { left, op: found, right } => {
            *found == op
                && matches!(arena.get(*left), AExpr::Column(n) if n == name)
                && matches!(arena.get(*right), AExpr::Literal(LiteralValue::Int64(v)) if *v == value)
        }
        _ => false,
    }
}

#[test]
fn filter_over_parquet_scan_moves_into_the_scan() {
    let mut lps: Arena<ALogicalPlan> = Arena::new();
    let mut exprs: Arena<AExpr> = Arena::new();
    let source = lps.add(scan(&["a", "b"], FileScan::Parquet));
    let predicate = compare(&mut exprs, "a", Operator::Gt, 5);
    let root = ALogicalPlan::Selection { input: source, predicate };

    let out = PredicatePushDown::new().optimize(root, &mut lps, &mut exprs).unwrap();
    match out {
        ALogicalPlan::Scan { predicate: found, scan_type, .. } => {
            assert_eq!(found, Some(predicate));
            assert_eq!(scan_type, FileScan::Parquet);
        }
        other => panic!("expected a scan, got {:?}", other),
    }
    // no filter node was made
    assert_eq!(lps.len(), 1);
}

#[test]
fn filter_over_csv_scan_stays_a_filter() {
    let mut lps: Arena<ALogicalPlan> = Arena::new();
    let mut exprs: Arena<AExpr> = Arena::new();
    let source = lps.add(scan(&["a", "b"], FileScan::Csv));
    let predicate = compare(&mut exprs, "a", Operator::Gt, 5);
    let root = ALogicalPlan::Selection { input: source, predicate };

    let out = PredicatePushDown::new().optimize(root, &mut lps, &mut exprs).unwrap();
    match out {
        ALogicalPlan::Selection { input, predicate: found } => {
            assert_eq!(found, predicate);
            match lps.try_get(input) {
                Some(ALogicalPlan::Scan { predicate: None, scan_type: FileScan::Csv, .. }) => {}
                other => panic!("expected a csv scan without predicate, got {:?}", other),
            }
        }
        other => panic!("expected a filter, got {:?}", other),
    }
}

#[test]
fn filter_below_aggregate_moves_down_and_filter_above_stays() {
    let mut lps: Arena<ALogicalPlan> = Arena::new();
    let mut exprs: Arena<AExpr> = Arena::new();
    let source = lps.add(scan(&["a", "b", "c"], FileScan::Parquet));
    let below = compare(&mut exprs, "b", Operator::Eq, 1);
    let filtered = lps.add(ALogicalPlan::Selection { input: source, predicate: below });
    let key = col(&mut exprs, "c");
    let a = col(&mut exprs, "a");
    let sum = exprs.add_expr(AExpr::Agg { kind: AggKind::Sum, input: a });
    let aggregate = lps.add(ALogicalPlan::Aggregate {
        input: filtered,
        keys: vec![key],
        aggs: vec![sum],
        schema: names(&["c", "a"]),
    });
    let above = compare(&mut exprs, "a", Operator::Gt, 10);
    let root = ALogicalPlan::Selection { input: aggregate, predicate: above };

    let out = PredicatePushDown::new().optimize(root, &mut lps, &mut exprs).unwrap();
    // the filter on the sum is still above the aggregate
    let agg_slot = match out {
        ALogicalPlan::Selection { input, predicate } => {
            assert_eq!(predicate, above);
            input
        }
        other => panic!("expected a filter, got {:?}", other),
    };
    let agg_input = match lps.try_get(agg_slot) {
        Some(ALogicalPlan::Aggregate { input, .. }) => *input,
        other => panic!("expected the aggregate, got {:?}", other),
    };
    // and the filter below it is on the scan
    match lps.try_get(agg_input) {
        Some(ALogicalPlan::Scan { predicate, .. }) => assert_eq!(*predicate, Some(below)),
        other => panic!("expected the scan, got {:?}", other),
    }
}

#[test]
fn filter_across_rename_reads_the_old_name() {
    let mut lps: Arena<ALogicalPlan> = Arena::new();
    let mut exprs: Arena<AExpr> = Arena::new();
    let source = lps.add(scan(&["a"], FileScan::Parquet));
    let rename = lps.add(ALogicalPlan::MapFunction {
        input: source,
        function: FunctionNode::Rename { existing: names(&["a"]), new: names(&["b"]) },
    });
    let predicate = compare(&mut exprs, "b", Operator::Eq, 1);
    let root = ALogicalPlan::Selection { input: rename, predicate };

    let out = PredicatePushDown::new().optimize(root, &mut lps, &mut exprs).unwrap();
    let input = match out {
        ALogicalPlan::MapFunction { input, function: FunctionNode::Rename { .. } } => input,
        other => panic!("expected the rename, got {:?}", other),
    };
    match lps.try_get(input) {
        Some(ALogicalPlan::Scan { predicate: Some(p), .. }) => {
            assert!(is_comparison(&exprs, *p, "a", Operator::Eq, 1));
        }
        other => panic!("expected a scan with a predicate, got {:?}", other),
    }
}

#[test]
fn filters_across_inner_join_go_to_their_side() {
    let mut lps: Arena<ALogicalPlan> = Arena::new();
    let mut exprs: Arena<AExpr> = Arena::new();
    let left = lps.add(scan(&["a", "k", "c"], FileScan::Parquet));
    let right = lps.add(scan(&["b", "k2"], FileScan::Parquet));
    let lk = col(&mut exprs, "k");
    let rk = col(&mut exprs, "k2");
    let join = lps.add(ALogicalPlan::Join {
        input_left: left,
        input_right: right,
        left_on: vec![lk],
        right_on: vec![rk],
        schema: names(&["a", "k", "c", "b"]),
        how: JoinType::Inner,
    });
    let on_left = compare(&mut exprs, "a", Operator::Eq, 1);
    let on_right = compare(&mut exprs, "b", Operator::Eq, 2);
    let c = col(&mut exprs, "c");
    let b = col(&mut exprs, "b");
    let sum = binary(&mut exprs, c, Operator::Plus, b);
    let three = lit(&mut exprs, 3);
    let on_both = binary(&mut exprs, sum, Operator::Eq, three);
    let s1 = lps.add(ALogicalPlan::Selection { input: join, predicate: on_left });
    let s2 = lps.add(ALogicalPlan::Selection { input: s1, predicate: on_right });
    let root = ALogicalPlan::Selection { input: s2, predicate: on_both };

    let out = PredicatePushDown::new().optimize(root, &mut lps, &mut exprs).unwrap();
    let join_slot = match out {
        ALogicalPlan::Selection { input, predicate } => {
            assert_eq!(predicate, on_both);
            input
        }
        other => panic!("expected a filter above the join, got {:?}", other),
    };
    let (l, r) = match lps.try_get(join_slot) {
        Some(ALogicalPlan::Join { input_left, input_right, .. }) => (*input_left, *input_right),
        other => panic!("expected the join, got {:?}", other),
    };
    match lps.try_get(l) {
        Some(ALogicalPlan::Scan { predicate, .. }) => assert_eq!(*predicate, Some(on_left)),
        other => panic!("expected the left scan, got {:?}", other),
    }
    match lps.try_get(r) {
        Some(ALogicalPlan::Scan { predicate, .. }) => assert_eq!(*predicate, Some(on_right)),
        other => panic!("expected the right scan, got {:?}", other),
    }
}

#[test]
fn filters_with_one_key_are_combined_and_stay_above_the_join_together() {
    let mut lps: Arena<ALogicalPlan> = Arena::new();
    let mut exprs: Arena<AExpr> = Arena::new();
    let left = lps.add(scan(&["a"], FileScan::Parquet));
    let right = lps.add(scan(&["b"], FileScan::Parquet));
    let join = lps.add(ALogicalPlan::Join {
        input_left: left,
        input_right: right,
        left_on: vec![],
        right_on: vec![],
        schema: names(&["a", "b"]),
        how: JoinType::Cross,
    });
    let on_left = compare(&mut exprs, "a", Operator::Eq, 1);
    let a = col(&mut exprs, "a");
    let b = col(&mut exprs, "b");
    let sum = binary(&mut exprs, a, Operator::Plus, b);
    let three = lit(&mut exprs, 3);
    let on_both = binary(&mut exprs, sum, Operator::Eq, three);
    let s1 = lps.add(ALogicalPlan::Selection { input: join, predicate: on_left });
    let root = ALogicalPlan::Selection { input: s1, predicate: on_both };

    let out = PredicatePushDown::new().optimize(root, &mut lps, &mut exprs).unwrap();
    // both read `a` first: one entry, the conjunction of the two
    match out {
        ALogicalPlan::Selection { predicate, input } => {
            match exprs.get(predicate) {
                AExpr::BinaryExpr { left, op: Operator::And, right } => {
                    assert_eq!(*left, on_both);
                    assert_eq!(*right, on_left);
                }
                other => panic!("expected a conjunction, got {:?}", other),
            }
            match lps.try_get(input) {
                Some(ALogicalPlan::Join { input_left, .. }) => match lps.try_get(*input_left) {
                    Some(ALogicalPlan::Scan { predicate: None, .. }) => {}
                    other => panic!("expected the left scan untouched, got {:?}", other),
                },
                other => panic!("expected the join, got {:?}", other),
            }
        }
        other => panic!("expected a filter above the join, got {:?}", other),
    }
}

#[test]
fn count_filter_stays_above_union_and_others_go_into_each_branch() {
    let mut lps: Arena<ALogicalPlan> = Arena::new();
    let mut exprs: Arena<AExpr> = Arena::new();
    let first = lps.add(scan(&["a"], FileScan::Parquet));
    let second = lps.add(scan(&["a"], FileScan::Parquet));
    let union = lps.add(ALogicalPlan::Union { inputs: vec![first, second] });
    let count = exprs.add_expr(AExpr::Count);
    let zero = lit(&mut exprs, 0);
    let on_count = binary(&mut exprs, count, Operator::Gt, zero);
    let on_a = compare(&mut exprs, "a", Operator::Gt, 5);
    let s1 = lps.add(ALogicalPlan::Selection { input: union, predicate: on_count });
    let root = ALogicalPlan::Selection { input: s1, predicate: on_a };

    let out = PredicatePushDown::new().optimize(root, &mut lps, &mut exprs).unwrap();
    let union_slot = match out {
        ALogicalPlan::Selection { input, predicate } => {
            assert_eq!(predicate, on_count);
            input
        }
        other => panic!("expected a filter above the union, got {:?}", other),
    };
    let branches = match lps.try_get(union_slot) {
        Some(ALogicalPlan::Union { inputs }) => inputs.clone(),
        other => panic!("expected the union, got {:?}", other),
    };
    assert_eq!(branches, vec![first, second]);
    for branch in branches {
        match lps.try_get(branch) {
            Some(ALogicalPlan::Scan { predicate, .. }) => assert_eq!(*predicate, Some(on_a)),
            other => panic!("expected a scan, got {:?}", other),
        }
    }
}

#[test]
fn filter_on_a_left_key_and_a_right_column_stays_above_the_join() {
    let mut lps: Arena<ALogicalPlan> = Arena::new();
    let mut exprs: Arena<AExpr> = Arena::new();
    let left = lps.add(scan(&["a"], FileScan::Parquet));
    let right = lps.add(scan(&["k", "b"], FileScan::Parquet));
    let lk = col(&mut exprs, "a");
    let rk = col(&mut exprs, "k");
    let join = lps.add(ALogicalPlan::Join {
        input_left: left,
        input_right: right,
        left_on: vec![lk],
        right_on: vec![rk],
        schema: names(&["a", "b"]),
        how: JoinType::Inner,
    });
    let a = col(&mut exprs, "a");
    let b = col(&mut exprs, "b");
    let on_both = binary(&mut exprs, a, Operator::Lt, b);
    let root = ALogicalPlan::Selection { input: join, predicate: on_both };
    let size = exprs.len();
    let out = PredicatePushDown::new().optimize(root, &mut lps, &mut exprs).unwrap();
    let join_slot = match out {
        ALogicalPlan::Selection { input, predicate } => {
            assert_eq!(predicate, on_both);
            input
        }
        other => panic!("expected a filter above the join, got {:?}", other),
    };
    assert!(matches!(lps.try_get(join_slot), Some(ALogicalPlan::Join { .. })));
    assert!(matches!(lps.try_get(left), Some(ALogicalPlan::Scan { predicate: None, .. })));
    assert!(matches!(lps.try_get(right), Some(ALogicalPlan::Scan { predicate: None, .. })));
    assert_eq!(exprs.len(), size);
}
