use query_plan::aexpr::{AExpr, AggKind, ExprTest, LiteralValue, Operator};
use query_plan::alp::JoinType;
use query_plan::arena::{Arena, Node};
use query_plan::predicate_pushdown::join::join_partition;
use query_plan::predicate_pushdown::rename::process_rename;
use query_plan::predicate_pushdown::utils::{
    combine_predicates, predicate_at_scan, predicate_to_key, AccPredicates, Criterion,
};

fn col(arena: &mut Arena<AExpr>, name: &str) -> Node {
    arena.add_expr(AExpr::Column(name.to_string()))
}

fn lit(arena: &mut Arena<AExpr>, v: i64) -> Node {
    arena.add_expr(AExpr::Literal(LiteralValue::Int64(v)))
}

fn binary(arena: &mut Arena<AExpr>, left: Node, op: Operator, right: Node) -> Node {
    arena.add_expr(AExpr::BinaryExpr { left, op, right })
}

fn compare(arena: &mut Arena<AExpr>, name: &str, op: Operator, value: i64) -> Node {
    let c = col(arena, name);
    let v = lit(arena, value);
    binary(arena, c, op, v)
}

fn names(list: &[&str]) -> Vec<String> {
    list.iter().map(|s| s.to_string()).collect()
}

fn entries(acc: &AccPredicates) -> Vec<(String, Node)> {
    (0..acc.len()).map(|i| (acc.key_at(i).clone(), acc.node_at(i))).collect()
}

fn is_and(arena: &Arena<AExpr>, node: Node, l: Node, r: Node) -> bool {
    matches!(arena.get(node), AExpr::BinaryExpr { left, op: Operator::And, right } if *left == l && *right == r)
}

#[test]
fn key_is_first_column_or_underscore() {
    let mut arena = Arena::new();
    let b = col(&mut arena, "b");
    let a = col(&mut arena, "a");
    let sum = binary(&mut arena, b, Operator::Plus, a);
    assert_eq!(predicate_to_key(sum, &arena), "b");
    let one = lit(&mut arena, 1);
    assert_eq!(predicate_to_key(one, &arena), "_");
    let count = arena.add_expr(AExpr::Count);
    assert_eq!(predicate_to_key(count, &arena), "_");
}

#[test]
fn insert_stores_combines_and_deduplicates() {
    let mut arena = Arena::new();
    let p1 = compare(&mut arena, "a", Operator::Gt, 1);
    let p2 = compare(&mut arena, "b", Operator::Gt, 2);
    let p3 = compare(&mut arena, "a", Operator::Lt, 9);
    let mut acc = AccPredicates::new();
    assert!(acc.is_empty());
    acc.insert_and_combine_predicate(p1, &mut arena);
    acc.insert_and_combine_predicate(p2, &mut arena);
    assert_eq!(entries(&acc), vec![("a".to_string(), p1), ("b".to_string(), p2)]);
    // the same handle again: nothing changes
    let before = arena.len();
    acc.insert_and_combine_predicate(p1, &mut arena);
    assert_eq!(arena.len(), before);
    assert_eq!(entries(&acc), vec![("a".to_string(), p1), ("b".to_string(), p2)]);
    // another predicate on `a`: the conjunction of what was there and the new one
    acc.insert_and_combine_predicate(p3, &mut arena);
    assert_eq!(acc.len(), 2);
    assert_eq!(acc.key_at(0), "a");
    assert!(is_and(&arena, acc.node_at(0), p1, p3));
    assert_eq!(acc.node_at(1), p2);
    assert_eq!(acc.values(), vec![acc.node_at(0), p2]);
}

#[test]
fn combine_is_a_left_fold() {
    let mut arena = Arena::new();
    let p1 = compare(&mut arena, "a", Operator::Gt, 1);
    let p2 = compare(&mut arena, "b", Operator::Gt, 2);
    let p3 = compare(&mut arena, "c", Operator::Gt, 3);
    let before = arena.len();
    assert_eq!(combine_predicates(&vec![p2], &mut arena), p2);
    assert_eq!(arena.len(), before);
    let all = combine_predicates(&vec![p1, p2, p3], &mut arena);
    assert_eq!(arena.len(), before + 2);
    match arena.get(all) {
        AExpr::BinaryExpr { left, op: Operator::And, right } => {
            assert_eq!(*right, p3);
            assert!(is_and(&arena, *left, p1, p2));
        }
        other => panic!("unexpected {:?}", other),
    }
}

#[test]
fn predicate_at_scan_joins_everything() {
    let mut arena = Arena::new();
    let p1 = compare(&mut arena, "a", Operator::Gt, 1);
    let p2 = compare(&mut arena, "b", Operator::Gt, 2);
    let old = compare(&mut arena, "c", Operator::Gt, 3);
    // nothing to add: what the scan held
    assert_eq!(predicate_at_scan(AccPredicates::new(), None, &mut arena), None);
    assert_eq!(predicate_at_scan(AccPredicates::new(), Some(old), &mut arena), Some(old));
    let mut acc = AccPredicates::new();
    acc.insert_and_combine_predicate(p1, &mut arena);
    assert_eq!(predicate_at_scan(acc.duplicate(), None, &mut arena), Some(p1));
    acc.insert_and_combine_predicate(p2, &mut arena);
    let out = predicate_at_scan(acc, Some(old), &mut arena).unwrap();
    match arena.get(out) {
        AExpr::BinaryExpr { left, op: Operator::And, right } => {
            assert_eq!(*right, old);
            assert!(is_and(&arena, *left, p1, p2));
        }
        other => panic!("unexpected {:?}", other),
    }
}

#[test]
fn transfer_by_name_looks_at_key_and_columns() {
    let mut arena = Arena::new();
    let on_a = compare(&mut arena, "a", Operator::Gt, 1);
    let b = col(&mut arena, "b");
    let c = col(&mut arena, "c");
    let on_b_c = binary(&mut arena, b, Operator::Lt, c);
    let on_d = compare(&mut arena, "d", Operator::Gt, 1);
    let mut acc = AccPredicates::new();
    for p in [on_a, on_b_c, on_d] {
        acc.insert_and_combine_predicate(p, &mut arena);
    }
    let local = acc.transfer_to_local_by_name(&arena, &names(&["c", "a"]));
    assert_eq!(local, vec![on_a, on_b_c]);
    assert_eq!(entries(&acc), vec![("d".to_string(), on_d)]);
    let local = acc.transfer_to_local_by_name(&arena, &names(&["x"]));
    assert!(local.is_empty());
    assert_eq!(acc.len(), 1);
}

#[test]
fn transfer_by_node_and_other_criteria() {
    let mut arena = Arena::new();
    let on_a = compare(&mut arena, "a", Operator::Gt, 1);
    let b = col(&mut arena, "b");
    let sum = arena.add_expr(AExpr::Agg { kind: AggKind::Sum, input: b });
    let one = lit(&mut arena, 1);
    let on_sum = binary(&mut arena, sum, Operator::Gt, one);
    let c = col(&mut arena, "c");
    let d = col(&mut arena, "d");
    let on_c_d = binary(&mut arena, c, Operator::Lt, d);
    let mut acc = AccPredicates::new();
    for p in [on_a, on_sum, on_c_d] {
        acc.insert_and_combine_predicate(p, &mut arena);
    }
    let (kept, gone) = acc.split(&arena, &Criterion::MultiRoot);
    assert_eq!(kept.values(), vec![on_a, on_sum]);
    assert_eq!(gone.values(), vec![on_c_d]);
    let (kept, local) = acc.partition(&arena, &Criterion::NotIn(&names(&["a", "b"])));
    assert_eq!(kept.values(), vec![on_a, on_sum]);
    assert_eq!(local, vec![on_c_d]);
    let mut copy = acc.duplicate();
    assert_eq!(copy.partition_by_full_context(&arena), vec![on_sum]);
    assert_eq!(copy.values(), vec![on_a, on_c_d]);
    let local = acc.transfer_to_local_by_node(&arena, ExprTest::PushdownBoundary);
    assert_eq!(local, vec![on_sum]);
    assert_eq!(acc.values(), vec![on_a, on_c_d]);
}

#[test]
fn rename_rewrites_to_the_names_below() {
    let mut arena = Arena::new();
    let on_new = compare(&mut arena, "b", Operator::Eq, 1);
    let on_other = compare(&mut arena, "c", Operator::Eq, 2);
    let on_missing = compare(&mut arena, "z", Operator::Eq, 3);
    let mut acc = AccPredicates::new();
    for p in [on_new, on_other, on_missing] {
        acc.insert_and_combine_predicate(p, &mut arena);
    }
    let local = process_rename(
        &mut acc,
        &mut arena,
        &names(&["a"]),
        &names(&["b"]),
        &names(&["a", "c"]),
    );
    assert_eq!(local, vec![on_missing]);
    assert_eq!(acc.len(), 2);
    assert_eq!(acc.key_at(0), "a");
    match arena.get(acc.node_at(0)) {
        AExpr::BinaryExpr { left, op: Operator::Eq, .. } => {
            assert!(matches!(arena.get(*left), AExpr::Column(n) if n == "a"));
        }
        other => panic!("unexpected {:?}", other),
    }
    assert_eq!((acc.key_at(1).as_str(), acc.node_at(1)), ("c", on_other));
    // an empty accumulator is left alone, and nothing is built
    let mut empty = AccPredicates::new();
    let before = arena.len();
    let local = process_rename(&mut empty, &mut arena, &names(&["a"]), &names(&["b"]), &names(&["a"]));
    assert!(local.is_empty() && empty.is_empty());
    assert_eq!(arena.len(), before);
}

fn join_case(how: JoinType) -> (Vec<Node>, Vec<Node>, Vec<Node>, [Node; 4]) {
    let mut arena = Arena::new();
    let on_left = compare(&mut arena, "a", Operator::Eq, 1);
    let on_right = compare(&mut arena, "b", Operator::Eq, 2);
    let c = col(&mut arena, "c");
    let d = col(&mut arena, "d");
    let on_both = binary(&mut arena, c, Operator::Lt, d);
    let on_none = lit(&mut arena, 1);
    let mut acc = AccPredicates::new();
    for p in [on_left, on_right, on_both, on_none] {
        acc.insert_and_combine_predicate(p, &mut arena);
    }
    let (left, right, local) = join_partition(
        &acc,
        &mut arena,
        how,
        &names(&["a", "c"]),
        &names(&["b", "d"]),
        &vec![],
        &vec![],
    );
    (left.values(), right.values(), local, [on_left, on_right, on_both, on_none])
}

#[test]
fn join_kinds_push_to_the_sides_they_may() {
    let (left, right, local, [l, r, b, n]) = join_case(JoinType::Inner);
    assert_eq!((left, right, local), (vec![l], vec![r], vec![b, n]));
    let (left, right, local, [l, r, b, n]) = join_case(JoinType::Cross);
    assert_eq!((left, right, local), (vec![l], vec![r], vec![b, n]));
    let (left, right, local, [l, r, b, n]) = join_case(JoinType::Left);
    assert_eq!((left, right, local), (vec![l], vec![], vec![r, b, n]));
    let (left, right, local, [l, r, b, n]) = join_case(JoinType::Semi);
    assert_eq!((left, right, local), (vec![l], vec![], vec![r, b, n]));
    let (left, right, local, [l, r, b, n]) = join_case(JoinType::Anti);
    assert_eq!((left, right, local), (vec![l], vec![], vec![r, b, n]));
    let (left, right, local, [l, r, b, n]) = join_case(JoinType::Outer);
    assert_eq!((left, right, local), (vec![], vec![], vec![l, r, b, n]));
    let (left, right, local, [l, r, b, n]) = join_case(JoinType::AsOf);
    assert_eq!((left, right, local), (vec![l], vec![r], vec![b, n]));
}

#[test]
fn as_of_join_keeps_predicates_on_its_key_above() {
    let mut arena = Arena::new();
    let on_key = compare(&mut arena, "t2", Operator::Gt, 5);
    let on_other = compare(&mut arena, "b", Operator::Gt, 5);
    let lk = col(&mut arena, "t");
    let rk = col(&mut arena, "t2");
    let mut acc = AccPredicates::new();
    acc.insert_and_combine_predicate(on_key, &mut arena);
    acc.insert_and_combine_predicate(on_other, &mut arena);
    let (left, right, local) = join_partition(
        &acc,
        &mut arena,
        JoinType::AsOf,
        &names(&["t", "a"]),
        &names(&["t2", "b"]),
        &vec![lk],
        &vec![rk],
    );
    assert!(left.is_empty());
    assert_eq!(right.values(), vec![on_other]);
    assert_eq!(local, vec![on_key]);
}

#[test]
fn inner_join_keeps_a_predicate_on_both_sides_above() {
    let mut arena = Arena::new();
    // reads the left key and a right column
    let k = col(&mut arena, "k");
    let y = col(&mut arena, "y");
    let mixed = binary(&mut arena, k, Operator::Lt, y);
    let lk = col(&mut arena, "k");
    let rk = col(&mut arena, "k2");
    let on_right_key = compare(&mut arena, "k2", Operator::Gt, 0);
    let mut acc = AccPredicates::new();
    acc.insert_and_combine_predicate(mixed, &mut arena);
    acc.insert_and_combine_predicate(on_right_key, &mut arena);
    let size = arena.len();
    let (left, right, local) = join_partition(
        &acc,
        &arena,
        JoinType::Inner,
        &names(&["k", "x"]),
        &names(&["k2", "y"]),
        &vec![lk],
        &vec![rk],
    );
    assert!(left.is_empty());
    // the predicate on the right key goes right, as it came in
    assert_eq!(right.values(), vec![on_right_key]);
    // the predicate on both sides stays, as it came in
    assert_eq!(local, vec![mixed]);
    assert_eq!(arena.len(), size);
}

#[test]
fn join_keeps_a_predicate_on_a_column_of_both_inputs_above() {
    let mut arena = Arena::new();
    let on_shared = compare(&mut arena, "k", Operator::Gt, 0);
    let lk = col(&mut arena, "k");
    let rk = col(&mut arena, "k");
    let mut acc = AccPredicates::new();
    acc.insert_and_combine_predicate(on_shared, &mut arena);
    let (left, right, local) = join_partition(
        &acc,
        &arena,
        JoinType::Inner,
        &names(&["k", "x"]),
        &names(&["k", "y"]),
        &vec![lk],
        &vec![rk],
    );
    assert!(left.is_empty() && right.is_empty());
    assert_eq!(local, vec![on_shared]);
}
