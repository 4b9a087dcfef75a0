use query_plan::aexpr::{
    AExpr, AggKind, ApplyOptions, ExprTest, FunctionOptions, LiteralValue, Operator,
};
use query_plan::arena::{Arena, Node};
use query_plan::datatypes::DataType;
use query_plan::expr_walk::{
    aexpr_to_leaf_names, aexprs_to_leaf_names, check_input_node, find_name, has_aexpr,
    substitute_columns, NamedNode,
};
use query_plan::predicate_pushdown::utils::{
    aexpr_output_name, aexprs_to_schema, predicate_is_pushdown_boundary,
    predicate_is_sort_boundary, projection_is_definite_pushdown_boundary, projection_map,
};
use query_plan::pyarrow::{decimal, predicate_to_pa, signed_decimal};

fn col(arena: &mut Arena<AExpr>, name: &str) -> Node {
    arena.add_expr(AExpr::Column(name.to_string()))
}

fn lit(arena: &mut Arena<AExpr>, v: i64) -> Node {
    arena.add_expr(AExpr::Literal(LiteralValue::Int64(v)))
}

fn binary(arena: &mut Arena<AExpr>, left: Node, op: Operator, right: Node) -> Node {
    arena.add_expr(AExpr::BinaryExpr { left, op, right })
}

fn names(list: &[&str]) -> Vec<String> {
    list.iter().map(|s| s.to_string()).collect()
}

fn function(arena: &mut Arena<AExpr>, input: Vec<Node>, groups: ApplyOptions, reduces: bool) -> Node {
    arena.add_expr(AExpr::Function {
        input,
        name: "f".to_string(),
        options: FunctionOptions { collect_groups: groups, auto_explode: reduces },
    })
}

#[test]
fn arena_slots_are_taken_and_replaced() {
    let mut arena: Arena<u32> = Arena::new();
    let a = arena.add(10);
    let b = arena.add(20);
    assert_eq!((a, b), (Node(0), Node(1)));
    assert_eq!(arena.len(), 2);
    assert_eq!(*arena.get(b), 20);
    assert_eq!(arena.take(a), Some(10));
    assert!(!arena.is_populated(a));
    assert_eq!(arena.try_get(a), None);
    assert_eq!(arena.take(a), None);
    assert_eq!(arena.take(Node(7)), None);
    assert_eq!(arena.len(), 2);
    arena.replace(a, 11);
    assert_eq!(arena.try_get(a), Some(&11));
    assert_eq!(arena.add(30), Node(2));
}

#[test]
fn leaf_names_come_from_left_to_right() {
    let mut arena = Arena::new();
    let a = col(&mut arena, "a");
    let b = col(&mut arena, "b");
    let sum = binary(&mut arena, b, Operator::Plus, a);
    let again = col(&mut arena, "a");
    let cmp = binary(&mut arena, sum, Operator::Gt, again);
    assert_eq!(aexpr_to_leaf_names(cmp, &arena), names(&["b", "a", "a"]));
    let one = lit(&mut arena, 1);
    assert_eq!(aexpr_to_leaf_names(one, &arena), Vec::<String>::new());
    assert_eq!(aexprs_to_leaf_names(&vec![a, one, sum], &arena), names(&["a", "b", "a"]));
    assert!(check_input_node(cmp, &names(&["a", "b", "c"]), &arena));
    assert!(!check_input_node(cmp, &names(&["a"]), &arena));
    assert!(check_input_node(one, &names(&[]), &arena));
}

#[test]
fn window_inputs_are_walked() {
    let mut arena = Arena::new();
    let a = col(&mut arena, "a");
    let g = col(&mut arena, "g");
    let h = col(&mut arena, "h");
    let sum = arena.add_expr(AExpr::Agg { kind: AggKind::Sum, input: a });
    let window = arena.add_expr(AExpr::Window { function: sum, partition_by: vec![g, h] });
    assert_eq!(aexpr_to_leaf_names(window, &arena), names(&["a", "g", "h"]));
    assert_eq!(arena.get(window).nodes(), vec![sum, g, h]);
    let rebuilt = arena.get(window).with_nodes(&vec![a, h, g]);
    match rebuilt {
        AExpr::Window { function, partition_by } => {
            assert_eq!(function, a);
            assert_eq!(partition_by, vec![h, g]);
        }
        other => panic!("unexpected {:?}", other),
    }
}

#[test]
fn classifiers_look_at_every_node() {
    let mut arena = Arena::new();
    let a = col(&mut arena, "a");
    let one = lit(&mut arena, 1);
    let plain = binary(&mut arena, a, Operator::Gt, one);
    assert!(!predicate_is_pushdown_boundary(plain, &arena));
    assert!(!predicate_is_sort_boundary(plain, &arena));
    assert!(!projection_is_definite_pushdown_boundary(plain, &arena));

    let sum = arena.add_expr(AExpr::Agg { kind: AggKind::Sum, input: a });
    let on_sum = binary(&mut arena, sum, Operator::Gt, one);
    assert!(predicate_is_pushdown_boundary(on_sum, &arena));
    assert!(projection_is_definite_pushdown_boundary(on_sum, &arena));
    assert!(!predicate_is_sort_boundary(on_sum, &arena));
    assert!(has_aexpr(on_sum, &arena, ExprTest::FullContext));

    let sorted = arena.add_expr(AExpr::Sort { expr: a, descending: false });
    assert!(predicate_is_pushdown_boundary(sorted, &arena));
    assert!(!projection_is_definite_pushdown_boundary(sorted, &arena));
    assert!(!has_aexpr(sorted, &arena, ExprTest::FullContext));

    let window = arena.add_expr(AExpr::Window { function: a, partition_by: vec![] });
    assert!(predicate_is_sort_boundary(window, &arena));
    assert!(has_aexpr(window, &arena, ExprTest::FullContext));

    let count = arena.add_expr(AExpr::Count);
    let on_count = binary(&mut arena, count, Operator::Gt, one);
    assert!(has_aexpr(on_count, &arena, ExprTest::Count));
    assert!(predicate_is_pushdown_boundary(on_count, &arena));
    assert!(!has_aexpr(plain, &arena, ExprTest::Count));

    let shift = function(&mut arena, vec![a], ApplyOptions::ApplyGroups, false);
    assert!(predicate_is_sort_boundary(shift, &arena));
    assert!(predicate_is_pushdown_boundary(shift, &arena));
    let reduce = function(&mut arena, vec![a], ApplyOptions::ApplyGroups, true);
    assert!(!predicate_is_sort_boundary(reduce, &arena));
    assert!(predicate_is_pushdown_boundary(reduce, &arena));
    let flat = function(&mut arena, vec![a], ApplyOptions::ApplyFlat, false);
    assert!(!predicate_is_pushdown_boundary(flat, &arena));

    let exploded = arena.add_expr(AExpr::Explode(a));
    assert!(predicate_is_pushdown_boundary(exploded, &arena));
    let negated = arena.add_expr(AExpr::Not(on_sum));
    assert!(predicate_is_pushdown_boundary(negated, &arena));
    let cast = arena.add_expr(AExpr::Cast { expr: a, data_type: DataType::Int64, strict: true });
    assert!(!predicate_is_pushdown_boundary(cast, &arena));
}

#[test]
fn substitution_replaces_columns_at_once_and_shares_the_rest() {
    let mut arena = Arena::new();
    let a = col(&mut arena, "a");
    let b = col(&mut arena, "b");
    let c = col(&mut arena, "c");
    let one = lit(&mut arena, 1);
    let left = binary(&mut arena, a, Operator::Gt, b);
    let right = binary(&mut arena, c, Operator::Eq, one);
    let both = binary(&mut arena, left, Operator::And, right);
    // a and b change places
    let map = vec![
        NamedNode { name: "a".to_string(), node: b },
        NamedNode { name: "b".to_string(), node: a },
    ];
    let before = arena.len();
    let out = substitute_columns(both, &map, &mut arena);
    assert_ne!(out, both);
    // two nodes were built: the comparison and the conjunction
    assert_eq!(arena.len(), before + 2);
    match arena.get(out) {
        AExpr::BinaryExpr { left: l, op: Operator::And, right: r } => {
            assert_eq!(*r, right);
            match arena.get(*l) {
                AExpr::BinaryExpr { left, op: Operator::Gt, right } => {
                    assert_eq!((*left, *right), (b, a));
                }
                other => panic!("unexpected {:?}", other),
            }
        }
        other => panic!("unexpected {:?}", other),
    }
    // nothing to replace: the same handle, and no new node
    let before = arena.len();
    assert_eq!(substitute_columns(right, &map, &mut arena), right);
    assert_eq!(arena.len(), before);
    assert_eq!(find_name(&map, &"b".to_string()), Some(1));
    assert_eq!(find_name(&map, &"z".to_string()), None);
}

#[test]
fn output_names_and_projection_maps() {
    let mut arena = Arena::new();
    let a = col(&mut arena, "a");
    let b = col(&mut arena, "b");
    let sum = binary(&mut arena, a, Operator::Plus, b);
    let alias = arena.add_expr(AExpr::Alias(sum, "total".to_string()));
    let one = lit(&mut arena, 1);
    let count = arena.add_expr(AExpr::Count);
    assert_eq!(aexpr_output_name(a, &arena), "a");
    assert_eq!(aexpr_output_name(sum, &arena), "a");
    assert_eq!(aexpr_output_name(alias, &arena), "total");
    assert_eq!(aexpr_output_name(one, &arena), "literal");
    assert_eq!(aexpr_output_name(count, &arena), "count");
    assert_eq!(
        aexprs_to_schema(&vec![b, alias, sum], &arena),
        names(&["b", "total", "a"])
    );
    let map = projection_map(&vec![b, alias, sum], &arena);
    assert_eq!(map.len(), 2);
    assert_eq!((map[0].name.as_str(), map[0].node), ("total", sum));
    assert_eq!((map[1].name.as_str(), map[1].node), ("a", sum));
}

#[test]
fn decimal_text() {
    assert_eq!(decimal(0), "0");
    assert_eq!(decimal(7), "7");
    assert_eq!(decimal(10), "10");
    assert_eq!(decimal(1234567890), "1234567890");
    assert_eq!(decimal(u64::MAX), "18446744073709551615");
    assert_eq!(signed_decimal(-1), "-1");
    assert_eq!(signed_decimal(42), "42");
    assert_eq!(signed_decimal(i64::MIN), "-9223372036854775808");
    assert_eq!(signed_decimal(i64::MAX), "9223372036854775807");
}

#[test]
fn predicates_as_text_for_the_engine() {
    let mut arena = Arena::new();
    let a = col(&mut arena, "a");
    let five = lit(&mut arena, 5);
    let gt = binary(&mut arena, a, Operator::Gt, five);
    assert_eq!(predicate_to_pa(gt, &arena).unwrap(), "(pa.compute.field('a') > 5)");
    let b = col(&mut arena, "b");
    let yes = arena.add_expr(AExpr::Literal(LiteralValue::Boolean(true)));
    let eq = binary(&mut arena, b, Operator::Eq, yes);
    let both = binary(&mut arena, gt, Operator::And, eq);
    assert_eq!(
        predicate_to_pa(both, &arena).unwrap(),
        "((pa.compute.field('a') > 5) & (pa.compute.field('b') == True))"
    );
    let not = arena.add_expr(AExpr::Not(eq));
    assert_eq!(predicate_to_pa(not, &arena).unwrap(), "~((pa.compute.field('b') == True))");
    let minus = lit(&mut arena, -3);
    let le = binary(&mut arena, a, Operator::LtEq, minus);
    assert_eq!(predicate_to_pa(le, &arena).unwrap(), "(pa.compute.field('a') <= -3)");
    // what the engine cannot read
    let null = arena.add_expr(AExpr::Literal(LiteralValue::Null));
    assert_eq!(predicate_to_pa(null, &arena), None);
    let xor = binary(&mut arena, gt, Operator::Xor, eq);
    assert_eq!(predicate_to_pa(xor, &arena), None);
    let sum = arena.add_expr(AExpr::Agg { kind: AggKind::Sum, input: a });
    let on_sum = binary(&mut arena, sum, Operator::Gt, five);
    assert_eq!(predicate_to_pa(on_sum, &arena), None);
}

#[test]
fn well_formed_arenas_have_inputs_before_their_nodes() {
    let mut arena: Arena<AExpr> = Arena::new();
    assert!(arena.is_well_formed());
    let a = arena.add(AExpr::Column("a".to_string()));
    let not = arena.add(AExpr::Not(a));
    assert!(arena.is_well_formed());
    // a node that names itself
    let own = Node(arena.len());
    arena.add(AExpr::Not(own));
    assert!(!arena.is_well_formed());
    // a vacant slot
    let mut arena: Arena<AExpr> = Arena::new();
    let a = arena.add(AExpr::Column("a".to_string()));
    arena.add(AExpr::Not(a));
    arena.take(a);
    assert!(!arena.is_well_formed());
    // an input that comes later
    let mut arena: Arena<AExpr> = Arena::new();
    arena.add(AExpr::Not(Node(1)));
    arena.add(AExpr::Column("a".to_string()));
    assert!(!arena.is_well_formed());
    let _ = not;
}
