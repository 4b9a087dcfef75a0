use query_plan::aexpr::{AExpr, AggKind, LiteralValue, Operator};
use query_plan::alp::{ALogicalPlan, FileScan, FunctionNode, JoinType, UniqueKeepStrategy};
use query_plan::arena::{Arena, Node};
use query_plan::error::PolarsError;
use query_plan::plan_schema::plan_schema;
use query_plan::predicate_pushdown::driver::PredicatePushDown;
use query_plan::predicate_pushdown::utils::AccPredicates;

struct Fixture {
    lps: Arena<ALogicalPlan>,
    exprs: Arena<AExpr>,
}

fn names(list: &[&str]) -> Vec<String> {
    list.iter().map(|s| s.to_string()).collect()
}

impl Fixture {
    fn new() -> Self {
        Fixture { lps: Arena::new(), exprs: Arena::new() }
    }

    fn col(&mut self, name: &str) -> Node {
        self.exprs.add_expr(AExpr::Column(name.to_string()))
    }

    fn lit(&mut self, v: i64) -> Node {
        self.exprs.add_expr(AExpr::Literal(LiteralValue::Int64(v)))
    }

    fn binary(&mut self, left: Node, op: Operator, right: Node) -> Node {
        self.exprs.add_expr(AExpr::BinaryExpr { left, op, right })
    }

    fn compare(&mut self, name: &str, op: Operator, value: i64) -> Node {
        let c = self.col(name);
        let v = self.lit(value);
        self.binary(c, op, v)
    }

    fn scan(&mut self, columns: &[&str]) -> Node {
        self.lps.add(ALogicalPlan::Scan {
            path: "data".to_string(),
            schema: names(columns),
            predicate: None,
            scan_type: FileScan::Parquet,
        })
    }

    fn filter(&mut self, input: Node, predicate: Node) -> ALogicalPlan {
        ALogicalPlan::Selection { input, predicate }
    }

    fn optimize(&mut self, root: ALogicalPlan) -> ALogicalPlan {
        PredicatePushDown::new().optimize(root, &mut self.lps, &mut self.exprs).unwrap()
    }

    fn node(&self, n: Node) -> &ALogicalPlan {
        self.lps.try_get(n).expect("a populated slot")
    }

    fn scan_predicate(&self, n: Node) -> Option<Node> {
        match self.node(n) {
            ALogicalPlan::Scan { predicate, .. } => *predicate,
            other => panic!("expected a scan, got {:?}", other),
        }
    }

    fn is_comparison(&self, node: Node, name: &str, op: Operator, value: i64) -> bool {
        match self.exprs.get(node) {
            AExpr::BinaryExpr { left, op: found, right } => {
                *found == op
                    && matches!(self.exprs.get(*left), AExpr::Column(n) if n == name)
                    && matches!(self.exprs.get(*right), AExpr::Literal(LiteralValue::Int64(v)) if *v == value)
            }
            _ => false,
        }
    }

    fn is_and(&self, node: Node, l: Node, r: Node) -> bool {
        matches!(self.exprs.get(node), AExpr::BinaryExpr { left, op: Operator::And, right } if *left == l && *right == r)
    }
}

/// The filter that the pass put above a node, and the slot of that node.
fn unwrap_filter(plan: ALogicalPlan) -> (Node, Node) {
    match plan {
        ALogicalPlan::Selection { input, predicate } => (predicate, input),
        other => panic!("expected a filter, got {:?}", other),
    }
}

#[test]
fn plan_without_filters_is_unchanged() {
    let mut f = Fixture::new();
    let source = f.scan(&["a"]);
    let sorted = ALogicalPlan::Sort { input: source, by_column: vec![], descending: false };
    let len = f.lps.len();
    match f.optimize(sorted) {
        ALogicalPlan::Sort { input, .. } => assert_eq!(input, source),
        other => panic!("unexpected {:?}", other),
    }
    assert_eq!(f.lps.len(), len);
    assert_eq!(f.scan_predicate(source), None);
}

#[test]
fn two_filters_on_one_column_are_combined_on_the_scan() {
    let mut f = Fixture::new();
    let source = f.scan(&["a"]);
    let low = f.compare("a", Operator::Gt, 1);
    let high = f.compare("a", Operator::Lt, 9);
    let inner = f.filter(source, low);
    let inner = f.lps.add(inner);
    let root = f.filter(inner, high);
    match f.optimize(root) {
        ALogicalPlan::Scan { predicate: Some(p), .. } => assert!(f.is_and(p, high, low)),
        other => panic!("unexpected {:?}", other),
    }
    // the slots of the two filter inputs were taken and not given back
    assert!(!f.lps.is_populated(source));
    assert!(!f.lps.is_populated(inner));
}

#[test]
fn scan_keeps_its_predicate_and_adds_to_it() {
    let mut f = Fixture::new();
    let old = f.compare("a", Operator::Gt, 1);
    let source = f.lps.add(ALogicalPlan::Scan {
        path: "data".to_string(),
        schema: names(&["a", "b"]),
        predicate: Some(old),
        scan_type: FileScan::Ipc,
    });
    let new = f.compare("b", Operator::Gt, 2);
    let root = f.filter(source, new);
    match f.optimize(root) {
        ALogicalPlan::Scan { predicate: Some(p), scan_type: FileScan::Ipc, .. } => {
            assert!(f.is_and(p, new, old))
        }
        other => panic!("unexpected {:?}", other),
    }
}

#[test]
fn scan_applies_full_context_predicates_above_itself() {
    let mut f = Fixture::new();
    let source = f.scan(&["a", "b"]);
    let a = f.col("a");
    let sum = f.exprs.add_expr(AExpr::Agg { kind: AggKind::Sum, input: a });
    let one = f.lit(1);
    let on_sum = f.binary(sum, Operator::Gt, one);
    let plain = f.compare("b", Operator::Gt, 2);
    let inner = f.filter(source, plain);
    let inner = f.lps.add(inner);
    let root = f.filter(inner, on_sum);
    let (predicate, below) = unwrap_filter(f.optimize(root));
    assert_eq!(predicate, on_sum);
    assert_eq!(f.scan_predicate(below), Some(plain));
}

#[test]
fn boundary_predicate_in_flight_stays_above_a_filter() {
    let mut f = Fixture::new();
    let source = f.lps.add(ALogicalPlan::DataFrameScan { schema: names(&["a"]), selection: None });
    let a = f.col("a");
    let sorted = f.exprs.add_expr(AExpr::Sort { expr: a, descending: true });
    let one = f.lit(1);
    let on_sorted = f.binary(sorted, Operator::Gt, one);
    let plain = f.compare("a", Operator::Gt, 2);
    let inner = f.filter(source, plain);
    let inner = f.lps.add(inner);
    let root = f.filter(inner, on_sorted);
    let (predicate, below) = unwrap_filter(f.optimize(root));
    assert_eq!(predicate, on_sorted);
    match f.node(below) {
        ALogicalPlan::DataFrameScan { selection, .. } => assert_eq!(*selection, Some(plain)),
        other => panic!("unexpected {:?}", other),
    }
}

#[test]
fn table_in_memory_takes_every_predicate() {
    let mut f = Fixture::new();
    let source = f.lps.add(ALogicalPlan::DataFrameScan { schema: names(&["a"]), selection: None });
    let a = f.col("a");
    let sum = f.exprs.add_expr(AExpr::Agg { kind: AggKind::Sum, input: a });
    let one = f.lit(1);
    let on_sum = f.binary(sum, Operator::Gt, one);
    let root = f.filter(source, on_sum);
    match f.optimize(root) {
        ALogicalPlan::DataFrameScan { selection, .. } => assert_eq!(selection, Some(on_sum)),
        other => panic!("unexpected {:?}", other),
    }
}

#[test]
fn anonymous_scan_asks_whether_it_takes_predicates() {
    for allows in [true, false] {
        let mut f = Fixture::new();
        let source = f.lps.add(ALogicalPlan::AnonymousScan {
            schema: names(&["a"]),
            allows_predicate_pushdown: allows,
            predicate: None,
        });
        let p = f.compare("a", Operator::Gt, 1);
        let root = f.filter(source, p);
        let out = f.optimize(root);
        if allows {
            match out {
                ALogicalPlan::AnonymousScan { predicate, .. } => assert_eq!(predicate, Some(p)),
                other => panic!("unexpected {:?}", other),
            }
        } else {
            let (predicate, below) = unwrap_filter(out);
            assert_eq!(predicate, p);
            match f.node(below) {
                ALogicalPlan::AnonymousScan { predicate: None, .. } => {}
                other => panic!("unexpected {:?}", other),
            }
        }
    }
}

#[test]
fn python_scan_takes_text_or_leaves_a_filter() {
    let scan = |pyarrow| ALogicalPlan::PythonScan {
        schema: names(&["a"]),
        pyarrow,
        pushed_predicate: None,
        predicate: None,
    };
    // the engine can read the predicate
    let mut f = Fixture::new();
    let source = f.lps.add(scan(true));
    let p = f.compare("a", Operator::Gt, 5);
    let root = f.filter(source, p);
    match f.optimize(root) {
        ALogicalPlan::PythonScan { pushed_predicate, predicate, .. } => {
            assert_eq!(pushed_predicate.as_deref(), Some("(pa.compute.field('a') > 5)"));
            assert_eq!(predicate, None);
        }
        other => panic!("unexpected {:?}", other),
    }
    // it cannot
    let mut f = Fixture::new();
    let source = f.lps.add(scan(true));
    let a = f.col("a");
    let null = f.exprs.add_expr(AExpr::Literal(LiteralValue::Null));
    let p = f.binary(a, Operator::Eq, null);
    let root = f.filter(source, p);
    let (predicate, below) = unwrap_filter(f.optimize(root));
    assert_eq!(predicate, p);
    assert!(matches!(
        f.node(below),
        ALogicalPlan::PythonScan { pushed_predicate: None, predicate: None, .. }
    ));
    // no arrow engine
    let mut f = Fixture::new();
    let source = f.lps.add(scan(false));
    let p = f.compare("a", Operator::Gt, 5);
    let root = f.filter(source, p);
    let (predicate, _) = unwrap_filter(f.optimize(root));
    assert_eq!(predicate, p);
}

#[test]
fn slice_and_cache_let_nothing_pass() {
    for kind in 0..2 {
        let mut f = Fixture::new();
        let source = f.scan(&["a"]);
        let node = if kind == 0 {
            ALogicalPlan::Slice { input: source, offset: 0, len: 10 }
        } else {
            ALogicalPlan::Cache { input: source, id: 1 }
        };
        let node = f.lps.add(node);
        let p = f.compare("a", Operator::Gt, 1);
        let root = f.filter(node, p);
        let (predicate, below) = unwrap_filter(f.optimize(root));
        assert_eq!(predicate, p);
        assert!(matches!(f.node(below), ALogicalPlan::Slice { .. } | ALogicalPlan::Cache { .. }));
        assert_eq!(f.scan_predicate(source), None);
    }
}

#[test]
fn sort_holds_back_what_depends_on_the_order() {
    let mut f = Fixture::new();
    let source = f.scan(&["a", "b"]);
    let sort = f.lps.add(ALogicalPlan::Sort { input: source, by_column: vec![], descending: false });
    let b = f.col("b");
    let window = f.exprs.add_expr(AExpr::Window { function: b, partition_by: vec![] });
    let one = f.lit(1);
    let on_window = f.binary(window, Operator::Gt, one);
    let plain = f.compare("a", Operator::Gt, 1);
    let inner = f.filter(sort, plain);
    let inner = f.lps.add(inner);
    let root = f.filter(inner, on_window);
    let (predicate, below) = unwrap_filter(f.optimize(root));
    assert_eq!(predicate, on_window);
    assert!(matches!(f.node(below), ALogicalPlan::Sort { .. }));
    assert_eq!(f.scan_predicate(source), Some(plain));
}

#[test]
fn distinct_holds_back_predicates_on_several_columns() {
    let mut f = Fixture::new();
    let source = f.scan(&["a", "b"]);
    let distinct = f.lps.add(ALogicalPlan::Distinct {
        input: source,
        keep_strategy: UniqueKeepStrategy::Any,
    });
    let a = f.col("a");
    let b = f.col("b");
    let on_both = f.binary(a, Operator::Lt, b);
    let plain = f.compare("b", Operator::Gt, 1);
    let inner = f.filter(distinct, plain);
    let inner = f.lps.add(inner);
    let root = f.filter(inner, on_both);
    let (predicate, below) = unwrap_filter(f.optimize(root));
    assert_eq!(predicate, on_both);
    assert!(matches!(f.node(below), ALogicalPlan::Distinct { .. }));
    assert_eq!(f.scan_predicate(source), Some(plain));
}

#[test]
fn distinct_that_keeps_the_first_row_lets_nothing_pass() {
    let mut f = Fixture::new();
    let source = f.scan(&["a"]);
    let distinct = f.lps.add(ALogicalPlan::Distinct {
        input: source,
        keep_strategy: UniqueKeepStrategy::First,
    });
    let p = f.compare("a", Operator::Gt, 1);
    let root = f.filter(distinct, p);
    let (predicate, _) = unwrap_filter(f.optimize(root));
    assert_eq!(predicate, p);
    assert_eq!(f.scan_predicate(source), None);
}

#[test]
fn explode_holds_back_predicates_on_exploded_columns() {
    let mut f = Fixture::new();
    let source = f.scan(&["a", "l"]);
    let explode = f.lps.add(ALogicalPlan::MapFunction {
        input: source,
        function: FunctionNode::Explode { columns: names(&["l"]) },
    });
    let on_list = f.compare("l", Operator::Gt, 1);
    let plain = f.compare("a", Operator::Gt, 1);
    let inner = f.filter(explode, plain);
    let inner = f.lps.add(inner);
    let root = f.filter(inner, on_list);
    let (predicate, below) = unwrap_filter(f.optimize(root));
    assert_eq!(predicate, on_list);
    assert!(matches!(f.node(below), ALogicalPlan::MapFunction { .. }));
    assert_eq!(f.scan_predicate(source), Some(plain));
}

#[test]
fn explode_with_a_boundary_predicate_applies_all_above() {
    let mut f = Fixture::new();
    let source = f.scan(&["a", "b", "l"]);
    let explode = f.lps.add(ALogicalPlan::MapFunction {
        input: source,
        function: FunctionNode::Explode { columns: names(&["l"]) },
    });
    let a = f.col("a");
    let sum = f.exprs.add_expr(AExpr::Agg { kind: AggKind::Sum, input: a });
    let one = f.lit(1);
    let on_sum = f.binary(sum, Operator::Gt, one);
    let plain = f.compare("b", Operator::Gt, 1);
    // the plain filter is nearer to the explode, so that the predicate on
    // the sum is in flight when it comes in, and stays above it
    let inner = f.filter(explode, plain);
    let inner = f.lps.add(inner);
    let root = f.filter(inner, on_sum);
    let (predicate, below) = unwrap_filter(f.optimize(root));
    assert_eq!(predicate, on_sum);
    assert!(matches!(f.node(below), ALogicalPlan::MapFunction { .. }));
    assert_eq!(f.scan_predicate(source), Some(plain));

    // a boundary predicate that reaches the explode holds all others back
    let mut f = Fixture::new();
    let source = f.scan(&["a", "b", "l"]);
    let explode = f.lps.add(ALogicalPlan::MapFunction {
        input: source,
        function: FunctionNode::Explode { columns: names(&["l"]) },
    });
    let a = f.col("a");
    let sum = f.exprs.add_expr(AExpr::Agg { kind: AggKind::Sum, input: a });
    let one = f.lit(1);
    let on_sum = f.binary(sum, Operator::Gt, one);
    let plain = f.compare("b", Operator::Gt, 1);
    let inner = f.filter(explode, on_sum);
    let inner = f.lps.add(inner);
    let root = f.filter(inner, plain);
    let (predicate, below) = unwrap_filter(f.optimize(root));
    assert!(f.is_and(predicate, plain, on_sum));
    assert!(matches!(f.node(below), ALogicalPlan::MapFunction { .. }));
    assert_eq!(f.scan_predicate(source), None);
}

#[test]
fn melt_holds_back_predicates_on_the_columns_it_makes() {
    let mut f = Fixture::new();
    let source = f.scan(&["id", "x", "y"]);
    let melt = f.lps.add(ALogicalPlan::MapFunction {
        input: source,
        function: FunctionNode::Melt {
            id_vars: names(&["id"]),
            value_vars: names(&["x", "y"]),
            variable_name: None,
            value_name: Some("v".to_string()),
        },
    });
    assert_eq!(plan_schema(&f.lps, melt, 5), Some(names(&["id", "variable", "v"])));
    let on_value = f.compare("v", Operator::Gt, 1);
    let on_id = f.compare("id", Operator::Gt, 1);
    let on_var = f.compare("x", Operator::Gt, 1);
    let s1 = f.filter(melt, on_id);
    let s1 = f.lps.add(s1);
    let s2 = f.filter(s1, on_var);
    let s2 = f.lps.add(s2);
    let root = f.filter(s2, on_value);
    let (predicate, below) = unwrap_filter(f.optimize(root));
    assert!(f.is_and(predicate, on_value, on_var));
    assert!(matches!(f.node(below), ALogicalPlan::MapFunction { .. }));
    assert_eq!(f.scan_predicate(source), Some(on_id));
}

#[test]
fn opaque_function_says_whether_filters_pass() {
    for allows in [true, false] {
        let mut f = Fixture::new();
        let source = f.scan(&["a"]);
        let map = f.lps.add(ALogicalPlan::MapFunction {
            input: source,
            function: FunctionNode::Opaque { name: "rechunk".to_string(), predicate_pd: allows },
        });
        let p = f.compare("a", Operator::Gt, 1);
        let root = f.filter(map, p);
        let out = f.optimize(root);
        if allows {
            assert!(matches!(out, ALogicalPlan::MapFunction { .. }));
            assert_eq!(f.scan_predicate(source), Some(p));
        } else {
            let (predicate, _) = unwrap_filter(out);
            assert_eq!(predicate, p);
            assert_eq!(f.scan_predicate(source), None);
        }
    }
}

#[test]
fn projection_alias_is_replaced_by_its_definition() {
    let mut f = Fixture::new();
    let source = f.scan(&["a", "b"]);
    let a = f.col("a");
    let one = f.lit(1);
    let plus = f.binary(a, Operator::Plus, one);
    let alias = f.exprs.add_expr(AExpr::Alias(plus, "c".to_string()));
    let b = f.col("b");
    let projection = f.lps.add(ALogicalPlan::Projection {
        expr: vec![alias, b],
        input: source,
        schema: names(&["c", "b"]),
    });
    let c = f.col("c");
    let five = f.lit(5);
    let on_alias = f.binary(c, Operator::Gt, five);
    let root = f.filter(projection, on_alias);
    match f.optimize(root) {
        ALogicalPlan::Projection { input, .. } => assert_eq!(input, source),
        other => panic!("unexpected {:?}", other),
    }
    // the scan filters by (a + 1) > 5
    let p = f.scan_predicate(source).expect("a predicate on the scan");
    match f.exprs.get(p) {
        AExpr::BinaryExpr { left, op: Operator::Gt, right } => {
            assert_eq!((*left, *right), (plus, five));
        }
        other => panic!("unexpected {:?}", other),
    }
}

#[test]
fn projection_keeps_predicates_on_columns_it_does_not_produce() {
    let mut f = Fixture::new();
    let source = f.scan(&["a", "b"]);
    let a = f.col("a");
    let projection = f.lps.add(ALogicalPlan::Projection {
        expr: vec![a],
        input: source,
        schema: names(&["a"]),
    });
    let on_b = f.compare("b", Operator::Gt, 1);
    let on_a = f.compare("a", Operator::Gt, 1);
    let inner = f.filter(projection, on_a);
    let inner = f.lps.add(inner);
    let root = f.filter(inner, on_b);
    let (predicate, below) = unwrap_filter(f.optimize(root));
    assert_eq!(predicate, on_b);
    assert!(matches!(f.node(below), ALogicalPlan::Projection { .. }));
    assert_eq!(f.scan_predicate(source), Some(on_a));
}

#[test]
fn projection_with_an_aggregation_lets_nothing_pass() {
    let mut f = Fixture::new();
    let source = f.scan(&["a"]);
    let a = f.col("a");
    let sum = f.exprs.add_expr(AExpr::Agg { kind: AggKind::Sum, input: a });
    let projection = f.lps.add(ALogicalPlan::Projection {
        expr: vec![sum],
        input: source,
        schema: names(&["a"]),
    });
    let p = f.compare("a", Operator::Gt, 1);
    let root = f.filter(projection, p);
    let (predicate, _) = unwrap_filter(f.optimize(root));
    assert_eq!(predicate, p);
    assert_eq!(f.scan_predicate(source), None);
}

#[test]
fn with_columns_passes_predicates_on_other_columns() {
    let mut f = Fixture::new();
    let source = f.scan(&["a", "b"]);
    let a = f.col("a");
    let two = f.lit(2);
    let double = f.binary(a, Operator::Multiply, two);
    let alias = f.exprs.add_expr(AExpr::Alias(double, "d".to_string()));
    let stack = f.lps.add(ALogicalPlan::HStack {
        input: source,
        exprs: vec![alias],
        schema: names(&["a", "b", "d"]),
    });
    let on_b = f.compare("b", Operator::Gt, 1);
    let root = f.filter(stack, on_b);
    assert!(matches!(f.optimize(root), ALogicalPlan::HStack { .. }));
    assert_eq!(f.scan_predicate(source), Some(on_b));
}

#[test]
fn ext_context_optimizes_its_source_only() {
    let mut f = Fixture::new();
    let context = f.scan(&["x"]);
    let source = f.scan(&["a"]);
    let ext = f.lps.add(ALogicalPlan::ExtContext {
        input: source,
        contexts: vec![context],
        schema: names(&["a", "x"]),
    });
    let on_a = f.compare("a", Operator::Gt, 1);
    let on_x = f.compare("x", Operator::Gt, 1);
    let inner = f.filter(ext, on_a);
    let inner = f.lps.add(inner);
    let root = f.filter(inner, on_x);
    let (predicate, below) = unwrap_filter(f.optimize(root));
    assert_eq!(predicate, on_x);
    match f.node(below) {
        ALogicalPlan::ExtContext { input, contexts, .. } => {
            assert_eq!(*input, source);
            assert_eq!(*contexts, vec![context]);
        }
        other => panic!("unexpected {:?}", other),
    }
    assert_eq!(f.scan_predicate(source), Some(on_a));
    assert_eq!(f.scan_predicate(context), None);
}

#[test]
fn local_projection_lets_all_pass_and_recomputes_its_columns() {
    let mut f = Fixture::new();
    let source = f.scan(&["a", "b"]);
    let a = f.col("a");
    let z = f.col("z");
    let local = f.lps.add(ALogicalPlan::LocalProjection {
        expr: vec![a, z],
        input: source,
        schema: names(&["a", "z"]),
    });
    let p = f.compare("a", Operator::Gt, 1);
    let root = f.filter(local, p);
    match f.optimize(root) {
        ALogicalPlan::LocalProjection { expr, schema, .. } => {
            // `z` is no column of the input
            assert_eq!(expr, vec![a]);
            assert_eq!(schema, names(&["a"]));
        }
        other => panic!("unexpected {:?}", other),
    }
    assert_eq!(f.scan_predicate(source), Some(p));
}

#[test]
fn sinks_pass_everything() {
    let mut f = Fixture::new();
    let source = f.scan(&["a"]);
    let p = f.compare("a", Operator::Gt, 1);
    let filtered = f.filter(source, p);
    let filtered = f.lps.add(filtered);
    let sink = ALogicalPlan::FileSink { input: filtered, path: "out".to_string() };
    match f.optimize(sink) {
        ALogicalPlan::FileSink { input, .. } => {
            assert_eq!(input, filtered);
            assert_eq!(f.scan_predicate(filtered), Some(p));
        }
        other => panic!("unexpected {:?}", other),
    }
}

#[test]
fn union_keeps_above_what_a_branch_cannot_evaluate() {
    let mut f = Fixture::new();
    let first = f.scan(&["a", "b"]);
    let second = f.scan(&["a"]);
    let union = f.lps.add(ALogicalPlan::Union { inputs: vec![first, second] });
    let on_b = f.compare("b", Operator::Gt, 1);
    let root = f.filter(union, on_b);
    let (predicate, below) = unwrap_filter(f.optimize(root));
    assert_eq!(predicate, on_b);
    assert!(matches!(f.node(below), ALogicalPlan::Union { .. }));
    assert_eq!(f.scan_predicate(first), Some(on_b));
    assert_eq!(f.scan_predicate(second), None);
}

#[test]
fn pass_rejects_a_plan_with_a_missing_input() {
    let mut f = Fixture::new();
    let p = f.compare("a", Operator::Gt, 1);
    let root = f.filter(Node(3), p);
    match PredicatePushDown::new().optimize(root, &mut f.lps, &mut f.exprs) {
        Err(PolarsError::InvariantViolation(_)) => {}
        other => panic!("unexpected {:?}", other),
    }
    // an input that was taken out
    let mut f = Fixture::new();
    let source = f.scan(&["a"]);
    f.lps.take(source);
    let sort = ALogicalPlan::Sort { input: source, by_column: vec![], descending: false };
    match PredicatePushDown::new().optimize(sort, &mut f.lps, &mut f.exprs) {
        Err(PolarsError::InvariantViolation(_)) => {}
        other => panic!("unexpected {:?}", other),
    }
}

#[test]
fn pass_rejects_a_plan_that_names_a_missing_expression() {
    let mut f = Fixture::new();
    let source = f.scan(&["a"]);
    let root = f.filter(source, Node(9));
    match PredicatePushDown::new().optimize(root, &mut f.lps, &mut f.exprs) {
        Err(PolarsError::InvariantViolation(_)) => {}
        other => panic!("unexpected {:?}", other),
    }
}

#[test]
fn pass_rejects_a_plan_that_shares_an_input() {
    let mut f = Fixture::new();
    let source = f.scan(&["a"]);
    // both branches of the union are the same slot
    let union = f.lps.add(ALogicalPlan::Union { inputs: vec![source, source] });
    let p = f.compare("a", Operator::Gt, 1);
    let csv = f.lps.add(ALogicalPlan::Scan {
        path: "data".to_string(),
        schema: names(&["a"]),
        predicate: None,
        scan_type: FileScan::Csv,
    });
    let shared = f.lps.add(ALogicalPlan::Union { inputs: vec![csv, csv] });
    let _ = union;
    let root = f.filter(shared, p);
    // the second visit finds the filter that the first one made, whose
    // input is a slot that the pass itself created
    match PredicatePushDown::new().optimize(root, &mut f.lps, &mut f.exprs) {
        Err(PolarsError::InvariantViolation(_)) => {}
        other => panic!("unexpected {:?}", other),
    }
}

#[test]
fn schema_follows_renames_and_first_inputs() {
    let mut f = Fixture::new();
    let source = f.scan(&["a", "b", "c"]);
    let rename = f.lps.add(ALogicalPlan::MapFunction {
        input: source,
        function: FunctionNode::Rename { existing: names(&["a", "b"]), new: names(&["b", "a"]) },
    });
    let p = f.compare("a", Operator::Gt, 1);
    let filter = f.filter(rename, p);
    let filter = f.lps.add(filter);
    assert_eq!(plan_schema(&f.lps, filter, 3), Some(names(&["b", "a", "c"])));
    // too little fuel, and a slot that is missing
    assert_eq!(plan_schema(&f.lps, filter, 2), None);
    assert_eq!(plan_schema(&f.lps, Node(17), 3), None);
    let empty = f.lps.add(ALogicalPlan::Union { inputs: vec![] });
    assert_eq!(plan_schema(&f.lps, empty, 1), Some(vec![]));
}

#[test]
fn swapping_rename_swaps_the_columns_of_a_predicate() {
    let mut f = Fixture::new();
    let source = f.scan(&["a", "b"]);
    let rename = f.lps.add(ALogicalPlan::MapFunction {
        input: source,
        function: FunctionNode::Rename { existing: names(&["a", "b"]), new: names(&["b", "a"]) },
    });
    let a = f.col("a");
    let b = f.col("b");
    let lt = f.binary(a, Operator::Lt, b);
    let root = f.filter(rename, lt);
    assert!(matches!(f.optimize(root), ALogicalPlan::MapFunction { .. }));
    let p = f.scan_predicate(source).expect("a predicate on the scan");
    match f.exprs.get(p) {
        AExpr::BinaryExpr { left, op: Operator::Lt, right } => {
            assert!(matches!(f.exprs.get(*left), AExpr::Column(n) if n == "b"));
            assert!(matches!(f.exprs.get(*right), AExpr::Column(n) if n == "a"));
        }
        other => panic!("unexpected {:?}", other),
    }
    assert!(!f.is_comparison(p, "a", Operator::Lt, 0));
}

#[test]
fn pass_rejects_expressions_that_are_out_of_order() {
    let mut f = Fixture::new();
    let source = f.scan(&["a"]);
    // an expression that names a later one
    f.exprs.add(AExpr::Not(Node(1)));
    f.exprs.add(AExpr::Column("a".to_string()));
    let p = f.exprs.add(AExpr::Column("a".to_string()));
    let root = ALogicalPlan::Selection { input: source, predicate: p };
    match PredicatePushDown::new().optimize(root, &mut f.lps, &mut f.exprs) {
        Err(PolarsError::InvariantViolation(_)) => {}
        other => panic!("unexpected {:?}", other),
    }
    // nothing was touched
    assert_eq!(f.scan_predicate(source), None);
    assert_eq!(f.exprs.len(), 3);
}

#[test]
fn rejected_plans_say_what_is_missing() {
    let mut f = Fixture::new();
    let p = f.compare("a", Operator::Gt, 1);
    let root = f.filter(Node(3), p);
    match PredicatePushDown::new().optimize(root, &mut f.lps, &mut f.exprs) {
        Err(e) => assert_eq!(
            e.message(),
            "the plan is not a tree: an input is missing from the arena"
        ),
        Ok(other) => panic!("unexpected {:?}", other),
    }
    let mut f = Fixture::new();
    let source = f.scan(&["a"]);
    let root = f.filter(source, Node(9));
    match PredicatePushDown::new().optimize(root, &mut f.lps, &mut f.exprs) {
        Err(e) => assert_eq!(
            e.message(),
            "a plan node names an expression that is not in the arena"
        ),
        Ok(other) => panic!("unexpected {:?}", other),
    }
}

#[test]
fn predicates_from_above_are_sorted_at_a_join() {
    let mut f = Fixture::new();
    let left = f.scan(&["a", "c"]);
    let right = f.scan(&["b"]);
    let on_left = f.compare("a", Operator::Eq, 1);
    let on_right = f.compare("b", Operator::Eq, 2);
    let c = f.col("c");
    let b = f.col("b");
    let sum = f.binary(c, Operator::Plus, b);
    let three = f.lit(3);
    let on_both = f.binary(sum, Operator::Eq, three);
    let mut acc = AccPredicates::new();
    acc.insert_and_combine_predicate(on_left, &mut f.exprs);
    acc.insert_and_combine_predicate(on_right, &mut f.exprs);
    acc.insert_and_combine_predicate(on_both, &mut f.exprs);
    let join = ALogicalPlan::Join {
        input_left: left,
        input_right: right,
        left_on: vec![],
        right_on: vec![],
        schema: names(&["a", "c", "b"]),
        how: JoinType::Inner,
    };
    let slots = f.lps.len();
    let out = PredicatePushDown::new().push_down(join, acc, &mut f.lps, &mut f.exprs).unwrap();
    let (above, below) = unwrap_filter(out);
    assert_eq!(above, on_both);
    assert_eq!(below, Node(slots));
    match f.node(below) {
        ALogicalPlan::Join { input_left, input_right, .. } => {
            assert_eq!((*input_left, *input_right), (left, right));
        }
        other => panic!("expected the join, got {:?}", other),
    }
    assert_eq!(f.scan_predicate(left), Some(on_left));
    assert_eq!(f.scan_predicate(right), Some(on_right));
}

#[test]
fn predicates_from_above_stay_above_an_aggregate() {
    let mut f = Fixture::new();
    let source = f.scan(&["a", "c"]);
    let key = f.col("c");
    let a = f.col("a");
    let sum = f.exprs.add_expr(AExpr::Agg { kind: AggKind::Sum, input: a });
    let on_sum = f.compare("a", Operator::Gt, 10);
    let mut acc = AccPredicates::new();
    acc.insert_and_combine_predicate(on_sum, &mut f.exprs);
    let aggregate = ALogicalPlan::Aggregate {
        input: source,
        keys: vec![key],
        aggs: vec![sum],
        schema: names(&["c", "a"]),
    };
    let slots = f.lps.len();
    let out = PredicatePushDown::new().push_down(aggregate, acc, &mut f.lps, &mut f.exprs).unwrap();
    let (above, below) = unwrap_filter(out);
    assert_eq!(above, on_sum);
    assert_eq!(below, Node(slots));
    match f.node(below) {
        ALogicalPlan::Aggregate { input, .. } => assert_eq!(*input, source),
        other => panic!("expected the aggregate, got {:?}", other),
    }
    // the input was rewritten with nothing coming in
    assert_eq!(f.scan_predicate(source), None);
}

#[test]
fn predicates_from_above_at_a_union() {
    let mut f = Fixture::new();
    let first = f.scan(&["a"]);
    let second = f.scan(&["a"]);
    let count = f.exprs.add_expr(AExpr::Count);
    let zero = f.lit(0);
    let on_count = f.binary(count, Operator::Gt, zero);
    let on_a = f.compare("a", Operator::Gt, 1);
    let mut acc = AccPredicates::new();
    acc.insert_and_combine_predicate(on_count, &mut f.exprs);
    acc.insert_and_combine_predicate(on_a, &mut f.exprs);
    let union = ALogicalPlan::Union { inputs: vec![first, second] };
    let out = PredicatePushDown::new().push_down(union, acc, &mut f.lps, &mut f.exprs).unwrap();
    let (above, below) = unwrap_filter(out);
    assert_eq!(above, on_count);
    match f.node(below) {
        ALogicalPlan::Union { inputs } => assert_eq!(*inputs, vec![first, second]),
        other => panic!("expected the union, got {:?}", other),
    }
    assert_eq!(f.scan_predicate(first), Some(on_a));
    assert_eq!(f.scan_predicate(second), Some(on_a));
}

#[test]
fn pass_rejects_predicates_that_are_not_in_the_arena() {
    let mut f = Fixture::new();
    let source = f.scan(&["a"]);
    let mut other = Arena::new();
    for _ in 0..5 {
        other.add_expr(AExpr::Column("a".to_string()));
    }
    let far = other.add_expr(AExpr::Column("a".to_string()));
    let mut acc = AccPredicates::new();
    acc.insert_and_combine_predicate(far, &mut other);
    let root = ALogicalPlan::Slice { input: source, offset: 0, len: 1 };
    match PredicatePushDown::new().push_down(root, acc, &mut f.lps, &mut f.exprs) {
        Err(PolarsError::InvariantViolation(msg)) => {
            assert_eq!(msg, "a plan node names an expression that is not in the arena")
        }
        found => panic!("unexpected {:?}", found),
    }
    assert_eq!(f.scan_predicate(source), None);
}
