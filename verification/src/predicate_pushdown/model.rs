//! What the optimizer computes, on plans as trees: the rule of each
//! kind of node, stated without arenas of plan nodes.

use vstd::prelude::*;

use crate::aexpr::{AExprView, ExprTest};
use crate::alp::{FileScan, FunctionNodeView, PlanView};
use crate::arena::Node;
use crate::expr_walk::spec_check_input_node;
use crate::plan_schema::{melt_value_name, melt_variable_name, tree_schema};
use crate::plan_tree::PlanTree;
use crate::predicate_pushdown::join::spec_join_partition;
use crate::predicate_pushdown::rename::spec_process_rename;
use crate::predicate_pushdown::utils::{entry_nodes, spec_any_has, spec_combine_predicates};
use crate::predicate_pushdown::utils::{spec_insert_and_combine, spec_leaving};
use crate::predicate_pushdown::utils::{spec_output_names, spec_predicate_at_scan};
use crate::predicate_pushdown::utils::{spec_projection_map, spec_projection_rule};
use crate::predicate_pushdown::utils::spec_rewrite_predicates;
use crate::predicate_pushdown::utils::{spec_staying, CriterionView, RewriteRuleView};
use crate::pyarrow::spec_predicate_to_pa;

verus! {

/// The entries of an accumulator: keys and predicates.
pub type Entries = Seq<(Seq<char>, Node)>;

/// A filter node, without the handle of its input.
pub open spec fn selection_of(predicate: Node) -> PlanView {
    PlanView::Selection { input: Node(0), predicate }
}

/// A plan of one node.
pub open spec fn leaf(node: PlanView) -> PlanTree {
    PlanTree { node, children: seq![] }
}

/// The plan `t` under a filter by the conjunction of `local`; `t` itself
/// if `local` is empty.
pub open spec fn spec_optional_apply_predicate(
    t: PlanTree,
    local: Seq<Node>,
    es: Seq<AExprView>,
) -> (PlanTree, Seq<AExprView>) {
    if local.len() == 0 {
        (t, es)
    } else {
        let (p, es1) = spec_combine_predicates(local, es);
        (PlanTree { node: selection_of(p), children: seq![t] }, es1)
    }
}

/// The rule for the input of a projecting node; see
/// [`spec_projection_rule`].
pub open spec fn projection_rule(node: PlanView, es: Seq<AExprView>, input_schema: Seq<Seq<char>>) -> RewriteRuleView {
    spec_projection_rule(es, node.exprs(), input_schema, node is Projection)
}

/// The accumulator rewritten for the input of a projecting node, and the
/// predicates that stay above the node.
pub open spec fn spec_rewrite_projection_node(
    node: PlanView,
    acc: Entries,
    es: Seq<AExprView>,
    input_schema: Seq<Seq<char>>,
) -> (Entries, Seq<Node>, Seq<AExprView>) {
    spec_rewrite_predicates(
        acc,
        es,
        spec_projection_map(es, node.exprs()),
        projection_rule(node, es, input_schema),
    )
}

/// The accumulators for the first `k` inputs of a node that lets pass
/// what its inputs can evaluate: for each input, the entries that read
/// only columns of that input.
pub open spec fn spec_schema_accs(children: Seq<PlanTree>, acc: Entries, es: Seq<AExprView>) -> Seq<
    Option<Entries>,
> {
    Seq::new(
        children.len(),
        |i: int| Some(spec_staying(es, CriterionView::NotIn(tree_schema(children[i])), acc)),
    )
}

/// The predicates that stay above such a node: for each input in turn,
/// those that the input cannot evaluate.
pub open spec fn spec_schema_local(children: Seq<PlanTree>, acc: Entries, es: Seq<AExprView>) -> Seq<
    Node,
>
    decreases children.len(),
{
    if children.len() == 0 {
        seq![]
    } else {
        spec_schema_local(children.drop_last(), acc, es) + entry_nodes(
            spec_leaving(es, CriterionView::NotIn(tree_schema(children.last())), acc),
        )
    }
}

/// The expressions of `exprs` that read only columns of `schema`.
pub open spec fn spec_valid_exprs(es: Seq<AExprView>, exprs: Seq<Node>, schema: Seq<Seq<char>>) -> Seq<
    Node,
>
    decreases exprs.len(),
{
    if exprs.len() == 0 {
        seq![]
    } else {
        let rest = spec_valid_exprs(es, exprs.drop_last(), schema);
        if spec_check_input_node(es, exprs.last().0 as int, schema) {
            rest.push(exprs.last())
        } else {
            rest
        }
    }
}

/// The names that a melt makes or consumes: a predicate that reads one
/// of them cannot be evaluated below the melt.
pub open spec fn melt_names(
    value_vars: Seq<Seq<char>>,
    variable_name: Option<Seq<char>>,
    value_name: Option<Seq<char>>,
) -> Seq<Seq<char>> {
    value_vars.push(melt_variable_name(variable_name)).push(melt_value_name(value_name))
}

/// The plans `children` after the pass, the plan at position `i` with
/// the accumulator `accs[i]`; a plan without an accumulator is left as
/// it is.
pub open spec fn spec_push_inputs(
    children: Seq<PlanTree>,
    accs: Seq<Option<Entries>>,
    es: Seq<AExprView>,
) -> (Seq<PlanTree>, Seq<AExprView>)
    decreases children, 0nat,
{
    if children.len() == 0 {
        (seq![], es)
    } else {
        let (done, es1) = spec_push_inputs(children.drop_last(), accs, es);
        match accs[children.len() - 1] {
            Some(acc) => {
                let (c, es2) = spec_push_down(children.last(), acc, es1);
                (done.push(c), es2)
            },
            None => (done.push(children.last()), es1),
        }
    }
}

/// A node that lets no predicate pass: its inputs are optimized with
/// empty accumulators, and all of `acc` is applied above the node.
pub open spec fn spec_no_pushdown_restart_opt(t: PlanTree, acc: Entries, es: Seq<AExprView>) -> (
    PlanTree,
    Seq<AExprView>,
)
    decreases t, 1nat,
{
    let accs = Seq::new(t.children.len(), |i: int| Some(Seq::<(Seq<char>, Node)>::empty()));
    let (kids, es1) = spec_push_inputs(t.children, accs, es);
    spec_optional_apply_predicate(
        PlanTree { node: t.node, children: kids },
        entry_nodes(acc),
        es1,
    )
}

/// A node that lets predicates pass.
///
/// With projections: if one of them computes across rows, nothing
/// passes. Else the accumulator is rewritten for the last input, which
/// alone is optimized, and what cannot be rewritten stays above.
///
/// Without: each input gets the entries that it can evaluate, and the
/// others stay above.
pub open spec fn spec_pushdown_and_continue(
    t: PlanTree,
    acc: Entries,
    es: Seq<AExprView>,
    has_projections: bool,
) -> (PlanTree, Seq<AExprView>)
    decreases t, 2nat,
{
    if has_projections {
        if spec_any_has(es, t.node.exprs(), ExprTest::ProjectionBoundary) {
            spec_no_pushdown_restart_opt(t, acc, es)
        } else {
            let n = t.children.len();
            let (acc1, local, es1) = spec_rewrite_projection_node(
                t.node,
                acc,
                es,
                tree_schema(t.children.last()),
            );
            let accs = Seq::new(
                n,
                |i: int|
                    if i == n - 1 {
                        Some(acc1)
                    } else {
                        None
                    },
            );
            let (kids, es2) = spec_push_inputs(t.children, accs, es1);
            spec_optional_apply_predicate(PlanTree { node: t.node, children: kids }, local, es2)
        }
    } else {
        let (kids, es1) = spec_push_inputs(
            t.children,
            spec_schema_accs(t.children, acc, es),
            es,
        );
        spec_optional_apply_predicate(
            PlanTree { node: t.node, children: kids },
            spec_schema_local(t.children, acc, es),
            es1,
        )
    }
}

/// A node that holds back the entries that meet `c` and lets the others
/// pass to the inputs that can evaluate them.
pub open spec fn spec_hold_back(t: PlanTree, acc: Entries, es: Seq<AExprView>, c: CriterionView) -> (
    PlanTree,
    Seq<AExprView>,
)
    decreases t, 3nat,
{
    let (t1, es1) = spec_pushdown_and_continue(t, spec_staying(es, c, acc), es, false);
    spec_optional_apply_predicate(t1, entry_nodes(spec_leaving(es, c, acc)), es1)
}

/// A scan that evaluates predicates itself: it takes all entries but
/// those that need all rows, which are applied above it. A reader of
/// CSV files does not filter: its predicate becomes a filter above it.
pub open spec fn spec_at_scan(
    node: PlanView,
    existing: Option<Node>,
    acc: Entries,
    es: Seq<AExprView>,
) -> (PlanTree, Seq<AExprView>) {
    let c = CriterionView::Test(ExprTest::FullContext);
    let (pred, es1) = spec_predicate_at_scan(spec_staying(es, c, acc), existing, es);
    let scan = match (pred, node) {
        (Some(p), PlanView::Scan { scan_type: FileScan::Csv, .. }) => PlanTree {
            node: selection_of(p),
            children: seq![leaf(node.with_exprs(seq![]))],
        },
        _ => leaf(node.with_exprs(crate::alp::opt_seq(pred))),
    };
    spec_optional_apply_predicate(scan, entry_nodes(spec_leaving(es, c, acc)), es1)
}

/// The plan after the pass, with the accumulator `acc` coming in from
/// above, and the arena of expressions with what had to be built.
///
/// A scan through a foreign engine takes the conjunction of the
/// predicates as text, written as it stands and not simplified first,
/// where [`spec_predicate_to_pa`] can write it; its own slot for a
/// predicate is then empty.
pub open spec fn spec_push_down(t: PlanTree, acc: Entries, es: Seq<AExprView>) -> (
    PlanTree,
    Seq<AExprView>,
)
    decreases t, 4nat,
{
    match t.node {
        PlanView::Selection { predicate, .. } => {
            let c = CriterionView::Test(ExprTest::PushdownBoundary);
            let (acc1, es1) = spec_insert_and_combine(spec_staying(es, c, acc), predicate, es);
            let (kids, es2) = spec_push_inputs(t.children, seq![Some(acc1)], es1);
            spec_optional_apply_predicate(kids[0], entry_nodes(spec_leaving(es, c, acc)), es2)
        },
        PlanView::DataFrameScan { selection, .. } => {
            let (pred, es1) = spec_predicate_at_scan(acc, selection, es);
            (leaf(t.node.with_exprs(crate::alp::opt_seq(pred))), es1)
        },
        PlanView::Scan { predicate, .. } => spec_at_scan(t.node, predicate, acc, es),
        PlanView::AnonymousScan { allows_predicate_pushdown, predicate, .. } => {
            if allows_predicate_pushdown {
                spec_at_scan(t.node, predicate, acc, es)
            } else {
                spec_no_pushdown_restart_opt(t, acc, es)
            }
        },
        PlanView::PythonScan { schema, pyarrow, pushed_predicate, predicate } => {
            if pyarrow {
                let (pred, es1) = spec_predicate_at_scan(acc, predicate, es);
                match pred {
                    Some(p) => match spec_predicate_to_pa(es1, p.0 as int) {
                        Some(text) => (
                            leaf(
                                PlanView::PythonScan {
                                    schema,
                                    pyarrow,
                                    pushed_predicate: Some(text),
                                    predicate: None,
                                },
                            ),
                            es1,
                        ),
                        None => spec_optional_apply_predicate(
                            leaf(t.node.with_exprs(seq![])),
                            seq![p],
                            es1,
                        ),
                    },
                    None => (leaf(t.node), es1),
                }
            } else {
                spec_no_pushdown_restart_opt(t, acc, es)
            }
        },
        PlanView::LocalProjection { expr, .. } => {
            let (kids, es1) = spec_push_inputs(t.children, seq![Some(acc)], es);
            let kept = spec_valid_exprs(es1, expr, tree_schema(kids[0]));
            (
                PlanTree {
                    node: PlanView::LocalProjection {
                        expr: kept,
                        input: Node(0),
                        schema: spec_output_names(es1, kept),
                    },
                    children: kids,
                },
                es1,
            )
        },
        PlanView::Distinct { keep_strategy, .. } => {
            if keep_strategy is Any || keep_strategy is Neither {
                let c1 = CriterionView::MultiRoot;
                let c2 = CriterionView::Test(ExprTest::PushdownBoundary);
                let acc1 = spec_staying(es, c1, acc);
                let local = entry_nodes(spec_leaving(es, c1, acc)) + entry_nodes(
                    spec_leaving(es, c2, acc1),
                );
                let (kids, es1) = spec_push_inputs(
                    t.children,
                    seq![Some(spec_staying(es, c2, acc1))],
                    es,
                );
                spec_optional_apply_predicate(
                    PlanTree { node: t.node, children: kids },
                    local,
                    es1,
                )
            } else {
                spec_no_pushdown_restart_opt(t, acc, es)
            }
        },
        PlanView::Join { left_on, right_on, how, .. } => {
            let (left, right, local) = spec_join_partition(
                acc,
                es,
                how,
                tree_schema(t.children[0]),
                tree_schema(t.children[1]),
                left_on,
                right_on,
            );
            let (kids, es2) = spec_push_inputs(t.children, seq![Some(left), Some(right)], es);
            spec_optional_apply_predicate(PlanTree { node: t.node, children: kids }, local, es2)
        },
        PlanView::MapFunction { function, .. } => {
            if !function.allow_predicate_pd() {
                spec_no_pushdown_restart_opt(t, acc, es)
            } else {
                match function {
                    FunctionNodeView::Rename { existing, new } => {
                        let (acc1, local, es1) = spec_process_rename(
                            acc,
                            es,
                            existing,
                            new,
                            tree_schema(t.children[0]),
                        );
                        let (t1, es2) = spec_pushdown_and_continue(t, acc1, es1, false);
                        spec_optional_apply_predicate(t1, local, es2)
                    },
                    FunctionNodeView::Explode { columns } => {
                        if spec_any_has(es, entry_nodes(acc), ExprTest::PushdownBoundary) {
                            let (t1, es1) = spec_pushdown_and_continue(t, seq![], es, false);
                            spec_optional_apply_predicate(t1, entry_nodes(acc), es1)
                        } else {
                            spec_hold_back(t, acc, es, CriterionView::Names(columns))
                        }
                    },
                    FunctionNodeView::Melt { value_vars, variable_name, value_name, .. } => {
                        spec_hold_back(
                            t,
                            acc,
                            es,
                            CriterionView::Names(melt_names(value_vars, variable_name, value_name)),
                        )
                    },
                    FunctionNodeView::Opaque { .. } => spec_pushdown_and_continue(
                        t,
                        acc,
                        es,
                        false,
                    ),
                }
            }
        },
        PlanView::Union { .. } => spec_hold_back(
            t,
            acc,
            es,
            CriterionView::Test(ExprTest::Count),
        ),
        PlanView::Sort { .. } => spec_hold_back(
            t,
            acc,
            es,
            CriterionView::Test(ExprTest::SortBoundary),
        ),
        PlanView::FileSink { .. } | PlanView::CloudSink { .. } => spec_pushdown_and_continue(
            t,
            acc,
            es,
            false,
        ),
        PlanView::HStack { .. }
        | PlanView::Projection { .. }
        | PlanView::ExtContext { .. } => spec_pushdown_and_continue(t, acc, es, true),
        PlanView::Slice { .. }
        | PlanView::Cache { .. }
        | PlanView::Aggregate { .. } => spec_no_pushdown_restart_opt(t, acc, es),
    }
}

} // verus!
