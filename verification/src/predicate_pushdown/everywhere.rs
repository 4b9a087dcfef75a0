//! Boundaries respected, at every node of the plan: after the pass, no
//! node that holds back the predicates with a property has such a
//! predicate below it, if the plan had none before.

use vstd::prelude::*;

use crate::aexpr::{extends, wf_exprs, AExprView, ExprTest};
use crate::alp::{FunctionNodeView, PlanView};
use crate::arena::Node;
use crate::expr_walk::targets_below;
use crate::plan_schema::tree_schema;
use crate::plan_tree::PlanTree;
use crate::predicate_pushdown::boundaries::{accs_below, fits, forest_free, free_of, holds_back};
use crate::predicate_pushdown::boundaries::{lemma_boundaries_respected, lemma_insert_free};
use crate::predicate_pushdown::boundaries::{lemma_process_rename_free, lemma_projection_map_valid};
use crate::predicate_pushdown::boundaries::{lemma_push_down_free, lemma_push_inputs_free};
use crate::predicate_pushdown::boundaries::{lemma_rewrite_free, lemma_select_free};
use crate::predicate_pushdown::boundaries::{lemma_tree_parts, lemma_tree_stable, under_filters};
use crate::predicate_pushdown::boundaries::{lemma_continue_free, lemma_no_pushdown_free};
use crate::predicate_pushdown::laws::{lemma_combine_extends, lemma_continue_extends};
use crate::predicate_pushdown::laws::{lemma_process_rename_extends, lemma_push_down_extends};
use crate::predicate_pushdown::laws::{lemma_push_inputs_extends, lemma_rewrite_extends};
use crate::predicate_pushdown::laws::tree_shaped;
use crate::predicate_pushdown::model::{melt_names, projection_rule, selection_of};
use crate::predicate_pushdown::model::{spec_hold_back, spec_no_pushdown_restart_opt};
use crate::predicate_pushdown::model::{spec_optional_apply_predicate, spec_push_down};
use crate::predicate_pushdown::model::{spec_push_inputs, spec_pushdown_and_continue};
use crate::predicate_pushdown::model::{spec_rewrite_projection_node, spec_schema_accs};
use crate::predicate_pushdown::model::{spec_schema_local, Entries};
use crate::predicate_pushdown::refine::{forest_exprs_below, tree_exprs_below};
use crate::predicate_pushdown::rename::spec_process_rename;
use crate::predicate_pushdown::utils::{entry_nodes, spec_any_has, spec_combine_predicates};
use crate::predicate_pushdown::utils::{spec_insert_and_combine, spec_leaving};
use crate::predicate_pushdown::utils::{spec_projection_map, spec_staying, CriterionView};

verus! {

/// Whether every node of the plan that holds back the predicates with
/// the property has no such predicate in the plans of its inputs.
pub open spec fn respected(es: Seq<AExprView>, t: PlanTree, x: ExprTest) -> bool
    decreases t,
{
    &&& holds_back(t.node, x) ==> forest_free(es, t.children, x)
    &&& forall|k: int| 0 <= k < t.children.len() ==> respected(es, #[trigger] t.children[k], x)
}

/// As [`respected`], for each plan of a list.
pub open spec fn all_respected(es: Seq<AExprView>, ts: Seq<PlanTree>, x: ExprTest) -> bool {
    forall|k: int| 0 <= k < ts.len() ==> respected(es, #[trigger] ts[k], x)
}

/// A plan without a predicate with the property has none below any of
/// its nodes.
pub proof fn lemma_free_respected(es: Seq<AExprView>, t: PlanTree, x: ExprTest)
    requires
        free_of(es, t, x),
    ensures
        respected(es, t, x),
    decreases t,
{
    assert forall|k: int| 0 <= k < t.children.len() implies respected(
        es,
        #[trigger] t.children[k],
        x,
    ) by {
        lemma_free_respected(es, t.children[k], x);
    }
}

/// What holds of a plan holds of it in a longer arena.
pub proof fn lemma_respected_stable(
    es: Seq<AExprView>,
    es2: Seq<AExprView>,
    t: PlanTree,
    x: ExprTest,
)
    requires
        extends(es, es2),
        tree_exprs_below(t, es.len() as int),
        respected(es, t, x),
    ensures
        respected(es2, t, x),
    decreases t,
{
    assert forall|k: int| 0 <= k < t.children.len() implies respected(
        es2,
        #[trigger] t.children[k],
        x,
    ) && (free_of(es, t.children[k], x) ==> free_of(es2, t.children[k], x)) by {
        lemma_respected_stable(es, es2, t.children[k], x);
        lemma_tree_stable(es, es2, t.children[k], x);
    }
}

/// Filters hold nothing back: what holds below the filters at the top
/// of a plan holds of the plan.
pub proof fn lemma_respected_under(es: Seq<AExprView>, t: PlanTree, x: ExprTest)
    requires
        respected(es, under_filters(t), x),
    ensures
        respected(es, t, x),
    decreases t,
{
    if t.node is Selection && t.children.len() == 1 {
        lemma_respected_under(es, t.children[0], x);
    }
}

/// A filter put above a plan changes nothing below it.
pub proof fn lemma_respected_apply(t: PlanTree, local: Seq<Node>, es: Seq<AExprView>, x: ExprTest)
    requires
        tree_exprs_below(t, es.len() as int),
        fits(spec_optional_apply_predicate(t, local, es).1),
        respected(es, t, x),
    ensures
        respected(
            spec_optional_apply_predicate(t, local, es).1,
            spec_optional_apply_predicate(t, local, es).0,
            x,
        ),
{
    if local.len() > 0 {
        lemma_combine_extends(local, es);
        let (p, es1) = spec_combine_predicates(local, es);
        let wrapped = PlanTree { node: selection_of(p), children: seq![t] };
        lemma_respected_stable(es, es1, t, x);
        assert(wrapped.children[0] == t);
    }
}

/// A node that holds nothing back, above plans of which the law holds.
pub proof fn lemma_respected_over(
    es: Seq<AExprView>,
    node: PlanView,
    kids: Seq<PlanTree>,
    x: ExprTest,
)
    requires
        !holds_back(node, x),
        all_respected(es, kids, x),
    ensures
        respected(es, PlanTree { node, children: kids }, x),
{
    let t = PlanTree { node, children: kids };
    assert forall|k: int| 0 <= k < t.children.len() implies respected(
        es,
        #[trigger] t.children[k],
        x,
    ) by {
        assert(t.children[k] == kids[k]);
    }
}

/// The pass on a list of plans, none of which has a predicate with the
/// property: the law holds of each plan that comes out.
pub proof fn lemma_push_inputs_respected(
    children: Seq<PlanTree>,
    accs: Seq<Option<Entries>>,
    es: Seq<AExprView>,
    x: ExprTest,
)
    requires
        wf_exprs(es),
        forest_exprs_below(children, es.len() as int),
        forall|k: int| 0 <= k < children.len() ==> tree_shaped(#[trigger] children[k]),
        accs.len() >= children.len(),
        accs_below(accs, es.len() as int),
        fits(spec_push_inputs(children, accs, es).1),
        forest_free(es, children, x),
    ensures
        all_respected(spec_push_inputs(children, accs, es).1, spec_push_inputs(children, accs, es).0, x),
    decreases children, 0nat,
{
    if children.len() > 0 {
        let init = children.drop_last();
        let last = children.last();
        assert(last == children[children.len() - 1]);
        assert forall|k: int| 0 <= k < init.len() implies tree_exprs_below(
            #[trigger] init[k],
            es.len() as int,
        ) && tree_shaped(init[k]) && free_of(es, init[k], x) by {
            assert(init[k] == children[k]);
        }
        let (done, es1) = spec_push_inputs(init, accs, es);
        let at = children.len() - 1;
        match accs[at] {
            Some(acc) => {
                lemma_push_down_extends(last, acc, es1);
            },
            None => {},
        }
        lemma_push_inputs_free(init, accs, es, x);
        lemma_push_inputs_respected(init, accs, es, x);
        lemma_tree_stable(es, es1, last, x);
        let out = spec_push_inputs(children, accs, es);
        match accs[at] {
            Some(acc) => {
                lemma_push_down_free(last, acc, es1, x);
                lemma_push_down_respected(last, acc, es1, x);
                let (c, es2) = spec_push_down(last, acc, es1);
                assert(out.0 == done.push(c));
                assert forall|k: int| 0 <= k < out.0.len() implies respected(
                    es2,
                    #[trigger] out.0[k],
                    x,
                ) by {
                    if k < done.len() {
                        assert(out.0[k] == done[k]);
                        lemma_respected_stable(es1, es2, done[k], x);
                    }
                }
            },
            None => {
                assert(out.0 == done.push(last));
                lemma_free_respected(es1, last, x);
                assert forall|k: int| 0 <= k < out.0.len() implies respected(
                    es1,
                    #[trigger] out.0[k],
                    x,
                ) by {
                    if k < done.len() {
                        assert(out.0[k] == done[k]);
                    }
                }
            },
        }
    }
}

/// The law at a node that lets no predicate pass and holds nothing
/// back itself.
pub proof fn lemma_no_pushdown_respected(t: PlanTree, acc: Entries, es: Seq<AExprView>, x: ExprTest)
    requires
        wf_exprs(es),
        targets_below(acc, es.len() as int),
        tree_exprs_below(t, es.len() as int),
        tree_shaped(t),
        fits(spec_no_pushdown_restart_opt(t, acc, es).1),
        free_of(es, t, x),
        !holds_back(t.node, x),
    ensures
        respected(
            spec_no_pushdown_restart_opt(t, acc, es).1,
            spec_no_pushdown_restart_opt(t, acc, es).0,
            x,
        ),
    decreases t, 1nat,
{
    let accs = Seq::new(t.children.len(), |i: int| Some(Seq::<(Seq<char>, Node)>::empty()));
    let (kids, es1) = spec_push_inputs(t.children, accs, es);
    lemma_push_inputs_extends(t.children, accs, es);
    lemma_combine_extends(entry_nodes(acc), es1);
    lemma_tree_parts(es, t, x);
    lemma_no_pushdown_free(t, acc, es, x);
    lemma_push_inputs_free(t.children, accs, es, x);
    lemma_push_inputs_respected(t.children, accs, es, x);
    lemma_respected_over(es1, t.node, kids, x);
    crate::predicate_pushdown::boundaries::lemma_nodes_stable(es, es1, t.node.exprs(), x);
    crate::predicate_pushdown::boundaries::lemma_node_over(es1, t.node, kids, x);
    lemma_respected_apply(PlanTree { node: t.node, children: kids }, entry_nodes(acc), es1, x);
}

/// The law at a node that lets predicates pass and holds nothing back
/// itself.
pub proof fn lemma_continue_respected(
    t: PlanTree,
    acc: Entries,
    es: Seq<AExprView>,
    has_projections: bool,
    x: ExprTest,
)
    requires
        wf_exprs(es),
        targets_below(acc, es.len() as int),
        tree_exprs_below(t, es.len() as int),
        tree_shaped(t),
        fits(spec_pushdown_and_continue(t, acc, es, has_projections).1),
        free_of(es, t, x),
        !holds_back(t.node, x),
    ensures
        respected(
            spec_pushdown_and_continue(t, acc, es, has_projections).1,
            spec_pushdown_and_continue(t, acc, es, has_projections).0,
            x,
        ),
    decreases t, 2nat,
{
    lemma_tree_parts(es, t, x);
    if has_projections {
        if spec_any_has(es, t.node.exprs(), ExprTest::ProjectionBoundary) {
            lemma_no_pushdown_respected(t, acc, es, x);
        } else {
            let n = t.children.len();
            let map = spec_projection_map(es, t.node.exprs());
            let rule = projection_rule(t.node, es, tree_schema(t.children.last()));
            let (acc1, local, es1) = spec_rewrite_projection_node(
                t.node,
                acc,
                es,
                tree_schema(t.children.last()),
            );
            let accs = Seq::new(
                n,
                |i: int|
                    if i == n - 1 {
                        Some(acc1)
                    } else {
                        None
                    },
            );
            let (kids, es2) = spec_push_inputs(t.children, accs, es1);
            lemma_rewrite_extends(acc, es, map, rule);
            lemma_push_inputs_extends(t.children, accs, es1);
            lemma_combine_extends(local, es2);
            lemma_projection_map_valid(es, t.node.exprs());
            lemma_rewrite_free(acc, es, map, rule, x);
            assert forall|k: int| 0 <= k < t.children.len() implies tree_exprs_below(
                #[trigger] t.children[k],
                es1.len() as int,
            ) && free_of(es1, t.children[k], x) by {
                lemma_tree_stable(es, es1, t.children[k], x);
            }
            lemma_push_inputs_free(t.children, accs, es1, x);
            lemma_push_inputs_respected(t.children, accs, es1, x);
            lemma_respected_over(es2, t.node, kids, x);
            crate::predicate_pushdown::boundaries::lemma_nodes_stable(es, es2, t.node.exprs(), x);
            crate::predicate_pushdown::boundaries::lemma_node_over(es2, t.node, kids, x);
            lemma_respected_apply(PlanTree { node: t.node, children: kids }, local, es2, x);
        }
    } else {
        let accs = spec_schema_accs(t.children, acc, es);
        let local = spec_schema_local(t.children, acc, es);
        let (kids, es1) = spec_push_inputs(t.children, accs, es);
        lemma_push_inputs_extends(t.children, accs, es);
        lemma_combine_extends(local, es1);
        assert(accs_below(accs, es.len() as int)) by {
            assert forall|k: int| 0 <= k < accs.len() implies ((#[trigger] accs[k]) matches Some(
                a,
            ) ==> targets_below(a, es.len() as int)) by {
                lemma_select_free(
                    es,
                    CriterionView::NotIn(tree_schema(t.children[k])),
                    acc,
                    false,
                    x,
                );
            }
        }
        lemma_push_inputs_free(t.children, accs, es, x);
        lemma_push_inputs_respected(t.children, accs, es, x);
        lemma_respected_over(es1, t.node, kids, x);
        crate::predicate_pushdown::boundaries::lemma_nodes_stable(es, es1, t.node.exprs(), x);
        crate::predicate_pushdown::boundaries::lemma_node_over(es1, t.node, kids, x);
        lemma_respected_apply(PlanTree { node: t.node, children: kids }, local, es1, x);
    }
}

/// The law at a node that holds back predicates without the property.
pub proof fn lemma_hold_back_respected(
    t: PlanTree,
    acc: Entries,
    es: Seq<AExprView>,
    c: CriterionView,
    x: ExprTest,
)
    requires
        wf_exprs(es),
        targets_below(acc, es.len() as int),
        tree_exprs_below(t, es.len() as int),
        tree_shaped(t),
        fits(spec_hold_back(t, acc, es, c).1),
        free_of(es, t, x),
        !holds_back(t.node, x),
    ensures
        respected(spec_hold_back(t, acc, es, c).1, spec_hold_back(t, acc, es, c).0, x),
    decreases t, 3nat,
{
    let staying = spec_staying(es, c, acc);
    let leaving = spec_leaving(es, c, acc);
    let (t1, es1) = spec_pushdown_and_continue(t, staying, es, false);
    lemma_continue_extends(t, staying, es, false);
    lemma_combine_extends(entry_nodes(leaving), es1);
    lemma_select_free(es, c, acc, false, x);
    lemma_select_free(es, c, acc, true, x);
    lemma_continue_free(t, staying, es, false, x);
    lemma_continue_respected(t, staying, es, false, x);
    lemma_respected_apply(t1, entry_nodes(leaving), es1, x);
}

/// The law at the kinds of node that hold nothing back, whatever the
/// property.
pub proof fn lemma_passing_respected(t: PlanTree, acc: Entries, es: Seq<AExprView>, x: ExprTest)
    requires
        wf_exprs(es),
        targets_below(acc, es.len() as int),
        tree_exprs_below(t, es.len() as int),
        tree_shaped(t),
        fits(spec_push_down(t, acc, es).1),
        free_of(es, t, x),
        !holds_back(t.node, x),
    ensures
        respected(spec_push_down(t, acc, es).1, spec_push_down(t, acc, es).0, x),
    decreases t, 4nat,
{
    lemma_tree_parts(es, t, x);
    lemma_push_down_free(t, acc, es, x);
    let res = spec_push_down(t, acc, es);
    match t.node {
        PlanView::Selection { predicate, .. } => {
            let c = CriterionView::Test(ExprTest::PushdownBoundary);
            let staying = spec_staying(es, c, acc);
            let leaving = spec_leaving(es, c, acc);
            let (acc1, es1) = spec_insert_and_combine(staying, predicate, es);
            let accs = seq![Some(acc1)];
            let (kids, es2) = spec_push_inputs(t.children, accs, es1);
            assert(extends(es, es1));
            lemma_push_inputs_extends(t.children, accs, es1);
            lemma_combine_extends(entry_nodes(leaving), es2);
            assert(t.node.exprs()[0] == predicate);
            lemma_select_free(es, c, acc, false, x);
            lemma_select_free(es, c, acc, true, x);
            lemma_insert_free(staying, predicate, es, x);
            assert forall|k: int| 0 <= k < t.children.len() implies tree_exprs_below(
                #[trigger] t.children[k],
                es1.len() as int,
            ) && free_of(es1, t.children[k], x) by {
                lemma_tree_stable(es, es1, t.children[k], x);
            }
            lemma_push_inputs_free(t.children, accs, es1, x);
            lemma_push_inputs_respected(t.children, accs, es1, x);
            assert(kids.len() == 1);
            lemma_respected_apply(kids[0], entry_nodes(leaving), es2, x);
        },
        PlanView::DataFrameScan { .. }
        | PlanView::Scan { .. }
        | PlanView::AnonymousScan { .. }
        | PlanView::PythonScan { .. } => {
            // a plan without a predicate with the property, or a plan
            // of one node below filters
            lemma_leaf_respected(t, acc, es, x);
        },
        PlanView::LocalProjection { expr, .. } => {
            let accs = seq![Some(acc)];
            let (kids, es1) = spec_push_inputs(t.children, accs, es);
            lemma_push_inputs_free(t.children, accs, es, x);
            lemma_push_inputs_respected(t.children, accs, es, x);
            lemma_respected_over(es1, res.0.node, kids, x);
        },
        PlanView::MapFunction { function, .. } => {
            match function {
                FunctionNodeView::Rename { existing, new } => {
                    let input_schema = tree_schema(t.children[0]);
                    let (acc1, local, es1) = spec_process_rename(
                        acc,
                        es,
                        existing,
                        new,
                        input_schema,
                    );
                    let (t1, es2) = spec_pushdown_and_continue(t, acc1, es1, false);
                    lemma_process_rename_extends(acc, es, existing, new, input_schema);
                    lemma_continue_extends(t, acc1, es1, false);
                    lemma_combine_extends(local, es2);
                    lemma_process_rename_free(acc, es, existing, new, input_schema, x);
                    lemma_tree_stable(es, es1, t, x);
                    lemma_continue_free(t, acc1, es1, false, x);
                    lemma_continue_respected(t, acc1, es1, false, x);
                    lemma_respected_apply(t1, local, es2, x);
                },
                FunctionNodeView::Melt { value_vars, variable_name, value_name, .. } => {
                    lemma_hold_back_respected(
                        t,
                        acc,
                        es,
                        CriterionView::Names(melt_names(value_vars, variable_name, value_name)),
                        x,
                    );
                },
                FunctionNodeView::Opaque { .. } => {
                    lemma_continue_respected(t, acc, es, false, x);
                },
                FunctionNodeView::Explode { .. } => {},
            }
        },
        PlanView::Union { .. } => {
            lemma_hold_back_respected(t, acc, es, CriterionView::Test(ExprTest::Count), x);
        },
        PlanView::Sort { .. } => {
            lemma_hold_back_respected(t, acc, es, CriterionView::Test(ExprTest::SortBoundary), x);
        },
        PlanView::FileSink { .. } | PlanView::CloudSink { .. } => {
            lemma_continue_respected(t, acc, es, false, x);
        },
        PlanView::HStack { .. } | PlanView::Projection { .. } | PlanView::ExtContext { .. } => {
            lemma_continue_respected(t, acc, es, true, x);
        },
        _ => {},
    }
}

/// The law at a scan: what comes out is a plan of one node, below
/// filters or not.
pub proof fn lemma_leaf_respected(t: PlanTree, acc: Entries, es: Seq<AExprView>, x: ExprTest)
    requires
        wf_exprs(es),
        targets_below(acc, es.len() as int),
        tree_exprs_below(t, es.len() as int),
        tree_shaped(t),
        fits(spec_push_down(t, acc, es).1),
        t.node is DataFrameScan || t.node is Scan || t.node is AnonymousScan || t.node is PythonScan,
    ensures
        respected(spec_push_down(t, acc, es).1, spec_push_down(t, acc, es).0, x),
{
    let res = spec_push_down(t, acc, es);
    assert(t.children.len() == 0);
    lemma_scan_is_leaf(t, acc, es);
    let root = under_filters(res.0);
    assert(respected(res.1, root, x));
    lemma_respected_under(res.1, res.0, x);
}

/// What the pass makes of a scan is a plan of one node of the same
/// kind, below filters or not.
pub proof fn lemma_scan_is_leaf(t: PlanTree, acc: Entries, es: Seq<AExprView>)
    requires
        t.children.len() == 0,
        t.node is DataFrameScan || t.node is Scan || t.node is AnonymousScan || t.node is PythonScan,
    ensures
        under_filters(spec_push_down(t, acc, es).0).children.len() == 0,
{
    let res = spec_push_down(t, acc, es);
    let none: Seq<PlanTree> = seq![];
    assert(t.children =~= none);
    match t.node {
        PlanView::DataFrameScan { .. } => {},
        PlanView::Scan { predicate, .. } => {
            lemma_at_scan_is_leaf(t.node, predicate, acc, es);
        },
        PlanView::AnonymousScan { allows_predicate_pushdown, predicate, .. } => {
            if allows_predicate_pushdown {
                lemma_at_scan_is_leaf(t.node, predicate, acc, es);
            } else {
                let accs = Seq::new(
                    t.children.len(),
                    |i: int| Some(Seq::<(Seq<char>, Node)>::empty()),
                );
                assert(spec_push_inputs(t.children, accs, es) == (none, es));
                crate::predicate_pushdown::boundaries::lemma_under_apply(
                    PlanTree { node: t.node, children: none },
                    entry_nodes(acc),
                    es,
                );
            }
        },
        PlanView::PythonScan { pyarrow, predicate, .. } => {
            if pyarrow {
                let (pred, es1) = crate::predicate_pushdown::utils::spec_predicate_at_scan(
                    acc,
                    predicate,
                    es,
                );
                if pred is Some && crate::pyarrow::spec_predicate_to_pa(es1, pred.unwrap().0 as int)
                    is None {
                    crate::predicate_pushdown::boundaries::lemma_under_apply(
                        crate::predicate_pushdown::model::leaf(t.node.with_exprs(seq![])),
                        seq![pred.unwrap()],
                        es1,
                    );
                }
            } else {
                let accs = Seq::new(
                    t.children.len(),
                    |i: int| Some(Seq::<(Seq<char>, Node)>::empty()),
                );
                assert(spec_push_inputs(t.children, accs, es) == (none, es));
                crate::predicate_pushdown::boundaries::lemma_under_apply(
                    PlanTree { node: t.node, children: none },
                    entry_nodes(acc),
                    es,
                );
            }
        },
        _ => {},
    }
}

/// What a scan that takes predicates becomes is a plan of one node,
/// below filters or not.
pub proof fn lemma_at_scan_is_leaf(
    node: PlanView,
    existing: Option<Node>,
    acc: Entries,
    es: Seq<AExprView>,
)
    requires
        node is Scan || node is AnonymousScan,
    ensures
        under_filters(
            crate::predicate_pushdown::model::spec_at_scan(node, existing, acc, es).0,
        ).children.len() == 0,
{
    let c = CriterionView::Test(ExprTest::FullContext);
    let (pred, es1) = crate::predicate_pushdown::utils::spec_predicate_at_scan(
        spec_staying(es, c, acc),
        existing,
        es,
    );
    let scan = match (pred, node) {
        (Some(p), PlanView::Scan { scan_type: crate::alp::FileScan::Csv, .. }) => PlanTree {
            node: selection_of(p),
            children: seq![crate::predicate_pushdown::model::leaf(node.with_exprs(seq![]))],
        },
        _ => crate::predicate_pushdown::model::leaf(
            node.with_exprs(crate::alp::opt_seq(pred)),
        ),
    };
    crate::predicate_pushdown::boundaries::lemma_under_apply(
        scan,
        entry_nodes(spec_leaving(es, c, acc)),
        es1,
    );
    let bare = crate::predicate_pushdown::model::leaf(node.with_exprs(seq![]));
    let held = crate::predicate_pushdown::model::leaf(node.with_exprs(crate::alp::opt_seq(pred)));
    assert(!(bare.node is Selection) && !(held.node is Selection));
    assert(under_filters(bare) == bare);
    assert(under_filters(held) == held);
    if scan.node is Selection {
        assert(scan.children[0] == bare);
        assert(under_filters(scan) == under_filters(bare));
    }
}

/// Boundaries respected, at every node: if no filter or scan of the
/// plan holds a predicate with the property before the pass, then after
/// it no node that holds back such predicates has one in the plans of
/// its inputs, whatever comes in from above.
///
/// A sort holds back what depends on the order of rows, a union what
/// counts rows, a join, a distinct and an explode what depends on other
/// rows at all, and a node that lets nothing pass everything: see
/// [`holds_back`]. Filters are no such nodes: the pass takes them up and
/// makes new ones.
pub proof fn lemma_push_down_respected(t: PlanTree, acc: Entries, es: Seq<AExprView>, x: ExprTest)
    requires
        wf_exprs(es),
        targets_below(acc, es.len() as int),
        tree_exprs_below(t, es.len() as int),
        tree_shaped(t),
        fits(spec_push_down(t, acc, es).1),
        free_of(es, t, x),
    ensures
        respected(spec_push_down(t, acc, es).1, spec_push_down(t, acc, es).0, x),
    decreases t, 5nat,
{
    if holds_back(t.node, x) {
        let res = spec_push_down(t, acc, es);
        lemma_tree_parts(es, t, x);
        lemma_boundaries_respected(t, acc, es, x);
        let root = under_filters(res.0);
        assert forall|k: int| 0 <= k < root.children.len() implies respected(
            res.1,
            #[trigger] root.children[k],
            x,
        ) by {
            lemma_free_respected(res.1, root.children[k], x);
        }
        lemma_respected_under(res.1, res.0, x);
    } else {
        lemma_passing_respected(t, acc, es, x);
    }
}

/// Boundaries respected, for a plan in an arena with predicates coming
/// in from above: see [`lemma_push_down_respected`].
pub proof fn lemma_pass_respects_boundaries(
    s: crate::plan_tree::Slots,
    lp: PlanView,
    acc: Entries,
    es: Seq<AExprView>,
    x: ExprTest,
)
    requires
        crate::predicate_pushdown::refine::is_plan(s, lp, es.len() as int),
        wf_exprs(es),
        targets_below(acc, es.len() as int),
        fits(spec_push_down(crate::predicate_pushdown::refine::plan_of(s, lp), acc, es).1),
        free_of(es, crate::predicate_pushdown::refine::plan_of(s, lp), x),
    ensures
        respected(
            spec_push_down(crate::predicate_pushdown::refine::plan_of(s, lp), acc, es).1,
            spec_push_down(crate::predicate_pushdown::refine::plan_of(s, lp), acc, es).0,
            x,
        ),
{
    crate::predicate_pushdown::laws::lemma_plan_shaped(s, lp, es.len() as int);
    lemma_push_down_respected(crate::predicate_pushdown::refine::plan_of(s, lp), acc, es, x);
}

} // verus!
