//! Where predicates end up: the pass moves a predicate down the plan or
//! leaves it where it is, and never moves it above the node that it
//! stood below.

use vstd::prelude::*;

use crate::aexpr::{extends, wf_exprs, AExprView, ExprTest};
use crate::alp::{FunctionNodeView, PlanView};
use crate::arena::Node;
use crate::expr_walk::targets_below;
use crate::plan_schema::tree_schema;
use crate::plan_tree::PlanTree;
use crate::predicate_pushdown::boundaries::{accs_below, fits, lemma_insert_free};
use crate::predicate_pushdown::boundaries::lemma_continue_free;
use crate::predicate_pushdown::boundaries::{lemma_join_partition_free, lemma_process_rename_free};
use crate::predicate_pushdown::boundaries::{lemma_projection_map_valid, lemma_push_down_free};
use crate::predicate_pushdown::boundaries::{lemma_push_inputs_free, lemma_rewrite_free};
use crate::predicate_pushdown::boundaries::{lemma_select_free, lemma_tree_parts};
use crate::predicate_pushdown::boundaries::{lemma_tree_stable, lemma_under_apply, under_filters};
use crate::predicate_pushdown::drained::{filters_hold, lemma_held_as_expression, tree_holds};
use crate::predicate_pushdown::drained::{lemma_input_holds_stable, lemma_push_inputs_holds};
use crate::predicate_pushdown::drained::lemma_tree_holds_stable;
use crate::predicate_pushdown::everywhere::lemma_scan_is_leaf;
use crate::predicate_pushdown::join::spec_join_partition;
use crate::predicate_pushdown::laws::{lemma_combine_extends, lemma_continue_extends};
use crate::predicate_pushdown::laws::{lemma_process_rename_extends, lemma_push_down_extends};
use crate::predicate_pushdown::laws::{lemma_push_inputs_extends, lemma_rewrite_extends};
use crate::predicate_pushdown::laws::tree_shaped;
use crate::predicate_pushdown::model::{melt_names, projection_rule};
use crate::predicate_pushdown::model::{spec_hold_back, spec_no_pushdown_restart_opt};
use crate::predicate_pushdown::model::{spec_optional_apply_predicate, spec_push_down};
use crate::predicate_pushdown::model::{spec_push_inputs, spec_pushdown_and_continue};
use crate::predicate_pushdown::model::{spec_rewrite_projection_node, spec_schema_accs};
use crate::predicate_pushdown::model::{spec_schema_local, Entries};
use crate::predicate_pushdown::refine::{forest_exprs_below, tree_exprs_below};
use crate::predicate_pushdown::rename::spec_process_rename;
use crate::predicate_pushdown::utils::{entry_nodes, spec_any_has, spec_insert_and_combine};
use crate::predicate_pushdown::utils::{spec_leaving, spec_projection_map, spec_staying};
use crate::predicate_pushdown::utils::CriterionView;

verus! {

/// Whether the plan has a filter at its root.
pub open spec fn is_filter(t: PlanTree) -> bool {
    t.node is Selection && t.children.len() == 1
}

/// Whether no predicate of the plan `t` has moved above the node that
/// it stood below, in the plan `t2` that the pass made of `t`.
///
/// The pass takes up the filters at the top of `t` and puts filters
/// above what it makes of the node below them. Below those filters in
/// `t2` stands that node, with as many inputs as it had; what the plan
/// of an input held as an expression, a filter or a scan of the plan
/// that the pass made of that input holds; and the same is so of each
/// input in turn.
pub open spec fn stays_below(
    es: Seq<AExprView>,
    t: PlanTree,
    es2: Seq<AExprView>,
    t2: PlanTree,
) -> bool
    decreases t,
{
    if is_filter(t) {
        stays_below(es, t.children[0], es2, t2)
    } else {
        let core = under_filters(t2);
        &&& core.children.len() == t.children.len()
        &&& forall|k: int, q: Node|
            0 <= k < t.children.len() && q.0 < es.len() && #[trigger] filters_hold(
                es,
                t.children[k],
                q,
            ) ==> tree_holds(es2, core.children[k], q)
        &&& forall|k: int|
            0 <= k < t.children.len() ==> stays_below(
                es,
                #[trigger] t.children[k],
                es2,
                core.children[k],
            )
    }
}

/// The plan below the filters at the top of a plan names expressions
/// of the arena if the plan does.
pub proof fn lemma_under_below(t: PlanTree, n: int)
    requires
        tree_exprs_below(t, n),
    ensures
        tree_exprs_below(under_filters(t), n),
    decreases t,
{
    if is_filter(t) {
        lemma_under_below(t.children[0], n);
    }
}

/// Filters above what the pass made of a plan change nothing below
/// them.
pub proof fn lemma_stays_under(
    es: Seq<AExprView>,
    t: PlanTree,
    es2: Seq<AExprView>,
    t2: PlanTree,
    t3: PlanTree,
)
    requires
        under_filters(t3) == under_filters(t2),
        stays_below(es, t, es2, t2),
    ensures
        stays_below(es, t, es2, t3),
    decreases t,
{
    if is_filter(t) {
        lemma_stays_under(es, t.children[0], es2, t2, t3);
    }
}

/// What holds in an arena holds when expressions are added to it.
pub proof fn lemma_stays_grows(
    es: Seq<AExprView>,
    t: PlanTree,
    es2: Seq<AExprView>,
    es3: Seq<AExprView>,
    t2: PlanTree,
)
    requires
        wf_exprs(es2),
        extends(es2, es3),
        es.len() <= es2.len(),
        tree_exprs_below(t2, es2.len() as int),
        stays_below(es, t, es2, t2),
    ensures
        stays_below(es, t, es3, t2),
    decreases t,
{
    if is_filter(t) {
        lemma_stays_grows(es, t.children[0], es2, es3, t2);
    } else {
        let core = under_filters(t2);
        lemma_under_below(t2, es2.len() as int);
        assert forall|k: int, q: Node|
            0 <= k < t.children.len() && q.0 < es.len() && #[trigger] filters_hold(
                es,
                t.children[k],
                q,
            ) implies tree_holds(es3, core.children[k], q) by {
            lemma_tree_holds_stable(es2, es3, core.children[k], q);
        }
        assert forall|k: int| 0 <= k < t.children.len() implies stays_below(
            es,
            #[trigger] t.children[k],
            es3,
            core.children[k],
        ) by {
            lemma_stays_grows(es, t.children[k], es2, es3, core.children[k]);
        }
    }
}

/// What holds of a plan in an arena holds of it in an arena that the
/// first one extends.
pub proof fn lemma_stays_from(
    es0: Seq<AExprView>,
    es: Seq<AExprView>,
    t: PlanTree,
    es2: Seq<AExprView>,
    t2: PlanTree,
)
    requires
        wf_exprs(es0),
        extends(es0, es),
        tree_exprs_below(t, es0.len() as int),
        stays_below(es, t, es2, t2),
    ensures
        stays_below(es0, t, es2, t2),
    decreases t,
{
    if is_filter(t) {
        lemma_stays_from(es0, es, t.children[0], es2, t2);
    } else {
        let core = under_filters(t2);
        assert forall|k: int, q: Node|
            0 <= k < t.children.len() && q.0 < es0.len() && #[trigger] filters_hold(
                es0,
                t.children[k],
                q,
            ) implies tree_holds(es2, core.children[k], q) by {
            lemma_input_holds_stable(es0, es, t.children[k], q);
        }
        assert forall|k: int| 0 <= k < t.children.len() implies stays_below(
            es0,
            #[trigger] t.children[k],
            es2,
            core.children[k],
        ) by {
            lemma_stays_from(es0, es, t.children[k], es2, core.children[k]);
        }
    }
}

/// A plan that the pass leaves as it is.
pub proof fn lemma_stays_same(es: Seq<AExprView>, t: PlanTree, t2: PlanTree)
    requires
        under_filters(t2) == under_filters(t),
    ensures
        stays_below(es, t, es, t2),
    decreases t,
{
    if is_filter(t) {
        lemma_stays_same(es, t.children[0], t2);
    } else {
        assert forall|k: int, q: Node|
            0 <= k < t.children.len() && q.0 < es.len() && #[trigger] filters_hold(
                es,
                t.children[k],
                q,
            ) implies tree_holds(es, t.children[k], q) by {
            lemma_held_as_expression(es, t.children[k], q);
        }
        assert forall|k: int| 0 <= k < t.children.len() implies stays_below(
            es,
            #[trigger] t.children[k],
            es,
            t.children[k],
        ) by {
            lemma_stays_same(es, t.children[k], t.children[k]);
        }
    }
}

/// A filter put above what the pass made of a plan.
pub proof fn lemma_stays_apply(
    es: Seq<AExprView>,
    t: PlanTree,
    es2: Seq<AExprView>,
    t2: PlanTree,
    local: Seq<Node>,
)
    requires
        wf_exprs(es2),
        es.len() <= es2.len(),
        tree_exprs_below(t2, es2.len() as int),
        fits(spec_optional_apply_predicate(t2, local, es2).1),
        stays_below(es, t, es2, t2),
    ensures
        stays_below(
            es,
            t,
            spec_optional_apply_predicate(t2, local, es2).1,
            spec_optional_apply_predicate(t2, local, es2).0,
        ),
{
    let res = spec_optional_apply_predicate(t2, local, es2);
    lemma_combine_extends(local, es2);
    lemma_under_apply(t2, local, es2);
    lemma_stays_grows(es, t, es2, res.1, t2);
    lemma_stays_under(es, t, res.1, t2, res.0);
}

/// The pass on a list of plans: no predicate of a plan has moved above
/// the node that it stood below.
pub proof fn lemma_push_inputs_stay(
    children: Seq<PlanTree>,
    accs: Seq<Option<Entries>>,
    es: Seq<AExprView>,
)
    requires
        wf_exprs(es),
        forest_exprs_below(children, es.len() as int),
        forall|k: int| 0 <= k < children.len() ==> tree_shaped(#[trigger] children[k]),
        accs.len() >= children.len(),
        accs_below(accs, es.len() as int),
        fits(spec_push_inputs(children, accs, es).1),
    ensures
        spec_push_inputs(children, accs, es).0.len() == children.len(),
        forall|k: int|
            0 <= k < children.len() ==> stays_below(
                es,
                #[trigger] children[k],
                spec_push_inputs(children, accs, es).1,
                spec_push_inputs(children, accs, es).0[k],
            ),
    decreases children, 0nat,
{
    let x = ExprTest::Count;
    if children.len() > 0 {
        let init = children.drop_last();
        let last = children.last();
        assert(last == children[children.len() - 1]);
        assert forall|k: int| 0 <= k < init.len() implies tree_exprs_below(
            #[trigger] init[k],
            es.len() as int,
        ) && tree_shaped(init[k]) by {
            assert(init[k] == children[k]);
        }
        let (done, es1) = spec_push_inputs(init, accs, es);
        let at = children.len() - 1;
        match accs[at] {
            Some(acc) => {
                lemma_push_down_extends(last, acc, es1);
            },
            None => {},
        }
        lemma_push_inputs_free(init, accs, es, x);
        lemma_push_inputs_stay(init, accs, es);
        lemma_tree_stable(es, es1, last, x);
        let out = spec_push_inputs(children, accs, es);
        match accs[at] {
            Some(acc) => {
                lemma_push_down_free(last, acc, es1, x);
                lemma_push_down_stays(last, acc, es1);
                let (c, es2) = spec_push_down(last, acc, es1);
                assert(out.0 == done.push(c));
                assert forall|k: int| 0 <= k < children.len() implies stays_below(
                    es,
                    #[trigger] children[k],
                    es2,
                    out.0[k],
                ) by {
                    if k < done.len() {
                        assert(out.0[k] == done[k]);
                        assert(children[k] == init[k]);
                        lemma_stays_grows(es, init[k], es1, es2, done[k]);
                    } else {
                        lemma_stays_from(es, es1, last, es2, c);
                    }
                }
            },
            None => {
                assert(out.0 == done.push(last));
                lemma_stays_same(es1, last, last);
                lemma_stays_from(es, es1, last, es1, last);
                assert forall|k: int| 0 <= k < children.len() implies stays_below(
                    es,
                    #[trigger] children[k],
                    es1,
                    out.0[k],
                ) by {
                    if k < done.len() {
                        assert(out.0[k] == done[k]);
                        assert(children[k] == init[k]);
                    }
                }
            },
        }
    }
}

/// A node that is kept above what the pass made of its inputs.
pub proof fn lemma_inputs_stay(
    t: PlanTree,
    node2: PlanView,
    accs: Seq<Option<Entries>>,
    es0: Seq<AExprView>,
    es: Seq<AExprView>,
)
    requires
        !(t.node is Selection),
        !(node2 is Selection),
        wf_exprs(es0),
        wf_exprs(es),
        extends(es0, es),
        tree_exprs_below(t, es0.len() as int),
        tree_shaped(t),
        accs.len() >= t.children.len(),
        accs_below(accs, es.len() as int),
        fits(spec_push_inputs(t.children, accs, es).1),
    ensures
        stays_below(
            es0,
            t,
            spec_push_inputs(t.children, accs, es).1,
            PlanTree { node: node2, children: spec_push_inputs(t.children, accs, es).0 },
        ),
    decreases t, 1nat,
{
    let x = ExprTest::Count;
    let (kids, es1) = spec_push_inputs(t.children, accs, es);
    let inner = PlanTree { node: node2, children: kids };
    lemma_push_inputs_extends(t.children, accs, es);
    lemma_tree_parts(es0, t, x);
    assert forall|k: int| 0 <= k < t.children.len() implies tree_exprs_below(
        #[trigger] t.children[k],
        es.len() as int,
    ) && tree_shaped(t.children[k]) by {
        lemma_tree_stable(es0, es, t.children[k], x);
    }
    lemma_push_inputs_free(t.children, accs, es, x);
    lemma_push_inputs_stay(t.children, accs, es);
    assert(under_filters(inner) == inner);
    assert forall|k: int, q: Node|
        0 <= k < t.children.len() && q.0 < es0.len() && #[trigger] filters_hold(
            es0,
            t.children[k],
            q,
        ) implies tree_holds(es1, inner.children[k], q) by {
        lemma_input_holds_stable(es0, es, t.children[k], q);
        lemma_push_inputs_holds(t.children, accs, es, q, k);
    }
    assert forall|k: int| 0 <= k < t.children.len() implies stays_below(
        es0,
        #[trigger] t.children[k],
        es1,
        inner.children[k],
    ) by {
        lemma_stays_from(es0, es, t.children[k], es1, kids[k]);
    }
}

/// The law at a node that lets no predicate pass.
pub proof fn lemma_no_pushdown_stays(t: PlanTree, acc: Entries, es: Seq<AExprView>)
    requires
        wf_exprs(es),
        targets_below(acc, es.len() as int),
        tree_exprs_below(t, es.len() as int),
        tree_shaped(t),
        fits(spec_no_pushdown_restart_opt(t, acc, es).1),
        !(t.node is Selection),
    ensures
        stays_below(
            es,
            t,
            spec_no_pushdown_restart_opt(t, acc, es).1,
            spec_no_pushdown_restart_opt(t, acc, es).0,
        ),
    decreases t, 2nat,
{
    let x = ExprTest::Count;
    let accs = Seq::new(t.children.len(), |i: int| Some(Seq::<(Seq<char>, Node)>::empty()));
    let (kids, es1) = spec_push_inputs(t.children, accs, es);
    let inner = PlanTree { node: t.node, children: kids };
    lemma_push_inputs_extends(t.children, accs, es);
    lemma_combine_extends(entry_nodes(acc), es1);
    lemma_tree_parts(es, t, x);
    lemma_push_inputs_free(t.children, accs, es, x);
    lemma_inputs_stay(t, t.node, accs, es, es);
    crate::predicate_pushdown::boundaries::lemma_nodes_stable(es, es1, t.node.exprs(), x);
    crate::predicate_pushdown::boundaries::lemma_node_over(es1, t.node, kids, x);
    lemma_stays_apply(es, t, es1, inner, entry_nodes(acc));
}

/// The law at a node that lets predicates pass.
pub proof fn lemma_continue_stays(
    t: PlanTree,
    acc: Entries,
    es: Seq<AExprView>,
    has_projections: bool,
)
    requires
        wf_exprs(es),
        targets_below(acc, es.len() as int),
        tree_exprs_below(t, es.len() as int),
        tree_shaped(t),
        fits(spec_pushdown_and_continue(t, acc, es, has_projections).1),
        !(t.node is Selection),
    ensures
        stays_below(
            es,
            t,
            spec_pushdown_and_continue(t, acc, es, has_projections).1,
            spec_pushdown_and_continue(t, acc, es, has_projections).0,
        ),
    decreases t, 3nat,
{
    let x = ExprTest::Count;
    lemma_tree_parts(es, t, x);
    if has_projections {
        if spec_any_has(es, t.node.exprs(), ExprTest::ProjectionBoundary) {
            lemma_no_pushdown_stays(t, acc, es);
        } else {
            let n = t.children.len();
            let map = spec_projection_map(es, t.node.exprs());
            let rule = projection_rule(t.node, es, tree_schema(t.children.last()));
            let (acc1, local, es1) = spec_rewrite_projection_node(
                t.node,
                acc,
                es,
                tree_schema(t.children.last()),
            );
            let accs = Seq::new(
                n,
                |i: int|
                    if i == n - 1 {
                        Some(acc1)
                    } else {
                        None
                    },
            );
            let (kids, es2) = spec_push_inputs(t.children, accs, es1);
            let inner = PlanTree { node: t.node, children: kids };
            lemma_rewrite_extends(acc, es, map, rule);
            lemma_push_inputs_extends(t.children, accs, es1);
            lemma_combine_extends(local, es2);
            lemma_projection_map_valid(es, t.node.exprs());
            lemma_rewrite_free(acc, es, map, rule, x);
            assert forall|k: int| 0 <= k < t.children.len() implies tree_exprs_below(
                #[trigger] t.children[k],
                es1.len() as int,
            ) by {
                lemma_tree_stable(es, es1, t.children[k], x);
            }
            lemma_push_inputs_free(t.children, accs, es1, x);
            lemma_inputs_stay(t, t.node, accs, es, es1);
            crate::predicate_pushdown::boundaries::lemma_nodes_stable(es, es2, t.node.exprs(), x);
            crate::predicate_pushdown::boundaries::lemma_node_over(es2, t.node, kids, x);
            lemma_stays_apply(es, t, es2, inner, local);
        }
    } else {
        let accs = spec_schema_accs(t.children, acc, es);
        let local = spec_schema_local(t.children, acc, es);
        let (kids, es1) = spec_push_inputs(t.children, accs, es);
        let inner = PlanTree { node: t.node, children: kids };
        lemma_push_inputs_extends(t.children, accs, es);
        lemma_combine_extends(local, es1);
        assert(accs_below(accs, es.len() as int)) by {
            assert forall|k: int| 0 <= k < accs.len() implies ((#[trigger] accs[k]) matches Some(
                a,
            ) ==> targets_below(a, es.len() as int)) by {
                lemma_select_free(
                    es,
                    CriterionView::NotIn(tree_schema(t.children[k])),
                    acc,
                    false,
                    x,
                );
            }
        }
        lemma_push_inputs_free(t.children, accs, es, x);
        lemma_inputs_stay(t, t.node, accs, es, es);
        crate::predicate_pushdown::boundaries::lemma_nodes_stable(es, es1, t.node.exprs(), x);
        crate::predicate_pushdown::boundaries::lemma_node_over(es1, t.node, kids, x);
        lemma_stays_apply(es, t, es1, inner, local);
    }
}

/// The law at a node that holds some predicates back.
pub proof fn lemma_hold_back_stays(t: PlanTree, acc: Entries, es: Seq<AExprView>, c: CriterionView)
    requires
        wf_exprs(es),
        targets_below(acc, es.len() as int),
        tree_exprs_below(t, es.len() as int),
        tree_shaped(t),
        fits(spec_hold_back(t, acc, es, c).1),
        !(t.node is Selection),
    ensures
        stays_below(es, t, spec_hold_back(t, acc, es, c).1, spec_hold_back(t, acc, es, c).0),
    decreases t, 4nat,
{
    let x = ExprTest::Count;
    let staying = spec_staying(es, c, acc);
    let leaving = spec_leaving(es, c, acc);
    let (t1, es1) = spec_pushdown_and_continue(t, staying, es, false);
    lemma_continue_extends(t, staying, es, false);
    lemma_combine_extends(entry_nodes(leaving), es1);
    lemma_select_free(es, c, acc, false, x);
    lemma_select_free(es, c, acc, true, x);
    lemma_continue_free(t, staying, es, false, x);
    lemma_continue_stays(t, staying, es, false);
    lemma_stays_apply(es, t, es1, t1, entry_nodes(leaving));
}

/// The law at each kind of node.
pub proof fn lemma_node_stays(t: PlanTree, acc: Entries, es: Seq<AExprView>)
    requires
        wf_exprs(es),
        targets_below(acc, es.len() as int),
        tree_exprs_below(t, es.len() as int),
        tree_shaped(t),
        fits(spec_push_down(t, acc, es).1),
        !(t.node is Selection),
    ensures
        stays_below(es, t, spec_push_down(t, acc, es).1, spec_push_down(t, acc, es).0),
    decreases t, 5nat,
{
    let x = ExprTest::Count;
    lemma_tree_parts(es, t, x);
    lemma_push_down_free(t, acc, es, x);
    let res = spec_push_down(t, acc, es);
    match t.node {
        PlanView::DataFrameScan { .. }
        | PlanView::Scan { .. }
        | PlanView::AnonymousScan { .. }
        | PlanView::PythonScan { .. } => {
            assert(t.children.len() == 0);
            lemma_scan_is_leaf(t, acc, es);
        },
        PlanView::LocalProjection { expr, .. } => {
            let accs = seq![Some(acc)];
            lemma_inputs_stay(t, res.0.node, accs, es, es);
        },
        PlanView::Distinct { keep_strategy, .. } => {
            if keep_strategy is Any || keep_strategy is Neither {
                let c1 = CriterionView::MultiRoot;
                let c2 = CriterionView::Test(ExprTest::PushdownBoundary);
                let acc1 = spec_staying(es, c1, acc);
                let local = entry_nodes(spec_leaving(es, c1, acc)) + entry_nodes(
                    spec_leaving(es, c2, acc1),
                );
                let accs = seq![Some(spec_staying(es, c2, acc1))];
                let (kids, es1) = spec_push_inputs(t.children, accs, es);
                let inner = PlanTree { node: t.node, children: kids };
                lemma_push_inputs_extends(t.children, accs, es);
                lemma_combine_extends(local, es1);
                lemma_select_free(es, c1, acc, false, x);
                lemma_select_free(es, c2, acc1, false, x);
                lemma_push_inputs_free(t.children, accs, es, x);
                lemma_inputs_stay(t, t.node, accs, es, es);
                crate::predicate_pushdown::boundaries::lemma_nodes_stable(
                    es,
                    es1,
                    t.node.exprs(),
                    x,
                );
                crate::predicate_pushdown::boundaries::lemma_node_over(es1, t.node, kids, x);
                lemma_stays_apply(es, t, es1, inner, local);
            } else {
                lemma_no_pushdown_stays(t, acc, es);
            }
        },
        PlanView::Join { left_on, right_on, how, .. } => {
            let sl = tree_schema(t.children[0]);
            let sr = tree_schema(t.children[1]);
            let (left, right, local) = spec_join_partition(acc, es, how, sl, sr, left_on, right_on);
            let accs = seq![Some(left), Some(right)];
            let (kids, es2) = spec_push_inputs(t.children, accs, es);
            let inner = PlanTree { node: t.node, children: kids };
            lemma_push_inputs_extends(t.children, accs, es);
            lemma_combine_extends(local, es2);
            lemma_join_partition_free(acc, es, how, sl, sr, left_on, right_on, x);
            lemma_push_inputs_free(t.children, accs, es, x);
            lemma_inputs_stay(t, t.node, accs, es, es);
            crate::predicate_pushdown::boundaries::lemma_nodes_stable(es, es2, t.node.exprs(), x);
            crate::predicate_pushdown::boundaries::lemma_node_over(es2, t.node, kids, x);
            lemma_stays_apply(es, t, es2, inner, local);
        },
        PlanView::MapFunction { function, .. } => {
            if !function.allow_predicate_pd() {
                lemma_no_pushdown_stays(t, acc, es);
            } else {
                match function {
                    FunctionNodeView::Rename { existing, new } => {
                        let input_schema = tree_schema(t.children[0]);
                        let (acc1, local, es1) = spec_process_rename(
                            acc,
                            es,
                            existing,
                            new,
                            input_schema,
                        );
                        let (t1, es2) = spec_pushdown_and_continue(t, acc1, es1, false);
                        lemma_process_rename_extends(acc, es, existing, new, input_schema);
                        lemma_continue_extends(t, acc1, es1, false);
                        lemma_combine_extends(local, es2);
                        lemma_process_rename_free(acc, es, existing, new, input_schema, x);
                        lemma_tree_stable(es, es1, t, x);
                        lemma_continue_free(t, acc1, es1, false, x);
                        lemma_continue_stays(t, acc1, es1, false);
                        lemma_stays_from(es, es1, t, es2, t1);
                        lemma_stays_apply(es, t, es2, t1, local);
                    },
                    FunctionNodeView::Explode { columns } => {
                        if spec_any_has(es, entry_nodes(acc), ExprTest::PushdownBoundary) {
                            let none: Entries = seq![];
                            let (t1, es1) = spec_pushdown_and_continue(t, none, es, false);
                            lemma_continue_extends(t, none, es, false);
                            lemma_combine_extends(entry_nodes(acc), es1);
                            lemma_continue_free(t, none, es, false, x);
                            lemma_continue_stays(t, none, es, false);
                            lemma_stays_apply(es, t, es1, t1, entry_nodes(acc));
                        } else {
                            lemma_hold_back_stays(t, acc, es, CriterionView::Names(columns));
                        }
                    },
                    FunctionNodeView::Melt { value_vars, variable_name, value_name, .. } => {
                        lemma_hold_back_stays(
                            t,
                            acc,
                            es,
                            CriterionView::Names(melt_names(value_vars, variable_name, value_name)),
                        );
                    },
                    FunctionNodeView::Opaque { .. } => {
                        lemma_continue_stays(t, acc, es, false);
                    },
                }
            }
        },
        PlanView::Union { .. } => {
            lemma_hold_back_stays(t, acc, es, CriterionView::Test(ExprTest::Count));
        },
        PlanView::Sort { .. } => {
            lemma_hold_back_stays(t, acc, es, CriterionView::Test(ExprTest::SortBoundary));
        },
        PlanView::FileSink { .. } | PlanView::CloudSink { .. } => {
            lemma_continue_stays(t, acc, es, false);
        },
        PlanView::HStack { .. } | PlanView::Projection { .. } | PlanView::ExtContext { .. } => {
            lemma_continue_stays(t, acc, es, true);
        },
        PlanView::Slice { .. } | PlanView::Cache { .. } | PlanView::Aggregate { .. } => {
            lemma_no_pushdown_stays(t, acc, es);
        },
        PlanView::Selection { .. } => {},
    }
}

/// Predicates only move down: the pass moves no predicate above the
/// node that it stood below. What the plan of an input of a node held
/// before the pass, a filter or a scan of the plan that the pass made
/// of that input holds after it; and so on for the inputs of each
/// input. See [`stays_below`].
///
/// With [`lemma_push_down_holds`](crate::predicate_pushdown::drained::lemma_push_down_holds)
/// this says where a predicate is after the pass: in the plan that the
/// pass made of the plan whose root held it, in a filter above the node
/// that would not let it pass or in the scan that took it.
pub proof fn lemma_push_down_stays(t: PlanTree, acc: Entries, es: Seq<AExprView>)
    requires
        wf_exprs(es),
        targets_below(acc, es.len() as int),
        tree_exprs_below(t, es.len() as int),
        tree_shaped(t),
        fits(spec_push_down(t, acc, es).1),
    ensures
        stays_below(es, t, spec_push_down(t, acc, es).1, spec_push_down(t, acc, es).0),
    decreases t, 6nat,
{
    let x = ExprTest::Count;
    match t.node {
        PlanView::Selection { predicate, .. } => {
            lemma_tree_parts(es, t, x);
            let c = CriterionView::Test(ExprTest::PushdownBoundary);
            let staying = spec_staying(es, c, acc);
            let leaving = spec_leaving(es, c, acc);
            let (acc1, es1) = spec_insert_and_combine(staying, predicate, es);
            let accs = seq![Some(acc1)];
            let (kids, es2) = spec_push_inputs(t.children, accs, es1);
            assert(extends(es, es1));
            lemma_push_inputs_extends(t.children, accs, es1);
            lemma_combine_extends(entry_nodes(leaving), es2);
            assert(t.node.exprs()[0] == predicate);
            lemma_select_free(es, c, acc, false, x);
            lemma_select_free(es, c, acc, true, x);
            lemma_insert_free(staying, predicate, es, x);
            assert forall|k: int| 0 <= k < t.children.len() implies tree_exprs_below(
                #[trigger] t.children[k],
                es1.len() as int,
            ) by {
                lemma_tree_stable(es, es1, t.children[k], x);
            }
            lemma_push_inputs_free(t.children, accs, es1, x);
            lemma_push_inputs_stay(t.children, accs, es1);
            assert(t.children.len() == 1);
            assert(is_filter(t));
            lemma_stays_from(es, es1, t.children[0], es2, kids[0]);
            lemma_stays_apply(es, t.children[0], es2, kids[0], entry_nodes(leaving));
        },
        _ => {
            lemma_node_stays(t, acc, es);
        },
    }
}

/// Predicates only move down, for a plan in an arena with predicates
/// coming in from above: see [`lemma_push_down_stays`].
pub proof fn lemma_pass_moves_predicates_down(
    s: crate::plan_tree::Slots,
    lp: PlanView,
    acc: Entries,
    es: Seq<AExprView>,
)
    requires
        crate::predicate_pushdown::refine::is_plan(s, lp, es.len() as int),
        wf_exprs(es),
        targets_below(acc, es.len() as int),
        fits(spec_push_down(crate::predicate_pushdown::refine::plan_of(s, lp), acc, es).1),
    ensures
        stays_below(
            es,
            crate::predicate_pushdown::refine::plan_of(s, lp),
            spec_push_down(crate::predicate_pushdown::refine::plan_of(s, lp), acc, es).1,
            spec_push_down(crate::predicate_pushdown::refine::plan_of(s, lp), acc, es).0,
        ),
{
    crate::predicate_pushdown::laws::lemma_plan_shaped(s, lp, es.len() as int);
    lemma_push_down_stays(crate::predicate_pushdown::refine::plan_of(s, lp), acc, es);
}

} // verus!
