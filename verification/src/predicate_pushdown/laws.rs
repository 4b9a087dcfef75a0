//! What holds of every pass: laws of the model, proved once for all
//! plans.

use vstd::prelude::*;

use crate::aexpr::{extends, AExprView, ExprTest};
use crate::alp::{FileScan, FunctionNodeView, PlanView};
use crate::arena::Node;
use crate::expr_walk::{spec_check_input_node, spec_leaf_names, spec_leaf_names_of};
use crate::expr_walk::{spec_substitute, spec_substitute_all};
use crate::plan_schema::tree_schema;
use crate::alp::lemma_with_inputs;
use crate::plan_tree::{unfold_at, unfold_inputs, PlanTree, Slots};
use crate::predicate_pushdown::refine::{is_plan, lemma_plan_of, plan_of};
use crate::predicate_pushdown::join::spec_join_partition;
use crate::predicate_pushdown::model::{leaf, selection_of, spec_at_scan, spec_hold_back};
use crate::predicate_pushdown::model::{spec_no_pushdown_restart_opt};
use crate::predicate_pushdown::model::{spec_optional_apply_predicate, spec_push_down};
use crate::predicate_pushdown::model::{spec_push_inputs, spec_pushdown_and_continue};
use crate::predicate_pushdown::model::{spec_rewrite_projection_node, spec_valid_exprs};
use crate::predicate_pushdown::model::Entries;
use crate::predicate_pushdown::rename::{spec_process_rename, spec_rename_map};
use crate::predicate_pushdown::utils::{entry_nodes, spec_combine_predicates};
use crate::predicate_pushdown::utils::{spec_insert_and_combine, spec_output_name};
use crate::predicate_pushdown::utils::{spec_output_names, spec_predicate_at_scan};
use crate::predicate_pushdown::utils::{spec_rewrite_predicates, RewriteRuleView};

verus! {

/// Combining predicates only adds expressions.
pub proof fn lemma_combine_extends(preds: Seq<Node>, es: Seq<AExprView>)
    ensures
        extends(es, spec_combine_predicates(preds, es).1),
    decreases preds.len(),
{
    if preds.len() > 1 {
        lemma_combine_extends(preds.drop_last(), es);
    }
}

/// Substituting columns only adds expressions.
pub proof fn lemma_substitute_extends(es: Seq<AExprView>, h: int, map: Seq<(Seq<char>, Node)>)
    ensures
        extends(es, spec_substitute(es, h, map).1),
    decreases h, 1int, 0int,
{
    if 0 <= h < es.len() {
        match es[h] {
            AExprView::Column(_) => {},
            e => {
                lemma_substitute_all_extends(es, e.nodes(), h, map);
            },
        }
    }
}

/// Substituting columns only adds expressions.
pub proof fn lemma_substitute_all_extends(
    es: Seq<AExprView>,
    kids: Seq<Node>,
    parent: int,
    map: Seq<(Seq<char>, Node)>,
)
    ensures
        extends(es, spec_substitute_all(es, kids, parent, map).1),
    decreases parent, 0int, kids.len(),
{
    if kids.len() > 0 {
        lemma_substitute_all_extends(es, kids.drop_last(), parent, map);
        let es1 = spec_substitute_all(es, kids.drop_last(), parent, map).1;
        if kids.last().0 < parent {
            lemma_substitute_extends(es1, kids.last().0 as int, map);
        }
    }
}

/// Rewriting an accumulator only adds expressions.
pub proof fn lemma_rewrite_extends(
    acc: Entries,
    es: Seq<AExprView>,
    map: Seq<(Seq<char>, Node)>,
    rule: RewriteRuleView,
)
    ensures
        extends(es, spec_rewrite_predicates(acc, es, map, rule).2),
    decreases acc.len(),
{
    if acc.len() > 0 {
        lemma_rewrite_extends(acc.drop_last(), es, map, rule);
        let es1 = spec_rewrite_predicates(acc.drop_last(), es, map, rule).2;
        lemma_substitute_extends(es1, acc.last().1.0 as int, map);
    }
}

/// The columns for a rename only add expressions.
pub proof fn lemma_rename_map_extends(
    es: Seq<AExprView>,
    existing: Seq<Seq<char>>,
    new: Seq<Seq<char>>,
    k: nat,
)
    ensures
        extends(es, spec_rename_map(es, existing, new, k).1),
    decreases k,
{
    if k > 0 {
        lemma_rename_map_extends(es, existing, new, (k - 1) as nat);
    }
}

/// A rename only adds expressions.
pub proof fn lemma_process_rename_extends(
    acc: Entries,
    es: Seq<AExprView>,
    existing: Seq<Seq<char>>,
    new: Seq<Seq<char>>,
    input_schema: Seq<Seq<char>>,
)
    ensures
        extends(es, spec_process_rename(acc, es, existing, new, input_schema).2),
{
    if acc.len() > 0 {
        let k = crate::predicate_pushdown::rename::pair_count(existing, new);
        lemma_rename_map_extends(es, existing, new, k);
        let (map, es1) = spec_rename_map(es, existing, new, k);
        lemma_rewrite_extends(
            acc,
            es1,
            map,
            crate::predicate_pushdown::rename::rename_rule(input_schema),
        );
    }
}

/// The columns that an expression reads do not change when expressions
/// are added to the arena.
pub proof fn lemma_leaf_names_stable(es: Seq<AExprView>, es2: Seq<AExprView>, h: int)
    requires
        extends(es, es2),
        0 <= h < es.len(),
    ensures
        spec_leaf_names(es2, h) == spec_leaf_names(es, h),
    decreases h, 1int, 0int,
{
    match es[h] {
        AExprView::Column(_) => {},
        e => {
            lemma_leaf_names_of_stable(es, es2, e.nodes(), h);
        },
    }
}

/// The columns that expressions read do not change when expressions are
/// added to the arena.
pub proof fn lemma_leaf_names_of_stable(
    es: Seq<AExprView>,
    es2: Seq<AExprView>,
    kids: Seq<Node>,
    parent: int,
)
    requires
        extends(es, es2),
        0 <= parent <= es.len(),
    ensures
        spec_leaf_names_of(es2, kids, parent) == spec_leaf_names_of(es, kids, parent),
    decreases parent, 0int, kids.len(),
{
    if kids.len() > 0 {
        lemma_leaf_names_of_stable(es, es2, kids.drop_last(), parent);
        if kids.last().0 < parent {
            lemma_leaf_names_stable(es, es2, kids.last().0 as int);
        }
    }
}

/// The name that an expression produces does not change when
/// expressions are added to the arena.
pub proof fn lemma_output_name_stable(es: Seq<AExprView>, es2: Seq<AExprView>, h: int)
    requires
        extends(es, es2),
        0 <= h < es.len(),
    ensures
        spec_output_name(es2, h) == spec_output_name(es, h),
    decreases h,
{
    match es[h] {
        AExprView::Column(_) | AExprView::Alias(_, _) | AExprView::Literal(_) | AExprView::Count => {},
        e => {
            if e.nodes().len() > 0 && e.nodes()[0].0 < h {
                lemma_output_name_stable(es, es2, e.nodes()[0].0 as int);
            }
        },
    }
}

/// Putting a filter above a plan does not change its columns, and only
/// adds expressions.
pub proof fn lemma_apply_schema(t: PlanTree, local: Seq<Node>, es: Seq<AExprView>)
    ensures
        tree_schema(spec_optional_apply_predicate(t, local, es).0) == tree_schema(t),
        extends(es, spec_optional_apply_predicate(t, local, es).1),
{
    lemma_combine_extends(local, es);
    if local.len() > 0 {
        let wrapped = spec_optional_apply_predicate(t, local, es).0;
        assert(wrapped.children[0] == t);
    }
}

/// Whether every node of the plan has as many inputs as its kind asks
/// for.
pub open spec fn tree_shaped(t: PlanTree) -> bool
    decreases t,
{
    &&& t.children.len() == t.node.inputs().len()
    &&& forall|k: int| 0 <= k < t.children.len() ==> tree_shaped(#[trigger] t.children[k])
}

/// Whether every local projection of the plan holds the columns that
/// its expressions produce, and every one of its expressions reads only
/// columns of its input.
pub open spec fn local_projections_consistent(t: PlanTree, es: Seq<AExprView>) -> bool
    decreases t,
{
    &&& (t.node matches PlanView::LocalProjection { expr, schema, .. } ==> {
        &&& schema == spec_output_names(es, expr)
        &&& t.children.len() > 0
        &&& forall|i: int|
            0 <= i < expr.len() ==> (#[trigger] expr[i]).0 < es.len() && spec_check_input_node(
                es,
                expr[i].0 as int,
                tree_schema(t.children[0]),
            )
    })
    &&& forall|k: int|
        0 <= k < t.children.len() ==> local_projections_consistent(#[trigger] t.children[k], es)
}

/// A plan that is consistent stays so when expressions are added.
pub proof fn lemma_consistent_stable(t: PlanTree, es: Seq<AExprView>, es2: Seq<AExprView>)
    requires
        local_projections_consistent(t, es),
        extends(es, es2),
    ensures
        local_projections_consistent(t, es2),
    decreases t,
{
    assert forall|k: int| 0 <= k < t.children.len() implies local_projections_consistent(
        #[trigger] t.children[k],
        es2,
    ) by {
        lemma_consistent_stable(t.children[k], es, es2);
    }
    match t.node {
        PlanView::LocalProjection { expr, schema, .. } => {
            assert forall|i: int| 0 <= i < expr.len() implies (#[trigger] expr[i]).0 < es2.len()
                && spec_check_input_node(es2, expr[i].0 as int, tree_schema(t.children[0])) by {
                lemma_leaf_names_stable(es, es2, expr[i].0 as int);
            }
            assert(spec_output_names(es2, expr) =~= spec_output_names(es, expr)) by {
                assert forall|i: int| 0 <= i < expr.len() implies spec_output_names(es2, expr)[i]
                    == spec_output_names(es, expr)[i] by {
                    assert(expr[i].0 < es.len());
                    lemma_output_name_stable(es, es2, expr[i].0 as int);
                }
            }
        },
        _ => {},
    }
}

/// Where all expressions read only columns of `schema`, all are kept.
pub proof fn lemma_all_valid(es: Seq<AExprView>, exprs: Seq<Node>, schema: Seq<Seq<char>>)
    requires
        forall|i: int|
            0 <= i < exprs.len() ==> spec_check_input_node(es, (#[trigger] exprs[i]).0 as int, schema),
    ensures
        spec_valid_exprs(es, exprs, schema) == exprs,
    decreases exprs.len(),
{
    if exprs.len() > 0 {
        lemma_all_valid(es, exprs.drop_last(), schema);
        assert(exprs.drop_last().push(exprs.last()) =~= exprs);
    } else {
        assert(exprs =~= Seq::<Node>::empty());
    }
}


/// Draining an accumulator onto a scan only adds expressions.
pub proof fn lemma_predicate_at_scan_extends(acc: Entries, existing: Option<Node>, es: Seq<AExprView>)
    ensures
        extends(es, spec_predicate_at_scan(acc, existing, es).1),
{
    if acc.len() > 0 {
        lemma_combine_extends(entry_nodes(acc), es);
    }
}

/// A node above plans with the columns of its inputs has the columns
/// that it had.
pub proof fn lemma_same_node_schema(t: PlanTree, kids: Seq<PlanTree>)
    requires
        kids.len() == t.children.len(),
        kids.len() > 0 ==> tree_schema(kids[0]) == tree_schema(t.children[0]),
    ensures
        tree_schema(PlanTree { node: t.node, children: kids }) == tree_schema(t),
{
}

/// A scan has the same columns after it has taken predicates.
pub proof fn lemma_at_scan_schema(node: PlanView, existing: Option<Node>, acc: Entries, es: Seq<AExprView>)
    requires
        node is Scan || node is AnonymousScan,
    ensures
        tree_schema(spec_at_scan(node, existing, acc, es).0) == tree_schema(leaf(node)),
        extends(es, spec_at_scan(node, existing, acc, es).1),
{
    let c = crate::predicate_pushdown::utils::CriterionView::Test(ExprTest::FullContext);
    let staying = crate::predicate_pushdown::utils::spec_staying(es, c, acc);
    let leaving = crate::predicate_pushdown::utils::spec_leaving(es, c, acc);
    let (pred, es1) = spec_predicate_at_scan(staying, existing, es);
    lemma_predicate_at_scan_extends(staying, existing, es);
    let scan = match (pred, node) {
        (Some(p), PlanView::Scan { scan_type: FileScan::Csv, .. }) => PlanTree {
            node: selection_of(p),
            children: seq![leaf(node.with_exprs(seq![]))],
        },
        _ => leaf(node.with_exprs(crate::alp::opt_seq(pred))),
    };
    assert(tree_schema(scan) == tree_schema(leaf(node))) by {
        assert(tree_schema(leaf(node.with_exprs(seq![]))) == tree_schema(leaf(node)));
        assert(tree_schema(leaf(node.with_exprs(crate::alp::opt_seq(pred)))) == tree_schema(
            leaf(node),
        ));
        match (pred, node) {
            (Some(p), PlanView::Scan { scan_type: FileScan::Csv, .. }) => {
                assert(scan.children[0] == leaf(node.with_exprs(seq![])));
            },
            _ => {},
        }
    }
    lemma_apply_schema(scan, entry_nodes(leaving), es1);
}

/// Schema preservation, for a list of plans.
pub proof fn lemma_push_inputs_schema(
    children: Seq<PlanTree>,
    accs: Seq<Option<Entries>>,
    es: Seq<AExprView>,
)
    requires
        forall|k: int|
            0 <= k < children.len() ==> tree_shaped(#[trigger] children[k])
                && local_projections_consistent(children[k], es),
    ensures
        spec_push_inputs(children, accs, es).0.len() == children.len(),
        forall|k: int|
            0 <= k < children.len() ==> tree_schema(
                #[trigger] spec_push_inputs(children, accs, es).0[k],
            ) == tree_schema(children[k]),
        extends(es, spec_push_inputs(children, accs, es).1),
    decreases children, 0nat,
{
    if children.len() > 0 {
        let init = children.drop_last();
        assert forall|k: int| 0 <= k < init.len() implies tree_shaped(#[trigger] init[k])
            && local_projections_consistent(init[k], es) by {
            assert(init[k] == children[k]);
        }
        lemma_push_inputs_schema(init, accs, es);
        let (done, es1) = spec_push_inputs(init, accs, es);
        let last = children.last();
        assert(last == children[children.len() - 1]);
        match accs[children.len() - 1] {
            Some(acc) => {
                lemma_consistent_stable(last, es, es1);
                lemma_push_down_schema(last, acc, es1);
            },
            None => {},
        }
        let out = spec_push_inputs(children, accs, es).0;
        assert forall|k: int| 0 <= k < children.len() implies tree_schema(#[trigger] out[k])
            == tree_schema(children[k]) by {
            if k < init.len() {
                assert(out[k] == done[k]);
                assert(init[k] == children[k]);
            }
        }
    }
}

/// Schema preservation, for a node that lets no predicate pass.
pub proof fn lemma_no_pushdown_schema(t: PlanTree, acc: Entries, es: Seq<AExprView>)
    requires
        tree_shaped(t),
        local_projections_consistent(t, es),
    ensures
        tree_schema(spec_no_pushdown_restart_opt(t, acc, es).0) == tree_schema(t),
        extends(es, spec_no_pushdown_restart_opt(t, acc, es).1),
    decreases t, 1nat,
{
    let accs = Seq::new(t.children.len(), |i: int| Some(Seq::<(Seq<char>, Node)>::empty()));
    lemma_push_inputs_schema(t.children, accs, es);
    let (kids, es1) = spec_push_inputs(t.children, accs, es);
    lemma_same_node_schema(t, kids);
    lemma_apply_schema(PlanTree { node: t.node, children: kids }, entry_nodes(acc), es1);
}

/// Schema preservation, for a node that lets predicates pass.
pub proof fn lemma_continue_schema(
    t: PlanTree,
    acc: Entries,
    es: Seq<AExprView>,
    has_projections: bool,
)
    requires
        tree_shaped(t),
        local_projections_consistent(t, es),
    ensures
        tree_schema(spec_pushdown_and_continue(t, acc, es, has_projections).0) == tree_schema(t),
        extends(es, spec_pushdown_and_continue(t, acc, es, has_projections).1),
    decreases t, 2nat,
{
    if has_projections {
        if crate::predicate_pushdown::utils::spec_any_has(
            es,
            t.node.exprs(),
            ExprTest::ProjectionBoundary,
        ) {
            lemma_no_pushdown_schema(t, acc, es);
        } else {
            let n = t.children.len();
            let (acc1, local, es1) = spec_rewrite_projection_node(
                t.node,
                acc,
                es,
                tree_schema(t.children.last()),
            );
            lemma_rewrite_extends(
                acc,
                es,
                crate::predicate_pushdown::utils::spec_projection_map(es, t.node.exprs()),
                crate::predicate_pushdown::model::projection_rule(
                    t.node,
                    es,
                    tree_schema(t.children.last()),
                ),
            );
            let accs = Seq::new(
                n,
                |i: int|
                    if i == n - 1 {
                        Some(acc1)
                    } else {
                        None
                    },
            );
            assert forall|k: int| 0 <= k < t.children.len() implies tree_shaped(
                #[trigger] t.children[k],
            ) && local_projections_consistent(t.children[k], es1) by {
                lemma_consistent_stable(t.children[k], es, es1);
            }
            lemma_push_inputs_schema(t.children, accs, es1);
            let (kids, es2) = spec_push_inputs(t.children, accs, es1);
            lemma_same_node_schema(t, kids);
            lemma_apply_schema(PlanTree { node: t.node, children: kids }, local, es2);
        }
    } else {
        let accs = crate::predicate_pushdown::model::spec_schema_accs(t.children, acc, es);
        lemma_push_inputs_schema(t.children, accs, es);
        let (kids, es1) = spec_push_inputs(t.children, accs, es);
        lemma_same_node_schema(t, kids);
        lemma_apply_schema(
            PlanTree { node: t.node, children: kids },
            crate::predicate_pushdown::model::spec_schema_local(t.children, acc, es),
            es1,
        );
    }
}

/// Schema preservation, for a node that holds some predicates back.
pub proof fn lemma_hold_back_schema(
    t: PlanTree,
    acc: Entries,
    es: Seq<AExprView>,
    c: crate::predicate_pushdown::utils::CriterionView,
)
    requires
        tree_shaped(t),
        local_projections_consistent(t, es),
    ensures
        tree_schema(spec_hold_back(t, acc, es, c).0) == tree_schema(t),
        extends(es, spec_hold_back(t, acc, es, c).1),
    decreases t, 3nat,
{
    let staying = crate::predicate_pushdown::utils::spec_staying(es, c, acc);
    let leaving = crate::predicate_pushdown::utils::spec_leaving(es, c, acc);
    lemma_continue_schema(t, staying, es, false);
    let (t1, es1) = spec_pushdown_and_continue(t, staying, es, false);
    lemma_apply_schema(t1, entry_nodes(leaving), es1);
}

/// Schema preservation: the plan after the pass produces the columns
/// that the plan before it produced. The pass only adds expressions.
///
/// It holds of every plan in which each local projection holds the
/// columns that its expressions produce and reads only columns of its
/// input: the pass computes the columns of a local projection anew, so
/// that a local projection which held other columns than its
/// expressions produce has other columns after the pass.
pub proof fn lemma_push_down_schema(t: PlanTree, acc: Entries, es: Seq<AExprView>)
    requires
        tree_shaped(t),
        local_projections_consistent(t, es),
    ensures
        tree_schema(spec_push_down(t, acc, es).0) == tree_schema(t),
        extends(es, spec_push_down(t, acc, es).1),
    decreases t, 4nat,
{
    match t.node {
        PlanView::Selection { predicate, .. } => {
            let c = crate::predicate_pushdown::utils::CriterionView::Test(
                ExprTest::PushdownBoundary,
            );
            let staying = crate::predicate_pushdown::utils::spec_staying(es, c, acc);
            let leaving = crate::predicate_pushdown::utils::spec_leaving(es, c, acc);
            let (acc1, es1) = spec_insert_and_combine(staying, predicate, es);
            assert(extends(es, es1));
            assert forall|k: int| 0 <= k < t.children.len() implies tree_shaped(
                #[trigger] t.children[k],
            ) && local_projections_consistent(t.children[k], es1) by {
                lemma_consistent_stable(t.children[k], es, es1);
            }
            lemma_push_inputs_schema(t.children, seq![Some(acc1)], es1);
            let (kids, es2) = spec_push_inputs(t.children, seq![Some(acc1)], es1);
            lemma_apply_schema(kids[0], entry_nodes(leaving), es2);
        },
        PlanView::DataFrameScan { selection, .. } => {
            lemma_predicate_at_scan_extends(acc, selection, es);
        },
        PlanView::Scan { predicate, .. } => {
            lemma_at_scan_schema(t.node, predicate, acc, es);
        },
        PlanView::AnonymousScan { allows_predicate_pushdown, predicate, .. } => {
            if allows_predicate_pushdown {
                lemma_at_scan_schema(t.node, predicate, acc, es);
            } else {
                lemma_no_pushdown_schema(t, acc, es);
            }
        },
        PlanView::PythonScan { pyarrow, predicate, .. } => {
            if pyarrow {
                lemma_predicate_at_scan_extends(acc, predicate, es);
                let (pred, es1) = spec_predicate_at_scan(acc, predicate, es);
                match pred {
                    Some(p) => {
                        lemma_apply_schema(leaf(t.node.with_exprs(seq![])), seq![p], es1);
                    },
                    None => {},
                }
            } else {
                lemma_no_pushdown_schema(t, acc, es);
            }
        },
        PlanView::LocalProjection { expr, schema, .. } => {
            lemma_push_inputs_schema(t.children, seq![Some(acc)], es);
            let (kids, es1) = spec_push_inputs(t.children, seq![Some(acc)], es);
            lemma_consistent_stable(t, es, es1);
            lemma_all_valid(es1, expr, tree_schema(kids[0]));
        },
        PlanView::Distinct { keep_strategy, .. } => {
            if keep_strategy is Any || keep_strategy is Neither {
                let c1 = crate::predicate_pushdown::utils::CriterionView::MultiRoot;
                let c2 = crate::predicate_pushdown::utils::CriterionView::Test(
                    ExprTest::PushdownBoundary,
                );
                let acc1 = crate::predicate_pushdown::utils::spec_staying(es, c1, acc);
                let local = entry_nodes(crate::predicate_pushdown::utils::spec_leaving(es, c1, acc))
                    + entry_nodes(crate::predicate_pushdown::utils::spec_leaving(es, c2, acc1));
                let accs = seq![Some(crate::predicate_pushdown::utils::spec_staying(es, c2, acc1))];
                lemma_push_inputs_schema(t.children, accs, es);
                let (kids, es1) = spec_push_inputs(t.children, accs, es);
                lemma_same_node_schema(t, kids);
                lemma_apply_schema(PlanTree { node: t.node, children: kids }, local, es1);
            } else {
                lemma_no_pushdown_schema(t, acc, es);
            }
        },
        PlanView::Join { left_on, right_on, how, .. } => {
            let sl = tree_schema(t.children[0]);
            let sr = tree_schema(t.children[1]);
            let (left, right, local) = spec_join_partition(
                acc,
                es,
                how,
                sl,
                sr,
                left_on,
                right_on,
            );
            let es1 = es;
            assert forall|k: int| 0 <= k < t.children.len() implies tree_shaped(
                #[trigger] t.children[k],
            ) && local_projections_consistent(t.children[k], es1) by {
                lemma_consistent_stable(t.children[k], es, es1);
            }
            let accs = seq![Some(left), Some(right)];
            lemma_push_inputs_schema(t.children, accs, es1);
            let (kids, es2) = spec_push_inputs(t.children, accs, es1);
            lemma_same_node_schema(t, kids);
            lemma_apply_schema(PlanTree { node: t.node, children: kids }, local, es2);
        },
        PlanView::MapFunction { function, .. } => {
            if !function.allow_predicate_pd() {
                lemma_no_pushdown_schema(t, acc, es);
            } else {
                match function {
                    FunctionNodeView::Rename { existing, new } => {
                        let input_schema = tree_schema(t.children[0]);
                        lemma_process_rename_extends(acc, es, existing, new, input_schema);
                        let (acc1, local, es1) = spec_process_rename(
                            acc,
                            es,
                            existing,
                            new,
                            input_schema,
                        );
                        lemma_consistent_stable(t, es, es1);
                        lemma_continue_schema(t, acc1, es1, false);
                        let (t1, es2) = spec_pushdown_and_continue(t, acc1, es1, false);
                        lemma_apply_schema(t1, local, es2);
                    },
                    FunctionNodeView::Explode { columns } => {
                        if crate::predicate_pushdown::utils::spec_any_has(
                            es,
                            entry_nodes(acc),
                            ExprTest::PushdownBoundary,
                        ) {
                            lemma_continue_schema(t, seq![], es, false);
                            let (t1, es1) = spec_pushdown_and_continue(t, seq![], es, false);
                            lemma_apply_schema(t1, entry_nodes(acc), es1);
                        } else {
                            lemma_hold_back_schema(
                                t,
                                acc,
                                es,
                                crate::predicate_pushdown::utils::CriterionView::Names(columns),
                            );
                        }
                    },
                    FunctionNodeView::Melt { value_vars, variable_name, value_name, .. } => {
                        lemma_hold_back_schema(
                            t,
                            acc,
                            es,
                            crate::predicate_pushdown::utils::CriterionView::Names(
                                crate::predicate_pushdown::model::melt_names(
                                    value_vars,
                                    variable_name,
                                    value_name,
                                ),
                            ),
                        );
                    },
                    FunctionNodeView::Opaque { .. } => {
                        lemma_continue_schema(t, acc, es, false);
                    },
                }
            }
        },
        PlanView::Union { .. } => {
            lemma_hold_back_schema(
                t,
                acc,
                es,
                crate::predicate_pushdown::utils::CriterionView::Test(ExprTest::Count),
            );
        },
        PlanView::Sort { .. } => {
            lemma_hold_back_schema(
                t,
                acc,
                es,
                crate::predicate_pushdown::utils::CriterionView::Test(ExprTest::SortBoundary),
            );
        },
        PlanView::FileSink { .. } | PlanView::CloudSink { .. } => {
            lemma_continue_schema(t, acc, es, false);
        },
        PlanView::HStack { .. } | PlanView::Projection { .. } | PlanView::ExtContext { .. } => {
            lemma_continue_schema(t, acc, es, true);
        },
        PlanView::Slice { .. } | PlanView::Cache { .. } | PlanView::Aggregate { .. } => {
            lemma_no_pushdown_schema(t, acc, es);
        },
    }
}


/// The pass only adds expressions.
pub proof fn lemma_push_down_extends(t: PlanTree, acc: Entries, es: Seq<AExprView>)
    ensures
        extends(es, spec_push_down(t, acc, es).1),
    decreases t, 4nat,
{
    match t.node {
        PlanView::Selection { predicate, .. } => {
            let c = crate::predicate_pushdown::utils::CriterionView::Test(
                ExprTest::PushdownBoundary,
            );
            let staying = crate::predicate_pushdown::utils::spec_staying(es, c, acc);
            let leaving = crate::predicate_pushdown::utils::spec_leaving(es, c, acc);
            let (acc1, es1) = spec_insert_and_combine(staying, predicate, es);
            assert(extends(es, es1));
            lemma_push_inputs_extends(t.children, seq![Some(acc1)], es1);
            let (kids, es2) = spec_push_inputs(t.children, seq![Some(acc1)], es1);
            lemma_combine_extends(entry_nodes(leaving), es2);
        },
        PlanView::DataFrameScan { selection, .. } => {
            lemma_predicate_at_scan_extends(acc, selection, es);
        },
        PlanView::Scan { predicate, .. } => {
            lemma_at_scan_extends(t.node, predicate, acc, es);
        },
        PlanView::AnonymousScan { allows_predicate_pushdown, predicate, .. } => {
            if allows_predicate_pushdown {
                lemma_at_scan_extends(t.node, predicate, acc, es);
            } else {
                lemma_no_pushdown_extends(t, acc, es);
            }
        },
        PlanView::PythonScan { pyarrow, predicate, .. } => {
            if pyarrow {
                lemma_predicate_at_scan_extends(acc, predicate, es);
                let (pred, es1) = spec_predicate_at_scan(acc, predicate, es);
                match pred {
                    Some(p) => {
                        lemma_combine_extends(seq![p], es1);
                    },
                    None => {},
                }
            } else {
                lemma_no_pushdown_extends(t, acc, es);
            }
        },
        PlanView::LocalProjection { .. } => {
            lemma_push_inputs_extends(t.children, seq![Some(acc)], es);
        },
        PlanView::Distinct { keep_strategy, .. } => {
            if keep_strategy is Any || keep_strategy is Neither {
                let c1 = crate::predicate_pushdown::utils::CriterionView::MultiRoot;
                let c2 = crate::predicate_pushdown::utils::CriterionView::Test(
                    ExprTest::PushdownBoundary,
                );
                let acc1 = crate::predicate_pushdown::utils::spec_staying(es, c1, acc);
                let local = entry_nodes(crate::predicate_pushdown::utils::spec_leaving(es, c1, acc))
                    + entry_nodes(crate::predicate_pushdown::utils::spec_leaving(es, c2, acc1));
                let accs = seq![Some(crate::predicate_pushdown::utils::spec_staying(es, c2, acc1))];
                lemma_push_inputs_extends(t.children, accs, es);
                let (kids, es1) = spec_push_inputs(t.children, accs, es);
                lemma_combine_extends(local, es1);
            } else {
                lemma_no_pushdown_extends(t, acc, es);
            }
        },
        PlanView::Join { left_on, right_on, how, .. } => {
            let sl = tree_schema(t.children[0]);
            let sr = tree_schema(t.children[1]);
            let (left, right, local) = spec_join_partition(
                acc,
                es,
                how,
                sl,
                sr,
                left_on,
                right_on,
            );
            let es1 = es;
            let accs = seq![Some(left), Some(right)];
            lemma_push_inputs_extends(t.children, accs, es1);
            let (kids, es2) = spec_push_inputs(t.children, accs, es1);
            lemma_combine_extends(local, es2);
        },
        PlanView::MapFunction { function, .. } => {
            if !function.allow_predicate_pd() {
                lemma_no_pushdown_extends(t, acc, es);
            } else {
                match function {
                    FunctionNodeView::Rename { existing, new } => {
                        let input_schema = tree_schema(t.children[0]);
                        lemma_process_rename_extends(acc, es, existing, new, input_schema);
                        let (acc1, local, es1) = spec_process_rename(
                            acc,
                            es,
                            existing,
                            new,
                            input_schema,
                        );
                        lemma_continue_extends(t, acc1, es1, false);
                        let (t1, es2) = spec_pushdown_and_continue(t, acc1, es1, false);
                        lemma_combine_extends(local, es2);
                    },
                    FunctionNodeView::Explode { columns } => {
                        if crate::predicate_pushdown::utils::spec_any_has(
                            es,
                            entry_nodes(acc),
                            ExprTest::PushdownBoundary,
                        ) {
                            lemma_continue_extends(t, seq![], es, false);
                            let (t1, es1) = spec_pushdown_and_continue(t, seq![], es, false);
                            lemma_combine_extends(entry_nodes(acc), es1);
                        } else {
                            lemma_hold_back_extends(
                                t,
                                acc,
                                es,
                                crate::predicate_pushdown::utils::CriterionView::Names(columns),
                            );
                        }
                    },
                    FunctionNodeView::Melt { value_vars, variable_name, value_name, .. } => {
                        lemma_hold_back_extends(
                            t,
                            acc,
                            es,
                            crate::predicate_pushdown::utils::CriterionView::Names(
                                crate::predicate_pushdown::model::melt_names(
                                    value_vars,
                                    variable_name,
                                    value_name,
                                ),
                            ),
                        );
                    },
                    FunctionNodeView::Opaque { .. } => {
                        lemma_continue_extends(t, acc, es, false);
                    },
                }
            }
        },
        PlanView::Union { .. } => {
            lemma_hold_back_extends(
                t,
                acc,
                es,
                crate::predicate_pushdown::utils::CriterionView::Test(ExprTest::Count),
            );
        },
        PlanView::Sort { .. } => {
            lemma_hold_back_extends(
                t,
                acc,
                es,
                crate::predicate_pushdown::utils::CriterionView::Test(ExprTest::SortBoundary),
            );
        },
        PlanView::FileSink { .. } | PlanView::CloudSink { .. } => {
            lemma_continue_extends(t, acc, es, false);
        },
        PlanView::HStack { .. } | PlanView::Projection { .. } | PlanView::ExtContext { .. } => {
            lemma_continue_extends(t, acc, es, true);
        },
        PlanView::Slice { .. } | PlanView::Cache { .. } | PlanView::Aggregate { .. } => {
            lemma_no_pushdown_extends(t, acc, es);
        },
    }
}

/// The pass on a list of plans only adds expressions.
pub proof fn lemma_push_inputs_extends(
    children: Seq<PlanTree>,
    accs: Seq<Option<Entries>>,
    es: Seq<AExprView>,
)
    ensures
        extends(es, spec_push_inputs(children, accs, es).1),
    decreases children, 0nat,
{
    if children.len() > 0 {
        lemma_push_inputs_extends(children.drop_last(), accs, es);
        let (done, es1) = spec_push_inputs(children.drop_last(), accs, es);
        match accs[children.len() - 1] {
            Some(acc) => {
                lemma_push_down_extends(children.last(), acc, es1);
            },
            None => {},
        }
    }
}

/// A node that lets no predicate pass only adds expressions.
pub proof fn lemma_no_pushdown_extends(t: PlanTree, acc: Entries, es: Seq<AExprView>)
    ensures
        extends(es, spec_no_pushdown_restart_opt(t, acc, es).1),
    decreases t, 1nat,
{
    let accs = Seq::new(t.children.len(), |i: int| Some(Seq::<(Seq<char>, Node)>::empty()));
    lemma_push_inputs_extends(t.children, accs, es);
    let (kids, es1) = spec_push_inputs(t.children, accs, es);
    lemma_combine_extends(entry_nodes(acc), es1);
}

/// A node that lets predicates pass only adds expressions.
pub proof fn lemma_continue_extends(
    t: PlanTree,
    acc: Entries,
    es: Seq<AExprView>,
    has_projections: bool,
)
    ensures
        extends(es, spec_pushdown_and_continue(t, acc, es, has_projections).1),
    decreases t, 2nat,
{
    if has_projections {
        if crate::predicate_pushdown::utils::spec_any_has(
            es,
            t.node.exprs(),
            ExprTest::ProjectionBoundary,
        ) {
            lemma_no_pushdown_extends(t, acc, es);
        } else {
            let n = t.children.len();
            let (acc1, local, es1) = spec_rewrite_projection_node(
                t.node,
                acc,
                es,
                tree_schema(t.children.last()),
            );
            lemma_rewrite_extends(
                acc,
                es,
                crate::predicate_pushdown::utils::spec_projection_map(es, t.node.exprs()),
                crate::predicate_pushdown::model::projection_rule(
                    t.node,
                    es,
                    tree_schema(t.children.last()),
                ),
            );
            let accs = Seq::new(
                n,
                |i: int|
                    if i == n - 1 {
                        Some(acc1)
                    } else {
                        None
                    },
            );
            lemma_push_inputs_extends(t.children, accs, es1);
            let (kids, es2) = spec_push_inputs(t.children, accs, es1);
            lemma_combine_extends(local, es2);
        }
    } else {
        let accs = crate::predicate_pushdown::model::spec_schema_accs(t.children, acc, es);
        lemma_push_inputs_extends(t.children, accs, es);
        let (kids, es1) = spec_push_inputs(t.children, accs, es);
        lemma_combine_extends(
            crate::predicate_pushdown::model::spec_schema_local(t.children, acc, es),
            es1,
        );
    }
}

/// A node that holds some predicates back only adds expressions.
pub proof fn lemma_hold_back_extends(
    t: PlanTree,
    acc: Entries,
    es: Seq<AExprView>,
    c: crate::predicate_pushdown::utils::CriterionView,
)
    ensures
        extends(es, spec_hold_back(t, acc, es, c).1),
    decreases t, 3nat,
{
    let staying = crate::predicate_pushdown::utils::spec_staying(es, c, acc);
    let leaving = crate::predicate_pushdown::utils::spec_leaving(es, c, acc);
    lemma_continue_extends(t, staying, es, false);
    let (t1, es1) = spec_pushdown_and_continue(t, staying, es, false);
    lemma_combine_extends(entry_nodes(leaving), es1);
}

/// A scan that takes predicates only adds expressions.
pub proof fn lemma_at_scan_extends(
    node: PlanView,
    existing: Option<Node>,
    acc: Entries,
    es: Seq<AExprView>,
)
    ensures
        extends(es, spec_at_scan(node, existing, acc, es).1),
{
    let c = crate::predicate_pushdown::utils::CriterionView::Test(ExprTest::FullContext);
    let staying = crate::predicate_pushdown::utils::spec_staying(es, c, acc);
    let leaving = crate::predicate_pushdown::utils::spec_leaving(es, c, acc);
    lemma_predicate_at_scan_extends(staying, existing, es);
    let (pred, es1) = spec_predicate_at_scan(staying, existing, es);
    lemma_combine_extends(entry_nodes(leaving), es1);
}


/// A plan in an arena has, at every node, as many inputs as the kind of
/// the node asks for.
pub proof fn lemma_unfold_at_shaped(s: Slots, h: Node, fuel: nat)
    requires
        unfold_at(s, h, fuel) is Some,
    ensures
        tree_shaped(unfold_at(s, h, fuel).unwrap().0),
    decreases fuel, 0nat,
{
    let lp = s[h.0 as int].unwrap()@;
    let s1 = s.update(h.0 as int, None);
    lemma_unfold_inputs_shaped(s1, lp.inputs(), (fuel - 1) as nat);
    lemma_with_inputs(lp, Seq::new(lp.inputs().len(), |i: int| Node(0)));
}

/// Plans in an arena have, at every node, as many inputs as the kind
/// of the node asks for.
pub proof fn lemma_unfold_inputs_shaped(s: Slots, inputs: Seq<Node>, fuel: nat)
    requires
        unfold_inputs(s, inputs, fuel) is Some,
    ensures
        unfold_inputs(s, inputs, fuel).unwrap().0.len() == inputs.len(),
        forall|k: int|
            0 <= k < inputs.len() ==> tree_shaped(
                #[trigger] unfold_inputs(s, inputs, fuel).unwrap().0[k],
            ),
    decreases fuel, inputs.len() + 1,
{
    if inputs.len() > 0 {
        lemma_unfold_inputs_shaped(s, inputs.drop_last(), fuel);
        let (trees, s1) = unfold_inputs(s, inputs.drop_last(), fuel).unwrap();
        lemma_unfold_at_shaped(s1, inputs.last(), fuel);
        let all = unfold_inputs(s, inputs, fuel).unwrap().0;
        assert forall|k: int| 0 <= k < inputs.len() implies tree_shaped(#[trigger] all[k]) by {
            if k < trees.len() {
                assert(all[k] == trees[k]);
            }
        }
    }
}

/// The plan of a root in an arena is shaped as its nodes ask for.
pub proof fn lemma_plan_shaped(s: Slots, lp: PlanView, n: int)
    requires
        is_plan(s, lp, n),
    ensures
        tree_shaped(plan_of(s, lp)),
        crate::predicate_pushdown::refine::tree_exprs_below(plan_of(s, lp), n),
{
    let fuel = choose|fuel: nat|
        crate::predicate_pushdown::refine::is_node_tree(s, lp, s.len() as int, fuel, n);
    lemma_plan_of(s, lp, fuel);
    lemma_unfold_inputs_shaped(s.take(s.len() as int), lp.inputs(), fuel);
    lemma_with_inputs(lp, Seq::new(lp.inputs().len(), |i: int| Node(0)));
    let t = plan_of(s, lp);
    assert forall|k: int| 0 <= k < t.children.len() implies tree_shaped(#[trigger] t.children[k]) by {
    }
}

/// Schema preservation for a plan in an arena: the plan that the pass
/// leaves produces the columns that the plan in the arena produced.
pub proof fn lemma_optimize_keeps_schema(s: Slots, lp: PlanView, es: Seq<AExprView>)
    requires
        is_plan(s, lp, es.len() as int),
        local_projections_consistent(plan_of(s, lp), es),
    ensures
        tree_schema(spec_push_down(plan_of(s, lp), seq![], es).0) == tree_schema(plan_of(s, lp)),
{
    lemma_plan_shaped(s, lp, es.len() as int);
    lemma_push_down_schema(plan_of(s, lp), seq![], es);
}

} // verus!
