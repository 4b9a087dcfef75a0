//! Idempotence: what the pass leaves, where it has nothing left to do,
//! a second pass leaves as it is.

use vstd::prelude::*;

use crate::aexpr::{AExprView, ExprTest};
use crate::alp::{FunctionNodeView, PlanView};
use crate::arena::Node;
use crate::expr_walk::{lemma_find_name, spec_check_input_node, spec_has_aexpr};
use crate::plan_schema::tree_schema;
use crate::plan_tree::PlanTree;
use crate::predicate_pushdown::laws::lemma_all_valid;
use crate::predicate_pushdown::model::{leaf, melt_names, selection_of, spec_hold_back};
use crate::predicate_pushdown::model::{spec_no_pushdown_restart_opt, spec_push_down};
use crate::predicate_pushdown::model::{spec_push_inputs, spec_pushdown_and_continue, Entries};
use crate::predicate_pushdown::model::spec_rewrite_projection_node;
use crate::predicate_pushdown::join::spec_join_partition;
use crate::predicate_pushdown::utils::spec_any_has;
use crate::predicate_pushdown::utils::{entry_nodes, spec_combine_predicates};
use crate::predicate_pushdown::utils::{spec_insert_and_combine, spec_meets, spec_output_names};
use crate::predicate_pushdown::utils::{spec_predicate_to_key, spec_select, CriterionView};

verus! {

/// Whether the only input of the node cannot evaluate `p`: `p` reads a
/// column that the input does not have, so that a node which lets pass
/// what its inputs can evaluate keeps `p` above itself.
pub open spec fn kept_by_schema(t: PlanTree, p: Node, es: Seq<AExprView>) -> bool {
    t.children.len() == 1 && spec_meets(
        es,
        CriterionView::NotIn(tree_schema(t.children[0])),
        (spec_predicate_to_key(es, p.0 as int), p),
    )
}

/// Whether the projecting node keeps `p` above itself as it is, and
/// hands nothing to its input.
pub open spec fn kept_by_projection(t: PlanTree, p: Node, es: Seq<AExprView>) -> bool {
    t.children.len() > 0 && spec_rewrite_projection_node(
        t.node,
        seq![(spec_predicate_to_key(es, p.0 as int), p)],
        es,
        tree_schema(t.children.last()),
    ) == (Seq::<(Seq<char>, Node)>::empty(), seq![p], es)
}

/// Whether the join keeps `p` above itself as it is, and hands nothing
/// to its inputs.
pub open spec fn kept_by_join(t: PlanTree, p: Node, es: Seq<AExprView>) -> bool {
    t.node matches PlanView::Join { left_on, right_on, how, .. } && t.children.len() == 2
        && spec_join_partition(
        seq![(spec_predicate_to_key(es, p.0 as int), p)],
        es,
        how,
        tree_schema(t.children[0]),
        tree_schema(t.children[1]),
        left_on,
        right_on,
    ) == (Seq::<(Seq<char>, Node)>::empty(), Seq::<(Seq<char>, Node)>::empty(), seq![p])
}

/// Whether the plan `t`, with the predicate `p` alone coming in from
/// above, hands `p` back: the pass leaves `t` under a filter by `p`.
///
/// So do the nodes that let nothing pass; a filter, for a predicate
/// that may not cross it; a sort, a union, an explode, a melt and a
/// distinct for a predicate that they hold back; a node that lets pass
/// what its input can evaluate, for a predicate that the input cannot;
/// a projecting node and a join for a predicate that they keep; a
/// reader of CSV files; and a scan of files for a predicate that needs
/// all rows.
pub open spec fn hands_back(t: PlanTree, p: Node, es: Seq<AExprView>) -> bool {
    let entry = (spec_predicate_to_key(es, p.0 as int), p);
    let boundary = spec_has_aexpr(es, p.0 as int, ExprTest::PushdownBoundary);
    match t.node {
        PlanView::Selection { .. } => boundary,
        PlanView::Slice { .. } | PlanView::Cache { .. } | PlanView::Aggregate { .. } => true,
        PlanView::Distinct { keep_strategy, .. } => {
            ||| !(keep_strategy is Any || keep_strategy is Neither)
            ||| spec_meets(es, CriterionView::MultiRoot, entry)
            ||| boundary
        },
        PlanView::MapFunction { function, .. } => match function {
            FunctionNodeView::Explode { columns } => {
                ||| boundary
                ||| spec_meets(es, CriterionView::Names(columns), entry)
                ||| kept_by_schema(t, p, es)
            },
            FunctionNodeView::Melt { value_vars, variable_name, value_name, .. } => {
                ||| spec_meets(
                    es,
                    CriterionView::Names(melt_names(value_vars, variable_name, value_name)),
                    entry,
                )
                ||| kept_by_schema(t, p, es)
            },
            FunctionNodeView::Opaque { predicate_pd, .. } => !predicate_pd || kept_by_schema(
                t,
                p,
                es,
            ),
            FunctionNodeView::Rename { .. } => false,
        },
        PlanView::AnonymousScan {
            allows_predicate_pushdown,
            ..
        } => !allows_predicate_pushdown || spec_has_aexpr(es, p.0 as int, ExprTest::FullContext),
        PlanView::Scan { scan_type, .. } => scan_type is Csv || spec_has_aexpr(
            es,
            p.0 as int,
            ExprTest::FullContext,
        ),
        PlanView::PythonScan { pyarrow, .. } => !pyarrow,
        PlanView::Sort { .. } => spec_has_aexpr(es, p.0 as int, ExprTest::SortBoundary)
            || kept_by_schema(t, p, es),
        PlanView::Union { .. } => spec_has_aexpr(es, p.0 as int, ExprTest::Count)
            || kept_by_schema(t, p, es),
        PlanView::FileSink { .. } | PlanView::CloudSink { .. } => kept_by_schema(t, p, es),
        PlanView::Projection { .. } | PlanView::HStack { .. } | PlanView::ExtContext { .. } => {
            ||| spec_any_has(es, t.node.exprs(), ExprTest::ProjectionBoundary)
            ||| kept_by_projection(t, p, es)
        },
        PlanView::Join { .. } => kept_by_join(t, p, es),
        _ => false,
    }
}

/// Whether the pass has nothing left to do on the plan: every filter
/// stands above a plan that hands its predicate back, no reader of CSV
/// files and no scan through a foreign engine holds a predicate, and
/// the local projections are consistent.
///
/// A plan that is not so has a filter above a plan that takes the
/// predicate, which a pass moves. The pass itself leaves such plans: a
/// filter that was held back, above a scan that has taken another
/// predicate, is not the first to reach the scan, and a second pass
/// moves it into the scan.
pub open spec fn settled(t: PlanTree, es: Seq<AExprView>) -> bool
    decreases t,
{
    &&& t.children.len() == t.node.inputs().len()
    &&& match t.node {
        PlanView::Selection { input, predicate } => {
            &&& input == Node(0)
            &&& t.children.len() == 1
            &&& hands_back(t.children[0], predicate, es)
        },
        PlanView::Scan { predicate, scan_type, .. } => scan_type is Csv ==> predicate is None,
        PlanView::PythonScan { pyarrow, predicate, .. } => pyarrow ==> predicate is None,
        PlanView::LocalProjection { expr, input, schema } => {
            &&& input == Node(0)
            &&& schema == spec_output_names(es, expr)
            &&& forall|i: int|
                0 <= i < expr.len() ==> spec_check_input_node(
                    es,
                    (#[trigger] expr[i]).0 as int,
                    tree_schema(t.children[0]),
                )
        },
        _ => true,
    }
    &&& forall|k: int| 0 <= k < t.children.len() ==> settled(#[trigger] t.children[k], es)
}

/// An empty accumulator is empty whatever is selected from it.
pub proof fn lemma_select_nothing(
    es: Seq<AExprView>,
    c: CriterionView,
    want: bool,
)
    ensures
        spec_select(es, c, seq![], want) =~= seq![],
{
}

/// The pass with nothing to push changes no plan of a list of settled
/// plans.
pub proof fn lemma_push_inputs_fixed(
    children: Seq<PlanTree>,
    accs: Seq<Option<Entries>>,
    es: Seq<AExprView>,
)
    requires
        forall|k: int| 0 <= k < children.len() ==> settled(#[trigger] children[k], es),
        accs.len() >= children.len(),
        forall|k: int|
            0 <= k < children.len() ==> ((#[trigger] accs[k]) matches Some(a) ==> a
                == Seq::<(Seq<char>, Node)>::empty()),
    ensures
        spec_push_inputs(children, accs, es) == (children, es),
    decreases children, 0nat,
{
    if children.len() > 0 {
        let init = children.drop_last();
        assert forall|k: int| 0 <= k < init.len() implies settled(#[trigger] init[k], es) by {
            assert(init[k] == children[k]);
        }
        lemma_push_inputs_fixed(init, accs, es);
        assert(children.last() == children[children.len() - 1]);
        match accs[children.len() - 1] {
            Some(acc) => {
                lemma_push_down_fixed(children.last(), es);
            },
            None => {},
        }
        assert(init.push(children.last()) =~= children);
    } else {
        assert(children =~= Seq::<PlanTree>::empty());
    }
}

/// A settled node above its settled inputs, with nothing to push.
pub proof fn lemma_no_pushdown_fixed(t: PlanTree, es: Seq<AExprView>)
    requires
        settled(t, es),
    ensures
        spec_no_pushdown_restart_opt(t, seq![], es) == (t, es),
    decreases t, 1nat,
{
    let accs = Seq::new(t.children.len(), |i: int| Some(Seq::<(Seq<char>, Node)>::empty()));
    lemma_push_inputs_fixed(t.children, accs, es);
    assert(entry_nodes(Seq::<(Seq<char>, Node)>::empty()) =~= Seq::<Node>::empty());
}

/// A settled node that lets predicates pass, with nothing to push.
pub proof fn lemma_continue_fixed(t: PlanTree, es: Seq<AExprView>, has_projections: bool)
    requires
        settled(t, es),
    ensures
        spec_pushdown_and_continue(t, seq![], es, has_projections) == (t, es),
    decreases t, 2nat,
{
    let none: Entries = seq![];
    if has_projections {
        if crate::predicate_pushdown::utils::spec_any_has(
            es,
            t.node.exprs(),
            ExprTest::ProjectionBoundary,
        ) {
            lemma_no_pushdown_fixed(t, es);
        } else {
            let n = t.children.len();
            let accs = Seq::new(
                n,
                |i: int|
                    if i == n - 1 {
                        Some(none)
                    } else {
                        None
                    },
            );
            lemma_push_inputs_fixed(t.children, accs, es);
        }
    } else {
        let accs = crate::predicate_pushdown::model::spec_schema_accs(t.children, none, es);
        assert forall|k: int| 0 <= k < t.children.len() implies ((#[trigger] accs[k]) matches Some(
            a,
        ) ==> a == none) by {
            lemma_select_nothing(
                es,
                CriterionView::NotIn(tree_schema(t.children[k])),
                false,
            );
        }
        lemma_push_inputs_fixed(t.children, accs, es);
        lemma_schema_local_nothing(t.children, es);
    }
}

/// With an empty accumulator nothing stays above a node.
pub proof fn lemma_schema_local_nothing(children: Seq<PlanTree>, es: Seq<AExprView>)
    ensures
        crate::predicate_pushdown::model::spec_schema_local(children, seq![], es) =~= seq![],
    decreases children.len(),
{
    if children.len() > 0 {
        lemma_schema_local_nothing(children.drop_last(), es);
        lemma_select_nothing(
            es,
            CriterionView::NotIn(tree_schema(children.last())),
            true,
        );
    }
}

/// A settled node that holds predicates back, with nothing to push.
pub proof fn lemma_hold_back_fixed(
    t: PlanTree,
    es: Seq<AExprView>,
    c: CriterionView,
)
    requires
        settled(t, es),
    ensures
        spec_hold_back(t, seq![], es, c) == (t, es),
    decreases t, 3nat,
{
    lemma_select_nothing(es, c, false);
    lemma_select_nothing(es, c, true);
    lemma_continue_fixed(t, es, false);
    assert(entry_nodes(Seq::<(Seq<char>, Node)>::empty()) =~= Seq::<Node>::empty());
}

/// The pass changes nothing where there is nothing to do: a settled
/// plan, with no predicate coming in from above, is what the pass makes
/// of it, and no expression is added.
pub proof fn lemma_push_down_fixed(t: PlanTree, es: Seq<AExprView>)
    requires
        settled(t, es),
    ensures
        spec_push_down(t, seq![], es) == (t, es),
    decreases t, 4nat,
{
    let none: Entries = seq![];
    assert(entry_nodes(none) =~= Seq::<Node>::empty());
    match t.node {
        PlanView::Selection { predicate, .. } => {
            let c = CriterionView::Test(ExprTest::PushdownBoundary);
            lemma_select_nothing(es, c, false);
            lemma_select_nothing(es, c, true);
            let key = spec_predicate_to_key(es, predicate.0 as int);
            lemma_find_name(none, key);
            let acc1 = seq![(key, predicate)];
            assert(spec_insert_and_combine(none, predicate, es).0 =~= acc1);
            lemma_returned(t.children[0], predicate, es);
            let below = PlanTree { node: selection_of(predicate), children: seq![t.children[0]] };
            assert(spec_push_inputs(t.children, seq![Some(acc1)], es) == (seq![below], es)) by {
                assert(t.children.drop_last() =~= Seq::<PlanTree>::empty());
                assert(t.children.last() == t.children[0]);
                let no_plans: Seq<PlanTree> = seq![];
                assert(spec_push_inputs(t.children.drop_last(), seq![Some(acc1)], es) == (
                    no_plans,
                    es,
                ));
                assert(no_plans.push(below) =~= seq![below]);
            }
            assert(t.children =~= seq![t.children[0]]);
        },
        PlanView::DataFrameScan { selection, .. } => {
            assert(t.children =~= Seq::<PlanTree>::empty());
        },
        PlanView::Scan { predicate, .. } => {
            lemma_select_nothing(
                es,
                CriterionView::Test(ExprTest::FullContext),
                false,
            );
            lemma_select_nothing(
                es,
                CriterionView::Test(ExprTest::FullContext),
                true,
            );
            assert(t.children =~= Seq::<PlanTree>::empty());
        },
        PlanView::AnonymousScan { allows_predicate_pushdown, predicate, .. } => {
            if allows_predicate_pushdown {
                lemma_select_nothing(
                    es,
                    CriterionView::Test(ExprTest::FullContext),
                    false,
                );
                lemma_select_nothing(
                    es,
                    CriterionView::Test(ExprTest::FullContext),
                    true,
                );
                assert(t.children =~= Seq::<PlanTree>::empty());
            } else {
                lemma_no_pushdown_fixed(t, es);
            }
        },
        PlanView::PythonScan { pyarrow, predicate, .. } => {
            if pyarrow {
                assert(t.children =~= Seq::<PlanTree>::empty());
            } else {
                lemma_no_pushdown_fixed(t, es);
            }
        },
        PlanView::LocalProjection { expr, .. } => {
            lemma_push_inputs_fixed(t.children, seq![Some(none)], es);
            lemma_all_valid(es, expr, tree_schema(t.children[0]));
        },
        PlanView::Distinct { keep_strategy, .. } => {
            if keep_strategy is Any || keep_strategy is Neither {
                let c1 = CriterionView::MultiRoot;
                let c2 = CriterionView::Test(
                    ExprTest::PushdownBoundary,
                );
                lemma_select_nothing(es, c1, false);
                lemma_select_nothing(es, c1, true);
                lemma_select_nothing(es, c2, false);
                lemma_select_nothing(es, c2, true);
                lemma_push_inputs_fixed(t.children, seq![Some(none)], es);
                assert(entry_nodes(none) + entry_nodes(none) =~= Seq::<Node>::empty());
            } else {
                lemma_no_pushdown_fixed(t, es);
            }
        },
        PlanView::Join { left_on, right_on, how, .. } => {
            let side = CriterionView::OneSide {
                own: tree_schema(t.children[0]),
                other: tree_schema(t.children[1]),
            };
            let to_right = CriterionView::OneSide {
                own: tree_schema(t.children[1]),
                other: crate::predicate_pushdown::join::not_for_right(
                    es,
                    how,
                    tree_schema(t.children[0]),
                    left_on,
                    right_on,
                ),
            };
            lemma_select_nothing(es, side, false);
            lemma_select_nothing(es, side, true);
            lemma_select_nothing(es, to_right, false);
            lemma_select_nothing(es, to_right, true);
            lemma_push_inputs_fixed(t.children, seq![Some(none), Some(none)], es);
        },
        PlanView::MapFunction { function, .. } => {
            if !function.allow_predicate_pd() {
                lemma_no_pushdown_fixed(t, es);
            } else {
                match function {
                    FunctionNodeView::Rename { existing, new } => {
                        lemma_continue_fixed(t, es, false);
                    },
                    FunctionNodeView::Explode { columns } => {
                        lemma_hold_back_fixed(
                            t,
                            es,
                            CriterionView::Names(columns),
                        );
                    },
                    FunctionNodeView::Melt { value_vars, variable_name, value_name, .. } => {
                        lemma_hold_back_fixed(
                            t,
                            es,
                            CriterionView::Names(
                                melt_names(
                                    value_vars,
                                    variable_name,
                                    value_name,
                                ),
                            ),
                        );
                    },
                    FunctionNodeView::Opaque { .. } => {
                        lemma_continue_fixed(t, es, false);
                    },
                }
            }
        },
        PlanView::Union { .. } => {
            lemma_hold_back_fixed(
                t,
                es,
                CriterionView::Test(ExprTest::Count),
            );
        },
        PlanView::Sort { .. } => {
            lemma_hold_back_fixed(
                t,
                es,
                CriterionView::Test(ExprTest::SortBoundary),
            );
        },
        PlanView::FileSink { .. } | PlanView::CloudSink { .. } => {
            lemma_continue_fixed(t, es, false);
        },
        PlanView::HStack { .. } | PlanView::Projection { .. } | PlanView::ExtContext { .. } => {
            lemma_continue_fixed(t, es, true);
        },
        PlanView::Slice { .. } | PlanView::Cache { .. } | PlanView::Aggregate { .. } => {
            lemma_no_pushdown_fixed(t, es);
        },
    }
}


/// A selection from an accumulator of one entry.
pub proof fn lemma_select_one(es: Seq<AExprView>, c: CriterionView, e: (Seq<char>, Node), want: bool)
    ensures
        spec_select(es, c, seq![e], want) =~= if spec_meets(es, c, e) == want {
            seq![e]
        } else {
            seq![]
        },
{
    let one = seq![e];
    assert(one.drop_last() =~= Seq::<(Seq<char>, Node)>::empty());
    assert(one.last() == e);
    lemma_select_nothing(es, c, want);
    let none: Entries = seq![];
    assert(none.push(e) =~= seq![e]);
}

/// A predicate that comes in alone to a settled plan which hands it
/// back: the pass leaves the plan under a filter by the predicate, and
/// adds no expression.
pub proof fn lemma_returned(t: PlanTree, p: Node, es: Seq<AExprView>)
    requires
        settled(t, es),
        hands_back(t, p, es),
    ensures
        spec_push_down(t, seq![(spec_predicate_to_key(es, p.0 as int), p)], es) == (
            PlanTree { node: selection_of(p), children: seq![t] },
            es,
        ),
    decreases t, 5nat,
{
    let entry = (spec_predicate_to_key(es, p.0 as int), p);
    let acc: Entries = seq![entry];
    let none: Entries = seq![];
    assert(entry_nodes(acc) =~= seq![p]);
    assert(entry_nodes(none) =~= Seq::<Node>::empty());
    assert(spec_combine_predicates(seq![p], es) == (p, es));
    match t.node {
        PlanView::Selection { predicate, .. } => {
            let c = CriterionView::Test(ExprTest::PushdownBoundary);
            lemma_select_one(es, c, entry, false);
            lemma_select_one(es, c, entry, true);
            let key = spec_predicate_to_key(es, predicate.0 as int);
            lemma_find_name(none, key);
            let acc1 = seq![(key, predicate)];
            assert(spec_insert_and_combine(none, predicate, es).0 =~= acc1);
            lemma_returned(t.children[0], predicate, es);
            let below = PlanTree { node: selection_of(predicate), children: seq![t.children[0]] };
            assert(spec_push_inputs(t.children, seq![Some(acc1)], es) == (seq![below], es)) by {
                assert(t.children.drop_last() =~= Seq::<PlanTree>::empty());
                assert(t.children.last() == t.children[0]);
                let no_plans: Seq<PlanTree> = seq![];
                assert(spec_push_inputs(t.children.drop_last(), seq![Some(acc1)], es) == (
                    no_plans,
                    es,
                ));
                assert(no_plans.push(below) =~= seq![below]);
            }
            assert(t.children =~= seq![t.children[0]]);
            assert(below == t);
        },
        PlanView::Slice { .. } | PlanView::Cache { .. } | PlanView::Aggregate { .. } => {
            lemma_blocked(t, p, es);
        },
        PlanView::FileSink { .. } | PlanView::CloudSink { .. } => {
            lemma_schema_kept(t, p, es);
        },
        PlanView::Projection { .. } | PlanView::HStack { .. } | PlanView::ExtContext { .. } => {
            if spec_any_has(es, t.node.exprs(), ExprTest::ProjectionBoundary) {
                lemma_blocked(t, p, es);
            } else {
                let n = t.children.len();
                let accs = Seq::new(
                    n,
                    |i: int|
                        if i == n - 1 {
                            Some(none)
                        } else {
                            None
                        },
                );
                lemma_push_inputs_fixed(t.children, accs, es);
                assert(PlanTree { node: t.node, children: t.children } == t);
            }
        },
        PlanView::Join { .. } => {
            lemma_push_inputs_fixed(t.children, seq![Some(none), Some(none)], es);
            assert(PlanTree { node: t.node, children: t.children } == t);
        },
        PlanView::Distinct { keep_strategy, .. } => {
            if keep_strategy is Any || keep_strategy is Neither {
                let c1 = CriterionView::MultiRoot;
                let c2 = CriterionView::Test(ExprTest::PushdownBoundary);
                lemma_select_one(es, c1, entry, false);
                lemma_select_one(es, c1, entry, true);
                lemma_select_one(es, c2, entry, false);
                lemma_select_one(es, c2, entry, true);
                lemma_select_nothing(es, c2, false);
                lemma_select_nothing(es, c2, true);
                lemma_push_inputs_fixed(t.children, seq![Some(none)], es);
                assert(seq![p] + Seq::<Node>::empty() =~= seq![p]);
                assert(Seq::<Node>::empty() + seq![p] =~= seq![p]);
            } else {
                lemma_blocked(t, p, es);
            }
        },
        PlanView::MapFunction { function, .. } => {
            match function {
                FunctionNodeView::Explode { columns } => {
                    if spec_has_aexpr(es, p.0 as int, ExprTest::PushdownBoundary) {
                        assert(entry_nodes(acc)[0] == p);
                        lemma_continue_fixed(t, es, false);
                    } else {
                        assert(!crate::predicate_pushdown::utils::spec_any_has(
                            es,
                            entry_nodes(acc),
                            ExprTest::PushdownBoundary,
                        )) by {
                            assert forall|i: int| 0 <= i < entry_nodes(acc).len() implies !spec_has_aexpr(
                                es,
                                (#[trigger] entry_nodes(acc)[i]).0 as int,
                                ExprTest::PushdownBoundary,
                            ) by {
                                assert(entry_nodes(acc)[i] == p);
                            }
                        }
                        lemma_held_or_kept(t, p, es, CriterionView::Names(columns));
                    }
                },
                FunctionNodeView::Melt { value_vars, variable_name, value_name, .. } => {
                    lemma_held_or_kept(
                        t,
                        p,
                        es,
                        CriterionView::Names(melt_names(value_vars, variable_name, value_name)),
                    );
                },
                FunctionNodeView::Opaque { predicate_pd, .. } => {
                    if predicate_pd {
                        lemma_schema_kept(t, p, es);
                    } else {
                        lemma_blocked(t, p, es);
                    }
                },
                FunctionNodeView::Rename { .. } => {},
            }
        },
        PlanView::AnonymousScan { allows_predicate_pushdown, predicate, .. } => {
            if allows_predicate_pushdown {
                lemma_scan_returns(t, p, es);
            } else {
                lemma_blocked(t, p, es);
            }
        },
        PlanView::Scan { .. } => {
            lemma_scan_returns(t, p, es);
        },
        PlanView::PythonScan { .. } => {
            lemma_blocked(t, p, es);
        },
        PlanView::Sort { .. } => {
            lemma_held_or_kept(t, p, es, CriterionView::Test(ExprTest::SortBoundary));
        },
        PlanView::Union { .. } => {
            lemma_held_or_kept(t, p, es, CriterionView::Test(ExprTest::Count));
        },
        _ => {},
    }
}

/// A settled node that lets pass what its input can evaluate hands
/// back a predicate that the input cannot evaluate.
pub proof fn lemma_schema_kept(t: PlanTree, p: Node, es: Seq<AExprView>)
    requires
        settled(t, es),
        kept_by_schema(t, p, es),
    ensures
        spec_pushdown_and_continue(
            t,
            seq![(spec_predicate_to_key(es, p.0 as int), p)],
            es,
            false,
        ) == (PlanTree { node: selection_of(p), children: seq![t] }, es),
    decreases t, 2nat,
{
    let entry = (spec_predicate_to_key(es, p.0 as int), p);
    let acc: Entries = seq![entry];
    let none: Entries = seq![];
    let c = CriterionView::NotIn(tree_schema(t.children[0]));
    lemma_select_one(es, c, entry, false);
    lemma_select_one(es, c, entry, true);
    let accs = crate::predicate_pushdown::model::spec_schema_accs(t.children, acc, es);
    assert(accs[0] == Some(none));
    lemma_push_inputs_fixed(t.children, accs, es);
    assert(t.children.drop_last() =~= Seq::<PlanTree>::empty());
    assert(t.children.last() == t.children[0]);
    assert(crate::predicate_pushdown::model::spec_schema_local(t.children.drop_last(), acc, es)
        =~= Seq::<Node>::empty());
    assert(entry_nodes(acc) =~= seq![p]);
    assert(crate::predicate_pushdown::model::spec_schema_local(t.children, acc, es) =~= seq![p]);
    assert(spec_combine_predicates(seq![p], es) == (p, es));
    assert(PlanTree { node: t.node, children: t.children } == t);
}

/// A settled node hands back a predicate that it holds back, and one
/// that it lets pass and its input cannot evaluate.
pub proof fn lemma_held_or_kept(t: PlanTree, p: Node, es: Seq<AExprView>, c: CriterionView)
    requires
        settled(t, es),
        spec_meets(es, c, (spec_predicate_to_key(es, p.0 as int), p)) || kept_by_schema(t, p, es),
    ensures
        spec_hold_back(t, seq![(spec_predicate_to_key(es, p.0 as int), p)], es, c) == (
            PlanTree { node: selection_of(p), children: seq![t] },
            es,
        ),
    decreases t, 4nat,
{
    let entry = (spec_predicate_to_key(es, p.0 as int), p);
    if spec_meets(es, c, entry) {
        lemma_held_back(t, p, es, c);
    } else {
        let none: Entries = seq![];
        lemma_select_one(es, c, entry, false);
        lemma_select_one(es, c, entry, true);
        lemma_schema_kept(t, p, es);
        assert(entry_nodes(none) =~= Seq::<Node>::empty());
    }
}

/// A settled node that lets nothing pass hands a predicate back.
pub proof fn lemma_blocked(t: PlanTree, p: Node, es: Seq<AExprView>)
    requires
        settled(t, es),
    ensures
        spec_no_pushdown_restart_opt(
            t,
            seq![(spec_predicate_to_key(es, p.0 as int), p)],
            es,
        ) == (PlanTree { node: selection_of(p), children: seq![t] }, es),
    decreases t, 1nat,
{
    let entry = (spec_predicate_to_key(es, p.0 as int), p);
    let acc: Entries = seq![entry];
    let accs = Seq::new(t.children.len(), |i: int| Some(Seq::<(Seq<char>, Node)>::empty()));
    lemma_push_inputs_fixed(t.children, accs, es);
    assert(entry_nodes(acc) =~= seq![p]);
    assert(spec_combine_predicates(seq![p], es) == (p, es));
}

/// A settled node hands back a predicate that it holds back.
pub proof fn lemma_held_back(t: PlanTree, p: Node, es: Seq<AExprView>, c: CriterionView)
    requires
        settled(t, es),
        spec_meets(es, c, (spec_predicate_to_key(es, p.0 as int), p)),
    ensures
        spec_hold_back(t, seq![(spec_predicate_to_key(es, p.0 as int), p)], es, c) == (
            PlanTree { node: selection_of(p), children: seq![t] },
            es,
        ),
    decreases t, 3nat,
{
    let entry = (spec_predicate_to_key(es, p.0 as int), p);
    let acc: Entries = seq![entry];
    lemma_select_one(es, c, entry, false);
    lemma_select_one(es, c, entry, true);
    lemma_continue_fixed(t, es, false);
    assert(entry_nodes(acc) =~= seq![p]);
    assert(spec_combine_predicates(seq![p], es) == (p, es));
}

/// A settled scan hands back a predicate that it does not take: every
/// predicate, if it is a reader of CSV files, and else one that needs
/// all rows.
pub proof fn lemma_scan_returns(t: PlanTree, p: Node, es: Seq<AExprView>)
    requires
        settled(t, es),
        t.node is Scan || t.node is AnonymousScan,
        (t.node matches PlanView::Scan { scan_type, .. } && scan_type is Csv) || spec_has_aexpr(
            es,
            p.0 as int,
            ExprTest::FullContext,
        ),
    ensures
        crate::predicate_pushdown::model::spec_at_scan(
            t.node,
            crate::alp::seq_opt(t.node.exprs()),
            seq![(spec_predicate_to_key(es, p.0 as int), p)],
            es,
        ) == (PlanTree { node: selection_of(p), children: seq![t] }, es),
{
    let entry = (spec_predicate_to_key(es, p.0 as int), p);
    let acc: Entries = seq![entry];
    let none: Entries = seq![];
    let c = CriterionView::Test(ExprTest::FullContext);
    lemma_select_one(es, c, entry, false);
    lemma_select_one(es, c, entry, true);
    assert(entry_nodes(acc) =~= seq![p]);
    assert(entry_nodes(none) =~= Seq::<Node>::empty());
    assert(spec_combine_predicates(seq![p], es) == (p, es));
    assert(t.children =~= Seq::<PlanTree>::empty());
    assert(leaf(t.node) == t);
}

/// Idempotence, where the pass settles the plan: if every filter that
/// the pass leaves stands above a plan that hands its predicate back,
/// and no scan holds a predicate that the pass would move again, a
/// second pass changes nothing.
///
/// It does not hold of every plan. Of a filter that may not cross a
/// filter, above a filter by `p`, above a scan of files other than CSV,
/// one pass leaves the first filter above the scan with `p`; that
/// filter is then alone above the scan, and a second pass moves it into
/// the scan.
pub proof fn lemma_idempotent_when_settled(t: PlanTree, acc: Entries, es: Seq<AExprView>)
    requires
        settled(spec_push_down(t, acc, es).0, spec_push_down(t, acc, es).1),
    ensures
        spec_push_down(spec_push_down(t, acc, es).0, seq![], spec_push_down(t, acc, es).1)
            == spec_push_down(t, acc, es),
{
    lemma_push_down_fixed(spec_push_down(t, acc, es).0, spec_push_down(t, acc, es).1);
}


} // verus!
