//! Boundaries are respected: what a node holds back does not come to
//! lie below it.

use vstd::prelude::*;

use crate::aexpr::{extends, wf_exprs, AExprView, ExprTest};
use crate::arena::Node;
use crate::expr_walk::{lemma_find_name, lemma_with_nodes, spec_find_name, spec_has_aexpr};
use crate::expr_walk::{spec_substitute, spec_substitute_all, targets_below};
use crate::alp::JoinType;
use crate::predicate_pushdown::join::{not_for_right, pushes_left, pushes_right};
use crate::predicate_pushdown::join::spec_join_partition;
use crate::predicate_pushdown::laws::lemma_combine_extends;
use crate::predicate_pushdown::laws::{lemma_predicate_at_scan_extends};
use crate::predicate_pushdown::laws::{lemma_process_rename_extends, lemma_rename_map_extends};
use crate::predicate_pushdown::laws::{lemma_rewrite_extends};
use crate::predicate_pushdown::laws::{lemma_substitute_all_extends, lemma_substitute_extends};
use crate::alp::{FileScan, FunctionNodeView, PlanView};
use crate::plan_schema::tree_schema;
use crate::plan_tree::PlanTree;
use crate::predicate_pushdown::laws::tree_shaped;
use crate::predicate_pushdown::model::{leaf, melt_names, projection_rule, selection_of};
use crate::predicate_pushdown::model::{spec_at_scan, spec_hold_back};
use crate::predicate_pushdown::model::{spec_no_pushdown_restart_opt, spec_schema_accs};
use crate::predicate_pushdown::model::{spec_optional_apply_predicate, spec_push_down};
use crate::predicate_pushdown::model::{spec_push_inputs, spec_pushdown_and_continue};
use crate::predicate_pushdown::model::{spec_rewrite_projection_node, spec_schema_local};
use crate::predicate_pushdown::model::{spec_valid_exprs, Entries};
use crate::predicate_pushdown::refine::{forest_exprs_below, lemma_exprs_below_grows};
use crate::predicate_pushdown::refine::tree_exprs_below;
use crate::predicate_pushdown::utils::{spec_any_has, spec_leaving, spec_projection_map};
use crate::predicate_pushdown::utils::spec_staying;
use crate::predicate_pushdown::rename::{pair_count, rename_rule, spec_process_rename};
use crate::predicate_pushdown::rename::spec_rename_map;
use crate::predicate_pushdown::utils::{and_of, entry_nodes, lemma_select};
use crate::predicate_pushdown::utils::{spec_combine_predicates, spec_insert_and_combine};
use crate::predicate_pushdown::utils::{spec_keeps, spec_predicate_at_scan};
use crate::predicate_pushdown::utils::{spec_rewrite_predicates, spec_select, CriterionView};
use crate::predicate_pushdown::utils::RewriteRuleView;

verus! {

/// A node with any of the properties depends on other rows.
pub proof fn lemma_test_implies_boundary(e: AExprView, x: ExprTest)
    requires
        e.satisfies(x),
    ensures
        e.satisfies(ExprTest::PushdownBoundary),
{
}

/// An expression with any of the properties depends on other rows.
pub proof fn lemma_has_implies_boundary(es: Seq<AExprView>, h: int, x: ExprTest)
    requires
        spec_has_aexpr(es, h, x),
    ensures
        spec_has_aexpr(es, h, ExprTest::PushdownBoundary),
    decreases h,
{
    if es[h].satisfies(x) {
        lemma_test_implies_boundary(es[h], x);
    } else {
        let k = choose|k: int|
            0 <= k < es[h].nodes().len() && (#[trigger] es[h].nodes()[k]).0 < h && spec_has_aexpr(
                es,
                es[h].nodes()[k].0 as int,
                x,
            );
        lemma_has_implies_boundary(es, es[h].nodes()[k].0 as int, x);
    }
}

/// Whether an expression has a property does not change when
/// expressions are added to the arena.
pub proof fn lemma_has_aexpr_stable(es: Seq<AExprView>, es2: Seq<AExprView>, h: int, x: ExprTest)
    requires
        extends(es, es2),
        0 <= h < es.len(),
    ensures
        spec_has_aexpr(es2, h, x) == spec_has_aexpr(es, h, x),
    decreases h,
{
    assert(es2[h] == es[h]);
    if spec_has_aexpr(es, h, x) && !es[h].satisfies(x) {
        let k = choose|k: int|
            0 <= k < es[h].nodes().len() && (#[trigger] es[h].nodes()[k]).0 < h && spec_has_aexpr(
                es,
                es[h].nodes()[k].0 as int,
                x,
            );
        lemma_has_aexpr_stable(es, es2, es[h].nodes()[k].0 as int, x);
    }
    if spec_has_aexpr(es2, h, x) && !es[h].satisfies(x) {
        let k = choose|k: int|
            0 <= k < es2[h].nodes().len() && (#[trigger] es2[h].nodes()[k]).0 < h
                && spec_has_aexpr(es2, es2[h].nodes()[k].0 as int, x);
        lemma_has_aexpr_stable(es, es2, es[h].nodes()[k].0 as int, x);
    }
}

/// A conjunction has a property if and only if one of its sides has it.
pub proof fn lemma_has_and(es: Seq<AExprView>, h: int, left: Node, right: Node, x: ExprTest)
    requires
        0 <= h < es.len(),
        es[h] == and_of(left, right),
        left.0 < h,
        right.0 < h,
    ensures
        spec_has_aexpr(es, h, x) == (spec_has_aexpr(es, left.0 as int, x) || spec_has_aexpr(
            es,
            right.0 as int,
            x,
        )),
{
    assert(es[h].nodes() =~= seq![left, right]);
    assert(!es[h].satisfies(x));
    if spec_has_aexpr(es, left.0 as int, x) {
        assert(es[h].nodes()[0] == left);
    }
    if spec_has_aexpr(es, right.0 as int, x) {
        assert(es[h].nodes()[1] == right);
    }
}

/// Whether none of the expressions that `map` binds has the property.
pub open spec fn targets_free(es: Seq<AExprView>, map: Seq<(Seq<char>, Node)>, x: ExprTest) -> bool {
    forall|i: int| 0 <= i < map.len() ==> !spec_has_aexpr(es, (#[trigger] map[i]).1.0 as int, x)
}

/// Replacing the inputs of a node does not change the properties of
/// the node itself.
pub proof fn lemma_with_nodes_satisfies(e: AExprView, kids: Seq<Node>, x: ExprTest)
    ensures
        e.with_nodes(kids).satisfies(x) == e.satisfies(x),
{
}

/// Substitution keeps the arena well formed and its results in range,
/// and brings in a property only with an expression that it puts in
/// place of a column.
pub proof fn lemma_substitute_free(
    es: Seq<AExprView>,
    h: int,
    map: Seq<(Seq<char>, Node)>,
    x: ExprTest,
)
    requires
        wf_exprs(es),
        0 <= h < es.len(),
        targets_below(map, es.len() as int),
        spec_substitute(es, h, map).1.len() <= usize::MAX,
    ensures
        wf_exprs(spec_substitute(es, h, map).1),
        extends(es, spec_substitute(es, h, map).1),
        spec_substitute(es, h, map).0.0 < spec_substitute(es, h, map).1.len(),
        targets_free(es, map, x) && !spec_has_aexpr(es, h, x) ==> !spec_has_aexpr(
            spec_substitute(es, h, map).1,
            spec_substitute(es, h, map).0.0 as int,
            x,
        ),
    decreases h, 1int, 0int,
{
    let (r, es2) = spec_substitute(es, h, map);
    lemma_substitute_extends(es, h, map);
    match es[h] {
        AExprView::Column(name) => {
            lemma_find_name(map, name);
        },
        e => {
            assert(e.inputs_below(h));
            lemma_substitute_all_extends(es, e.nodes(), h, map);
            lemma_substitute_all_free(es, e.nodes(), h, map, x);
            let (kids, es1) = spec_substitute_all(es, e.nodes(), h, map);
            if kids == e.nodes() {
                lemma_has_aexpr_stable(es, es1, h, x);
            } else {
                let rebuilt = e.with_nodes(kids);
                lemma_with_nodes(e, kids);
                lemma_with_nodes_satisfies(e, kids, x);
                assert(rebuilt.inputs_below(es1.len() as int));
                assert(wf_exprs(es2)) by {
                    assert forall|i: int| 0 <= i < es2.len() implies (#[trigger] es2[i]).inputs_below(
                        i,
                    ) by {
                        if i < es1.len() {
                            assert(es2[i] == es1[i]);
                        }
                    }
                }
                if targets_free(es, map, x) && !spec_has_aexpr(es, h, x) {
                    assert(!spec_has_aexpr(es2, r.0 as int, x)) by {
                        assert forall|k: int|
                            0 <= k < rebuilt.nodes().len() && (#[trigger] rebuilt.nodes()[k]).0
                                < r.0 implies !spec_has_aexpr(
                            es2,
                            rebuilt.nodes()[k].0 as int,
                            x,
                        ) by {
                            assert(rebuilt.nodes()[k] == kids[k]);
                            assert(e.nodes()[k].0 < h);
                            assert(!spec_has_aexpr(es, e.nodes()[k].0 as int, x));
                            lemma_has_aexpr_stable(es1, es2, kids[k].0 as int, x);
                        }
                    }
                }
            }
        },
    }
}

/// [`lemma_substitute_free`] for the inputs of a node.
pub proof fn lemma_substitute_all_free(
    es: Seq<AExprView>,
    kids: Seq<Node>,
    parent: int,
    map: Seq<(Seq<char>, Node)>,
    x: ExprTest,
)
    requires
        wf_exprs(es),
        0 <= parent <= es.len(),
        forall|k: int| 0 <= k < kids.len() ==> (#[trigger] kids[k]).0 < parent,
        targets_below(map, es.len() as int),
        spec_substitute_all(es, kids, parent, map).1.len() <= usize::MAX,
    ensures
        wf_exprs(spec_substitute_all(es, kids, parent, map).1),
        extends(es, spec_substitute_all(es, kids, parent, map).1),
        spec_substitute_all(es, kids, parent, map).0.len() == kids.len(),
        forall|k: int|
            0 <= k < kids.len() ==> (#[trigger] spec_substitute_all(es, kids, parent, map).0[k]).0
                < spec_substitute_all(es, kids, parent, map).1.len(),
        targets_free(es, map, x) ==> forall|k: int|
            0 <= k < kids.len() && !spec_has_aexpr(es, kids[k].0 as int, x) ==> !spec_has_aexpr(
                spec_substitute_all(es, kids, parent, map).1,
                (#[trigger] spec_substitute_all(es, kids, parent, map).0[k]).0 as int,
                x,
            ),
    decreases parent, 0int, kids.len(),
{
    if kids.len() > 0 {
        let init = kids.drop_last();
        let (done, es1) = spec_substitute_all(es, init, parent, map);
        let last = kids.last();
        assert(last == kids[kids.len() - 1]);
        lemma_substitute_all_extends(es, init, parent, map);
        lemma_substitute_extends(es1, last.0 as int, map);
        lemma_substitute_all_free(es, init, parent, map, x);
        lemma_substitute_free(es1, last.0 as int, map, x);
        let (k2, es2) = spec_substitute(es1, last.0 as int, map);
        let out = spec_substitute_all(es, kids, parent, map).0;
        assert(out == done.push(k2));
        assert forall|k: int| 0 <= k < kids.len() implies (#[trigger] out[k]).0 < es2.len() by {
            if k < init.len() {
                assert(out[k] == done[k]);
            }
        }
        if targets_free(es, map, x) {
            assert(targets_free(es1, map, x)) by {
                assert forall|i: int| 0 <= i < map.len() implies !spec_has_aexpr(
                    es1,
                    (#[trigger] map[i]).1.0 as int,
                    x,
                ) by {
                    lemma_has_aexpr_stable(es, es1, map[i].1.0 as int, x);
                }
            }
            assert forall|k: int|
                0 <= k < kids.len() && !spec_has_aexpr(
                    es,
                    kids[k].0 as int,
                    x,
                ) implies !spec_has_aexpr(es2, (#[trigger] out[k]).0 as int, x) by {
                if k < init.len() {
                    assert(out[k] == done[k]);
                    assert(init[k] == kids[k]);
                    lemma_has_aexpr_stable(es1, es2, done[k].0 as int, x);
                } else {
                    lemma_has_aexpr_stable(es, es1, last.0 as int, x);
                }
            }
        }
    }
}


/// Whether no predicate of the accumulator has the property.
pub open spec fn acc_free(es: Seq<AExprView>, acc: Entries, x: ExprTest) -> bool {
    forall|i: int| 0 <= i < acc.len() ==> !spec_has_aexpr(es, (#[trigger] acc[i]).1.0 as int, x)
}

/// Whether none of the expressions has the property.
pub open spec fn nodes_free(es: Seq<AExprView>, nodes: Seq<Node>, x: ExprTest) -> bool {
    forall|i: int| 0 <= i < nodes.len() ==> !spec_has_aexpr(es, (#[trigger] nodes[i]).0 as int, x)
}

/// Whether all of the handles are below `n`.
pub open spec fn nodes_valid(nodes: Seq<Node>, n: int) -> bool {
    forall|i: int| 0 <= i < nodes.len() ==> (#[trigger] nodes[i]).0 < n
}

/// Whether the arena is no longer than a machine can address.
pub open spec fn fits(es: Seq<AExprView>) -> bool {
    es.len() <= usize::MAX
}

/// An arena stays well formed when a node is added whose inputs it
/// holds.
pub proof fn lemma_push_wf(es: Seq<AExprView>, e: AExprView)
    requires
        wf_exprs(es),
        e.inputs_below(es.len() as int),
    ensures
        wf_exprs(es.push(e)),
{
    let es2 = es.push(e);
    assert forall|i: int| 0 <= i < es2.len() implies (#[trigger] es2[i]).inputs_below(i) by {
        if i < es.len() {
            assert(es2[i] == es[i]);
        }
    }
}

/// The conjunction of two expressions, added to the arena, has a
/// property only if one of them has it.
pub proof fn lemma_and_pushed(es: Seq<AExprView>, left: Node, right: Node, x: ExprTest)
    requires
        wf_exprs(es),
        left.0 < es.len(),
        right.0 < es.len(),
        fits(es.push(and_of(left, right))),
    ensures
        wf_exprs(es.push(and_of(left, right))),
        spec_has_aexpr(es.push(and_of(left, right)), es.len() as int, x) == (spec_has_aexpr(
            es,
            left.0 as int,
            x,
        ) || spec_has_aexpr(es, right.0 as int, x)),
{
    let es2 = es.push(and_of(left, right));
    assert(and_of(left, right).nodes() =~= seq![left, right]);
    lemma_push_wf(es, and_of(left, right));
    lemma_has_and(es2, es.len() as int, left, right, x);
    lemma_has_aexpr_stable(es, es2, left.0 as int, x);
    lemma_has_aexpr_stable(es, es2, right.0 as int, x);
}

/// Combining predicates keeps the arena well formed, and the
/// conjunction has a property only if one of the predicates has it.
pub proof fn lemma_combine_free(preds: Seq<Node>, es: Seq<AExprView>, x: ExprTest)
    requires
        wf_exprs(es),
        preds.len() > 0,
        nodes_valid(preds, es.len() as int),
        fits(spec_combine_predicates(preds, es).1),
    ensures
        wf_exprs(spec_combine_predicates(preds, es).1),
        extends(es, spec_combine_predicates(preds, es).1),
        spec_combine_predicates(preds, es).0.0 < spec_combine_predicates(preds, es).1.len(),
        nodes_free(es, preds, x) ==> !spec_has_aexpr(
            spec_combine_predicates(preds, es).1,
            spec_combine_predicates(preds, es).0.0 as int,
            x,
        ),
    decreases preds.len(),
{
    lemma_combine_extends(preds, es);
    if preds.len() > 1 {
        let init = preds.drop_last();
        assert forall|i: int| 0 <= i < init.len() implies (#[trigger] init[i]).0 < es.len() by {
            assert(init[i] == preds[i]);
        }
        lemma_combine_extends(init, es);
        lemma_combine_free(init, es, x);
        let (left, es1) = spec_combine_predicates(init, es);
        let last = preds.last();
        assert(last == preds[preds.len() - 1]);
        lemma_and_pushed(es1, left, last, x);
        if nodes_free(es, preds, x) {
            assert(nodes_free(es, init, x)) by {
                assert forall|i: int| 0 <= i < init.len() implies !spec_has_aexpr(
                    es,
                    (#[trigger] init[i]).0 as int,
                    x,
                ) by {
                    assert(init[i] == preds[i]);
                }
            }
            lemma_has_aexpr_stable(es, es1, last.0 as int, x);
        }
    } else {
        assert(preds[0].0 < es.len());
    }
}

/// An accumulator that is valid and free of a property stays so when
/// expressions are added to the arena.
pub proof fn lemma_acc_stable(es: Seq<AExprView>, es2: Seq<AExprView>, acc: Entries, x: ExprTest)
    requires
        extends(es, es2),
        targets_below(acc, es.len() as int),
    ensures
        targets_below(acc, es2.len() as int),
        acc_free(es2, acc, x) == acc_free(es, acc, x),
{
    if acc_free(es, acc, x) {
        assert forall|i: int| 0 <= i < acc.len() implies !spec_has_aexpr(
            es2,
            (#[trigger] acc[i]).1.0 as int,
            x,
        ) by {
            lemma_has_aexpr_stable(es, es2, acc[i].1.0 as int, x);
        }
    }
    if acc_free(es2, acc, x) {
        assert forall|i: int| 0 <= i < acc.len() implies !spec_has_aexpr(
            es,
            (#[trigger] acc[i]).1.0 as int,
            x,
        ) by {
            lemma_has_aexpr_stable(es, es2, acc[i].1.0 as int, x);
        }
    }
}

/// Handles that are valid and free of a property stay so when
/// expressions are added to the arena.
pub proof fn lemma_nodes_stable(es: Seq<AExprView>, es2: Seq<AExprView>, nodes: Seq<Node>, x: ExprTest)
    requires
        extends(es, es2),
        nodes_valid(nodes, es.len() as int),
    ensures
        nodes_valid(nodes, es2.len() as int),
        nodes_free(es2, nodes, x) == nodes_free(es, nodes, x),
{
    if nodes_free(es, nodes, x) {
        assert forall|i: int| 0 <= i < nodes.len() implies !spec_has_aexpr(
            es2,
            (#[trigger] nodes[i]).0 as int,
            x,
        ) by {
            lemma_has_aexpr_stable(es, es2, nodes[i].0 as int, x);
        }
    }
    if nodes_free(es2, nodes, x) {
        assert forall|i: int| 0 <= i < nodes.len() implies !spec_has_aexpr(
            es,
            (#[trigger] nodes[i]).0 as int,
            x,
        ) by {
            lemma_has_aexpr_stable(es, es2, nodes[i].0 as int, x);
        }
    }
}

/// Taking a predicate into the accumulator keeps the arena well formed
/// and the accumulator valid, and brings in a property only with the
/// predicate.
pub proof fn lemma_insert_free(acc: Entries, p: Node, es: Seq<AExprView>, x: ExprTest)
    requires
        wf_exprs(es),
        targets_below(acc, es.len() as int),
        p.0 < es.len(),
        fits(spec_insert_and_combine(acc, p, es).1),
    ensures
        wf_exprs(spec_insert_and_combine(acc, p, es).1),
        extends(es, spec_insert_and_combine(acc, p, es).1),
        targets_below(
            spec_insert_and_combine(acc, p, es).0,
            spec_insert_and_combine(acc, p, es).1.len() as int,
        ),
        acc_free(es, acc, x) && !spec_has_aexpr(es, p.0 as int, x) ==> acc_free(
            spec_insert_and_combine(acc, p, es).1,
            spec_insert_and_combine(acc, p, es).0,
            x,
        ),
{
    let key = crate::predicate_pushdown::utils::spec_predicate_to_key(es, p.0 as int);
    let (acc2, es2) = spec_insert_and_combine(acc, p, es);
    lemma_find_name(acc, key);
    match spec_find_name(acc, key) {
        None => {
            assert forall|i: int| 0 <= i < acc2.len() implies (#[trigger] acc2[i]).1.0
                < es2.len() by {
                if i < acc.len() {
                    assert(acc2[i] == acc[i]);
                }
            }
            if acc_free(es, acc, x) && !spec_has_aexpr(es, p.0 as int, x) {
                assert forall|i: int| 0 <= i < acc2.len() implies !spec_has_aexpr(
                    es2,
                    (#[trigger] acc2[i]).1.0 as int,
                    x,
                ) by {
                    if i < acc.len() {
                        assert(acc2[i] == acc[i]);
                    }
                }
            }
        },
        Some(at) => {
            if acc[at].1 != p {
                assert(acc[at].1.0 < es.len());
                lemma_and_pushed(es, acc[at].1, p, x);
                assert forall|i: int| 0 <= i < acc2.len() implies (#[trigger] acc2[i]).1.0
                    < es2.len() by {
                    if i != at {
                        assert(acc2[i] == acc[i]);
                    }
                }
                if acc_free(es, acc, x) && !spec_has_aexpr(es, p.0 as int, x) {
                    assert forall|i: int| 0 <= i < acc2.len() implies !spec_has_aexpr(
                        es2,
                        (#[trigger] acc2[i]).1.0 as int,
                        x,
                    ) by {
                        if i != at {
                            assert(acc2[i] == acc[i]);
                            lemma_has_aexpr_stable(es, es2, acc[i].1.0 as int, x);
                        }
                    }
                }
            }
        },
    }
}

/// The predicates of an accumulator are valid and free of a property
/// if the accumulator is.
pub proof fn lemma_entry_nodes(es: Seq<AExprView>, acc: Entries, x: ExprTest)
    ensures
        forall|n: int| targets_below(acc, n) ==> #[trigger] nodes_valid(entry_nodes(acc), n),
        acc_free(es, acc, x) ==> nodes_free(es, entry_nodes(acc), x),
{
    assert forall|n: int| targets_below(acc, n) implies #[trigger] nodes_valid(
        entry_nodes(acc),
        n,
    ) by {
        assert forall|i: int| 0 <= i < entry_nodes(acc).len() implies (#[trigger] entry_nodes(
            acc,
        )[i]).0 < n by {
            assert(entry_nodes(acc)[i] == acc[i].1);
        }
    }
    if acc_free(es, acc, x) {
        assert forall|i: int| 0 <= i < entry_nodes(acc).len() implies !spec_has_aexpr(
            es,
            (#[trigger] entry_nodes(acc)[i]).0 as int,
            x,
        ) by {
            assert(entry_nodes(acc)[i] == acc[i].1);
        }
    }
}

/// Draining an accumulator onto a scan keeps the arena well formed,
/// and the predicate of the scan has a property only if an entry or
/// what the scan held has it.
pub proof fn lemma_predicate_at_scan_free(
    acc: Entries,
    existing: Option<Node>,
    es: Seq<AExprView>,
    x: ExprTest,
)
    requires
        wf_exprs(es),
        targets_below(acc, es.len() as int),
        existing matches Some(p) ==> p.0 < es.len(),
        fits(spec_predicate_at_scan(acc, existing, es).1),
    ensures
        wf_exprs(spec_predicate_at_scan(acc, existing, es).1),
        extends(es, spec_predicate_at_scan(acc, existing, es).1),
        spec_predicate_at_scan(acc, existing, es).0 matches Some(p) ==> p.0
            < spec_predicate_at_scan(acc, existing, es).1.len(),
        acc_free(es, acc, x) && (existing matches Some(p) ==> !spec_has_aexpr(es, p.0 as int, x))
            ==> (spec_predicate_at_scan(acc, existing, es).0 matches Some(p) ==> !spec_has_aexpr(
            spec_predicate_at_scan(acc, existing, es).1,
            p.0 as int,
            x,
        )),
{
    lemma_predicate_at_scan_extends(acc, existing, es);
    if acc.len() > 0 {
        lemma_entry_nodes(es, acc, x);
        lemma_combine_extends(entry_nodes(acc), es);
        lemma_combine_free(entry_nodes(acc), es, x);
        let (all, es1) = spec_combine_predicates(entry_nodes(acc), es);
        match existing {
            Some(p) => {
                lemma_and_pushed(es1, all, p, x);
                lemma_has_aexpr_stable(es, es1, p.0 as int, x);
            },
            None => {},
        }
    }
}

/// A selection from an accumulator is valid and free of a property if
/// the accumulator is; and what is selected as not meeting a test does
/// not have the property that is tested.
pub proof fn lemma_select_free(
    es: Seq<AExprView>,
    c: CriterionView,
    acc: Entries,
    want: bool,
    x: ExprTest,
)
    ensures
        forall|n: int|
            targets_below(acc, n) ==> #[trigger] targets_below(spec_select(es, c, acc, want), n),
        acc_free(es, acc, x) ==> acc_free(es, spec_select(es, c, acc, want), x),
        c == CriterionView::Test(x) && !want ==> acc_free(es, spec_select(es, c, acc, want), x),
{
    lemma_select(es, c, acc, want);
    let sel = spec_select(es, c, acc, want);
    if acc_free(es, acc, x) {
        assert forall|i: int| 0 <= i < sel.len() implies !spec_has_aexpr(
            es,
            (#[trigger] sel[i]).1.0 as int,
            x,
        ) by {
            let j = choose|j: int| 0 <= j < acc.len() && acc[j] == sel[i];
            assert(!spec_has_aexpr(es, acc[j].1.0 as int, x));
        }
    }
}

/// Rewriting an accumulator keeps the arena well formed and everything
/// valid. What comes out is free of a property if what went in was and
/// the rule guards against bringing in a dependence on other rows, or
/// the map binds nothing that has the property.
pub proof fn lemma_rewrite_free(
    acc: Entries,
    es: Seq<AExprView>,
    map: Seq<(Seq<char>, Node)>,
    rule: RewriteRuleView,
    x: ExprTest,
)
    requires
        wf_exprs(es),
        targets_below(acc, es.len() as int),
        targets_below(map, es.len() as int),
        fits(spec_rewrite_predicates(acc, es, map, rule).2),
    ensures
        wf_exprs(spec_rewrite_predicates(acc, es, map, rule).2),
        extends(es, spec_rewrite_predicates(acc, es, map, rule).2),
        targets_below(
            spec_rewrite_predicates(acc, es, map, rule).0,
            spec_rewrite_predicates(acc, es, map, rule).2.len() as int,
        ),
        nodes_valid(
            spec_rewrite_predicates(acc, es, map, rule).1,
            spec_rewrite_predicates(acc, es, map, rule).2.len() as int,
        ),
        acc_free(es, acc, x) ==> nodes_free(
            spec_rewrite_predicates(acc, es, map, rule).2,
            spec_rewrite_predicates(acc, es, map, rule).1,
            x,
        ),
        acc_free(es, acc, x) && (rule.guard_boundary || targets_free(es, map, x)) ==> acc_free(
            spec_rewrite_predicates(acc, es, map, rule).2,
            spec_rewrite_predicates(acc, es, map, rule).0,
            x,
        ),
        rule.reject_boundary && targets_free(es, map, ExprTest::PushdownBoundary) ==> acc_free(
            spec_rewrite_predicates(acc, es, map, rule).2,
            spec_rewrite_predicates(acc, es, map, rule).0,
            x,
        ),
    decreases acc.len(),
{
    let pb = ExprTest::PushdownBoundary;
    lemma_rewrite_extends(acc, es, map, rule);
    if acc.len() > 0 {
        let init = acc.drop_last();
        assert forall|i: int| 0 <= i < init.len() implies (#[trigger] init[i]).1.0 < es.len() by {
            assert(init[i] == acc[i]);
        }
        lemma_rewrite_extends(init, es, map, rule);
        let (out, local, es1) = spec_rewrite_predicates(init, es, map, rule);
        let p = acc.last().1;
        assert(acc.last() == acc[acc.len() - 1]);
        lemma_substitute_extends(es1, p.0 as int, map);
        let (p2, es2) = spec_substitute(es1, p.0 as int, map);
        let (out2, es3) = spec_insert_and_combine(out, p2, es2);
        assert(extends(es2, es3));
        lemma_rewrite_free(init, es, map, rule, x);
        lemma_substitute_free(es1, p.0 as int, map, x);
        lemma_substitute_free(es1, p.0 as int, map, pb);
        lemma_acc_stable(es1, es2, out, x);
        lemma_nodes_stable(es1, es2, local, x);
        lemma_has_aexpr_stable(es, es1, p.0 as int, x);
        lemma_has_aexpr_stable(es1, es2, p.0 as int, x);
        lemma_has_aexpr_stable(es, es1, p.0 as int, pb);
        lemma_has_aexpr_stable(es1, es2, p.0 as int, pb);
        if acc_free(es, acc, x) {
            assert(acc_free(es, init, x)) by {
                assert forall|i: int| 0 <= i < init.len() implies !spec_has_aexpr(
                    es,
                    (#[trigger] init[i]).1.0 as int,
                    x,
                ) by {
                    assert(init[i] == acc[i]);
                }
            }
        }
        assert(targets_free(es, map, x) ==> targets_free(es1, map, x)) by {
            if targets_free(es, map, x) {
                assert forall|i: int| 0 <= i < map.len() implies !spec_has_aexpr(
                    es1,
                    (#[trigger] map[i]).1.0 as int,
                    x,
                ) by {
                    lemma_has_aexpr_stable(es, es1, map[i].1.0 as int, x);
                }
            }
        }
        assert(targets_free(es, map, pb) ==> targets_free(es1, map, pb)) by {
            if targets_free(es, map, pb) {
                assert forall|i: int| 0 <= i < map.len() implies !spec_has_aexpr(
                    es1,
                    (#[trigger] map[i]).1.0 as int,
                    pb,
                ) by {
                    lemma_has_aexpr_stable(es, es1, map[i].1.0 as int, pb);
                }
            }
        }
        if spec_keeps(es2, p, p2, rule) {
            lemma_insert_free(out, p2, es2, x);
            lemma_nodes_stable(es2, es3, local, x);
            if spec_has_aexpr(es2, p2.0 as int, x) {
                lemma_has_implies_boundary(es2, p2.0 as int, x);
            }
        } else {
            let local2 = local.push(p);
            assert forall|i: int| 0 <= i < local2.len() implies (#[trigger] local2[i]).0
                < es2.len() by {
                if i < local.len() {
                    assert(local2[i] == local[i]);
                }
            }
            if acc_free(es, acc, x) {
                assert forall|i: int| 0 <= i < local2.len() implies !spec_has_aexpr(
                    es2,
                    (#[trigger] local2[i]).0 as int,
                    x,
                ) by {
                    if i < local.len() {
                        assert(local2[i] == local[i]);
                    }
                }
            }
        }
    }
}

/// A column has none of the properties.
pub proof fn lemma_column_free(es: Seq<AExprView>, h: int, x: ExprTest)
    requires
        0 <= h < es.len(),
        es[h] is Column,
    ensures
        !spec_has_aexpr(es, h, x),
{
    assert(es[h].nodes().len() == 0);
}

/// The map of a rename binds columns, which the arena then holds.
pub proof fn lemma_rename_map_free(
    es: Seq<AExprView>,
    existing: Seq<Seq<char>>,
    new: Seq<Seq<char>>,
    k: nat,
    x: ExprTest,
)
    requires
        wf_exprs(es),
        fits(spec_rename_map(es, existing, new, k).1),
    ensures
        wf_exprs(spec_rename_map(es, existing, new, k).1),
        extends(es, spec_rename_map(es, existing, new, k).1),
        targets_below(
            spec_rename_map(es, existing, new, k).0,
            spec_rename_map(es, existing, new, k).1.len() as int,
        ),
        targets_free(
            spec_rename_map(es, existing, new, k).1,
            spec_rename_map(es, existing, new, k).0,
            x,
        ),
    decreases k,
{
    lemma_rename_map_extends(es, existing, new, k);
    if k > 0 {
        lemma_rename_map_extends(es, existing, new, (k - 1) as nat);
        lemma_rename_map_free(es, existing, new, (k - 1) as nat, x);
        let (map, es1) = spec_rename_map(es, existing, new, (k - 1) as nat);
        let column = AExprView::Column(existing[k - 1]);
        assert(column.nodes().len() == 0);
        lemma_push_wf(es1, column);
        let (map2, es2) = spec_rename_map(es, existing, new, k);
        assert forall|i: int| 0 <= i < map2.len() implies (#[trigger] map2[i]).1.0 < es2.len()
            && !spec_has_aexpr(es2, map2[i].1.0 as int, x) by {
            if i < map.len() {
                assert(map2[i] == map[i]);
                lemma_has_aexpr_stable(es1, es2, map[i].1.0 as int, x);
            } else {
                lemma_column_free(es2, es1.len() as int, x);
            }
        }
    }
}

/// The predicates that a node of a plan holds: the predicate of a
/// filter, and what a scan evaluates itself.
pub open spec fn node_predicates(node: PlanView) -> Seq<Node> {
    match node {
        PlanView::Selection { .. }
        | PlanView::Scan { .. }
        | PlanView::DataFrameScan { .. }
        | PlanView::AnonymousScan { .. }
        | PlanView::PythonScan { .. } => node.exprs(),
        _ => seq![],
    }
}

/// Whether no predicate that a node of the plan holds has the property.
pub open spec fn free_of(es: Seq<AExprView>, t: PlanTree, x: ExprTest) -> bool
    decreases t,
{
    &&& nodes_free(es, node_predicates(t.node), x)
    &&& forall|k: int| 0 <= k < t.children.len() ==> free_of(es, #[trigger] t.children[k], x)
}

/// Whether every plan of the list is free of the property.
pub open spec fn forest_free(es: Seq<AExprView>, ts: Seq<PlanTree>, x: ExprTest) -> bool {
    forall|k: int| 0 <= k < ts.len() ==> free_of(es, #[trigger] ts[k], x)
}

/// What a step of the pass owes: a well-formed arena that holds what
/// it held, a plan that names only expressions of the arena, and a plan
/// free of the property if what went in was.
pub open spec fn step_ok(
    es: Seq<AExprView>,
    free_before: bool,
    res: (PlanTree, Seq<AExprView>),
    x: ExprTest,
) -> bool {
    &&& wf_exprs(res.1)
    &&& extends(es, res.1)
    &&& tree_exprs_below(res.0, res.1.len() as int)
    &&& (free_before ==> free_of(res.1, res.0, x))
}

/// A plan that is free of a property stays so when expressions are
/// added to the arena.
pub proof fn lemma_tree_stable(es: Seq<AExprView>, es2: Seq<AExprView>, t: PlanTree, x: ExprTest)
    requires
        extends(es, es2),
        tree_exprs_below(t, es.len() as int),
    ensures
        tree_exprs_below(t, es2.len() as int),
        free_of(es, t, x) ==> free_of(es2, t, x),
    decreases t,
{
    lemma_exprs_below_grows(t, es.len() as int, es2.len() as int);
    if free_of(es, t, x) {
        assert(nodes_valid(node_predicates(t.node), es.len() as int)) by {
            assert forall|i: int| 0 <= i < node_predicates(t.node).len() implies (
            #[trigger] node_predicates(t.node)[i]).0 < es.len() by {
                assert(node_predicates(t.node)[i] == t.node.exprs()[i]);
            }
        }
        lemma_nodes_stable(es, es2, node_predicates(t.node), x);
        assert forall|k: int| 0 <= k < t.children.len() implies free_of(
            es2,
            #[trigger] t.children[k],
            x,
        ) by {
            lemma_tree_stable(es, es2, t.children[k], x);
        }
    }
}

/// A filter above a plan has a property only if the plan or one of the
/// predicates of the filter has it.
pub proof fn lemma_apply_free(t: PlanTree, local: Seq<Node>, es: Seq<AExprView>, x: ExprTest)
    requires
        wf_exprs(es),
        tree_exprs_below(t, es.len() as int),
        nodes_valid(local, es.len() as int),
        fits(spec_optional_apply_predicate(t, local, es).1),
    ensures
        step_ok(
            es,
            free_of(es, t, x) && nodes_free(es, local, x),
            spec_optional_apply_predicate(t, local, es),
            x,
        ),
{
    if local.len() > 0 {
        lemma_combine_free(local, es, x);
        let (p, es1) = spec_combine_predicates(local, es);
        let wrapped = PlanTree { node: selection_of(p), children: seq![t] };
        lemma_tree_stable(es, es1, t, x);
        assert(selection_of(p).exprs() =~= seq![p]);
        assert forall|k: int| 0 <= k < wrapped.children.len() implies tree_exprs_below(
            #[trigger] wrapped.children[k],
            es1.len() as int,
        ) by {
            assert(wrapped.children[k] == t);
        }
        if free_of(es, t, x) && nodes_free(es, local, x) {
            assert forall|k: int| 0 <= k < wrapped.children.len() implies free_of(
                es1,
                #[trigger] wrapped.children[k],
                x,
            ) by {
                assert(wrapped.children[k] == t);
            }
        }
    }
}

/// What a projection defines is in the arena.
pub proof fn lemma_projection_map_valid(es: Seq<AExprView>, exprs: Seq<Node>)
    requires
        wf_exprs(es),
        nodes_valid(exprs, es.len() as int),
    ensures
        targets_below(spec_projection_map(es, exprs), es.len() as int),
    decreases exprs.len(),
{
    if exprs.len() > 0 {
        let init = exprs.drop_last();
        assert forall|i: int| 0 <= i < init.len() implies (#[trigger] init[i]).0 < es.len() by {
            assert(init[i] == exprs[i]);
        }
        lemma_projection_map_valid(es, init);
        let rest = spec_projection_map(es, init);
        let h = exprs.last();
        assert(h == exprs[exprs.len() - 1]);
        let map = spec_projection_map(es, exprs);
        assert(es[h.0 as int].inputs_below(h.0 as int));
        assert forall|i: int| 0 <= i < map.len() implies (#[trigger] map[i]).1.0 < es.len() by {
            if i < rest.len() {
                assert(map[i] == rest[i]);
            } else {
                match es[h.0 as int] {
                    AExprView::Alias(inner, _) => {
                        assert(es[h.0 as int].nodes()[0] == inner);
                    },
                    _ => {},
                }
            }
        }
    }
}

/// The expressions that are kept are among those that were there.
pub proof fn lemma_valid_exprs_valid(
    es: Seq<AExprView>,
    exprs: Seq<Node>,
    schema: Seq<Seq<char>>,
    n: int,
)
    requires
        nodes_valid(exprs, n),
    ensures
        nodes_valid(spec_valid_exprs(es, exprs, schema), n),
    decreases exprs.len(),
{
    if exprs.len() > 0 {
        let init = exprs.drop_last();
        assert forall|i: int| 0 <= i < init.len() implies (#[trigger] init[i]).0 < n by {
            assert(init[i] == exprs[i]);
        }
        lemma_valid_exprs_valid(es, init, schema, n);
        let rest = spec_valid_exprs(es, init, schema);
        let out = spec_valid_exprs(es, exprs, schema);
        assert(exprs.last() == exprs[exprs.len() - 1]);
        assert forall|i: int| 0 <= i < out.len() implies (#[trigger] out[i]).0 < n by {
            if i < rest.len() {
                assert(out[i] == rest[i]);
            }
        }
    }
}

/// The predicates that the inputs of a node cannot evaluate are
/// predicates of the accumulator.
pub proof fn lemma_schema_local_free(
    children: Seq<PlanTree>,
    acc: Entries,
    es: Seq<AExprView>,
    x: ExprTest,
)
    ensures
        forall|n: int|
            targets_below(acc, n) ==> #[trigger] nodes_valid(
                spec_schema_local(children, acc, es),
                n,
            ),
        acc_free(es, acc, x) ==> nodes_free(es, spec_schema_local(children, acc, es), x),
    decreases children.len(),
{
    if children.len() > 0 {
        lemma_schema_local_free(children.drop_last(), acc, es, x);
        let c = CriterionView::NotIn(tree_schema(children.last()));
        lemma_select_free(es, c, acc, true, x);
        lemma_entry_nodes(es, spec_leaving(es, c, acc), x);
        let rest = spec_schema_local(children.drop_last(), acc, es);
        let here = entry_nodes(spec_leaving(es, c, acc));
        let all = spec_schema_local(children, acc, es);
        assert forall|n: int| targets_below(acc, n) implies #[trigger] nodes_valid(all, n) by {
            assert(nodes_valid(rest, n));
            assert(targets_below(spec_leaving(es, c, acc), n));
            assert(nodes_valid(here, n));
            assert forall|i: int| 0 <= i < all.len() implies (#[trigger] all[i]).0 < n by {
                if i < rest.len() {
                    assert(all[i] == rest[i]);
                } else {
                    assert(all[i] == here[i - rest.len()]);
                }
            }
        }
        if acc_free(es, acc, x) {
            assert forall|i: int| 0 <= i < all.len() implies !spec_has_aexpr(
                es,
                (#[trigger] all[i]).0 as int,
                x,
            ) by {
                if i < rest.len() {
                    assert(all[i] == rest[i]);
                } else {
                    assert(all[i] == here[i - rest.len()]);
                }
            }
        }
    }
}

/// Whether every accumulator of the list is valid for an arena of `n`
/// expressions.
pub open spec fn accs_below(accs: Seq<Option<Entries>>, n: int) -> bool {
    forall|k: int|
        0 <= k < accs.len() ==> ((#[trigger] accs[k]) matches Some(a) ==> targets_below(a, n))
}

/// Whether every accumulator of the list is free of the property.
pub open spec fn accs_free(es: Seq<AExprView>, accs: Seq<Option<Entries>>, x: ExprTest) -> bool {
    forall|k: int|
        0 <= k < accs.len() ==> ((#[trigger] accs[k]) matches Some(a) ==> acc_free(es, a, x))
}

/// What a step of the pass on a list of plans owes.
pub open spec fn steps_ok(
    es: Seq<AExprView>,
    n: nat,
    free_before: bool,
    res: (Seq<PlanTree>, Seq<AExprView>),
    x: ExprTest,
) -> bool {
    &&& wf_exprs(res.1)
    &&& extends(es, res.1)
    &&& res.0.len() == n
    &&& forest_exprs_below(res.0, res.1.len() as int)
    &&& (free_before ==> forest_free(res.1, res.0, x))
}

/// The pass on a list of plans keeps them free of a property that
/// neither they nor their accumulators have.
pub proof fn lemma_push_inputs_free(
    children: Seq<PlanTree>,
    accs: Seq<Option<Entries>>,
    es: Seq<AExprView>,
    x: ExprTest,
)
    requires
        wf_exprs(es),
        forest_exprs_below(children, es.len() as int),
        forall|k: int| 0 <= k < children.len() ==> tree_shaped(#[trigger] children[k]),
        accs.len() >= children.len(),
        accs_below(accs, es.len() as int),
        fits(spec_push_inputs(children, accs, es).1),
    ensures
        steps_ok(
            es,
            children.len(),
            forest_free(es, children, x) && accs_free(es, accs, x),
            spec_push_inputs(children, accs, es),
            x,
        ),
    decreases children, 0nat,
{
    if children.len() > 0 {
        let init = children.drop_last();
        let last = children.last();
        assert(last == children[children.len() - 1]);
        assert forall|k: int| 0 <= k < init.len() implies tree_exprs_below(
            #[trigger] init[k],
            es.len() as int,
        ) && tree_shaped(init[k]) by {
            assert(init[k] == children[k]);
        }
        let (done, es1) = spec_push_inputs(init, accs, es);
        let at = children.len() - 1;
        // the arena after the plans before the last fits too
        match accs[at] {
            Some(acc) => {
                crate::predicate_pushdown::laws::lemma_push_down_extends(last, acc, es1);
            },
            None => {},
        }
        lemma_push_inputs_free(init, accs, es, x);
        let free_before = forest_free(es, children, x) && accs_free(es, accs, x);
        if free_before {
            assert(forest_free(es, init, x)) by {
                assert forall|k: int| 0 <= k < init.len() implies free_of(
                    es,
                    #[trigger] init[k],
                    x,
                ) by {
                    assert(init[k] == children[k]);
                }
            }
        }
        lemma_tree_stable(es, es1, last, x);
        let out = spec_push_inputs(children, accs, es);
        match accs[at] {
            Some(acc) => {
                lemma_acc_stable(es, es1, acc, x);
                lemma_push_down_free(last, acc, es1, x);
                let (c, es2) = spec_push_down(last, acc, es1);
                assert(out.0 == done.push(c));
                assert forall|k: int| 0 <= k < out.0.len() implies tree_exprs_below(
                    #[trigger] out.0[k],
                    es2.len() as int,
                ) by {
                    if k < done.len() {
                        assert(out.0[k] == done[k]);
                        lemma_exprs_below_grows(done[k], es1.len() as int, es2.len() as int);
                    }
                }
                if free_before {
                    assert forall|k: int| 0 <= k < out.0.len() implies free_of(
                        es2,
                        #[trigger] out.0[k],
                        x,
                    ) by {
                        if k < done.len() {
                            assert(out.0[k] == done[k]);
                            lemma_tree_stable(es1, es2, done[k], x);
                        }
                    }
                }
            },
            None => {
                assert(out.0 == done.push(last));
                assert forall|k: int| 0 <= k < out.0.len() implies tree_exprs_below(
                    #[trigger] out.0[k],
                    es1.len() as int,
                ) by {
                    if k < done.len() {
                        assert(out.0[k] == done[k]);
                    }
                }
                if free_before {
                    assert forall|k: int| 0 <= k < out.0.len() implies free_of(
                        es1,
                        #[trigger] out.0[k],
                        x,
                    ) by {
                        if k < done.len() {
                            assert(out.0[k] == done[k]);
                        }
                    }
                }
            },
        }
    }
}

/// The plans of the inputs of a node, under the node, are a plan that
/// names the expressions that they and the node name, and that holds
/// the predicates that they and the node hold.
pub proof fn lemma_node_over(
    es: Seq<AExprView>,
    node: PlanView,
    kids: Seq<PlanTree>,
    x: ExprTest,
)
    requires
        nodes_valid(node.exprs(), es.len() as int),
        forest_exprs_below(kids, es.len() as int),
    ensures
        tree_exprs_below(PlanTree { node, children: kids }, es.len() as int),
        nodes_free(es, node_predicates(node), x) && forest_free(es, kids, x) ==> free_of(
            es,
            PlanTree { node, children: kids },
            x,
        ),
{
    let t = PlanTree { node, children: kids };
    assert forall|k: int| 0 <= k < t.children.len() implies tree_exprs_below(
        #[trigger] t.children[k],
        es.len() as int,
    ) by {
        assert(t.children[k] == kids[k]);
    }
    if nodes_free(es, node_predicates(node), x) && forest_free(es, kids, x) {
        assert forall|k: int| 0 <= k < t.children.len() implies free_of(
            es,
            #[trigger] t.children[k],
            x,
        ) by {
            assert(t.children[k] == kids[k]);
        }
    }
}

/// What a plan names and holds at its root and in its inputs.
pub proof fn lemma_tree_parts(es: Seq<AExprView>, t: PlanTree, x: ExprTest)
    requires
        tree_exprs_below(t, es.len() as int),
    ensures
        nodes_valid(t.node.exprs(), es.len() as int),
        forest_exprs_below(t.children, es.len() as int),
        free_of(es, t, x) ==> nodes_free(es, node_predicates(t.node), x) && forest_free(
            es,
            t.children,
            x,
        ),
{
}


/// A rename keeps everything valid, and a property out of what it
/// hands on if the accumulator did not have it.
pub proof fn lemma_process_rename_free(
    acc: Entries,
    es: Seq<AExprView>,
    existing: Seq<Seq<char>>,
    new: Seq<Seq<char>>,
    input_schema: Seq<Seq<char>>,
    x: ExprTest,
)
    requires
        wf_exprs(es),
        targets_below(acc, es.len() as int),
        fits(spec_process_rename(acc, es, existing, new, input_schema).2),
    ensures
        wf_exprs(spec_process_rename(acc, es, existing, new, input_schema).2),
        extends(es, spec_process_rename(acc, es, existing, new, input_schema).2),
        targets_below(
            spec_process_rename(acc, es, existing, new, input_schema).0,
            spec_process_rename(acc, es, existing, new, input_schema).2.len() as int,
        ),
        nodes_valid(
            spec_process_rename(acc, es, existing, new, input_schema).1,
            spec_process_rename(acc, es, existing, new, input_schema).2.len() as int,
        ),
        acc_free(es, acc, x) ==> acc_free(
            spec_process_rename(acc, es, existing, new, input_schema).2,
            spec_process_rename(acc, es, existing, new, input_schema).0,
            x,
        ) && nodes_free(
            spec_process_rename(acc, es, existing, new, input_schema).2,
            spec_process_rename(acc, es, existing, new, input_schema).1,
            x,
        ),
{
    lemma_process_rename_extends(acc, es, existing, new, input_schema);
    if acc.len() > 0 {
        let k = pair_count(existing, new);
        let (map, es1) = spec_rename_map(es, existing, new, k);
        lemma_rename_map_extends(es, existing, new, k);
        lemma_rewrite_extends(acc, es1, map, rename_rule(input_schema));
        lemma_rename_map_free(es, existing, new, k, x);
        lemma_acc_stable(es, es1, acc, x);
        lemma_rewrite_free(acc, es1, map, rename_rule(input_schema), x);
    }
}

/// A join keeps everything valid and hands to its inputs nothing that
/// depends on other rows.
pub proof fn lemma_join_partition_free(
    acc: Entries,
    es: Seq<AExprView>,
    how: JoinType,
    schema_left: Seq<Seq<char>>,
    schema_right: Seq<Seq<char>>,
    left_on: Seq<Node>,
    right_on: Seq<Node>,
    x: ExprTest,
)
    requires
        wf_exprs(es),
        targets_below(acc, es.len() as int),
    ensures
        ({
            let (left, right, local) = spec_join_partition(
                acc,
                es,
                how,
                schema_left,
                schema_right,
                left_on,
                right_on,
            );
            &&& targets_below(left, es.len() as int)
            &&& targets_below(right, es.len() as int)
            &&& nodes_valid(local, es.len() as int)
            &&& acc_free(es, left, x)
            &&& acc_free(es, right, x)
            &&& (acc_free(es, acc, x) ==> nodes_free(es, local, x))
        }),
{
    let (left, right, local) = spec_join_partition(
        acc,
        es,
        how,
        schema_left,
        schema_right,
        left_on,
        right_on,
    );
    let to_left = CriterionView::OneSide { own: schema_left, other: schema_right };
    let to_right = CriterionView::OneSide {
        own: schema_right,
        other: not_for_right(es, how, schema_left, left_on, right_on),
    };
    lemma_select(es, to_left, acc, true);
    lemma_select_free(es, to_left, acc, true, x);
    lemma_select_free(es, to_left, acc, false, x);
    let rest = if pushes_left(how) {
        spec_staying(es, to_left, acc)
    } else {
        acc
    };
    assert(acc_free(es, left, x)) by {
        assert forall|i: int| 0 <= i < left.len() implies !spec_has_aexpr(
            es,
            (#[trigger] left[i]).1.0 as int,
            x,
        ) by {
            if spec_has_aexpr(es, left[i].1.0 as int, x) {
                lemma_has_implies_boundary(es, left[i].1.0 as int, x);
            }
        }
    }
    lemma_select(es, to_right, rest, true);
    lemma_select_free(es, to_right, rest, true, x);
    lemma_select_free(es, to_right, rest, false, x);
    assert(acc_free(es, right, x)) by {
        assert forall|i: int| 0 <= i < right.len() implies !spec_has_aexpr(
            es,
            (#[trigger] right[i]).1.0 as int,
            x,
        ) by {
            if spec_has_aexpr(es, right[i].1.0 as int, x) {
                lemma_has_implies_boundary(es, right[i].1.0 as int, x);
            }
        }
    }
    if pushes_right(how) {
        lemma_entry_nodes(es, spec_staying(es, to_right, rest), x);
    } else {
        lemma_entry_nodes(es, rest, x);
    }
}

/// A scan that takes predicates keeps everything valid, and a property
/// out of the plan if neither it nor the accumulator had it.
pub proof fn lemma_at_scan_free(
    node: PlanView,
    existing: Option<Node>,
    acc: Entries,
    es: Seq<AExprView>,
    x: ExprTest,
)
    requires
        node is Scan || node is AnonymousScan,
        existing == crate::alp::seq_opt(node.exprs()),
        wf_exprs(es),
        targets_below(acc, es.len() as int),
        nodes_valid(node.exprs(), es.len() as int),
        fits(spec_at_scan(node, existing, acc, es).1),
    ensures
        step_ok(
            es,
            nodes_free(es, node.exprs(), x) && acc_free(es, acc, x),
            spec_at_scan(node, existing, acc, es),
            x,
        ),
{
    let c = CriterionView::Test(ExprTest::FullContext);
    let staying = spec_staying(es, c, acc);
    let leaving = spec_leaving(es, c, acc);
    crate::predicate_pushdown::laws::lemma_at_scan_extends(node, existing, acc, es);
    lemma_predicate_at_scan_extends(staying, existing, es);
    let (pred, es1) = spec_predicate_at_scan(staying, existing, es);
    lemma_combine_extends(entry_nodes(leaving), es1);
    lemma_select_free(es, c, acc, false, x);
    lemma_select_free(es, c, acc, true, x);
    if existing is Some {
        assert(node.exprs()[0] == existing.unwrap());
    }
    lemma_predicate_at_scan_free(staying, existing, es, x);
    let scan = match (pred, node) {
        (Some(p), PlanView::Scan { scan_type: FileScan::Csv, .. }) => PlanTree {
            node: selection_of(p),
            children: seq![leaf(node.with_exprs(seq![]))],
        },
        _ => leaf(node.with_exprs(crate::alp::opt_seq(pred))),
    };
    let free_before = nodes_free(es, node.exprs(), x) && acc_free(es, acc, x);
    assert(tree_exprs_below(scan, es1.len() as int) && (free_before ==> free_of(es1, scan, x))) by {
        match (pred, node) {
            (Some(p), PlanView::Scan { scan_type: FileScan::Csv, .. }) => {
                let inner = leaf(node.with_exprs(seq![]));
                assert(node.with_exprs(seq![]).exprs() =~= Seq::<Node>::empty());
                assert(selection_of(p).exprs() =~= seq![p]);
                assert(tree_exprs_below(inner, es1.len() as int));
                assert(free_of(es1, inner, x));
                assert forall|k: int| 0 <= k < scan.children.len() implies tree_exprs_below(
                    #[trigger] scan.children[k],
                    es1.len() as int,
                ) && free_of(es1, scan.children[k], x) by {
                    assert(scan.children[k] == inner);
                }
            },
            _ => {
                assert(node.with_exprs(crate::alp::opt_seq(pred)).exprs() =~= crate::alp::opt_seq(
                    pred,
                ));
            },
        }
    }
    lemma_entry_nodes(es, leaving, x);
    lemma_nodes_stable(es, es1, entry_nodes(leaving), x);
    lemma_apply_free(scan, entry_nodes(leaving), es1, x);
}

/// A node that lets no predicate pass keeps a property out of the plan
/// if neither the plan nor the accumulator had it.
pub proof fn lemma_no_pushdown_free(t: PlanTree, acc: Entries, es: Seq<AExprView>, x: ExprTest)
    requires
        wf_exprs(es),
        targets_below(acc, es.len() as int),
        tree_exprs_below(t, es.len() as int),
        tree_shaped(t),
        fits(spec_no_pushdown_restart_opt(t, acc, es).1),
    ensures
        step_ok(
            es,
            free_of(es, t, x) && acc_free(es, acc, x),
            spec_no_pushdown_restart_opt(t, acc, es),
            x,
        ),
    decreases t, 1nat,
{
    let accs = Seq::new(t.children.len(), |i: int| Some(Seq::<(Seq<char>, Node)>::empty()));
    let (kids, es1) = spec_push_inputs(t.children, accs, es);
    crate::predicate_pushdown::laws::lemma_push_inputs_extends(t.children, accs, es);
    lemma_combine_extends(entry_nodes(acc), es1);
    lemma_tree_parts(es, t, x);
    lemma_push_inputs_free(t.children, accs, es, x);
    lemma_nodes_stable(es, es1, t.node.exprs(), x);
    lemma_node_predicates_stable(es, es1, t.node, x);
    lemma_node_over(es1, t.node, kids, x);
    lemma_entry_nodes(es, acc, x);
    lemma_nodes_stable(es, es1, entry_nodes(acc), x);
    lemma_apply_free(PlanTree { node: t.node, children: kids }, entry_nodes(acc), es1, x);
}

/// The predicates of a node stay free of a property when expressions
/// are added to the arena.
pub proof fn lemma_node_predicates_stable(
    es: Seq<AExprView>,
    es2: Seq<AExprView>,
    node: PlanView,
    x: ExprTest,
)
    requires
        extends(es, es2),
        nodes_valid(node.exprs(), es.len() as int),
    ensures
        nodes_free(es, node_predicates(node), x) ==> nodes_free(es2, node_predicates(node), x),
{
    assert(nodes_valid(node_predicates(node), es.len() as int)) by {
        assert forall|i: int| 0 <= i < node_predicates(node).len() implies (
        #[trigger] node_predicates(node)[i]).0 < es.len() by {
            assert(node_predicates(node)[i] == node.exprs()[i]);
        }
    }
    lemma_nodes_stable(es, es2, node_predicates(node), x);
}

/// A node that lets predicates pass keeps a property out of the plan
/// if neither the plan nor the accumulator had it.
pub proof fn lemma_continue_free(
    t: PlanTree,
    acc: Entries,
    es: Seq<AExprView>,
    has_projections: bool,
    x: ExprTest,
)
    requires
        wf_exprs(es),
        targets_below(acc, es.len() as int),
        tree_exprs_below(t, es.len() as int),
        tree_shaped(t),
        fits(spec_pushdown_and_continue(t, acc, es, has_projections).1),
    ensures
        step_ok(
            es,
            free_of(es, t, x) && acc_free(es, acc, x),
            spec_pushdown_and_continue(t, acc, es, has_projections),
            x,
        ),
    decreases t, 2nat,
{
    lemma_tree_parts(es, t, x);
    if has_projections {
        if spec_any_has(es, t.node.exprs(), ExprTest::ProjectionBoundary) {
            lemma_no_pushdown_free(t, acc, es, x);
        } else {
            let n = t.children.len();
            let map = spec_projection_map(es, t.node.exprs());
            let rule = projection_rule(t.node, es, tree_schema(t.children.last()));
            let (acc1, local, es1) = spec_rewrite_projection_node(
                t.node,
                acc,
                es,
                tree_schema(t.children.last()),
            );
            let accs = Seq::new(
                n,
                |i: int|
                    if i == n - 1 {
                        Some(acc1)
                    } else {
                        None
                    },
            );
            let (kids, es2) = spec_push_inputs(t.children, accs, es1);
            lemma_rewrite_extends(acc, es, map, rule);
            crate::predicate_pushdown::laws::lemma_push_inputs_extends(t.children, accs, es1);
            lemma_combine_extends(local, es2);
            lemma_projection_map_valid(es, t.node.exprs());
            lemma_rewrite_free(acc, es, map, rule, x);
            assert forall|k: int| 0 <= k < t.children.len() implies tree_exprs_below(
                #[trigger] t.children[k],
                es1.len() as int,
            ) && (free_of(es, t.children[k], x) ==> free_of(es1, t.children[k], x)) by {
                lemma_tree_stable(es, es1, t.children[k], x);
            }
            lemma_push_inputs_free(t.children, accs, es1, x);
            lemma_nodes_stable(es, es2, t.node.exprs(), x);
            lemma_node_predicates_stable(es, es2, t.node, x);
            lemma_node_over(es2, t.node, kids, x);
            lemma_nodes_stable(es1, es2, local, x);
            lemma_apply_free(PlanTree { node: t.node, children: kids }, local, es2, x);
        }
    } else {
        let accs = spec_schema_accs(t.children, acc, es);
        let local = spec_schema_local(t.children, acc, es);
        let (kids, es1) = spec_push_inputs(t.children, accs, es);
        crate::predicate_pushdown::laws::lemma_push_inputs_extends(t.children, accs, es);
        lemma_combine_extends(local, es1);
        assert(accs_below(accs, es.len() as int) && (acc_free(es, acc, x) ==> accs_free(
            es,
            accs,
            x,
        ))) by {
            assert forall|k: int| 0 <= k < accs.len() implies ((#[trigger] accs[k]) matches Some(
                a,
            ) ==> targets_below(a, es.len() as int) && (acc_free(es, acc, x) ==> acc_free(
                es,
                a,
                x,
            ))) by {
                lemma_select_free(
                    es,
                    CriterionView::NotIn(tree_schema(t.children[k])),
                    acc,
                    false,
                    x,
                );
            }
        }
        lemma_push_inputs_free(t.children, accs, es, x);
        lemma_nodes_stable(es, es1, t.node.exprs(), x);
        lemma_node_predicates_stable(es, es1, t.node, x);
        lemma_node_over(es1, t.node, kids, x);
        lemma_schema_local_free(t.children, acc, es, x);
        lemma_nodes_stable(es, es1, local, x);
        lemma_apply_free(PlanTree { node: t.node, children: kids }, local, es1, x);
    }
}

/// A node that holds some predicates back keeps a property out of the
/// plan if neither the plan nor the accumulator had it.
pub proof fn lemma_hold_back_free(
    t: PlanTree,
    acc: Entries,
    es: Seq<AExprView>,
    c: CriterionView,
    x: ExprTest,
)
    requires
        wf_exprs(es),
        targets_below(acc, es.len() as int),
        tree_exprs_below(t, es.len() as int),
        tree_shaped(t),
        fits(spec_hold_back(t, acc, es, c).1),
    ensures
        step_ok(es, free_of(es, t, x) && acc_free(es, acc, x), spec_hold_back(t, acc, es, c), x),
    decreases t, 3nat,
{
    let staying = spec_staying(es, c, acc);
    let leaving = spec_leaving(es, c, acc);
    let (t1, es1) = spec_pushdown_and_continue(t, staying, es, false);
    crate::predicate_pushdown::laws::lemma_continue_extends(t, staying, es, false);
    lemma_combine_extends(entry_nodes(leaving), es1);
    lemma_select_free(es, c, acc, false, x);
    lemma_select_free(es, c, acc, true, x);
    lemma_continue_free(t, staying, es, false, x);
    lemma_entry_nodes(es, leaving, x);
    lemma_nodes_stable(es, es1, entry_nodes(leaving), x);
    lemma_apply_free(t1, entry_nodes(leaving), es1, x);
}

/// Freedom of a property is kept at a filter.
pub proof fn lemma_selection_free(t: PlanTree, acc: Entries, es: Seq<AExprView>, x: ExprTest)
    requires
        wf_exprs(es),
        targets_below(acc, es.len() as int),
        tree_exprs_below(t, es.len() as int),
        tree_shaped(t),
        fits(spec_push_down(t, acc, es).1),
        t.node is Selection,
    ensures
        step_ok(es, free_of(es, t, x) && acc_free(es, acc, x), spec_push_down(t, acc, es), x),
    decreases t, 4nat,
{
    let free_before = free_of(es, t, x) && acc_free(es, acc, x);
    lemma_tree_parts(es, t, x);
    match t.node {
        PlanView::Selection { predicate, .. } => {
            let c = CriterionView::Test(ExprTest::PushdownBoundary);
            let staying = spec_staying(es, c, acc);
            let leaving = spec_leaving(es, c, acc);
            let (acc1, es1) = spec_insert_and_combine(staying, predicate, es);
            let accs = seq![Some(acc1)];
            let (kids, es2) = spec_push_inputs(t.children, accs, es1);
            assert(extends(es, es1));
            crate::predicate_pushdown::laws::lemma_push_inputs_extends(t.children, accs, es1);
            lemma_combine_extends(entry_nodes(leaving), es2);
            assert(t.node.exprs()[0] == predicate);
            assert(node_predicates(t.node)[0] == predicate);
            lemma_select_free(es, c, acc, false, x);
            lemma_select_free(es, c, acc, true, x);
            lemma_insert_free(staying, predicate, es, x);
            assert forall|k: int| 0 <= k < t.children.len() implies tree_exprs_below(
                #[trigger] t.children[k],
                es1.len() as int,
            ) && (free_of(es, t.children[k], x) ==> free_of(es1, t.children[k], x)) by {
                lemma_tree_stable(es, es1, t.children[k], x);
            }
            lemma_push_inputs_free(t.children, accs, es1, x);
            lemma_entry_nodes(es, leaving, x);
            lemma_nodes_stable(es, es2, entry_nodes(leaving), x);
            assert(kids.len() == 1);
            lemma_apply_free(kids[0], entry_nodes(leaving), es2, x);
        },
        _ => {},
    }
}

/// Freedom of a property is kept at a scan.
pub proof fn lemma_scans_free(t: PlanTree, acc: Entries, es: Seq<AExprView>, x: ExprTest)
    requires
        wf_exprs(es),
        targets_below(acc, es.len() as int),
        tree_exprs_below(t, es.len() as int),
        tree_shaped(t),
        fits(spec_push_down(t, acc, es).1),
        t.node is DataFrameScan || t.node is Scan || t.node is AnonymousScan || t.node is PythonScan,
    ensures
        step_ok(es, free_of(es, t, x) && acc_free(es, acc, x), spec_push_down(t, acc, es), x),
    decreases t, 4nat,
{
    let free_before = free_of(es, t, x) && acc_free(es, acc, x);
    lemma_tree_parts(es, t, x);
    match t.node {
        PlanView::DataFrameScan { selection, .. } => {
            if selection is Some {
                assert(t.node.exprs()[0] == selection.unwrap());
                assert(node_predicates(t.node)[0] == selection.unwrap());
            }
            lemma_predicate_at_scan_free(acc, selection, es, x);
            let (pred, es1) = spec_predicate_at_scan(acc, selection, es);
            let node = t.node.with_exprs(crate::alp::opt_seq(pred));
            assert(node.exprs() =~= crate::alp::opt_seq(pred));
        },
        PlanView::Scan { predicate, .. } => {
            lemma_at_scan_free(t.node, predicate, acc, es, x);
        },
        PlanView::AnonymousScan { allows_predicate_pushdown, predicate, .. } => {
            if allows_predicate_pushdown {
                lemma_at_scan_free(t.node, predicate, acc, es, x);
            } else {
                lemma_no_pushdown_free(t, acc, es, x);
            }
        },
        PlanView::PythonScan { schema, pyarrow, pushed_predicate, predicate } => {
            if pyarrow {
                if predicate is Some {
                    assert(t.node.exprs()[0] == predicate.unwrap());
                    assert(node_predicates(t.node)[0] == predicate.unwrap());
                }
                lemma_predicate_at_scan_extends(acc, predicate, es);
                let (pred, es1) = spec_predicate_at_scan(acc, predicate, es);
                match pred {
                    Some(p) => {
                        lemma_combine_extends(seq![p], es1);
                        lemma_predicate_at_scan_free(acc, predicate, es, x);
                        let bare = leaf(t.node.with_exprs(seq![]));
                        assert(t.node.with_exprs(seq![]).exprs() =~= Seq::<Node>::empty());
                        assert(tree_exprs_below(bare, es1.len() as int));
                        assert(free_of(es1, bare, x));
                        let text = PlanView::PythonScan {
                            schema,
                            pyarrow,
                            pushed_predicate: crate::pyarrow::spec_predicate_to_pa(
                                es1,
                                p.0 as int,
                            ),
                            predicate: None,
                        };
                        assert(text.exprs() =~= Seq::<Node>::empty());
                        lemma_apply_free(bare, seq![p], es1, x);
                    },
                    None => {
                        lemma_predicate_at_scan_free(acc, predicate, es, x);
                    },
                }
            } else {
                lemma_no_pushdown_free(t, acc, es, x);
            }
        },
        _ => {},
    }
}

/// Freedom of a property is kept at a local projection.
pub proof fn lemma_local_projection_free(t: PlanTree, acc: Entries, es: Seq<AExprView>, x: ExprTest)
    requires
        wf_exprs(es),
        targets_below(acc, es.len() as int),
        tree_exprs_below(t, es.len() as int),
        tree_shaped(t),
        fits(spec_push_down(t, acc, es).1),
        t.node is LocalProjection,
    ensures
        step_ok(es, free_of(es, t, x) && acc_free(es, acc, x), spec_push_down(t, acc, es), x),
    decreases t, 4nat,
{
    let free_before = free_of(es, t, x) && acc_free(es, acc, x);
    lemma_tree_parts(es, t, x);
    match t.node {
        PlanView::LocalProjection { expr, .. } => {
            let accs = seq![Some(acc)];
            let (kids, es1) = spec_push_inputs(t.children, accs, es);
            lemma_push_inputs_free(t.children, accs, es, x);
            let kept = spec_valid_exprs(es1, expr, tree_schema(kids[0]));
            assert(t.node.exprs() == expr);
            lemma_valid_exprs_valid(es1, expr, tree_schema(kids[0]), es.len() as int);
            lemma_nodes_stable(es, es1, kept, x);
            let node = PlanView::LocalProjection {
                expr: kept,
                input: Node(0),
                schema: crate::predicate_pushdown::utils::spec_output_names(es1, kept),
            };
            lemma_node_over(es1, node, kids, x);
        },
        _ => {},
    }
}

/// Freedom of a property is kept at a distinct.
pub proof fn lemma_distinct_free(t: PlanTree, acc: Entries, es: Seq<AExprView>, x: ExprTest)
    requires
        wf_exprs(es),
        targets_below(acc, es.len() as int),
        tree_exprs_below(t, es.len() as int),
        tree_shaped(t),
        fits(spec_push_down(t, acc, es).1),
        t.node is Distinct,
    ensures
        step_ok(es, free_of(es, t, x) && acc_free(es, acc, x), spec_push_down(t, acc, es), x),
    decreases t, 4nat,
{
    let free_before = free_of(es, t, x) && acc_free(es, acc, x);
    lemma_tree_parts(es, t, x);
    match t.node {
        PlanView::Distinct { keep_strategy, .. } => {
            if keep_strategy is Any || keep_strategy is Neither {
                let c1 = CriterionView::MultiRoot;
                let c2 = CriterionView::Test(ExprTest::PushdownBoundary);
                let acc1 = spec_staying(es, c1, acc);
                let l1 = entry_nodes(spec_leaving(es, c1, acc));
                let l2 = entry_nodes(spec_leaving(es, c2, acc1));
                let local = l1 + l2;
                let accs = seq![Some(spec_staying(es, c2, acc1))];
                let (kids, es1) = spec_push_inputs(t.children, accs, es);
                crate::predicate_pushdown::laws::lemma_push_inputs_extends(t.children, accs, es);
                lemma_combine_extends(local, es1);
                lemma_select_free(es, c1, acc, false, x);
                lemma_select_free(es, c1, acc, true, x);
                lemma_select_free(es, c2, acc1, false, x);
                lemma_select_free(es, c2, acc1, true, x);
                lemma_push_inputs_free(t.children, accs, es, x);
                lemma_nodes_stable(es, es1, t.node.exprs(), x);
                lemma_node_predicates_stable(es, es1, t.node, x);
                lemma_node_over(es1, t.node, kids, x);
                lemma_entry_nodes(es, spec_leaving(es, c1, acc), x);
                lemma_entry_nodes(es, spec_leaving(es, c2, acc1), x);
                assert(targets_below(acc1, es.len() as int));
                assert(targets_below(spec_leaving(es, c1, acc), es.len() as int));
                assert(targets_below(spec_leaving(es, c2, acc1), es.len() as int));
                assert(nodes_valid(l1, es.len() as int));
                assert(nodes_valid(l2, es.len() as int));
                if free_before {
                    assert(acc_free(es, acc1, x));
                    assert(nodes_free(es, l1, x));
                    assert(nodes_free(es, l2, x));
                }
                assert(nodes_valid(local, es.len() as int) && (free_before ==> nodes_free(
                    es,
                    local,
                    x,
                ))) by {
                    assert forall|i: int| 0 <= i < local.len() implies (#[trigger] local[i]).0
                        < es.len() && (free_before ==> !spec_has_aexpr(es, local[i].0 as int, x)) by {
                        if i < l1.len() {
                            assert(local[i] == l1[i]);
                        } else {
                            assert(local[i] == l2[i - l1.len()]);
                        }
                    }
                }
                lemma_nodes_stable(es, es1, local, x);
                lemma_apply_free(PlanTree { node: t.node, children: kids }, local, es1, x);
            } else {
                lemma_no_pushdown_free(t, acc, es, x);
            }
        },
        _ => {},
    }
}

/// Freedom of a property is kept at a join.
pub proof fn lemma_join_free(t: PlanTree, acc: Entries, es: Seq<AExprView>, x: ExprTest)
    requires
        wf_exprs(es),
        targets_below(acc, es.len() as int),
        tree_exprs_below(t, es.len() as int),
        tree_shaped(t),
        fits(spec_push_down(t, acc, es).1),
        t.node is Join,
    ensures
        step_ok(es, free_of(es, t, x) && acc_free(es, acc, x), spec_push_down(t, acc, es), x),
    decreases t, 4nat,
{
    let free_before = free_of(es, t, x) && acc_free(es, acc, x);
    lemma_tree_parts(es, t, x);
    match t.node {
        PlanView::Join { left_on, right_on, how, .. } => {
            let sl = tree_schema(t.children[0]);
            let sr = tree_schema(t.children[1]);
            let (left, right, local) = spec_join_partition(
                acc,
                es,
                how,
                sl,
                sr,
                left_on,
                right_on,
            );
            let es1 = es;
            let accs = seq![Some(left), Some(right)];
            let (kids, es2) = spec_push_inputs(t.children, accs, es1);
            crate::predicate_pushdown::laws::lemma_push_inputs_extends(t.children, accs, es1);
            lemma_combine_extends(local, es2);
            lemma_join_partition_free(acc, es, how, sl, sr, left_on, right_on, x);
            assert forall|k: int| 0 <= k < t.children.len() implies tree_exprs_below(
                #[trigger] t.children[k],
                es1.len() as int,
            ) && (free_of(es, t.children[k], x) ==> free_of(es1, t.children[k], x)) by {
                lemma_tree_stable(es, es1, t.children[k], x);
            }
            lemma_push_inputs_free(t.children, accs, es1, x);
            lemma_nodes_stable(es, es2, t.node.exprs(), x);
            lemma_node_over(es2, t.node, kids, x);
            lemma_nodes_stable(es1, es2, local, x);
            lemma_apply_free(PlanTree { node: t.node, children: kids }, local, es2, x);
        },
        _ => {},
    }
}

/// Freedom of a property is kept at a transform of rows.
pub proof fn lemma_map_function_free(t: PlanTree, acc: Entries, es: Seq<AExprView>, x: ExprTest)
    requires
        wf_exprs(es),
        targets_below(acc, es.len() as int),
        tree_exprs_below(t, es.len() as int),
        tree_shaped(t),
        fits(spec_push_down(t, acc, es).1),
        t.node is MapFunction,
    ensures
        step_ok(es, free_of(es, t, x) && acc_free(es, acc, x), spec_push_down(t, acc, es), x),
    decreases t, 4nat,
{
    let free_before = free_of(es, t, x) && acc_free(es, acc, x);
    lemma_tree_parts(es, t, x);
    match t.node {
        PlanView::MapFunction { function, .. } => {
            if !function.allow_predicate_pd() {
                lemma_no_pushdown_free(t, acc, es, x);
            } else {
                match function {
                    FunctionNodeView::Rename { existing, new } => {
                        let input_schema = tree_schema(t.children[0]);
                        let (acc1, local, es1) = spec_process_rename(
                            acc,
                            es,
                            existing,
                            new,
                            input_schema,
                        );
                        let (t1, es2) = spec_pushdown_and_continue(t, acc1, es1, false);
                        lemma_process_rename_extends(acc, es, existing, new, input_schema);
                        crate::predicate_pushdown::laws::lemma_continue_extends(
                            t,
                            acc1,
                            es1,
                            false,
                        );
                        lemma_combine_extends(local, es2);
                        lemma_process_rename_free(acc, es, existing, new, input_schema, x);
                        lemma_tree_stable(es, es1, t, x);
                        lemma_continue_free(t, acc1, es1, false, x);
                        lemma_nodes_stable(es1, es2, local, x);
                        lemma_apply_free(t1, local, es2, x);
                    },
                    FunctionNodeView::Explode { columns } => {
                        if spec_any_has(es, entry_nodes(acc), ExprTest::PushdownBoundary) {
                            let (t1, es1) = spec_pushdown_and_continue(t, seq![], es, false);
                            crate::predicate_pushdown::laws::lemma_continue_extends(
                                t,
                                seq![],
                                es,
                                false,
                            );
                            lemma_combine_extends(entry_nodes(acc), es1);
                            lemma_continue_free(t, seq![], es, false, x);
                            lemma_entry_nodes(es, acc, x);
                            lemma_nodes_stable(es, es1, entry_nodes(acc), x);
                            lemma_apply_free(t1, entry_nodes(acc), es1, x);
                        } else {
                            lemma_hold_back_free(t, acc, es, CriterionView::Names(columns), x);
                        }
                    },
                    FunctionNodeView::Melt { value_vars, variable_name, value_name, .. } => {
                        lemma_hold_back_free(
                            t,
                            acc,
                            es,
                            CriterionView::Names(melt_names(value_vars, variable_name, value_name)),
                            x,
                        );
                    },
                    FunctionNodeView::Opaque { .. } => {
                        lemma_continue_free(t, acc, es, false, x);
                    },
                }
            }
        },
        _ => {},
    }
}

/// Freedom of a property is kept at the other kinds of node.
pub proof fn lemma_passing_free(t: PlanTree, acc: Entries, es: Seq<AExprView>, x: ExprTest)
    requires
        wf_exprs(es),
        targets_below(acc, es.len() as int),
        tree_exprs_below(t, es.len() as int),
        tree_shaped(t),
        fits(spec_push_down(t, acc, es).1),
        !(t.node is Selection || t.node is DataFrameScan || t.node is Scan || t.node is AnonymousScan || t.node is PythonScan || t.node is LocalProjection || t.node is Distinct || t.node is Join || t.node is MapFunction),
    ensures
        step_ok(es, free_of(es, t, x) && acc_free(es, acc, x), spec_push_down(t, acc, es), x),
    decreases t, 4nat,
{
    let free_before = free_of(es, t, x) && acc_free(es, acc, x);
    lemma_tree_parts(es, t, x);
    match t.node {
        PlanView::Union { .. } => {
            lemma_hold_back_free(t, acc, es, CriterionView::Test(ExprTest::Count), x);
        },
        PlanView::Sort { .. } => {
            lemma_hold_back_free(t, acc, es, CriterionView::Test(ExprTest::SortBoundary), x);
        },
        PlanView::FileSink { .. } | PlanView::CloudSink { .. } => {
            lemma_continue_free(t, acc, es, false, x);
        },
        PlanView::HStack { .. } | PlanView::Projection { .. } | PlanView::ExtContext { .. } => {
            lemma_continue_free(t, acc, es, true, x);
        },
        PlanView::Slice { .. } | PlanView::Cache { .. } | PlanView::Aggregate { .. } => {
            lemma_no_pushdown_free(t, acc, es, x);
        },
        _ => {},
    }
}

/// The pass keeps a property out of the plan if neither the plan nor
/// the accumulator had it; it keeps the arena well formed, and the plan
/// that comes out names only expressions of the arena.
pub proof fn lemma_push_down_free(t: PlanTree, acc: Entries, es: Seq<AExprView>, x: ExprTest)
    requires
        wf_exprs(es),
        targets_below(acc, es.len() as int),
        tree_exprs_below(t, es.len() as int),
        tree_shaped(t),
        fits(spec_push_down(t, acc, es).1),
    ensures
        step_ok(es, free_of(es, t, x) && acc_free(es, acc, x), spec_push_down(t, acc, es), x),
    decreases t, 5nat,
{
    match t.node {
        PlanView::Selection { .. } => lemma_selection_free(t, acc, es, x),
        PlanView::DataFrameScan { .. }
        | PlanView::Scan { .. }
        | PlanView::AnonymousScan { .. }
        | PlanView::PythonScan { .. } => lemma_scans_free(t, acc, es, x),
        PlanView::LocalProjection { .. } => lemma_local_projection_free(t, acc, es, x),
        PlanView::Distinct { .. } => lemma_distinct_free(t, acc, es, x),
        PlanView::Join { .. } => lemma_join_free(t, acc, es, x),
        PlanView::MapFunction { .. } => lemma_map_function_free(t, acc, es, x),
        _ => lemma_passing_free(t, acc, es, x),
    }
}


/// Whether a node of this kind holds back every predicate with the
/// property: a sort what depends on the order of rows, a union what
/// counts rows, a join, a distinct and an explode what depends on other
/// rows at all, and a node that lets nothing pass everything.
pub open spec fn holds_back(node: PlanView, x: ExprTest) -> bool {
    match node {
        PlanView::Sort { .. } => x is SortBoundary,
        PlanView::Union { .. } => x is Count,
        PlanView::Slice { .. } | PlanView::Cache { .. } | PlanView::Aggregate { .. } => true,
        PlanView::Distinct { .. } => true,
        PlanView::Join { .. } => true,
        PlanView::MapFunction { function, .. } => !function.allow_predicate_pd()
            || function is Explode,
        _ => false,
    }
}

/// The plan below the filters at its top.
pub open spec fn under_filters(t: PlanTree) -> PlanTree
    decreases t,
{
    if t.node is Selection && t.children.len() == 1 {
        under_filters(t.children[0])
    } else {
        t
    }
}

/// What [`lemma_boundaries_respected`] states of a plan after the pass:
/// below the filters at its top stands the node `node` with `n` inputs,
/// none of which holds a predicate with the property.
pub open spec fn inputs_free(
    res: (PlanTree, Seq<AExprView>),
    node: PlanView,
    n: nat,
    x: ExprTest,
) -> bool {
    let root = under_filters(res.0);
    &&& root.node == node
    &&& root.children.len() == n
    &&& forest_free(res.1, root.children, x)
}

/// A filter put above a plan is a filter at its top.
pub proof fn lemma_under_apply(t: PlanTree, local: Seq<Node>, es: Seq<AExprView>)
    ensures
        under_filters(spec_optional_apply_predicate(t, local, es).0) == under_filters(t),
{
    if local.len() > 0 {
        let wrapped = spec_optional_apply_predicate(t, local, es).0;
        assert(wrapped.children[0] == t);
    }
}

/// An accumulator without a predicate that depends on other rows has
/// no predicate with any of the properties.
pub proof fn lemma_acc_boundary_free(es: Seq<AExprView>, acc: Entries, x: ExprTest)
    requires
        acc_free(es, acc, ExprTest::PushdownBoundary),
    ensures
        acc_free(es, acc, x),
{
    assert forall|i: int| 0 <= i < acc.len() implies !spec_has_aexpr(
        es,
        (#[trigger] acc[i]).1.0 as int,
        x,
    ) by {
        if spec_has_aexpr(es, acc[i].1.0 as int, x) {
            lemma_has_implies_boundary(es, acc[i].1.0 as int, x);
        }
    }
}

/// The inputs of a node stay free of a property if the accumulators
/// that the node hands to them are free of it.
pub proof fn lemma_inputs_stay_free(
    t: PlanTree,
    accs: Seq<Option<Entries>>,
    es0: Seq<AExprView>,
    es: Seq<AExprView>,
    x: ExprTest,
)
    requires
        wf_exprs(es),
        extends(es0, es),
        tree_exprs_below(t, es0.len() as int),
        tree_shaped(t),
        forest_free(es0, t.children, x),
        accs.len() >= t.children.len(),
        accs_below(accs, es.len() as int),
        accs_free(es, accs, x),
        fits(spec_push_inputs(t.children, accs, es).1),
        !(t.node is Selection),
    ensures
        spec_push_inputs(t.children, accs, es).0.len() == t.children.len(),
        forest_free(
            spec_push_inputs(t.children, accs, es).1,
            spec_push_inputs(t.children, accs, es).0,
            x,
        ),
        under_filters(PlanTree { node: t.node, children: spec_push_inputs(t.children, accs, es).0 })
            == (PlanTree { node: t.node, children: spec_push_inputs(t.children, accs, es).0 }),
{
    assert forall|k: int| 0 <= k < t.children.len() implies tree_exprs_below(
        #[trigger] t.children[k],
        es.len() as int,
    ) && free_of(es, t.children[k], x) && tree_shaped(t.children[k]) by {
        lemma_tree_stable(es0, es, t.children[k], x);
    }
    lemma_push_inputs_free(t.children, accs, es, x);
}

/// Where the schema decides what passes, the accumulators of the
/// inputs hold entries of the accumulator only.
pub proof fn lemma_schema_accs_free(
    children: Seq<PlanTree>,
    acc: Entries,
    es: Seq<AExprView>,
    x: ExprTest,
)
    requires
        targets_below(acc, es.len() as int),
    ensures
        spec_schema_accs(children, acc, es).len() == children.len(),
        accs_below(spec_schema_accs(children, acc, es), es.len() as int),
        acc_free(es, acc, x) ==> accs_free(es, spec_schema_accs(children, acc, es), x),
{
    let accs = spec_schema_accs(children, acc, es);
    assert forall|k: int| 0 <= k < accs.len() implies ((#[trigger] accs[k]) matches Some(a)
        ==> targets_below(a, es.len() as int) && (acc_free(es, acc, x) ==> acc_free(es, a, x))) by {
        lemma_select_free(es, CriterionView::NotIn(tree_schema(children[k])), acc, false, x);
    }
}

/// Boundaries respected, where the node lets pass what does not meet a
/// criterion and what its inputs can evaluate.
pub proof fn lemma_hold_back_respects(
    t: PlanTree,
    acc: Entries,
    es: Seq<AExprView>,
    c: CriterionView,
    x: ExprTest,
)
    requires
        wf_exprs(es),
        targets_below(acc, es.len() as int),
        tree_exprs_below(t, es.len() as int),
        tree_shaped(t),
        forest_free(es, t.children, x),
        acc_free(es, spec_staying(es, c, acc), x),
        fits(spec_hold_back(t, acc, es, c).1),
        !(t.node is Selection),
    ensures
        inputs_free(spec_hold_back(t, acc, es, c), t.node, t.children.len(), x),
{
    let staying = spec_staying(es, c, acc);
    let leaving = spec_leaving(es, c, acc);
    let accs = spec_schema_accs(t.children, staying, es);
    let local = spec_schema_local(t.children, staying, es);
    let (kids, es1) = spec_push_inputs(t.children, accs, es);
    let inner = PlanTree { node: t.node, children: kids };
    let (t1, es2) = spec_optional_apply_predicate(inner, local, es1);
    crate::predicate_pushdown::laws::lemma_push_inputs_extends(t.children, accs, es);
    lemma_combine_extends(local, es1);
    lemma_combine_extends(entry_nodes(leaving), es2);
    lemma_select_free(es, c, acc, false, x);
    lemma_schema_accs_free(t.children, staying, es, x);
    lemma_inputs_stay_free(t, accs, es, es, x);
    lemma_under_apply(inner, local, es1);
    lemma_under_apply(t1, entry_nodes(leaving), es2);
    let es3 = spec_hold_back(t, acc, es, c).1;
    assert forall|k: int| 0 <= k < kids.len() implies free_of(es3, #[trigger] kids[k], x) by {
        lemma_push_inputs_free(t.children, accs, es, x);
        lemma_tree_stable(es1, es3, kids[k], x);
    }
}

/// Boundaries respected, where the node lets nothing pass.
pub proof fn lemma_no_pushdown_respects(t: PlanTree, acc: Entries, es: Seq<AExprView>, x: ExprTest)
    requires
        wf_exprs(es),
        targets_below(acc, es.len() as int),
        tree_exprs_below(t, es.len() as int),
        tree_shaped(t),
        forest_free(es, t.children, x),
        fits(spec_no_pushdown_restart_opt(t, acc, es).1),
        !(t.node is Selection),
    ensures
        inputs_free(spec_no_pushdown_restart_opt(t, acc, es), t.node, t.children.len(), x),
{
    let accs = Seq::new(t.children.len(), |i: int| Some(Seq::<(Seq<char>, Node)>::empty()));
    let (kids, es1) = spec_push_inputs(t.children, accs, es);
    let inner = PlanTree { node: t.node, children: kids };
    crate::predicate_pushdown::laws::lemma_push_inputs_extends(t.children, accs, es);
    lemma_combine_extends(entry_nodes(acc), es1);
    lemma_inputs_stay_free(t, accs, es, es, x);
    lemma_under_apply(inner, entry_nodes(acc), es1);
    let es2 = spec_no_pushdown_restart_opt(t, acc, es).1;
    assert forall|k: int| 0 <= k < kids.len() implies free_of(es2, #[trigger] kids[k], x) by {
        lemma_push_inputs_free(t.children, accs, es, x);
        lemma_tree_stable(es1, es2, kids[k], x);
    }
}

/// Boundaries respected, at a distinct.
pub proof fn lemma_distinct_respects(t: PlanTree, acc: Entries, es: Seq<AExprView>, x: ExprTest)
    requires
        wf_exprs(es),
        targets_below(acc, es.len() as int),
        tree_exprs_below(t, es.len() as int),
        tree_shaped(t),
        forest_free(es, t.children, x),
        fits(spec_push_down(t, acc, es).1),
        t.node is Distinct,
    ensures
        inputs_free(spec_push_down(t, acc, es), t.node, t.children.len(), x),
{
    let keep = t.node->keep_strategy;
    if keep is Any || keep is Neither {
        let pb = ExprTest::PushdownBoundary;
        let c1 = CriterionView::MultiRoot;
        let c2 = CriterionView::Test(pb);
        let acc1 = spec_staying(es, c1, acc);
        let acc2 = spec_staying(es, c2, acc1);
        let local = entry_nodes(spec_leaving(es, c1, acc)) + entry_nodes(spec_leaving(es, c2, acc1));
        let accs = seq![Some(acc2)];
        let (kids, es1) = spec_push_inputs(t.children, accs, es);
        let inner = PlanTree { node: t.node, children: kids };
        crate::predicate_pushdown::laws::lemma_push_inputs_extends(t.children, accs, es);
        lemma_combine_extends(local, es1);
        lemma_select_free(es, c1, acc, false, x);
        lemma_select_free(es, c2, acc1, false, pb);
        lemma_select_free(es, c2, acc1, false, x);
        assert(targets_below(acc1, es.len() as int));
        assert(targets_below(acc2, es.len() as int));
        lemma_acc_boundary_free(es, acc2, x);
        lemma_inputs_stay_free(t, accs, es, es, x);
        lemma_under_apply(inner, local, es1);
        let es2 = spec_push_down(t, acc, es).1;
        assert forall|k: int| 0 <= k < kids.len() implies free_of(es2, #[trigger] kids[k], x) by {
            lemma_push_inputs_free(t.children, accs, es, x);
            lemma_tree_stable(es1, es2, kids[k], x);
        }
    } else {
        lemma_no_pushdown_respects(t, acc, es, x);
    }
}

/// Boundaries respected, at a join.
#[verifier::rlimit(40)]
pub proof fn lemma_join_respects(t: PlanTree, acc: Entries, es: Seq<AExprView>, x: ExprTest)
    requires
        wf_exprs(es),
        targets_below(acc, es.len() as int),
        tree_exprs_below(t, es.len() as int),
        tree_shaped(t),
        forest_free(es, t.children, x),
        fits(spec_push_down(t, acc, es).1),
        t.node is Join,
    ensures
        inputs_free(spec_push_down(t, acc, es), t.node, t.children.len(), x),
{
    let left_on = t.node->left_on;
    let right_on = t.node->right_on;
    let how = t.node->how;
    let sl = tree_schema(t.children[0]);
    let sr = tree_schema(t.children[1]);
    let (left, right, local) = spec_join_partition(acc, es, how, sl, sr, left_on, right_on);
    let es1 = es;
    let accs = seq![Some(left), Some(right)];
    let (kids, es2) = spec_push_inputs(t.children, accs, es1);
    let inner = PlanTree { node: t.node, children: kids };
    crate::predicate_pushdown::laws::lemma_push_inputs_extends(t.children, accs, es1);
    lemma_combine_extends(local, es2);
    lemma_join_partition_free(acc, es, how, sl, sr, left_on, right_on, x);
    assert(t.children.len() == 2) by {
        assert(t.node.inputs().len() == 2);
    }
    lemma_inputs_stay_free(t, accs, es, es1, x);
    lemma_under_apply(inner, local, es2);
    let es3 = spec_push_down(t, acc, es).1;
    assert forall|k: int| 0 <= k < kids.len() implies free_of(es3, #[trigger] kids[k], x) by {
        assert forall|j: int| 0 <= j < t.children.len() implies tree_exprs_below(
            #[trigger] t.children[j],
            es1.len() as int,
        ) && tree_shaped(t.children[j]) by {
            lemma_tree_stable(es, es1, t.children[j], x);
        }
        lemma_push_inputs_free(t.children, accs, es1, x);
        lemma_tree_stable(es2, es3, kids[k], x);
    }
}

/// Boundaries respected, at a transform of rows.
pub proof fn lemma_map_function_respects(t: PlanTree, acc: Entries, es: Seq<AExprView>, x: ExprTest)
    requires
        wf_exprs(es),
        targets_below(acc, es.len() as int),
        tree_exprs_below(t, es.len() as int),
        tree_shaped(t),
        forest_free(es, t.children, x),
        fits(spec_push_down(t, acc, es).1),
        t.node is MapFunction,
        holds_back(t.node, x),
    ensures
        inputs_free(spec_push_down(t, acc, es), t.node, t.children.len(), x),
{
    let function = t.node->function;
    if !function.allow_predicate_pd() {
        lemma_no_pushdown_respects(t, acc, es, x);
    } else {
        let pb = ExprTest::PushdownBoundary;
        let columns = function->columns;
        if spec_any_has(es, entry_nodes(acc), pb) {
            let none: Entries = seq![];
            let accs = spec_schema_accs(t.children, none, es);
            let local = spec_schema_local(t.children, none, es);
            let (kids, es1) = spec_push_inputs(t.children, accs, es);
            let inner = PlanTree { node: t.node, children: kids };
            let (t1, es2) = spec_optional_apply_predicate(inner, local, es1);
            crate::predicate_pushdown::laws::lemma_push_inputs_extends(t.children, accs, es);
            lemma_combine_extends(local, es1);
            lemma_combine_extends(entry_nodes(acc), es2);
            lemma_schema_accs_free(t.children, none, es, x);
            lemma_inputs_stay_free(t, accs, es, es, x);
            lemma_under_apply(inner, local, es1);
            lemma_under_apply(t1, entry_nodes(acc), es2);
            let es3 = spec_push_down(t, acc, es).1;
            assert forall|k: int| 0 <= k < kids.len() implies free_of(es3, #[trigger] kids[k], x) by {
                lemma_push_inputs_free(t.children, accs, es, x);
                lemma_tree_stable(es1, es3, kids[k], x);
            }
        } else {
            assert(acc_free(es, acc, pb)) by {
                assert forall|i: int| 0 <= i < acc.len() implies !spec_has_aexpr(
                    es,
                    (#[trigger] acc[i]).1.0 as int,
                    pb,
                ) by {
                    assert(entry_nodes(acc)[i] == acc[i].1);
                }
            }
            lemma_acc_boundary_free(es, acc, x);
            let c = CriterionView::Names(columns);
            lemma_select_free(es, c, acc, false, x);
            lemma_hold_back_respects(t, acc, es, c, x);
        }
    }
}

/// Boundaries respected: below a node that holds back the predicates
/// with a property, the pass puts no predicate with that property. If
/// none of the inputs of the node holds such a predicate before the
/// pass, none holds one after it, whatever comes in from above.
///
/// After the pass the node stands below the filters by what it held
/// back; its inputs are the plans that the pass made of its inputs.
pub proof fn lemma_boundaries_respected(t: PlanTree, acc: Entries, es: Seq<AExprView>, x: ExprTest)
    requires
        wf_exprs(es),
        targets_below(acc, es.len() as int),
        tree_exprs_below(t, es.len() as int),
        tree_shaped(t),
        fits(spec_push_down(t, acc, es).1),
        holds_back(t.node, x),
        forest_free(es, t.children, x),
    ensures
        inputs_free(spec_push_down(t, acc, es), t.node, t.children.len(), x),
{
    match t.node {
        PlanView::Sort { .. } => {
            let c = CriterionView::Test(ExprTest::SortBoundary);
            lemma_select_free(es, c, acc, false, x);
            lemma_hold_back_respects(t, acc, es, c, x);
        },
        PlanView::Union { .. } => {
            let c = CriterionView::Test(ExprTest::Count);
            lemma_select_free(es, c, acc, false, x);
            lemma_hold_back_respects(t, acc, es, c, x);
        },
        PlanView::Slice { .. } | PlanView::Cache { .. } | PlanView::Aggregate { .. } => {
            lemma_no_pushdown_respects(t, acc, es, x);
        },
        PlanView::Distinct { .. } => {
            lemma_distinct_respects(t, acc, es, x);
        },
        PlanView::Join { .. } => {
            lemma_join_respects(t, acc, es, x);
        },
        PlanView::MapFunction { .. } => {
            lemma_map_function_respects(t, acc, es, x);
        },
        _ => {},
    }
}

} // verus!
