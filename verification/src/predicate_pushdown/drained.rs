//! The accumulator is drained: no predicate gets lost on the way.

use vstd::prelude::*;

use crate::aexpr::{extends, wf_exprs, AExprView, ExprTest, Operator};
use crate::alp::{FunctionNodeView, PlanView};
use crate::arena::Node;
use crate::expr_walk::{lemma_find_name, spec_find_name, spec_substitute, spec_substitute_all};
use crate::expr_walk::targets_below;
use crate::plan_tree::PlanTree;
use crate::alp::FileScan;
use crate::plan_schema::tree_schema;
use crate::predicate_pushdown::boundaries::{accs_below, lemma_at_scan_free};
use crate::predicate_pushdown::boundaries::{fits, node_predicates, nodes_valid};
use crate::predicate_pushdown::boundaries::{lemma_continue_free, lemma_entry_nodes};
use crate::predicate_pushdown::boundaries::{lemma_insert_free, lemma_join_partition_free};
use crate::predicate_pushdown::boundaries::lemma_predicate_at_scan_free;
use crate::predicate_pushdown::boundaries::{lemma_push_inputs_free, lemma_select_free};
use crate::predicate_pushdown::boundaries::{lemma_rewrite_free, lemma_tree_parts};
use crate::predicate_pushdown::boundaries::lemma_tree_stable;
use crate::predicate_pushdown::join::{not_for_right, pushes_left, pushes_right};
use crate::predicate_pushdown::join::spec_join_partition;
use crate::predicate_pushdown::laws::lemma_continue_extends;
use crate::predicate_pushdown::laws::{lemma_predicate_at_scan_extends, lemma_push_down_extends};
use crate::predicate_pushdown::laws::{lemma_push_inputs_extends, lemma_rewrite_extends};
use crate::predicate_pushdown::laws::{lemma_at_scan_extends, tree_shaped};
use crate::predicate_pushdown::model::{leaf, melt_names, projection_rule, selection_of};
use crate::predicate_pushdown::model::{spec_at_scan, spec_hold_back};
use crate::predicate_pushdown::model::{spec_no_pushdown_restart_opt, spec_schema_accs};
use crate::predicate_pushdown::model::{spec_optional_apply_predicate, spec_push_down};
use crate::predicate_pushdown::model::{spec_push_inputs, spec_pushdown_and_continue};
use crate::predicate_pushdown::model::{spec_schema_local, spec_valid_exprs};
use crate::predicate_pushdown::refine::{forest_exprs_below, tree_exprs_below};
use crate::predicate_pushdown::utils::{spec_any_has, spec_leaving, spec_projection_map};
use crate::predicate_pushdown::utils::spec_staying;
use crate::predicate_pushdown::laws::lemma_combine_extends;
use crate::predicate_pushdown::model::Entries;
use crate::predicate_pushdown::boundaries::lemma_combine_free;
use crate::predicate_pushdown::boundaries::{lemma_process_rename_free, lemma_rename_map_free};
use crate::predicate_pushdown::boundaries::{lemma_substitute_all_free, lemma_substitute_free};
use crate::predicate_pushdown::laws::{lemma_process_rename_extends, lemma_rename_map_extends};
use crate::predicate_pushdown::laws::{lemma_substitute_all_extends, lemma_substitute_extends};
use crate::predicate_pushdown::rename::{pair_count, rename_rule, spec_process_rename};
use crate::predicate_pushdown::rename::spec_rename_map;
use crate::predicate_pushdown::rewritten::{lemma_substitute_variant, lemma_variant_stable};
use crate::predicate_pushdown::rewritten::{lemma_variant_trans, variant_of};
use crate::predicate_pushdown::utils::{and_of, entry_nodes};
use crate::pyarrow::spec_predicate_to_pa;
use crate::predicate_pushdown::utils::{spec_combine_predicates, spec_insert_and_combine};
use crate::predicate_pushdown::utils::{spec_predicate_at_scan, spec_rewrite_predicates};
use crate::predicate_pushdown::utils::{spec_select, CriterionView, RewriteRuleView};

verus! {

/// Whether the predicate `p` holds the predicate `q`: `p` is `q`, or
/// `q` with columns replaced by expressions, or the conjunction of
/// predicates of which one holds `q`.
pub open spec fn conj_of(es: Seq<AExprView>, p: int, q: Node) -> bool
    decreases p,
{
    if variant_of(es, q.0 as int, p) {
        true
    } else if 0 <= p < es.len() {
        match es[p] {
            AExprView::BinaryExpr { left, op: Operator::And, right } => {
                ||| (left.0 < p && conj_of(es, left.0 as int, q))
                ||| (right.0 < p && conj_of(es, right.0 as int, q))
            },
            _ => false,
        }
    } else {
        false
    }
}

/// Whether one of the predicates holds `q`.
pub open spec fn nodes_hold(es: Seq<AExprView>, nodes: Seq<Node>, q: Node) -> bool {
    exists|i: int| 0 <= i < nodes.len() && conj_of(es, (#[trigger] nodes[i]).0 as int, q)
}

/// Whether a predicate of the accumulator holds `q`.
pub open spec fn acc_holds(es: Seq<AExprView>, acc: Entries, q: Node) -> bool {
    exists|i: int| 0 <= i < acc.len() && conj_of(es, (#[trigger] acc[i]).1.0 as int, q)
}

/// Whether the text that a scan through a foreign engine has taken is
/// the text of a predicate that holds `q`.
pub open spec fn text_holds(es: Seq<AExprView>, node: PlanView, q: Node) -> bool {
    node matches PlanView::PythonScan { pyarrow: true, pushed_predicate: Some(text), .. }
        && exists|p: int|
        0 <= p < es.len() && #[trigger] conj_of(es, p, q) && spec_predicate_to_pa(es, p) == Some(
            text,
        )
}

/// Whether the plan is a union of nothing. It has no rows, so that
/// every predicate holds of all of them.
pub open spec fn without_rows(t: PlanTree) -> bool {
    t.node is Union && t.children.len() == 0
}

/// Whether a filter or a scan of the plan holds `q`: as the predicate
/// of the node, as a part of the conjunction that the predicate is, or
/// in the text that a scan through a foreign engine has taken. A union
/// of nothing holds every predicate.
pub open spec fn tree_holds(es: Seq<AExprView>, t: PlanTree, q: Node) -> bool
    decreases t,
{
    ||| nodes_hold(es, node_predicates(t.node), q)
    ||| text_holds(es, t.node, q)
    ||| without_rows(t)
    ||| exists|k: int| 0 <= k < t.children.len() && tree_holds(es, #[trigger] t.children[k], q)
}

/// The text of a predicate does not change when expressions are added
/// to the arena.
pub proof fn lemma_text_stable(es: Seq<AExprView>, es2: Seq<AExprView>, p: int)
    requires
        wf_exprs(es),
        extends(es, es2),
        0 <= p < es.len(),
    ensures
        spec_predicate_to_pa(es2, p) == spec_predicate_to_pa(es, p),
    decreases p,
{
    assert(es2[p] == es[p]);
    assert(es[p].inputs_below(p));
    match es[p] {
        AExprView::BinaryExpr { left, op, right } => {
            if left.0 < p && right.0 < p {
                lemma_text_stable(es, es2, left.0 as int);
                lemma_text_stable(es, es2, right.0 as int);
            }
        },
        AExprView::Not(e) => {
            if e.0 < p {
                lemma_text_stable(es, es2, e.0 as int);
            }
        },
        _ => {},
    }
}

/// Whether a predicate holds `q` does not change when expressions are
/// added to the arena.
pub proof fn lemma_conj_stable(es: Seq<AExprView>, es2: Seq<AExprView>, p: int, q: Node)
    requires
        wf_exprs(es),
        extends(es, es2),
        0 <= p < es.len(),
        q.0 < es.len(),
    ensures
        conj_of(es2, p, q) == conj_of(es, p, q),
    decreases p,
{
    lemma_variant_stable(es, es2, q.0 as int, p);
    if !variant_of(es, q.0 as int, p) {
        assert(es2[p] == es[p]);
        match es[p] {
            AExprView::BinaryExpr { left, op: Operator::And, right } => {
                if left.0 < p {
                    lemma_conj_stable(es, es2, left.0 as int, q);
                }
                if right.0 < p {
                    lemma_conj_stable(es, es2, right.0 as int, q);
                }
            },
            _ => {},
        }
    }
}

/// The conjunction of two predicates holds what they hold.
pub proof fn lemma_conj_pushed(es: Seq<AExprView>, left: Node, right: Node, q: Node)
    requires
        wf_exprs(es),
        q.0 < es.len(),
        left.0 < es.len(),
        right.0 < es.len(),
        fits(es.push(and_of(left, right))),
        conj_of(es, left.0 as int, q) || conj_of(es, right.0 as int, q),
    ensures
        conj_of(es.push(and_of(left, right)), es.len() as int, q),
{
    let es2 = es.push(and_of(left, right));
    lemma_conj_stable(es, es2, left.0 as int, q);
    lemma_conj_stable(es, es2, right.0 as int, q);
}

/// Predicates hold in a longer arena what they held.
pub proof fn lemma_nodes_hold_stable(
    es: Seq<AExprView>,
    es2: Seq<AExprView>,
    nodes: Seq<Node>,
    q: Node,
)
    requires
        wf_exprs(es),
        q.0 < es.len(),
        extends(es, es2),
        nodes_valid(nodes, es.len() as int),
        nodes_hold(es, nodes, q),
    ensures
        nodes_hold(es2, nodes, q),
{
    let i = choose|i: int| 0 <= i < nodes.len() && conj_of(es, (#[trigger] nodes[i]).0 as int, q);
    lemma_conj_stable(es, es2, nodes[i].0 as int, q);
}

/// An accumulator holds in a longer arena what it held.
pub proof fn lemma_acc_holds_stable(es: Seq<AExprView>, es2: Seq<AExprView>, acc: Entries, q: Node)
    requires
        wf_exprs(es),
        q.0 < es.len(),
        extends(es, es2),
        targets_below(acc, es.len() as int),
        acc_holds(es, acc, q),
    ensures
        acc_holds(es2, acc, q),
{
    let i = choose|i: int| 0 <= i < acc.len() && conj_of(es, (#[trigger] acc[i]).1.0 as int, q);
    lemma_conj_stable(es, es2, acc[i].1.0 as int, q);
}

/// The conjunction of predicates holds what one of them holds.
pub proof fn lemma_combine_holds(preds: Seq<Node>, es: Seq<AExprView>, q: Node)
    requires
        wf_exprs(es),
        q.0 < es.len(),
        preds.len() > 0,
        nodes_valid(preds, es.len() as int),
        fits(spec_combine_predicates(preds, es).1),
        nodes_hold(es, preds, q),
    ensures
        conj_of(
            spec_combine_predicates(preds, es).1,
            spec_combine_predicates(preds, es).0.0 as int,
            q,
        ),
        spec_combine_predicates(preds, es).0.0 < spec_combine_predicates(preds, es).1.len(),
    decreases preds.len(),
{
    let i = choose|i: int| 0 <= i < preds.len() && conj_of(es, (#[trigger] preds[i]).0 as int, q);
    lemma_combine_extends(preds, es);
    if preds.len() > 1 {
        let init = preds.drop_last();
        let last = preds.last();
        assert(last == preds[preds.len() - 1]);
        assert forall|j: int| 0 <= j < init.len() implies (#[trigger] init[j]).0 < es.len() by {
            assert(init[j] == preds[j]);
        }
        lemma_combine_extends(init, es);
        let (left, es1) = spec_combine_predicates(init, es);
        lemma_combine_valid(init, es);
        lemma_combine_free(init, es, ExprTest::Count);
        if i < init.len() {
            assert(init[i] == preds[i]);
            lemma_combine_holds(init, es, q);
        } else {
            lemma_conj_stable(es, es1, last.0 as int, q);
        }
        lemma_conj_pushed(es1, left, last, q);
    } else {
        assert(preds[0].0 < es.len());
    }
}

/// The conjunction of predicates is in the arena.
pub proof fn lemma_combine_valid(preds: Seq<Node>, es: Seq<AExprView>)
    requires
        preds.len() > 0,
        nodes_valid(preds, es.len() as int),
        fits(spec_combine_predicates(preds, es).1),
    ensures
        spec_combine_predicates(preds, es).0.0 < spec_combine_predicates(preds, es).1.len(),
    decreases preds.len(),
{
    if preds.len() > 1 {
        let init = preds.drop_last();
        assert forall|j: int| 0 <= j < init.len() implies (#[trigger] init[j]).0 < es.len() by {
            assert(init[j] == preds[j]);
        }
        lemma_combine_extends(init, es);
    } else {
        assert(preds[0].0 < es.len());
    }
}

/// The accumulator holds, after a predicate has come in, what it held
/// and what the predicate holds.
pub proof fn lemma_insert_holds(acc: Entries, p: Node, es: Seq<AExprView>, q: Node)
    requires
        wf_exprs(es),
        q.0 < es.len(),
        targets_below(acc, es.len() as int),
        p.0 < es.len(),
        fits(spec_insert_and_combine(acc, p, es).1),
        acc_holds(es, acc, q) || conj_of(es, p.0 as int, q),
    ensures
        acc_holds(
            spec_insert_and_combine(acc, p, es).1,
            spec_insert_and_combine(acc, p, es).0,
            q,
        ),
{
    let key = crate::predicate_pushdown::utils::spec_predicate_to_key(es, p.0 as int);
    let (acc2, es2) = spec_insert_and_combine(acc, p, es);
    lemma_find_name(acc, key);
    match spec_find_name(acc, key) {
        None => {
            if acc_holds(es, acc, q) {
                let i = choose|i: int|
                    0 <= i < acc.len() && conj_of(es, (#[trigger] acc[i]).1.0 as int, q);
                assert(acc2[i] == acc[i]);
            } else {
                assert(acc2[acc.len() as int].1 == p);
            }
        },
        Some(at) => {
            if acc[at].1 == p {
                if !acc_holds(es, acc, q) {
                    assert(conj_of(es, acc[at].1.0 as int, q));
                }
            } else {
                assert(acc[at].1.0 < es.len());
                if acc_holds(es, acc, q) {
                    let i = choose|i: int|
                        0 <= i < acc.len() && conj_of(es, (#[trigger] acc[i]).1.0 as int, q);
                    if i == at {
                        lemma_conj_pushed(es, acc[at].1, p, q);
                        assert(acc2[at].1.0 == es.len());
                    } else {
                        assert(acc2[i] == acc[i]);
                        lemma_conj_stable(es, es2, acc[i].1.0 as int, q);
                    }
                } else {
                    lemma_conj_pushed(es, acc[at].1, p, q);
                    assert(acc2[at].1.0 == es.len());
                }
            }
        },
    }
}

/// What an accumulator holds, its predicates hold.
pub proof fn lemma_entry_nodes_hold(es: Seq<AExprView>, acc: Entries, q: Node)
    requires
        acc_holds(es, acc, q),
    ensures
        nodes_hold(es, entry_nodes(acc), q),
{
    let i = choose|i: int| 0 <= i < acc.len() && conj_of(es, (#[trigger] acc[i]).1.0 as int, q);
    assert(entry_nodes(acc)[i] == acc[i].1);
}

/// The predicate of a scan holds, after the accumulator has been
/// drained onto it, what the accumulator and the scan held.
pub proof fn lemma_predicate_at_scan_holds(
    acc: Entries,
    existing: Option<Node>,
    es: Seq<AExprView>,
    q: Node,
)
    requires
        wf_exprs(es),
        q.0 < es.len(),
        targets_below(acc, es.len() as int),
        existing matches Some(p) ==> p.0 < es.len(),
        fits(spec_predicate_at_scan(acc, existing, es).1),
        acc_holds(es, acc, q) || (existing matches Some(p) && conj_of(es, p.0 as int, q)),
    ensures
        spec_predicate_at_scan(acc, existing, es).0 matches Some(p) && conj_of(
            spec_predicate_at_scan(acc, existing, es).1,
            p.0 as int,
            q,
        ),
{
    if acc.len() > 0 {
        let preds = entry_nodes(acc);
        assert(nodes_valid(preds, es.len() as int)) by {
            assert forall|i: int| 0 <= i < preds.len() implies (#[trigger] preds[i]).0
                < es.len() by {
                assert(preds[i] == acc[i].1);
            }
        }
        lemma_combine_extends(preds, es);
        lemma_combine_valid(preds, es);
        lemma_combine_free(preds, es, ExprTest::Count);
        let (all, es1) = spec_combine_predicates(preds, es);
        if acc_holds(es, acc, q) {
            lemma_entry_nodes_hold(es, acc, q);
            lemma_combine_holds(preds, es, q);
        }
        match existing {
            Some(p) => {
                lemma_conj_stable(es, es1, p.0 as int, q);
                lemma_conj_pushed(es1, all, p, q);
            },
            None => {},
        }
    }
}

/// What an accumulator holds is held by the entries that meet a
/// criterion or by those that do not.
pub proof fn lemma_select_holds(es: Seq<AExprView>, c: CriterionView, acc: Entries, q: Node)
    requires
        acc_holds(es, acc, q),
    ensures
        acc_holds(es, spec_select(es, c, acc, true), q) || acc_holds(
            es,
            spec_select(es, c, acc, false),
            q,
        ),
    decreases acc.len(),
{
    let i = choose|i: int| 0 <= i < acc.len() && conj_of(es, (#[trigger] acc[i]).1.0 as int, q);
    let want = crate::predicate_pushdown::utils::spec_meets(es, c, acc[i]);
    lemma_select_contains(es, c, acc, want, i);
    let sel = spec_select(es, c, acc, want);
    let j = choose|j: int| 0 <= j < sel.len() && sel[j] == acc[i];
    assert(conj_of(es, sel[j].1.0 as int, q));
}

/// An entry is among those that are selected as it is.
pub proof fn lemma_select_contains(
    es: Seq<AExprView>,
    c: CriterionView,
    acc: Entries,
    want: bool,
    i: int,
)
    requires
        0 <= i < acc.len(),
        crate::predicate_pushdown::utils::spec_meets(es, c, acc[i]) == want,
    ensures
        exists|j: int|
            0 <= j < spec_select(es, c, acc, want).len() && #[trigger] spec_select(
                es,
                c,
                acc,
                want,
            )[j] == acc[i],
    decreases acc.len(),
{
    let sel = spec_select(es, c, acc, want);
    let rest = spec_select(es, c, acc.drop_last(), want);
    if i == acc.len() - 1 {
        assert(acc.last() == acc[i]);
        assert(sel[rest.len() as int] == acc[i]);
    } else {
        assert(acc.drop_last()[i] == acc[i]);
        lemma_select_contains(es, c, acc.drop_last(), want, i);
        let j = choose|j: int| 0 <= j < rest.len() && #[trigger] rest[j] == acc[i];
        assert(sel[j] == acc[i]);
    }
}

/// A conjunction whose inputs are replaced is the conjunction of what
/// they are replaced by.
pub proof fn lemma_substitute_pair(
    es: Seq<AExprView>,
    left: Node,
    right: Node,
    parent: int,
    map: Seq<(Seq<char>, Node)>,
)
    requires
        left.0 < parent,
        right.0 < parent,
    ensures
        ({
            let (l2, ea) = spec_substitute(es, left.0 as int, map);
            let (r2, eb) = spec_substitute(ea, right.0 as int, map);
            spec_substitute_all(es, seq![left, right], parent, map) == (seq![l2, r2], eb)
        }),
{
    let both = seq![left, right];
    let one = both.drop_last();
    assert(one =~= seq![left]);
    assert(one.drop_last() =~= Seq::<Node>::empty());
    assert(one.last() == left);
    assert(both.last() == right);
    let none: Seq<Node> = seq![];
    assert(spec_substitute_all(es, one.drop_last(), parent, map) == (none, es));
    let (l2, ea) = spec_substitute(es, left.0 as int, map);
    assert(none.push(l2) =~= seq![l2]);
    assert(spec_substitute_all(es, one, parent, map) == (seq![l2], ea));
    let (r2, eb) = spec_substitute(ea, right.0 as int, map);
    assert(seq![l2].push(r2) =~= seq![l2, r2]);
}

/// What a predicate holds, it holds after substitution: in the form
/// that substitution gives it.
pub proof fn lemma_substitute_holds(
    es: Seq<AExprView>,
    p: int,
    map: Seq<(Seq<char>, Node)>,
    q: Node,
)
    requires
        wf_exprs(es),
        0 <= p < es.len(),
        q.0 < es.len(),
        targets_below(map, es.len() as int),
        spec_substitute(es, p, map).1.len() <= usize::MAX,
        conj_of(es, p, q),
    ensures
        conj_of(spec_substitute(es, p, map).1, spec_substitute(es, p, map).0.0 as int, q),
    decreases p,
{
    let x = ExprTest::Count;
    let (r, es2) = spec_substitute(es, p, map);
    lemma_substitute_extends(es, p, map);
    lemma_substitute_free(es, p, map, x);
    if variant_of(es, q.0 as int, p) {
        lemma_variant_stable(es, es2, q.0 as int, p);
        lemma_substitute_variant(es, p, map);
        lemma_variant_trans(es2, q.0 as int, p, r.0 as int);
    } else {
        let e = es[p];
        let left = e->BinaryExpr_left;
        let right = e->BinaryExpr_right;
        assert(e.nodes() =~= seq![left, right]);
        assert(e.inputs_below(p));
        assert(e.nodes()[0] == left);
        assert(e.nodes()[1] == right);
        lemma_substitute_pair(es, left, right, p, map);
        lemma_substitute_all_extends(es, e.nodes(), p, map);
        lemma_substitute_all_free(es, e.nodes(), p, map, x);
        let (l2, ea) = spec_substitute(es, left.0 as int, map);
        let (r2, eb) = spec_substitute(ea, right.0 as int, map);
        lemma_substitute_extends(es, left.0 as int, map);
        lemma_substitute_extends(ea, right.0 as int, map);
        lemma_substitute_free(es, left.0 as int, map, x);
        lemma_substitute_free(ea, right.0 as int, map, x);
        let kids = seq![l2, r2];
        if kids == e.nodes() {
            lemma_conj_stable(es, eb, p, q);
        } else {
            assert(es2 == eb.push(e.with_nodes(kids)));
            assert(e.with_nodes(kids) == and_of(l2, r2));
            if conj_of(es, left.0 as int, q) {
                lemma_substitute_holds(es, left.0 as int, map, q);
                lemma_conj_stable(ea, eb, l2.0 as int, q);
            } else {
                lemma_conj_stable(es, ea, right.0 as int, q);
                lemma_substitute_holds(ea, right.0 as int, map, q);
            }
            lemma_conj_pushed(eb, l2, r2, q);
        }
    }
}

/// Rewriting loses nothing: what the accumulator held is held, in the
/// form that the rewriting gives it, by what goes on or, as it was, by
/// what stays.
pub proof fn lemma_rewrite_holds(
    acc: Entries,
    es: Seq<AExprView>,
    map: Seq<(Seq<char>, Node)>,
    rule: RewriteRuleView,
    q: Node,
)
    requires
        wf_exprs(es),
        q.0 < es.len(),
        targets_below(acc, es.len() as int),
        targets_below(map, es.len() as int),
        fits(spec_rewrite_predicates(acc, es, map, rule).2),
        acc_holds(es, acc, q),
    ensures
        acc_holds(
            spec_rewrite_predicates(acc, es, map, rule).2,
            spec_rewrite_predicates(acc, es, map, rule).0,
            q,
        ) || nodes_hold(
            spec_rewrite_predicates(acc, es, map, rule).2,
            spec_rewrite_predicates(acc, es, map, rule).1,
            q,
        ),
    decreases acc.len(),
{
    let x = ExprTest::Count;
    let init = acc.drop_last();
    let p = acc.last().1;
    assert(acc.last() == acc[acc.len() - 1]);
    assert forall|i: int| 0 <= i < init.len() implies (#[trigger] init[i]).1.0 < es.len() by {
        assert(init[i] == acc[i]);
    }
    lemma_rewrite_extends(acc, es, map, rule);
    lemma_rewrite_extends(init, es, map, rule);
    let (out, local, es1) = spec_rewrite_predicates(init, es, map, rule);
    lemma_substitute_extends(es1, p.0 as int, map);
    let (p2, es2) = spec_substitute(es1, p.0 as int, map);
    let kept = crate::predicate_pushdown::utils::spec_keeps(es2, p, p2, rule);
    let (out2, es3) = spec_insert_and_combine(out, p2, es2);
    assert(extends(es2, es3));
    lemma_rewrite_free(init, es, map, rule, x);
    lemma_substitute_free(es1, p.0 as int, map, x);
    lemma_acc_stable_valid(es1, es2, out);
    let i = choose|i: int| 0 <= i < acc.len() && conj_of(es, (#[trigger] acc[i]).1.0 as int, q);
    if i < init.len() {
        assert(init[i] == acc[i]);
        lemma_rewrite_holds(init, es, map, rule, q);
        if acc_holds(es1, out, q) {
            lemma_acc_holds_stable(es1, es2, out, q);
            if kept {
                lemma_insert_holds(out, p2, es2, q);
            }
        } else {
            let j = choose|j: int|
                0 <= j < local.len() && conj_of(es1, (#[trigger] local[j]).0 as int, q);
            lemma_conj_stable(es1, es2, local[j].0 as int, q);
            if kept {
                lemma_insert_free(out, p2, es2, x);
                lemma_conj_stable(es2, es3, local[j].0 as int, q);
            } else {
                assert(local.push(p)[j] == local[j]);
            }
        }
    } else {
        lemma_conj_stable(es, es1, p.0 as int, q);
        if kept {
            lemma_substitute_holds(es1, p.0 as int, map, q);
            lemma_insert_holds(out, p2, es2, q);
        } else {
            lemma_conj_stable(es1, es2, p.0 as int, q);
            assert(local.push(p)[local.len() as int] == p);
        }
    }
}

/// An accumulator that is valid stays so when expressions are added.
pub proof fn lemma_acc_stable_valid(es: Seq<AExprView>, es2: Seq<AExprView>, acc: Entries)
    requires
        extends(es, es2),
        targets_below(acc, es.len() as int),
    ensures
        targets_below(acc, es2.len() as int),
{
}

/// Whether a filter or a scan of the plan holds `q` as an expression:
/// as the predicate of the node, or as a part of the conjunction that
/// the predicate is.
pub open spec fn filters_hold(es: Seq<AExprView>, t: PlanTree, q: Node) -> bool
    decreases t,
{
    ||| nodes_hold(es, node_predicates(t.node), q)
    ||| exists|k: int| 0 <= k < t.children.len() && filters_hold(es, #[trigger] t.children[k], q)
}

/// What a plan holds as an expression, it holds.
pub proof fn lemma_held_as_expression(es: Seq<AExprView>, t: PlanTree, q: Node)
    requires
        filters_hold(es, t, q),
    ensures
        tree_holds(es, t, q),
    decreases t,
{
    if !nodes_hold(es, node_predicates(t.node), q) {
        let k = choose|k: int|
            0 <= k < t.children.len() && filters_hold(es, #[trigger] t.children[k], q);
        lemma_held_as_expression(es, t.children[k], q);
    }
}

/// A plan holds as an expression in a longer arena what it held so.
pub proof fn lemma_input_holds_stable(es: Seq<AExprView>, es2: Seq<AExprView>, t: PlanTree, q: Node)
    requires
        wf_exprs(es),
        q.0 < es.len(),
        extends(es, es2),
        tree_exprs_below(t, es.len() as int),
        filters_hold(es, t, q),
    ensures
        filters_hold(es2, t, q),
        tree_holds(es2, t, q),
    decreases t,
{
    if nodes_hold(es, node_predicates(t.node), q) {
        assert(nodes_valid(node_predicates(t.node), es.len() as int)) by {
            assert forall|i: int| 0 <= i < node_predicates(t.node).len() implies (
            #[trigger] node_predicates(t.node)[i]).0 < es.len() by {
                assert(node_predicates(t.node)[i] == t.node.exprs()[i]);
            }
        }
        lemma_nodes_hold_stable(es, es2, node_predicates(t.node), q);
    } else {
        let k = choose|k: int|
            0 <= k < t.children.len() && filters_hold(es, #[trigger] t.children[k], q);
        lemma_input_holds_stable(es, es2, t.children[k], q);
    }
}

/// A plan holds in a longer arena what it held.
pub proof fn lemma_tree_holds_stable(es: Seq<AExprView>, es2: Seq<AExprView>, t: PlanTree, q: Node)
    requires
        wf_exprs(es),
        q.0 < es.len(),
        extends(es, es2),
        tree_exprs_below(t, es.len() as int),
        tree_holds(es, t, q),
    ensures
        tree_holds(es2, t, q),
    decreases t,
{
    if nodes_hold(es, node_predicates(t.node), q) {
        assert(nodes_valid(node_predicates(t.node), es.len() as int)) by {
            assert forall|i: int| 0 <= i < node_predicates(t.node).len() implies (
            #[trigger] node_predicates(t.node)[i]).0 < es.len() by {
                assert(node_predicates(t.node)[i] == t.node.exprs()[i]);
            }
        }
        lemma_nodes_hold_stable(es, es2, node_predicates(t.node), q);
    } else if text_holds(es, t.node, q) {
        let text = t.node->PythonScan_pushed_predicate.unwrap();
        let p = choose|p: int|
            0 <= p < es.len() && #[trigger] conj_of(es, p, q) && spec_predicate_to_pa(es, p)
                == Some(text);
        lemma_conj_stable(es, es2, p, q);
        lemma_text_stable(es, es2, p);
    } else if without_rows(t) {
    } else {
        let k = choose|k: int| 0 <= k < t.children.len() && tree_holds(es, #[trigger] t.children[k], q);
        lemma_tree_holds_stable(es, es2, t.children[k], q);
    }
}

/// A filter above a plan holds what the plan and the predicates of the
/// filter hold.
pub proof fn lemma_apply_holds(t: PlanTree, local: Seq<Node>, es: Seq<AExprView>, q: Node)
    requires
        wf_exprs(es),
        q.0 < es.len(),
        tree_exprs_below(t, es.len() as int),
        nodes_valid(local, es.len() as int),
        fits(spec_optional_apply_predicate(t, local, es).1),
        tree_holds(es, t, q) || nodes_hold(es, local, q),
    ensures
        tree_holds(
            spec_optional_apply_predicate(t, local, es).1,
            spec_optional_apply_predicate(t, local, es).0,
            q,
        ),
{
    if local.len() > 0 {
        lemma_combine_extends(local, es);
        let (p, es1) = spec_combine_predicates(local, es);
        let wrapped = PlanTree { node: selection_of(p), children: seq![t] };
        assert(node_predicates(selection_of(p)) =~= seq![p]);
        if nodes_hold(es, local, q) {
            lemma_combine_holds(local, es, q);
            assert(node_predicates(selection_of(p))[0] == p);
        } else {
            lemma_tree_holds_stable(es, es1, t, q);
            assert(wrapped.children[0] == t);
        }
    }
}

/// What the entries hold that an input cannot evaluate, the predicates
/// hold that stay above the node.
pub proof fn lemma_schema_local_holds(
    children: Seq<PlanTree>,
    acc: Entries,
    es: Seq<AExprView>,
    q: Node,
    k: int,
)
    requires
        0 <= k < children.len(),
        acc_holds(es, spec_leaving(es, CriterionView::NotIn(tree_schema(children[k])), acc), q),
    ensures
        nodes_hold(es, spec_schema_local(children, acc, es), q),
    decreases children.len(),
{
    let rest = spec_schema_local(children.drop_last(), acc, es);
    let here = entry_nodes(
        spec_leaving(es, CriterionView::NotIn(tree_schema(children.last())), acc),
    );
    let all = spec_schema_local(children, acc, es);
    if k == children.len() - 1 {
        assert(children.last() == children[k]);
        lemma_entry_nodes_hold(
            es,
            spec_leaving(es, CriterionView::NotIn(tree_schema(children[k])), acc),
            q,
        );
        let i = choose|i: int| 0 <= i < here.len() && conj_of(es, (#[trigger] here[i]).0 as int, q);
        assert(all[rest.len() + i] == here[i]);
    } else {
        assert(children.drop_last()[k] == children[k]);
        lemma_schema_local_holds(children.drop_last(), acc, es, q, k);
        let i = choose|i: int| 0 <= i < rest.len() && conj_of(es, (#[trigger] rest[i]).0 as int, q);
        assert(all[i] == rest[i]);
    }
}

/// The plan at position `k` of a list holds, after the pass, what it
/// and its accumulator held.
pub proof fn lemma_push_inputs_holds(
    children: Seq<PlanTree>,
    accs: Seq<Option<Entries>>,
    es: Seq<AExprView>,
    q: Node,
    k: int,
)
    requires
        wf_exprs(es),
        q.0 < es.len(),
        forest_exprs_below(children, es.len() as int),
        forall|j: int|
            0 <= j < children.len() ==> tree_shaped(#[trigger] children[j]),
        accs.len() >= children.len(),
        accs_below(accs, es.len() as int),
        fits(spec_push_inputs(children, accs, es).1),
        0 <= k < children.len(),
        filters_hold(es, children[k], q) || (accs[k] matches Some(a) && acc_holds(es, a, q)),
        accs[k] is None ==> filters_hold(es, children[k], q),
    ensures
        spec_push_inputs(children, accs, es).0.len() == children.len(),
        tree_holds(
            spec_push_inputs(children, accs, es).1,
            spec_push_inputs(children, accs, es).0[k],
            q,
        ),
    decreases children, 0nat,
{
    let x = ExprTest::Count;
    let init = children.drop_last();
    let last = children.last();
    let at = children.len() - 1;
    assert(last == children[at]);
    assert forall|j: int| 0 <= j < init.len() implies tree_exprs_below(
        #[trigger] init[j],
        es.len() as int,
    ) && tree_shaped(init[j]) by {
        assert(init[j] == children[j]);
    }
    let (done, es1) = spec_push_inputs(init, accs, es);
    lemma_push_inputs_extends(init, accs, es);
    match accs[at] {
        Some(acc) => {
            lemma_push_down_extends(last, acc, es1);
        },
        None => {},
    }
    lemma_push_inputs_free(init, accs, es, x);
    lemma_push_inputs_free(children, accs, es, x);
    lemma_tree_stable(es, es1, last, x);
    let out = spec_push_inputs(children, accs, es);
    if k == at {
        match accs[at] {
            Some(acc) => {
                if filters_hold(es, last, q) {
                    lemma_input_holds_stable(es, es1, last, q);
                } else {
                    lemma_acc_holds_stable(es, es1, acc, q);
                }
                lemma_push_down_holds(last, acc, es1, q);
                assert(out.0[k] == spec_push_down(last, acc, es1).0);
            },
            None => {
                lemma_input_holds_stable(es, es1, last, q);
                assert(out.0[k] == last);
            },
        }
    } else {
        assert(init[k] == children[k]);
        lemma_push_inputs_holds(init, accs, es, q, k);
        assert(out.0[k] == done[k]);
        lemma_tree_holds_stable(es1, out.1, done[k], q);
    }
}

/// A node above the plans of its inputs holds what it and they hold.
pub proof fn lemma_node_holds(
    es: Seq<AExprView>,
    node: PlanView,
    kids: Seq<PlanTree>,
    q: Node,
    k: int,
)
    requires
        nodes_hold(es, node_predicates(node), q) || (0 <= k < kids.len() && tree_holds(
            es,
            kids[k],
            q,
        )),
    ensures
        tree_holds(es, PlanTree { node, children: kids }, q),
{
    let t = PlanTree { node, children: kids };
    if !nodes_hold(es, node_predicates(node), q) {
        assert(t.children[k] == kids[k]);
    }
}

/// What the pass owes of a node with inputs: given that the node, one
/// of its inputs or one of the accumulators for the inputs holds `q`,
/// the node above the inputs after the pass holds it.
pub proof fn lemma_inputs_hold(
    t: PlanTree,
    accs: Seq<Option<Entries>>,
    es0: Seq<AExprView>,
    es: Seq<AExprView>,
    q: Node,
)
    requires
        wf_exprs(es0),
        wf_exprs(es),
        q.0 < es0.len(),
        extends(es0, es),
        tree_exprs_below(t, es0.len() as int),
        tree_shaped(t),
        accs.len() >= t.children.len(),
        accs_below(accs, es.len() as int),
        fits(spec_push_inputs(t.children, accs, es).1),
        filters_hold(es0, t, q) || exists|k: int|
            0 <= k < t.children.len() && ((#[trigger] accs[k]) matches Some(a) && acc_holds(
                es,
                a,
                q,
            )),
    ensures
        tree_holds(
            spec_push_inputs(t.children, accs, es).1,
            PlanTree { node: t.node, children: spec_push_inputs(t.children, accs, es).0 },
            q,
        ),
        tree_exprs_below(
            PlanTree { node: t.node, children: spec_push_inputs(t.children, accs, es).0 },
            spec_push_inputs(t.children, accs, es).1.len() as int,
        ),
        wf_exprs(spec_push_inputs(t.children, accs, es).1),
        extends(es, spec_push_inputs(t.children, accs, es).1),
    decreases t, 0nat,
{
    let x = ExprTest::Count;
    let (kids, es1) = spec_push_inputs(t.children, accs, es);
    lemma_push_inputs_extends(t.children, accs, es);
    lemma_tree_parts(es0, t, x);
    assert forall|j: int| 0 <= j < t.children.len() implies tree_exprs_below(
        #[trigger] t.children[j],
        es.len() as int,
    ) && tree_shaped(t.children[j]) by {
        lemma_tree_stable(es0, es, t.children[j], x);
    }
    lemma_push_inputs_free(t.children, accs, es, x);
    crate::predicate_pushdown::boundaries::lemma_nodes_stable(es0, es1, t.node.exprs(), x);
    crate::predicate_pushdown::boundaries::lemma_node_over(es1, t.node, kids, x);
    if nodes_hold(es0, node_predicates(t.node), q) {
        assert(nodes_valid(node_predicates(t.node), es0.len() as int)) by {
            assert forall|i: int| 0 <= i < node_predicates(t.node).len() implies (
            #[trigger] node_predicates(t.node)[i]).0 < es0.len() by {
                assert(node_predicates(t.node)[i] == t.node.exprs()[i]);
            }
        }
        lemma_nodes_hold_stable(es0, es1, node_predicates(t.node), q);
        lemma_node_holds(es1, t.node, kids, q, 0);
    } else if exists|k: int|
        0 <= k < t.children.len() && ((#[trigger] accs[k]) matches Some(a) && acc_holds(es, a, q)) {
        let k = choose|k: int|
            0 <= k < t.children.len() && ((#[trigger] accs[k]) matches Some(a) && acc_holds(
                es,
                a,
                q,
            ));
        lemma_push_inputs_holds(t.children, accs, es, q, k);
        lemma_node_holds(es1, t.node, kids, q, k);
    } else {
        let k = choose|k: int|
            0 <= k < t.children.len() && filters_hold(es0, #[trigger] t.children[k], q);
        lemma_input_holds_stable(es0, es, t.children[k], q);
        lemma_push_inputs_holds(t.children, accs, es, q, k);
        lemma_node_holds(es1, t.node, kids, q, k);
    }
}

/// Nothing is lost at a node that lets no predicate pass.
pub proof fn lemma_no_pushdown_holds(t: PlanTree, acc: Entries, es: Seq<AExprView>, q: Node)
    requires
        wf_exprs(es),
        q.0 < es.len(),
        targets_below(acc, es.len() as int),
        tree_exprs_below(t, es.len() as int),
        tree_shaped(t),
        fits(spec_no_pushdown_restart_opt(t, acc, es).1),
        filters_hold(es, t, q) || acc_holds(es, acc, q),
    ensures
        tree_holds(
            spec_no_pushdown_restart_opt(t, acc, es).1,
            spec_no_pushdown_restart_opt(t, acc, es).0,
            q,
        ),
    decreases t, 1nat,
{
    let x = ExprTest::Count;
    let accs = Seq::new(t.children.len(), |i: int| Some(Seq::<(Seq<char>, Node)>::empty()));
    let (kids, es1) = spec_push_inputs(t.children, accs, es);
    let inner = PlanTree { node: t.node, children: kids };
    lemma_push_inputs_extends(t.children, accs, es);
    lemma_combine_extends(entry_nodes(acc), es1);
    lemma_entry_nodes(es, acc, x);
    crate::predicate_pushdown::boundaries::lemma_nodes_stable(es, es1, entry_nodes(acc), x);
    if filters_hold(es, t, q) {
        lemma_inputs_hold(t, accs, es, es, q);
    } else {
        lemma_entry_nodes_hold(es, acc, q);
        lemma_nodes_hold_stable(es, es1, entry_nodes(acc), q);
        lemma_tree_parts(es, t, x);
        assert forall|j: int| 0 <= j < t.children.len() implies tree_shaped(
            #[trigger] t.children[j],
        ) by {}
        lemma_push_inputs_free(t.children, accs, es, x);
        crate::predicate_pushdown::boundaries::lemma_nodes_stable(es, es1, t.node.exprs(), x);
        crate::predicate_pushdown::boundaries::lemma_node_over(es1, t.node, kids, x);
    }
    lemma_apply_holds(inner, entry_nodes(acc), es1, q);
}


/// Nothing is lost at a node that lets predicates pass.
pub proof fn lemma_continue_holds(
    t: PlanTree,
    acc: Entries,
    es: Seq<AExprView>,
    has_projections: bool,
    q: Node,
)
    requires
        wf_exprs(es),
        q.0 < es.len(),
        targets_below(acc, es.len() as int),
        tree_exprs_below(t, es.len() as int),
        tree_shaped(t),
        t.children.len() > 0,
        fits(spec_pushdown_and_continue(t, acc, es, has_projections).1),
        filters_hold(es, t, q) || acc_holds(es, acc, q),
    ensures
        tree_holds(
            spec_pushdown_and_continue(t, acc, es, has_projections).1,
            spec_pushdown_and_continue(t, acc, es, has_projections).0,
            q,
        ),
    decreases t, 2nat,
{
    let x = ExprTest::Count;
    lemma_tree_parts(es, t, x);
    if has_projections && spec_any_has(es, t.node.exprs(), ExprTest::ProjectionBoundary) {
        lemma_no_pushdown_holds(t, acc, es, q);
    } else if has_projections {
        let n = t.children.len();
        let map = spec_projection_map(es, t.node.exprs());
        crate::predicate_pushdown::boundaries::lemma_projection_map_valid(es, t.node.exprs());
        let rule = projection_rule(t.node, es, tree_schema(t.children.last()));
        let (acc1, local, es1) = spec_rewrite_predicates(acc, es, map, rule);
        let accs = Seq::new(
            n,
            |i: int|
                if i == n - 1 {
                    Some(acc1)
                } else {
                    None
                },
        );
        let (kids, es2) = spec_push_inputs(t.children, accs, es1);
        let inner = PlanTree { node: t.node, children: kids };
        lemma_rewrite_extends(acc, es, map, rule);
        lemma_push_inputs_extends(t.children, accs, es1);
        lemma_combine_extends(local, es2);
        lemma_rewrite_free(acc, es, map, rule, x);
        crate::predicate_pushdown::boundaries::lemma_nodes_stable(es1, es2, local, x);
        if filters_hold(es, t, q) {
            lemma_inputs_hold(t, accs, es, es1, q);
        } else {
            lemma_rewrite_holds(acc, es, map, rule, q);
            if acc_holds(es1, acc1, q) {
                assert(accs[n - 1] == Some(acc1));
                lemma_inputs_hold(t, accs, es, es1, q);
            } else {
                lemma_nodes_hold_stable(es1, es2, local, q);
                assert forall|j: int| 0 <= j < t.children.len() implies tree_exprs_below(
                    #[trigger] t.children[j],
                    es1.len() as int,
                ) && tree_shaped(t.children[j]) by {
                    lemma_tree_stable(es, es1, t.children[j], x);
                }
                lemma_push_inputs_free(t.children, accs, es1, x);
                crate::predicate_pushdown::boundaries::lemma_nodes_stable(
                    es,
                    es2,
                    t.node.exprs(),
                    x,
                );
                crate::predicate_pushdown::boundaries::lemma_node_over(es2, t.node, kids, x);
            }
        }
        lemma_apply_holds(inner, local, es2, q);
    } else {
        let accs = spec_schema_accs(t.children, acc, es);
        let local = spec_schema_local(t.children, acc, es);
        let (kids, es1) = spec_push_inputs(t.children, accs, es);
        let inner = PlanTree { node: t.node, children: kids };
        lemma_push_inputs_extends(t.children, accs, es);
        lemma_combine_extends(local, es1);
        crate::predicate_pushdown::boundaries::lemma_schema_accs_free(t.children, acc, es, x);
        crate::predicate_pushdown::boundaries::lemma_schema_local_free(t.children, acc, es, x);
        assert(nodes_valid(local, es.len() as int));
        crate::predicate_pushdown::boundaries::lemma_nodes_stable(es, es1, local, x);
        if filters_hold(es, t, q) {
            lemma_inputs_hold(t, accs, es, es, q);
        } else {
            let c = CriterionView::NotIn(tree_schema(t.children[0]));
            lemma_select_holds(es, c, acc, q);
            if acc_holds(es, spec_staying(es, c, acc), q) {
                assert(accs[0] == Some(spec_staying(es, c, acc)));
                lemma_inputs_hold(t, accs, es, es, q);
            } else {
                lemma_schema_local_holds(t.children, acc, es, q, 0);
                lemma_nodes_hold_stable(es, es1, local, q);
                assert forall|j: int| 0 <= j < t.children.len() implies tree_shaped(
                    #[trigger] t.children[j],
                ) by {}
                lemma_push_inputs_free(t.children, accs, es, x);
                crate::predicate_pushdown::boundaries::lemma_nodes_stable(
                    es,
                    es1,
                    t.node.exprs(),
                    x,
                );
                crate::predicate_pushdown::boundaries::lemma_node_over(es1, t.node, kids, x);
            }
        }
        lemma_apply_holds(inner, local, es1, q);
    }
}

/// Nothing is lost at a node that holds some predicates back.
pub proof fn lemma_hold_back_holds(
    t: PlanTree,
    acc: Entries,
    es: Seq<AExprView>,
    c: CriterionView,
    q: Node,
)
    requires
        wf_exprs(es),
        q.0 < es.len(),
        targets_below(acc, es.len() as int),
        tree_exprs_below(t, es.len() as int),
        tree_shaped(t),
        t.children.len() > 0,
        fits(spec_hold_back(t, acc, es, c).1),
        filters_hold(es, t, q) || acc_holds(es, acc, q),
    ensures
        tree_holds(spec_hold_back(t, acc, es, c).1, spec_hold_back(t, acc, es, c).0, q),
    decreases t, 3nat,
{
    let x = ExprTest::Count;
    let staying = spec_staying(es, c, acc);
    let leaving = spec_leaving(es, c, acc);
    let (t1, es1) = spec_pushdown_and_continue(t, staying, es, false);
    lemma_continue_extends(t, staying, es, false);
    lemma_combine_extends(entry_nodes(leaving), es1);
    lemma_select_free(es, c, acc, false, x);
    lemma_select_free(es, c, acc, true, x);
    lemma_continue_free(t, staying, es, false, x);
    lemma_entry_nodes(es, leaving, x);
    crate::predicate_pushdown::boundaries::lemma_nodes_stable(es, es1, entry_nodes(leaving), x);
    if !filters_hold(es, t, q) {
        lemma_select_holds(es, c, acc, q);
    }
    if filters_hold(es, t, q) || acc_holds(es, staying, q) {
        lemma_continue_holds(t, staying, es, false, q);
    } else {
        lemma_entry_nodes_hold(es, leaving, q);
        lemma_nodes_hold_stable(es, es1, entry_nodes(leaving), q);
    }
    lemma_apply_holds(t1, entry_nodes(leaving), es1, q);
}

/// Nothing is lost at a scan that takes predicates.
pub proof fn lemma_at_scan_holds(
    node: PlanView,
    existing: Option<Node>,
    acc: Entries,
    es: Seq<AExprView>,
    q: Node,
)
    requires
        node is Scan || node is AnonymousScan,
        existing == crate::alp::seq_opt(node.exprs()),
        wf_exprs(es),
        q.0 < es.len(),
        targets_below(acc, es.len() as int),
        nodes_valid(node.exprs(), es.len() as int),
        fits(spec_at_scan(node, existing, acc, es).1),
        nodes_hold(es, node.exprs(), q) || acc_holds(es, acc, q),
    ensures
        tree_holds(spec_at_scan(node, existing, acc, es).1, spec_at_scan(node, existing, acc, es).0, q),
{
    let x = ExprTest::Count;
    let c = CriterionView::Test(ExprTest::FullContext);
    let staying = spec_staying(es, c, acc);
    let leaving = spec_leaving(es, c, acc);
    lemma_at_scan_extends(node, existing, acc, es);
    lemma_predicate_at_scan_extends(staying, existing, es);
    let (pred, es1) = spec_predicate_at_scan(staying, existing, es);
    lemma_combine_extends(entry_nodes(leaving), es1);
    lemma_select_free(es, c, acc, false, x);
    lemma_select_free(es, c, acc, true, x);
    if existing is Some {
        assert(node.exprs()[0] == existing.unwrap());
    }
    lemma_predicate_at_scan_free(staying, existing, es, x);
    let scan = match (pred, node) {
        (Some(p), PlanView::Scan { scan_type: FileScan::Csv, .. }) => PlanTree {
            node: selection_of(p),
            children: seq![leaf(node.with_exprs(seq![]))],
        },
        _ => leaf(node.with_exprs(crate::alp::opt_seq(pred))),
    };
    lemma_at_scan_free(node, existing, acc, es, x);
    assert(tree_exprs_below(scan, es1.len() as int)) by {
        match (pred, node) {
            (Some(p), PlanView::Scan { scan_type: FileScan::Csv, .. }) => {
                let inner = leaf(node.with_exprs(seq![]));
                assert(node.with_exprs(seq![]).exprs() =~= Seq::<Node>::empty());
                assert(selection_of(p).exprs() =~= seq![p]);
                assert(tree_exprs_below(inner, es1.len() as int));
                assert forall|k: int| 0 <= k < scan.children.len() implies tree_exprs_below(
                    #[trigger] scan.children[k],
                    es1.len() as int,
                ) by {
                    assert(scan.children[k] == inner);
                }
            },
            _ => {
                assert(node.with_exprs(crate::alp::opt_seq(pred)).exprs() =~= crate::alp::opt_seq(
                    pred,
                ));
            },
        }
    }
    lemma_entry_nodes(es, leaving, x);
    crate::predicate_pushdown::boundaries::lemma_nodes_stable(es, es1, entry_nodes(leaving), x);
    let on_scan = nodes_hold(es, node.exprs(), q);
    if !on_scan {
        lemma_select_holds(es, c, acc, q);
    }
    if on_scan || acc_holds(es, staying, q) {
        if on_scan {
            let i = choose|i: int|
                0 <= i < node.exprs().len() && conj_of(es, (#[trigger] node.exprs()[i]).0 as int, q);
            assert(node.exprs()[i] == existing.unwrap());
        }
        lemma_predicate_at_scan_holds(staying, existing, es, q);
        let p = pred.unwrap();
        assert(tree_holds(es1, scan, q)) by {
            match node {
                PlanView::Scan { scan_type: FileScan::Csv, .. } => {
                    assert(node_predicates(selection_of(p)) =~= seq![p]);
                    assert(node_predicates(selection_of(p))[0] == p);
                },
                _ => {
                    let held = node.with_exprs(crate::alp::opt_seq(pred));
                    assert(node_predicates(held) =~= seq![p]);
                    assert(node_predicates(held)[0] == p);
                },
            }
        }
    } else {
        lemma_entry_nodes_hold(es, leaving, q);
        lemma_nodes_hold_stable(es, es1, entry_nodes(leaving), q);
    }
    lemma_apply_holds(scan, entry_nodes(leaving), es1, q);
}

/// Nothing is lost at a filter.
pub proof fn lemma_selection_holds(t: PlanTree, acc: Entries, es: Seq<AExprView>, q: Node)
    requires
        wf_exprs(es),
        q.0 < es.len(),
        targets_below(acc, es.len() as int),
        tree_exprs_below(t, es.len() as int),
        tree_shaped(t),
        fits(spec_push_down(t, acc, es).1),
        filters_hold(es, t, q) || acc_holds(es, acc, q),
        t.node is Selection,
    ensures
        tree_holds(spec_push_down(t, acc, es).1, spec_push_down(t, acc, es).0, q),
    decreases t, 4nat,
{
    let x = ExprTest::Count;
    lemma_tree_parts(es, t, x);
    let predicate = t.node->Selection_predicate;
    let c = CriterionView::Test(ExprTest::PushdownBoundary);
    let staying = spec_staying(es, c, acc);
    let leaving = spec_leaving(es, c, acc);
    let (acc1, es1) = spec_insert_and_combine(staying, predicate, es);
    let accs = seq![Some(acc1)];
    let (kids, es2) = spec_push_inputs(t.children, accs, es1);
    assert(extends(es, es1));
    lemma_push_inputs_extends(t.children, accs, es1);
    lemma_combine_extends(entry_nodes(leaving), es2);
    assert(t.node.exprs()[0] == predicate);
    assert(node_predicates(t.node) =~= seq![predicate]);
    lemma_select_free(es, c, acc, false, x);
    lemma_select_free(es, c, acc, true, x);
    lemma_insert_free(staying, predicate, es, x);
    assert forall|k: int| 0 <= k < t.children.len() implies tree_exprs_below(
        #[trigger] t.children[k],
        es1.len() as int,
    ) && tree_shaped(t.children[k]) by {
        lemma_tree_stable(es, es1, t.children[k], x);
    }
    lemma_push_inputs_free(t.children, accs, es1, x);
    lemma_entry_nodes(es, leaving, x);
    crate::predicate_pushdown::boundaries::lemma_nodes_stable(es, es2, entry_nodes(leaving), x);
    assert(t.children.len() == 1);
    let on_node = nodes_hold(es, node_predicates(t.node), q);
    let below = !on_node && filters_hold(es, t, q);
    if below {
        let k = choose|k: int| 0 <= k < t.children.len() && filters_hold(es, #[trigger] t.children[k], q);
        lemma_input_holds_stable(es, es1, t.children[0], q);
    }
    if !on_node && !below {
        lemma_select_holds(es, c, acc, q);
    }
    if on_node || below || acc_holds(es, staying, q) {
        if on_node {
            let i = choose|i: int|
                0 <= i < node_predicates(t.node).len() && conj_of(
                    es,
                    (#[trigger] node_predicates(t.node)[i]).0 as int,
                    q,
                );
            assert(node_predicates(t.node)[i] == predicate);
        }
        if !below {
            lemma_insert_holds(staying, predicate, es, q);
        }
        lemma_push_inputs_holds(t.children, accs, es1, q, 0);
    } else {
        lemma_entry_nodes_hold(es, leaving, q);
        lemma_nodes_hold_stable(es, es2, entry_nodes(leaving), q);
    }
    lemma_apply_holds(kids[0], entry_nodes(leaving), es2, q);
}

/// Nothing is lost at a scan.
pub proof fn lemma_scans_hold(t: PlanTree, acc: Entries, es: Seq<AExprView>, q: Node)
    requires
        wf_exprs(es),
        q.0 < es.len(),
        targets_below(acc, es.len() as int),
        tree_exprs_below(t, es.len() as int),
        tree_shaped(t),
        fits(spec_push_down(t, acc, es).1),
        filters_hold(es, t, q) || acc_holds(es, acc, q),
        t.node is DataFrameScan || t.node is Scan || t.node is AnonymousScan || t.node is PythonScan,
    ensures
        tree_holds(spec_push_down(t, acc, es).1, spec_push_down(t, acc, es).0, q),
    decreases t, 4nat,
{
    let x = ExprTest::Count;
    lemma_tree_parts(es, t, x);
    let existing = crate::alp::seq_opt(t.node.exprs());
    assert(t.children.len() == 0);
    assert(node_predicates(t.node) == t.node.exprs());
    match t.node {
        PlanView::DataFrameScan { selection, .. } => {
            let on_scan = nodes_hold(es, t.node.exprs(), q);
            if on_scan {
                let i = choose|i: int|
                    0 <= i < t.node.exprs().len() && conj_of(
                        es,
                        (#[trigger] t.node.exprs()[i]).0 as int,
                        q,
                    );
                assert(t.node.exprs()[i] == selection.unwrap());
            }
            if selection is Some {
                assert(t.node.exprs()[0] == selection.unwrap());
            }
            lemma_predicate_at_scan_holds(acc, selection, es, q);
            let (pred, es1) = spec_predicate_at_scan(acc, selection, es);
            let held = t.node.with_exprs(crate::alp::opt_seq(pred));
            assert(node_predicates(held) =~= seq![pred.unwrap()]);
            assert(node_predicates(held)[0] == pred.unwrap());
        },
        PlanView::Scan { predicate, .. } => {
            lemma_at_scan_holds(t.node, predicate, acc, es, q);
        },
        PlanView::AnonymousScan { allows_predicate_pushdown, predicate, .. } => {
            if allows_predicate_pushdown {
                lemma_at_scan_holds(t.node, predicate, acc, es, q);
            } else {
                lemma_no_pushdown_holds(t, acc, es, q);
            }
        },
        PlanView::PythonScan { pyarrow, predicate, .. } => {
            if pyarrow {
                if nodes_hold(es, t.node.exprs(), q) {
                    let i = choose|i: int|
                        0 <= i < t.node.exprs().len() && conj_of(
                            es,
                            (#[trigger] t.node.exprs()[i]).0 as int,
                            q,
                        );
                    assert(t.node.exprs()[i] == predicate.unwrap());
                }
                if predicate is Some {
                    assert(t.node.exprs()[0] == predicate.unwrap());
                }
                lemma_predicate_at_scan_extends(acc, predicate, es);
                let (pred, es1) = spec_predicate_at_scan(acc, predicate, es);
                if pred is Some {
                    let p = pred.unwrap();
                    lemma_predicate_at_scan_free(acc, predicate, es, x);
                    if spec_predicate_to_pa(es1, p.0 as int) is None {
                        lemma_combine_extends(seq![p], es1);
                    }
                }
                lemma_predicate_at_scan_holds(acc, predicate, es, q);
                let p = pred.unwrap();
                match spec_predicate_to_pa(es1, p.0 as int) {
                    Some(text) => {
                        assert(conj_of(es1, p.0 as int, q));
                    },
                    None => {
                        let bare = leaf(t.node.with_exprs(seq![]));
                        assert(seq![p][0] == p);
                        assert(bare.node.exprs() =~= Seq::<Node>::empty());
                        lemma_apply_holds(bare, seq![p], es1, q);
                    },
                }
            } else {
                lemma_no_pushdown_holds(t, acc, es, q);
            }
        },
        _ => {},
    }
}

/// Nothing is lost at a local projection.
pub proof fn lemma_local_projection_holds(t: PlanTree, acc: Entries, es: Seq<AExprView>, q: Node)
    requires
        wf_exprs(es),
        q.0 < es.len(),
        targets_below(acc, es.len() as int),
        tree_exprs_below(t, es.len() as int),
        tree_shaped(t),
        fits(spec_push_down(t, acc, es).1),
        filters_hold(es, t, q) || acc_holds(es, acc, q),
        t.node is LocalProjection,
    ensures
        tree_holds(spec_push_down(t, acc, es).1, spec_push_down(t, acc, es).0, q),
    decreases t, 4nat,
{
    let x = ExprTest::Count;
    lemma_tree_parts(es, t, x);
    let expr = t.node->LocalProjection_expr;
    let accs = seq![Some(acc)];
    let (kids, es1) = spec_push_inputs(t.children, accs, es);
    lemma_push_inputs_free(t.children, accs, es, x);
    assert(t.children.len() == 1);
    assert(node_predicates(t.node) =~= Seq::<Node>::empty());
    if filters_hold(es, t, q) {
        let k = choose|k: int| 0 <= k < t.children.len() && filters_hold(es, #[trigger] t.children[k], q);
    }
    lemma_push_inputs_holds(t.children, accs, es, q, 0);
    let kept = spec_valid_exprs(es1, expr, tree_schema(kids[0]));
    let node = PlanView::LocalProjection {
        expr: kept,
        input: Node(0),
        schema: crate::predicate_pushdown::utils::spec_output_names(es1, kept),
    };
    lemma_node_holds(es1, node, kids, q, 0);
}

/// Nothing is lost at a distinct.
pub proof fn lemma_distinct_holds(t: PlanTree, acc: Entries, es: Seq<AExprView>, q: Node)
    requires
        wf_exprs(es),
        q.0 < es.len(),
        targets_below(acc, es.len() as int),
        tree_exprs_below(t, es.len() as int),
        tree_shaped(t),
        fits(spec_push_down(t, acc, es).1),
        filters_hold(es, t, q) || acc_holds(es, acc, q),
        t.node is Distinct,
    ensures
        tree_holds(spec_push_down(t, acc, es).1, spec_push_down(t, acc, es).0, q),
    decreases t, 4nat,
{
    let x = ExprTest::Count;
    lemma_tree_parts(es, t, x);
    let keep = t.node->keep_strategy;
    assert(t.children.len() == 1);
    if keep is Any || keep is Neither {
        let c1 = CriterionView::MultiRoot;
        let c2 = CriterionView::Test(ExprTest::PushdownBoundary);
        let acc1 = spec_staying(es, c1, acc);
        let acc2 = spec_staying(es, c2, acc1);
        let l1 = entry_nodes(spec_leaving(es, c1, acc));
        let l2 = entry_nodes(spec_leaving(es, c2, acc1));
        let local = l1 + l2;
        let accs = seq![Some(acc2)];
        let (kids, es1) = spec_push_inputs(t.children, accs, es);
        let inner = PlanTree { node: t.node, children: kids };
        lemma_push_inputs_extends(t.children, accs, es);
        lemma_combine_extends(local, es1);
        lemma_select_free(es, c1, acc, false, x);
        lemma_select_free(es, c1, acc, true, x);
        lemma_select_free(es, c2, acc1, false, x);
        lemma_select_free(es, c2, acc1, true, x);
        assert(targets_below(acc1, es.len() as int));
        assert(targets_below(acc2, es.len() as int));
        assert(targets_below(spec_leaving(es, c1, acc), es.len() as int));
        assert(targets_below(spec_leaving(es, c2, acc1), es.len() as int));
        lemma_entry_nodes(es, spec_leaving(es, c1, acc), x);
        lemma_entry_nodes(es, spec_leaving(es, c2, acc1), x);
        assert(nodes_valid(l1, es.len() as int));
        assert(nodes_valid(l2, es.len() as int));
        assert(nodes_valid(local, es.len() as int)) by {
            assert forall|i: int| 0 <= i < local.len() implies (#[trigger] local[i]).0 < es.len() by {
                if i < l1.len() {
                    assert(local[i] == l1[i]);
                } else {
                    assert(local[i] == l2[i - l1.len()]);
                }
            }
        }
        crate::predicate_pushdown::boundaries::lemma_nodes_stable(es, es1, local, x);
        let in_tree = filters_hold(es, t, q);
        if !in_tree {
            lemma_select_holds(es, c1, acc, q);
            if acc_holds(es, acc1, q) {
                lemma_select_holds(es, c2, acc1, q);
            }
        }
        if in_tree || acc_holds(es, acc2, q) {
            lemma_inputs_hold(t, accs, es, es, q);
        } else {
            assert(nodes_hold(es, local, q)) by {
                if acc_holds(es, spec_leaving(es, c1, acc), q) {
                    lemma_entry_nodes_hold(es, spec_leaving(es, c1, acc), q);
                    let i = choose|i: int|
                        0 <= i < l1.len() && conj_of(es, (#[trigger] l1[i]).0 as int, q);
                    assert(local[i] == l1[i]);
                } else {
                    lemma_entry_nodes_hold(es, spec_leaving(es, c2, acc1), q);
                    let i = choose|i: int|
                        0 <= i < l2.len() && conj_of(es, (#[trigger] l2[i]).0 as int, q);
                    assert(local[l1.len() + i] == l2[i]);
                }
            }
            lemma_nodes_hold_stable(es, es1, local, q);
            assert forall|j: int| 0 <= j < t.children.len() implies tree_shaped(
                #[trigger] t.children[j],
            ) by {}
            lemma_push_inputs_free(t.children, accs, es, x);
            crate::predicate_pushdown::boundaries::lemma_nodes_stable(es, es1, t.node.exprs(), x);
            crate::predicate_pushdown::boundaries::lemma_node_over(es1, t.node, kids, x);
        }
        lemma_apply_holds(inner, local, es1, q);
    } else {
        lemma_no_pushdown_holds(t, acc, es, q);
    }
}

/// Nothing is lost at a join.
pub proof fn lemma_join_holds(t: PlanTree, acc: Entries, es: Seq<AExprView>, q: Node)
    requires
        wf_exprs(es),
        q.0 < es.len(),
        targets_below(acc, es.len() as int),
        tree_exprs_below(t, es.len() as int),
        tree_shaped(t),
        fits(spec_push_down(t, acc, es).1),
        filters_hold(es, t, q) || acc_holds(es, acc, q),
        t.node is Join,
    ensures
        tree_holds(spec_push_down(t, acc, es).1, spec_push_down(t, acc, es).0, q),
    decreases t, 4nat,
{
    let x = ExprTest::Count;
    lemma_tree_parts(es, t, x);
    let left_on = t.node->left_on;
    let right_on = t.node->right_on;
    let how = t.node->how;
    let sl = tree_schema(t.children[0]);
    let sr = tree_schema(t.children[1]);
    let (left, right, local) = spec_join_partition(acc, es, how, sl, sr, left_on, right_on);
    let es1 = es;
    let accs = seq![Some(left), Some(right)];
    let (kids, es2) = spec_push_inputs(t.children, accs, es1);
    let inner = PlanTree { node: t.node, children: kids };
    lemma_push_inputs_extends(t.children, accs, es1);
    lemma_combine_extends(local, es2);
    lemma_join_partition_free(acc, es, how, sl, sr, left_on, right_on, x);
    assert(t.children.len() == 2) by {
        assert(t.node.inputs().len() == 2);
    }
    crate::predicate_pushdown::boundaries::lemma_nodes_stable(es1, es2, local, x);
    let side = CriterionView::OneSide { own: sl, other: sr };
    let to_right = CriterionView::OneSide {
        own: sr,
        other: not_for_right(es, how, sl, left_on, right_on),
    };
    let rest = if pushes_left(how) {
        spec_staying(es, side, acc)
    } else {
        acc
    };
    lemma_select_free(es, side, acc, false, x);
    lemma_select_free(es, side, acc, true, x);
    assert(targets_below(left, es.len() as int));
    assert(targets_below(rest, es.len() as int));
    let in_tree = filters_hold(es, t, q);
    if !in_tree {
        // the entry with `q` goes to the left, to the right, or stays
        if pushes_left(how) {
            lemma_select_holds(es, side, acc, q);
        }
        if pushes_left(how) && acc_holds(es, left, q) {
            lemma_acc_holds_stable(es, es1, left, q);
            assert(accs[0] == Some(left));
        } else if pushes_right(how) {
            lemma_select_holds(es, to_right, rest, q);
            if acc_holds(es1, right, q) {
                assert(accs[1] == Some(right));
            } else {
                lemma_entry_nodes_hold(es, spec_staying(es, to_right, rest), q);
            }
        } else {
            lemma_entry_nodes_hold(es, rest, q);
        }
    }
    if in_tree || acc_holds(es1, left, q) || acc_holds(es1, right, q) {
        lemma_inputs_hold(t, accs, es, es1, q);
    } else {
        lemma_nodes_hold_stable(es1, es2, local, q);
        assert forall|j: int| 0 <= j < t.children.len() implies tree_exprs_below(
            #[trigger] t.children[j],
            es1.len() as int,
        ) && tree_shaped(t.children[j]) by {
            lemma_tree_stable(es, es1, t.children[j], x);
        }
        lemma_push_inputs_free(t.children, accs, es1, x);
        crate::predicate_pushdown::boundaries::lemma_nodes_stable(es, es2, t.node.exprs(), x);
        crate::predicate_pushdown::boundaries::lemma_node_over(es2, t.node, kids, x);
    }
    lemma_apply_holds(inner, local, es2, q);
}

/// Nothing is lost at a transform of rows.
pub proof fn lemma_map_function_holds(t: PlanTree, acc: Entries, es: Seq<AExprView>, q: Node)
    requires
        wf_exprs(es),
        q.0 < es.len(),
        targets_below(acc, es.len() as int),
        tree_exprs_below(t, es.len() as int),
        tree_shaped(t),
        fits(spec_push_down(t, acc, es).1),
        filters_hold(es, t, q) || acc_holds(es, acc, q),
        t.node is MapFunction,
    ensures
        tree_holds(spec_push_down(t, acc, es).1, spec_push_down(t, acc, es).0, q),
    decreases t, 4nat,
{
    let x = ExprTest::Count;
    lemma_tree_parts(es, t, x);
    let function = t.node->function;
    assert(t.children.len() == 1);
    if !function.allow_predicate_pd() {
        lemma_no_pushdown_holds(t, acc, es, q);
    } else {
        match function {
            FunctionNodeView::Rename { existing, new } => {
                let input_schema = tree_schema(t.children[0]);
                let (acc1, local, es1) = spec_process_rename(acc, es, existing, new, input_schema);
                let (t1, es2) = spec_pushdown_and_continue(t, acc1, es1, false);
                lemma_process_rename_extends(acc, es, existing, new, input_schema);
                lemma_continue_extends(t, acc1, es1, false);
                lemma_combine_extends(local, es2);
                lemma_process_rename_free(acc, es, existing, new, input_schema, x);
                lemma_tree_stable(es, es1, t, x);
                lemma_continue_free(t, acc1, es1, false, x);
                crate::predicate_pushdown::boundaries::lemma_nodes_stable(es1, es2, local, x);
                let in_tree = filters_hold(es, t, q);
                if in_tree {
                    lemma_input_holds_stable(es, es1, t, q);
                } else {
                    let k = pair_count(existing, new);
                    let (map, em) = spec_rename_map(es, existing, new, k);
                    lemma_rename_map_extends(es, existing, new, k);
                    lemma_rewrite_extends(acc, em, map, rename_rule(input_schema));
                    lemma_rename_map_free(es, existing, new, k, x);
                    lemma_acc_holds_stable(es, em, acc, q);
                    lemma_rewrite_holds(acc, em, map, rename_rule(input_schema), q);
                }
                if in_tree || acc_holds(es1, acc1, q) {
                    lemma_continue_holds(t, acc1, es1, false, q);
                } else {
                    lemma_nodes_hold_stable(es1, es2, local, q);
                }
                lemma_apply_holds(t1, local, es2, q);
            },
            FunctionNodeView::Explode { columns } => {
                if spec_any_has(es, entry_nodes(acc), ExprTest::PushdownBoundary) {
                    let none: Entries = seq![];
                    let (t1, es1) = spec_pushdown_and_continue(t, none, es, false);
                    lemma_continue_extends(t, none, es, false);
                    lemma_combine_extends(entry_nodes(acc), es1);
                    lemma_continue_free(t, none, es, false, x);
                    lemma_entry_nodes(es, acc, x);
                    crate::predicate_pushdown::boundaries::lemma_nodes_stable(
                        es,
                        es1,
                        entry_nodes(acc),
                        x,
                    );
                    if filters_hold(es, t, q) {
                        lemma_continue_holds(t, none, es, false, q);
                    } else {
                        lemma_entry_nodes_hold(es, acc, q);
                        lemma_nodes_hold_stable(es, es1, entry_nodes(acc), q);
                    }
                    lemma_apply_holds(t1, entry_nodes(acc), es1, q);
                } else {
                    lemma_hold_back_holds(t, acc, es, CriterionView::Names(columns), q);
                }
            },
            FunctionNodeView::Melt { value_vars, variable_name, value_name, .. } => {
                lemma_hold_back_holds(
                    t,
                    acc,
                    es,
                    CriterionView::Names(melt_names(value_vars, variable_name, value_name)),
                    q,
                );
            },
            FunctionNodeView::Opaque { .. } => {
                lemma_continue_holds(t, acc, es, false, q);
            },
        }
    }
}

/// Nothing is lost at the other kinds of node.
pub proof fn lemma_passing_holds(t: PlanTree, acc: Entries, es: Seq<AExprView>, q: Node)
    requires
        wf_exprs(es),
        q.0 < es.len(),
        targets_below(acc, es.len() as int),
        tree_exprs_below(t, es.len() as int),
        tree_shaped(t),
        fits(spec_push_down(t, acc, es).1),
        filters_hold(es, t, q) || acc_holds(es, acc, q),
        t.node is Union || t.node is Sort || t.node is FileSink || t.node is CloudSink
            || t.node is ExtContext || t.node is Projection || t.node is HStack || t.node is Slice
            || t.node is Cache || t.node is Aggregate,
    ensures
        tree_holds(spec_push_down(t, acc, es).1, spec_push_down(t, acc, es).0, q),
    decreases t, 4nat,
{
    let x = ExprTest::Count;
    lemma_tree_parts(es, t, x);
    match t.node {
        PlanView::Union { .. } => {
            let c = CriterionView::Test(ExprTest::Count);
            if t.children.len() > 0 {
                lemma_hold_back_holds(t, acc, es, c, q);
            } else {
                // a union of nothing takes no predicate, and has no rows
                let staying = spec_staying(es, c, acc);
                let leaving = spec_leaving(es, c, acc);
                let t1 = PlanTree { node: t.node, children: Seq::<PlanTree>::empty() };
                assert(spec_push_inputs(t.children, spec_schema_accs(t.children, staying, es), es)
                    == (Seq::<PlanTree>::empty(), es));
                assert(spec_schema_local(t.children, staying, es) == Seq::<Node>::empty());
                assert(spec_pushdown_and_continue(t, staying, es, false) == (t1, es));
                lemma_select_free(es, c, acc, true, x);
                lemma_entry_nodes(es, leaving, x);
                assert(without_rows(t1));
                lemma_apply_holds(t1, entry_nodes(leaving), es, q);
            }
        },
        PlanView::Sort { .. } => {
            assert(t.children.len() == 1);
            lemma_hold_back_holds(t, acc, es, CriterionView::Test(ExprTest::SortBoundary), q);
        },
        PlanView::FileSink { .. } | PlanView::CloudSink { .. } => {
            assert(t.children.len() == 1);
            lemma_continue_holds(t, acc, es, false, q);
        },
        PlanView::ExtContext { input, contexts, .. } => {
            assert(t.node.inputs() == contexts.push(input));
            assert(t.children.len() > 0);
            lemma_continue_holds(t, acc, es, true, q);
        },
        PlanView::Projection { .. } | PlanView::HStack { .. } => {
            assert(t.children.len() == 1);
            lemma_continue_holds(t, acc, es, true, q);
        },
        PlanView::Slice { .. } | PlanView::Cache { .. } | PlanView::Aggregate { .. } => {
            lemma_no_pushdown_holds(t, acc, es, q);
        },
        _ => {},
    }
}

/// Accumulator drained: no predicate gets lost. Whatever a filter or a
/// scan of the plan holds before the pass, or the accumulator that
/// comes in, a filter or a scan of the plan holds after it: as the
/// predicate of the node or as a part of the conjunction that the
/// predicate is.
///
/// A predicate that crosses a rename, a projection that computes
/// columns or an inner join is held in the form that the node gives it:
/// with the columns that the node defines replaced by their
/// definitions.
///
/// After the pass, a scan through a foreign engine holds a predicate
/// in the text that it has taken, and a union of nothing, which has no
/// rows, holds every predicate: see [`tree_holds`].
pub proof fn lemma_push_down_holds(t: PlanTree, acc: Entries, es: Seq<AExprView>, q: Node)
    requires
        wf_exprs(es),
        q.0 < es.len(),
        targets_below(acc, es.len() as int),
        tree_exprs_below(t, es.len() as int),
        tree_shaped(t),
        fits(spec_push_down(t, acc, es).1),
        filters_hold(es, t, q) || acc_holds(es, acc, q),
    ensures
        tree_holds(spec_push_down(t, acc, es).1, spec_push_down(t, acc, es).0, q),
    decreases t, 5nat,
{
    match t.node {
        PlanView::Selection { .. } => lemma_selection_holds(t, acc, es, q),
        PlanView::DataFrameScan { .. }
        | PlanView::Scan { .. }
        | PlanView::AnonymousScan { .. }
        | PlanView::PythonScan { .. } => lemma_scans_hold(t, acc, es, q),
        PlanView::LocalProjection { .. } => lemma_local_projection_holds(t, acc, es, q),
        PlanView::Distinct { .. } => lemma_distinct_holds(t, acc, es, q),
        PlanView::Join { .. } => lemma_join_holds(t, acc, es, q),
        PlanView::MapFunction { .. } => lemma_map_function_holds(t, acc, es, q),
        _ => lemma_passing_holds(t, acc, es, q),
    }
}


/// Accumulator drained, for a plan in an arena: what a filter or a scan
/// of the plan in the arena holds, a filter or a scan of the plan that
/// the pass leaves holds.
pub proof fn lemma_optimize_loses_nothing(
    s: crate::plan_tree::Slots,
    lp: PlanView,
    es: Seq<AExprView>,
    q: Node,
)
    requires
        crate::predicate_pushdown::refine::is_plan(s, lp, es.len() as int),
        wf_exprs(es),
        q.0 < es.len(),
        fits(spec_push_down(crate::predicate_pushdown::refine::plan_of(s, lp), seq![], es).1),
        filters_hold(es, crate::predicate_pushdown::refine::plan_of(s, lp), q),
    ensures
        tree_holds(
            spec_push_down(crate::predicate_pushdown::refine::plan_of(s, lp), seq![], es).1,
            spec_push_down(crate::predicate_pushdown::refine::plan_of(s, lp), seq![], es).0,
            q,
        ),
{
    crate::predicate_pushdown::laws::lemma_plan_shaped(s, lp, es.len() as int);
    lemma_push_down_holds(crate::predicate_pushdown::refine::plan_of(s, lp), seq![], es, q);
}

} // verus!
