//! How the arenas after a pass relate to the plan before it: the lemmas
//! that carry the rules of the model over to plans in an arena.

use vstd::prelude::*;

use crate::alp::{ALogicalPlan, PlanView};
use crate::arena::Node;
use crate::plan_tree::{agree_on_footprint, in_footprint, minus, unfold_at, unfold_inputs};
use crate::plan_tree::{lemma_unfold_at_frame, lemma_unfold_at_fuel, lemma_unfold_at_vacates};
use crate::plan_tree::{lemma_unfold_inputs_frame, lemma_unfold_inputs_fuel};
use crate::plan_tree::{lemma_unfold_inputs_vacates, vacates, PlanTree, Slots};
use crate::aexpr::AExprView;
use crate::plan_schema::{count_some, lemma_count_bound, lemma_schema_fuel};
use crate::plan_schema::{lemma_schema_of_tree, lemma_unfold_at_depth, spec_schema, tree_schema};
use crate::error::PolarsResult;
use crate::predicate_pushdown::model::{leaf, selection_of, spec_optional_apply_predicate};
use crate::predicate_pushdown::model::{spec_push_down, spec_push_inputs, Entries};
use crate::predicate_pushdown::layout::{enters, enters_all, lay_inputs, lay_node, lay_slot};
use crate::predicate_pushdown::layout::{lemma_lay_inputs_reads, lemma_lay_wrapped};
use crate::predicate_pushdown::layout::{lemma_places_push, lemma_places_update};
use crate::predicate_pushdown::layout::{core_of, filters_of, lemma_restore_inputs, places};
use crate::predicate_pushdown::layout::lemma_lay_kept;
use crate::predicate_pushdown::layout::Places;
use crate::predicate_pushdown::utils::spec_combine_predicates;

verus! {

/// The plan whose root is the node `lp`, which is not in the arena, and
/// the slots that are left when the slots of its inputs are vacated.
pub open spec fn unfold_node(s: Slots, lp: PlanView, fuel: nat) -> Option<(PlanTree, Slots)> {
    match unfold_inputs(s, lp.inputs(), fuel) {
        Some((kids, rest)) => Some((PlanTree { node: lp.erased(), children: kids }, rest)),
        None => None,
    }
}

/// Whether every expression that a node of the plan names has a handle
/// below `n`.
pub open spec fn tree_exprs_below(t: PlanTree, n: int) -> bool
    decreases t,
{
    &&& forall|i: int| 0 <= i < t.node.exprs().len() ==> (#[trigger] t.node.exprs()[i]).0 < n
    &&& forall|k: int| 0 <= k < t.children.len() ==> tree_exprs_below(#[trigger] t.children[k], n)
}

/// Whether every plan of the list names only expressions below `n`.
pub open spec fn forest_exprs_below(ts: Seq<PlanTree>, n: int) -> bool {
    forall|k: int| 0 <= k < ts.len() ==> tree_exprs_below(#[trigger] ts[k], n)
}

/// A plan that names expressions below `n` names expressions below any
/// larger bound.
pub proof fn lemma_exprs_below_grows(t: PlanTree, n: int, m: int)
    requires
        tree_exprs_below(t, n),
        n <= m,
    ensures
        tree_exprs_below(t, m),
    decreases t,
{
    assert forall|k: int| 0 <= k < t.children.len() implies tree_exprs_below(
        #[trigger] t.children[k],
        m,
    ) by {
        lemma_exprs_below_grows(t.children[k], n, m);
    }
}

/// Whether the nodes of the plan `t2` with the root `lp2` lie in the
/// arena `after` where [`lay_node`] puts them.
pub closed spec fn node_laid(
    before: Slots,
    lp: PlanView,
    after: Slots,
    lp2: PlanView,
    t2: PlanTree,
    fuel: nat,
) -> bool {
    (places(after), lp2) == lay_node(places(before), lp, t2, fuel)
}

/// As [`node_laid`], for the plan in slot `h`.
pub closed spec fn slot_laid(before: Slots, h: Node, after: Slots, t2: PlanTree, fuel: nat) -> bool {
    places(after) == lay_slot(places(before), h, t2, fuel)
}

/// As [`node_laid`], for the plans in the slots `inputs`.
pub closed spec fn inputs_laid(
    before: Slots,
    inputs: Seq<Node>,
    entered: Seq<bool>,
    after: Slots,
    ts2: Seq<PlanTree>,
    fuel: nat,
) -> bool {
    places(after) == lay_inputs(places(before), inputs, entered, ts2, fuel)
}

/// What [`node_laid`] says.
pub proof fn lemma_node_laid(
    before: Slots,
    lp: PlanView,
    after: Slots,
    lp2: PlanView,
    t2: PlanTree,
    fuel: nat,
)
    ensures
        node_laid(before, lp, after, lp2, t2, fuel) == ((places(after), lp2) == lay_node(
            places(before),
            lp,
            t2,
            fuel,
        )),
{
}

/// No input has been rewritten yet.
pub proof fn lemma_laid_none(a: Slots, inputs: Seq<Node>, entered: Seq<bool>, fuel: nat)
    ensures
        inputs_laid(a, inputs.take(0), entered, a, Seq::<PlanTree>::empty(), fuel),
{
    assert(inputs.take(0).len() == 0);
}

/// The slots that a pass leaves beside the plan it rewrote: below
/// `bound` those that the plan left before the pass, then the slots that
/// were there before and are no part of the plan, and none of the slots
/// that the pass added, which all belong to the new plan.
pub open spec fn grown(rest: Slots, before: Slots, after: Slots, bound: int) -> Slots {
    Seq::new(
        after.len(),
        |i: int|
            if i < bound {
                rest[i]
            } else if i < before.len() {
                before[i]
            } else {
                None
            },
    )
}

/// The plan of the node `lp` over the slots below `bound`.
pub open spec fn node_tree(s: Slots, lp: PlanView, bound: int, fuel: nat) -> PlanTree {
    unfold_node(s.take(bound), lp, fuel).unwrap().0
}

/// Whether the node `lp` is the root of a plan that is a tree over the
/// slots below `bound`, no deeper than `fuel`, whose nodes name only
/// expressions below `n`.
pub open spec fn is_node_tree(s: Slots, lp: PlanView, bound: int, fuel: nat, n: int) -> bool {
    unfold_node(s.take(bound), lp, fuel) is Some && tree_exprs_below(
        node_tree(s, lp, bound, fuel),
        n,
    )
}

/// Whether the arena `after` with the node `lp2` holds the plan `t2` in
/// the slots that the plan of `lp` had in `before` and in the slots
/// that have been added, each node in the slot that [`lay_node`] gives
/// it, and nothing else has changed.
pub open spec fn node_refines(
    before: Slots,
    lp: PlanView,
    after: Slots,
    lp2: PlanView,
    bound: int,
    fuel: nat,
    t2: PlanTree,
) -> bool {
    let rest = unfold_node(before.take(bound), lp, fuel).unwrap().1;
    &&& before.len() <= after.len()
    &&& unfold_node(after, lp2, (fuel + (after.len() - before.len())) as nat) == Some(
        (t2, grown(rest, before, after, bound)),
    )
    &&& forall|i: int| 0 <= i < bound ==> (#[trigger] rest[i]) is Some ==> after[i] == before[i]
    &&& node_laid(before, lp, after, lp2, t2, fuel)
}

/// The plan in slot `h` over the slots below `bound`.
pub open spec fn slot_tree(s: Slots, h: Node, bound: int, fuel: nat) -> PlanTree {
    unfold_at(s.take(bound), h, fuel).unwrap().0
}

/// As [`is_node_tree`], for the plan in slot `h`.
pub open spec fn is_slot_tree(s: Slots, h: Node, bound: int, fuel: nat, n: int) -> bool {
    unfold_at(s.take(bound), h, fuel) is Some && tree_exprs_below(slot_tree(s, h, bound, fuel), n)
}

/// As [`node_refines`], for the plan in slot `h`.
pub open spec fn slot_refines(
    before: Slots,
    h: Node,
    after: Slots,
    bound: int,
    fuel: nat,
    t2: PlanTree,
) -> bool {
    let rest = unfold_at(before.take(bound), h, fuel).unwrap().1;
    &&& before.len() <= after.len()
    &&& unfold_at(after, h, (fuel + (after.len() - before.len())) as nat) == Some(
        (t2, grown(rest, before, after, bound)),
    )
    &&& forall|i: int| 0 <= i < bound ==> (#[trigger] rest[i]) is Some ==> after[i] == before[i]
    &&& slot_laid(before, h, after, t2, fuel)
}

/// The plans in the slots `inputs` over the slots below `bound`.
pub open spec fn forest(s: Slots, inputs: Seq<Node>, bound: int, fuel: nat) -> Seq<PlanTree> {
    unfold_inputs(s.take(bound), inputs, fuel).unwrap().0
}

/// As [`is_node_tree`], for the plans in the slots `inputs`.
pub open spec fn is_forest(s: Slots, inputs: Seq<Node>, bound: int, fuel: nat, n: int) -> bool {
    unfold_inputs(s.take(bound), inputs, fuel) is Some && forest_exprs_below(
        forest(s, inputs, bound, fuel),
        n,
    )
}

/// As [`node_refines`], for the plans in the slots `inputs`, of which
/// the pass has entered those that `entered` marks.
pub open spec fn inputs_refine(
    before: Slots,
    inputs: Seq<Node>,
    entered: Seq<bool>,
    after: Slots,
    bound: int,
    fuel: nat,
    ts2: Seq<PlanTree>,
) -> bool {
    let rest = unfold_inputs(before.take(bound), inputs, fuel).unwrap().1;
    &&& before.len() <= after.len()
    &&& unfold_inputs(after, inputs, (fuel + (after.len() - before.len())) as nat) == Some(
        (ts2, grown(rest, before, after, bound)),
    )
    &&& forall|i: int| 0 <= i < bound ==> (#[trigger] rest[i]) is Some ==> after[i] == before[i]
    &&& inputs_laid(before, inputs, entered, after, ts2, fuel)
}

/// The first `k` of several plans unfold by themselves as they do among
/// the others, and the plan after them unfolds in what they leave.
pub proof fn lemma_unfold_take(s: Slots, inputs: Seq<Node>, fuel: nat, k: int)
    requires
        unfold_inputs(s, inputs, fuel) is Some,
        0 <= k <= inputs.len(),
    ensures
        unfold_inputs(s, inputs, fuel).unwrap().0.len() == inputs.len(),
        unfold_inputs(s, inputs.take(k), fuel) is Some,
        unfold_inputs(s, inputs.take(k), fuel).unwrap().0 == unfold_inputs(
            s,
            inputs,
            fuel,
        ).unwrap().0.take(k),
        vacates(s, unfold_inputs(s, inputs.take(k), fuel).unwrap().1),
        vacates(
            unfold_inputs(s, inputs.take(k), fuel).unwrap().1,
            unfold_inputs(s, inputs, fuel).unwrap().1,
        ),
        k < inputs.len() ==> unfold_at(
            unfold_inputs(s, inputs.take(k), fuel).unwrap().1,
            inputs[k],
            fuel,
        ) == Some(
            (
                unfold_inputs(s, inputs, fuel).unwrap().0[k],
                unfold_inputs(s, inputs.take(k + 1), fuel).unwrap().1,
            ),
        ),
    decreases inputs.len(),
{
    let full = unfold_inputs(s, inputs, fuel).unwrap();
    lemma_unfold_inputs_vacates(s, inputs, fuel);
    if k == inputs.len() {
        assert(inputs.take(k) =~= inputs);
        assert(full.0.take(k) =~= full.0) by {
            if inputs.len() > 0 {
                lemma_unfold_take(s, inputs.drop_last(), fuel, inputs.len() - 1);
            }
        }
        if inputs.len() > 0 {
            lemma_unfold_take(s, inputs.drop_last(), fuel, inputs.len() - 1);
        }
    } else {
        let init = inputs.drop_last();
        let before_last = unfold_inputs(s, init, fuel).unwrap();
        lemma_unfold_take(s, init, fuel, k);
        lemma_unfold_at_vacates(before_last.1, inputs.last(), fuel);
        assert(init.take(k) =~= inputs.take(k));
        assert(before_last.0.take(k) =~= full.0.take(k));
        if k == inputs.len() - 1 {
            assert(init.take(k) =~= init);
            assert(inputs.take(k + 1) =~= inputs);
        } else {
            assert(init.take(k + 1) =~= inputs.take(k + 1));
            assert(init[k] == inputs[k]);
        }
    }
}

/// A plan under a new filter node: the plan moves to the new slot at the
/// end of the arena, and the filter is the root.
pub proof fn lemma_unfold_wrapped(s: Slots, lp: ALogicalPlan, predicate: Node, fuel: nat)
    requires
        unfold_node(s, lp@, fuel) is Some,
        s.len() <= usize::MAX,
    ensures
        unfold_node(
            s.push(Some(lp)),
            PlanView::Selection { input: Node(s.len() as usize), predicate },
            fuel + 1,
        ) == Some(
            (
                PlanTree {
                    node: selection_of(predicate),
                    children: seq![unfold_node(s, lp@, fuel).unwrap().0],
                },
                unfold_node(s, lp@, fuel).unwrap().1.push(None),
            ),
        ),
{
    let (t, r) = unfold_node(s, lp@, fuel).unwrap();
    let sel = PlanView::Selection { input: Node(s.len() as usize), predicate };
    let s1 = s.push(Some(lp));
    let h = Node(s.len() as usize);
    let s2 = s1.update(h.0 as int, None);
    lemma_unfold_inputs_vacates(s, lp@.inputs(), fuel);
    assert(agree_on_footprint(s, r, s2));
    lemma_unfold_inputs_frame(s, lp@.inputs(), fuel, s2);
    assert(minus(s2, s, r) =~= r.push(None));
    assert(sel.inputs() =~= seq![h]);
    assert(sel.inputs().drop_last() =~= Seq::<Node>::empty());
    assert(sel.erased() == selection_of(predicate)) by {
        assert(Seq::new(sel.inputs().len(), |i: int| Node(0))[0] == Node(0));
    }
    assert(unfold_at(s1, h, fuel + 1) == Some((t, r.push(None))));
    let none: Seq<PlanTree> = seq![];
    assert(unfold_inputs(s1, sel.inputs().drop_last(), fuel + 1) == Some((none, s1)));
    assert(sel.inputs().last() == h);
    assert(none.push(t) =~= seq![t]);
    assert(unfold_inputs(s1, sel.inputs(), fuel + 1) == Some((seq![t], r.push(None))));
}

/// The plan after a plan that was left alone: it unfolds in the arena
/// after the pass as it did before.
pub proof fn lemma_step_untouched(
    a0: Slots,
    ak: Slots,
    bound: int,
    inputs: Seq<Node>,
    k: int,
    fuel: nat,
    new_k: Seq<PlanTree>,
)
    requires
        0 <= bound <= a0.len() <= ak.len(),
        0 <= k < inputs.len(),
        unfold_inputs(a0.take(bound), inputs, fuel) is Some,
        unfold_inputs(
            ak,
            inputs.take(k),
            (fuel + (ak.len() - a0.len())) as nat,
        ) == Some(
            (
                new_k,
                grown(unfold_inputs(a0.take(bound), inputs.take(k), fuel).unwrap().1, a0, ak, bound),
            ),
        ),
    ensures
        unfold_inputs(
            ak,
            inputs.take(k + 1),
            (fuel + (ak.len() - a0.len())) as nat,
        ) == Some(
            (
                new_k.push(unfold_inputs(a0.take(bound), inputs, fuel).unwrap().0[k]),
                grown(
                    unfold_inputs(a0.take(bound), inputs.take(k + 1), fuel).unwrap().1,
                    a0,
                    ak,
                    bound,
                ),
            ),
        ),
{
    let p = a0.take(bound);
    let big = (fuel + (ak.len() - a0.len())) as nat;
    lemma_unfold_take(p, inputs, fuel, k);
    lemma_unfold_take(p, inputs, fuel, k + 1);
    let pk = unfold_inputs(p, inputs.take(k), fuel).unwrap().1;
    let pk1 = unfold_inputs(p, inputs.take(k + 1), fuel).unwrap().1;
    let c = inputs[k];
    let rk = grown(pk, a0, ak, bound);
    lemma_unfold_at_vacates(pk, c, fuel);
    assert(agree_on_footprint(pk, pk1, rk));
    lemma_unfold_at_frame(pk, c, fuel, rk);
    lemma_unfold_at_fuel(rk, c, fuel, big);
    assert(minus(rk, pk, pk1) =~= grown(pk1, a0, ak, bound));
    assert(inputs.take(k + 1).drop_last() =~= inputs.take(k));
    assert(inputs.take(k + 1).last() == c);
}

/// Before the pass goes into the plan at position `k`: that plan is
/// still a tree over the slots below `bound`, the tree that it was when
/// the pass began.
pub proof fn lemma_step_enter(
    a0: Slots,
    ak: Slots,
    bound: int,
    inputs: Seq<Node>,
    k: int,
    fuel: nat,
)
    requires
        0 <= bound <= a0.len() <= ak.len(),
        0 <= k < inputs.len(),
        unfold_inputs(a0.take(bound), inputs, fuel) is Some,
        forall|i: int|
            0 <= i < bound ==> (#[trigger] unfold_inputs(
                a0.take(bound),
                inputs.take(k),
                fuel,
            ).unwrap().1[i]) is Some ==> ak[i] == a0[i],
    ensures
        unfold_at(ak.take(bound), inputs[k], fuel) == Some(
            (
                unfold_inputs(a0.take(bound), inputs, fuel).unwrap().0[k],
                minus(
                    ak.take(bound),
                    unfold_inputs(a0.take(bound), inputs.take(k), fuel).unwrap().1,
                    unfold_inputs(a0.take(bound), inputs.take(k + 1), fuel).unwrap().1,
                ),
            ),
        ),
{
    let p = a0.take(bound);
    lemma_unfold_take(p, inputs, fuel, k);
    let pk = unfold_inputs(p, inputs.take(k), fuel).unwrap().1;
    let pk1 = unfold_inputs(p, inputs.take(k + 1), fuel).unwrap().1;
    assert forall|i: int| #[trigger] in_footprint(pk, pk1, i) implies i < ak.take(bound).len()
        && ak.take(bound)[i] == pk[i] by {
        assert(pk[i] is Some);
        assert(pk[i] == p[i]);
    }
    lemma_unfold_at_frame(pk, inputs[k], fuel, ak.take(bound));
}

/// After the pass has rewritten the plan at position `k`: the plans up
/// to it unfold, in the arena as it is now, to what the pass made of
/// them, and the slots of the plans that follow are as they were.
pub proof fn lemma_step_done(
    a0: Slots,
    ak: Slots,
    ak1: Slots,
    bound: int,
    inputs: Seq<Node>,
    k: int,
    fuel: nat,
    new_k: Seq<PlanTree>,
    tk: PlanTree,
)
    requires
        0 <= bound <= a0.len() <= ak.len() <= ak1.len(),
        0 <= k < inputs.len(),
        unfold_inputs(a0.take(bound), inputs, fuel) is Some,
        // what held before the step
        unfold_inputs(
            ak,
            inputs.take(k),
            (fuel + (ak.len() - a0.len())) as nat,
        ) == Some(
            (
                new_k,
                grown(unfold_inputs(a0.take(bound), inputs.take(k), fuel).unwrap().1, a0, ak, bound),
            ),
        ),
        forall|i: int|
            0 <= i < bound ==> (#[trigger] unfold_inputs(
                a0.take(bound),
                inputs.take(k),
                fuel,
            ).unwrap().1[i]) is Some ==> ak[i] == a0[i],
        forall|i: int| bound <= i < a0.len() ==> #[trigger] ak[i] == a0[i],
        // what the step did
        unfold_at(ak.take(bound), inputs[k], fuel) is Some,
        slot_refines(ak, inputs[k], ak1, bound, fuel, tk),
        forall|i: int| bound <= i < ak.len() ==> #[trigger] ak1[i] == ak[i],
        forall|i: int| 0 <= i < bound ==> (#[trigger] ak1[i]) is Some ==> ak[i] is Some,
    ensures
        unfold_inputs(
            ak1,
            inputs.take(k + 1),
            (fuel + (ak1.len() - a0.len())) as nat,
        ) == Some(
            (
                new_k.push(tk),
                grown(
                    unfold_inputs(a0.take(bound), inputs.take(k + 1), fuel).unwrap().1,
                    a0,
                    ak1,
                    bound,
                ),
            ),
        ),
        forall|i: int|
            0 <= i < bound ==> (#[trigger] unfold_inputs(
                a0.take(bound),
                inputs.take(k + 1),
                fuel,
            ).unwrap().1[i]) is Some ==> ak1[i] == a0[i],
{
    let p = a0.take(bound);
    let c = inputs[k];
    let fk = (fuel + (ak.len() - a0.len())) as nat;
    let fc = (fuel + (ak1.len() - ak.len())) as nat;
    let big = (fuel + (ak1.len() - a0.len())) as nat;
    lemma_unfold_take(p, inputs, fuel, k);
    lemma_unfold_take(p, inputs, fuel, k + 1);
    lemma_step_enter(a0, ak, bound, inputs, k, fuel);
    let pk = unfold_inputs(p, inputs.take(k), fuel).unwrap().1;
    let pk1 = unfold_inputs(p, inputs.take(k + 1), fuel).unwrap().1;
    lemma_unfold_at_vacates(pk, c, fuel);
    let rest_k = minus(ak.take(bound), pk, pk1);
    let rk = grown(pk, a0, ak, bound);
    let r_new = grown(rest_k, ak, ak1, bound);
    // the plans before position k, in the arena as it is now
    assert forall|i: int| #[trigger] in_footprint(ak, rk, i) implies i < ak1.len() && ak1[i]
        == ak[i] by {
        if i < bound {
            assert(rk[i] == pk[i]);
            assert(!in_footprint(pk, pk1, i));
            assert(rest_k[i] == ak.take(bound)[i]);
            assert(rest_k[i] is Some);
        }
    }
    lemma_unfold_inputs_frame(ak, inputs.take(k), fk, ak1);
    lemma_unfold_inputs_fuel(ak1, inputs.take(k), fk, big);
    let m = minus(ak1, ak, rk);
    // the plan at position k
    assert forall|i: int| #[trigger] in_footprint(ak1, r_new, i) implies i < m.len() && m[i]
        == ak1[i] by {
        if in_footprint(ak, rk, i) {
            if i < bound {
                assert(rk[i] == pk[i]);
                assert(!in_footprint(pk, pk1, i));
                assert(r_new[i] == rest_k[i]);
                assert(rest_k[i] == ak.take(bound)[i]);
            } else {
                assert(r_new[i] == ak[i]);
            }
        }
    }
    lemma_unfold_at_frame(ak1, c, fc, m);
    lemma_unfold_at_fuel(m, c, fc, big);
    assert(minus(m, ak1, r_new) =~= grown(pk1, a0, ak1, bound)) by {
        assert forall|i: int| 0 <= i < ak1.len() implies minus(m, ak1, r_new)[i] == grown(
            pk1,
            a0,
            ak1,
            bound,
        )[i] by {
            if i < bound {
                assert(r_new[i] == rest_k[i]);
                assert(rk[i] == pk[i]);
                assert(pk1[i] is None || pk1[i] == pk[i]);
                assert(pk[i] is None || pk[i] == p[i]);
                if pk1[i] is Some {
                    assert(rest_k[i] == ak.take(bound)[i]);
                    assert(ak[i] == a0[i]);
                    assert(rest_k[i] is Some);
                    assert(ak1[i] == ak[i]);
                } else if pk[i] is Some {
                    assert(in_footprint(pk, pk1, i));
                    assert(rest_k[i] is None);
                } else {
                    assert(ak1[i] is Some ==> ak[i] is Some);
                }
            } else if i < a0.len() {
                assert(ak1[i] == ak[i]);
                assert(ak[i] == a0[i]);
            } else if i < ak.len() {
                assert(ak1[i] == ak[i]);
            } else {
            }
        }
    }
    assert(inputs.take(k + 1).drop_last() =~= inputs.take(k));
    assert(inputs.take(k + 1).last() == c);
    assert forall|i: int| 0 <= i < bound && (#[trigger] pk1[i]) is Some implies ak1[i]
        == a0[i] by {
        assert(pk1[i] is None || pk1[i] == pk[i]);
        assert(pk[i] is Some);
        assert(!in_footprint(pk, pk1, i));
        assert(rest_k[i] == ak.take(bound)[i]);
        assert(rest_k[i] is Some);
    }
}


/// A node without inputs is what it is without the handles of its
/// inputs.
pub proof fn lemma_erased_leaf(lp: PlanView)
    requires
        lp.inputs().len() == 0,
    ensures
        lp.erased() == lp,
{
    match lp {
        PlanView::Union { inputs } => {
            assert(Seq::new(lp.inputs().len(), |i: int| Node(0)) =~= inputs);
        },
        PlanView::ExtContext { input, contexts, schema } => {
            assert(contexts.push(input).len() > 0);
        },
        _ => {},
    }
}

/// A node without inputs in place of another: a plan of one node.
pub proof fn lemma_refines_leaf(a: Slots, lp: PlanView, lp2: PlanView, bound: int, fuel: nat)
    requires
        lp.inputs().len() == 0,
        lp2.inputs().len() == 0,
        0 <= bound <= a.len(),
    ensures
        unfold_node(a.take(bound), lp, fuel) == Some((leaf(lp), a.take(bound))),
        node_refines(a, lp, a, lp2, bound, fuel, leaf(lp2)),
{
    lemma_erased_leaf(lp);
    lemma_erased_leaf(lp2);
    assert(grown(a.take(bound), a, a, bound) =~= a);
    assert(!(lp is Selection) && !(lp2 is Selection)) by {
        if lp is Selection {
            assert(lp.inputs().len() == 1);
        }
        if lp2 is Selection {
            assert(lp2.inputs().len() == 1);
        }
    }
    assert(core_of(leaf(lp2)) == leaf(lp2));
    assert(filters_of(leaf(lp2)) == Seq::<Node>::empty());
    assert(lp2.with_inputs(lp.inputs()) == lp2) by {
        lemma_restore_inputs(lp2);
        assert(lp.inputs() =~= lp2.inputs());
    }
}

/// A filter node put above the result of a pass is part of the result.
pub proof fn lemma_refines_wrap(
    before: Slots,
    lp: PlanView,
    mid: Slots,
    lp_mid: ALogicalPlan,
    predicate: Node,
    bound: int,
    fuel: nat,
    t_mid: PlanTree,
)
    requires
        0 <= bound <= before.len(),
        mid.len() < usize::MAX,
        unfold_node(before.take(bound), lp, fuel) is Some,
        node_refines(before, lp, mid, lp_mid@, bound, fuel, t_mid),
    ensures
        node_refines(
            before,
            lp,
            mid.push(Some(lp_mid)),
            PlanView::Selection { input: Node(mid.len() as usize), predicate },
            bound,
            fuel,
            PlanTree { node: selection_of(predicate), children: seq![t_mid] },
        ),
{
    let rest = unfold_node(before.take(bound), lp, fuel).unwrap().1;
    let f_mid = (fuel + (mid.len() - before.len())) as nat;
    lemma_unfold_wrapped(mid, lp_mid, predicate, f_mid);
    lemma_unfold_inputs_vacates(before.take(bound), lp.inputs(), fuel);
    assert(grown(rest, before, mid, bound).push(None) =~= grown(
        rest,
        before,
        mid.push(Some(lp_mid)),
        bound,
    ));
    lemma_lay_wrapped(places(before), lp, t_mid, predicate, fuel);
    lemma_places_push(mid, lp_mid);
}

/// The result of a pass under the filter that
/// [`spec_optional_apply_predicate`] describes.
pub proof fn lemma_refines_apply(
    before: Slots,
    lp: PlanView,
    mid: Slots,
    lp_mid: ALogicalPlan,
    after: Slots,
    lp2: PlanView,
    bound: int,
    fuel: nat,
    t_mid: PlanTree,
    local: Seq<Node>,
    es: Seq<AExprView>,
)
    requires
        0 <= bound <= before.len(),
        after.len() <= usize::MAX,
        unfold_node(before.take(bound), lp, fuel) is Some,
        node_refines(before, lp, mid, lp_mid@, bound, fuel, t_mid),
        local.len() == 0 ==> lp2 == lp_mid@ && after == mid,
        local.len() > 0 ==> after == mid.push(Some(lp_mid)) && lp2 == (PlanView::Selection {
            input: Node(mid.len() as usize),
            predicate: spec_combine_predicates(local, es).0,
        }),
    ensures
        node_refines(
            before,
            lp,
            after,
            lp2,
            bound,
            fuel,
            spec_optional_apply_predicate(t_mid, local, es).0,
        ),
{
    if local.len() > 0 {
        lemma_refines_wrap(
            before,
            lp,
            mid,
            lp_mid,
            spec_combine_predicates(local, es).0,
            bound,
            fuel,
            t_mid,
        );
    }
}

/// The result of the pass on the plan that was taken out of slot
/// `input`, put back into the slot.
pub proof fn lemma_refines_assign(
    a: Slots,
    input: Node,
    a2: Slots,
    lp2: ALogicalPlan,
    bound: int,
    fuel: nat,
    t2: PlanTree,
)
    requires
        0 <= input.0 < bound <= a.len(),
        unfold_at(a.take(bound), input, fuel) is Some,
        node_refines(a.update(input.0 as int, None), a[input.0 as int].unwrap()@, a2, lp2@, bound, (
        fuel - 1) as nat, t2),
        a2[input.0 as int] is None,
    ensures
        slot_refines(a, input, a2.update(input.0 as int, Some(lp2)), bound, fuel, t2),
{
    let a1 = a.update(input.0 as int, None);
    let a3 = a2.update(input.0 as int, Some(lp2));
    assert(a1.take(bound) =~= a.take(bound).update(input.0 as int, None));
    let rest = unfold_at(a.take(bound), input, fuel).unwrap().1;
    lemma_unfold_at_vacates(a.take(bound), input, fuel);
    assert(a3.update(input.0 as int, None) =~= a2);
    assert(grown(rest, a1, a2, bound) =~= grown(rest, a, a3, bound));
    lemma_places_update(a, input.0 as int, None);
    lemma_places_update(a2, input.0 as int, Some(lp2));
}

/// The plan in slot `h` of the arena `a` has the columns of its tree,
/// and as much fuel as the arena has slots finds them.
pub proof fn lemma_schema_at(a: Slots, s: Slots, h: Node, fuel: nat)
    requires
        unfold_at(s, h, fuel) is Some,
        agree_on_footprint(s, unfold_at(s, h, fuel).unwrap().1, a),
        s.len() <= a.len(),
    ensures
        spec_schema(a, h, a.len()) == Some(tree_schema(unfold_at(s, h, fuel).unwrap().0)),
{
    lemma_unfold_at_depth(s, h, fuel);
    lemma_schema_of_tree(s, h, count_some(s), a);
    lemma_count_bound(s);
    lemma_schema_fuel(a, h, count_some(s), a.len());
}

/// The input at position `k` of a node has the columns of its tree.
pub proof fn lemma_schema_input(a: Slots, bound: int, inputs: Seq<Node>, k: int, fuel: nat)
    requires
        0 <= bound <= a.len(),
        0 <= k < inputs.len(),
        unfold_inputs(a.take(bound), inputs, fuel) is Some,
    ensures
        spec_schema(a, inputs[k], a.len()) == Some(
            tree_schema(unfold_inputs(a.take(bound), inputs, fuel).unwrap().0[k]),
        ),
{
    let p = a.take(bound);
    lemma_unfold_take(p, inputs, fuel, k);
    let pk = unfold_inputs(p, inputs.take(k), fuel).unwrap().1;
    let pk1 = unfold_at(pk, inputs[k], fuel).unwrap().1;
    assert forall|i: int| #[trigger] in_footprint(pk, pk1, i) implies i < a.len() && a[i]
        == pk[i] by {
        assert(pk[i] == p[i]);
    }
    lemma_schema_at(a, pk, inputs[k], fuel);
}

/// The plan of a node is the node above the plans of its inputs.
pub proof fn lemma_node_tree(a: Slots, lp: PlanView, bound: int, fuel: nat, n: int)
    requires
        is_node_tree(a, lp, bound, fuel, n),
    ensures
        is_forest(a, lp.inputs(), bound, fuel, n),
        node_tree(a, lp, bound, fuel) == (PlanTree {
            node: lp.erased(),
            children: forest(a, lp.inputs(), bound, fuel),
        }),
        forest(a, lp.inputs(), bound, fuel).len() == lp.inputs().len(),
        forall|i: int| 0 <= i < lp.exprs().len() ==> (#[trigger] lp.exprs()[i]).0 < n,
{
    let t = node_tree(a, lp, bound, fuel);
    assert forall|k: int| 0 <= k < t.children.len() implies tree_exprs_below(
        #[trigger] t.children[k],
        n,
    ) by {}
    lemma_unfold_take(a.take(bound), lp.inputs(), fuel, 0);
    lemma_erased_exprs(lp);
}

/// Erasing the input handles of a node leaves its expressions alone.
pub proof fn lemma_erased_exprs(lp: PlanView)
    ensures
        lp.erased().exprs() == lp.exprs(),
{
}

/// The plan in a slot is the plan of the node in the slot, over the
/// other slots.
pub proof fn lemma_slot_tree(a: Slots, h: Node, bound: int, fuel: nat, n: int)
    requires
        is_slot_tree(a, h, bound, fuel, n),
        0 <= bound <= a.len(),
    ensures
        h.0 < bound,
        a[h.0 as int] is Some,
        fuel > 0,
        is_node_tree(
            a.update(h.0 as int, None),
            a[h.0 as int].unwrap()@,
            bound,
            (fuel - 1) as nat,
            n,
        ),
        node_tree(a.update(h.0 as int, None), a[h.0 as int].unwrap()@, bound, (fuel - 1) as nat)
            == slot_tree(a, h, bound, fuel),
        unfold_node(
            a.update(h.0 as int, None).take(bound),
            a[h.0 as int].unwrap()@,
            (fuel - 1) as nat,
        ).unwrap().1 == unfold_at(a.take(bound), h, fuel).unwrap().1,
{
    assert(a.update(h.0 as int, None).take(bound) =~= a.take(bound).update(h.0 as int, None));
}

/// The plans in the slots of a list of one handle.
pub proof fn lemma_forest_of_one(a: Slots, h: Node, bound: int, fuel: nat, n: int)
    requires
        is_forest(a, seq![h], bound, fuel, n),
    ensures
        is_slot_tree(a, h, bound, fuel, n),
        forest(a, seq![h], bound, fuel) =~= seq![slot_tree(a, h, bound, fuel)],
        unfold_inputs(a.take(bound), seq![h], fuel).unwrap().1 == unfold_at(
            a.take(bound),
            h,
            fuel,
        ).unwrap().1,
{
    let one = seq![h];
    assert(one.drop_last() =~= Seq::<Node>::empty());
    assert(one.last() == h);
    let none: Seq<PlanTree> = seq![];
    assert(unfold_inputs(a.take(bound), one.drop_last(), fuel) == Some((none, a.take(bound))));
    assert(forest(a, one, bound, fuel)[0] == slot_tree(a, h, bound, fuel));
}

/// What a pass made of the plan in a slot, as a list of one plan.
pub proof fn lemma_refine_one(a: Slots, h: Node, a2: Slots, bound: int, fuel: nat, t2: PlanTree)
    requires
        unfold_inputs(a.take(bound), seq![h], fuel) is Some,
        slot_refines(a, h, a2, bound, fuel, t2),
    ensures
        inputs_refine(a, seq![h], seq![true], a2, bound, fuel, seq![t2]),
{
    assert(lay_inputs(places(a), seq![h].drop_last(), seq![true], seq![t2], fuel) == places(a));
    let one = seq![h];
    assert(one.drop_last() =~= Seq::<Node>::empty());
    assert(one.last() == h);
    let none: Seq<PlanTree> = seq![];
    let big = (fuel + (a2.len() - a.len())) as nat;
    assert(unfold_inputs(a.take(bound), one.drop_last(), fuel) == Some((none, a.take(bound))));
    assert(unfold_inputs(a2, one.drop_last(), big) == Some((none, a2)));
    assert(none.push(t2) =~= seq![t2]);
}


/// What a function that returns the root of the rewritten plan owes:
/// success, the plan `model.0` in the arena, and the expressions
/// `model.1`.
pub open spec fn node_result(
    before: Slots,
    lp: PlanView,
    after: Slots,
    res: PolarsResult<ALogicalPlan>,
    bound: int,
    fuel: nat,
    es_after: Seq<AExprView>,
    model: (PlanTree, Seq<AExprView>),
) -> bool {
    &&& res matches Ok(lp2) && node_refines(before, lp, after, lp2@, bound, fuel, model.0)
    &&& es_after == model.1
}

/// The pass on a list of one plan.
pub proof fn lemma_push_inputs_one(tc: PlanTree, acc: Entries, es: Seq<AExprView>)
    ensures
        spec_push_inputs(seq![tc], seq![Some(acc)], es) == (
            seq![spec_push_down(tc, acc, es).0],
            spec_push_down(tc, acc, es).1,
        ),
{
    let one = seq![tc];
    assert(one.drop_last() =~= Seq::<PlanTree>::empty());
    assert(one.last() == tc);
    let none: Seq<PlanTree> = seq![];
    assert(spec_push_inputs(one.drop_last(), seq![Some(acc)], es) == (none, es));
    assert(none.push(spec_push_down(tc, acc, es).0) =~= seq![spec_push_down(tc, acc, es).0]);
}

/// The result of the pass on the only input of a node, in place of the
/// node.
pub proof fn lemma_refines_through(
    a: Slots,
    lp: PlanView,
    input: Node,
    a2: Slots,
    lp2: PlanView,
    bound: int,
    fuel: nat,
    t2: PlanTree,
)
    requires
        0 <= bound <= a.len(),
        unfold_node(a.take(bound), lp, fuel) is Some,
        lp is Selection,
        lp.inputs() == seq![input],
        node_refines(
            a.update(input.0 as int, None),
            a[input.0 as int].unwrap()@,
            a2,
            lp2,
            bound,
            (fuel - 1) as nat,
            t2,
        ),
    ensures
        node_refines(a, lp, a2, lp2, bound, fuel, t2),
{
    let one = seq![input];
    assert(one.drop_last() =~= Seq::<Node>::empty());
    assert(one.last() == input);
    let none: Seq<PlanTree> = seq![];
    assert(unfold_inputs(a.take(bound), one.drop_last(), fuel) == Some((none, a.take(bound))));
    let a1 = a.update(input.0 as int, None);
    assert(a1.take(bound) =~= a.take(bound).update(input.0 as int, None));
    let rest = unfold_at(a.take(bound), input, fuel).unwrap().1;
    lemma_unfold_at_vacates(a.take(bound), input, fuel);
    let small = ((fuel - 1) as nat + (a2.len() - a1.len())) as nat;
    let big = (fuel + (a2.len() - a.len())) as nat;
    lemma_unfold_inputs_fuel(a2, lp2.inputs(), small, big);
    assert(grown(rest, a1, a2, bound) =~= grown(rest, a, a2, bound));
    lemma_places_update(a, input.0 as int, None);
    assert(lp->Selection_input == input) by {
        assert(lp.inputs()[0] == input);
    }
}

/// The result of the pass on the inputs of a node, under the node.
pub proof fn lemma_refines_node(
    a: Slots,
    lp: PlanView,
    entered: Seq<bool>,
    a2: Slots,
    lp2: PlanView,
    bound: int,
    fuel: nat,
    kids: Seq<PlanTree>,
)
    requires
        unfold_node(a.take(bound), lp, fuel) is Some,
        inputs_refine(a, lp.inputs(), entered, a2, bound, fuel, kids),
        forall|i: int| 0 <= i < lp.inputs().len() ==> entered[i] == enters(lp, i),
        lp2.inputs() == lp.inputs(),
        !(lp is Selection),
        !(lp2 is Selection),
    ensures
        node_refines(a, lp, a2, lp2, bound, fuel, PlanTree { node: lp2.erased(), children: kids }),
{
    let t = PlanTree { node: lp2.erased(), children: kids };
    lemma_lay_inputs_reads(places(a), lp.inputs(), entered, kids, enters_all(lp), kids, fuel);
    assert(!(lp2.erased() is Selection));
    crate::alp::lemma_with_inputs(lp2, Seq::new(lp2.inputs().len(), |i: int| Node(0)));
    lemma_lay_kept(places(a), lp, t, fuel);
    lemma_restore_inputs(lp2);
}

/// Plans that name expressions below `n` name expressions below any
/// larger bound.
pub proof fn lemma_forest_below_grows(ts: Seq<PlanTree>, n: int, m: int)
    requires
        forest_exprs_below(ts, n),
        n <= m,
    ensures
        forest_exprs_below(ts, m),
{
    assert forall|k: int| 0 <= k < ts.len() implies tree_exprs_below(#[trigger] ts[k], m) by {
        lemma_exprs_below_grows(ts[k], n, m);
    }
}

/// One more input in the layout of the inputs of a node: the pass has
/// rewritten it to `x`, or has not entered it.
pub proof fn lemma_lay_step(
    a0: Slots,
    ak: Slots,
    ak1: Slots,
    inputs: Seq<Node>,
    entered: Seq<bool>,
    done: Seq<PlanTree>,
    x: PlanTree,
    k: int,
    fuel: nat,
)
    requires
        0 <= k < inputs.len(),
        done.len() == k,
        inputs_laid(a0, inputs.take(k), entered, ak, done, fuel),
        entered[k] ==> slot_laid(ak, inputs[k], ak1, x, fuel),
        !entered[k] ==> ak1 == ak,
    ensures
        inputs_laid(a0, inputs.take(k + 1), entered, ak1, done.push(x), fuel),
{
    assert(inputs.take(k + 1).drop_last() =~= inputs.take(k));
    assert(inputs.take(k + 1).last() == inputs[k]);
    lemma_lay_inputs_reads(
        places(a0),
        inputs.take(k),
        entered,
        done,
        entered,
        done.push(x),
        fuel,
    );
}

/// Whether the node `lp` is the root of a plan that is a tree in the
/// arena and names only expressions below `n`.
pub open spec fn is_plan(s: Slots, lp: PlanView, n: int) -> bool {
    exists|fuel: nat| is_node_tree(s, lp, s.len() as int, fuel, n)
}

/// A depth that is enough to walk the plan with the root `lp`, if
/// [`is_plan`] holds.
pub open spec fn plan_fuel(s: Slots, lp: PlanView) -> nat {
    choose|fuel: nat| unfold_node(s.take(s.len() as int), lp, fuel) is Some
}

/// The plan with the root `lp`, if [`is_plan`] holds.
pub open spec fn plan_of(s: Slots, lp: PlanView) -> PlanTree {
    node_tree(s, lp, s.len() as int, plan_fuel(s, lp))
}

/// The arena, node by node, and the root after a pass has rewritten the
/// plan with the root `lp` to the plan `t`: see [`lay_node`].
pub open spec fn plan_layout(s: Slots, lp: PlanView, t: PlanTree) -> (Places, PlanView) {
    lay_node(places(s), lp, t, plan_fuel(s, lp))
}

/// The slots that are no part of the plan with the root `lp`, if
/// [`is_plan`] holds: the arena with the slots of the plan vacated.
pub open spec fn plan_rest(s: Slots, lp: PlanView) -> Slots {
    unfold_node(s.take(s.len() as int), lp, plan_fuel(s, lp)).unwrap().1
}

/// Whether the arena, with the root `lp`, holds the plan `t`.
pub open spec fn holds_plan(s: Slots, lp: PlanView, t: PlanTree) -> bool {
    exists|fuel: nat| #[trigger] unfold_node(s, lp, fuel) is Some && unfold_node(
        s,
        lp,
        fuel,
    ).unwrap().0 == t
}

/// A plan that unfolds with some fuel is the plan of its root.
pub proof fn lemma_plan_of(s: Slots, lp: PlanView, fuel: nat)
    requires
        unfold_node(s.take(s.len() as int), lp, fuel) is Some,
    ensures
        plan_of(s, lp) == node_tree(s, lp, s.len() as int, fuel),
        plan_rest(s, lp) == unfold_node(s.take(s.len() as int), lp, fuel).unwrap().1,
{
    let p = s.take(s.len() as int);
    let chosen = plan_fuel(s, lp);
    if chosen <= fuel {
        lemma_unfold_inputs_fuel(p, lp.inputs(), chosen, fuel);
    } else {
        lemma_unfold_inputs_fuel(p, lp.inputs(), fuel, chosen);
    }
}

/// The depth that [`plan_fuel`] picks is enough for a plan.
pub proof fn lemma_plan_fuel(s: Slots, lp: PlanView, n: int)
    requires
        is_plan(s, lp, n),
    ensures
        is_node_tree(s, lp, s.len() as int, plan_fuel(s, lp), n),
{
    let fuel = choose|fuel: nat| is_node_tree(s, lp, s.len() as int, fuel, n);
    lemma_plan_of(s, lp, fuel);
    lemma_plan_of(s, lp, plan_fuel(s, lp));
}

} // verus!
