//! Where the nodes of the rewritten plan lie in the arena: a node that
//! is kept reads the slots it read, each of those slots holds the
//! rewritten input, a filter that is taken up leaves the slot of its
//! input vacant, and each new filter reads one new slot at the end of
//! the arena, which holds the plan under the filter.

use vstd::prelude::*;

use crate::alp::PlanView;
use crate::arena::Node;
use crate::plan_tree::{PlanTree, Slots};

verus! {

/// The slots of an arena of plan nodes, each node by its view.
pub type Places = Seq<Option<PlanView>>;

/// The views of the nodes in the slots.
pub open spec fn places(s: Slots) -> Places {
    Seq::new(
        s.len(),
        |i: int|
            match s[i] {
                Some(lp) => Some(lp@),
                None => None,
            },
    )
}

/// Whether the pass enters input `i` of the node: every input, but for
/// the contexts of a node with contexts.
pub open spec fn enters(lp: PlanView, i: int) -> bool {
    !(lp is ExtContext) || i == lp.inputs().len() - 1
}

/// For each input of the node, whether the pass enters it.
pub open spec fn enters_all(lp: PlanView) -> Seq<bool> {
    Seq::new(lp.inputs().len(), |i: int| enters(lp, i))
}

/// Whether the plan has a filter at its root.
pub open spec fn filter_on_top(t: PlanTree) -> bool {
    t.node is Selection && t.children.len() == 1
}

/// The plan without the filters at its top.
pub open spec fn core_of(t: PlanTree) -> PlanTree
    decreases t,
{
    if filter_on_top(t) {
        core_of(t.children[0])
    } else {
        t
    }
}

/// The predicates of the filters at the top of the plan, the lowest
/// first.
pub open spec fn filters_of(t: PlanTree) -> Seq<Node>
    decreases t,
{
    if filter_on_top(t) {
        filters_of(t.children[0]).push(t.node->Selection_predicate)
    } else {
        seq![]
    }
}

/// A plan in the arena under one new filter: the root moves to a new
/// slot at the end, and the filter reads that slot.
pub open spec fn wrapped_once(p: (Places, PlanView), predicate: Node) -> (Places, PlanView) {
    (p.0.push(Some(p.1)), PlanView::Selection { input: Node(p.0.len() as usize), predicate })
}

/// A plan in the arena under new filters by `predicates`, the lowest
/// first.
pub open spec fn wrapped(p: (Places, PlanView), predicates: Seq<Node>) -> (Places, PlanView)
    decreases predicates.len(),
{
    if predicates.len() == 0 {
        p
    } else {
        wrapped_once(wrapped(p, predicates.drop_last()), predicates.last())
    }
}

/// The arena after the pass has rewritten the plan in slot `h` to `t`:
/// the slot holds the root of the rewritten plan.
pub open spec fn lay_slot(a: Places, h: Node, t: PlanTree, fuel: nat) -> Places
    decreases fuel, 0nat, 0nat,
{
    if fuel == 0 || h.0 >= a.len() || a[h.0 as int] is None {
        a
    } else {
        let done = lay_node(
            a.update(h.0 as int, None),
            a[h.0 as int].unwrap(),
            t,
            (fuel - 1) as nat,
        );
        done.0.update(h.0 as int, Some(done.1))
    }
}

/// The arena after the pass has rewritten the plans in the slots
/// `inputs` that it enters to the plans `ts`, one after the other.
pub open spec fn lay_inputs(
    a: Places,
    inputs: Seq<Node>,
    entered: Seq<bool>,
    ts: Seq<PlanTree>,
    fuel: nat,
) -> Places
    decreases fuel, 1nat, inputs.len(),
{
    if inputs.len() == 0 {
        a
    } else {
        let a1 = lay_inputs(a, inputs.drop_last(), entered, ts, fuel);
        let k = inputs.len() - 1;
        if entered[k] {
            lay_slot(a1, inputs.last(), ts[k], fuel)
        } else {
            a1
        }
    }
}

/// The arena and the root after the pass has rewritten the plan of the
/// node `lp` to the plan `t`, which has no filter at its top.
///
/// A filter is taken up: its input is taken out of its slot, which
/// stays vacant, and is rewritten in its place. Any other node is kept
/// with the inputs it had, and each input that the pass enters is
/// rewritten in its slot.
pub open spec fn lay_core(a: Places, lp: PlanView, t: PlanTree, fuel: nat) -> (Places, PlanView)
    decreases fuel, 2nat, 0nat,
{
    match lp {
        PlanView::Selection { input, .. } => {
            if fuel == 0 || input.0 >= a.len() || a[input.0 as int] is None {
                (a, lp)
            } else {
                lay_core(
                    a.update(input.0 as int, None),
                    a[input.0 as int].unwrap(),
                    t,
                    (fuel - 1) as nat,
                )
            }
        },
        _ => (
            lay_inputs(a, lp.inputs(), enters_all(lp), t.children, fuel),
            t.node.with_inputs(lp.inputs()),
        ),
    }
}

/// The arena and the root after the pass has rewritten the plan of the
/// node `lp` to the plan `t`: the plan without the filters at its top
/// is laid out as [`lay_core`] says, and each of those filters is added
/// above it, the lowest first.
pub open spec fn lay_node(a: Places, lp: PlanView, t: PlanTree, fuel: nat) -> (Places, PlanView)
    decreases fuel, 3nat, 0nat,
{
    wrapped(lay_core(a, lp, core_of(t), fuel), filters_of(t))
}

/// A node without the handles of its inputs, given them again, is the
/// node.
pub proof fn lemma_restore_inputs(lp: PlanView)
    ensures
        lp.erased().with_inputs(lp.inputs()) == lp,
{
    match lp {
        PlanView::ExtContext { input, contexts, schema } => {
            assert(lp.inputs().drop_last() =~= contexts);
        },
        _ => {},
    }
}

/// A node that is kept, with no new filter above it, reads the slots it
/// read, and the arena is what the pass on its inputs has left.
pub proof fn lemma_lay_kept(a: Places, lp: PlanView, t: PlanTree, fuel: nat)
    requires
        !(lp is Selection),
        !filter_on_top(t),
        t.node.inputs().len() == lp.inputs().len(),
    ensures
        lay_node(a, lp, t, fuel).0 == lay_inputs(a, lp.inputs(), enters_all(lp), t.children, fuel),
        lay_node(a, lp, t, fuel).1 == t.node.with_inputs(lp.inputs()),
        lay_node(a, lp, t, fuel).1.inputs() == lp.inputs(),
{
    assert(core_of(t) == t);
    assert(filters_of(t) == Seq::<Node>::empty());
    crate::alp::lemma_with_inputs(t.node, lp.inputs());
}

/// The layout of a plan under one more filter is the layout of the plan
/// under a new filter.
pub proof fn lemma_lay_wrapped(a: Places, lp: PlanView, t: PlanTree, predicate: Node, fuel: nat)
    ensures
        lay_node(
            a,
            lp,
            PlanTree { node: PlanView::Selection { input: Node(0), predicate }, children: seq![t] },
            fuel,
        ) == wrapped_once(lay_node(a, lp, t, fuel), predicate),
{
    let top = PlanTree {
        node: PlanView::Selection { input: Node(0), predicate },
        children: seq![t],
    };
    assert(filter_on_top(top));
    assert(top.children[0] == t);
    assert(core_of(top) == core_of(t));
    assert(filters_of(top) == filters_of(t).push(predicate));
    assert(filters_of(top).drop_last() =~= filters_of(t));
}

/// The layout of the inputs reads the plans of those inputs only.
pub proof fn lemma_lay_inputs_reads(
    a: Places,
    inputs: Seq<Node>,
    entered: Seq<bool>,
    ts: Seq<PlanTree>,
    entered2: Seq<bool>,
    ts2: Seq<PlanTree>,
    fuel: nat,
)
    requires
        forall|i: int| 0 <= i < inputs.len() ==> entered[i] == entered2[i],
        forall|i: int| 0 <= i < inputs.len() && entered[i] ==> ts[i] == ts2[i],
    ensures
        lay_inputs(a, inputs, entered, ts, fuel) == lay_inputs(a, inputs, entered2, ts2, fuel),
    decreases inputs.len(),
{
    if inputs.len() > 0 {
        lemma_lay_inputs_reads(a, inputs.drop_last(), entered, ts, entered2, ts2, fuel);
    }
}

/// The views of the slots after one slot was set.
pub proof fn lemma_places_update(s: Slots, i: int, v: Option<crate::alp::ALogicalPlan>)
    requires
        0 <= i < s.len(),
    ensures
        places(s.update(i, v)) == places(s).update(
            i,
            match v {
                Some(lp) => Some(lp@),
                None => None,
            },
        ),
{
    assert(places(s.update(i, v)) =~= places(s).update(
        i,
        match v {
            Some(lp) => Some(lp@),
            None => None,
        },
    ));
}

/// The views of the slots after one slot was added.
pub proof fn lemma_places_push(s: Slots, lp: crate::alp::ALogicalPlan)
    ensures
        places(s.push(Some(lp))) == places(s).push(Some(lp@)),
{
    assert(places(s.push(Some(lp))) =~= places(s).push(Some(lp@)));
}

} // verus!
