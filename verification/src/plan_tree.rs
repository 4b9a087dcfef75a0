//! Plans as trees. The nodes of a plan lie in an arena and refer to each
//! other by handle; this module says when the slots reachable from a
//! node form a tree, which tree that is, and which slots it occupies.

use vstd::prelude::*;

use crate::alp::{ALogicalPlan, PlanView};
use crate::arena::Node;

verus! {

/// A plan as a value: a node, without the handles of its inputs, and the
/// plans of its inputs in order.
pub ghost struct PlanTree {
    pub node: PlanView,
    pub children: Seq<PlanTree>,
}

/// The slots of a plan arena.
pub type Slots = Seq<Option<ALogicalPlan>>;

/// The plan rooted in slot `h`, and the slots that are left when the
/// slots of that plan are vacated. `None` if the plan reaches a slot
/// that is vacant or does not exist, or is deeper than `fuel`.
///
/// Since a slot is vacated when the walk enters it, the result is
/// `Some` only if no slot is reached twice: only for a tree.
pub open spec fn unfold_at(s: Slots, h: Node, fuel: nat) -> Option<(PlanTree, Slots)>
    decreases fuel, 0nat,
{
    if fuel == 0 || h.0 >= s.len() || s[h.0 as int] is None {
        None
    } else {
        let lp = s[h.0 as int].unwrap()@;
        match unfold_inputs(s.update(h.0 as int, None), lp.inputs(), (fuel - 1) as nat) {
            Some((kids, rest)) => Some((PlanTree { node: lp.erased(), children: kids }, rest)),
            None => None,
        }
    }
}

/// The plans rooted in the slots `inputs`, unfolded one after the other,
/// each in what the ones before it left.
pub open spec fn unfold_inputs(s: Slots, inputs: Seq<Node>, fuel: nat) -> Option<
    (Seq<PlanTree>, Slots),
>
    decreases fuel, inputs.len() + 1,
{
    if inputs.len() == 0 {
        Some((seq![], s))
    } else {
        match unfold_inputs(s, inputs.drop_last(), fuel) {
            None => None,
            Some((trees, s1)) => match unfold_at(s1, inputs.last(), fuel) {
                None => None,
                Some((tree, rest)) => Some((trees.push(tree), rest)),
            },
        }
    }
}

/// Whether `r` is `s` with some slots vacated.
pub open spec fn vacates(s: Slots, r: Slots) -> bool {
    &&& r.len() == s.len()
    &&& forall|i: int| 0 <= i < s.len() ==> (#[trigger] r[i]) is None || r[i] == s[i]
}

/// Whether slot `i` is populated in `s` and vacant in `r`.
pub open spec fn in_footprint(s: Slots, r: Slots, i: int) -> bool {
    0 <= i < s.len() && i < r.len() && s[i] is Some && r[i] is None
}

/// `s2` with the slots vacated that `r` vacates from `s`.
pub open spec fn minus(s2: Slots, s: Slots, r: Slots) -> Slots {
    Seq::new(
        s2.len(),
        |i: int|
            if in_footprint(s, r, i) {
                None
            } else {
                s2[i]
            },
    )
}

/// Whether `s2` holds, in the slots that `r` vacates from `s`, what `s`
/// holds there.
pub open spec fn agree_on_footprint(s: Slots, r: Slots, s2: Slots) -> bool {
    forall|i: int| #[trigger] in_footprint(s, r, i) ==> i < s2.len() && s2[i] == s[i]
}

/// Unfolding only vacates slots.
pub proof fn lemma_unfold_at_vacates(s: Slots, h: Node, fuel: nat)
    ensures
        unfold_at(s, h, fuel) matches Some((_, r)) ==> vacates(s, r) && r[h.0 as int] is None,
    decreases fuel, 0nat,
{
    if unfold_at(s, h, fuel) is Some {
        let lp = s[h.0 as int].unwrap()@;
        lemma_unfold_inputs_vacates(s.update(h.0 as int, None), lp.inputs(), (fuel - 1) as nat);
    }
}

/// Unfolding only vacates slots.
pub proof fn lemma_unfold_inputs_vacates(s: Slots, inputs: Seq<Node>, fuel: nat)
    ensures
        unfold_inputs(s, inputs, fuel) matches Some((_, r)) ==> vacates(s, r),
    decreases fuel, inputs.len() + 1,
{
    if inputs.len() > 0 && unfold_inputs(s, inputs, fuel) is Some {
        lemma_unfold_inputs_vacates(s, inputs.drop_last(), fuel);
        let s1 = unfold_inputs(s, inputs.drop_last(), fuel).unwrap().1;
        lemma_unfold_at_vacates(s1, inputs.last(), fuel);
    }
}

/// More fuel does not change what a plan unfolds to.
pub proof fn lemma_unfold_at_fuel(s: Slots, h: Node, fuel: nat, more: nat)
    requires
        unfold_at(s, h, fuel) is Some,
        fuel <= more,
    ensures
        unfold_at(s, h, more) == unfold_at(s, h, fuel),
    decreases fuel, 0nat,
{
    let lp = s[h.0 as int].unwrap()@;
    lemma_unfold_inputs_fuel(
        s.update(h.0 as int, None),
        lp.inputs(),
        (fuel - 1) as nat,
        (more - 1) as nat,
    );
}

/// More fuel does not change what plans unfold to.
pub proof fn lemma_unfold_inputs_fuel(s: Slots, inputs: Seq<Node>, fuel: nat, more: nat)
    requires
        unfold_inputs(s, inputs, fuel) is Some,
        fuel <= more,
    ensures
        unfold_inputs(s, inputs, more) == unfold_inputs(s, inputs, fuel),
    decreases fuel, inputs.len() + 1,
{
    if inputs.len() > 0 {
        lemma_unfold_inputs_fuel(s, inputs.drop_last(), fuel, more);
        let s1 = unfold_inputs(s, inputs.drop_last(), fuel).unwrap().1;
        lemma_unfold_at_fuel(s1, inputs.last(), fuel, more);
    }
}

/// A plan unfolds alike in any arena that holds the plan's slots: the
/// same tree, and the same slots vacated.
pub proof fn lemma_unfold_at_frame(s: Slots, h: Node, fuel: nat, s2: Slots)
    requires
        unfold_at(s, h, fuel) is Some,
        agree_on_footprint(s, unfold_at(s, h, fuel).unwrap().1, s2),
    ensures
        unfold_at(s2, h, fuel) == Some(
            (unfold_at(s, h, fuel).unwrap().0, minus(s2, s, unfold_at(s, h, fuel).unwrap().1)),
        ),
    decreases fuel, 0nat,
{
    let r = unfold_at(s, h, fuel).unwrap().1;
    let lp = s[h.0 as int].unwrap()@;
    let s_in = s.update(h.0 as int, None);
    lemma_unfold_at_vacates(s, h, fuel);
    lemma_unfold_inputs_vacates(s_in, lp.inputs(), (fuel - 1) as nat);
    assert(in_footprint(s, r, h.0 as int));
    let s2_in = s2.update(h.0 as int, None);
    assert forall|i: int| #[trigger] in_footprint(s_in, r, i) implies i < s2_in.len() && s2_in[i]
        == s_in[i] by {
        assert(in_footprint(s, r, i));
    }
    lemma_unfold_inputs_frame(s_in, lp.inputs(), (fuel - 1) as nat, s2_in);
    assert(minus(s2_in, s_in, r) =~= minus(s2, s, r));
}

/// Plans unfold alike in any arena that holds their slots.
pub proof fn lemma_unfold_inputs_frame(s: Slots, inputs: Seq<Node>, fuel: nat, s2: Slots)
    requires
        unfold_inputs(s, inputs, fuel) is Some,
        agree_on_footprint(s, unfold_inputs(s, inputs, fuel).unwrap().1, s2),
    ensures
        unfold_inputs(s2, inputs, fuel) == Some(
            (unfold_inputs(s, inputs, fuel).unwrap().0, minus(s2, s, unfold_inputs(s, inputs, fuel).unwrap().1)),
        ),
    decreases fuel, inputs.len() + 1,
{
    let r = unfold_inputs(s, inputs, fuel).unwrap().1;
    if inputs.len() == 0 {
        assert(minus(s2, s, r) =~= s2);
    } else {
        let s1 = unfold_inputs(s, inputs.drop_last(), fuel).unwrap().1;
        lemma_unfold_inputs_vacates(s, inputs.drop_last(), fuel);
        lemma_unfold_at_vacates(s1, inputs.last(), fuel);
        assert forall|i: int| #[trigger] in_footprint(s, s1, i) implies i < s2.len() && s2[i]
            == s[i] by {
            assert(in_footprint(s, r, i));
        }
        lemma_unfold_inputs_frame(s, inputs.drop_last(), fuel, s2);
        let m1 = minus(s2, s, s1);
        assert forall|i: int| #[trigger] in_footprint(s1, r, i) implies i < m1.len() && m1[i]
            == s1[i] by {
            assert(in_footprint(s, r, i));
            assert(!in_footprint(s, s1, i));
        }
        lemma_unfold_at_frame(s1, inputs.last(), fuel, m1);
        assert(minus(m1, s1, r) =~= minus(s2, s, r));
    }
}

} // verus!
