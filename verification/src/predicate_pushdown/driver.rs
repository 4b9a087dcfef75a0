//! The traversal: carries the accumulator down the plan and rewrites
//! the plan in place.

use vstd::prelude::*;
use vstd::string::StringExecFns;

use crate::aexpr::{extends, AExpr};
use crate::alp::{ALogicalPlan, FileScan, FunctionNode, JoinType, UniqueKeepStrategy};
use crate::arena::{Arena, Node};
use crate::error::{PolarsError, PolarsErrorView, PolarsResult};
use crate::expr_walk::{check_input_node, targets_below};
use crate::plan_schema::{count_some, lemma_count_subset, lemma_count_take, plan_schema};
use crate::plan_tree::Slots;
use crate::predicate_pushdown::join::join_partition;
use crate::predicate_pushdown::rename::process_rename;
use crate::predicate_pushdown::utils::{aexprs_to_schema, any_has_aexpr, combine_predicates};
use crate::predicate_pushdown::utils::{predicate_at_scan, rewrite_projection_node};
use crate::predicate_pushdown::utils::{AccPredicates, Criterion};
use crate::aexpr::ExprTest;
use crate::alp::{lemma_with_same_exprs_and_input, PlanView};
use crate::names::str_views;
use crate::plan_tree::{unfold_inputs, PlanTree};
use crate::predicate_pushdown::model::{leaf, selection_of, spec_at_scan};
use crate::predicate_pushdown::model::{spec_hold_back, spec_no_pushdown_restart_opt};
use crate::predicate_pushdown::model::{spec_optional_apply_predicate, spec_push_down};
use crate::predicate_pushdown::model::{spec_push_inputs, spec_pushdown_and_continue};
use crate::predicate_pushdown::model::{spec_schema_accs, spec_schema_local, spec_valid_exprs};
use crate::predicate_pushdown::model::Entries;
use crate::predicate_pushdown::refine::{forest, grown, inputs_refine};
use crate::predicate_pushdown::refine::{is_forest, is_node_tree, is_slot_tree, node_refines};
use crate::predicate_pushdown::refine::{node_result, node_tree, slot_refines, slot_tree};
use crate::predicate_pushdown::refine::{lemma_exprs_below_grows, lemma_forest_below_grows};
use crate::predicate_pushdown::refine::{lemma_forest_of_one, lemma_node_tree};
use crate::predicate_pushdown::refine::{lemma_push_inputs_one, lemma_refine_one};
use crate::predicate_pushdown::refine::{lemma_refines_apply, lemma_refines_assign};
use crate::predicate_pushdown::refine::{lemma_refines_leaf, lemma_refines_node};
use crate::predicate_pushdown::refine::{lemma_refines_through, lemma_refines_wrap};
use crate::predicate_pushdown::refine::{lemma_schema_at, lemma_schema_input, lemma_slot_tree};
use crate::predicate_pushdown::refine::{lemma_step_done, lemma_step_enter};
use crate::predicate_pushdown::refine::{lemma_step_untouched, lemma_unfold_take};
use crate::predicate_pushdown::refine::{holds_plan, is_plan, lemma_plan_of, plan_of};
use crate::predicate_pushdown::refine::plan_rest;
use crate::predicate_pushdown::refine::unfold_node;
use crate::predicate_pushdown::refine::{inputs_laid, lemma_laid_none, lemma_lay_step};
use crate::predicate_pushdown::refine::{lemma_node_laid, lemma_plan_fuel, plan_fuel, plan_layout};
use crate::predicate_pushdown::layout::places;
use crate::predicate_pushdown::utils::lemma_select;
use crate::predicate_pushdown::utils::{spec_leaving, CriterionView};
use crate::pyarrow::predicate_to_pa;

verus! {

/// What a pass leaves of the slots that were there before it: none has
/// gone, none at or above `bound` has changed, and below `bound` no
/// vacant slot has been filled.
pub open spec fn slots_frame(before: Slots, after: Slots, bound: int) -> bool {
    &&& before.len() <= after.len()
    &&& forall|i: int| bound <= i < before.len() ==> #[trigger] after[i] == before[i]
    &&& forall|i: int|
        0 <= i < bound && i < before.len() ==> (#[trigger] after[i]) is Some ==> before[i] is Some
}

/// Whether `after` holds the slots of `before` unchanged, and possibly
/// more after them.
pub open spec fn slots_grown(before: Slots, after: Slots) -> bool {
    &&& before.len() <= after.len()
    &&& forall|i: int| 0 <= i < before.len() ==> #[trigger] after[i] == before[i]
}

/// The number of populated slots below `bound`, which the recursion
/// uses up.
pub open spec fn live_below(s: Slots, bound: int) -> nat {
    count_some(s.take(bound))
}

/// Whether all of the handles are below `bound`.
pub open spec fn nodes_below(nodes: Seq<Node>, bound: int) -> bool {
    forall|i: int| 0 <= i < nodes.len() ==> (#[trigger] nodes[i]).0 < bound
}

/// Whether all of the handles are below `bound`.
pub fn all_below(nodes: &Vec<Node>, bound: usize) -> (res: bool)
    ensures
        res == nodes_below(nodes@, bound as int),
{
    let mut i: usize = 0;
    while i < nodes.len()
        invariant
            i <= nodes@.len(),
            forall|j: int| 0 <= j < i ==> (#[trigger] nodes@[j]).0 < bound,
        decreases nodes@.len() - i,
    {
        if nodes[i].0 >= bound {
            return false;
        }
        i += 1;
    }
    true
}

proof fn lemma_frame_live(before: Slots, after: Slots, bound: int)
    requires
        slots_frame(before, after, bound),
        0 <= bound <= before.len(),
    ensures
        live_below(after, bound) <= live_below(before, bound),
{
    lemma_count_subset(before.take(bound), after.take(bound));
}

proof fn lemma_take_live(s: Slots, i: int, bound: int)
    requires
        0 <= i < bound <= s.len(),
        s[i] is Some,
    ensures
        live_below(s.update(i, None), bound) < live_below(s, bound),
{
    assert(s.update(i, None).take(bound) =~= s.take(bound).update(i, None));
    lemma_count_take(s.take(bound), i);
}

/// The models of a list of optional accumulators.
pub open spec fn accs_view(accs: Seq<Option<AccPredicates>>) -> Seq<Option<Entries>> {
    Seq::new(
        accs.len(),
        |i: int|
            match accs[i] {
                Some(a) => Some(a@),
                None => None,
            },
    )
}

/// Whether the node is kept with all of its inputs entered: any node
/// but a filter, which is taken up, and a node with contexts.
pub open spec fn kept_whole(lp: PlanView) -> bool {
    !(lp is Selection) && !(lp is ExtContext)
}

/// Whether the node computes columns from its input.
pub open spec fn projecting(lp: PlanView) -> bool {
    lp is HStack || lp is Projection || lp is ExtContext
}

/// For each input, whether it has an accumulator: the pass enters
/// those that have one.
pub open spec fn accs_entered(accs: Seq<Option<Entries>>) -> Seq<bool> {
    Seq::new(accs.len(), |i: int| accs[i] is Some)
}

/// Whether every accumulator of the list is valid for an arena of `n`
/// expressions.
pub open spec fn accs_valid(accs: Seq<Option<AccPredicates>>, n: int) -> bool {
    forall|i: int| 0 <= i < accs.len() ==> ((#[trigger] accs[i]) matches Some(a) ==> a.valid(n))
}

/// Whether the result is no error other than a violated invariant: an
/// input that is missing from the plan arena, or an expression that is
/// missing from the expression arena.
pub open spec fn fails_on_invariant_only<T>(res: PolarsResult<T>) -> bool {
    res matches Err(e) ==> e@ == PolarsErrorView::InvariantViolation(vacant_slot_message()) || e@
        == PolarsErrorView::InvariantViolation(bad_expression_message())
}

/// Message of the error for an input that is not in the plan arena.
pub open spec fn vacant_slot_message() -> Seq<char> {
    "the plan is not a tree: an input is missing from the arena"@
}

/// Message of the error for an expression that is not in the
/// expression arena.
pub open spec fn bad_expression_message() -> Seq<char> {
    "a plan node names an expression that is not in the arena"@
}

/// Message of the error for an expression arena in which an expression
/// is missing or comes before one of its inputs.
pub open spec fn unordered_message() -> Seq<char> {
    "an expression comes before one of its inputs, or is missing"@
}

/// The error for an input that is not in the plan arena.
fn vacant_slot() -> (res: PolarsError)
    ensures
        res@ == PolarsErrorView::InvariantViolation(vacant_slot_message()),
{
    PolarsError::invariant_violation("the plan is not a tree: an input is missing from the arena")
}

/// The error for an expression that is not in the expression arena.
fn bad_expression() -> (res: PolarsError)
    ensures
        res@ == PolarsErrorView::InvariantViolation(bad_expression_message()),
{
    PolarsError::invariant_violation("a plan node names an expression that is not in the arena")
}

/// The predicate pushdown optimizer.
#[derive(Debug)]
pub struct PredicatePushDown {}

impl Default for PredicatePushDown {
    fn default() -> (res: Self) {
        PredicatePushDown {  }
    }
}

impl PredicatePushDown {
    /// The pass; it has no settings.
    pub fn new() -> (res: Self) {
        PredicatePushDown {  }
    }

    /// Puts a filter by the conjunction of `local_predicates` above
    /// `lp`, which moves to a new slot; returns `lp` itself if there is
    /// nothing to filter by.
    pub fn optional_apply_predicate(
        &self,
        lp: ALogicalPlan,
        local_predicates: Vec<Node>,
        lp_arena: &mut Arena<ALogicalPlan>,
        expr_arena: &mut Arena<AExpr>,
    ) -> (res: ALogicalPlan)
        requires
            old(expr_arena).wf(),
            nodes_below(local_predicates@, old(expr_arena)@.len() as int),
        ensures
            final(expr_arena).wf(),
            extends(old(expr_arena).exprs(), final(expr_arena).exprs()),
            final(expr_arena).exprs() == spec_optional_apply_predicate(
                leaf(lp@),
                local_predicates@,
                old(expr_arena).exprs(),
            ).1,
            local_predicates@.len() == 0 ==> res == lp && final(lp_arena)@ == old(lp_arena)@,
            local_predicates@.len() > 0 ==> {
                &&& res == (ALogicalPlan::Selection {
                    input: Node(old(lp_arena)@.len() as usize),
                    predicate: crate::predicate_pushdown::utils::spec_combine_predicates(
                        local_predicates@,
                        old(expr_arena).exprs(),
                    ).0,
                })
                &&& final(lp_arena)@ == old(lp_arena)@.push(Some(lp))
            },
    {
        if local_predicates.len() > 0 {
            let predicate = combine_predicates(&local_predicates, expr_arena);
            let input = lp_arena.add(lp);
            ALogicalPlan::Selection { input, predicate }
        } else {
            lp
        }
    }

    /// [`Self::optional_apply_predicate`] on the result of a pass.
    fn apply_local(
        &self,
        lp: ALogicalPlan,
        local_predicates: Vec<Node>,
        lp_arena: &mut Arena<ALogicalPlan>,
        expr_arena: &mut Arena<AExpr>,
        Ghost(before): Ghost<Slots>,
        Ghost(root): Ghost<PlanView>,
        Ghost(bound): Ghost<int>,
        Ghost(fuel): Ghost<nat>,
        Ghost(t_mid): Ghost<PlanTree>,
    ) -> (res: ALogicalPlan)
        requires
            old(expr_arena).wf(),
            nodes_below(local_predicates@, old(expr_arena)@.len() as int),
            0 <= bound <= before.len(),
            slots_frame(before, old(lp_arena)@, bound),
        ensures
            final(expr_arena).wf(),
            extends(old(expr_arena).exprs(), final(expr_arena).exprs()),
            slots_frame(before, final(lp_arena)@, bound),
            final(expr_arena).exprs() == spec_optional_apply_predicate(
                t_mid,
                local_predicates@,
                old(expr_arena).exprs(),
            ).1,
            unfold_node(before.take(bound), root, fuel) is Some && node_refines(
                before,
                root,
                old(lp_arena)@,
                lp@,
                bound,
                fuel,
                t_mid,
            ) ==> node_refines(
                before,
                root,
                final(lp_arena)@,
                res@,
                bound,
                fuel,
                spec_optional_apply_predicate(
                    t_mid,
                    local_predicates@,
                    old(expr_arena).exprs(),
                ).0,
            ),
    {
        let ghost mid = lp_arena@;
        let ghost es = expr_arena.exprs();
        let res = self.optional_apply_predicate(lp, local_predicates, lp_arena, expr_arena);
        let slots = lp_arena.len();
        proof {
            if unfold_node(before.take(bound), root, fuel) is Some && node_refines(
                before,
                root,
                mid,
                lp@,
                bound,
                fuel,
                t_mid,
            ) {
                lemma_refines_apply(
                    before,
                    root,
                    mid,
                    lp,
                    lp_arena@,
                    res@,
                    bound,
                    fuel,
                    t_mid,
                    local_predicates@,
                    es,
                );
            }
        }
        res
    }

    /// Puts the plan that a pass returned into slot `input`. An error of
    /// the pass is handed on as it is, and the slot is left as it was.
    fn assign_result(
        input: Node,
        pushed: PolarsResult<ALogicalPlan>,
        lp_arena: &mut Arena<ALogicalPlan>,
    ) -> (res: PolarsResult<()>)
        requires
            input.0 < old(lp_arena)@.len(),
        ensures
            match pushed {
                Ok(lp) => res is Ok && final(lp_arena)@ == old(lp_arena)@.update(
                    input.0 as int,
                    Some(lp),
                ),
                Err(e) => res == Err::<(), PolarsError>(e) && final(lp_arena)@ == old(lp_arena)@,
            },
    {
        match pushed {
            Ok(lp) => {
                lp_arena.replace(input, lp);
                Ok(())
            },
            Err(e) => Err(e),
        }
    }

    /// Optimizes the plan in slot `input` with the accumulator `acc`,
    /// and puts the result back into the slot.
    ///
    /// Where the slot is vacant or out of range, the arena is left as
    /// it is. Where the pass on the plan fails, its error is handed on
    /// by [`Self::assign_result`], and the slot stays vacant.
    fn pushdown_and_assign(
        &self,
        input: Node,
        acc_predicates: AccPredicates,
        lp_arena: &mut Arena<ALogicalPlan>,
        expr_arena: &mut Arena<AExpr>,
        bound: usize,
        Ghost(fuel): Ghost<nat>,
    ) -> (res: PolarsResult<()>)
        requires
            old(expr_arena).wf(),
            acc_predicates.valid(old(expr_arena)@.len() as int),
            bound <= old(lp_arena)@.len(),
        ensures
            final(expr_arena).wf(),
            extends(old(expr_arena).exprs(), final(expr_arena).exprs()),
            slots_frame(old(lp_arena)@, final(lp_arena)@, bound as int),
            fails_on_invariant_only(res),
            !(input.0 < bound && old(lp_arena).populated(input)) ==> {
                &&& final(lp_arena)@ == old(lp_arena)@
                &&& final(expr_arena)@ == old(expr_arena)@
                &&& res matches Err(e) && e@ == PolarsErrorView::InvariantViolation(
                    vacant_slot_message(),
                )
            },
            res is Err && input.0 < bound ==> final(lp_arena)@[input.0 as int] is None,
            is_slot_tree(
                old(lp_arena)@,
                input,
                bound as int,
                fuel,
                old(expr_arena)@.len() as int,
            ) ==> {
                let model = spec_push_down(
                    slot_tree(old(lp_arena)@, input, bound as int, fuel),
                    acc_predicates@,
                    old(expr_arena).exprs(),
                );
                &&& res is Ok
                &&& slot_refines(
                    old(lp_arena)@,
                    input,
                    final(lp_arena)@,
                    bound as int,
                    fuel,
                    model.0,
                )
                &&& final(expr_arena).exprs() == model.1
            },
        decreases live_below(old(lp_arena)@, bound as int), 0nat,
    {
        let ghost a0 = lp_arena@;
        let ghost n0 = expr_arena@.len() as int;
        proof {
            if is_slot_tree(a0, input, bound as int, fuel, n0) {
                lemma_slot_tree(a0, input, bound as int, fuel, n0);
            }
        }
        if input.0 >= bound {
            return Err(vacant_slot());
        }
        let alp = match lp_arena.take(input) {
            Some(alp) => alp,
            None => {
                return Err(vacant_slot());
            },
        };
        proof {
            lemma_take_live(a0, input.0 as int, bound as int);
        }
        let ghost model = spec_push_down(
            slot_tree(a0, input, bound as int, fuel),
            acc_predicates@,
            expr_arena.exprs(),
        );
        let pushed = self.push_down_within(
            alp,
            acc_predicates,
            lp_arena,
            expr_arena,
            bound,
            Ghost((fuel - 1) as nat),
        );
        let ghost a2 = lp_arena@;
        assert(a2[input.0 as int] is None);
        let res = Self::assign_result(input, pushed, lp_arena);
        proof {
            if is_slot_tree(a0, input, bound as int, fuel, n0) {
                lemma_refines_assign(a0, input, a2, pushed->Ok_0, bound as int, fuel, model.0);
            }
        }
        res
    }

    /// Optimizes the plans in the slots `inputs`, the plan at position
    /// `i` with the accumulator `accs[i]`; a plan without an accumulator
    /// is left as it is.
    #[verifier::loop_isolation(false)]
    fn pushdown_inputs(
        &self,
        inputs: &Vec<Node>,
        accs: Vec<Option<AccPredicates>>,
        lp_arena: &mut Arena<ALogicalPlan>,
        expr_arena: &mut Arena<AExpr>,
        bound: usize,
        Ghost(fuel): Ghost<nat>,
    ) -> (res: PolarsResult<()>)
        requires
            old(expr_arena).wf(),
            accs@.len() == inputs@.len(),
            accs_valid(accs@, old(expr_arena)@.len() as int),
            bound <= old(lp_arena)@.len(),
        ensures
            final(expr_arena).wf(),
            extends(old(expr_arena).exprs(), final(expr_arena).exprs()),
            slots_frame(old(lp_arena)@, final(lp_arena)@, bound as int),
            fails_on_invariant_only(res),
            is_forest(
                old(lp_arena)@,
                inputs@,
                bound as int,
                fuel,
                old(expr_arena)@.len() as int,
            ) ==> {
                let model = spec_push_inputs(
                    forest(old(lp_arena)@, inputs@, bound as int, fuel),
                    accs_view(accs@),
                    old(expr_arena).exprs(),
                );
                &&& res is Ok
                &&& inputs_refine(
                    old(lp_arena)@,
                    inputs@,
                    accs_entered(accs_view(accs@)),
                    final(lp_arena)@,
                    bound as int,
                    fuel,
                    model.0,
                )
                &&& final(expr_arena).exprs() == model.1
            },
        decreases live_below(old(lp_arena)@, bound as int), 1nat,
    {
        let ghost a0 = lp_arena@;
        let ghost es0 = expr_arena.exprs();
        let ghost n0 = expr_arena@.len() as int;
        let ghost all = accs_view(accs@);
        let ghost hyp = is_forest(a0, inputs@, bound as int, fuel, n0);
        let ghost ts = forest(a0, inputs@, bound as int, fuel);
        let ghost p = a0.take(bound as int);
        let mut accs = accs;
        let n = inputs.len();
        let mut k: usize = 0;
        proof {
            assert(inputs@.take(0) =~= Seq::<Node>::empty());
            assert(ts.take(0) =~= Seq::<PlanTree>::empty());
            assert(all.skip(0) =~= all);
            if hyp {
                assert(grown(p, a0, a0, bound as int) =~= a0);
                lemma_laid_none(a0, inputs@, accs_entered(all), fuel);
            }
        }
        while k < n
            invariant
                k <= n,
                n == inputs@.len(),
                accs@.len() == n - k,
                all.len() == n,
                accs_view(accs@) == all.skip(k as int),
                expr_arena.wf(),
                extends(es0, expr_arena.exprs()),
                n0 == es0.len(),
                accs_valid(accs@, expr_arena@.len() as int),
                bound <= a0.len(),
                slots_frame(a0, lp_arena@, bound as int),
                hyp == is_forest(a0, inputs@, bound as int, fuel, n0),
                ts == forest(a0, inputs@, bound as int, fuel),
                p == a0.take(bound as int),
                hyp ==> {
                    let pk = unfold_inputs(p, inputs@.take(k as int), fuel).unwrap().1;
                    let done = spec_push_inputs(ts.take(k as int), all, es0);
                    &&& unfold_inputs(
                        lp_arena@,
                        inputs@.take(k as int),
                        (fuel + (lp_arena@.len() - a0.len())) as nat,
                    ) == Some((done.0, grown(pk, a0, lp_arena@, bound as int)))
                    &&& expr_arena.exprs() == done.1
                    &&& forall|i: int|
                        0 <= i < bound ==> (#[trigger] pk[i]) is Some ==> lp_arena@[i] == a0[i]
                    &&& done.0.len() == k
                    &&& inputs_laid(
                        a0,
                        inputs@.take(k as int),
                        accs_entered(all),
                        lp_arena@,
                        done.0,
                        fuel,
                    )
                },
            decreases n - k,
        {
            let ghost ak = lp_arena@;
            let ghost esk = expr_arena.exprs();
            let ghost done = spec_push_inputs(ts.take(k as int), all, es0);
            let ghost before_remove = accs@;
            assert(accs_view(before_remove)[0] == all.skip(k as int)[0]);
            let ghost shorter = accs@.skip(1);
            let acc = accs.remove(0);
            assert(acc == before_remove[0]);
            proof {
                assert(accs@ =~= shorter);
                assert forall|i: int| 0 <= i < accs@.len() implies accs_view(accs@)[i] == all.skip(
                    k as int + 1,
                )[i] by {
                    assert(accs_view(accs@)[i] == all.skip(k as int)[i + 1]);
                }
                assert(accs_view(accs@) =~= all.skip(k as int + 1));
                if hyp {
                    lemma_unfold_take(p, inputs@, fuel, k as int);
                    lemma_unfold_take(p, inputs@, fuel, k as int + 1);
                    assert(ts.take(k as int + 1).drop_last() =~= ts.take(k as int));
                    assert(ts.take(k as int + 1).last() == ts[k as int]);
                }
            }
            match acc {
                Some(acc) => {
                    proof {
                        lemma_frame_live(a0, ak, bound as int);
                        if hyp {
                            lemma_step_enter(a0, ak, bound as int, inputs@, k as int, fuel);
                            lemma_exprs_below_grows(ts[k as int], n0, esk.len() as int);
                        }
                    }
                    self.pushdown_and_assign(
                        inputs[k],
                        acc,
                        lp_arena,
                        expr_arena,
                        bound,
                        Ghost(fuel),
                    )?;
                    proof {
                        if hyp {
                            lemma_step_done(
                                a0,
                                ak,
                                lp_arena@,
                                bound as int,
                                inputs@,
                                k as int,
                                fuel,
                                done.0,
                                spec_push_down(ts[k as int], acc@, esk).0,
                            );
                            lemma_lay_step(
                                a0,
                                ak,
                                lp_arena@,
                                inputs@,
                                accs_entered(all),
                                done.0,
                                spec_push_down(ts[k as int], acc@, esk).0,
                                k as int,
                                fuel,
                            );
                        }
                    }
                },
                None => {
                    proof {
                        if hyp {
                            lemma_step_untouched(
                                a0,
                                ak,
                                bound as int,
                                inputs@,
                                k as int,
                                fuel,
                                done.0,
                            );
                            let pk = unfold_inputs(p, inputs@.take(k as int), fuel).unwrap().1;
                            let pk1 = unfold_inputs(p, inputs@.take(k as int + 1), fuel).unwrap().1;
                            crate::plan_tree::lemma_unfold_at_vacates(pk, inputs@[k as int], fuel);
                            assert forall|i: int| 0 <= i < bound && (#[trigger] pk1[i]) is Some implies ak[i]
                                == a0[i] by {
                                assert(pk1[i] is None || pk1[i] == pk[i]);
                                assert(pk[i] is Some);
                            }
                            lemma_lay_step(
                                a0,
                                ak,
                                ak,
                                inputs@,
                                accs_entered(all),
                                done.0,
                                ts[k as int],
                                k as int,
                                fuel,
                            );
                        }
                    }
                },
            }
            k += 1;
        }
        proof {
            assert(inputs@.take(n as int) =~= inputs@);
            if hyp {
                lemma_unfold_take(p, inputs@, fuel, n as int);
                assert(ts.take(n as int) =~= ts);
            }
        }
        Ok(())
    }

    /// Filter will be done at this node, but we continue optimization.
    #[verifier::loop_isolation(false)]
    fn no_pushdown_restart_opt(
        &self,
        lp: ALogicalPlan,
        acc_predicates: AccPredicates,
        lp_arena: &mut Arena<ALogicalPlan>,
        expr_arena: &mut Arena<AExpr>,
        bound: usize,
        Ghost(fuel): Ghost<nat>,
    ) -> (res: PolarsResult<ALogicalPlan>)
        requires
            old(expr_arena).wf(),
            acc_predicates.valid(old(expr_arena)@.len() as int),
            bound <= old(lp_arena)@.len(),
            kept_whole(lp@),
        ensures
            final(expr_arena).wf(),
            extends(old(expr_arena).exprs(), final(expr_arena).exprs()),
            slots_frame(old(lp_arena)@, final(lp_arena)@, bound as int),
            fails_on_invariant_only(res),
            is_node_tree(old(lp_arena)@, lp@, bound as int, fuel, old(expr_arena)@.len() as int)
                ==> node_result(
                old(lp_arena)@,
                lp@,
                final(lp_arena)@,
                res,
                bound as int,
                fuel,
                final(expr_arena).exprs(),
                spec_no_pushdown_restart_opt(
                    node_tree(old(lp_arena)@, lp@, bound as int, fuel),
                    acc_predicates@,
                    old(expr_arena).exprs(),
                ),
            ),
        decreases live_below(old(lp_arena)@, bound as int), 2nat,
    {
        let ghost a0 = lp_arena@;
        let ghost es0 = expr_arena.exprs();
        let ghost n0 = expr_arena@.len() as int;
        let ghost lpv = lp@;
        let ghost hyp = is_node_tree(a0, lpv, bound as int, fuel, n0);
        let ghost t = node_tree(a0, lpv, bound as int, fuel);
        proof {
            if hyp {
                lemma_node_tree(a0, lpv, bound as int, fuel, n0);
            }
        }
        let inputs = lp.get_inputs();
        let exprs = lp.get_exprs();
        let mut accs: Vec<Option<AccPredicates>> = Vec::new();
        let mut i: usize = 0;
        while i < inputs.len()
            invariant
                i <= inputs@.len(),
                accs@.len() == i,
                forall|j: int|
                    0 <= j < i ==> ((#[trigger] accs@[j]) matches Some(a) && a@
                        == Seq::<(Seq<char>, Node)>::empty()),
            decreases inputs@.len() - i,
        {
            accs.push(Some(AccPredicates::new()));
            i += 1;
        }
        let ghost model_accs = Seq::new(
            t.children.len(),
            |i: int| Some(Seq::<(Seq<char>, Node)>::empty()),
        );
        let ghost pushed = spec_push_inputs(t.children, model_accs, es0);
        proof {
            if hyp {
                assert(accs_view(accs@) =~= model_accs);
            }
        }
        self.pushdown_inputs(&inputs, accs, lp_arena, expr_arena, bound, Ghost(fuel))?;
        let ghost a2 = lp_arena@;
        let lp = lp.with_exprs_and_input(exprs, inputs);
        let ghost t_mid = PlanTree { node: lpv.erased(), children: pushed.0 };
        proof {
            lemma_with_same_exprs_and_input(lpv);
            if hyp {
                lemma_refines_node(
                    a0,
                    lpv,
                    accs_entered(model_accs),
                    a2,
                    lp@,
                    bound as int,
                    fuel,
                    pushed.0,
                );
            }
        }
        // all predicates are done locally
        let local_predicates = acc_predicates.values();
        Ok(
            self.apply_local(
                lp,
                local_predicates,
                lp_arena,
                expr_arena,
                Ghost(a0),
                Ghost(lpv),
                Ghost(bound as int),
                Ghost(fuel),
                Ghost(t_mid),
            ),
        )
    }

    /// Filter will be pushed down.
    fn pushdown_and_continue(
        &self,
        lp: ALogicalPlan,
        acc_predicates: AccPredicates,
        lp_arena: &mut Arena<ALogicalPlan>,
        expr_arena: &mut Arena<AExpr>,
        has_projections: bool,
        bound: usize,
        Ghost(fuel): Ghost<nat>,
    ) -> (res: PolarsResult<ALogicalPlan>)
        requires
            old(expr_arena).wf(),
            acc_predicates.valid(old(expr_arena)@.len() as int),
            nodes_below(lp@.exprs(), old(expr_arena)@.len() as int),
            has_projections ==> lp@.inputs().len() > 0,
            bound <= old(lp_arena)@.len(),
            has_projections ==> projecting(lp@),
            !has_projections ==> kept_whole(lp@),
        ensures
            final(expr_arena).wf(),
            extends(old(expr_arena).exprs(), final(expr_arena).exprs()),
            slots_frame(old(lp_arena)@, final(lp_arena)@, bound as int),
            fails_on_invariant_only(res),
            is_node_tree(old(lp_arena)@, lp@, bound as int, fuel, old(expr_arena)@.len() as int)
                ==> node_result(
                old(lp_arena)@,
                lp@,
                final(lp_arena)@,
                res,
                bound as int,
                fuel,
                final(expr_arena).exprs(),
                spec_pushdown_and_continue(
                    node_tree(old(lp_arena)@, lp@, bound as int, fuel),
                    acc_predicates@,
                    old(expr_arena).exprs(),
                    has_projections,
                ),
            ),
        decreases live_below(old(lp_arena)@, bound as int), 4nat,
    {
        if has_projections {
            self.continue_below_projections(
                lp,
                acc_predicates,
                lp_arena,
                expr_arena,
                bound,
                Ghost(fuel),
            )
        } else {
            self.continue_by_schema(lp, acc_predicates, lp_arena, expr_arena, bound, Ghost(fuel))
        }
    }

    /// Rewrites the accumulator for the source of a projecting node and
    /// goes on there, unless a projection computes across rows.
    #[verifier::loop_isolation(false)]
    #[verifier::rlimit(40)]
    fn continue_below_projections(
        &self,
        lp: ALogicalPlan,
        acc_predicates: AccPredicates,
        lp_arena: &mut Arena<ALogicalPlan>,
        expr_arena: &mut Arena<AExpr>,
        bound: usize,
        Ghost(fuel): Ghost<nat>,
    ) -> (res: PolarsResult<ALogicalPlan>)
        requires
            old(expr_arena).wf(),
            acc_predicates.valid(old(expr_arena)@.len() as int),
            nodes_below(lp@.exprs(), old(expr_arena)@.len() as int),
            lp@.inputs().len() > 0,
            bound <= old(lp_arena)@.len(),
            projecting(lp@),
        ensures
            final(expr_arena).wf(),
            extends(old(expr_arena).exprs(), final(expr_arena).exprs()),
            slots_frame(old(lp_arena)@, final(lp_arena)@, bound as int),
            fails_on_invariant_only(res),
            is_node_tree(old(lp_arena)@, lp@, bound as int, fuel, old(expr_arena)@.len() as int)
                ==> node_result(
                old(lp_arena)@,
                lp@,
                final(lp_arena)@,
                res,
                bound as int,
                fuel,
                final(expr_arena).exprs(),
                spec_pushdown_and_continue(
                    node_tree(old(lp_arena)@, lp@, bound as int, fuel),
                    acc_predicates@,
                    old(expr_arena).exprs(),
                    true,
                ),
            ),
        decreases live_below(old(lp_arena)@, bound as int), 3nat,
    {
        let ghost a0 = lp_arena@;
        let ghost es0 = expr_arena.exprs();
        let ghost n0 = expr_arena@.len() as int;
        let ghost lpv = lp@;
        let ghost hyp = is_node_tree(a0, lpv, bound as int, fuel, n0);
        let ghost t = node_tree(a0, lpv, bound as int, fuel);
        let ghost acc0 = acc_predicates@;
        proof {
            if hyp {
                lemma_node_tree(a0, lpv, bound as int, fuel, n0);
            }
        }
        let inputs = lp.get_inputs();
        let exprs = lp.get_exprs();
        let slots = lp_arena.len();
        // we should not pass these projections
        if any_has_aexpr(&exprs, expr_arena, ExprTest::ProjectionBoundary) {
            return self.no_pushdown_restart_opt(
                lp,
                acc_predicates,
                lp_arena,
                expr_arena,
                bound,
                Ghost(fuel),
            );
        }
        // of the inputs of a projecting node only the last is its source
        let last = inputs.len() - 1;
        let input = inputs[last];
        proof {
            if hyp {
                lemma_schema_input(a0, bound as int, inputs@, last as int, fuel);
            }
        }
        let input_schema = match plan_schema(lp_arena, input, slots) {
            Some(schema) => schema,
            None => {
                return Err(vacant_slot());
            },
        };
        proof {
            if hyp {
                assert(t.children.last() == t.children[last as int]);
            }
        }
        let (acc, local_predicates) = rewrite_projection_node(
            expr_arena,
            &acc_predicates,
            &exprs,
            &input_schema,
            matches!(lp, ALogicalPlan::Projection { .. }),
        );
        let ghost es1 = expr_arena.exprs();
        let mut accs: Vec<Option<AccPredicates>> = Vec::new();
        let mut i: usize = 0;
        while i < last
            invariant
                i <= last,
                accs@.len() == i,
                forall|j: int| 0 <= j < i ==> (#[trigger] accs@[j]) is None,
            decreases last - i,
        {
            accs.push(None);
            i += 1;
        }
        let ghost acc1 = acc@;
        accs.push(Some(acc));
        let ghost n = t.children.len();
        let ghost model_accs = Seq::new(
            n,
            |i: int|
                if i == n - 1 {
                    Some(acc1)
                } else {
                    None
                },
        );
        let ghost pushed = spec_push_inputs(t.children, model_accs, es1);
        proof {
            if hyp {
                assert(accs_view(accs@) =~= model_accs);
                lemma_forest_below_grows(t.children, n0, es1.len() as int);
            }
        }
        self.pushdown_inputs(&inputs, accs, lp_arena, expr_arena, bound, Ghost(fuel))?;
        let ghost a2 = lp_arena@;
        let lp = lp.with_exprs_and_input(exprs, inputs);
        let ghost t_mid = PlanTree { node: lpv.erased(), children: pushed.0 };
        proof {
            lemma_with_same_exprs_and_input(lpv);
            if hyp {
                lemma_refines_node(
                    a0,
                    lpv,
                    accs_entered(model_accs),
                    a2,
                    lp@,
                    bound as int,
                    fuel,
                    pushed.0,
                );
            }
        }
        Ok(
            self.apply_local(
                lp,
                local_predicates,
                lp_arena,
                expr_arena,
                Ghost(a0),
                Ghost(lpv),
                Ghost(bound as int),
                Ghost(fuel),
                Ghost(t_mid),
            ),
        )
    }

    /// Gives each input the entries that it can evaluate and keeps the
    /// others above the node.
    #[verifier::loop_isolation(false)]
    fn continue_by_schema(
        &self,
        lp: ALogicalPlan,
        acc_predicates: AccPredicates,
        lp_arena: &mut Arena<ALogicalPlan>,
        expr_arena: &mut Arena<AExpr>,
        bound: usize,
        Ghost(fuel): Ghost<nat>,
    ) -> (res: PolarsResult<ALogicalPlan>)
        requires
            old(expr_arena).wf(),
            acc_predicates.valid(old(expr_arena)@.len() as int),
            nodes_below(lp@.exprs(), old(expr_arena)@.len() as int),
            bound <= old(lp_arena)@.len(),
            kept_whole(lp@),
        ensures
            final(expr_arena).wf(),
            extends(old(expr_arena).exprs(), final(expr_arena).exprs()),
            slots_frame(old(lp_arena)@, final(lp_arena)@, bound as int),
            fails_on_invariant_only(res),
            is_node_tree(old(lp_arena)@, lp@, bound as int, fuel, old(expr_arena)@.len() as int)
                ==> node_result(
                old(lp_arena)@,
                lp@,
                final(lp_arena)@,
                res,
                bound as int,
                fuel,
                final(expr_arena).exprs(),
                spec_pushdown_and_continue(
                    node_tree(old(lp_arena)@, lp@, bound as int, fuel),
                    acc_predicates@,
                    old(expr_arena).exprs(),
                    false,
                ),
            ),
        decreases live_below(old(lp_arena)@, bound as int), 3nat,
    {
        let ghost a0 = lp_arena@;
        let ghost es0 = expr_arena.exprs();
        let ghost n0 = expr_arena@.len() as int;
        let ghost lpv = lp@;
        let ghost hyp = is_node_tree(a0, lpv, bound as int, fuel, n0);
        let ghost t = node_tree(a0, lpv, bound as int, fuel);
        let ghost acc0 = acc_predicates@;
        proof {
            if hyp {
                lemma_node_tree(a0, lpv, bound as int, fuel, n0);
            }
        }
        let inputs = lp.get_inputs();
        let exprs = lp.get_exprs();
        let slots = lp_arena.len();
        let mut local_predicates: Vec<Node> = Vec::new();
        let mut accs: Vec<Option<AccPredicates>> = Vec::new();
        // determine what each input can evaluate
        let mut i: usize = 0;
        proof {
            assert(t.children.take(0) =~= Seq::<PlanTree>::empty());
        }
        while i < inputs.len()
            invariant
                i <= inputs@.len(),
                accs@.len() == i,
                expr_arena.wf(),
                expr_arena == old(expr_arena),
                lp_arena@ == a0,
                slots == a0.len(),
                bound <= a0.len(),
                es0 == expr_arena.exprs(),
                acc_predicates.valid(expr_arena@.len() as int),
                nodes_below(local_predicates@, expr_arena@.len() as int),
                accs_valid(accs@, expr_arena@.len() as int),
                hyp ==> unfold_inputs(a0.take(bound as int), inputs@, fuel) is Some
                    && t.children == forest(a0, inputs@, bound as int, fuel)
                    && t.children.len() == inputs@.len(),
                hyp ==> accs_view(accs@) == spec_schema_accs(
                    t.children,
                    acc_predicates@,
                    es0,
                ).take(i as int),
                hyp ==> local_predicates@ == spec_schema_local(
                    t.children.take(i as int),
                    acc_predicates@,
                    es0,
                ),
            decreases inputs@.len() - i,
        {
            // first we check if we are able to push down the predicate passed this node
            // it could be that this node just added the column where we base the predicate on
            proof {
                if hyp {
                    lemma_schema_input(a0, bound as int, inputs@, i as int, fuel);
                }
            }
            let input_schema = match plan_schema(lp_arena, inputs[i], slots) {
                Some(schema) => schema,
                None => {
                    return Err(vacant_slot());
                },
            };
            let ghost c = CriterionView::NotIn(str_views(input_schema@));
            let (pushdown, mut local) = acc_predicates.partition(
                expr_arena,
                &Criterion::NotIn(&input_schema),
            );
            proof {
                lemma_select(es0, c, acc_predicates@, true);
                assert(nodes_below(local@, expr_arena@.len() as int)) by {
                    assert forall|j: int| 0 <= j < local@.len() implies (#[trigger] local@[j]).0
                        < expr_arena@.len() by {
                        assert(local@[j] == spec_leaving(es0, c, acc_predicates@)[j].1);
                    }
                }
            }
            let ghost local_before = local_predicates@;
            let ghost accs_before = accs_view(accs@);
            local_predicates.append(&mut local);
            accs.push(Some(pushdown));
            proof {
                assert(accs_view(accs@) =~= accs_before.push(Some(pushdown@)));
                if hyp {
                    let next = t.children.take(i as int + 1);
                    assert(next.drop_last() =~= t.children.take(i as int));
                    assert(next.last() == t.children[i as int]);
                    assert(accs_view(accs@) =~= spec_schema_accs(
                        t.children,
                        acc_predicates@,
                        es0,
                    ).take(i as int + 1));
                }
            }
            i += 1;
        }
        let ghost model_accs = spec_schema_accs(t.children, acc_predicates@, es0);
        let ghost pushed = spec_push_inputs(t.children, model_accs, es0);
        proof {
            if hyp {
                assert(model_accs.take(inputs@.len() as int) =~= model_accs);
                assert(t.children.take(inputs@.len() as int) =~= t.children);
            }
        }
        self.pushdown_inputs(&inputs, accs, lp_arena, expr_arena, bound, Ghost(fuel))?;
        let ghost a2 = lp_arena@;
        let lp = lp.with_exprs_and_input(exprs, inputs);
        let ghost t_mid = PlanTree { node: lpv.erased(), children: pushed.0 };
        proof {
            lemma_with_same_exprs_and_input(lpv);
            if hyp {
                lemma_refines_node(
                    a0,
                    lpv,
                    accs_entered(model_accs),
                    a2,
                    lp@,
                    bound as int,
                    fuel,
                    pushed.0,
                );
            }
        }
        Ok(
            self.apply_local(
                lp,
                local_predicates,
                lp_arena,
                expr_arena,
                Ghost(a0),
                Ghost(lpv),
                Ghost(bound as int),
                Ghost(fuel),
                Ghost(t_mid),
            ),
        )
    }

    /// Holds back the entries that meet the criterion and lets the
    /// others pass to the inputs that can evaluate them.
    fn hold_back(
        &self,
        lp: ALogicalPlan,
        acc_predicates: AccPredicates,
        lp_arena: &mut Arena<ALogicalPlan>,
        expr_arena: &mut Arena<AExpr>,
        c: &Criterion,
        bound: usize,
        Ghost(fuel): Ghost<nat>,
    ) -> (res: PolarsResult<ALogicalPlan>)
        requires
            old(expr_arena).wf(),
            acc_predicates.valid(old(expr_arena)@.len() as int),
            nodes_below(lp@.exprs(), old(expr_arena)@.len() as int),
            bound <= old(lp_arena)@.len(),
            kept_whole(lp@),
        ensures
            final(expr_arena).wf(),
            extends(old(expr_arena).exprs(), final(expr_arena).exprs()),
            slots_frame(old(lp_arena)@, final(lp_arena)@, bound as int),
            fails_on_invariant_only(res),
            is_node_tree(old(lp_arena)@, lp@, bound as int, fuel, old(expr_arena)@.len() as int)
                ==> node_result(
                old(lp_arena)@,
                lp@,
                final(lp_arena)@,
                res,
                bound as int,
                fuel,
                final(expr_arena).exprs(),
                spec_hold_back(
                    node_tree(old(lp_arena)@, lp@, bound as int, fuel),
                    acc_predicates@,
                    old(expr_arena).exprs(),
                    c@,
                ),
            ),
        decreases live_below(old(lp_arena)@, bound as int), 5nat,
    {
        let ghost a0 = lp_arena@;
        let ghost es0 = expr_arena.exprs();
        let ghost lpv = lp@;
        let ghost t = node_tree(a0, lpv, bound as int, fuel);
        let (acc, local_predicates) = acc_predicates.partition(expr_arena, c);
        proof {
            lemma_select(es0, c@, acc_predicates@, true);
            assert(nodes_below(local_predicates@, expr_arena@.len() as int)) by {
                assert forall|j: int| 0 <= j < local_predicates@.len() implies (
                #[trigger] local_predicates@[j]).0 < expr_arena@.len() by {
                    assert(local_predicates@[j] == spec_leaving(es0, c@, acc_predicates@)[j].1);
                }
            }
        }
        let ghost inner = spec_pushdown_and_continue(t, acc@, es0, false);
        let lp = self.pushdown_and_continue(
            lp,
            acc,
            lp_arena,
            expr_arena,
            false,
            bound,
            Ghost(fuel),
        )?;
        Ok(
            self.apply_local(
                lp,
                local_predicates,
                lp_arena,
                expr_arena,
                Ghost(a0),
                Ghost(lpv),
                Ghost(bound as int),
                Ghost(fuel),
                Ghost(inner.0),
            ),
        )
    }

    /// A scan that evaluates predicates itself takes all entries but
    /// those that need all rows.
    fn at_scan(
        &self,
        lp: ALogicalPlan,
        acc_predicates: AccPredicates,
        lp_arena: &mut Arena<ALogicalPlan>,
        expr_arena: &mut Arena<AExpr>,
        Ghost(bound): Ghost<int>,
        Ghost(fuel): Ghost<nat>,
    ) -> (res: ALogicalPlan)
        requires
            old(expr_arena).wf(),
            acc_predicates.valid(old(expr_arena)@.len() as int),
            nodes_below(lp@.exprs(), old(expr_arena)@.len() as int),
            lp is Scan || lp is AnonymousScan,
            0 <= bound <= old(lp_arena)@.len(),
        ensures
            final(expr_arena).wf(),
            extends(old(expr_arena).exprs(), final(expr_arena).exprs()),
            slots_grown(old(lp_arena)@, final(lp_arena)@),
            node_refines(
                old(lp_arena)@,
                lp@,
                final(lp_arena)@,
                res@,
                bound,
                fuel,
                spec_at_scan(
                    lp@,
                    crate::alp::seq_opt(lp@.exprs()),
                    acc_predicates@,
                    old(expr_arena).exprs(),
                ).0,
            ),
            final(expr_arena).exprs() == spec_at_scan(
                lp@,
                crate::alp::seq_opt(lp@.exprs()),
                acc_predicates@,
                old(expr_arena).exprs(),
            ).1,
    {
        let ghost a0 = lp_arena@;
        let ghost es0 = expr_arena.exprs();
        let ghost lpv = lp@;
        let ghost c = CriterionView::Test(ExprTest::FullContext);
        let mut acc_predicates = acc_predicates;
        let ghost acc0 = acc_predicates@;
        let local_predicates = acc_predicates.partition_by_full_context(expr_arena);
        proof {
            lemma_select(es0, c, acc0, true);
            assert(nodes_below(local_predicates@, expr_arena@.len() as int)) by {
                assert forall|j: int| 0 <= j < local_predicates@.len() implies (
                #[trigger] local_predicates@[j]).0 < expr_arena@.len() by {
                    assert(local_predicates@[j] == spec_leaving(es0, c, acc0)[j].1);
                }
            }
        }
        let existing = match &lp {
            ALogicalPlan::Scan { predicate, .. } => *predicate,
            ALogicalPlan::AnonymousScan { predicate, .. } => *predicate,
            _ => None,
        };
        assert(existing matches Some(p) ==> lpv.exprs()[0] == p);
        assert(existing == crate::alp::seq_opt(lpv.exprs()));
        let predicate = predicate_at_scan(acc_predicates, existing, expr_arena);
        let ghost es1 = expr_arena.exprs();
        let ghost scan_tree = match (predicate, lpv) {
            (Some(p), PlanView::Scan { scan_type: FileScan::Csv, .. }) => PlanTree {
                node: selection_of(p),
                children: seq![leaf(lpv.with_exprs(seq![]))],
            },
            _ => leaf(lpv.with_exprs(crate::alp::opt_seq(predicate))),
        };
        let lp = match (predicate, lp) {
            (Some(predicate), ALogicalPlan::Scan { path, schema, scan_type: FileScan::Csv, .. }) => {
                let lp = ALogicalPlan::Scan {
                    path,
                    schema,
                    predicate: None,
                    scan_type: FileScan::Csv,
                };
                let ghost inner = lp;
                let input = lp_arena.add(lp);
                let slots = lp_arena.len();
                proof {
                    assert(inner@ == lpv.with_exprs(seq![]));
                    lemma_refines_leaf(a0, lpv, inner@, bound, fuel);
                    lemma_refines_wrap(a0, lpv, a0, inner, predicate, bound, fuel, leaf(inner@));
                }
                ALogicalPlan::Selection { input, predicate }
            },
            (predicate, ALogicalPlan::Scan { path, schema, scan_type, .. }) => {
                let lp = ALogicalPlan::Scan { path, schema, predicate, scan_type };
                proof {
                    assert(lp@ == lpv.with_exprs(crate::alp::opt_seq(predicate)));
                    lemma_refines_leaf(a0, lpv, lp@, bound, fuel);
                }
                lp
            },
            (
                predicate,
                ALogicalPlan::AnonymousScan { schema, allows_predicate_pushdown, .. },
            ) => {
                let lp = ALogicalPlan::AnonymousScan {
                    schema,
                    allows_predicate_pushdown,
                    predicate,
                };
                proof {
                    assert(lp@ == lpv.with_exprs(crate::alp::opt_seq(predicate)));
                    lemma_refines_leaf(a0, lpv, lp@, bound, fuel);
                }
                lp
            },
            (_, lp) => lp,
        };
        proof {
            lemma_refines_leaf(a0, lpv, lpv, bound, fuel);
        }
        self.apply_local(
            lp,
            local_predicates,
            lp_arena,
            expr_arena,
            Ghost(a0),
            Ghost(lpv),
            Ghost(bound),
            Ghost(fuel),
            Ghost(scan_tree),
        )
    }

    /// Splits the accumulator between the inputs of a join and what has
    /// to stay above it, and goes on in both inputs.
    fn process_join(
        &self,
        lp_arena: &mut Arena<ALogicalPlan>,
        expr_arena: &mut Arena<AExpr>,
        input_left: Node,
        input_right: Node,
        left_on: Vec<Node>,
        right_on: Vec<Node>,
        schema: Vec<String>,
        how: JoinType,
        acc_predicates: AccPredicates,
        bound: usize,
        Ghost(fuel): Ghost<nat>,
    ) -> (res: PolarsResult<ALogicalPlan>)
        requires
            old(expr_arena).wf(),
            acc_predicates.valid(old(expr_arena)@.len() as int),
            nodes_below(left_on@, old(expr_arena)@.len() as int),
            nodes_below(right_on@, old(expr_arena)@.len() as int),
            bound <= old(lp_arena)@.len(),
        ensures
            final(expr_arena).wf(),
            extends(old(expr_arena).exprs(), final(expr_arena).exprs()),
            slots_frame(old(lp_arena)@, final(lp_arena)@, bound as int),
            fails_on_invariant_only(res),
            ({
                let lpv = PlanView::Join {
                    input_left,
                    input_right,
                    left_on: left_on@,
                    right_on: right_on@,
                    schema: str_views(schema@),
                    how,
                };
                is_node_tree(
                    old(lp_arena)@,
                    lpv,
                    bound as int,
                    fuel,
                    old(expr_arena)@.len() as int,
                ) ==> node_result(
                    old(lp_arena)@,
                    lpv,
                    final(lp_arena)@,
                    res,
                    bound as int,
                    fuel,
                    final(expr_arena).exprs(),
                    spec_push_down(
                        node_tree(old(lp_arena)@, lpv, bound as int, fuel),
                        acc_predicates@,
                        old(expr_arena).exprs(),
                    ),
                )
            }),
        decreases live_below(old(lp_arena)@, bound as int), 5nat,
    {
        let ghost a0 = lp_arena@;
        let ghost es0 = expr_arena.exprs();
        let ghost n0 = expr_arena@.len() as int;
        let ghost lpv = PlanView::Join {
            input_left,
            input_right,
            left_on: left_on@,
            right_on: right_on@,
            schema: str_views(schema@),
            how,
        };
        let ghost hyp = is_node_tree(a0, lpv, bound as int, fuel, n0);
        let ghost t = node_tree(a0, lpv, bound as int, fuel);
        let mut inputs: Vec<Node> = Vec::new();
        inputs.push(input_left);
        inputs.push(input_right);
        proof {
            assert(inputs@ =~= lpv.inputs());
            if hyp {
                lemma_node_tree(a0, lpv, bound as int, fuel, n0);
                lemma_schema_input(a0, bound as int, inputs@, 0, fuel);
                lemma_schema_input(a0, bound as int, inputs@, 1, fuel);
            }
        }
        let slots = lp_arena.len();
        let schema_left = match plan_schema(lp_arena, input_left, slots) {
            Some(schema) => schema,
            None => {
                return Err(vacant_slot());
            },
        };
        let schema_right = match plan_schema(lp_arena, input_right, slots) {
            Some(schema) => schema,
            None => {
                return Err(vacant_slot());
            },
        };
        let (left, right, local_predicates) = join_partition(
            &acc_predicates,
            &*expr_arena,
            how,
            &schema_left,
            &schema_right,
            &left_on,
            &right_on,
        );
        let ghost es1 = expr_arena.exprs();
        let ghost model_accs = seq![Some(left@), Some(right@)];
        let ghost pushed = spec_push_inputs(t.children, model_accs, es1);
        let mut accs: Vec<Option<AccPredicates>> = Vec::new();
        accs.push(Some(left));
        accs.push(Some(right));
        proof {
            assert(accs_view(accs@) =~= model_accs);
            if hyp {
                lemma_forest_below_grows(t.children, n0, es1.len() as int);
            }
        }
        self.pushdown_inputs(&inputs, accs, lp_arena, expr_arena, bound, Ghost(fuel))?;
        let ghost a2 = lp_arena@;
        let lp = ALogicalPlan::Join { input_left, input_right, left_on, right_on, schema, how };
        let ghost t_mid = PlanTree { node: lpv.erased(), children: pushed.0 };
        proof {
            if hyp {
                lemma_refines_node(
                    a0,
                    lpv,
                    accs_entered(model_accs),
                    a2,
                    lp@,
                    bound as int,
                    fuel,
                    pushed.0,
                );
            }
        }
        Ok(
            self.apply_local(
                lp,
                local_predicates,
                lp_arena,
                expr_arena,
                Ghost(a0),
                Ghost(lpv),
                Ghost(bound as int),
                Ghost(fuel),
                Ghost(t_mid),
            ),
        )
    }

    /// A filter: its predicate joins the accumulator, and the filter node goes.
    fn at_selection(
        &self,
        lp: ALogicalPlan,
        acc_predicates: AccPredicates,
        lp_arena: &mut Arena<ALogicalPlan>,
        expr_arena: &mut Arena<AExpr>,
        bound: usize,
        Ghost(fuel): Ghost<nat>,
    ) -> (res: PolarsResult<ALogicalPlan>)
        requires
            old(expr_arena).wf(),
            acc_predicates.valid(old(expr_arena)@.len() as int),
            nodes_below(lp@.exprs(), old(expr_arena)@.len() as int),
            lp is Selection,
            bound <= old(lp_arena)@.len(),
        ensures
            final(expr_arena).wf(),
            extends(old(expr_arena).exprs(), final(expr_arena).exprs()),
            slots_frame(old(lp_arena)@, final(lp_arena)@, bound as int),
            fails_on_invariant_only(res),
            is_node_tree(old(lp_arena)@, lp@, bound as int, fuel, old(expr_arena)@.len() as int)
                ==> node_result(
                old(lp_arena)@,
                lp@,
                final(lp_arena)@,
                res,
                bound as int,
                fuel,
                final(expr_arena).exprs(),
                spec_push_down(
                    node_tree(old(lp_arena)@, lp@, bound as int, fuel),
                    acc_predicates@,
                    old(expr_arena).exprs(),
                ),
            ),
        decreases live_below(old(lp_arena)@, bound as int), 6nat,
    {
        let ghost a0 = lp_arena@;
        let ghost es0 = expr_arena.exprs();
        let ghost n0 = expr_arena@.len() as int;
        let ghost lpv = lp@;
        let ghost hyp = is_node_tree(a0, lpv, bound as int, fuel, n0);
        let ghost t = node_tree(a0, lpv, bound as int, fuel);
        let ghost acc0 = acc_predicates@;
        proof {
            if hyp {
                lemma_node_tree(a0, lpv, bound as int, fuel, n0);
            }
        }
        let mut acc_predicates = acc_predicates;
        let ghost node_exprs = lpv.exprs();
        let slots = lp_arena.len();
        match lp {
            ALogicalPlan::Selection { predicate, input } => {
                assert(node_exprs[0] == predicate);
                let ghost c = CriterionView::Test(ExprTest::PushdownBoundary);
                // If a predicates result would be influenced by earlier applied filter
                // we remove it and apply it locally
                let local_predicates = acc_predicates.transfer_to_local_by_node(
                    expr_arena,
                    ExprTest::PushdownBoundary,
                );
                proof {
                    lemma_select(es0, c, acc0, true);
                    assert(nodes_below(local_predicates@, expr_arena@.len() as int)) by {
                        assert forall|j: int| 0 <= j < local_predicates@.len() implies (
                        #[trigger] local_predicates@[j]).0 < expr_arena@.len() by {
                            assert(local_predicates@[j] == spec_leaving(es0, c, acc0)[j].1);
                        }
                    }
                }
                acc_predicates.insert_and_combine_predicate(predicate, expr_arena);
                let ghost es1 = expr_arena.exprs();
                let ghost acc1 = acc_predicates@;
                let ghost tc = slot_tree(a0, input, bound as int, fuel);
                let ghost child = spec_push_down(tc, acc1, es1);
                proof {
                    if hyp {
                        assert(lpv.inputs() =~= seq![input]);
                        lemma_forest_of_one(a0, input, bound as int, fuel, n0);
                        lemma_slot_tree(a0, input, bound as int, fuel, n0);
                        lemma_exprs_below_grows(tc, n0, es1.len() as int);
                        lemma_push_inputs_one(tc, acc1, es1);
                        assert(t.children =~= seq![tc]);
                    }
                }
                if input.0 >= bound {
                    return Err(vacant_slot());
                }
                let alp = match lp_arena.take(input) {
                    Some(alp) => alp,
                    None => {
                        return Err(vacant_slot());
                    },
                };
                proof {
                    lemma_take_live(a0, input.0 as int, bound as int);
                }
                let new_input = self.push_down_within(
                    alp,
                    acc_predicates,
                    lp_arena,
                    expr_arena,
                    bound,
                    Ghost((fuel - 1) as nat),
                )?;
                proof {
                    if hyp {
                        lemma_refines_through(
                            a0,
                            lpv,
                            input,
                            lp_arena@,
                            new_input@,
                            bound as int,
                            fuel,
                            child.0,
                        );
                    }
                }
                Ok(
                    self.apply_local(
                        new_input,
                        local_predicates,
                        lp_arena,
                        expr_arena,
                        Ghost(a0),
                        Ghost(lpv),
                        Ghost(bound as int),
                        Ghost(fuel),
                        Ghost(child.0),
                    ),
                )
            },
            _ => Err(vacant_slot()),
        }
    }

    /// A table in memory takes every predicate.
    fn at_dataframe_scan(
        &self,
        lp: ALogicalPlan,
        acc_predicates: AccPredicates,
        lp_arena: &mut Arena<ALogicalPlan>,
        expr_arena: &mut Arena<AExpr>,
        bound: usize,
        Ghost(fuel): Ghost<nat>,
    ) -> (res: PolarsResult<ALogicalPlan>)
        requires
            old(expr_arena).wf(),
            acc_predicates.valid(old(expr_arena)@.len() as int),
            nodes_below(lp@.exprs(), old(expr_arena)@.len() as int),
            lp is DataFrameScan,
            bound <= old(lp_arena)@.len(),
        ensures
            final(expr_arena).wf(),
            extends(old(expr_arena).exprs(), final(expr_arena).exprs()),
            slots_frame(old(lp_arena)@, final(lp_arena)@, bound as int),
            fails_on_invariant_only(res),
            is_node_tree(old(lp_arena)@, lp@, bound as int, fuel, old(expr_arena)@.len() as int)
                ==> node_result(
                old(lp_arena)@,
                lp@,
                final(lp_arena)@,
                res,
                bound as int,
                fuel,
                final(expr_arena).exprs(),
                spec_push_down(
                    node_tree(old(lp_arena)@, lp@, bound as int, fuel),
                    acc_predicates@,
                    old(expr_arena).exprs(),
                ),
            ),
        decreases live_below(old(lp_arena)@, bound as int), 6nat,
    {
        let ghost a0 = lp_arena@;
        let ghost es0 = expr_arena.exprs();
        let ghost n0 = expr_arena@.len() as int;
        let ghost lpv = lp@;
        let ghost hyp = is_node_tree(a0, lpv, bound as int, fuel, n0);
        let ghost t = node_tree(a0, lpv, bound as int, fuel);
        let ghost acc0 = acc_predicates@;
        proof {
            if hyp {
                lemma_node_tree(a0, lpv, bound as int, fuel, n0);
            }
        }
        let mut acc_predicates = acc_predicates;
        let ghost node_exprs = lpv.exprs();
        let slots = lp_arena.len();
        match lp {
            ALogicalPlan::DataFrameScan { schema, selection } => {
                assert(selection matches Some(p) ==> node_exprs[0] == p);
                let selection = predicate_at_scan(acc_predicates, selection, expr_arena);
                let lp = ALogicalPlan::DataFrameScan { schema, selection };
                proof {
                    assert(lp@ == lpv.with_exprs(crate::alp::opt_seq(selection)));
                    lemma_refines_leaf(a0, lpv, lp@, bound as int, fuel);
                }
                Ok(lp)
            },
            _ => Err(vacant_slot()),
        }
    }

    /// A local projection lets everything pass, and then keeps the expressions that its input can still evaluate.
    #[verifier::loop_isolation(false)]
    fn at_local_projection(
        &self,
        lp: ALogicalPlan,
        acc_predicates: AccPredicates,
        lp_arena: &mut Arena<ALogicalPlan>,
        expr_arena: &mut Arena<AExpr>,
        bound: usize,
        Ghost(fuel): Ghost<nat>,
    ) -> (res: PolarsResult<ALogicalPlan>)
        requires
            old(expr_arena).wf(),
            acc_predicates.valid(old(expr_arena)@.len() as int),
            nodes_below(lp@.exprs(), old(expr_arena)@.len() as int),
            lp is LocalProjection,
            bound <= old(lp_arena)@.len(),
        ensures
            final(expr_arena).wf(),
            extends(old(expr_arena).exprs(), final(expr_arena).exprs()),
            slots_frame(old(lp_arena)@, final(lp_arena)@, bound as int),
            fails_on_invariant_only(res),
            is_node_tree(old(lp_arena)@, lp@, bound as int, fuel, old(expr_arena)@.len() as int)
                ==> node_result(
                old(lp_arena)@,
                lp@,
                final(lp_arena)@,
                res,
                bound as int,
                fuel,
                final(expr_arena).exprs(),
                spec_push_down(
                    node_tree(old(lp_arena)@, lp@, bound as int, fuel),
                    acc_predicates@,
                    old(expr_arena).exprs(),
                ),
            ),
        decreases live_below(old(lp_arena)@, bound as int), 6nat,
    {
        let ghost a0 = lp_arena@;
        let ghost es0 = expr_arena.exprs();
        let ghost n0 = expr_arena@.len() as int;
        let ghost lpv = lp@;
        let ghost hyp = is_node_tree(a0, lpv, bound as int, fuel, n0);
        let ghost t = node_tree(a0, lpv, bound as int, fuel);
        let ghost acc0 = acc_predicates@;
        proof {
            if hyp {
                lemma_node_tree(a0, lpv, bound as int, fuel, n0);
            }
        }
        let mut acc_predicates = acc_predicates;
        let ghost node_exprs = lpv.exprs();
        let slots = lp_arena.len();
        match lp {
            ALogicalPlan::LocalProjection { expr, input, .. } => {
                let ghost tc = slot_tree(a0, input, bound as int, fuel);
                let ghost child = spec_push_down(tc, acc0, es0);
                proof {
                    if hyp {
                        assert(lpv.inputs() =~= seq![input]);
                        lemma_forest_of_one(a0, input, bound as int, fuel, n0);
                        lemma_push_inputs_one(tc, acc0, es0);
                        assert(t.children =~= seq![tc]);
                    }
                }
                self.pushdown_and_assign(
                    input,
                    acc_predicates,
                    lp_arena,
                    expr_arena,
                    bound,
                    Ghost(fuel),
                )?;
                let ghost a2 = lp_arena@;
                let ghost es1 = expr_arena.exprs();
                proof {
                    if hyp {
                        lemma_refine_one(a0, input, a2, bound as int, fuel, child.0);
                        lemma_schema_at(a2, a2, input, (fuel + (a2.len() - a0.len())) as nat);
                    }
                }
                let schema = match plan_schema(lp_arena, input, lp_arena.len()) {
                    Some(schema) => schema,
                    None => {
                        return Err(vacant_slot());
                    },
                };
                // projection from a wildcard may be dropped if the schema changes due to the optimization
                let mut kept: Vec<Node> = Vec::new();
                let mut i: usize = 0;
                proof {
                    assert(expr@.take(0) =~= Seq::<Node>::empty());
                }
                while i < expr.len()
                    invariant
                        i <= expr@.len(),
                        expr_arena.wf(),
                        es1 == expr_arena.exprs(),
                        nodes_below(expr@, expr_arena@.len() as int),
                        nodes_below(kept@, expr_arena@.len() as int),
                        kept@ == spec_valid_exprs(es1, expr@.take(i as int), str_views(schema@)),
                    decreases expr@.len() - i,
                {
                    proof {
                        let next = expr@.take(i as int + 1);
                        assert(next.drop_last() =~= expr@.take(i as int));
                        assert(next.last() == expr@[i as int]);
                    }
                    if check_input_node(expr[i], &schema, expr_arena) {
                        kept.push(expr[i]);
                    }
                    i += 1;
                }
                proof {
                    assert(expr@.take(expr@.len() as int) =~= expr@);
                }
                let schema = aexprs_to_schema(&kept, expr_arena);
                let lp = ALogicalPlan::LocalProjection { expr: kept, input, schema };
                proof {
                    if hyp {
                        lemma_refines_node(
                            a0,
                            lpv,
                            seq![true],
                            a2,
                            lp@,
                            bound as int,
                            fuel,
                            seq![child.0],
                        );
                    }
                }
                Ok(lp)
            },
            _ => Err(vacant_slot()),
        }
    }

    /// A distinct lets pass what reads one column and does not depend on other rows, if it may keep any of several equal rows.
    fn at_distinct(
        &self,
        lp: ALogicalPlan,
        acc_predicates: AccPredicates,
        lp_arena: &mut Arena<ALogicalPlan>,
        expr_arena: &mut Arena<AExpr>,
        bound: usize,
        Ghost(fuel): Ghost<nat>,
    ) -> (res: PolarsResult<ALogicalPlan>)
        requires
            old(expr_arena).wf(),
            acc_predicates.valid(old(expr_arena)@.len() as int),
            nodes_below(lp@.exprs(), old(expr_arena)@.len() as int),
            lp is Distinct,
            bound <= old(lp_arena)@.len(),
        ensures
            final(expr_arena).wf(),
            extends(old(expr_arena).exprs(), final(expr_arena).exprs()),
            slots_frame(old(lp_arena)@, final(lp_arena)@, bound as int),
            fails_on_invariant_only(res),
            is_node_tree(old(lp_arena)@, lp@, bound as int, fuel, old(expr_arena)@.len() as int)
                ==> node_result(
                old(lp_arena)@,
                lp@,
                final(lp_arena)@,
                res,
                bound as int,
                fuel,
                final(expr_arena).exprs(),
                spec_push_down(
                    node_tree(old(lp_arena)@, lp@, bound as int, fuel),
                    acc_predicates@,
                    old(expr_arena).exprs(),
                ),
            ),
        decreases live_below(old(lp_arena)@, bound as int), 6nat,
    {
        let ghost a0 = lp_arena@;
        let ghost es0 = expr_arena.exprs();
        let ghost n0 = expr_arena@.len() as int;
        let ghost lpv = lp@;
        let ghost hyp = is_node_tree(a0, lpv, bound as int, fuel, n0);
        let ghost t = node_tree(a0, lpv, bound as int, fuel);
        let ghost acc0 = acc_predicates@;
        proof {
            if hyp {
                lemma_node_tree(a0, lpv, bound as int, fuel, n0);
            }
        }
        let mut acc_predicates = acc_predicates;
        let ghost node_exprs = lpv.exprs();
        let slots = lp_arena.len();
        match lp {
            ALogicalPlan::Distinct { input, keep_strategy } => {
                if matches!(keep_strategy, UniqueKeepStrategy::Any | UniqueKeepStrategy::Neither) {
                    // the distinct operation keeps one of several equal rows: a
                    // predicate that depends on the values of more than one column
                    // may give another result below it
                    let ghost c1 = CriterionView::MultiRoot;
                    let ghost c2 = CriterionView::Test(ExprTest::PushdownBoundary);
                    let mut local_predicates = acc_predicates.transfer_to_local(
                        expr_arena,
                        &Criterion::MultiRoot,
                    );
                    let ghost acc1 = acc_predicates@;
                    let mut more = acc_predicates.transfer_to_local_by_node(
                        expr_arena,
                        ExprTest::PushdownBoundary,
                    );
                    let ghost acc2 = acc_predicates@;
                    proof {
                        lemma_select(es0, c1, acc0, true);
                        lemma_select(es0, c2, acc1, true);
                        assert(nodes_below(local_predicates@, expr_arena@.len() as int)) by {
                            assert forall|j: int| 0 <= j < local_predicates@.len() implies (
                            #[trigger] local_predicates@[j]).0 < expr_arena@.len() by {
                                assert(local_predicates@[j] == spec_leaving(es0, c1, acc0)[j].1);
                            }
                        }
                        assert(nodes_below(more@, expr_arena@.len() as int)) by {
                            assert forall|j: int| 0 <= j < more@.len() implies (#[trigger] more@[j]).0
                                < expr_arena@.len() by {
                                assert(more@[j] == spec_leaving(es0, c2, acc1)[j].1);
                            }
                        }
                    }
                    local_predicates.append(&mut more);
                    let ghost tc = slot_tree(a0, input, bound as int, fuel);
                    let ghost child = spec_push_down(tc, acc2, es0);
                    proof {
                        if hyp {
                            assert(lpv.inputs() =~= seq![input]);
                            lemma_forest_of_one(a0, input, bound as int, fuel, n0);
                            lemma_push_inputs_one(tc, acc2, es0);
                            assert(t.children =~= seq![tc]);
                        }
                    }
                    self.pushdown_and_assign(
                        input,
                        acc_predicates,
                        lp_arena,
                        expr_arena,
                        bound,
                        Ghost(fuel),
                    )?;
                    let lp = ALogicalPlan::Distinct { input, keep_strategy };
                    let ghost t_mid = PlanTree { node: lpv.erased(), children: seq![child.0] };
                    proof {
                        if hyp {
                            lemma_refine_one(a0, input, lp_arena@, bound as int, fuel, child.0);
                            lemma_refines_node(
                                a0,
                                lpv,
                                seq![true],
                                lp_arena@,
                                lp@,
                                bound as int,
                                fuel,
                                seq![child.0],
                            );
                        }
                    }
                    Ok(
                        self.apply_local(
                            lp,
                            local_predicates,
                            lp_arena,
                            expr_arena,
                            Ghost(a0),
                            Ghost(lpv),
                            Ghost(bound as int),
                            Ghost(fuel),
                            Ghost(t_mid),
                        ),
                    )
                } else {
                    let lp = ALogicalPlan::Distinct { input, keep_strategy };
                    self.no_pushdown_restart_opt(
                        lp,
                        acc_predicates,
                        lp_arena,
                        expr_arena,
                        bound,
                        Ghost(fuel),
                    )
                }
            },
            _ => Err(vacant_slot()),
        }
    }

    /// A transform of rows: a rename, an explode, a melt, or one that says itself whether filters may pass.
    fn at_map_function(
        &self,
        lp: ALogicalPlan,
        acc_predicates: AccPredicates,
        lp_arena: &mut Arena<ALogicalPlan>,
        expr_arena: &mut Arena<AExpr>,
        bound: usize,
        Ghost(fuel): Ghost<nat>,
    ) -> (res: PolarsResult<ALogicalPlan>)
        requires
            old(expr_arena).wf(),
            acc_predicates.valid(old(expr_arena)@.len() as int),
            nodes_below(lp@.exprs(), old(expr_arena)@.len() as int),
            lp is MapFunction,
            bound <= old(lp_arena)@.len(),
        ensures
            final(expr_arena).wf(),
            extends(old(expr_arena).exprs(), final(expr_arena).exprs()),
            slots_frame(old(lp_arena)@, final(lp_arena)@, bound as int),
            fails_on_invariant_only(res),
            is_node_tree(old(lp_arena)@, lp@, bound as int, fuel, old(expr_arena)@.len() as int)
                ==> node_result(
                old(lp_arena)@,
                lp@,
                final(lp_arena)@,
                res,
                bound as int,
                fuel,
                final(expr_arena).exprs(),
                spec_push_down(
                    node_tree(old(lp_arena)@, lp@, bound as int, fuel),
                    acc_predicates@,
                    old(expr_arena).exprs(),
                ),
            ),
        decreases live_below(old(lp_arena)@, bound as int), 6nat,
    {
        let ghost a0 = lp_arena@;
        let ghost es0 = expr_arena.exprs();
        let ghost n0 = expr_arena@.len() as int;
        let ghost lpv = lp@;
        let ghost hyp = is_node_tree(a0, lpv, bound as int, fuel, n0);
        let ghost t = node_tree(a0, lpv, bound as int, fuel);
        let ghost acc0 = acc_predicates@;
        proof {
            if hyp {
                lemma_node_tree(a0, lpv, bound as int, fuel, n0);
            }
        }
        let mut acc_predicates = acc_predicates;
        let ghost node_exprs = lpv.exprs();
        let slots = lp_arena.len();
        match lp {
            ALogicalPlan::MapFunction { input, function } => {
                if function.allow_predicate_pd() {
                    match function {
                        FunctionNode::Rename { existing, new } => {
                            proof {
                                if hyp {
                                    assert(lpv.inputs() =~= seq![input]);
                                    lemma_schema_input(a0, bound as int, lpv.inputs(), 0, fuel);
                                }
                            }
                            let input_schema = match plan_schema(lp_arena, input, slots) {
                                Some(schema) => schema,
                                None => {
                                    return Err(vacant_slot());
                                },
                            };
                            let local_predicates = process_rename(
                                &mut acc_predicates,
                                expr_arena,
                                &existing,
                                &new,
                                &input_schema,
                            );
                            let ghost es1 = expr_arena.exprs();
                            let ghost inner = spec_pushdown_and_continue(
                                t,
                                acc_predicates@,
                                es1,
                                false,
                            );
                            let lp = ALogicalPlan::MapFunction {
                                input,
                                function: FunctionNode::Rename { existing, new },
                            };
                            proof {
                                if hyp {
                                    lemma_exprs_below_grows(t, n0, es1.len() as int);
                                }
                            }
                            let lp = self.pushdown_and_continue(
                                lp,
                                acc_predicates,
                                lp_arena,
                                expr_arena,
                                false,
                                bound,
                                Ghost(fuel),
                            )?;
                            Ok(
                                self.apply_local(
                                    lp,
                                    local_predicates,
                                    lp_arena,
                                    expr_arena,
                                    Ghost(a0),
                                    Ghost(lpv),
                                    Ghost(bound as int),
                                    Ghost(fuel),
                                    Ghost(inner.0),
                                ),
                            )
                        },
                        FunctionNode::Explode { columns } => {
                            // if any predicate is a pushdown boundary, thus influenced by order of
                            // predicates e.g.: sum(), over(), sort we do all here.
                            let all = acc_predicates.values();
                            let any_boundary = any_has_aexpr(
                                &all,
                                expr_arena,
                                ExprTest::PushdownBoundary,
                            );
                            if any_boundary {
                                let lp = ALogicalPlan::MapFunction {
                                    input,
                                    function: FunctionNode::Explode { columns },
                                };
                                let ghost inner = spec_pushdown_and_continue(
                                    t,
                                    Seq::<(Seq<char>, Node)>::empty(),
                                    es0,
                                    false,
                                );
                                let lp = self.pushdown_and_continue(
                                    lp,
                                    AccPredicates::new(),
                                    lp_arena,
                                    expr_arena,
                                    false,
                                    bound,
                                    Ghost(fuel),
                                )?;
                                Ok(
                                    self.apply_local(
                                        lp,
                                        all,
                                        lp_arena,
                                        expr_arena,
                                        Ghost(a0),
                                        Ghost(lpv),
                                        Ghost(bound as int),
                                        Ghost(fuel),
                                        Ghost(inner.0),
                                    ),
                                )
                            } else {
                                // first columns that refer to the exploded columns should be done here
                                let names = crate::names::clone_names(&columns);
                                let lp = ALogicalPlan::MapFunction {
                                    input,
                                    function: FunctionNode::Explode { columns },
                                };
                                self.hold_back(
                                    lp,
                                    acc_predicates,
                                    lp_arena,
                                    expr_arena,
                                    &Criterion::Names(&names),
                                    bound,
                                    Ghost(fuel),
                                )
                            }
                        },
                        FunctionNode::Melt { id_vars, value_vars, variable_name, value_name } => {
                            // predicates that will be done at this level
                            let mut names = crate::names::clone_names(&value_vars);
                            let ghost vars = str_views(names@);
                            match &variable_name {
                                Some(n) => names.push(n.clone()),
                                None => names.push(String::from_str("variable")),
                            }
                            match &value_name {
                                Some(n) => names.push(n.clone()),
                                None => names.push(String::from_str("value")),
                            }
                            proof {
                                assert(str_views(names@) =~= crate::predicate_pushdown::model::melt_names(
                                    str_views(value_vars@),
                                    crate::alp::opt_str_view(variable_name),
                                    crate::alp::opt_str_view(value_name),
                                ));
                            }
                            let lp = ALogicalPlan::MapFunction {
                                input,
                                function: FunctionNode::Melt {
                                    id_vars,
                                    value_vars,
                                    variable_name,
                                    value_name,
                                },
                            };
                            self.hold_back(
                                lp,
                                acc_predicates,
                                lp_arena,
                                expr_arena,
                                &Criterion::Names(&names),
                                bound,
                                Ghost(fuel),
                            )
                        },
                        FunctionNode::Opaque { name, predicate_pd } => {
                            let lp = ALogicalPlan::MapFunction {
                                input,
                                function: FunctionNode::Opaque { name, predicate_pd },
                            };
                            self.pushdown_and_continue(
                                lp,
                                acc_predicates,
                                lp_arena,
                                expr_arena,
                                false,
                                bound,
                                Ghost(fuel),
                            )
                        },
                    }
                } else {
                    let lp = ALogicalPlan::MapFunction { input, function };
                    self.no_pushdown_restart_opt(
                        lp,
                        acc_predicates,
                        lp_arena,
                        expr_arena,
                        bound,
                        Ghost(fuel),
                    )
                }
            },
            _ => Err(vacant_slot()),
        }
    }

    /// A scan through a foreign engine takes the predicates as text, if
    /// they can be written so. The conjunction of the predicates is
    /// written as it stands: it is not simplified first.
    fn at_python_scan(
        &self,
        lp: ALogicalPlan,
        acc_predicates: AccPredicates,
        lp_arena: &mut Arena<ALogicalPlan>,
        expr_arena: &mut Arena<AExpr>,
        bound: usize,
        Ghost(fuel): Ghost<nat>,
    ) -> (res: PolarsResult<ALogicalPlan>)
        requires
            old(expr_arena).wf(),
            acc_predicates.valid(old(expr_arena)@.len() as int),
            nodes_below(lp@.exprs(), old(expr_arena)@.len() as int),
            lp is PythonScan,
            bound <= old(lp_arena)@.len(),
        ensures
            final(expr_arena).wf(),
            extends(old(expr_arena).exprs(), final(expr_arena).exprs()),
            slots_frame(old(lp_arena)@, final(lp_arena)@, bound as int),
            fails_on_invariant_only(res),
            is_node_tree(old(lp_arena)@, lp@, bound as int, fuel, old(expr_arena)@.len() as int)
                ==> node_result(
                old(lp_arena)@,
                lp@,
                final(lp_arena)@,
                res,
                bound as int,
                fuel,
                final(expr_arena).exprs(),
                spec_push_down(
                    node_tree(old(lp_arena)@, lp@, bound as int, fuel),
                    acc_predicates@,
                    old(expr_arena).exprs(),
                ),
            ),
        decreases live_below(old(lp_arena)@, bound as int), 6nat,
    {
        let ghost a0 = lp_arena@;
        let ghost es0 = expr_arena.exprs();
        let ghost n0 = expr_arena@.len() as int;
        let ghost lpv = lp@;
        let ghost hyp = is_node_tree(a0, lpv, bound as int, fuel, n0);
        let ghost t = node_tree(a0, lpv, bound as int, fuel);
        let ghost acc0 = acc_predicates@;
        proof {
            if hyp {
                lemma_node_tree(a0, lpv, bound as int, fuel, n0);
            }
        }
        let mut acc_predicates = acc_predicates;
        let ghost node_exprs = lpv.exprs();
        let slots = lp_arena.len();
        match lp {
            ALogicalPlan::PythonScan { schema, pyarrow, pushed_predicate, predicate } => {
                if pyarrow {
                    assert(predicate matches Some(p) ==> node_exprs[0] == p);
                    let predicate = predicate_at_scan(acc_predicates, predicate, expr_arena);
                    match predicate {
                        Some(predicate) => {
                            match predicate_to_pa(predicate, expr_arena) {
                                // the predicate could be written as text: the scan takes it
                                Some(eval_str) => {
                                    let lp = ALogicalPlan::PythonScan {
                                        schema,
                                        pyarrow,
                                        pushed_predicate: Some(eval_str),
                                        predicate: None,
                                    };
                                    proof {
                                        lemma_refines_leaf(a0, lpv, lp@, bound as int, fuel);
                                    }
                                    Ok(lp)
                                },
                                // the predicate cannot be written as text:
                                // it is applied above the scan
                                None => {
                                    let lp = ALogicalPlan::PythonScan {
                                        schema,
                                        pyarrow,
                                        pushed_predicate,
                                        predicate: None,
                                    };
                                    let mut local: Vec<Node> = Vec::new();
                                    local.push(predicate);
                                    proof {
                                        assert(local@ =~= seq![predicate]);
                                        assert(lp@ == lpv.with_exprs(seq![]));
                                        lemma_refines_leaf(a0, lpv, lp@, bound as int, fuel);
                                    }
                                    let ghost t_mid = leaf(lp@);
                                    Ok(
                                        self.apply_local(
                                            lp,
                                            local,
                                            lp_arena,
                                            expr_arena,
                                            Ghost(a0),
                                            Ghost(lpv),
                                            Ghost(bound as int),
                                            Ghost(fuel),
                                            Ghost(t_mid),
                                        ),
                                    )
                                },
                            }
                        },
                        None => {
                            let lp = ALogicalPlan::PythonScan {
                                schema,
                                pyarrow,
                                pushed_predicate,
                                predicate: None,
                            };
                            proof {
                                lemma_refines_leaf(a0, lpv, lp@, bound as int, fuel);
                            }
                            Ok(lp)
                        },
                    }
                } else {
                    let lp = ALogicalPlan::PythonScan {
                        schema,
                        pyarrow,
                        pushed_predicate,
                        predicate,
                    };
                    self.no_pushdown_restart_opt(
                        lp,
                        acc_predicates,
                        lp_arena,
                        expr_arena,
                        bound,
                        Ghost(fuel),
                    )
                }
            },
            _ => Err(vacant_slot()),
        }
    }

    /// A scan of a file, or of a source that the user supplies.
    fn at_file_scan(
        &self,
        lp: ALogicalPlan,
        acc_predicates: AccPredicates,
        lp_arena: &mut Arena<ALogicalPlan>,
        expr_arena: &mut Arena<AExpr>,
        bound: usize,
        Ghost(fuel): Ghost<nat>,
    ) -> (res: PolarsResult<ALogicalPlan>)
        requires
            old(expr_arena).wf(),
            acc_predicates.valid(old(expr_arena)@.len() as int),
            nodes_below(lp@.exprs(), old(expr_arena)@.len() as int),
            lp is Scan || lp is AnonymousScan,
            bound <= old(lp_arena)@.len(),
        ensures
            final(expr_arena).wf(),
            extends(old(expr_arena).exprs(), final(expr_arena).exprs()),
            slots_frame(old(lp_arena)@, final(lp_arena)@, bound as int),
            fails_on_invariant_only(res),
            is_node_tree(old(lp_arena)@, lp@, bound as int, fuel, old(expr_arena)@.len() as int)
                ==> node_result(
                old(lp_arena)@,
                lp@,
                final(lp_arena)@,
                res,
                bound as int,
                fuel,
                final(expr_arena).exprs(),
                spec_push_down(
                    node_tree(old(lp_arena)@, lp@, bound as int, fuel),
                    acc_predicates@,
                    old(expr_arena).exprs(),
                ),
            ),
        decreases live_below(old(lp_arena)@, bound as int), 6nat,
    {
        let ghost a0 = lp_arena@;
        let ghost es0 = expr_arena.exprs();
        let ghost n0 = expr_arena@.len() as int;
        let ghost lpv = lp@;
        let ghost hyp = is_node_tree(a0, lpv, bound as int, fuel, n0);
        let ghost t = node_tree(a0, lpv, bound as int, fuel);
        proof {
            if hyp {
                lemma_node_tree(a0, lpv, bound as int, fuel, n0);
            }
        }
        match lp {
            ALogicalPlan::Scan { .. } => Ok(
                self.at_scan(
                    lp,
                    acc_predicates,
                    lp_arena,
                    expr_arena,
                    Ghost(bound as int),
                    Ghost(fuel),
                ),
            ),
            ALogicalPlan::AnonymousScan { allows_predicate_pushdown, .. } => {
                if allows_predicate_pushdown {
                    Ok(
                        self.at_scan(
                            lp,
                            acc_predicates,
                            lp_arena,
                            expr_arena,
                            Ghost(bound as int),
                            Ghost(fuel),
                        ),
                    )
                } else {
                    self.no_pushdown_restart_opt(
                        lp,
                        acc_predicates,
                        lp_arena,
                        expr_arena,
                        bound,
                        Ghost(fuel),
                    )
                }
            },
            _ => Err(vacant_slot()),
        }
    }

    /// A join.
    fn at_join(
        &self,
        lp: ALogicalPlan,
        acc_predicates: AccPredicates,
        lp_arena: &mut Arena<ALogicalPlan>,
        expr_arena: &mut Arena<AExpr>,
        bound: usize,
        Ghost(fuel): Ghost<nat>,
    ) -> (res: PolarsResult<ALogicalPlan>)
        requires
            old(expr_arena).wf(),
            acc_predicates.valid(old(expr_arena)@.len() as int),
            nodes_below(lp@.exprs(), old(expr_arena)@.len() as int),
            lp is Join,
            bound <= old(lp_arena)@.len(),
        ensures
            final(expr_arena).wf(),
            extends(old(expr_arena).exprs(), final(expr_arena).exprs()),
            slots_frame(old(lp_arena)@, final(lp_arena)@, bound as int),
            fails_on_invariant_only(res),
            is_node_tree(old(lp_arena)@, lp@, bound as int, fuel, old(expr_arena)@.len() as int)
                ==> node_result(
                old(lp_arena)@,
                lp@,
                final(lp_arena)@,
                res,
                bound as int,
                fuel,
                final(expr_arena).exprs(),
                spec_push_down(
                    node_tree(old(lp_arena)@, lp@, bound as int, fuel),
                    acc_predicates@,
                    old(expr_arena).exprs(),
                ),
            ),
        decreases live_below(old(lp_arena)@, bound as int), 6nat,
    {
        let ghost a0 = lp_arena@;
        let ghost es0 = expr_arena.exprs();
        let ghost n0 = expr_arena@.len() as int;
        let ghost lpv = lp@;
        let ghost hyp = is_node_tree(a0, lpv, bound as int, fuel, n0);
        let ghost t = node_tree(a0, lpv, bound as int, fuel);
        proof {
            if hyp {
                lemma_node_tree(a0, lpv, bound as int, fuel, n0);
            }
        }
        match lp {
            ALogicalPlan::Join { input_left, input_right, left_on, right_on, schema, how } => {
                proof {
                    let node_exprs = lpv.exprs();
                    assert forall|i: int| 0 <= i < left_on@.len() implies (#[trigger] left_on@[i]).0
                        < expr_arena@.len() by {
                        assert(node_exprs[i] == left_on@[i]);
                    }
                    assert forall|i: int| 0 <= i < right_on@.len() implies (
                    #[trigger] right_on@[i]).0 < expr_arena@.len() by {
                        assert(node_exprs[left_on@.len() + i] == right_on@[i]);
                    }
                }
                self.process_join(
                    lp_arena,
                    expr_arena,
                    input_left,
                    input_right,
                    left_on,
                    right_on,
                    schema,
                    how,
                    acc_predicates,
                    bound,
                    Ghost(fuel),
                )
            },
            _ => Err(vacant_slot()),
        }
    }

    /// A node that holds back the predicates that its result depends on, or none.
    #[verifier::rlimit(80)]
    fn at_passing_node(
        &self,
        lp: ALogicalPlan,
        acc_predicates: AccPredicates,
        lp_arena: &mut Arena<ALogicalPlan>,
        expr_arena: &mut Arena<AExpr>,
        bound: usize,
        Ghost(fuel): Ghost<nat>,
    ) -> (res: PolarsResult<ALogicalPlan>)
        requires
            old(expr_arena).wf(),
            acc_predicates.valid(old(expr_arena)@.len() as int),
            nodes_below(lp@.exprs(), old(expr_arena)@.len() as int),
            lp is Union || lp is Sort || lp is FileSink || lp is CloudSink,
            bound <= old(lp_arena)@.len(),
        ensures
            final(expr_arena).wf(),
            extends(old(expr_arena).exprs(), final(expr_arena).exprs()),
            slots_frame(old(lp_arena)@, final(lp_arena)@, bound as int),
            fails_on_invariant_only(res),
            is_node_tree(old(lp_arena)@, lp@, bound as int, fuel, old(expr_arena)@.len() as int)
                ==> node_result(
                old(lp_arena)@,
                lp@,
                final(lp_arena)@,
                res,
                bound as int,
                fuel,
                final(expr_arena).exprs(),
                spec_push_down(
                    node_tree(old(lp_arena)@, lp@, bound as int, fuel),
                    acc_predicates@,
                    old(expr_arena).exprs(),
                ),
            ),
        decreases live_below(old(lp_arena)@, bound as int), 6nat,
    {
        let ghost a0 = lp_arena@;
        let ghost es0 = expr_arena.exprs();
        let ghost n0 = expr_arena@.len() as int;
        let ghost lpv = lp@;
        let ghost hyp = is_node_tree(a0, lpv, bound as int, fuel, n0);
        let ghost t = node_tree(a0, lpv, bound as int, fuel);
        proof {
            if hyp {
                lemma_node_tree(a0, lpv, bound as int, fuel, n0);
            }
        }
        match lp {
            ALogicalPlan::Union { .. } => {
                // a count is influenced by a Union/Vstack
                self.hold_back(
                    lp,
                    acc_predicates,
                    lp_arena,
                    expr_arena,
                    &Criterion::Test(ExprTest::Count),
                    bound,
                    Ghost(fuel),
                )
            },
            ALogicalPlan::Sort { .. } => {
                self.hold_back(
                    lp,
                    acc_predicates,
                    lp_arena,
                    expr_arena,
                    &Criterion::Test(ExprTest::SortBoundary),
                    bound,
                    Ghost(fuel),
                )
            },
            // Pushed down passed these nodes
            ALogicalPlan::FileSink { .. } | ALogicalPlan::CloudSink { .. } => {
                self.pushdown_and_continue(
                    lp,
                    acc_predicates,
                    lp_arena,
                    expr_arena,
                    false,
                    bound,
                    Ghost(fuel),
                )
            },
            _ => Err(vacant_slot()),
        }
    }

    /// A node with projections.
    fn at_projecting_node(
        &self,
        lp: ALogicalPlan,
        acc_predicates: AccPredicates,
        lp_arena: &mut Arena<ALogicalPlan>,
        expr_arena: &mut Arena<AExpr>,
        bound: usize,
        Ghost(fuel): Ghost<nat>,
    ) -> (res: PolarsResult<ALogicalPlan>)
        requires
            old(expr_arena).wf(),
            acc_predicates.valid(old(expr_arena)@.len() as int),
            nodes_below(lp@.exprs(), old(expr_arena)@.len() as int),
            lp is HStack || lp is Projection || lp is ExtContext,
            bound <= old(lp_arena)@.len(),
        ensures
            final(expr_arena).wf(),
            extends(old(expr_arena).exprs(), final(expr_arena).exprs()),
            slots_frame(old(lp_arena)@, final(lp_arena)@, bound as int),
            fails_on_invariant_only(res),
            is_node_tree(old(lp_arena)@, lp@, bound as int, fuel, old(expr_arena)@.len() as int)
                ==> node_result(
                old(lp_arena)@,
                lp@,
                final(lp_arena)@,
                res,
                bound as int,
                fuel,
                final(expr_arena).exprs(),
                spec_push_down(
                    node_tree(old(lp_arena)@, lp@, bound as int, fuel),
                    acc_predicates@,
                    old(expr_arena).exprs(),
                ),
            ),
        decreases live_below(old(lp_arena)@, bound as int), 6nat,
    {
        let ghost a0 = lp_arena@;
        let ghost es0 = expr_arena.exprs();
        let ghost n0 = expr_arena@.len() as int;
        let ghost lpv = lp@;
        let ghost hyp = is_node_tree(a0, lpv, bound as int, fuel, n0);
        let ghost t = node_tree(a0, lpv, bound as int, fuel);
        proof {
            if hyp {
                lemma_node_tree(a0, lpv, bound as int, fuel, n0);
            }
        }
        match lp {
            ALogicalPlan::HStack { .. }
            | ALogicalPlan::Projection { .. }
            | ALogicalPlan::ExtContext { .. } => {
                self.pushdown_and_continue(
                    lp,
                    acc_predicates,
                    lp_arena,
                    expr_arena,
                    true,
                    bound,
                    Ghost(fuel),
                )
            },
            _ => Err(vacant_slot()),
        }
    }

    /// A node that no predicate may pass.
    fn at_blocking_node(
        &self,
        lp: ALogicalPlan,
        acc_predicates: AccPredicates,
        lp_arena: &mut Arena<ALogicalPlan>,
        expr_arena: &mut Arena<AExpr>,
        bound: usize,
        Ghost(fuel): Ghost<nat>,
    ) -> (res: PolarsResult<ALogicalPlan>)
        requires
            old(expr_arena).wf(),
            acc_predicates.valid(old(expr_arena)@.len() as int),
            nodes_below(lp@.exprs(), old(expr_arena)@.len() as int),
            lp is Slice || lp is Cache || lp is Aggregate,
            bound <= old(lp_arena)@.len(),
        ensures
            final(expr_arena).wf(),
            extends(old(expr_arena).exprs(), final(expr_arena).exprs()),
            slots_frame(old(lp_arena)@, final(lp_arena)@, bound as int),
            fails_on_invariant_only(res),
            is_node_tree(old(lp_arena)@, lp@, bound as int, fuel, old(expr_arena)@.len() as int)
                ==> node_result(
                old(lp_arena)@,
                lp@,
                final(lp_arena)@,
                res,
                bound as int,
                fuel,
                final(expr_arena).exprs(),
                spec_push_down(
                    node_tree(old(lp_arena)@, lp@, bound as int, fuel),
                    acc_predicates@,
                    old(expr_arena).exprs(),
                ),
            ),
        decreases live_below(old(lp_arena)@, bound as int), 6nat,
    {
        let ghost a0 = lp_arena@;
        let ghost es0 = expr_arena.exprs();
        let ghost n0 = expr_arena@.len() as int;
        let ghost lpv = lp@;
        let ghost hyp = is_node_tree(a0, lpv, bound as int, fuel, n0);
        let ghost t = node_tree(a0, lpv, bound as int, fuel);
        proof {
            if hyp {
                lemma_node_tree(a0, lpv, bound as int, fuel, n0);
            }
        }
        match lp {
            // predicates influence slice sizes
            ALogicalPlan::Slice { .. }
            // caches will be different
            | ALogicalPlan::Cache { .. }
            // dont push down predicates. An aggregation needs all rows
            | ALogicalPlan::Aggregate { .. } => {
                self.no_pushdown_restart_opt(
                    lp,
                    acc_predicates,
                    lp_arena,
                    expr_arena,
                    bound,
                    Ghost(fuel),
                )
            },
            _ => Err(vacant_slot()),
        }
    }

    /// Predicate pushdown optimizer
    ///
    /// # Arguments
    ///
    /// * `lp` - The node of the plan to optimize; its inputs are in `lp_arena`.
    /// * `acc_predicates` - The predicates we accumulate during tree traversal,
    ///                      by the name of the first column each of them reads.
    ///                      If the key is already taken we combine the predicate
    ///                      with a bitand operation.
    /// * `lp_arena` - The local memory arena for the logical plan.
    /// * `expr_arena` - The local memory arena for the expressions.
    /// * `bound` - The slots that the plan lay in when the pass began are below it.
    fn push_down_within(
        &self,
        lp: ALogicalPlan,
        acc_predicates: AccPredicates,
        lp_arena: &mut Arena<ALogicalPlan>,
        expr_arena: &mut Arena<AExpr>,
        bound: usize,
        Ghost(fuel): Ghost<nat>,
    ) -> (res: PolarsResult<ALogicalPlan>)
        requires
            old(expr_arena).wf(),
            acc_predicates.valid(old(expr_arena)@.len() as int),
            bound <= old(lp_arena)@.len(),
        ensures
            final(expr_arena).wf(),
            extends(old(expr_arena).exprs(), final(expr_arena).exprs()),
            slots_frame(old(lp_arena)@, final(lp_arena)@, bound as int),
            fails_on_invariant_only(res),
            is_node_tree(old(lp_arena)@, lp@, bound as int, fuel, old(expr_arena)@.len() as int)
                ==> node_result(
                old(lp_arena)@,
                lp@,
                final(lp_arena)@,
                res,
                bound as int,
                fuel,
                final(expr_arena).exprs(),
                spec_push_down(
                    node_tree(old(lp_arena)@, lp@, bound as int, fuel),
                    acc_predicates@,
                    old(expr_arena).exprs(),
                ),
            ),
        decreases live_below(old(lp_arena)@, bound as int), 7nat,
    {
        let node_exprs = lp.get_exprs();
        if !all_below(&node_exprs, expr_arena.len()) {
            proof {
                if is_node_tree(
                    lp_arena@,
                    lp@,
                    bound as int,
                    fuel,
                    expr_arena@.len() as int,
                ) {
                    lemma_node_tree(lp_arena@, lp@, bound as int, fuel, expr_arena@.len() as int);
                }
            }
            return Err(bad_expression());
        }
        match lp {
            ALogicalPlan::Selection { .. } => {
                self.at_selection(lp, acc_predicates, lp_arena, expr_arena, bound, Ghost(fuel))
            },
            ALogicalPlan::DataFrameScan { .. } => {
                self.at_dataframe_scan(lp, acc_predicates, lp_arena, expr_arena, bound, Ghost(fuel))
            },
            ALogicalPlan::LocalProjection { .. } => {
                self.at_local_projection(lp, acc_predicates, lp_arena, expr_arena, bound, Ghost(fuel))
            },
            ALogicalPlan::Scan { .. } | ALogicalPlan::AnonymousScan { .. } => {
                self.at_file_scan(lp, acc_predicates, lp_arena, expr_arena, bound, Ghost(fuel))
            },
            ALogicalPlan::Distinct { .. } => {
                self.at_distinct(lp, acc_predicates, lp_arena, expr_arena, bound, Ghost(fuel))
            },
            ALogicalPlan::Join { .. } => {
                self.at_join(lp, acc_predicates, lp_arena, expr_arena, bound, Ghost(fuel))
            },
            ALogicalPlan::MapFunction { .. } => {
                self.at_map_function(lp, acc_predicates, lp_arena, expr_arena, bound, Ghost(fuel))
            },
            ALogicalPlan::Union { .. }
            | ALogicalPlan::Sort { .. }
            | ALogicalPlan::FileSink { .. }
            | ALogicalPlan::CloudSink { .. } => {
                self.at_passing_node(lp, acc_predicates, lp_arena, expr_arena, bound, Ghost(fuel))
            },
            ALogicalPlan::HStack { .. }
            | ALogicalPlan::Projection { .. }
            | ALogicalPlan::ExtContext { .. } => {
                self.at_projecting_node(lp, acc_predicates, lp_arena, expr_arena, bound, Ghost(fuel))
            },
            ALogicalPlan::Slice { .. }
            | ALogicalPlan::Cache { .. }
            | ALogicalPlan::Aggregate { .. } => {
                self.at_blocking_node(lp, acc_predicates, lp_arena, expr_arena, bound, Ghost(fuel))
            },
            ALogicalPlan::PythonScan { .. } => {
                self.at_python_scan(lp, acc_predicates, lp_arena, expr_arena, bound, Ghost(fuel))
            },
        }
    }

    /// Runs the pass on the plan with the root `lp`, whose inputs are in
    /// `lp_arena`, with the predicates of `acc_predicates` coming in from
    /// above.
    ///
    /// If the plan is a tree in the arena, every expression of the
    /// expression arena comes after its inputs, and the accumulator
    /// names expressions of that arena, the pass succeeds, and the node
    /// it returns is the root of the plan that [`spec_push_down`]
    /// describes. Its nodes lie where [`plan_layout`] puts them: a node
    /// that is kept reads the slots it read, each of which holds the
    /// rewritten input; the slot under a filter that was taken up is
    /// vacant; and each new filter reads one new slot at the end of the
    /// arena. Slots that are no part of the plan are left alone.
    ///
    /// A scan through a foreign engine takes the conjunction of its
    /// predicates as text, written as it stands: the pass does not
    /// simplify it first.
    ///
    /// The pass fails only on arenas that are not so. It then hands on
    /// the error of the node that found the fault, and fills no slot
    /// that it found vacant.
    pub fn push_down(
        &self,
        lp: ALogicalPlan,
        acc_predicates: AccPredicates,
        lp_arena: &mut Arena<ALogicalPlan>,
        expr_arena: &mut Arena<AExpr>,
    ) -> (res: PolarsResult<ALogicalPlan>)
        requires
            acc_predicates.wf(),
        ensures
            old(expr_arena).wf() ==> final(expr_arena).wf() && extends(
                old(expr_arena).exprs(),
                final(expr_arena).exprs(),
            ),
            res matches Err(e) ==> e@ is InvariantViolation && !(old(expr_arena).wf()
                && acc_predicates.valid(old(expr_arena)@.len() as int) && is_plan(
                old(lp_arena)@,
                lp@,
                old(expr_arena)@.len() as int,
            )),
            res is Ok ==> old(expr_arena).wf(),
            slots_frame(old(lp_arena)@, final(lp_arena)@, old(lp_arena)@.len() as int),
            !old(expr_arena).wf() ==> {
                &&& final(lp_arena)@ == old(lp_arena)@
                &&& final(expr_arena)@ == old(expr_arena)@
                &&& res matches Err(e) && e@ == PolarsErrorView::InvariantViolation(
                    unordered_message(),
                )
            },
            old(expr_arena).wf() ==> fails_on_invariant_only(res),
            old(expr_arena).wf() && acc_predicates.valid(old(expr_arena)@.len() as int) && is_plan(
                old(lp_arena)@,
                lp@,
                old(expr_arena)@.len() as int,
            ) ==> {
                let model = spec_push_down(
                    plan_of(old(lp_arena)@, lp@),
                    acc_predicates@,
                    old(expr_arena).exprs(),
                );
                &&& res matches Ok(lp2) && holds_plan(final(lp_arena)@, lp2@, model.0) && (
                places(final(lp_arena)@),
                    lp2@,
                ) == plan_layout(old(lp_arena)@, lp@, model.0)
                &&& final(expr_arena).exprs() == model.1
                &&& forall|i: int|
                    0 <= i < old(lp_arena)@.len() ==> (#[trigger] plan_rest(old(lp_arena)@, lp@)[i])
                        is Some ==> final(lp_arena)@[i] == old(lp_arena)@[i]
            },
    {
        if !expr_arena.is_well_formed() {
            return Err(
                PolarsError::invariant_violation(
                    "an expression comes before one of its inputs, or is missing",
                ),
            );
        }
        let coming_in = acc_predicates.values();
        if !all_below(&coming_in, expr_arena.len()) {
            proof {
                if targets_below(acc_predicates@, expr_arena@.len() as int) {
                    assert forall|i: int| 0 <= i < coming_in@.len() implies (
                    #[trigger] coming_in@[i]).0 < expr_arena@.len() by {
                        assert(coming_in@[i] == acc_predicates@[i].1);
                    }
                }
            }
            return Err(bad_expression());
        }
        proof {
            assert forall|i: int| 0 <= i < acc_predicates@.len() implies (
            #[trigger] acc_predicates@[i]).1.0 < expr_arena@.len() by {
                assert(coming_in@[i] == acc_predicates@[i].1);
            }
        }
        let bound = lp_arena.len();
        let ghost a0 = lp_arena@;
        let ghost n0 = expr_arena@.len() as int;
        let ghost lpv = lp@;
        let ghost fuel: nat = plan_fuel(a0, lpv);
        let ghost model_tree = spec_push_down(
            node_tree(a0, lpv, a0.len() as int, fuel),
            acc_predicates@,
            expr_arena.exprs(),
        ).0;
        proof {
            if is_plan(a0, lpv, n0) {
                lemma_plan_fuel(a0, lpv, n0);
                lemma_plan_of(a0, lpv, fuel);
            }
        }
        let res = self.push_down_within(
            lp,
            acc_predicates,
            lp_arena,
            expr_arena,
            bound,
            Ghost(fuel),
        );
        proof {
            if is_plan(a0, lpv, n0) {
                let big = (fuel + (lp_arena@.len() - a0.len())) as nat;
                assert(unfold_node(lp_arena@, res->Ok_0@, big) is Some);
                lemma_node_laid(a0, lpv, lp_arena@, res->Ok_0@, model_tree, fuel);
            }
        }
        res
    }

    /// Runs the pass on `logical_plan`, whose inputs are in `lp_arena`:
    /// [`Self::push_down`] with no predicate coming in from above.
    pub fn optimize(
        &self,
        logical_plan: ALogicalPlan,
        lp_arena: &mut Arena<ALogicalPlan>,
        expr_arena: &mut Arena<AExpr>,
    ) -> (res: PolarsResult<ALogicalPlan>)
        ensures
            old(expr_arena).wf() ==> final(expr_arena).wf() && extends(
                old(expr_arena).exprs(),
                final(expr_arena).exprs(),
            ),
            res matches Err(e) ==> e@ is InvariantViolation && !(old(expr_arena).wf() && is_plan(
                old(lp_arena)@,
                logical_plan@,
                old(expr_arena)@.len() as int,
            )),
            res is Ok ==> old(expr_arena).wf(),
            slots_frame(old(lp_arena)@, final(lp_arena)@, old(lp_arena)@.len() as int),
            !old(expr_arena).wf() ==> {
                &&& final(lp_arena)@ == old(lp_arena)@
                &&& final(expr_arena)@ == old(expr_arena)@
                &&& res matches Err(e) && e@ == PolarsErrorView::InvariantViolation(
                    unordered_message(),
                )
            },
            old(expr_arena).wf() ==> fails_on_invariant_only(res),
            old(expr_arena).wf() && is_plan(
                old(lp_arena)@,
                logical_plan@,
                old(expr_arena)@.len() as int,
            ) ==> {
                let model = spec_push_down(
                    plan_of(old(lp_arena)@, logical_plan@),
                    Seq::empty(),
                    old(expr_arena).exprs(),
                );
                &&& res matches Ok(lp2) && holds_plan(final(lp_arena)@, lp2@, model.0) && (
                places(final(lp_arena)@),
                    lp2@,
                ) == plan_layout(old(lp_arena)@, logical_plan@, model.0)
                &&& final(expr_arena).exprs() == model.1
                &&& forall|i: int|
                    0 <= i < old(lp_arena)@.len() ==> (#[trigger] plan_rest(
                        old(lp_arena)@,
                        logical_plan@,
                    )[i]) is Some ==> final(lp_arena)@[i] == old(lp_arena)@[i]
            },
    {
        let acc_predicates = AccPredicates::new();
        self.push_down(logical_plan, acc_predicates, lp_arena, expr_arena)
    }
}

} // verus!
