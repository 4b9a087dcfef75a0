//! Predicates that cross a rename: a predicate that reads a new name is
//! rewritten to read the name that the column has below.

use vstd::prelude::*;

use crate::aexpr::{extends, AExpr, AExprView};
use crate::arena::{Arena, Node};
use crate::expr_walk::{named_views, targets_below, NamedNode};
use crate::names::str_views;
use crate::predicate_pushdown::utils::{rewrite_predicates, spec_rewrite_predicates};
use crate::predicate_pushdown::utils::{AccPredicates, RewriteRule, RewriteRuleView};

verus! {

/// For each of the first `k` pairs, the new name bound to a column
/// expression of the existing name, which is added to the arena.
pub open spec fn spec_rename_map(
    es: Seq<AExprView>,
    existing: Seq<Seq<char>>,
    new: Seq<Seq<char>>,
    k: nat,
) -> (Seq<(Seq<char>, Node)>, Seq<AExprView>)
    decreases k,
{
    if k == 0 {
        (seq![], es)
    } else {
        let (map, es1) = spec_rename_map(es, existing, new, (k - 1) as nat);
        (
            map.push((new[k - 1], Node(es1.len() as usize))),
            es1.push(AExprView::Column(existing[k - 1])),
        )
    }
}

/// The number of pairs of a rename.
pub open spec fn pair_count(existing: Seq<Seq<char>>, new: Seq<Seq<char>>) -> nat {
    if existing.len() <= new.len() {
        existing.len()
    } else {
        new.len()
    }
}

/// The rule for the input of a rename: the rewritten predicate may read
/// only what the input has.
pub open spec fn rename_rule(input_schema: Seq<Seq<char>>) -> RewriteRuleView {
    RewriteRuleView {
        schema: input_schema,
        forbidden: seq![],
        produced: None,
        guard_boundary: false,
        need_root: false,
        reject_boundary: false,
    }
}

/// What a rename does to the accumulator: every predicate has its
/// columns renamed from the new names to the existing ones, all at
/// once, and goes on if the input has all columns it then reads; else
/// the predicate as it came in stays above the rename. An empty
/// accumulator is left alone.
pub open spec fn spec_process_rename(
    acc: Seq<(Seq<char>, Node)>,
    es: Seq<AExprView>,
    existing: Seq<Seq<char>>,
    new: Seq<Seq<char>>,
    input_schema: Seq<Seq<char>>,
) -> (Seq<(Seq<char>, Node)>, Seq<Node>, Seq<AExprView>) {
    if acc.len() == 0 {
        (acc, seq![], es)
    } else {
        let (map, es1) = spec_rename_map(es, existing, new, pair_count(existing, new));
        spec_rewrite_predicates(acc, es1, map, rename_rule(input_schema))
    }
}

/// Rewrites the accumulator for the input of a rename and returns the
/// predicates that have to stay above it; see [`spec_process_rename`].
pub fn process_rename(
    acc: &mut AccPredicates,
    arena: &mut Arena<AExpr>,
    existing: &Vec<String>,
    new: &Vec<String>,
    input_schema: &Vec<String>,
) -> (res: Vec<Node>)
    requires
        old(arena).wf(),
        old(acc).valid(old(arena)@.len() as int),
    ensures
        final(arena).wf(),
        extends(old(arena).exprs(), final(arena).exprs()),
        final(acc).valid(final(arena)@.len() as int),
        forall|i: int| 0 <= i < res@.len() ==> (#[trigger] res@[i]).0 < final(arena)@.len(),
        (final(acc)@, res@, final(arena).exprs()) == spec_process_rename(
            old(acc)@,
            old(arena).exprs(),
            str_views(existing@),
            str_views(new@),
            str_views(input_schema@),
        ),
{
    if acc.is_empty() {
        return Vec::new();
    }
    let ghost es0 = arena.exprs();
    let ghost ex = str_views(existing@);
    let ghost nw = str_views(new@);
    let k = if existing.len() <= new.len() {
        existing.len()
    } else {
        new.len()
    };
    let mut map: Vec<NamedNode> = Vec::new();
    let mut i: usize = 0;
    assert(named_views(map@) =~= spec_rename_map(es0, ex, nw, 0).0);
    while i < k
        invariant
            i <= k,
            k <= existing@.len(),
            k <= new@.len(),
            ex == str_views(existing@),
            nw == str_views(new@),
            arena.wf(),
            extends(es0, arena.exprs()),
            targets_below(named_views(map@), arena@.len() as int),
            (named_views(map@), arena.exprs()) == spec_rename_map(es0, ex, nw, i as nat),
        decreases k - i,
    {
        let ghost before = named_views(map@);
        let col = arena.add_expr(AExpr::Column(existing[i].clone()));
        map.push(NamedNode { name: new[i].clone(), node: col });
        assert(named_views(map@) =~= before.push((nw[i as int], col)));
        i += 1;
    }
    let empty: Vec<String> = Vec::new();
    let rule = RewriteRule {
        schema: input_schema,
        forbidden: &empty,
        produced: None,
        guard_boundary: false,
        need_root: false,
        reject_boundary: false,
    };
    assert(rule@.forbidden =~= Seq::<Seq<char>>::empty());
    assert(rule@ == rename_rule(str_views(input_schema@)));
    let (out, local) = rewrite_predicates(acc, arena, &map, &rule);
    *acc = out;
    local
}

} // verus!
