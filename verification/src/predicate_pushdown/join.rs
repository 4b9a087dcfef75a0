//! Predicates at a join: which of them may move into the left input,
//! which into the right one, and which have to stay above the join.

use vstd::prelude::*;

use crate::aexpr::{AExpr, AExprView};
use crate::alp::JoinType;
use crate::arena::{Arena, Node};
use crate::expr_walk::{aexprs_to_leaf_names, spec_leaf_names_all};
use crate::names::str_views;
use crate::predicate_pushdown::utils::{entry_nodes, spec_leaving, spec_staying};
use crate::predicate_pushdown::utils::{AccPredicates, Criterion, CriterionView};

verus! {

/// Whether a predicate on columns of the left input alone may move into
/// the left input: for every kind of join but the outer join, which may
/// fill the left columns with nulls.
pub open spec fn pushes_left(how: JoinType) -> bool {
    !(how is Outer)
}

/// Whether a predicate on columns of the right input alone may move into
/// the right input: where the join keeps a right row only together with
/// the left rows it matches.
pub open spec fn pushes_right(how: JoinType) -> bool {
    how is Inner || how is Cross || how is AsOf
}

/// The columns that a predicate for the right input may not read: the
/// columns of the left input and, under an as-of join, the columns of
/// the keys.
pub open spec fn not_for_right(
    es: Seq<AExprView>,
    how: JoinType,
    schema_left: Seq<Seq<char>>,
    left_on: Seq<Node>,
    right_on: Seq<Node>,
) -> Seq<Seq<char>> {
    if how is AsOf {
        schema_left + (spec_leaf_names_all(es, left_on) + spec_leaf_names_all(es, right_on))
    } else {
        schema_left
    }
}

/// The accumulator at a join, split in three: the entries for the left
/// input, the entries for the right input, and the predicates that stay
/// above the join.
///
/// Each predicate is classed by the columns it reads, as it came in. It
/// goes to the left input if it reads columns of the left input alone,
/// and the kind of join lets it pass; of the others, it goes to the
/// right input if it reads columns of the right input alone, under an
/// as-of join none of the keys, and the kind of join lets it pass. A
/// predicate for the right input reads the columns of that input by
/// their own names, so that it is handed on as it is. All others stay
/// above the join: a predicate that reads columns of both inputs, one
/// that reads no column, and one that depends on other rows.
///
/// A column that both inputs have is counted to both sides: a predicate
/// that reads it stays above the join.
pub open spec fn spec_join_partition(
    acc: Seq<(Seq<char>, Node)>,
    es: Seq<AExprView>,
    how: JoinType,
    schema_left: Seq<Seq<char>>,
    schema_right: Seq<Seq<char>>,
    left_on: Seq<Node>,
    right_on: Seq<Node>,
) -> (Seq<(Seq<char>, Node)>, Seq<(Seq<char>, Node)>, Seq<Node>) {
    let to_left = CriterionView::OneSide { own: schema_left, other: schema_right };
    let to_right = CriterionView::OneSide {
        own: schema_right,
        other: not_for_right(es, how, schema_left, left_on, right_on),
    };
    let left = if pushes_left(how) {
        spec_leaving(es, to_left, acc)
    } else {
        seq![]
    };
    let rest = if pushes_left(how) {
        spec_staying(es, to_left, acc)
    } else {
        acc
    };
    let right = if pushes_right(how) {
        spec_leaving(es, to_right, rest)
    } else {
        seq![]
    };
    let above = if pushes_right(how) {
        spec_staying(es, to_right, rest)
    } else {
        rest
    };
    (left, right, entry_nodes(above))
}

/// Concatenates two lists of names.
fn concat_names(a: &Vec<String>, b: &Vec<String>) -> (res: Vec<String>)
    ensures
        str_views(res@) == str_views(a@) + str_views(b@),
{
    let mut out: Vec<String> = Vec::new();
    let mut i: usize = 0;
    while i < a.len()
        invariant
            i <= a@.len(),
            out@.len() == i,
            forall|j: int| 0 <= j < i ==> out@[j]@ == a@[j]@,
        decreases a@.len() - i,
    {
        out.push(a[i].clone());
        i += 1;
    }
    let mut j: usize = 0;
    while j < b.len()
        invariant
            j <= b@.len(),
            out@.len() == a@.len() + j,
            forall|q: int| 0 <= q < a@.len() ==> out@[q]@ == a@[q]@,
            forall|q: int| 0 <= q < j ==> out@[a@.len() + q]@ == b@[q]@,
        decreases b@.len() - j,
    {
        out.push(b[j].clone());
        j += 1;
    }
    assert(str_views(out@) =~= str_views(a@) + str_views(b@));
    out
}

/// Splits the accumulator at a join; see [`spec_join_partition`].
/// Returns the accumulators for the left and the right input and the
/// predicates that stay above the join. No expression is built.
pub fn join_partition(
    acc: &AccPredicates,
    arena: &Arena<AExpr>,
    how: JoinType,
    schema_left: &Vec<String>,
    schema_right: &Vec<String>,
    left_on: &Vec<Node>,
    right_on: &Vec<Node>,
) -> (res: (AccPredicates, AccPredicates, Vec<Node>))
    requires
        arena.wf(),
        acc.valid(arena@.len() as int),
        forall|i: int| 0 <= i < left_on@.len() ==> (#[trigger] left_on@[i]).0 < arena@.len(),
        forall|i: int| 0 <= i < right_on@.len() ==> (#[trigger] right_on@[i]).0 < arena@.len(),
    ensures
        res.0.valid(arena@.len() as int),
        res.1.valid(arena@.len() as int),
        forall|i: int| 0 <= i < res.2@.len() ==> (#[trigger] res.2@[i]).0 < arena@.len(),
        (res.0@, res.1@, res.2@) == spec_join_partition(
            acc@,
            arena.exprs(),
            how,
            str_views(schema_left@),
            str_views(schema_right@),
            left_on@,
            right_on@,
        ),
{
    let push_left = !matches!(how, JoinType::Outer);
    let push_right = matches!(how, JoinType::Inner | JoinType::Cross | JoinType::AsOf);
    let to_left = Criterion::OneSide { own: schema_left, other: schema_right };
    let (rest, left) = if push_left {
        acc.split(arena, &to_left)
    } else {
        (acc.duplicate(), AccPredicates::new())
    };
    if push_right {
        let keys = if matches!(how, JoinType::AsOf) {
            let left_keys = aexprs_to_leaf_names(left_on, arena);
            let right_keys = aexprs_to_leaf_names(right_on, arena);
            concat_names(&left_keys, &right_keys)
        } else {
            Vec::new()
        };
        let other = concat_names(schema_left, &keys);
        proof {
            assert(str_views(other@) =~= not_for_right(
                arena.exprs(),
                how,
                str_views(schema_left@),
                left_on@,
                right_on@,
            ));
        }
        let to_right = Criterion::OneSide { own: schema_right, other: &other };
        let (above, right) = rest.split(arena, &to_right);
        let local = above.values();
        (left, right, local)
    } else {
        let local = rest.values();
        (left, AccPredicates::new(), local)
    }
}

} // verus!
