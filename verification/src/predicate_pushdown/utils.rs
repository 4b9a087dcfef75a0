//! The accumulator of predicates in flight, and what the traversal does
//! with it at a node.

use vstd::prelude::*;

use crate::aexpr::{extends, AExpr, AExprView, ExprTest, Operator};
use crate::arena::{Arena, Node};
use crate::expr_walk::{aexpr_to_leaf_names, find_name, has_aexpr, lemma_find_name};
use crate::expr_walk::{spec_substitute, substitute_columns};
use crate::expr_walk::{named_views, spec_find_name, spec_has_aexpr, spec_leaf_names};
use crate::expr_walk::{targets_below, NamedNode};
use crate::names::{any_in, all_in, contains_name, names_all_in, names_any_in, str_views};
use vstd::string::StringExecFns;

verus! {

/// Key of a predicate that reads no column.
pub open spec fn rootless_key() -> Seq<char> {
    "_"@
}

/// The key under which a predicate is accumulated: the name of the first
/// column it reads, or `"_"` if it reads none.
pub open spec fn spec_predicate_to_key(es: Seq<AExprView>, h: int) -> Seq<char> {
    let names = spec_leaf_names(es, h);
    if names.len() > 0 {
        names[0]
    } else {
        rootless_key()
    }
}

/// The key under which a predicate is accumulated.
pub fn predicate_to_key(predicate: Node, arena: &Arena<AExpr>) -> (res: String)
    requires
        arena.wf(),
        predicate.0 < arena@.len(),
    ensures
        res@ == spec_predicate_to_key(arena.exprs(), predicate.0 as int),
{
    let names = aexpr_to_leaf_names(predicate, arena);
    if names.len() > 0 {
        assert(str_views(names@)[0] == names@[0]@);
        names[0].clone()
    } else {
        String::from_str("_")
    }
}

/// The conjunction of two predicates.
pub open spec fn and_of(left: Node, right: Node) -> AExprView {
    AExprView::BinaryExpr { left, op: Operator::And, right }
}

/// The predicates of the entries, in order.
pub open spec fn entry_nodes(acc: Seq<(Seq<char>, Node)>) -> Seq<Node> {
    Seq::new(acc.len(), |i: int| acc[i].1)
}

/// No two entries have the same key.
pub open spec fn distinct_keys(acc: Seq<(Seq<char>, Node)>) -> bool {
    forall|i: int, j: int|
        0 <= i < acc.len() && 0 <= j < acc.len() && i != j ==> (#[trigger] acc[i]).0 != (
        #[trigger] acc[j]).0
}

/// The accumulator after `p` has come in: stored under its key if the
/// key is free; else the entry of that key becomes the conjunction of
/// what it held and `p`, unless it holds `p` itself already.
pub open spec fn spec_insert_and_combine(
    acc: Seq<(Seq<char>, Node)>,
    p: Node,
    es: Seq<AExprView>,
) -> (Seq<(Seq<char>, Node)>, Seq<AExprView>) {
    let key = spec_predicate_to_key(es, p.0 as int);
    match spec_find_name(acc, key) {
        None => (acc.push((key, p)), es),
        Some(i) => if acc[i].1 == p {
            (acc, es)
        } else {
            (acc.update(i, (key, Node(es.len() as usize))), es.push(and_of(acc[i].1, p)))
        },
    }
}

/// The conjunction of `preds`, nested to the left: its handle, and the
/// arena with the conjunctions that were built. One predicate alone is
/// its own conjunction.
pub open spec fn spec_combine_predicates(preds: Seq<Node>, es: Seq<AExprView>) -> (
    Node,
    Seq<AExprView>,
)
    decreases preds.len(),
{
    if preds.len() <= 1 {
        (preds[0], es)
    } else {
        let (left, es1) = spec_combine_predicates(preds.drop_last(), es);
        (Node(es1.len() as usize), es1.push(and_of(left, preds.last())))
    }
}

/// The predicate that a scan holds after the accumulator has been
/// drained onto it: the conjunction of all entries and of what the scan
/// held before; what it held, if the accumulator is empty.
pub open spec fn spec_predicate_at_scan(
    acc: Seq<(Seq<char>, Node)>,
    existing: Option<Node>,
    es: Seq<AExprView>,
) -> (Option<Node>, Seq<AExprView>) {
    if acc.len() == 0 {
        (existing, es)
    } else {
        let (all, es1) = spec_combine_predicates(entry_nodes(acc), es);
        match existing {
            Some(p) => (Some(Node(es1.len() as usize)), es1.push(and_of(all, p))),
            None => (Some(all), es1),
        }
    }
}

/// Why an entry has to leave the accumulator at a node.
#[derive(Debug)]
pub enum Criterion<'a> {
    /// Its key, or a column it reads, is one of these names.
    Names(&'a Vec<String>),
    /// It reads a column that is not one of these names.
    NotIn(&'a Vec<String>),
    /// Its expression has the property.
    Test(ExprTest),
    /// It reads two columns of different names.
    MultiRoot,
    /// It belongs to one input of a join: it reads a column, does not
    /// depend on other rows, and reads columns of `own` only, none of
    /// which is in `other`.
    OneSide { own: &'a Vec<String>, other: &'a Vec<String> },
}

/// Mathematical model of a [`Criterion`].
pub ghost enum CriterionView {
    Names(Seq<Seq<char>>),
    NotIn(Seq<Seq<char>>),
    Test(ExprTest),
    MultiRoot,
    OneSide { own: Seq<Seq<char>>, other: Seq<Seq<char>> },
}

impl<'a> View for Criterion<'a> {
    type V = CriterionView;

    open spec fn view(&self) -> CriterionView {
        match self {
            Criterion::Names(names) => CriterionView::Names(str_views(names@)),
            Criterion::NotIn(names) => CriterionView::NotIn(str_views(names@)),
            Criterion::Test(t) => CriterionView::Test(*t),
            Criterion::MultiRoot => CriterionView::MultiRoot,
            Criterion::OneSide { own, other } => CriterionView::OneSide {
                own: str_views(own@),
                other: str_views(other@),
            },
        }
    }
}

/// Whether `names` holds two different names.
pub open spec fn multi_root(names: Seq<Seq<char>>) -> bool {
    exists|i: int| 0 <= i < names.len() && #[trigger] names[i] != names[0]
}

/// Whether the entry meets the criterion.
pub open spec fn spec_meets(es: Seq<AExprView>, c: CriterionView, entry: (Seq<char>, Node)) -> bool {
    match c {
        CriterionView::Names(names) => names.contains(entry.0) || any_in(
            spec_leaf_names(es, entry.1.0 as int),
            names,
        ),
        CriterionView::NotIn(names) => !all_in(spec_leaf_names(es, entry.1.0 as int), names),
        CriterionView::Test(t) => spec_has_aexpr(es, entry.1.0 as int, t),
        CriterionView::MultiRoot => multi_root(spec_leaf_names(es, entry.1.0 as int)),
        CriterionView::OneSide { own, other } => {
            let names = spec_leaf_names(es, entry.1.0 as int);
            &&& names.len() > 0
            &&& !spec_has_aexpr(es, entry.1.0 as int, ExprTest::PushdownBoundary)
            &&& all_in(names, own)
            &&& !any_in(names, other)
        },
    }
}

/// The entries of `acc` for which [`spec_meets`] gives `want`, in order.
pub open spec fn spec_select(
    es: Seq<AExprView>,
    c: CriterionView,
    acc: Seq<(Seq<char>, Node)>,
    want: bool,
) -> Seq<(Seq<char>, Node)>
    decreases acc.len(),
{
    if acc.len() == 0 {
        seq![]
    } else {
        let rest = spec_select(es, c, acc.drop_last(), want);
        if spec_meets(es, c, acc.last()) == want {
            rest.push(acc.last())
        } else {
            rest
        }
    }
}

/// The entries that meet the criterion, in order.
pub open spec fn spec_leaving(es: Seq<AExprView>, c: CriterionView, acc: Seq<(Seq<char>, Node)>) -> Seq<
    (Seq<char>, Node),
> {
    spec_select(es, c, acc, true)
}

/// The entries that do not meet the criterion, in order.
pub open spec fn spec_staying(es: Seq<AExprView>, c: CriterionView, acc: Seq<(Seq<char>, Node)>) -> Seq<
    (Seq<char>, Node),
> {
    spec_select(es, c, acc, false)
}

/// A selection holds entries of the accumulator only, each once: it is
/// no longer, its keys stay distinct and its handles stay in range.
pub proof fn lemma_select(
    es: Seq<AExprView>,
    c: CriterionView,
    acc: Seq<(Seq<char>, Node)>,
    want: bool,
)
    ensures
        spec_select(es, c, acc, want).len() <= acc.len(),
        forall|k: int|
            0 <= k < spec_select(es, c, acc, want).len() ==> acc.contains(
                #[trigger] spec_select(es, c, acc, want)[k],
            ) && spec_meets(es, c, spec_select(es, c, acc, want)[k]) == want,
        distinct_keys(acc) ==> distinct_keys(spec_select(es, c, acc, want)),
        forall|bound: int|
            targets_below(acc, bound) ==> #[trigger] targets_below(
                spec_select(es, c, acc, want),
                bound,
            ),
    decreases acc.len(),
{
    let sel = spec_select(es, c, acc, want);
    if acc.len() > 0 {
        let rest = spec_select(es, c, acc.drop_last(), want);
        lemma_select(es, c, acc.drop_last(), want);
        assert forall|k: int| 0 <= k < sel.len() implies acc.contains(#[trigger] sel[k])
            && spec_meets(es, c, sel[k]) == want by {
            if k < rest.len() {
                assert(acc.drop_last().contains(rest[k]));
                let j = choose|j: int| 0 <= j < acc.drop_last().len() && acc.drop_last()[j] == rest[k];
                assert(acc[j] == rest[k]);
            } else {
                assert(sel[k] == acc[acc.len() - 1]);
            }
        }
        if distinct_keys(acc) {
            assert(distinct_keys(acc.drop_last())) by {
                assert forall|i: int, j: int|
                    0 <= i < acc.len() - 1 && 0 <= j < acc.len() - 1 && i != j implies (
                #[trigger] acc.drop_last()[i]).0 != (#[trigger] acc.drop_last()[j]).0 by {
                    assert(acc[i].0 != acc[j].0);
                }
            }
            assert forall|i: int, j: int|
                0 <= i < sel.len() && 0 <= j < sel.len() && i != j implies (#[trigger] sel[i]).0 != (
            #[trigger] sel[j]).0 by {
                if i < rest.len() && j < rest.len() {
                    assert(rest[i].0 != rest[j].0);
                } else {
                    let small = if i < rest.len() {
                        i
                    } else {
                        j
                    };
                    assert(acc.drop_last().contains(rest[small]));
                    let q = choose|q: int|
                        0 <= q < acc.drop_last().len() && acc.drop_last()[q] == rest[small];
                    assert(acc[q].0 != acc[acc.len() - 1].0);
                }
            }
        }
        assert forall|bound: int| targets_below(acc, bound) implies #[trigger] targets_below(
            sel,
            bound,
        ) by {
            assert forall|k: int| 0 <= k < sel.len() implies (#[trigger] sel[k]).1.0 < bound by {
                let j = choose|j: int| 0 <= j < acc.len() && acc[j] == sel[k];
                assert(acc[j].1.0 < bound);
            }
        }
    }
}

fn has_multi_root(names: &Vec<String>) -> (res: bool)
    ensures
        res == multi_root(str_views(names@)),
{
    let mut i: usize = 0;
    while i < names.len()
        invariant
            i <= names@.len(),
            forall|j: int| 0 <= j < i ==> #[trigger] str_views(names@)[j] == str_views(names@)[0],
        decreases names@.len() - i,
    {
        if names[i] != names[0] {
            assert(str_views(names@)[i as int] != str_views(names@)[0]);
            return true;
        }
        i += 1;
    }
    false
}

/// The predicates in flight: for each key at most one predicate, in the
/// order in which the keys came in.
#[derive(Debug)]
pub struct AccPredicates {
    entries: Vec<NamedNode>,
}

impl View for AccPredicates {
    type V = Seq<(Seq<char>, Node)>;

    closed spec fn view(&self) -> Seq<(Seq<char>, Node)> {
        named_views(self.entries@)
    }
}

impl AccPredicates {
    /// The keys are distinct.
    pub open spec fn wf(&self) -> bool {
        distinct_keys(self@)
    }

    /// The accumulator is well formed and every predicate in it has a
    /// handle below `bound`.
    pub open spec fn valid(&self, bound: int) -> bool {
        self.wf() && targets_below(self@, bound)
    }

    /// An empty accumulator.
    pub fn new() -> (res: Self)
        ensures
            res@ == Seq::<(Seq<char>, Node)>::empty(),
            res.wf(),
    {
        let res = AccPredicates { entries: Vec::new() };
        assert(res@ =~= Seq::<(Seq<char>, Node)>::empty());
        res
    }

    /// Number of entries.
    pub fn len(&self) -> (res: usize)
        ensures
            res == self@.len(),
    {
        self.entries.len()
    }

    /// Whether there is no entry.
    pub fn is_empty(&self) -> (res: bool)
        ensures
            res == (self@.len() == 0),
    {
        self.entries.len() == 0
    }

    /// The predicate of the entry at position `i`.
    pub fn node_at(&self, i: usize) -> (res: Node)
        requires
            i < self@.len(),
        ensures
            res == self@[i as int].1,
    {
        self.entries[i].node
    }

    /// The key of the entry at position `i`.
    pub fn key_at(&self, i: usize) -> (res: &String)
        requires
            i < self@.len(),
        ensures
            res@ == self@[i as int].0,
    {
        &self.entries[i].name
    }

    /// The predicates of all entries, in order.
    pub fn values(&self) -> (res: Vec<Node>)
        ensures
            res@ == entry_nodes(self@),
    {
        let mut out: Vec<Node> = Vec::new();
        let mut i: usize = 0;
        while i < self.entries.len()
            invariant
                i <= self.entries@.len(),
                out@.len() == i,
                forall|j: int| 0 <= j < i ==> out@[j] == self@[j].1,
            decreases self.entries@.len() - i,
        {
            out.push(self.entries[i].node);
            i += 1;
        }
        assert(out@ =~= entry_nodes(self@));
        out
    }

    /// Whether the entry at position `i` meets the criterion.
    fn meets(&self, i: usize, c: &Criterion, arena: &Arena<AExpr>) -> (res: bool)
        requires
            arena.wf(),
            i < self@.len(),
            targets_below(self@, arena@.len() as int),
        ensures
            res == spec_meets(arena.exprs(), c@, self@[i as int]),
    {
        let e = &self.entries[i];
        assert(self@[i as int].1 == e.node);
        match c {
            Criterion::Names(names) => {
                if contains_name(names, &e.name) {
                    true
                } else {
                    let roots = aexpr_to_leaf_names(e.node, arena);
                    names_any_in(&roots, names)
                }
            },
            Criterion::NotIn(names) => {
                let roots = aexpr_to_leaf_names(e.node, arena);
                !names_all_in(&roots, names)
            },
            Criterion::Test(t) => has_aexpr(e.node, arena, *t),
            Criterion::MultiRoot => {
                let roots = aexpr_to_leaf_names(e.node, arena);
                has_multi_root(&roots)
            },
            Criterion::OneSide { own, other } => {
                let roots = aexpr_to_leaf_names(e.node, arena);
                roots.len() > 0 && !has_aexpr(e.node, arena, ExprTest::PushdownBoundary)
                    && names_all_in(&roots, own) && !names_any_in(&roots, other)
            },
        }
    }

    /// Takes `predicate` into the accumulator: under its key if the key
    /// is free, else combined by `AND` with the predicate of that key,
    /// unless that is `predicate` itself.
    pub fn insert_and_combine_predicate(&mut self, predicate: Node, arena: &mut Arena<AExpr>)
        requires
            old(arena).wf(),
            predicate.0 < old(arena)@.len(),
            old(self).valid(old(arena)@.len() as int),
        ensures
            final(arena).wf(),
            extends(old(arena).exprs(), final(arena).exprs()),
            final(self).valid(final(arena)@.len() as int),
            (final(self)@, final(arena).exprs()) == spec_insert_and_combine(
                old(self)@,
                predicate,
                old(arena).exprs(),
            ),
    {
        let key = predicate_to_key(predicate, arena);
        let found = find_name(&self.entries, &key);
        proof {
            lemma_find_name(self@, key@);
        }
        match found {
            None => {
                self.entries.push(NamedNode { name: key, node: predicate });
                assert(self@ =~= old(self)@.push((key@, predicate)));
            },
            Some(i) => {
                let prev = self.entries[i].node;
                assert(prev == old(self)@[i as int].1);
                if prev != predicate {
                    let both = arena.add_expr(
                        AExpr::BinaryExpr { left: prev, op: Operator::And, right: predicate },
                    );
                    self.entries[i] = NamedNode { name: key, node: both };
                    assert(self@ =~= old(self)@.update(i as int, (key@, both)));
                }
            },
        }
    }

    /// Splits the accumulator by the criterion: the entries that do not
    /// meet it, and the entries that do.
    pub fn split(&self, arena: &Arena<AExpr>, c: &Criterion) -> (res: (AccPredicates, AccPredicates))
        requires
            arena.wf(),
            self.valid(arena@.len() as int),
        ensures
            res.0.valid(arena@.len() as int),
            res.1.valid(arena@.len() as int),
            res.0@ == spec_staying(arena.exprs(), c@, self@),
            res.1@ == spec_leaving(arena.exprs(), c@, self@),
    {
        let ghost es = arena.exprs();
        let ghost all = self@;
        let mut kept: Vec<NamedNode> = Vec::new();
        let mut gone: Vec<NamedNode> = Vec::new();
        let mut i: usize = 0;
        assert(all.take(0) =~= Seq::<(Seq<char>, Node)>::empty());
        assert(named_views(kept@) =~= spec_staying(es, c@, all.take(0)));
        assert(named_views(gone@) =~= spec_leaving(es, c@, all.take(0)));
        while i < self.entries.len()
            invariant
                i <= self.entries@.len(),
                arena.wf(),
                es == arena.exprs(),
                all == self@,
                targets_below(all, arena@.len() as int),
                named_views(kept@) == spec_staying(es, c@, all.take(i as int)),
                named_views(gone@) == spec_leaving(es, c@, all.take(i as int)),
            decreases self.entries@.len() - i,
        {
            let leaves = self.meets(i, c, arena);
            proof {
                let next = all.take(i as int + 1);
                assert(next.drop_last() =~= all.take(i as int));
                assert(next.last() == all[i as int]);
            }
            let ghost kept_before = named_views(kept@);
            let ghost gone_before = named_views(gone@);
            let copy = NamedNode { name: self.entries[i].name.clone(), node: self.entries[i].node };
            if leaves {
                gone.push(copy);
                assert(named_views(gone@) =~= gone_before.push(all[i as int]));
            } else {
                kept.push(copy);
                assert(named_views(kept@) =~= kept_before.push(all[i as int]));
            }
            i += 1;
        }
        proof {
            assert(all.take(all.len() as int) =~= all);
            lemma_select(es, c@, all, false);
            lemma_select(es, c@, all, true);
        }
        (AccPredicates { entries: kept }, AccPredicates { entries: gone })
    }

    /// Splits the accumulator by the criterion: a copy of the entries
    /// that do not meet it, and the predicates of those that do.
    pub fn partition(&self, arena: &Arena<AExpr>, c: &Criterion) -> (res: (AccPredicates, Vec<Node>))
        requires
            arena.wf(),
            self.valid(arena@.len() as int),
        ensures
            res.0.valid(arena@.len() as int),
            res.0@ == spec_staying(arena.exprs(), c@, self@),
            res.1@ == entry_nodes(spec_leaving(arena.exprs(), c@, self@)),
    {
        let (kept, gone) = self.split(arena, c);
        let local = gone.values();
        (kept, local)
    }

    /// A copy of the accumulator.
    pub fn duplicate(&self) -> (res: AccPredicates)
        ensures
            res@ == self@,
    {
        let mut out: Vec<NamedNode> = Vec::new();
        let mut i: usize = 0;
        while i < self.entries.len()
            invariant
                i <= self.entries@.len(),
                out@.len() == i,
                forall|j: int| 0 <= j < i ==> named_views(out@)[j] == self@[j],
            decreases self.entries@.len() - i,
        {
            out.push(NamedNode { name: self.entries[i].name.clone(), node: self.entries[i].node });
            i += 1;
        }
        assert(named_views(out@) =~= self@);
        AccPredicates { entries: out }
    }

    /// Moves every entry that meets the criterion out of the accumulator
    /// and returns the predicates of the moved entries, in order.
    pub fn transfer_to_local(&mut self, arena: &Arena<AExpr>, c: &Criterion) -> (res: Vec<Node>)
        requires
            arena.wf(),
            old(self).valid(arena@.len() as int),
        ensures
            final(self).valid(arena@.len() as int),
            final(self)@ == spec_staying(arena.exprs(), c@, old(self)@),
            res@ == entry_nodes(spec_leaving(arena.exprs(), c@, old(self)@)),
    {
        let (kept, local) = self.partition(arena, c);
        *self = kept;
        local
    }

    /// Moves every entry whose key, or one of whose columns, is among
    /// `names` out of the accumulator; returns the moved predicates.
    pub fn transfer_to_local_by_name(&mut self, arena: &Arena<AExpr>, names: &Vec<String>) -> (res:
        Vec<Node>)
        requires
            arena.wf(),
            old(self).valid(arena@.len() as int),
        ensures
            final(self).valid(arena@.len() as int),
            final(self)@ == spec_staying(
                arena.exprs(),
                CriterionView::Names(str_views(names@)),
                old(self)@,
            ),
            res@ == entry_nodes(
                spec_leaving(arena.exprs(), CriterionView::Names(str_views(names@)), old(self)@),
            ),
    {
        self.transfer_to_local(arena, &Criterion::Names(names))
    }

    /// Moves every entry whose expression has the property `t` out of
    /// the accumulator; returns the moved predicates.
    pub fn transfer_to_local_by_node(&mut self, arena: &Arena<AExpr>, t: ExprTest) -> (res: Vec<
        Node,
    >)
        requires
            arena.wf(),
            old(self).valid(arena@.len() as int),
        ensures
            final(self).valid(arena@.len() as int),
            final(self)@ == spec_staying(arena.exprs(), CriterionView::Test(t), old(self)@),
            res@ == entry_nodes(spec_leaving(arena.exprs(), CriterionView::Test(t), old(self)@)),
    {
        self.transfer_to_local(arena, &Criterion::Test(t))
    }

    /// Moves every entry that needs all rows of the input, and so cannot
    /// be evaluated by a scan, out of the accumulator.
    pub fn partition_by_full_context(&mut self, arena: &Arena<AExpr>) -> (res: Vec<Node>)
        requires
            arena.wf(),
            old(self).valid(arena@.len() as int),
        ensures
            final(self).valid(arena@.len() as int),
            final(self)@ == spec_staying(
                arena.exprs(),
                CriterionView::Test(ExprTest::FullContext),
                old(self)@,
            ),
            res@ == entry_nodes(
                spec_leaving(arena.exprs(), CriterionView::Test(ExprTest::FullContext), old(self)@),
            ),
    {
        self.transfer_to_local(arena, &Criterion::Test(ExprTest::FullContext))
    }
}


/// Combines the predicates by `AND`, nested to the left.
pub fn combine_predicates(preds: &Vec<Node>, arena: &mut Arena<AExpr>) -> (res: Node)
    requires
        old(arena).wf(),
        preds@.len() > 0,
        forall|i: int| 0 <= i < preds@.len() ==> (#[trigger] preds@[i]).0 < old(arena)@.len(),
    ensures
        final(arena).wf(),
        extends(old(arena).exprs(), final(arena).exprs()),
        res.0 < final(arena)@.len(),
        (res, final(arena).exprs()) == spec_combine_predicates(preds@, old(arena).exprs()),
{
    let ghost es0 = arena.exprs();
    let mut single = preds[0];
    let mut i: usize = 1;
    assert(preds@.take(1).len() == 1);
    while i < preds.len()
        invariant
            1 <= i <= preds@.len(),
            arena.wf(),
            extends(es0, arena.exprs()),
            single.0 < arena@.len(),
            forall|j: int| 0 <= j < preds@.len() ==> (#[trigger] preds@[j]).0 < arena@.len(),
            (single, arena.exprs()) == spec_combine_predicates(preds@.take(i as int), es0),
        decreases preds@.len() - i,
    {
        proof {
            let next = preds@.take(i as int + 1);
            assert(next.drop_last() =~= preds@.take(i as int));
            assert(next.last() == preds@[i as int]);
        }
        single = arena.add_expr(
            AExpr::BinaryExpr { left: single, op: Operator::And, right: preds[i] },
        );
        i += 1;
    }
    assert(preds@.take(preds@.len() as int) =~= preds@);
    single
}

/// Drains the accumulator onto a scan that holds `existing`: the
/// conjunction of everything, or `existing` if there is nothing to add.
pub fn predicate_at_scan(acc: AccPredicates, existing: Option<Node>, arena: &mut Arena<AExpr>) -> (res:
    Option<Node>)
    requires
        old(arena).wf(),
        acc.valid(old(arena)@.len() as int),
        existing matches Some(p) ==> p.0 < old(arena)@.len(),
    ensures
        final(arena).wf(),
        extends(old(arena).exprs(), final(arena).exprs()),
        res matches Some(p) ==> p.0 < final(arena)@.len(),
        (res, final(arena).exprs()) == spec_predicate_at_scan(
            acc@,
            existing,
            old(arena).exprs(),
        ),
{
    if acc.is_empty() {
        existing
    } else {
        let preds = acc.values();
        let all = combine_predicates(&preds, arena);
        match existing {
            Some(p) => Some(
                arena.add_expr(AExpr::BinaryExpr { left: all, op: Operator::And, right: p }),
            ),
            None => Some(all),
        }
    }
}


/// When a predicate, rewritten for the input of a node, may move into
/// that input.
#[derive(Debug)]
pub struct RewriteRule<'a> {
    /// The columns of the input: the rewritten predicate may read no
    /// other column.
    pub schema: &'a Vec<String>,
    /// Columns that the rewritten predicate may not read.
    pub forbidden: &'a Vec<String>,
    /// If given, the columns that the node produces: the predicate as it
    /// came in may read no other column.
    pub produced: Option<&'a Vec<String>>,
    /// The rewriting may not bring in an expression that depends on
    /// other rows.
    pub guard_boundary: bool,
    /// The rewritten predicate has to read a column.
    pub need_root: bool,
    /// The predicate as it came in may not depend on other rows.
    pub reject_boundary: bool,
}

/// Mathematical model of a [`RewriteRule`].
pub ghost struct RewriteRuleView {
    pub schema: Seq<Seq<char>>,
    pub forbidden: Seq<Seq<char>>,
    pub produced: Option<Seq<Seq<char>>>,
    pub guard_boundary: bool,
    pub need_root: bool,
    pub reject_boundary: bool,
}

impl<'a> View for RewriteRule<'a> {
    type V = RewriteRuleView;

    open spec fn view(&self) -> RewriteRuleView {
        RewriteRuleView {
            schema: str_views(self.schema@),
            forbidden: str_views(self.forbidden@),
            produced: match self.produced {
                Some(names) => Some(str_views(names@)),
                None => None,
            },
            guard_boundary: self.guard_boundary,
            need_root: self.need_root,
            reject_boundary: self.reject_boundary,
        }
    }
}

/// Whether the predicate `p`, rewritten to `p2`, may move into the input
/// that the rule describes.
pub open spec fn spec_keeps(es: Seq<AExprView>, p: Node, p2: Node, rule: RewriteRuleView) -> bool {
    let names = spec_leaf_names(es, p2.0 as int);
    &&& all_in(names, rule.schema)
    &&& !any_in(names, rule.forbidden)
    &&& (rule.produced matches Some(out) ==> all_in(spec_leaf_names(es, p.0 as int), out))
    &&& (rule.guard_boundary ==> p2 == p || !spec_has_aexpr(
        es,
        p2.0 as int,
        ExprTest::PushdownBoundary,
    ))
    &&& (rule.need_root ==> names.len() > 0)
    &&& (rule.reject_boundary ==> !spec_has_aexpr(es, p.0 as int, ExprTest::PushdownBoundary))
}

/// Rewrites the predicates of `acc`, in order, by substituting columns
/// as `map` says. A rewritten predicate that the rule lets pass goes
/// into the new accumulator; of the others, the predicate as it came in
/// goes into the list of local predicates.
pub open spec fn spec_rewrite_predicates(
    acc: Seq<(Seq<char>, Node)>,
    es: Seq<AExprView>,
    map: Seq<(Seq<char>, Node)>,
    rule: RewriteRuleView,
) -> (Seq<(Seq<char>, Node)>, Seq<Node>, Seq<AExprView>)
    decreases acc.len(),
{
    if acc.len() == 0 {
        (seq![], seq![], es)
    } else {
        let (out, local, es1) = spec_rewrite_predicates(acc.drop_last(), es, map, rule);
        let p = acc.last().1;
        let (p2, es2) = spec_substitute(es1, p.0 as int, map);
        if spec_keeps(es2, p, p2, rule) {
            let (out2, es3) = spec_insert_and_combine(out, p2, es2);
            (out2, local, es3)
        } else {
            (out, local.push(p), es2)
        }
    }
}

/// Whether the predicate `p`, rewritten to `p2`, may move into the input
/// that the rule describes.
pub fn keeps(p: Node, p2: Node, rule: &RewriteRule, arena: &Arena<AExpr>) -> (res: bool)
    requires
        arena.wf(),
        p.0 < arena@.len(),
        p2.0 < arena@.len(),
    ensures
        res == spec_keeps(arena.exprs(), p, p2, rule@),
{
    let names = aexpr_to_leaf_names(p2, arena);
    if !names_all_in(&names, rule.schema) {
        return false;
    }
    if names_any_in(&names, rule.forbidden) {
        return false;
    }
    match rule.produced {
        Some(out) => {
            let before = aexpr_to_leaf_names(p, arena);
            if !names_all_in(&before, out) {
                return false;
            }
        },
        None => {},
    }
    if rule.guard_boundary && p2 != p && has_aexpr(p2, arena, ExprTest::PushdownBoundary) {
        return false;
    }
    if rule.need_root && names.len() == 0 {
        return false;
    }
    if rule.reject_boundary && has_aexpr(p, arena, ExprTest::PushdownBoundary) {
        return false;
    }
    true
}

/// Rewrites the predicates of `acc` for the input of a node; see
/// [`spec_rewrite_predicates`]. Returns the accumulator for the input
/// and the predicates that stay at the node.
pub fn rewrite_predicates(
    acc: &AccPredicates,
    arena: &mut Arena<AExpr>,
    map: &Vec<NamedNode>,
    rule: &RewriteRule,
) -> (res: (AccPredicates, Vec<Node>))
    requires
        old(arena).wf(),
        acc.valid(old(arena)@.len() as int),
        targets_below(named_views(map@), old(arena)@.len() as int),
    ensures
        final(arena).wf(),
        extends(old(arena).exprs(), final(arena).exprs()),
        res.0.valid(final(arena)@.len() as int),
        forall|i: int| 0 <= i < res.1@.len() ==> (#[trigger] res.1@[i]).0 < final(arena)@.len(),
        (res.0@, res.1@, final(arena).exprs()) == spec_rewrite_predicates(
            acc@,
            old(arena).exprs(),
            named_views(map@),
            rule@,
        ),
{
    let ghost es0 = arena.exprs();
    let ghost m = named_views(map@);
    let mut out = AccPredicates::new();
    let mut local: Vec<Node> = Vec::new();
    let mut i: usize = 0;
    assert(acc@.take(0) =~= Seq::<(Seq<char>, Node)>::empty());
    while i < acc.len()
        invariant
            i <= acc@.len(),
            arena.wf(),
            extends(es0, arena.exprs()),
            m == named_views(map@),
            targets_below(m, arena@.len() as int),
            targets_below(acc@, arena@.len() as int),
            out.valid(arena@.len() as int),
            forall|j: int| 0 <= j < local@.len() ==> (#[trigger] local@[j]).0 < arena@.len(),
            (out@, local@, arena.exprs()) == spec_rewrite_predicates(
                acc@.take(i as int),
                es0,
                m,
                rule@,
            ),
        decreases acc@.len() - i,
    {
        let p = acc.node_at(i);
        proof {
            let next = acc@.take(i as int + 1);
            assert(next.drop_last() =~= acc@.take(i as int));
            assert(next.last() == acc@[i as int]);
        }
        let p2 = substitute_columns(p, map, arena);
        if keeps(p, p2, rule, arena) {
            out.insert_and_combine_predicate(p2, arena);
        } else {
            local.push(p);
        }
        i += 1;
    }
    assert(acc@.take(acc@.len() as int) =~= acc@);
    (out, local)
}

/// The name of the column that an expression produces: the alias if it
/// has one, the column's name for a column, and else the name that its
/// first input produces.
pub open spec fn spec_output_name(es: Seq<AExprView>, h: int) -> Seq<char>
    decreases h,
{
    if !(0 <= h < es.len()) {
        Seq::empty()
    } else {
        match es[h] {
            AExprView::Column(name) => name,
            AExprView::Alias(_, name) => name,
            AExprView::Literal(_) => "literal"@,
            AExprView::Count => "count"@,
            e => if e.nodes().len() > 0 && e.nodes()[0].0 < h {
                spec_output_name(es, e.nodes()[0].0 as int)
            } else {
                Seq::empty()
            },
        }
    }
}

/// The name of the column that the expression at `node` produces.
pub fn aexpr_output_name(node: Node, arena: &Arena<AExpr>) -> (res: String)
    requires
        arena.wf(),
        node.0 < arena@.len(),
    ensures
        res@ == spec_output_name(arena.exprs(), node.0 as int),
    decreases node.0,
{
    let e = arena.expr(node);
    match e {
        AExpr::Column(name) => name.clone(),
        AExpr::Alias(_, name) => name.clone(),
        AExpr::Literal(_) => String::from_str("literal"),
        AExpr::Count => String::from_str("count"),
        _ => {
            let kids = e.nodes();
            assert(arena.exprs()[node.0 as int].inputs_below(node.0 as int));
            if kids.len() > 0 {
                aexpr_output_name(kids[0], arena)
            } else {
                String::new()
            }
        },
    }
}

/// The names of the columns that the expressions produce, in order.
pub open spec fn spec_output_names(es: Seq<AExprView>, exprs: Seq<Node>) -> Seq<Seq<char>> {
    Seq::new(exprs.len(), |i: int| spec_output_name(es, exprs[i].0 as int))
}

/// The names of the columns that the expressions produce, in order.
pub fn aexprs_to_schema(exprs: &Vec<Node>, arena: &Arena<AExpr>) -> (res: Vec<String>)
    requires
        arena.wf(),
        forall|i: int| 0 <= i < exprs@.len() ==> (#[trigger] exprs@[i]).0 < arena@.len(),
    ensures
        str_views(res@) == spec_output_names(arena.exprs(), exprs@),
{
    let mut out: Vec<String> = Vec::new();
    let mut i: usize = 0;
    while i < exprs.len()
        invariant
            i <= exprs@.len(),
            arena.wf(),
            forall|j: int| 0 <= j < exprs@.len() ==> (#[trigger] exprs@[j]).0 < arena@.len(),
            out@.len() == i,
            forall|j: int|
                0 <= j < i ==> (#[trigger] out@[j])@ == spec_output_name(
                    arena.exprs(),
                    exprs@[j].0 as int,
                ),
        decreases exprs@.len() - i,
    {
        out.push(aexpr_output_name(exprs[i], arena));
        i += 1;
    }
    assert(str_views(out@) =~= spec_output_names(arena.exprs(), exprs@));
    out
}

/// What a projection defines: for each expression that is not a plain
/// column, the name it produces bound to the expression that defines
/// the column, which for an alias is the aliased expression.
pub open spec fn spec_projection_map(es: Seq<AExprView>, exprs: Seq<Node>) -> Seq<(Seq<char>, Node)>
    decreases exprs.len(),
{
    if exprs.len() == 0 {
        seq![]
    } else {
        let rest = spec_projection_map(es, exprs.drop_last());
        let h = exprs.last();
        if h.0 >= es.len() {
            rest
        } else {
            match es[h.0 as int] {
                AExprView::Column(_) => rest,
                AExprView::Alias(inner, name) => rest.push((name, inner)),
                _ => rest.push((spec_output_name(es, h.0 as int), h)),
            }
        }
    }
}

/// What a projection defines; see [`spec_projection_map`].
pub fn projection_map(exprs: &Vec<Node>, arena: &Arena<AExpr>) -> (res: Vec<NamedNode>)
    requires
        arena.wf(),
        forall|i: int| 0 <= i < exprs@.len() ==> (#[trigger] exprs@[i]).0 < arena@.len(),
    ensures
        named_views(res@) == spec_projection_map(arena.exprs(), exprs@),
        targets_below(named_views(res@), arena@.len() as int),
{
    let ghost es = arena.exprs();
    let mut out: Vec<NamedNode> = Vec::new();
    let mut i: usize = 0;
    assert(exprs@.take(0) =~= Seq::<Node>::empty());
    assert(named_views(out@) =~= spec_projection_map(es, exprs@.take(0)));
    while i < exprs.len()
        invariant
            i <= exprs@.len(),
            arena.wf(),
            es == arena.exprs(),
            forall|j: int| 0 <= j < exprs@.len() ==> (#[trigger] exprs@[j]).0 < arena@.len(),
            named_views(out@) == spec_projection_map(es, exprs@.take(i as int)),
            targets_below(named_views(out@), arena@.len() as int),
        decreases exprs@.len() - i,
    {
        let h = exprs[i];
        proof {
            let next = exprs@.take(i as int + 1);
            assert(next.drop_last() =~= exprs@.take(i as int));
            assert(next.last() == exprs@[i as int]);
            assert(es[h.0 as int].inputs_below(h.0 as int));
        }
        let ghost before = named_views(out@);
        match arena.expr(h) {
            AExpr::Column(_) => {},
            AExpr::Alias(inner, name) => {
                assert(es[h.0 as int].nodes()[0] == *inner);
                out.push(NamedNode { name: name.clone(), node: *inner });
                assert(named_views(out@) =~= before.push((name@, *inner)));
            },
            _ => {
                let name = aexpr_output_name(h, arena);
                out.push(NamedNode { name, node: h });
                assert(named_views(out@) =~= before.push((name@, h)));
            },
        }
        i += 1;
    }
    assert(exprs@.take(exprs@.len() as int) =~= exprs@);
    out
}

/// The rule for the input of a projection: the predicate, with the
/// columns that the projection defines replaced by their definitions,
/// may read only what the input has; the replacement may not bring in
/// an expression that depends on other rows; and below a selecting
/// projection, the predicate as it came in may read only columns that
/// the projection produces.
pub open spec fn spec_projection_rule(
    es: Seq<AExprView>,
    exprs: Seq<Node>,
    input_schema: Seq<Seq<char>>,
    selecting: bool,
) -> RewriteRuleView {
    RewriteRuleView {
        schema: input_schema,
        forbidden: seq![],
        produced: if selecting {
            Some(spec_output_names(es, exprs))
        } else {
            None
        },
        guard_boundary: true,
        need_root: false,
        reject_boundary: false,
    }
}

/// Rewrites the accumulator for the input of a node with the
/// projections `projections`: a predicate that reads a column which a
/// projection defines reads the definition instead. Returns the
/// accumulator for the input and the predicates that stay above the
/// node.
pub fn rewrite_projection_node(
    expr_arena: &mut Arena<AExpr>,
    acc_predicates: &AccPredicates,
    projections: &Vec<Node>,
    input_schema: &Vec<String>,
    selecting: bool,
) -> (res: (AccPredicates, Vec<Node>))
    requires
        old(expr_arena).wf(),
        acc_predicates.valid(old(expr_arena)@.len() as int),
        forall|i: int|
            0 <= i < projections@.len() ==> (#[trigger] projections@[i]).0 < old(expr_arena)@.len(),
    ensures
        final(expr_arena).wf(),
        extends(old(expr_arena).exprs(), final(expr_arena).exprs()),
        res.0.valid(final(expr_arena)@.len() as int),
        forall|i: int| 0 <= i < res.1@.len() ==> (#[trigger] res.1@[i]).0 < final(expr_arena)@.len(),
        (res.0@, res.1@, final(expr_arena).exprs()) == spec_rewrite_predicates(
            acc_predicates@,
            old(expr_arena).exprs(),
            spec_projection_map(old(expr_arena).exprs(), projections@),
            spec_projection_rule(
                old(expr_arena).exprs(),
                projections@,
                str_views(input_schema@),
                selecting,
            ),
        ),
{
    let map = projection_map(projections, expr_arena);
    let produced = aexprs_to_schema(projections, expr_arena);
    let nothing: Vec<String> = Vec::new();
    let rule = RewriteRule {
        schema: input_schema,
        forbidden: &nothing,
        produced: if selecting {
            Some(&produced)
        } else {
            None
        },
        guard_boundary: true,
        need_root: false,
        reject_boundary: false,
    };
    assert(rule@.forbidden =~= Seq::<Seq<char>>::empty());
    rewrite_predicates(acc_predicates, expr_arena, &map, &rule)
}

/// Whether one of the expressions has the property `t`.
pub open spec fn spec_any_has(es: Seq<AExprView>, exprs: Seq<Node>, t: ExprTest) -> bool {
    exists|i: int| 0 <= i < exprs.len() && spec_has_aexpr(es, (#[trigger] exprs[i]).0 as int, t)
}

/// Whether one of the expressions has the property `t`.
pub fn any_has_aexpr(exprs: &Vec<Node>, arena: &Arena<AExpr>, t: ExprTest) -> (res: bool)
    requires
        arena.wf(),
        forall|i: int| 0 <= i < exprs@.len() ==> (#[trigger] exprs@[i]).0 < arena@.len(),
    ensures
        res == spec_any_has(arena.exprs(), exprs@, t),
{
    let mut i: usize = 0;
    while i < exprs.len()
        invariant
            i <= exprs@.len(),
            arena.wf(),
            forall|j: int| 0 <= j < exprs@.len() ==> (#[trigger] exprs@[j]).0 < arena@.len(),
            forall|j: int|
                0 <= j < i ==> !spec_has_aexpr(arena.exprs(), (#[trigger] exprs@[j]).0 as int, t),
        decreases exprs@.len() - i,
    {
        if has_aexpr(exprs[i], arena, t) {
            return true;
        }
        i += 1;
    }
    false
}

/// Whether a predicate depends on more than the values of the row it is
/// evaluated for.
pub fn predicate_is_pushdown_boundary(node: Node, arena: &Arena<AExpr>) -> (res: bool)
    requires
        arena.wf(),
        node.0 < arena@.len(),
    ensures
        res == spec_has_aexpr(arena.exprs(), node.0 as int, ExprTest::PushdownBoundary),
{
    has_aexpr(node, arena, ExprTest::PushdownBoundary)
}

/// Whether an expression, used as a projection, computes across rows or
/// changes their number, so that no filter may move below it.
pub fn projection_is_definite_pushdown_boundary(node: Node, arena: &Arena<AExpr>) -> (res: bool)
    requires
        arena.wf(),
        node.0 < arena@.len(),
    ensures
        res == spec_has_aexpr(arena.exprs(), node.0 as int, ExprTest::ProjectionBoundary),
{
    has_aexpr(node, arena, ExprTest::ProjectionBoundary)
}

/// Whether a predicate depends on the order of the rows.
pub fn predicate_is_sort_boundary(node: Node, arena: &Arena<AExpr>) -> (res: bool)
    requires
        arena.wf(),
        node.0 < arena@.len(),
    ensures
        res == spec_has_aexpr(arena.exprs(), node.0 as int, ExprTest::SortBoundary),
{
    has_aexpr(node, arena, ExprTest::SortBoundary)
}

} // verus!
