//! Walks over expression trees: node properties, the columns an
//! expression reads, and the replacement of columns by expressions.

use vstd::prelude::*;

use crate::aexpr::{eq_nodes, extends, wf_exprs, AExpr, AExprView, ExprTest};
use crate::arena::{Arena, Node};
use crate::names::{all_in, names_all_in, str_views};

verus! {

/// Whether the expression at handle `h`, or one of the expressions it is
/// built from, has the property `t`.
pub open spec fn spec_has_aexpr(es: Seq<AExprView>, h: int, t: ExprTest) -> bool
    decreases h,
{
    &&& 0 <= h < es.len()
    &&& (es[h].satisfies(t) || exists|k: int|
        0 <= k < es[h].nodes().len() && (#[trigger] es[h].nodes()[k]).0 < h && spec_has_aexpr(
            es,
            es[h].nodes()[k].0 as int,
            t,
        ))
}

/// Whether the expression at `root`, or one of the expressions it is
/// built from, has the property `t`.
pub fn has_aexpr(root: Node, arena: &Arena<AExpr>, t: ExprTest) -> (res: bool)
    requires
        arena.wf(),
        root.0 < arena@.len(),
    ensures
        res == spec_has_aexpr(arena.exprs(), root.0 as int, t),
    decreases root.0,
{
    let e = arena.expr(root);
    if e.satisfies(t) {
        return true;
    }
    let kids = e.nodes();
    let ghost es = arena.exprs();
    let mut i: usize = 0;
    while i < kids.len()
        invariant
            i <= kids@.len(),
            arena.wf(),
            es == arena.exprs(),
            root.0 < es.len(),
            kids@ == es[root.0 as int].nodes(),
            forall|j: int| 0 <= j < i ==> !spec_has_aexpr(es, (#[trigger] kids@[j]).0 as int, t),
        decreases kids@.len() - i,
    {
        assert(es[root.0 as int].inputs_below(root.0 as int));
        if has_aexpr(kids[i], arena, t) {
            return true;
        }
        i += 1;
    }
    false
}

/// The names of the columns that the expression at `h` reads, in the
/// order in which they occur from left to right, with repetitions.
pub open spec fn spec_leaf_names(es: Seq<AExprView>, h: int) -> Seq<Seq<char>>
    decreases h, 1int, 0int,
{
    if !(0 <= h < es.len()) {
        seq![]
    } else {
        match es[h] {
            AExprView::Column(name) => seq![name],
            e => spec_leaf_names_of(es, e.nodes(), h),
        }
    }
}

/// The column names read by the expressions `kids`, which are inputs of
/// the node at `parent`, one after the other.
pub open spec fn spec_leaf_names_of(es: Seq<AExprView>, kids: Seq<Node>, parent: int) -> Seq<
    Seq<char>,
>
    decreases parent, 0int, kids.len(),
{
    if kids.len() == 0 {
        seq![]
    } else {
        spec_leaf_names_of(es, kids.drop_last(), parent) + (if kids.last().0 < parent {
            spec_leaf_names(es, kids.last().0 as int)
        } else {
            seq![]
        })
    }
}

fn collect_leaf_names(node: Node, arena: &Arena<AExpr>, out: &mut Vec<String>)
    requires
        arena.wf(),
        node.0 < arena@.len(),
    ensures
        str_views(final(out)@) == str_views(old(out)@) + spec_leaf_names(
            arena.exprs(),
            node.0 as int,
        ),
    decreases node.0,
{
    let e = arena.expr(node);
    let ghost es = arena.exprs();
    match e {
        AExpr::Column(name) => {
            out.push(name.clone());
            assert(str_views(out@) =~= str_views(old(out)@) + seq![name@]);
        },
        _ => {
            let kids = e.nodes();
            let mut i: usize = 0;
            assert(kids@.take(0) =~= Seq::<Node>::empty());
            assert(str_views(out@) =~= str_views(old(out)@) + Seq::<Seq<char>>::empty());
            while i < kids.len()
                invariant
                    i <= kids@.len(),
                    arena.wf(),
                    es == arena.exprs(),
                    node.0 < es.len(),
                    kids@ == es[node.0 as int].nodes(),
                    str_views(out@) == str_views(old(out)@) + spec_leaf_names_of(
                        es,
                        kids@.take(i as int),
                        node.0 as int,
                    ),
                decreases kids@.len() - i,
            {
                assert(es[node.0 as int].inputs_below(node.0 as int));
                let ghost before = str_views(out@);
                collect_leaf_names(kids[i], arena, out);
                proof {
                    let next = kids@.take(i as int + 1);
                    assert(next.drop_last() =~= kids@.take(i as int));
                    assert(next.last() == kids@[i as int]);
                    assert(str_views(out@) =~= str_views(old(out)@) + spec_leaf_names_of(
                        es,
                        next,
                        node.0 as int,
                    ));
                }
                i += 1;
            }
            assert(kids@.take(kids@.len() as int) =~= kids@);
        },
    }
}

/// The names of the columns that the expression at `node` reads, from
/// left to right.
pub fn aexpr_to_leaf_names(node: Node, arena: &Arena<AExpr>) -> (res: Vec<String>)
    requires
        arena.wf(),
        node.0 < arena@.len(),
    ensures
        str_views(res@) == spec_leaf_names(arena.exprs(), node.0 as int),
{
    let mut out: Vec<String> = Vec::new();
    collect_leaf_names(node, arena, &mut out);
    assert(str_views(out@) =~= spec_leaf_names(arena.exprs(), node.0 as int));
    out
}

/// The names of the columns that the expressions `nodes` read, one
/// expression after the other.
pub open spec fn spec_leaf_names_all(es: Seq<AExprView>, nodes: Seq<Node>) -> Seq<Seq<char>> {
    spec_leaf_names_of(es, nodes, es.len() as int)
}

/// The names of the columns that the expressions `nodes` read, one
/// expression after the other.
pub fn aexprs_to_leaf_names(nodes: &Vec<Node>, arena: &Arena<AExpr>) -> (res: Vec<String>)
    requires
        arena.wf(),
        forall|i: int| 0 <= i < nodes@.len() ==> (#[trigger] nodes@[i]).0 < arena@.len(),
    ensures
        str_views(res@) == spec_leaf_names_all(arena.exprs(), nodes@),
{
    let ghost es = arena.exprs();
    let mut out: Vec<String> = Vec::new();
    let mut i: usize = 0;
    assert(nodes@.take(0) =~= Seq::<Node>::empty());
    assert(str_views(out@) =~= spec_leaf_names_all(es, nodes@.take(0)));
    while i < nodes.len()
        invariant
            i <= nodes@.len(),
            arena.wf(),
            es == arena.exprs(),
            forall|j: int| 0 <= j < nodes@.len() ==> (#[trigger] nodes@[j]).0 < arena@.len(),
            str_views(out@) == spec_leaf_names_all(es, nodes@.take(i as int)),
        decreases nodes@.len() - i,
    {
        collect_leaf_names(nodes[i], arena, &mut out);
        proof {
            let next = nodes@.take(i as int + 1);
            assert(next.drop_last() =~= nodes@.take(i as int));
            assert(next.last() == nodes@[i as int]);
        }
        i += 1;
    }
    assert(nodes@.take(nodes@.len() as int) =~= nodes@);
    out
}

/// Whether every column that the expression at `h` reads is in `schema`.
pub open spec fn spec_check_input_node(es: Seq<AExprView>, h: int, schema: Seq<Seq<char>>) -> bool {
    all_in(spec_leaf_names(es, h), schema)
}

/// Whether every column that the expression at `node` reads is in
/// `schema`.
pub fn check_input_node(node: Node, schema: &Vec<String>, arena: &Arena<AExpr>) -> (res: bool)
    requires
        arena.wf(),
        node.0 < arena@.len(),
    ensures
        res == spec_check_input_node(arena.exprs(), node.0 as int, str_views(schema@)),
{
    let names = aexpr_to_leaf_names(node, arena);
    names_all_in(&names, schema)
}

/// A name bound to an expression.
#[derive(Debug)]
pub struct NamedNode {
    pub name: String,
    pub node: Node,
}

/// The model of a list of named expressions.
pub open spec fn named_views(items: Seq<NamedNode>) -> Seq<(Seq<char>, Node)> {
    Seq::new(items.len(), |i: int| (items[i].name@, items[i].node))
}

/// The index of the first pair of `items` whose name is `name`.
pub open spec fn spec_find_name(items: Seq<(Seq<char>, Node)>, name: Seq<char>) -> Option<int>
    decreases items.len(),
{
    if items.len() == 0 {
        None
    } else {
        match spec_find_name(items.drop_last(), name) {
            Some(i) => Some(i),
            None => if items.last().0 == name {
                Some(items.len() - 1)
            } else {
                None
            },
        }
    }
}

/// What [`spec_find_name`] finds: the first position of the name, and
/// `None` exactly if the name does not occur.
pub proof fn lemma_find_name(items: Seq<(Seq<char>, Node)>, name: Seq<char>)
    ensures
        match spec_find_name(items, name) {
            Some(i) => 0 <= i < items.len() && items[i].0 == name && forall|j: int|
                0 <= j < i ==> (#[trigger] items[j]).0 != name,
            None => forall|j: int| 0 <= j < items.len() ==> (#[trigger] items[j]).0 != name,
        },
    decreases items.len(),
{
    if items.len() > 0 {
        lemma_find_name(items.drop_last(), name);
        assert(forall|j: int|
            0 <= j < items.len() - 1 ==> items.drop_last()[j] == #[trigger] items[j]);
    }
}

/// The index of the first element of `items` whose name is `name`.
pub fn find_name(items: &Vec<NamedNode>, name: &String) -> (res: Option<usize>)
    ensures
        match spec_find_name(named_views(items@), name@) {
            Some(i) => res matches Some(r) && r as int == i,
            None => res is None,
        },
{
    let mut i: usize = 0;
    while i < items.len()
        invariant
            i <= items@.len(),
            forall|j: int| 0 <= j < i ==> (#[trigger] named_views(items@)[j]).0 != name@,
        decreases items@.len() - i,
    {
        if items[i].name == *name {
            proof {
                assert(named_views(items@)[i as int].0 == name@);
                lemma_find_name(named_views(items@), name@);
            }
            return Some(i);
        }
        i += 1;
    }
    proof {
        lemma_find_name(named_views(items@), name@);
    }
    None
}

/// Whether every expression bound in `map` has a handle below `bound`.
pub open spec fn targets_below(map: Seq<(Seq<char>, Node)>, bound: int) -> bool {
    forall|i: int| 0 <= i < map.len() ==> (#[trigger] map[i]).1.0 < bound
}

/// The expression at `h` with every column that `map` names replaced by
/// the expression that `map` binds to the name, all at once: the handle
/// of the result, and the arena with the nodes that had to be built.
/// A subtree without such a column is shared, not copied.
pub open spec fn spec_substitute(es: Seq<AExprView>, h: int, map: Seq<(Seq<char>, Node)>) -> (
    Node,
    Seq<AExprView>,
)
    decreases h, 1int, 0int,
{
    if !(0 <= h < es.len()) {
        (Node(h as usize), es)
    } else {
        match es[h] {
            AExprView::Column(name) => match spec_find_name(map, name) {
                Some(i) => (map[i].1, es),
                None => (Node(h as usize), es),
            },
            e => {
                let (kids, es1) = spec_substitute_all(es, e.nodes(), h, map);
                if kids == e.nodes() {
                    (Node(h as usize), es1)
                } else {
                    (Node(es1.len() as usize), es1.push(e.with_nodes(kids)))
                }
            },
        }
    }
}

/// [`spec_substitute`] on the inputs `kids` of the node at `parent`, one
/// after the other.
pub open spec fn spec_substitute_all(
    es: Seq<AExprView>,
    kids: Seq<Node>,
    parent: int,
    map: Seq<(Seq<char>, Node)>,
) -> (Seq<Node>, Seq<AExprView>)
    decreases parent, 0int, kids.len(),
{
    if kids.len() == 0 {
        (seq![], es)
    } else {
        let (done, es1) = spec_substitute_all(es, kids.drop_last(), parent, map);
        if kids.last().0 < parent {
            let (k, es2) = spec_substitute(es1, kids.last().0 as int, map);
            (done.push(k), es2)
        } else {
            (done.push(kids.last()), es1)
        }
    }
}

/// Replaces, in the expression at `node`, every column that `map` names
/// by the expression bound to the name.
pub fn substitute_columns(node: Node, map: &Vec<NamedNode>, arena: &mut Arena<AExpr>) -> (res:
    Node)
    requires
        old(arena).wf(),
        node.0 < old(arena)@.len(),
        targets_below(named_views(map@), old(arena)@.len() as int),
    ensures
        final(arena).wf(),
        extends(old(arena).exprs(), final(arena).exprs()),
        res.0 < final(arena)@.len(),
        (res, final(arena).exprs()) == spec_substitute(
            old(arena).exprs(),
            node.0 as int,
            named_views(map@),
        ),
    decreases node.0,
{
    let ghost es0 = arena.exprs();
    let ghost m = named_views(map@);
    let e = arena.expr(node);
    match e {
        AExpr::Column(name) => {
            let found = find_name(map, name);
            proof {
                lemma_find_name(m, name@);
            }
            match found {
                Some(i) => {
                    assert(m[i as int].1 == map@[i as int].node);
                    map[i].node
                },
                None => node,
            }
        },
        _ => {
            let kids = e.nodes();
            let mut new_kids: Vec<Node> = Vec::new();
            let mut i: usize = 0;
            assert(kids@.take(0) =~= Seq::<Node>::empty());
            while i < kids.len()
                invariant
                    i <= kids@.len(),
                    arena.wf(),
                    extends(es0, arena.exprs()),
                    node.0 < es0.len(),
                    wf_exprs(es0),
                    kids@ == es0[node.0 as int].nodes(),
                    m == named_views(map@),
                    targets_below(m, arena@.len() as int),
                    new_kids@.len() == i,
                    forall|j: int| 0 <= j < i ==> (#[trigger] new_kids@[j]).0 < arena@.len(),
                    (new_kids@, arena.exprs()) == spec_substitute_all(
                        es0,
                        kids@.take(i as int),
                        node.0 as int,
                        m,
                    ),
                decreases kids@.len() - i,
            {
                assert(es0[node.0 as int].inputs_below(node.0 as int));
                let ghost es1 = arena.exprs();
                let k = substitute_columns(kids[i], map, arena);
                new_kids.push(k);
                proof {
                    let next = kids@.take(i as int + 1);
                    assert(next.drop_last() =~= kids@.take(i as int));
                    assert(next.last() == kids@[i as int]);
                }
                i += 1;
            }
            assert(kids@.take(kids@.len() as int) =~= kids@);
            if eq_nodes(&new_kids, &kids) {
                node
            } else {
                let rebuilt = arena.expr(node).with_nodes(&new_kids);
                proof {
                    assert(rebuilt@.nodes() =~= new_kids@) by {
                        lemma_with_nodes(es0[node.0 as int], new_kids@);
                    }
                    assert(rebuilt@.inputs_below(arena@.len() as int));
                }
                arena.add_expr(rebuilt)
            }
        },
    }
}

/// Replacing the inputs of a node gives a node with those inputs.
pub proof fn lemma_with_nodes(e: AExprView, kids: Seq<Node>)
    requires
        kids.len() == e.nodes().len(),
    ensures
        e.with_nodes(kids).nodes() =~= kids,
{
    match e {
        AExprView::Window { function, partition_by } => {
            assert(seq![kids[0]] + kids.subrange(1, kids.len() as int) =~= kids);
        },
        _ => {},
    }
}

} // verus!
