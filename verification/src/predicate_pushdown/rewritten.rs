//! Predicates in another form: what substitution makes of an expression.

use vstd::prelude::*;

use crate::aexpr::{extends, wf_exprs, AExprView};
use crate::arena::Node;
use crate::expr_walk::{lemma_find_name, lemma_with_nodes, spec_substitute, spec_substitute_all};
use crate::expr_walk::targets_below;
use crate::predicate_pushdown::boundaries::{lemma_substitute_all_free, lemma_substitute_free};
use crate::predicate_pushdown::laws::{lemma_substitute_all_extends, lemma_substitute_extends};

verus! {

/// Whether the expression at `b` is the expression at `a` with columns
/// replaced by expressions: the two are the same expression, or `a` is
/// a column, or they are nodes of one kind whose inputs are related so,
/// one by one.
pub open spec fn variant_of(es: Seq<AExprView>, a: int, b: int) -> bool
    decreases a,
{
    if a == b {
        true
    } else if !(0 <= a < es.len() && 0 <= b < es.len()) {
        false
    } else {
        match es[a] {
            AExprView::Column(_) => true,
            ea => {
                &&& es[b] == ea.with_nodes(es[b].nodes())
                &&& es[b].nodes().len() == ea.nodes().len()
                &&& forall|k: int|
                    0 <= k < ea.nodes().len() ==> (#[trigger] ea.nodes()[k]).0 < a && variant_of(
                        es,
                        ea.nodes()[k].0 as int,
                        es[b].nodes()[k].0 as int,
                    )
            },
        }
    }
}

/// Replacing the inputs of a node twice is replacing them once.
pub proof fn lemma_with_nodes_twice(e: AExprView, x: Seq<Node>, y: Seq<Node>)
    ensures
        e.with_nodes(x).with_nodes(y) == e.with_nodes(y),
{
}

/// Whether an expression is another with columns replaced does not
/// change when expressions are added to the arena.
pub proof fn lemma_variant_stable(es: Seq<AExprView>, es2: Seq<AExprView>, a: int, b: int)
    requires
        wf_exprs(es),
        extends(es, es2),
        0 <= a < es.len(),
        0 <= b < es.len(),
    ensures
        variant_of(es2, a, b) == variant_of(es, a, b),
    decreases a,
{
    if a != b {
        assert(es2[a] == es[a]);
        assert(es2[b] == es[b]);
        match es[a] {
            AExprView::Column(_) => {},
            ea => {
                assert(es[b].inputs_below(b));
                if es[b].nodes().len() == ea.nodes().len() {
                    assert forall|k: int| 0 <= k < ea.nodes().len() && (#[trigger] ea.nodes()[k]).0
                        < a implies variant_of(
                        es2,
                        ea.nodes()[k].0 as int,
                        es[b].nodes()[k].0 as int,
                    ) == variant_of(es, ea.nodes()[k].0 as int, es[b].nodes()[k].0 as int) by {
                        assert(es[b].nodes()[k].0 < b);
                        lemma_variant_stable(
                            es,
                            es2,
                            ea.nodes()[k].0 as int,
                            es[b].nodes()[k].0 as int,
                        );
                    }
                }
            },
        }
    }
}

/// An expression with columns replaced, with columns replaced again,
/// is the expression with columns replaced.
pub proof fn lemma_variant_trans(es: Seq<AExprView>, a: int, b: int, c: int)
    requires
        wf_exprs(es),
        variant_of(es, a, b),
        variant_of(es, b, c),
        0 <= a < es.len(),
    ensures
        variant_of(es, a, c),
    decreases a,
{
    if a != b && b != c && a != c {
        match es[a] {
            AExprView::Column(_) => {},
            ea => {
                let eb = es[b];
                let ec = es[c];
                lemma_with_nodes(ea, eb.nodes());
                assert(!(eb is Column));
                lemma_with_nodes_twice(ea, eb.nodes(), ec.nodes());
                assert(eb.inputs_below(b));
                assert forall|k: int| 0 <= k < ea.nodes().len() implies (#[trigger] ea.nodes()[k]).0
                    < a && variant_of(es, ea.nodes()[k].0 as int, ec.nodes()[k].0 as int) by {
                    assert(eb.nodes()[k].0 < b);
                    assert(variant_of(es, ea.nodes()[k].0 as int, eb.nodes()[k].0 as int));
                    assert(variant_of(es, eb.nodes()[k].0 as int, ec.nodes()[k].0 as int));
                    lemma_variant_trans(
                        es,
                        ea.nodes()[k].0 as int,
                        eb.nodes()[k].0 as int,
                        ec.nodes()[k].0 as int,
                    );
                }
            },
        }
    }
}

/// What substitution makes of an expression is the expression with
/// columns replaced.
pub proof fn lemma_substitute_variant(es: Seq<AExprView>, h: int, map: Seq<(Seq<char>, Node)>)
    requires
        wf_exprs(es),
        0 <= h < es.len(),
        targets_below(map, es.len() as int),
        spec_substitute(es, h, map).1.len() <= usize::MAX,
    ensures
        variant_of(spec_substitute(es, h, map).1, h, spec_substitute(es, h, map).0.0 as int),
    decreases h, 1int, 0int,
{
    let x = crate::aexpr::ExprTest::Count;
    let (r, es2) = spec_substitute(es, h, map);
    lemma_substitute_extends(es, h, map);
    lemma_substitute_free(es, h, map, x);
    match es[h] {
        AExprView::Column(name) => {
            lemma_find_name(map, name);
        },
        e => {
            assert(e.inputs_below(h));
            lemma_substitute_all_extends(es, e.nodes(), h, map);
            lemma_substitute_all_free(es, e.nodes(), h, map, x);
            lemma_substitute_all_variant(es, e.nodes(), h, map);
            let (kids, es1) = spec_substitute_all(es, e.nodes(), h, map);
            if kids != e.nodes() {
                lemma_with_nodes(e, kids);
                assert(es2[r.0 as int] == e.with_nodes(kids));
                assert(es2[h] == e);
                assert forall|k: int| 0 <= k < e.nodes().len() implies (#[trigger] e.nodes()[k]).0
                    < h && variant_of(es2, e.nodes()[k].0 as int, kids[k].0 as int) by {
                    assert(variant_of(es1, e.nodes()[k].0 as int, kids[k].0 as int));
                    lemma_variant_stable(es1, es2, e.nodes()[k].0 as int, kids[k].0 as int);
                }
            }
        },
    }
}

/// [`lemma_substitute_variant`] for the inputs of a node.
pub proof fn lemma_substitute_all_variant(
    es: Seq<AExprView>,
    kids: Seq<Node>,
    parent: int,
    map: Seq<(Seq<char>, Node)>,
)
    requires
        wf_exprs(es),
        0 <= parent <= es.len(),
        forall|k: int| 0 <= k < kids.len() ==> (#[trigger] kids[k]).0 < parent,
        targets_below(map, es.len() as int),
        spec_substitute_all(es, kids, parent, map).1.len() <= usize::MAX,
    ensures
        forall|k: int|
            0 <= k < kids.len() ==> variant_of(
                spec_substitute_all(es, kids, parent, map).1,
                (#[trigger] kids[k]).0 as int,
                spec_substitute_all(es, kids, parent, map).0[k].0 as int,
            ),
    decreases parent, 0int, kids.len(),
{
    let x = crate::aexpr::ExprTest::Count;
    if kids.len() > 0 {
        let init = kids.drop_last();
        let (done, es1) = spec_substitute_all(es, init, parent, map);
        let last = kids.last();
        assert(last == kids[kids.len() - 1]);
        lemma_substitute_all_extends(es, init, parent, map);
        lemma_substitute_extends(es1, last.0 as int, map);
        lemma_substitute_all_free(es, init, parent, map, x);
        lemma_substitute_free(es1, last.0 as int, map, x);
        lemma_substitute_all_variant(es, init, parent, map);
        lemma_substitute_variant(es1, last.0 as int, map);
        let (k2, es2) = spec_substitute(es1, last.0 as int, map);
        let out = spec_substitute_all(es, kids, parent, map).0;
        assert(out == done.push(k2));
        assert forall|k: int| 0 <= k < kids.len() implies variant_of(
            es2,
            (#[trigger] kids[k]).0 as int,
            out[k].0 as int,
        ) by {
            if k < init.len() {
                assert(out[k] == done[k]);
                assert(init[k] == kids[k]);
                assert(variant_of(es1, init[k].0 as int, done[k].0 as int));
                lemma_variant_stable(es1, es2, kids[k].0 as int, done[k].0 as int);
            }
        }
    }
}

} // verus!
