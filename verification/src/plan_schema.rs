//! The columns that a plan produces.

use vstd::prelude::*;
use vstd::string::StringExecFns;

use crate::alp::{ALogicalPlan, FunctionNode, FunctionNodeView, PlanView};
use crate::arena::{Arena, Node};
use crate::names::{clone_names, str_views};
use crate::plan_tree::{agree_on_footprint, in_footprint, unfold_at, unfold_inputs, vacates};
use crate::plan_tree::{lemma_unfold_at_vacates, lemma_unfold_inputs_vacates};
use crate::plan_tree::{lemma_unfold_at_fuel, lemma_unfold_inputs_fuel, PlanTree, Slots};

verus! {

/// The position of the first of the first `k` names of `names` that is
/// `name`.
pub open spec fn spec_position(names: Seq<Seq<char>>, name: Seq<char>, k: nat) -> Option<int>
    decreases k,
{
    if k == 0 {
        None
    } else {
        match spec_position(names, name, (k - 1) as nat) {
            Some(i) => Some(i),
            None => if names[k - 1] == name {
                Some(k - 1)
            } else {
                None
            },
        }
    }
}

/// The name of a column after a rename: `new[i]` for the first `i` with
/// `existing[i]` the column's name, and else the name itself.
pub open spec fn renamed(name: Seq<char>, existing: Seq<Seq<char>>, new: Seq<Seq<char>>) -> Seq<
    char,
> {
    let k = if existing.len() <= new.len() {
        existing.len()
    } else {
        new.len()
    };
    match spec_position(existing, name, k) {
        Some(i) => new[i],
        None => name,
    }
}

/// The name of the column of names that a melt makes.
pub open spec fn melt_variable_name(name: Option<Seq<char>>) -> Seq<char> {
    match name {
        Some(n) => n,
        None => "variable"@,
    }
}

/// The name of the column of values that a melt makes.
pub open spec fn melt_value_name(name: Option<Seq<char>>) -> Seq<char> {
    match name {
        Some(n) => n,
        None => "value"@,
    }
}

impl FunctionNodeView {
    /// The columns that the transform produces from an input with the
    /// columns `input`.
    pub open spec fn schema(self, input: Seq<Seq<char>>) -> Seq<Seq<char>> {
        match self {
            FunctionNodeView::Rename { existing, new } => Seq::new(
                input.len(),
                |i: int| renamed(input[i], existing, new),
            ),
            FunctionNodeView::Explode { .. } => input,
            FunctionNodeView::Melt { id_vars, variable_name, value_name, .. } => id_vars.push(
                melt_variable_name(variable_name),
            ).push(melt_value_name(value_name)),
            FunctionNodeView::Opaque { .. } => input,
        }
    }
}

fn position(names: &Vec<String>, name: &String, k: usize) -> (res: Option<usize>)
    requires
        k <= names@.len(),
    ensures
        match spec_position(str_views(names@), name@, k as nat) {
            Some(i) => res matches Some(r) && r as int == i && r < k,
            None => res is None,
        },
{
    let mut i: usize = 0;
    while i < k
        invariant
            i <= k,
            k <= names@.len(),
            spec_position(str_views(names@), name@, i as nat) is None,
        decreases k - i,
    {
        if names[i] == *name {
            proof {
                assert(str_views(names@)[i as int] == name@);
                lemma_position_found(str_views(names@), name@, i as nat, k as nat);
            }
            return Some(i);
        }
        i += 1;
    }
    None
}

proof fn lemma_position_found(names: Seq<Seq<char>>, name: Seq<char>, i: nat, k: nat)
    requires
        i < k,
        spec_position(names, name, i) is None,
        names[i as int] == name,
    ensures
        spec_position(names, name, k) == Some(i as int),
    decreases k,
{
    if k > i + 1 {
        lemma_position_found(names, name, i, (k - 1) as nat);
    }
}

impl FunctionNode {
    /// The columns that the transform produces from an input with the
    /// columns `input`.
    pub fn schema(&self, input: &Vec<String>) -> (res: Vec<String>)
        ensures
            str_views(res@) == self@.schema(str_views(input@)),
    {
        match self {
            FunctionNode::Rename { existing, new } => {
                let k = if existing.len() <= new.len() {
                    existing.len()
                } else {
                    new.len()
                };
                let mut out: Vec<String> = Vec::new();
                let mut i: usize = 0;
                while i < input.len()
                    invariant
                        i <= input@.len(),
                        k <= existing@.len(),
                        k <= new@.len(),
                        k == if existing@.len() <= new@.len() {
                            existing@.len()
                        } else {
                            new@.len()
                        },
                        out@.len() == i,
                        forall|j: int|
                            0 <= j < i ==> (#[trigger] out@[j])@ == renamed(
                                input@[j]@,
                                str_views(existing@),
                                str_views(new@),
                            ),
                    decreases input@.len() - i,
                {
                    match position(existing, &input[i], k) {
                        Some(p) => out.push(new[p].clone()),
                        None => out.push(input[i].clone()),
                    }
                    i += 1;
                }
                assert(str_views(out@) =~= self@.schema(str_views(input@)));
                out
            },
            FunctionNode::Explode { .. } => clone_names(input),
            FunctionNode::Melt { id_vars, variable_name, value_name, .. } => {
                let mut out = clone_names(id_vars);
                let ghost ids = str_views(out@);
                match variable_name {
                    Some(n) => out.push(n.clone()),
                    None => out.push(String::from_str("variable")),
                }
                match value_name {
                    Some(n) => out.push(n.clone()),
                    None => out.push(String::from_str("value")),
                }
                assert(str_views(out@) =~= self@.schema(str_views(input@)));
                out
            },
            FunctionNode::Opaque { .. } => clone_names(input),
        }
    }
}

/// How a node gets its columns.
pub ghost enum SchemaSource {
    /// The node holds them.
    Stored(Seq<Seq<char>>),
    /// They are the columns of the first input, if there is one.
    FirstInput,
    /// They are computed from the columns of the input.
    Mapped(FunctionNodeView),
}

impl PlanView {
    /// How the node gets its columns.
    pub open spec fn schema_source(self) -> SchemaSource {
        match self {
            PlanView::Scan { schema, .. } => SchemaSource::Stored(schema),
            PlanView::DataFrameScan { schema, .. } => SchemaSource::Stored(schema),
            PlanView::AnonymousScan { schema, .. } => SchemaSource::Stored(schema),
            PlanView::PythonScan { schema, .. } => SchemaSource::Stored(schema),
            PlanView::Projection { schema, .. } => SchemaSource::Stored(schema),
            PlanView::LocalProjection { schema, .. } => SchemaSource::Stored(schema),
            PlanView::HStack { schema, .. } => SchemaSource::Stored(schema),
            PlanView::ExtContext { schema, .. } => SchemaSource::Stored(schema),
            PlanView::Join { schema, .. } => SchemaSource::Stored(schema),
            PlanView::Aggregate { schema, .. } => SchemaSource::Stored(schema),
            PlanView::MapFunction { function, .. } => SchemaSource::Mapped(function),
            PlanView::Selection { .. } => SchemaSource::FirstInput,
            PlanView::Distinct { .. } => SchemaSource::FirstInput,
            PlanView::Sort { .. } => SchemaSource::FirstInput,
            PlanView::Slice { .. } => SchemaSource::FirstInput,
            PlanView::Cache { .. } => SchemaSource::FirstInput,
            PlanView::Union { .. } => SchemaSource::FirstInput,
            PlanView::FileSink { .. } => SchemaSource::FirstInput,
            PlanView::CloudSink { .. } => SchemaSource::FirstInput,
        }
    }
}

/// The columns that a plan produces.
pub open spec fn tree_schema(t: PlanTree) -> Seq<Seq<char>>
    decreases t,
{
    match t.node.schema_source() {
        SchemaSource::Stored(schema) => schema,
        SchemaSource::FirstInput => if t.children.len() > 0 {
            tree_schema(t.children[0])
        } else {
            seq![]
        },
        SchemaSource::Mapped(function) => if t.children.len() > 0 {
            function.schema(tree_schema(t.children[0]))
        } else {
            function.schema(seq![])
        },
    }
}

/// The columns that the plan in slot `h` produces; `None` if a slot is
/// missing on the way or the way is longer than `fuel`.
pub open spec fn spec_schema(s: Slots, h: Node, fuel: nat) -> Option<Seq<Seq<char>>>
    decreases fuel,
{
    if fuel == 0 || h.0 >= s.len() || s[h.0 as int] is None {
        None
    } else {
        let lp = s[h.0 as int].unwrap()@;
        match lp.schema_source() {
            SchemaSource::Stored(schema) => Some(schema),
            SchemaSource::FirstInput => if lp.inputs().len() > 0 {
                spec_schema(s, lp.inputs()[0], (fuel - 1) as nat)
            } else {
                Some(seq![])
            },
            SchemaSource::Mapped(function) => if lp.inputs().len() > 0 {
                match spec_schema(s, lp.inputs()[0], (fuel - 1) as nat) {
                    Some(input) => Some(function.schema(input)),
                    None => None,
                }
            } else {
                Some(function.schema(seq![]))
            },
        }
    }
}

/// The columns that the plan in slot `node` produces; `None` if a slot
/// is missing on the way or the way is longer than `fuel`.
pub fn plan_schema(arena: &Arena<ALogicalPlan>, node: Node, fuel: usize) -> (res: Option<
    Vec<String>,
>)
    ensures
        match spec_schema(arena@, node, fuel as nat) {
            Some(schema) => res matches Some(names) && str_views(names@) == schema,
            None => res is None,
        },
    decreases fuel,
{
    if fuel == 0 {
        return None;
    }
    let lp = match arena.try_get(node) {
        Some(lp) => lp,
        None => {
            return None;
        },
    };
    match lp {
        ALogicalPlan::Scan { schema, .. }
        | ALogicalPlan::DataFrameScan { schema, .. }
        | ALogicalPlan::AnonymousScan { schema, .. }
        | ALogicalPlan::PythonScan { schema, .. }
        | ALogicalPlan::Projection { schema, .. }
        | ALogicalPlan::LocalProjection { schema, .. }
        | ALogicalPlan::HStack { schema, .. }
        | ALogicalPlan::ExtContext { schema, .. }
        | ALogicalPlan::Join { schema, .. }
        | ALogicalPlan::Aggregate { schema, .. } => Some(clone_names(schema)),
        ALogicalPlan::MapFunction { input, function } => {
            match plan_schema(arena, *input, fuel - 1) {
                Some(names) => Some(function.schema(&names)),
                None => None,
            }
        },
        ALogicalPlan::Selection { input, .. }
        | ALogicalPlan::Distinct { input, .. }
        | ALogicalPlan::Sort { input, .. }
        | ALogicalPlan::Slice { input, .. }
        | ALogicalPlan::Cache { input, .. }
        | ALogicalPlan::FileSink { input, .. }
        | ALogicalPlan::CloudSink { input, .. } => plan_schema(arena, *input, fuel - 1),
        ALogicalPlan::Union { inputs } => {
            if inputs.len() > 0 {
                plan_schema(arena, inputs[0], fuel - 1)
            } else {
                let out: Vec<String> = Vec::new();
                assert(str_views(out@) =~= Seq::<Seq<char>>::empty());
                Some(out)
            }
        },
    }
}

/// The number of populated slots.
pub open spec fn count_some(s: Slots) -> nat
    decreases s.len(),
{
    if s.len() == 0 {
        0
    } else {
        count_some(s.drop_last()) + if s.last() is Some {
            1nat
        } else {
            0nat
        }
    }
}

/// No more slots are populated than there are.
pub proof fn lemma_count_bound(s: Slots)
    ensures
        count_some(s) <= s.len(),
    decreases s.len(),
{
    if s.len() > 0 {
        lemma_count_bound(s.drop_last());
    }
}

/// Vacating slots does not raise the number of populated slots, and
/// vacating a populated slot lowers it.
pub proof fn lemma_count_vacates(s: Slots, r: Slots)
    requires
        vacates(s, r),
    ensures
        count_some(r) <= count_some(s),
        forall|i: int| in_footprint(s, r, i) ==> count_some(r) < count_some(s),
    decreases s.len(),
{
    if s.len() > 0 {
        assert(vacates(s.drop_last(), r.drop_last())) by {
            assert forall|i: int| 0 <= i < s.len() - 1 implies (#[trigger] r.drop_last()[i]) is None
                || r.drop_last()[i] == s.drop_last()[i] by {
                assert(r[i] is None || r[i] == s[i]);
            }
        }
        lemma_count_vacates(s.drop_last(), r.drop_last());
        assert(r.last() is None || r.last() == s.last());
        assert forall|i: int| in_footprint(s, r, i) implies count_some(r) < count_some(s) by {
            if i < s.len() - 1 {
                assert(in_footprint(s.drop_last(), r.drop_last(), i));
            }
        }
    }
}

/// A plan that unfolds at all unfolds with as much fuel as the arena
/// has populated slots: a tree is no deeper than it has nodes.
pub proof fn lemma_unfold_at_depth(s: Slots, h: Node, fuel: nat)
    requires
        unfold_at(s, h, fuel) is Some,
    ensures
        unfold_at(s, h, count_some(s)) == unfold_at(s, h, fuel),
    decreases fuel, 0nat,
{
    let lp = s[h.0 as int].unwrap()@;
    let s1 = s.update(h.0 as int, None);
    assert(vacates(s, s1));
    assert(in_footprint(s, s1, h.0 as int));
    lemma_count_vacates(s, s1);
    lemma_unfold_inputs_depth(s1, lp.inputs(), (fuel - 1) as nat);
    lemma_unfold_inputs_fuel(s1, lp.inputs(), count_some(s1), (count_some(s) - 1) as nat);
}

/// Plans that unfold at all unfold with as much fuel as the arena has
/// populated slots.
pub proof fn lemma_unfold_inputs_depth(s: Slots, inputs: Seq<Node>, fuel: nat)
    requires
        unfold_inputs(s, inputs, fuel) is Some,
    ensures
        unfold_inputs(s, inputs, count_some(s)) == unfold_inputs(s, inputs, fuel),
    decreases fuel, inputs.len() + 1,
{
    if inputs.len() > 0 {
        lemma_unfold_inputs_depth(s, inputs.drop_last(), fuel);
        let s1 = unfold_inputs(s, inputs.drop_last(), fuel).unwrap().1;
        lemma_unfold_inputs_vacates(s, inputs.drop_last(), fuel);
        lemma_count_vacates(s, s1);
        lemma_unfold_at_depth(s1, inputs.last(), fuel);
        lemma_unfold_at_fuel(s1, inputs.last(), count_some(s1), count_some(s));
    }
}

/// The first of several plans unfolds by itself as it does among them.
pub proof fn lemma_unfold_first(s: Slots, inputs: Seq<Node>, fuel: nat)
    requires
        inputs.len() > 0,
        unfold_inputs(s, inputs, fuel) is Some,
    ensures
        unfold_at(s, inputs[0], fuel) matches Some((t, s1)) && t == unfold_inputs(
            s,
            inputs,
            fuel,
        ).unwrap().0[0] && vacates(s1, unfold_inputs(s, inputs, fuel).unwrap().1),
        unfold_inputs(s, inputs, fuel).unwrap().0.len() == inputs.len(),
    decreases inputs.len(),
{
    let init = inputs.drop_last();
    let s1 = unfold_inputs(s, init, fuel).unwrap().1;
    lemma_unfold_at_vacates(s1, inputs.last(), fuel);
    if init.len() > 0 {
        lemma_unfold_first(s, init, fuel);
        assert(init[0] == inputs[0]);
    } else {
        assert(s1 == s);
    }
}

/// The schema computed in the arena is the schema of the tree, whatever
/// the arena holds outside the slots of the tree.
pub proof fn lemma_schema_of_tree(s: Slots, h: Node, fuel: nat, s2: Slots)
    requires
        unfold_at(s, h, fuel) is Some,
        agree_on_footprint(s, unfold_at(s, h, fuel).unwrap().1, s2),
    ensures
        spec_schema(s2, h, fuel) == Some(tree_schema(unfold_at(s, h, fuel).unwrap().0)),
    decreases fuel,
{
    let (t, r) = unfold_at(s, h, fuel).unwrap();
    let lp = s[h.0 as int].unwrap()@;
    let s1 = s.update(h.0 as int, None);
    lemma_unfold_at_vacates(s, h, fuel);
    assert(in_footprint(s, r, h.0 as int));
    assert(s2[h.0 as int] == s[h.0 as int]);
    lemma_erased_schema_source(lp);
    if lp.inputs().len() > 0 {
        lemma_unfold_first(s1, lp.inputs(), (fuel - 1) as nat);
        let c = lp.inputs()[0];
        let rc = unfold_at(s1, c, (fuel - 1) as nat).unwrap().1;
        lemma_unfold_at_vacates(s1, c, (fuel - 1) as nat);
        assert forall|i: int| #[trigger] in_footprint(s1, rc, i) implies i < s2.len() && s2[i]
            == s1[i] by {
            assert(in_footprint(s, r, i));
        }
        lemma_schema_of_tree(s1, c, (fuel - 1) as nat, s2);
    }
}

/// Erasing the input handles of a node does not change where its
/// columns come from.
pub proof fn lemma_erased_schema_source(lp: PlanView)
    ensures
        lp.erased().schema_source() == lp.schema_source(),
{
}

} // verus!

verus! {

/// More fuel does not change the schema that is found.
pub proof fn lemma_schema_fuel(s: Slots, h: Node, fuel: nat, more: nat)
    requires
        spec_schema(s, h, fuel) is Some,
        fuel <= more,
    ensures
        spec_schema(s, h, more) == spec_schema(s, h, fuel),
    decreases fuel,
{
    let lp = s[h.0 as int].unwrap()@;
    if lp.inputs().len() > 0 && !(lp.schema_source() is Stored) {
        lemma_schema_fuel(s, lp.inputs()[0], (fuel - 1) as nat, (more - 1) as nat);
    }
}

/// Where fewer slots are populated, no more are counted.
pub proof fn lemma_count_subset(s: Slots, r: Slots)
    requires
        s.len() == r.len(),
        forall|i: int| 0 <= i < s.len() ==> (#[trigger] r[i]) is Some ==> s[i] is Some,
    ensures
        count_some(r) <= count_some(s),
    decreases s.len(),
{
    if s.len() > 0 {
        assert forall|i: int| 0 <= i < s.len() - 1 implies (#[trigger] r.drop_last()[i]) is Some
            ==> s.drop_last()[i] is Some by {
            assert(r[i] is Some ==> s[i] is Some);
        }
        lemma_count_subset(s.drop_last(), r.drop_last());
        assert(r.last() == r[r.len() - 1]);
        assert(s.last() == s[s.len() - 1]);
    }
}

/// Vacating a populated slot lowers the count.
pub proof fn lemma_count_take(s: Slots, i: int)
    requires
        0 <= i < s.len(),
        s[i] is Some,
    ensures
        count_some(s.update(i, None)) < count_some(s),
{
    let r = s.update(i, None);
    assert(vacates(s, r));
    assert(in_footprint(s, r, i));
    lemma_count_vacates(s, r);
}

} // verus!
