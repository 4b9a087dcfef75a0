//! Expression nodes. An expression is a tree whose nodes live in an
//! arena; a node refers to its inputs by handle.

use vstd::prelude::*;

use crate::arena::{Arena, Node};
use crate::datatypes::{clone_dtype, DataType, DataTypeView};

verus! {

/// Binary operators.
#[derive(Clone, Copy, Debug, PartialEq, Eq, Structural)]
pub enum Operator {
    Eq,
    NotEq,
    Lt,
    LtEq,
    Gt,
    GtEq,
    Plus,
    Minus,
    Multiply,
    Divide,
    And,
    Or,
    Xor,
}

/// A constant.
#[derive(Clone, Copy, Debug, PartialEq, Eq, Structural)]
pub enum LiteralValue {
    Null,
    Boolean(bool),
    Int64(i64),
    UInt64(u64),
}

/// The kinds of aggregation.
#[derive(Clone, Copy, Debug, PartialEq, Eq, Structural)]
pub enum AggKind {
    Min,
    Max,
    Sum,
    Mean,
    Median,
    First,
    Last,
    NUnique,
    Count,
}

/// How a function sees the rows of a group.
#[derive(Clone, Copy, Debug, PartialEq, Eq, Structural)]
pub enum ApplyOptions {
    /// The function gets a whole group at once: its result for a row
    /// depends on the other rows.
    ApplyGroups,
    /// The function gets the groups as a list column.
    ApplyList,
    /// The function works row by row.
    ApplyFlat,
}

/// Properties of a function that the optimizer reads.
#[derive(Clone, Copy, Debug, PartialEq, Eq, Structural)]
pub struct FunctionOptions {
    pub collect_groups: ApplyOptions,
    /// The function reduces a group to one value.
    pub auto_explode: bool,
}

/// An expression node.
#[derive(Debug)]
pub enum AExpr {
    /// A column of the input, by name.
    Column(String),
    Literal(LiteralValue),
    /// The input under another name.
    Alias(Node, String),
    BinaryExpr { left: Node, op: Operator, right: Node },
    /// Boolean negation.
    Not(Node),
    Cast { expr: Node, data_type: DataType, strict: bool },
    Sort { expr: Node, descending: bool },
    Agg { kind: AggKind, input: Node },
    /// A function evaluated over the groups of `partition_by`.
    Window { function: Node, partition_by: Vec<Node> },
    Function { input: Vec<Node>, name: String, options: FunctionOptions },
    Explode(Node),
    /// The number of rows of the input.
    Count,
}

/// Mathematical model of an [`AExpr`].
pub ghost enum AExprView {
    Column(Seq<char>),
    Literal(LiteralValue),
    Alias(Node, Seq<char>),
    BinaryExpr { left: Node, op: Operator, right: Node },
    Not(Node),
    Cast { expr: Node, data_type: DataTypeView, strict: bool },
    Sort { expr: Node, descending: bool },
    Agg { kind: AggKind, input: Node },
    Window { function: Node, partition_by: Seq<Node> },
    Function { input: Seq<Node>, name: Seq<char>, options: FunctionOptions },
    Explode(Node),
    Count,
}

impl View for AExpr {
    type V = AExprView;

    open spec fn view(&self) -> AExprView {
        match self {
            AExpr::Column(name) => AExprView::Column(name@),
            AExpr::Literal(v) => AExprView::Literal(*v),
            AExpr::Alias(e, name) => AExprView::Alias(*e, name@),
            AExpr::BinaryExpr { left, op, right } => AExprView::BinaryExpr {
                left: *left,
                op: *op,
                right: *right,
            },
            AExpr::Not(e) => AExprView::Not(*e),
            AExpr::Cast { expr, data_type, strict } => AExprView::Cast {
                expr: *expr,
                data_type: data_type@,
                strict: *strict,
            },
            AExpr::Sort { expr, descending } => AExprView::Sort {
                expr: *expr,
                descending: *descending,
            },
            AExpr::Agg { kind, input } => AExprView::Agg { kind: *kind, input: *input },
            AExpr::Window { function, partition_by } => AExprView::Window {
                function: *function,
                partition_by: partition_by@,
            },
            AExpr::Function { input, name, options } => AExprView::Function {
                input: input@,
                name: name@,
                options: *options,
            },
            AExpr::Explode(e) => AExprView::Explode(*e),
            AExpr::Count => AExprView::Count,
        }
    }
}

/// The properties of a single expression node that the optimizer asks
/// for. An expression has one of them if any of its nodes has it.
#[derive(Clone, Copy, Debug, PartialEq, Eq, Structural)]
pub enum ExprTest {
    /// The value for a row depends on other rows: sorts, aggregations,
    /// windows, explodes, the row count, functions over whole groups.
    PushdownBoundary,
    /// Used as a projection, the node changes the number of rows or
    /// computes across rows.
    ProjectionBoundary,
    /// The value depends on the order of the rows: windows, and
    /// functions over whole groups that keep one value per row.
    SortBoundary,
    /// The value needs all rows of the input: aggregations and windows.
    FullContext,
    /// The row count.
    Count,
}

impl AExprView {
    /// The inputs of the node, from left to right.
    pub open spec fn nodes(self) -> Seq<Node> {
        match self {
            AExprView::Column(_) => seq![],
            AExprView::Literal(_) => seq![],
            AExprView::Alias(e, _) => seq![e],
            AExprView::BinaryExpr { left, op, right } => seq![left, right],
            AExprView::Not(e) => seq![e],
            AExprView::Cast { expr, .. } => seq![expr],
            AExprView::Sort { expr, .. } => seq![expr],
            AExprView::Agg { input, .. } => seq![input],
            AExprView::Window { function, partition_by } => seq![function] + partition_by,
            AExprView::Function { input, .. } => input,
            AExprView::Explode(e) => seq![e],
            AExprView::Count => seq![],
        }
    }

    /// The node with its inputs replaced, position by position.
    pub open spec fn with_nodes(self, kids: Seq<Node>) -> AExprView {
        match self {
            AExprView::Column(_) => self,
            AExprView::Literal(_) => self,
            AExprView::Alias(_, name) => AExprView::Alias(kids[0], name),
            AExprView::BinaryExpr { left, op, right } => AExprView::BinaryExpr {
                left: kids[0],
                op,
                right: kids[1],
            },
            AExprView::Not(_) => AExprView::Not(kids[0]),
            AExprView::Cast { expr, data_type, strict } => AExprView::Cast {
                expr: kids[0],
                data_type,
                strict,
            },
            AExprView::Sort { expr, descending } => AExprView::Sort { expr: kids[0], descending },
            AExprView::Agg { kind, input } => AExprView::Agg { kind, input: kids[0] },
            AExprView::Window { function, partition_by } => AExprView::Window {
                function: kids[0],
                partition_by: kids.subrange(1, kids.len() as int),
            },
            AExprView::Function { input, name, options } => AExprView::Function {
                input: kids,
                name,
                options,
            },
            AExprView::Explode(_) => AExprView::Explode(kids[0]),
            AExprView::Count => self,
        }
    }

    /// Whether this node, by itself, has the property `t`.
    pub open spec fn satisfies(self, t: ExprTest) -> bool {
        match t {
            ExprTest::PushdownBoundary => {
                ||| self is Sort
                ||| self is Agg
                ||| self is Window
                ||| self is Explode
                ||| self is Count
                ||| (self matches AExprView::Function { options, .. } && options.collect_groups
                    == ApplyOptions::ApplyGroups)
            },
            ExprTest::ProjectionBoundary => {
                ||| self is Agg
                ||| self is Window
                ||| self is Explode
                ||| self is Count
                ||| (self matches AExprView::Function { options, .. } && options.collect_groups
                    == ApplyOptions::ApplyGroups)
            },
            ExprTest::SortBoundary => {
                ||| self is Window
                ||| (self matches AExprView::Function { options, .. } && options.collect_groups
                    == ApplyOptions::ApplyGroups && !options.auto_explode)
            },
            ExprTest::FullContext => self is Agg || self is Window,
            ExprTest::Count => self is Count,
        }
    }

    /// Whether every input of the node has a handle below `bound`.
    pub open spec fn inputs_below(self, bound: int) -> bool {
        forall|k: int| 0 <= k < self.nodes().len() ==> (#[trigger] self.nodes()[k]).0 < bound
    }
}

/// Copies a list of handles.
pub fn clone_nodes(nodes: &Vec<Node>) -> (res: Vec<Node>)
    ensures
        res@ == nodes@,
{
    let mut out: Vec<Node> = Vec::new();
    let mut i: usize = 0;
    while i < nodes.len()
        invariant
            i <= nodes@.len(),
            out@ == nodes@.take(i as int),
        decreases nodes@.len() - i,
    {
        out.push(nodes[i]);
        assert(nodes@.take(i as int + 1) =~= nodes@.take(i as int).push(nodes@[i as int]));
        i += 1;
    }
    assert(nodes@.take(nodes@.len() as int) =~= nodes@);
    out
}

/// Whether two lists of handles are the same.
pub fn eq_nodes(a: &Vec<Node>, b: &Vec<Node>) -> (res: bool)
    ensures
        res == (a@ == b@),
{
    if a.len() != b.len() {
        return false;
    }
    let mut i: usize = 0;
    while i < a.len()
        invariant
            i <= a@.len(),
            a@.len() == b@.len(),
            forall|j: int| 0 <= j < i ==> a@[j] == b@[j],
        decreases a@.len() - i,
    {
        if a[i] != b[i] {
            return false;
        }
        i += 1;
    }
    assert(a@ =~= b@);
    true
}

impl AExpr {
    /// The inputs of the node, from left to right.
    pub fn nodes(&self) -> (res: Vec<Node>)
        ensures
            res@ == self@.nodes(),
    {
        let mut out: Vec<Node> = Vec::new();
        match self {
            AExpr::Column(_) | AExpr::Literal(_) | AExpr::Count => {},
            AExpr::Alias(e, _) => out.push(*e),
            AExpr::BinaryExpr { left, right, .. } => {
                out.push(*left);
                out.push(*right);
            },
            AExpr::Not(e) => out.push(*e),
            AExpr::Cast { expr, .. } => out.push(*expr),
            AExpr::Sort { expr, .. } => out.push(*expr),
            AExpr::Agg { input, .. } => out.push(*input),
            AExpr::Window { function, partition_by } => {
                out.push(*function);
                let mut i: usize = 0;
                while i < partition_by.len()
                    invariant
                        i <= partition_by@.len(),
                        out@ == seq![*function] + partition_by@.take(i as int),
                    decreases partition_by@.len() - i,
                {
                    out.push(partition_by[i]);
                    assert(partition_by@.take(i as int + 1) =~= partition_by@.take(i as int).push(
                        partition_by@[i as int],
                    ));
                    i += 1;
                }
                assert(partition_by@.take(partition_by@.len() as int) =~= partition_by@);
            },
            AExpr::Function { input, .. } => {
                out = clone_nodes(input);
            },
            AExpr::Explode(e) => out.push(*e),
        }
        assert(out@ =~= self@.nodes());
        out
    }

    /// The node with its inputs replaced, position by position.
    pub fn with_nodes(&self, kids: &Vec<Node>) -> (res: AExpr)
        requires
            kids@.len() == self@.nodes().len(),
        ensures
            res@ == self@.with_nodes(kids@),
    {
        match self {
            AExpr::Column(name) => AExpr::Column(name.clone()),
            AExpr::Literal(v) => AExpr::Literal(*v),
            AExpr::Count => AExpr::Count,
            AExpr::Alias(_, name) => AExpr::Alias(kids[0], name.clone()),
            AExpr::BinaryExpr { op, .. } => AExpr::BinaryExpr {
                left: kids[0],
                op: *op,
                right: kids[1],
            },
            AExpr::Not(_) => AExpr::Not(kids[0]),
            AExpr::Cast { data_type, strict, .. } => AExpr::Cast {
                expr: kids[0],
                data_type: clone_dtype(data_type),
                strict: *strict,
            },
            AExpr::Sort { descending, .. } => AExpr::Sort { expr: kids[0], descending: *descending },
            AExpr::Agg { kind, .. } => AExpr::Agg { kind: *kind, input: kids[0] },
            AExpr::Window { .. } => {
                let mut rest: Vec<Node> = Vec::new();
                let mut i: usize = 1;
                while i < kids.len()
                    invariant
                        1 <= i <= kids@.len(),
                        rest@ == kids@.subrange(1, i as int),
                    decreases kids@.len() - i,
                {
                    rest.push(kids[i]);
                    assert(kids@.subrange(1, i as int + 1) =~= kids@.subrange(1, i as int).push(
                        kids@[i as int],
                    ));
                    i += 1;
                }
                AExpr::Window { function: kids[0], partition_by: rest }
            },
            AExpr::Function { name, options, .. } => AExpr::Function {
                input: clone_nodes(kids),
                name: name.clone(),
                options: *options,
            },
            AExpr::Explode(_) => AExpr::Explode(kids[0]),
        }
    }

    /// Whether this node, by itself, has the property `t`.
    pub fn satisfies(&self, t: ExprTest) -> (res: bool)
        ensures
            res == self@.satisfies(t),
    {
        let groups = match self {
            AExpr::Function { options, .. } => matches!(
                options.collect_groups,
                ApplyOptions::ApplyGroups
            ),
            _ => false,
        };
        let reduces = match self {
            AExpr::Function { options, .. } => options.auto_explode,
            _ => false,
        };
        match t {
            ExprTest::PushdownBoundary => matches!(
                self,
                AExpr::Sort { .. } | AExpr::Agg { .. } | AExpr::Window { .. } | AExpr::Explode(_)
                    | AExpr::Count
            ) || groups,
            ExprTest::ProjectionBoundary => matches!(
                self,
                AExpr::Agg { .. } | AExpr::Window { .. } | AExpr::Explode(_) | AExpr::Count
            ) || groups,
            ExprTest::SortBoundary => matches!(self, AExpr::Window { .. }) || (groups && !reduces),
            ExprTest::FullContext => matches!(self, AExpr::Agg { .. } | AExpr::Window { .. }),
            ExprTest::Count => matches!(self, AExpr::Count),
        }
    }
}

/// A well-formed sequence of expression nodes: every node's inputs come
/// before the node, so that every handle denotes a finite tree.
pub open spec fn wf_exprs(es: Seq<AExprView>) -> bool {
    forall|i: int| 0 <= i < es.len() ==> (#[trigger] es[i]).inputs_below(i)
}

/// Whether `new` holds the nodes of `old` at the same handles, and
/// possibly more after them.
pub open spec fn extends(old: Seq<AExprView>, new: Seq<AExprView>) -> bool {
    &&& old.len() <= new.len()
    &&& forall|i: int| 0 <= i < old.len() ==> old[i] == new[i]
}

impl Arena<AExpr> {
    /// The models of the nodes, by handle.
    pub open spec fn exprs(&self) -> Seq<AExprView> {
        Seq::new(self@.len(), |i: int| self@[i].unwrap()@)
    }

    /// Every slot is populated and every node's inputs come before it.
    ///
    /// An arena that expressions are added to, each after its inputs,
    /// is so. The walks over expressions follow the handles downward,
    /// which is what makes them end; an expression put into an older
    /// slot with inputs from newer ones breaks the order, and the pass
    /// turns such an arena down.
    pub open spec fn wf(&self) -> bool {
        &&& forall|i: int| 0 <= i < self@.len() ==> (#[trigger] self@[i]) is Some
        &&& wf_exprs(self.exprs())
    }

    /// Adds an expression whose inputs are already in the arena.
    pub fn add_expr(&mut self, e: AExpr) -> (res: Node)
        requires
            old(self).wf(),
            e@.inputs_below(old(self)@.len() as int),
        ensures
            final(self).wf(),
            res.0 == old(self)@.len(),
            final(self).exprs() == old(self).exprs().push(e@),
            extends(old(self).exprs(), final(self).exprs()),
    {
        let n = self.add(e);
        assert(self.exprs() =~= old(self).exprs().push(e@));
        n
    }

    /// Whether every slot is populated and every node's inputs come
    /// before it.
    pub fn is_well_formed(&self) -> (res: bool)
        ensures
            res == self.wf(),
    {
        let mut i: usize = 0;
        while i < self.len()
            invariant
                i <= self@.len(),
                forall|j: int| 0 <= j < i ==> (#[trigger] self@[j]) is Some,
                forall|j: int| 0 <= j < i ==> (#[trigger] self.exprs()[j]).inputs_below(j),
            decreases self@.len() - i,
        {
            if !self.is_populated(Node(i)) {
                assert(!(self@[i as int] is Some));
                return false;
            }
            let kids = self.get(Node(i)).nodes();
            let mut k: usize = 0;
            while k < kids.len()
                invariant
                    k <= kids@.len(),
                    i < self@.len(),
                    self@[i as int] is Some,
                    kids@ == self.exprs()[i as int].nodes(),
                    forall|j: int| 0 <= j < k ==> (#[trigger] kids@[j]).0 < i,
                decreases kids@.len() - k,
            {
                if kids[k].0 >= i {
                    assert(!self.exprs()[i as int].inputs_below(i as int)) by {
                        assert(self.exprs()[i as int].nodes()[k as int].0 >= i);
                    }
                    return false;
                }
                k += 1;
            }
            i += 1;
        }
        true
    }

    /// The expression at a handle.
    pub fn expr(&self, idx: Node) -> (res: &AExpr)
        requires
            self.wf(),
            idx.0 < self@.len(),
        ensures
            res@ == self.exprs()[idx.0 as int],
    {
        self.get(idx)
    }
}

} // verus!
