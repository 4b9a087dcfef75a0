//! Logical plan nodes. A plan is a tree whose nodes live in an arena; a
//! node refers to its inputs by handle, and to its expressions by
//! handles into the expression arena.

use vstd::prelude::*;

use crate::aexpr::clone_nodes;
use crate::arena::Node;
use crate::names::str_views;

verus! {

/// The file format behind a scan.
#[derive(Clone, Copy, Debug, PartialEq, Eq, Structural)]
pub enum FileScan {
    /// The reader cannot filter rows itself.
    Csv,
    Parquet,
    Ipc,
}

/// How a join pairs the rows of its inputs.
#[derive(Clone, Copy, Debug, PartialEq, Eq, Structural)]
pub enum JoinType {
    Inner,
    Left,
    Outer,
    Semi,
    Anti,
    Cross,
    AsOf,
}

/// Which of several equal rows a `Distinct` keeps.
#[derive(Clone, Copy, Debug, PartialEq, Eq, Structural)]
pub enum UniqueKeepStrategy {
    First,
    Last,
    /// Rows that occur more than once are all dropped.
    Neither,
    Any,
}

/// A transform that maps each input row on its own.
#[derive(Debug)]
pub enum FunctionNode {
    /// Renames column `existing[i]` to `new[i]`.
    Rename { existing: Vec<String>, new: Vec<String> },
    /// Turns each element of the list columns into a row.
    Explode { columns: Vec<String> },
    /// Turns the value columns into rows of a name and a value.
    Melt {
        id_vars: Vec<String>,
        value_vars: Vec<String>,
        variable_name: Option<String>,
        value_name: Option<String>,
    },
    /// Any other transform; it says itself whether a filter may move
    /// below it, and leaves the schema as it is.
    Opaque { name: String, predicate_pd: bool },
}

/// Mathematical model of a [`FunctionNode`].
pub ghost enum FunctionNodeView {
    Rename { existing: Seq<Seq<char>>, new: Seq<Seq<char>> },
    Explode { columns: Seq<Seq<char>> },
    Melt {
        id_vars: Seq<Seq<char>>,
        value_vars: Seq<Seq<char>>,
        variable_name: Option<Seq<char>>,
        value_name: Option<Seq<char>>,
    },
    Opaque { name: Seq<char>, predicate_pd: bool },
}

/// The model of an optional string.
pub open spec fn opt_str_view(s: Option<String>) -> Option<Seq<char>> {
    match s {
        Some(s) => Some(s@),
        None => None,
    }
}

impl View for FunctionNode {
    type V = FunctionNodeView;

    open spec fn view(&self) -> FunctionNodeView {
        match self {
            FunctionNode::Rename { existing, new } => FunctionNodeView::Rename {
                existing: str_views(existing@),
                new: str_views(new@),
            },
            FunctionNode::Explode { columns } => FunctionNodeView::Explode {
                columns: str_views(columns@),
            },
            FunctionNode::Melt {
                id_vars,
                value_vars,
                variable_name,
                value_name,
            } => FunctionNodeView::Melt {
                id_vars: str_views(id_vars@),
                value_vars: str_views(value_vars@),
                variable_name: opt_str_view(*variable_name),
                value_name: opt_str_view(*value_name),
            },
            FunctionNode::Opaque { name, predicate_pd } => FunctionNodeView::Opaque {
                name: name@,
                predicate_pd: *predicate_pd,
            },
        }
    }
}

impl FunctionNodeView {
    /// Whether a filter may move below the transform at all.
    pub open spec fn allow_predicate_pd(self) -> bool {
        match self {
            FunctionNodeView::Opaque { predicate_pd, .. } => predicate_pd,
            _ => true,
        }
    }
}

impl FunctionNode {
    /// Whether a filter may move below the transform at all.
    pub fn allow_predicate_pd(&self) -> (res: bool)
        ensures
            res == self@.allow_predicate_pd(),
    {
        match self {
            FunctionNode::Opaque { predicate_pd, .. } => *predicate_pd,
            _ => true,
        }
    }
}

/// A node of a logical plan.
#[derive(Debug)]
pub enum ALogicalPlan {
    /// Keeps the rows of `input` for which `predicate` holds.
    Selection { input: Node, predicate: Node },
    /// Reads a file; `predicate` is evaluated by the reader.
    Scan { path: String, schema: Vec<String>, predicate: Option<Node>, scan_type: FileScan },
    /// Reads a table in memory.
    DataFrameScan { schema: Vec<String>, selection: Option<Node> },
    /// Reads from a source supplied by the user.
    AnonymousScan { schema: Vec<String>, allows_predicate_pushdown: bool, predicate: Option<Node> },
    /// Reads through a foreign engine, which takes a predicate as text.
    PythonScan {
        schema: Vec<String>,
        pyarrow: bool,
        pushed_predicate: Option<String>,
        predicate: Option<Node>,
    },
    Projection { expr: Vec<Node>, input: Node, schema: Vec<String> },
    LocalProjection { expr: Vec<Node>, input: Node, schema: Vec<String> },
    /// Appends or replaces columns.
    HStack { input: Node, exprs: Vec<Node>, schema: Vec<String> },
    /// Makes the columns of `contexts` visible to expressions on `input`.
    ExtContext { input: Node, contexts: Vec<Node>, schema: Vec<String> },
    MapFunction { input: Node, function: FunctionNode },
    Join {
        input_left: Node,
        input_right: Node,
        left_on: Vec<Node>,
        right_on: Vec<Node>,
        schema: Vec<String>,
        how: JoinType,
    },
    Aggregate { input: Node, keys: Vec<Node>, aggs: Vec<Node>, schema: Vec<String> },
    Distinct { input: Node, keep_strategy: UniqueKeepStrategy },
    Sort { input: Node, by_column: Vec<Node>, descending: bool },
    Slice { input: Node, offset: i64, len: u32 },
    Cache { input: Node, id: usize },
    Union { inputs: Vec<Node> },
    FileSink { input: Node, path: String },
    CloudSink { input: Node, uri: String },
}

/// Mathematical model of an [`ALogicalPlan`].
pub ghost enum PlanView {
    Selection { input: Node, predicate: Node },
    Scan { path: Seq<char>, schema: Seq<Seq<char>>, predicate: Option<Node>, scan_type: FileScan },
    DataFrameScan { schema: Seq<Seq<char>>, selection: Option<Node> },
    AnonymousScan {
        schema: Seq<Seq<char>>,
        allows_predicate_pushdown: bool,
        predicate: Option<Node>,
    },
    PythonScan {
        schema: Seq<Seq<char>>,
        pyarrow: bool,
        pushed_predicate: Option<Seq<char>>,
        predicate: Option<Node>,
    },
    Projection { expr: Seq<Node>, input: Node, schema: Seq<Seq<char>> },
    LocalProjection { expr: Seq<Node>, input: Node, schema: Seq<Seq<char>> },
    HStack { input: Node, exprs: Seq<Node>, schema: Seq<Seq<char>> },
    ExtContext { input: Node, contexts: Seq<Node>, schema: Seq<Seq<char>> },
    MapFunction { input: Node, function: FunctionNodeView },
    Join {
        input_left: Node,
        input_right: Node,
        left_on: Seq<Node>,
        right_on: Seq<Node>,
        schema: Seq<Seq<char>>,
        how: JoinType,
    },
    Aggregate { input: Node, keys: Seq<Node>, aggs: Seq<Node>, schema: Seq<Seq<char>> },
    Distinct { input: Node, keep_strategy: UniqueKeepStrategy },
    Sort { input: Node, by_column: Seq<Node>, descending: bool },
    Slice { input: Node, offset: i64, len: u32 },
    Cache { input: Node, id: usize },
    Union { inputs: Seq<Node> },
    FileSink { input: Node, path: Seq<char> },
    CloudSink { input: Node, uri: Seq<char> },
}

impl View for ALogicalPlan {
    type V = PlanView;

    open spec fn view(&self) -> PlanView {
        match self {
            ALogicalPlan::Selection { input, predicate } => PlanView::Selection {
                input: *input,
                predicate: *predicate,
            },
            ALogicalPlan::Scan { path, schema, predicate, scan_type } => PlanView::Scan {
                path: path@,
                schema: str_views(schema@),
                predicate: *predicate,
                scan_type: *scan_type,
            },
            ALogicalPlan::DataFrameScan { schema, selection } => PlanView::DataFrameScan {
                schema: str_views(schema@),
                selection: *selection,
            },
            ALogicalPlan::AnonymousScan {
                schema,
                allows_predicate_pushdown,
                predicate,
            } => PlanView::AnonymousScan {
                schema: str_views(schema@),
                allows_predicate_pushdown: *allows_predicate_pushdown,
                predicate: *predicate,
            },
            ALogicalPlan::PythonScan {
                schema,
                pyarrow,
                pushed_predicate,
                predicate,
            } => PlanView::PythonScan {
                schema: str_views(schema@),
                pyarrow: *pyarrow,
                pushed_predicate: opt_str_view(*pushed_predicate),
                predicate: *predicate,
            },
            ALogicalPlan::Projection { expr, input, schema } => PlanView::Projection {
                expr: expr@,
                input: *input,
                schema: str_views(schema@),
            },
            ALogicalPlan::LocalProjection { expr, input, schema } => PlanView::LocalProjection {
                expr: expr@,
                input: *input,
                schema: str_views(schema@),
            },
            ALogicalPlan::HStack { input, exprs, schema } => PlanView::HStack {
                input: *input,
                exprs: exprs@,
                schema: str_views(schema@),
            },
            ALogicalPlan::ExtContext { input, contexts, schema } => PlanView::ExtContext {
                input: *input,
                contexts: contexts@,
                schema: str_views(schema@),
            },
            ALogicalPlan::MapFunction { input, function } => PlanView::MapFunction {
                input: *input,
                function: function@,
            },
            ALogicalPlan::Join {
                input_left,
                input_right,
                left_on,
                right_on,
                schema,
                how,
            } => PlanView::Join {
                input_left: *input_left,
                input_right: *input_right,
                left_on: left_on@,
                right_on: right_on@,
                schema: str_views(schema@),
                how: *how,
            },
            ALogicalPlan::Aggregate { input, keys, aggs, schema } => PlanView::Aggregate {
                input: *input,
                keys: keys@,
                aggs: aggs@,
                schema: str_views(schema@),
            },
            ALogicalPlan::Distinct { input, keep_strategy } => PlanView::Distinct {
                input: *input,
                keep_strategy: *keep_strategy,
            },
            ALogicalPlan::Sort { input, by_column, descending } => PlanView::Sort {
                input: *input,
                by_column: by_column@,
                descending: *descending,
            },
            ALogicalPlan::Slice { input, offset, len } => PlanView::Slice {
                input: *input,
                offset: *offset,
                len: *len,
            },
            ALogicalPlan::Cache { input, id } => PlanView::Cache { input: *input, id: *id },
            ALogicalPlan::Union { inputs } => PlanView::Union { inputs: inputs@ },
            ALogicalPlan::FileSink { input, path } => PlanView::FileSink {
                input: *input,
                path: path@,
            },
            ALogicalPlan::CloudSink { input, uri } => PlanView::CloudSink {
                input: *input,
                uri: uri@,
            },
        }
    }
}

impl PlanView {
    /// The handles of the node's inputs, in order.
    pub open spec fn inputs(self) -> Seq<Node> {
        match self {
            PlanView::Selection { input, .. } => seq![input],
            PlanView::Scan { .. } => seq![],
            PlanView::DataFrameScan { .. } => seq![],
            PlanView::AnonymousScan { .. } => seq![],
            PlanView::PythonScan { .. } => seq![],
            PlanView::Projection { input, .. } => seq![input],
            PlanView::LocalProjection { input, .. } => seq![input],
            PlanView::HStack { input, .. } => seq![input],
            PlanView::ExtContext { input, contexts, .. } => contexts.push(input),
            PlanView::MapFunction { input, .. } => seq![input],
            PlanView::Join { input_left, input_right, .. } => seq![input_left, input_right],
            PlanView::Aggregate { input, .. } => seq![input],
            PlanView::Distinct { input, .. } => seq![input],
            PlanView::Sort { input, .. } => seq![input],
            PlanView::Slice { input, .. } => seq![input],
            PlanView::Cache { input, .. } => seq![input],
            PlanView::Union { inputs } => inputs,
            PlanView::FileSink { input, .. } => seq![input],
            PlanView::CloudSink { input, .. } => seq![input],
        }
    }

    /// The handles of the node's expressions, in order.
    pub open spec fn exprs(self) -> Seq<Node> {
        match self {
            PlanView::Selection { predicate, .. } => seq![predicate],
            PlanView::Scan { predicate, .. } => opt_seq(predicate),
            PlanView::DataFrameScan { selection, .. } => opt_seq(selection),
            PlanView::AnonymousScan { predicate, .. } => opt_seq(predicate),
            PlanView::PythonScan { predicate, .. } => opt_seq(predicate),
            PlanView::Projection { expr, .. } => expr,
            PlanView::LocalProjection { expr, .. } => expr,
            PlanView::HStack { exprs, .. } => exprs,
            PlanView::ExtContext { .. } => seq![],
            PlanView::MapFunction { .. } => seq![],
            PlanView::Join { left_on, right_on, .. } => left_on + right_on,
            PlanView::Aggregate { keys, aggs, .. } => keys + aggs,
            PlanView::Distinct { .. } => seq![],
            PlanView::Sort { by_column, .. } => by_column,
            PlanView::Slice { .. } => seq![],
            PlanView::Cache { .. } => seq![],
            PlanView::Union { .. } => seq![],
            PlanView::FileSink { .. } => seq![],
            PlanView::CloudSink { .. } => seq![],
        }
    }

    /// The node with its inputs replaced, position by position.
    pub open spec fn with_inputs(self, inputs: Seq<Node>) -> PlanView {
        match self {
            PlanView::Selection { input, predicate } => PlanView::Selection {
                input: inputs[0],
                predicate,
            },
            PlanView::Scan { .. } => self,
            PlanView::DataFrameScan { .. } => self,
            PlanView::AnonymousScan { .. } => self,
            PlanView::PythonScan { .. } => self,
            PlanView::Projection { expr, input, schema } => PlanView::Projection {
                expr,
                input: inputs[0],
                schema,
            },
            PlanView::LocalProjection { expr, input, schema } => PlanView::LocalProjection {
                expr,
                input: inputs[0],
                schema,
            },
            PlanView::HStack { input, exprs, schema } => PlanView::HStack {
                input: inputs[0],
                exprs,
                schema,
            },
            PlanView::ExtContext { input, contexts, schema } => PlanView::ExtContext {
                input: inputs.last(),
                contexts: inputs.drop_last(),
                schema,
            },
            PlanView::MapFunction { input, function } => PlanView::MapFunction {
                input: inputs[0],
                function,
            },
            PlanView::Join {
                input_left,
                input_right,
                left_on,
                right_on,
                schema,
                how,
            } => PlanView::Join {
                input_left: inputs[0],
                input_right: inputs[1],
                left_on,
                right_on,
                schema,
                how,
            },
            PlanView::Aggregate { input, keys, aggs, schema } => PlanView::Aggregate {
                input: inputs[0],
                keys,
                aggs,
                schema,
            },
            PlanView::Distinct { input, keep_strategy } => PlanView::Distinct {
                input: inputs[0],
                keep_strategy,
            },
            PlanView::Sort { input, by_column, descending } => PlanView::Sort {
                input: inputs[0],
                by_column,
                descending,
            },
            PlanView::Slice { input, offset, len } => PlanView::Slice {
                input: inputs[0],
                offset,
                len,
            },
            PlanView::Cache { input, id } => PlanView::Cache { input: inputs[0], id },
            PlanView::Union { .. } => PlanView::Union { inputs },
            PlanView::FileSink { input, path } => PlanView::FileSink { input: inputs[0], path },
            PlanView::CloudSink { input, uri } => PlanView::CloudSink { input: inputs[0], uri },
        }
    }

    /// The node with its expressions replaced, position by position.
    pub open spec fn with_exprs(self, exprs: Seq<Node>) -> PlanView {
        match self {
            PlanView::Selection { input, predicate } => PlanView::Selection {
                input,
                predicate: exprs[0],
            },
            PlanView::Scan { path, schema, predicate, scan_type } => PlanView::Scan {
                path,
                schema,
                predicate: seq_opt(exprs),
                scan_type,
            },
            PlanView::DataFrameScan { schema, selection } => PlanView::DataFrameScan {
                schema,
                selection: seq_opt(exprs),
            },
            PlanView::AnonymousScan {
                schema,
                allows_predicate_pushdown,
                predicate,
            } => PlanView::AnonymousScan {
                schema,
                allows_predicate_pushdown,
                predicate: seq_opt(exprs),
            },
            PlanView::PythonScan {
                schema,
                pyarrow,
                pushed_predicate,
                predicate,
            } => PlanView::PythonScan {
                schema,
                pyarrow,
                pushed_predicate,
                predicate: seq_opt(exprs),
            },
            PlanView::Projection { expr, input, schema } => PlanView::Projection {
                expr: exprs,
                input,
                schema,
            },
            PlanView::LocalProjection { expr, input, schema } => PlanView::LocalProjection {
                expr: exprs,
                input,
                schema,
            },
            PlanView::HStack { input, exprs: _, schema } => PlanView::HStack {
                input,
                exprs,
                schema,
            },
            PlanView::Join {
                input_left,
                input_right,
                left_on,
                right_on,
                schema,
                how,
            } => PlanView::Join {
                input_left,
                input_right,
                left_on: exprs.take(left_on.len() as int),
                right_on: exprs.skip(left_on.len() as int),
                schema,
                how,
            },
            PlanView::Aggregate { input, keys, aggs, schema } => PlanView::Aggregate {
                input,
                keys: exprs.take(keys.len() as int),
                aggs: exprs.skip(keys.len() as int),
                schema,
            },
            PlanView::Sort { input, by_column, descending } => PlanView::Sort {
                input,
                by_column: exprs,
                descending,
            },
            _ => self,
        }
    }

    /// The node with its expressions and its inputs replaced.
    pub open spec fn with_exprs_and_input(self, exprs: Seq<Node>, inputs: Seq<Node>) -> PlanView {
        self.with_exprs(exprs).with_inputs(inputs)
    }

    /// The node without the handles of its inputs: what it is, apart
    /// from where its inputs are stored.
    pub open spec fn erased(self) -> PlanView {
        self.with_inputs(Seq::new(self.inputs().len(), |i: int| Node(0)))
    }
}

/// An optional handle as a list of none or one.
pub open spec fn opt_seq(n: Option<Node>) -> Seq<Node> {
    match n {
        Some(n) => seq![n],
        None => seq![],
    }
}

/// The first handle of a list, if there is one.
pub open spec fn seq_opt(s: Seq<Node>) -> Option<Node> {
    if s.len() > 0 {
        Some(s[0])
    } else {
        None
    }
}

/// A list of none or one handle.
pub fn opt_to_vec(n: &Option<Node>) -> (res: Vec<Node>)
    ensures
        res@ == opt_seq(*n),
{
    let mut out: Vec<Node> = Vec::new();
    match n {
        Some(n) => out.push(*n),
        None => {},
    }
    assert(out@ =~= opt_seq(*n));
    out
}

/// The first handle of a list, if there is one.
pub fn vec_to_opt(v: &Vec<Node>) -> (res: Option<Node>)
    ensures
        res == seq_opt(v@),
{
    if v.len() > 0 {
        Some(v[0])
    } else {
        None
    }
}

/// Two lists of handles, one after the other.
pub fn concat_nodes(a: &Vec<Node>, b: &Vec<Node>) -> (res: Vec<Node>)
    ensures
        res@ == a@ + b@,
{
    let mut out = clone_nodes(a);
    let mut i: usize = 0;
    while i < b.len()
        invariant
            i <= b@.len(),
            out@ == a@ + b@.take(i as int),
        decreases b@.len() - i,
    {
        out.push(b[i]);
        assert(a@ + b@.take(i as int + 1) =~= (a@ + b@.take(i as int)).push(b@[i as int]));
        i += 1;
    }
    assert(b@.take(b@.len() as int) =~= b@);
    out
}

impl ALogicalPlan {
    /// The handles of the node's inputs, in order.
    pub fn get_inputs(&self) -> (res: Vec<Node>)
        ensures
            res@ == self@.inputs(),
    {
        let mut out: Vec<Node> = Vec::new();
        match self {
            ALogicalPlan::Scan { .. }
            | ALogicalPlan::DataFrameScan { .. }
            | ALogicalPlan::AnonymousScan { .. }
            | ALogicalPlan::PythonScan { .. } => {},
            ALogicalPlan::Selection { input, .. }
            | ALogicalPlan::Projection { input, .. }
            | ALogicalPlan::LocalProjection { input, .. }
            | ALogicalPlan::HStack { input, .. }
            | ALogicalPlan::MapFunction { input, .. }
            | ALogicalPlan::Aggregate { input, .. }
            | ALogicalPlan::Distinct { input, .. }
            | ALogicalPlan::Sort { input, .. }
            | ALogicalPlan::Slice { input, .. }
            | ALogicalPlan::Cache { input, .. }
            | ALogicalPlan::FileSink { input, .. }
            | ALogicalPlan::CloudSink { input, .. } => out.push(*input),
            ALogicalPlan::ExtContext { input, contexts, .. } => {
                out = clone_nodes(contexts);
                out.push(*input);
            },
            ALogicalPlan::Join { input_left, input_right, .. } => {
                out.push(*input_left);
                out.push(*input_right);
            },
            ALogicalPlan::Union { inputs } => {
                out = clone_nodes(inputs);
            },
        }
        assert(out@ =~= self@.inputs());
        out
    }

    /// The handles of the node's expressions, in order.
    pub fn get_exprs(&self) -> (res: Vec<Node>)
        ensures
            res@ == self@.exprs(),
    {
        let out = match self {
            ALogicalPlan::Selection { predicate, .. } => opt_to_vec(&Some(*predicate)),
            ALogicalPlan::Scan { predicate, .. } => opt_to_vec(predicate),
            ALogicalPlan::DataFrameScan { selection, .. } => opt_to_vec(selection),
            ALogicalPlan::AnonymousScan { predicate, .. } => opt_to_vec(predicate),
            ALogicalPlan::PythonScan { predicate, .. } => opt_to_vec(predicate),
            ALogicalPlan::Projection { expr, .. } => clone_nodes(expr),
            ALogicalPlan::LocalProjection { expr, .. } => clone_nodes(expr),
            ALogicalPlan::HStack { exprs, .. } => clone_nodes(exprs),
            ALogicalPlan::Join { left_on, right_on, .. } => concat_nodes(left_on, right_on),
            ALogicalPlan::Aggregate { keys, aggs, .. } => concat_nodes(keys, aggs),
            ALogicalPlan::Sort { by_column, .. } => clone_nodes(by_column),
            _ => Vec::new(),
        };
        assert(out@ =~= self@.exprs());
        out
    }

    /// The node with its expressions and its inputs replaced, position
    /// by position.
    pub fn with_exprs_and_input(self, exprs: Vec<Node>, inputs: Vec<Node>) -> (res: ALogicalPlan)
        requires
            exprs@.len() == self@.exprs().len(),
            inputs@.len() == self@.inputs().len(),
        ensures
            res@ == self@.with_exprs_and_input(exprs@, inputs@),
    {
        let mut exprs = exprs;
        let mut inputs = inputs;
        match self {
            ALogicalPlan::Selection { .. } => ALogicalPlan::Selection {
                input: inputs[0],
                predicate: exprs[0],
            },
            ALogicalPlan::Scan { path, schema, scan_type, .. } => ALogicalPlan::Scan {
                path,
                schema,
                predicate: vec_to_opt(&exprs),
                scan_type,
            },
            ALogicalPlan::DataFrameScan { schema, .. } => ALogicalPlan::DataFrameScan {
                schema,
                selection: vec_to_opt(&exprs),
            },
            ALogicalPlan::AnonymousScan {
                schema,
                allows_predicate_pushdown,
                ..
            } => ALogicalPlan::AnonymousScan {
                schema,
                allows_predicate_pushdown,
                predicate: vec_to_opt(&exprs),
            },
            ALogicalPlan::PythonScan {
                schema,
                pyarrow,
                pushed_predicate,
                ..
            } => ALogicalPlan::PythonScan {
                schema,
                pyarrow,
                pushed_predicate,
                predicate: vec_to_opt(&exprs),
            },
            ALogicalPlan::Projection { schema, .. } => ALogicalPlan::Projection {
                expr: exprs,
                input: inputs[0],
                schema,
            },
            ALogicalPlan::LocalProjection { schema, .. } => ALogicalPlan::LocalProjection {
                expr: exprs,
                input: inputs[0],
                schema,
            },
            ALogicalPlan::HStack { schema, .. } => ALogicalPlan::HStack {
                input: inputs[0],
                exprs,
                schema,
            },
            ALogicalPlan::ExtContext { schema, .. } => {
                let input = inputs[inputs.len() - 1];
                inputs.pop();
                ALogicalPlan::ExtContext { input, contexts: inputs, schema }
            },
            ALogicalPlan::MapFunction { function, .. } => ALogicalPlan::MapFunction {
                input: inputs[0],
                function,
            },
            ALogicalPlan::Join { left_on, schema, how, .. } => {
                let right = exprs.split_off(left_on.len());
                ALogicalPlan::Join {
                    input_left: inputs[0],
                    input_right: inputs[1],
                    left_on: exprs,
                    right_on: right,
                    schema,
                    how,
                }
            },
            ALogicalPlan::Aggregate { keys, schema, .. } => {
                let aggs = exprs.split_off(keys.len());
                ALogicalPlan::Aggregate { input: inputs[0], keys: exprs, aggs, schema }
            },
            ALogicalPlan::Distinct { keep_strategy, .. } => ALogicalPlan::Distinct {
                input: inputs[0],
                keep_strategy,
            },
            ALogicalPlan::Sort { descending, .. } => ALogicalPlan::Sort {
                input: inputs[0],
                by_column: exprs,
                descending,
            },
            ALogicalPlan::Slice { offset, len, .. } => ALogicalPlan::Slice {
                input: inputs[0],
                offset,
                len,
            },
            ALogicalPlan::Cache { id, .. } => ALogicalPlan::Cache { input: inputs[0], id },
            ALogicalPlan::Union { .. } => ALogicalPlan::Union { inputs },
            ALogicalPlan::FileSink { path, .. } => ALogicalPlan::FileSink {
                input: inputs[0],
                path,
            },
            ALogicalPlan::CloudSink { uri, .. } => ALogicalPlan::CloudSink {
                input: inputs[0],
                uri,
            },
        }
    }
}

/// Putting a node's own expressions and inputs back gives the node.
pub proof fn lemma_with_same_exprs_and_input(lp: PlanView)
    ensures
        lp.with_exprs_and_input(lp.exprs(), lp.inputs()) == lp,
{
    match lp {
        PlanView::ExtContext { input, contexts, schema } => {
            assert(contexts.push(input).drop_last() =~= contexts);
        },
        PlanView::Join { left_on, right_on, .. } => {
            assert((left_on + right_on).take(left_on.len() as int) =~= left_on);
            assert((left_on + right_on).skip(left_on.len() as int) =~= right_on);
        },
        PlanView::Aggregate { keys, aggs, .. } => {
            assert((keys + aggs).take(keys.len() as int) =~= keys);
            assert((keys + aggs).skip(keys.len() as int) =~= aggs);
        },
        _ => {},
    }
}

/// Replacing the inputs of a node gives a node with those inputs, and
/// leaves its expressions as they were.
pub proof fn lemma_with_inputs(lp: PlanView, inputs: Seq<Node>)
    requires
        inputs.len() == lp.inputs().len(),
    ensures
        lp.with_inputs(inputs).inputs() =~= inputs,
        lp.with_inputs(inputs).exprs() == lp.exprs(),
        lp.with_inputs(inputs).erased() == lp.erased(),
{
    match lp {
        PlanView::ExtContext { input, contexts, schema } => {
            assert(inputs.drop_last().push(inputs.last()) =~= inputs);
            let z1 = Seq::new(lp.with_inputs(inputs).inputs().len(), |i: int| Node(0));
            let z2 = Seq::new(lp.inputs().len(), |i: int| Node(0));
            assert(z1 =~= z2);
        },
        PlanView::Union { .. } => {
            let z1 = Seq::new(lp.with_inputs(inputs).inputs().len(), |i: int| Node(0));
            let z2 = Seq::new(lp.inputs().len(), |i: int| Node(0));
            assert(z1 =~= z2);
        },
        _ => {},
    }
}

} // verus!
