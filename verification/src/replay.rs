//! Which tasks give the same output when they run again.
use std::sync::Arc;

use vstd::prelude::*;

use crate::backend::LocalShuffleBackend;
use crate::flight::{FlightShuffleReadInput, PartitionRef};
use crate::task::TaskContext;

verus! {

/// The type of a column.
#[derive(Clone, Copy, Debug, PartialEq, Eq, Structural)]
pub enum DataType {
    Null,
    Boolean,
    Int8,
    Int16,
    Int32,
    Int64,
    UInt8,
    UInt16,
    UInt32,
    UInt64,
    Float16,
    Float32,
    Float64,
    Decimal128,
    Timestamp,
    Date,
    Time,
    Duration,
    Interval,
    Binary,
    FixedSizeBinary,
    Uuid,
    Utf8,
    List,
    FixedSizeList,
    Struct,
    Mapping,
    Extension,
    Embedding,
    Image,
    FixedShapeImage,
    Tensor,
    FixedShapeTensor,
    SparseTensor,
    File,
    Python,
    Unknown,
}

impl DataType {
    /// Whether values of this type are plain scalars.
    pub open spec fn is_scalar(self) -> bool {
        !(self is List || self is FixedSizeList || self is Struct || self is Mapping
            || self is Extension || self is Embedding || self is Image || self is FixedShapeImage
            || self is Tensor || self is FixedShapeTensor || self is SparseTensor || self is File
            || self is Python || self is Unknown)
    }
}

/// Whether values of a type are plain scalars.
pub fn scalar_type(dtype: DataType) -> (b: bool)
    ensures
        b == dtype.is_scalar(),
{
    match dtype {
        DataType::Null
        | DataType::Boolean
        | DataType::Int8
        | DataType::Int16
        | DataType::Int32
        | DataType::Int64
        | DataType::UInt8
        | DataType::UInt16
        | DataType::UInt32
        | DataType::UInt64
        | DataType::Float16
        | DataType::Float32
        | DataType::Float64
        | DataType::Decimal128
        | DataType::Timestamp
        | DataType::Date
        | DataType::Time
        | DataType::Duration
        | DataType::Interval
        | DataType::Binary
        | DataType::FixedSizeBinary
        | DataType::Uuid
        | DataType::Utf8 => true,
        _ => false,
    }
}

/// What an expression does.
#[derive(Clone, Copy, Debug, PartialEq, Eq, Structural)]
pub enum ExprKind {
    Column,
    Literal,
    Alias,
    BinaryOp,
    Cast,
    Not,
    IsNull,
    NotNull,
    FillNull,
    IfElse,
    Between,
    IsIn,
    Coalesce,
    /// An aggregate.
    Agg,
    /// A function, be it built in or a user's.
    Function,
    /// A window function, a subquery or another expression.
    Other,
}

impl ExprKind {
    /// Whether the expression gives the same value for the same row each time.
    pub open spec fn is_pure(self) -> bool {
        !(self is Agg || self is Function || self is Other)
    }
}

/// An expression over the rows of a plan.
#[derive(Debug)]
pub struct Expr {
    pub kind: ExprKind,
    /// Its type over those rows; `None` where it has none.
    pub dtype: Option<DataType>,
    pub children: Vec<Expr>,
}

impl Expr {
    /// Whether the expression is made of pure steps on scalars alone.
    pub open spec fn pure(&self) -> bool
        decreases self,
    {
        &&& self.kind.is_pure()
        &&& self.dtype is Some
        &&& self.dtype->0.is_scalar()
        &&& forall|i: int| 0 <= i < self.children@.len() ==> (#[trigger] self.children@[i]).pure()
    }
}

/// Whether an expression is made of pure steps on scalars alone.
pub fn pure_expr(expr: &Expr) -> (b: bool)
    ensures
        b == expr.pure(),
    decreases expr,
{
    let pure_kind: bool = match expr.kind {
        ExprKind::Agg | ExprKind::Function | ExprKind::Other => false,
        _ => true,
    };
    let scalar: bool = match expr.dtype {
        Some(dtype) => scalar_type(dtype),
        None => false,
    };
    if !pure_kind || !scalar {
        return false;
    }
    let mut i: usize = 0;
    while i < expr.children.len()
        invariant
            i <= expr.children@.len(),
            forall|k: int| 0 <= k < i ==> (#[trigger] expr.children@[k]).pure(),
        decreases expr.children@.len() - i,
    {
        if !pure_expr(&expr.children[i]) {
            return false;
        }
        i = i + 1;
    }
    true
}

/// Whether all of some expressions are pure.
pub open spec fn all_pure(exprs: Seq<Expr>) -> bool {
    forall|i: int| 0 <= i < exprs.len() ==> (#[trigger] exprs[i]).pure()
}

fn pure_exprs(exprs: &Vec<Expr>) -> (b: bool)
    ensures
        b == all_pure(exprs@),
{
    let mut i: usize = 0;
    while i < exprs.len()
        invariant
            i <= exprs@.len(),
            forall|k: int| 0 <= k < i ==> (#[trigger] exprs@[k]).pure(),
        decreases exprs@.len() - i,
    {
        if !pure_expr(&exprs[i]) {
            return false;
        }
        i = i + 1;
    }
    true
}

/// What an aggregate computes.
#[derive(Clone, Copy, Debug, PartialEq, Eq, Structural)]
pub enum AggKind {
    Count,
    CountDistinct,
    Sum,
    Min,
    Max,
    Mean,
    BoolAnd,
    BoolOr,
    /// An aggregate that depends on the order of rows, or that runs a user's code.
    Other,
}

/// An aggregate of expressions.
#[derive(Debug)]
pub struct AggExpr {
    pub kind: AggKind,
    pub children: Vec<Expr>,
}

impl AggExpr {
    /// Whether the aggregate gives the same result for the same rows, in any order.
    pub open spec fn safe(&self) -> bool {
        self.kind != AggKind::Other && all_pure(self.children@)
    }
}

/// Whether an aggregate gives the same result for the same rows, in any order.
pub fn safe_agg(agg: &AggExpr) -> (b: bool)
    ensures
        b == agg.safe(),
{
    agg.kind != AggKind::Other && pure_exprs(&agg.children)
}

/// Whether all of some aggregates are safe.
pub open spec fn all_safe(aggs: Seq<AggExpr>) -> bool {
    forall|i: int| 0 <= i < aggs.len() ==> (#[trigger] aggs[i]).safe()
}

fn safe_aggs(aggs: &Vec<AggExpr>) -> (b: bool)
    ensures
        b == all_safe(aggs@),
{
    let mut i: usize = 0;
    while i < aggs.len()
        invariant
            i <= aggs@.len(),
            forall|k: int| 0 <= k < i ==> (#[trigger] aggs@[k]).safe(),
        decreases aggs@.len() - i,
    {
        if !safe_agg(&aggs[i]) {
            return false;
        }
        i = i + 1;
    }
    true
}

/// How rows are assigned to partitions.
#[derive(Debug)]
pub enum RepartitionSpec {
    Hash { by: Vec<Expr> },
    Range { by: Vec<Expr> },
    Random,
}

/// What a node of a plan does.
#[derive(Debug)]
pub enum PlanOp {
    InMemoryScan,
    ShuffleRead,
    Project { projection: Vec<Expr> },
    Filter { predicate: Expr },
    IntoBatches,
    RepartitionWrite { num_partitions: usize, backend: LocalShuffleBackend, spec: RepartitionSpec },
    HashAggregate { group_by: Vec<Expr>, aggregations: Vec<AggExpr> },
    UnGroupedAggregate { aggregations: Vec<AggExpr> },
    /// Anything else.
    Other,
}

/// A plan that runs on one node. Expressions are over the rows of the children.
#[derive(Debug)]
pub struct LocalPhysicalPlan {
    /// The types of the columns that it gives.
    pub schema: Vec<DataType>,
    pub op: PlanOp,
    pub children: Vec<LocalPhysicalPlan>,
}

/// Whether a shuffle writes to a tree that all nodes see.
pub open spec fn is_shared(backend: LocalShuffleBackend) -> bool {
    backend is Flight && backend->shared is Some
}

impl RepartitionSpec {
    /// Whether a row goes to the same partition each time.
    pub open spec fn replayable(&self) -> bool {
        match *self {
            RepartitionSpec::Hash { by } => all_pure(by@),
            RepartitionSpec::Range { by } => all_pure(by@),
            RepartitionSpec::Random => false,
        }
    }
}

impl PlanOp {
    /// Whether the node by itself gives the same output for the same input. Of a producer more
    /// is asked: its aggregates could give rows in another order.
    pub open spec fn replayable(&self, producer: bool) -> bool {
        match *self {
            PlanOp::InMemoryScan => true,
            PlanOp::ShuffleRead => true,
            PlanOp::Project { projection } => all_pure(projection@),
            PlanOp::Filter { predicate } => predicate.pure(),
            PlanOp::IntoBatches => true,
            PlanOp::RepartitionWrite { num_partitions: _, backend, spec } => is_shared(backend)
                && spec.replayable(),
            PlanOp::HashAggregate { group_by, aggregations } => !producer && all_pure(group_by@)
                && all_safe(aggregations@),
            PlanOp::UnGroupedAggregate { aggregations } => !producer && all_safe(aggregations@),
            PlanOp::Other => false,
        }
    }
}

/// Whether all columns hold scalars.
pub open spec fn scalar_schema(schema: Seq<DataType>) -> bool {
    forall|i: int| 0 <= i < schema.len() ==> (#[trigger] schema[i]).is_scalar()
}

impl LocalPhysicalPlan {
    /// Whether the plan gives the same output for the same input.
    pub open spec fn replayable(&self, producer: bool) -> bool
        decreases self,
    {
        &&& scalar_schema(self.schema@)
        &&& self.op.replayable(producer)
        &&& forall|i: int|
            0 <= i < self.children@.len() ==> (#[trigger] self.children@[i]).replayable(producer)
    }
}

fn op_replayable(op: &PlanOp, producer: bool) -> (b: bool)
    ensures
        b == op.replayable(producer),
{
    match op {
        PlanOp::InMemoryScan => true,
        PlanOp::ShuffleRead => true,
        PlanOp::Project { projection } => pure_exprs(projection),
        PlanOp::Filter { predicate } => pure_expr(predicate),
        PlanOp::IntoBatches => true,
        PlanOp::RepartitionWrite { num_partitions: _, backend, spec } => {
            let shared: bool = match backend {
                LocalShuffleBackend::Ray => false,
                LocalShuffleBackend::Flight { shared, .. } => shared.is_some(),
            };
            shared && match spec {
                RepartitionSpec::Hash { by } => pure_exprs(by),
                RepartitionSpec::Range { by } => pure_exprs(by),
                RepartitionSpec::Random => false,
            }
        },
        PlanOp::HashAggregate { group_by, aggregations } => !producer && pure_exprs(group_by)
            && safe_aggs(aggregations),
        PlanOp::UnGroupedAggregate { aggregations } => !producer && safe_aggs(aggregations),
        PlanOp::Other => false,
    }
}

/// Whether a plan gives the same output for the same input.
pub fn plan_replayable(plan: &LocalPhysicalPlan, producer: bool) -> (b: bool)
    ensures
        b == plan.replayable(producer),
    decreases plan,
{
    let mut c: usize = 0;
    while c < plan.schema.len()
        invariant
            c <= plan.schema@.len(),
            forall|k: int| 0 <= k < c ==> (#[trigger] plan.schema@[k]).is_scalar(),
        decreases plan.schema@.len() - c,
    {
        if !scalar_type(plan.schema[c]) {
            return false;
        }
        c = c + 1;
    }
    if !op_replayable(&plan.op, producer) {
        return false;
    }
    let mut i: usize = 0;
    while i < plan.children.len()
        invariant
            i <= plan.children@.len(),
            forall|k: int| 0 <= k < i ==> (#[trigger] plan.children@[k]).replayable(producer),
        decreases plan.children@.len() - i,
    {
        if !plan_replayable(&plan.children[i], producer) {
            return false;
        }
        i = i + 1;
    }
    true
}

/// What a task reads.
#[derive(Debug)]
pub enum Input {
    /// Partitions that are kept in memory.
    InMemory(Arc<Vec<PartitionRef>>),
    /// Files of an earlier shuffle, which do not change.
    FlightShuffle(Arc<Vec<FlightShuffleReadInput>>),
    /// A source, of which nothing says that it still holds the same.
    ScanTasks,
    /// Files by a pattern, of which nothing says that they still hold the same.
    GlobPaths,
}

/// One input of a task, with the node that reads it.
#[derive(Debug)]
pub struct TaskInput {
    pub node_id: u32,
    pub input: Input,
}

/// A task as far as running it again goes.
#[derive(Debug)]
pub struct SwordfishTask {
    pub context: TaskContext,
    pub plan: Arc<LocalPhysicalPlan>,
    pub inputs: Arc<Vec<TaskInput>>,
}

impl Clone for SwordfishTask {
    fn clone(&self) -> (c: SwordfishTask)
        ensures
            c == *self,
    {
        SwordfishTask {
            context: self.context,
            plan: Arc::clone(&self.plan),
            inputs: Arc::clone(&self.inputs),
        }
    }
}

/// Whether all inputs still hold the same.
pub open spec fn stable_inputs(inputs: Seq<TaskInput>) -> bool {
    forall|i: int|
        0 <= i < inputs.len() ==> (#[trigger] inputs[i]).input is InMemory || inputs[i].input
            is FlightShuffle
}

impl SwordfishTask {
    /// Whether the task gives the same output when it runs again.
    pub open spec fn replayable(&self, producer: bool) -> bool {
        stable_inputs(self.inputs@) && self.plan.replayable(producer)
    }

    /// The shuffle that the task writes to a tree that all nodes see, and how many partitions
    /// it writes, where the task can run again for that.
    pub open spec fn produces(&self) -> Option<(u64, usize)> {
        if !self.replayable(true) {
            None
        } else {
            match self.plan.op {
                PlanOp::RepartitionWrite { num_partitions, backend, spec: _ } => match backend {
                    LocalShuffleBackend::Ray => None,
                    LocalShuffleBackend::Flight {
                        shuffle_id,
                        shuffle_dirs: _,
                        compression: _,
                        shared,
                    } => if shared is Some {
                        Some((shuffle_id, num_partitions))
                    } else {
                        None
                    },
                },
                _ => None,
            }
        }
    }
}

/// Whether a task gives the same output when it runs again.
pub fn task_replayable(task: &SwordfishTask, producer: bool) -> (b: bool)
    ensures
        b == task.replayable(producer),
{
    let mut i: usize = 0;
    while i < task.inputs.len()
        invariant
            i <= task.inputs@.len(),
            forall|k: int|
                0 <= k < i ==> (#[trigger] task.inputs@[k]).input is InMemory
                    || task.inputs@[k].input is FlightShuffle,
        decreases task.inputs@.len() - i,
    {
        let stable: bool = match &task.inputs[i].input {
            Input::InMemory(_) => true,
            Input::FlightShuffle(_) => true,
            Input::ScanTasks => false,
            Input::GlobPaths => false,
        };
        if !stable {
            return false;
        }
        i = i + 1;
    }
    plan_replayable(&task.plan, producer)
}

/// The shuffle that a task writes to a tree that all nodes see, and how many partitions it
/// writes, where the task can run again for that.
pub fn producer_spec(task: &SwordfishTask) -> (r: Option<(u64, usize)>)
    ensures
        r == task.produces(),
{
    if !task_replayable(task, true) {
        return None;
    }
    match &task.plan.op {
        PlanOp::RepartitionWrite { num_partitions, backend, spec: _ } => match backend {
            LocalShuffleBackend::Ray => None,
            LocalShuffleBackend::Flight { shuffle_id, shared, .. } => if shared.is_some() {
                Some((*shuffle_id, *num_partitions))
            } else {
                None
            },
        },
        _ => None,
    }
}

/// What can run again as a producer can run again as a consumer.
pub proof fn producers_are_replayable(plan: LocalPhysicalPlan)
    requires
        plan.replayable(true),
    ensures
        plan.replayable(false),
    decreases plan,
{
    assert forall|i: int| 0 <= i < plan.children@.len() implies (
    #[trigger] plan.children@[i]).replayable(false) by {
        producers_are_replayable(plan.children@[i]);
    }
}

/// A task that assigns rows at random, or that reads a source, never stands in for a lost
/// output.
pub proof fn random_outputs_are_not_replayed(task: SwordfishTask)
    ensures
        task.plan.op matches PlanOp::RepartitionWrite { num_partitions: _, backend: _, spec }
            ==> (spec is Random ==> task.produces() is None),
        !stable_inputs(task.inputs@) ==> task.produces() is None,
{
}

/// The plain scalars are nulls, truth values, numbers, points in time and spans of it, and
/// strings of bytes and of characters.
pub proof fn plain_scalars(dtype: DataType)
    ensures
        dtype.is_scalar() <==> {
            ||| dtype is Null || dtype is Boolean
            ||| dtype is Int8 || dtype is Int16 || dtype is Int32 || dtype is Int64
            ||| dtype is UInt8 || dtype is UInt16 || dtype is UInt32 || dtype is UInt64
            ||| dtype is Float16 || dtype is Float32 || dtype is Float64 || dtype is Decimal128
            ||| dtype is Timestamp || dtype is Date || dtype is Time || dtype is Duration || dtype
                is Interval
            ||| dtype is Binary || dtype is FixedSizeBinary || dtype is Uuid || dtype is Utf8
        },
{
}

/// An expression is pure exactly where it neither aggregates nor calls a function nor does
/// anything unknown, has a scalar type, and is made of pure expressions.
pub proof fn pure_expressions_call_nothing(expr: Expr)
    ensures
        expr.pure() <==> {
            &&& expr.kind != ExprKind::Agg
            &&& expr.kind != ExprKind::Function
            &&& expr.kind != ExprKind::Other
            &&& expr.dtype is Some
            &&& expr.dtype->0.is_scalar()
            &&& forall|i: int|
                0 <= i < expr.children@.len() ==> (#[trigger] expr.children@[i]).pure()
        },
{
}

/// Whether an expression stands in another one, so many levels down at most.
pub open spec fn stands_in(inner: Expr, outer: Expr, levels: nat) -> bool
    decreases levels,
{
    inner == outer || (levels > 0 && exists|i: int|
        0 <= i < outer.children@.len() && stands_in(
            inner,
            #[trigger] outer.children@[i],
            (levels - 1) as nat,
        ))
}

/// Nothing that stands anywhere in a pure expression is impure: no function, no aggregate, no
/// value that is not a scalar.
pub proof fn pure_expressions_are_pure_throughout(inner: Expr, outer: Expr, levels: nat)
    requires
        outer.pure(),
        stands_in(inner, outer, levels),
    ensures
        inner.pure(),
        !(inner.kind is Function),
        !(inner.kind is Agg),
        !(inner.kind is Other),
        inner.dtype is Some,
        inner.dtype->0.is_scalar(),
    decreases levels,
{
    if inner != outer {
        let i = choose|i: int|
            0 <= i < outer.children@.len() && stands_in(
                inner,
                #[trigger] outer.children@[i],
                (levels - 1) as nat,
            );
        pure_expressions_are_pure_throughout(inner, outer.children@[i], (levels - 1) as nat);
    }
}

/// An aggregate is safe exactly where it is one of those that do not depend on the order of
/// rows, over pure expressions.
pub proof fn safe_aggregates_ignore_order(agg: AggExpr)
    ensures
        agg.safe() <==> {
            &&& agg.kind is Count || agg.kind is CountDistinct || agg.kind is Sum || agg.kind is Min
                || agg.kind is Max || agg.kind is Mean || agg.kind is BoolAnd || agg.kind is BoolOr
            &&& forall|i: int|
                0 <= i < agg.children@.len() ==> (#[trigger] agg.children@[i]).pure()
        },
{
}

/// What may run again. Scans, reads of a shuffle and batching always may; projections and
/// filters with pure expressions; writes to a shared tree that assign rows by pure expressions;
/// aggregations with pure keys and safe aggregates, but not in a producer; and nothing else.
pub proof fn nodes_that_may_run_again(op: PlanOp, producer: bool)
    ensures
        op is InMemoryScan || op is ShuffleRead || op is IntoBatches ==> op.replayable(producer),
        op is Other ==> !op.replayable(producer),
        op matches PlanOp::Project { projection } ==> (op.replayable(producer) <==> forall|i: int|
            0 <= i < projection@.len() ==> (#[trigger] projection@[i]).pure()),
        op matches PlanOp::Filter { predicate } ==> (op.replayable(producer) <==> predicate.pure()),
        op matches PlanOp::HashAggregate { group_by, aggregations } ==> (op.replayable(producer)
            <==> !producer && (forall|i: int|
            0 <= i < group_by@.len() ==> (#[trigger] group_by@[i]).pure()) && (forall|i: int|
            0 <= i < aggregations@.len() ==> (#[trigger] aggregations@[i]).safe())),
        op matches PlanOp::UnGroupedAggregate { aggregations } ==> (op.replayable(producer)
            <==> !producer && (forall|i: int|
            0 <= i < aggregations@.len() ==> (#[trigger] aggregations@[i]).safe())),
        op matches PlanOp::RepartitionWrite { num_partitions: _, backend, spec } ==> {
            &&& spec is Random ==> !op.replayable(producer)
            &&& backend is Ray ==> !op.replayable(producer)
            &&& backend is Flight && backend->shared is None ==> !op.replayable(producer)
            &&& spec matches RepartitionSpec::Hash { by } ==> (op.replayable(producer) <==> backend
                is Flight && backend->shared is Some && (forall|i: int|
                0 <= i < by@.len() ==> (#[trigger] by@[i]).pure()))
            &&& spec matches RepartitionSpec::Range { by } ==> (op.replayable(producer) <==> backend
                is Flight && backend->shared is Some && (forall|i: int|
                0 <= i < by@.len() ==> (#[trigger] by@[i]).pure()))
        },
{
}

/// A plan may run again exactly where each of its nodes may, and each gives scalars only.
pub proof fn plans_run_again_node_by_node(plan: LocalPhysicalPlan, producer: bool)
    ensures
        plan.replayable(producer) <==> {
            &&& forall|i: int|
                0 <= i < plan.schema@.len() ==> (#[trigger] plan.schema@[i]).is_scalar()
            &&& plan.op.replayable(producer)
            &&& forall|i: int|
                0 <= i < plan.children@.len() ==> (#[trigger] plan.children@[i]).replayable(
                    producer,
                )
        },
{
}

/// A task may run again exactly where its plan may and it reads nothing but partitions in memory
/// and files of an earlier shuffle.
pub proof fn tasks_run_again_on_stable_inputs(task: SwordfishTask, producer: bool)
    ensures
        task.replayable(producer) <==> {
            &&& task.plan.replayable(producer)
            &&& forall|i: int|
                0 <= i < task.inputs@.len() ==> !((#[trigger] task.inputs@[i]).input is ScanTasks)
                    && !(task.inputs@[i].input is GlobPaths)
        },
{
    if task.replayable(producer) {
        assert forall|i: int| 0 <= i < task.inputs@.len() implies !((
        #[trigger] task.inputs@[i]).input is ScanTasks) && !(task.inputs@[i].input is GlobPaths) by {
            assert(task.inputs@[i].input is InMemory || task.inputs@[i].input is FlightShuffle);
        }
    }
}

/// A task stands in for a lost output exactly where it may run again as a producer and writes a
/// shuffle to a tree that all nodes see; it stands in for all partitions of that shuffle that it
/// writes.
pub proof fn producers_write_shared_shuffles(task: SwordfishTask, id: u64, count: usize)
    ensures
        task.produces() == Some((id, count)) <==> {
            &&& task.replayable(true)
            &&& task.plan.op is RepartitionWrite
            &&& task.plan.op->num_partitions == count
            &&& task.plan.op->backend is Flight
            &&& task.plan.op->backend->shuffle_id == id
            &&& task.plan.op->backend->shared is Some
        },
{
}

} // verus!
