//! Function expressions and the fields they produce.

use vstd::prelude::*;

use crate::datatypes::{DataType, TimeUnit};

pub mod schema;

verus! {

/// Where an expression is evaluated.
#[derive(Clone, Copy, Debug, PartialEq, Eq, Structural)]
pub enum Context {
    /// In a group-by: an expression gives one value for each group.
    Aggregation,
    /// Elsewhere: an expression gives one value for each row.
    Default,
}

/// A span of time: months, weeks and days of the calendar, and a rest in
/// nanoseconds.
#[derive(Clone, Copy, Debug, PartialEq, Eq, Structural)]
pub struct Duration {
    pub months: i64,
    pub weeks: i64,
    pub days: i64,
    pub nsecs: i64,
    pub negative: bool,
}

impl Duration {
    /// The part of the span that is given in nanoseconds.
    pub fn nanoseconds(&self) -> (res: i64)
        ensures
            res == self.nsecs,
    {
        self.nsecs
    }
}

/// Functions on strings.
#[derive(Clone, Copy, Debug, PartialEq, Eq, Structural)]
pub enum StringFunction {
    Contains,
    StartsWith,
    EndsWith,
    CountMatch,
    NChars,
    Length,
    Lowercase,
    Uppercase,
    Extract,
    ExtractAll,
    Strip,
    Zfill,
}

/// Functions on binary values.
#[derive(Clone, Copy, Debug, PartialEq, Eq, Structural)]
pub enum BinaryFunction {
    Contains,
    StartsWith,
    EndsWith,
}

/// Functions that give a truth value.
#[derive(Clone, Copy, Debug, PartialEq, Eq, Structural)]
pub enum BooleanFunction {
    All,
    Any,
    IsNot,
    IsNull,
    IsNotNull,
    IsFinite,
    IsInfinite,
    IsNan,
    IsNotNan,
    IsFirst,
    IsUnique,
    IsDuplicated,
    IsIn,
    AllHorizontal,
    AnyHorizontal,
}

/// Functions on categorical values.
#[derive(Clone, Copy, Debug, PartialEq, Eq, Structural)]
pub enum CategoricalFunction {
    SetOrdering,
    GetCategories,
}

/// Functions on dates and times.
#[derive(Debug)]
pub enum TemporalFunction {
    Year,
    IsLeapYear,
    IsoYear,
    Quarter,
    Month,
    Week,
    WeekDay,
    Day,
    OrdinalDay,
    Time,
    Date,
    Datetime,
    Hour,
    Minute,
    Second,
    Millisecond,
    Microsecond,
    Nanosecond,
    TimeStamp(TimeUnit),
    Truncate,
    MonthStart,
    MonthEnd,
    BaseUtcOffset,
    DSTOffset,
    Round,
    /// Reads the values in another time zone, or in none.
    CastTimezone(Option<String>),
    TzLocalize(String),
    DateRange { every: Duration, time_unit: Option<TimeUnit>, tz: Option<String> },
    TimeRange { every: Duration },
    Combine(TimeUnit),
}

/// Functions that make ranges of integers.
#[derive(Clone, Copy, Debug, PartialEq, Eq, Structural)]
pub enum RangeFunction {
    ARange,
    IntRange,
    IntRanges,
}

/// Functions on lists.
#[derive(Clone, Copy, Debug, PartialEq, Eq, Structural)]
pub enum ListFunction {
    Concat,
    Contains,
    Slice,
    Get,
    Take,
    CountMatch,
    Sum,
    SetOperation,
    Any,
    All,
}

/// Functions on lists of a fixed width.
#[derive(Clone, Copy, Debug, PartialEq, Eq, Structural)]
pub enum ArrayFunction {
    Min,
    Max,
    Sum,
    Unique,
}

/// Functions on structs.
#[derive(Debug)]
pub enum StructFunction {
    /// The field at a position; a negative position counts from the end.
    FieldByIndex(i64),
    FieldByName(String),
}

/// A function that an expression applies.
#[derive(Debug)]
pub enum FunctionExpr {
    Abs,
    NullCount,
    Pow,
    Coalesce,
    Hash,
    ArgWhere,
    SearchSorted,
    StringExpr(StringFunction),
    BinaryExpr(BinaryFunction),
    TemporalExpr(TemporalFunction),
    Range(RangeFunction),
    DateOffset,
    Trigonometry,
    Sign,
    FillNull { super_type: DataType },
    RollingSkew,
    ShiftAndFill,
    DropNans,
    Clip,
    ListExpr(ListFunction),
    ArrayExpr(ArrayFunction),
    StructExpr(StructFunction),
    TopK,
    Shift,
    Reverse,
    Boolean(BooleanFunction),
    Categorical(CategoricalFunction),
    Cumcount,
    Cumsum,
    Cumprod,
    Cummin,
    Cummax,
    ApproxUnique,
    Diff,
    Interpolate,
    ShrinkType,
    Entropy,
    Log,
    Log1p,
    Exp,
    Unique,
    Round,
    Floor,
    Ceil,
    UpperBound,
    LowerBound,
    Fused,
    ConcatExpr,
    Correlation,
    Cut,
    QCut,
    RLE,
    RLEID,
    ToPhysical,
    Random,
    SetSortedFlag,
}

} // verus!
