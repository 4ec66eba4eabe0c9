//! Data frames, series, series builders and output schemas: what the join reads and fills.
//!
//! The types are opaque here. Each is described by what it holds: names are sequences of
//! characters, data types and cells are numbers that stand for them. Two data types have the
//! same number exactly where `DataType` compares them as equal; two cells of one data type have
//! the same number exactly where they hold the same value, in the sense of `TotalEq`: zero and minus
//! zero are one value, and so are all floating point numbers that are not a number.
use vstd::prelude::*;

use polars_arrow::array::builder::ShareStrategy;
use polars_core::frame::column::Column;
use polars_core::frame::DataFrame;
use polars_core::schema::Schema;
use polars_core::series::builder::SeriesBuilder;
use polars_core::series::Series;
use polars_error::PolarsError;

verus! {

/// The most rows that a series can hold: the index type's largest value marks a missing row,
/// and a series must stay below it.
pub const MAX_ROWS: usize = 4294967294;

/// A cell: `None` where it is null, else the number that stands for its value.
pub type Cell = Option<int>;

/// `polars_core::frame::DataFrame`: a list of named columns of one height.
#[verifier::external_type_specification]
#[verifier::external_body]
pub struct ExDataFrame(DataFrame);

/// `polars_core::frame::column::Column`, which indexing into a `DataFrame` gives.
#[verifier::external_type_specification]
#[verifier::external_body]
pub struct ExColumn(Column);

/// `polars_core::series::Series`: a named sequence of cells of one data type.
#[verifier::external_type_specification]
#[verifier::external_body]
pub struct ExSeries(Series);

/// `polars_core::series::builder::SeriesBuilder`: a series that is still being filled.
#[verifier::external_type_specification]
#[verifier::external_body]
pub struct ExSeriesBuilder(SeriesBuilder);

/// `polars_error::PolarsError`: the error of every fallible call below.
#[verifier::external_type_specification]
#[verifier::external_body]
pub struct ExPolarsError(PolarsError);

/// The names of the columns of a frame, from left to right.
pub uninterp spec fn frame_names(df: DataFrame) -> Seq<Seq<char>>;

/// The data types of the columns of a frame, from left to right.
pub uninterp spec fn frame_dtypes(df: DataFrame) -> Seq<int>;

/// The cells of a frame: column by column from left to right, each from top to bottom.
pub uninterp spec fn frame_cells(df: DataFrame) -> Seq<Seq<Option<int>>>;

/// Whether a data type says in full what the values are: `DataType::is_known`.
pub uninterp spec fn dtype_known(dtype: int) -> bool;

/// Whether a column of a frame can be made a series of its data type. A column that repeats one
/// value may hold a value that does not fit the data type.
pub uninterp spec fn column_fits(df: DataFrame, column: int) -> bool;

/// Whether a data type holds values of other data types: `DataType::is_nested`.
pub uninterp spec fn dtype_nested(dtype: int) -> bool;

/// Whether a column of a frame is a series, not one value that is repeated: `Column::as_series`.
pub uninterp spec fn column_is_series(df: DataFrame, column: int) -> bool;

/// Whether the value that a column of a frame repeats makes a series of the column's data type:
/// `Series::from_any_values_and_dtype`.
pub uninterp spec fn column_value_fits(df: DataFrame, column: int) -> bool;

/// Whether a column of a frame, as a series, carries a mask that marks its nulls:
/// `Series::rechunk_validity`. A column without nulls may carry one all the same.
pub uninterp spec fn column_masked(df: DataFrame, column: int) -> bool;

/// The name of a series.
pub uninterp spec fn series_name(s: Series) -> Seq<char>;

/// The data type of a series.
pub uninterp spec fn series_dtype(s: Series) -> int;

/// The cells of a series, from top to bottom.
pub uninterp spec fn series_cells(s: Series) -> Seq<Option<int>>;

/// Whether a series carries a mask that marks its nulls: `Series::rechunk_validity`.
pub uninterp spec fn series_masked(s: Series) -> bool;

/// The data type of the series that a builder makes.
pub uninterp spec fn builder_dtype(b: SeriesBuilder) -> int;

/// The cells that a builder holds so far.
pub uninterp spec fn builder_cells(b: SeriesBuilder) -> Seq<Option<int>>;

/// `DataFrame::height`: the length that every column of the frame has. Nothing is said of the
/// height of a frame without columns.
#[verifier::external_body]
pub(crate) fn frame_height(df: &DataFrame) -> (height: usize)
    ensures
        forall|c: int| 0 <= c < frame_cells(*df).len() ==> #[trigger] frame_cells(*df)[c].len() == height,
{
    df.height()
}

/// `DataFrame::get_column_names`: the names of the columns, in order. A frame has one name, one
/// data type and one sequence of cells for each column.
#[verifier::external_body]
pub(crate) fn column_names(df: &DataFrame) -> (names: Vec<String>)
    ensures
        names@.len() == frame_names(*df).len(),
        names@.len() == frame_dtypes(*df).len(),
        names@.len() == frame_cells(*df).len(),
        forall|c: int| 0 <= c < names@.len() ==> (#[trigger] names@[c])@ == frame_names(*df)[c],
{
    df.get_column_names().into_iter().map(|name| name.to_string()).collect()
}

/// `DataType::eq`, on the data types of a column of each of two frames.
#[verifier::external_body]
pub(crate) fn same_dtype(a: &DataFrame, a_column: usize, b: &DataFrame, b_column: usize) -> (same: bool)
    requires
        a_column < frame_dtypes(*a).len(),
        b_column < frame_dtypes(*b).len(),
    ensures
        same == (frame_dtypes(*a)[a_column as int] == frame_dtypes(*b)[b_column as int]),
{
    a.columns()[a_column].dtype() == b.columns()[b_column].dtype()
}

/// `DataType::is_known`, on the data type of a column of a frame.
#[verifier::external_body]
pub(crate) fn column_is_known(df: &DataFrame, column: usize) -> (known: bool)
    requires
        column < frame_dtypes(*df).len(),
    ensures
        known == dtype_known(frame_dtypes(*df)[column as int]),
{
    df.columns()[column].dtype().is_known()
}

/// `DataType::is_nested`, on the data type of a column of a frame.
#[verifier::external_body]
pub(crate) fn column_is_nested(df: &DataFrame, column: usize) -> (nested: bool)
    requires
        column < frame_dtypes(*df).len(),
    ensures
        nested == dtype_nested(frame_dtypes(*df)[column as int]),
{
    df.columns()[column].dtype().is_nested()
}

/// `Column::as_series`: whether a column of a frame is a series, not one value that is repeated.
/// A series need not be fitted to its data type.
#[verifier::external_body]
pub(crate) fn is_series(df: &DataFrame, column: usize) -> (series: bool)
    requires
        column < frame_dtypes(*df).len(),
    ensures
        series == column_is_series(*df, column as int),
        series ==> column_fits(*df, column as int),
{
    df.columns()[column].as_series().is_some()
}

/// `Series::from_any_values_and_dtype`, strict: whether the value that a column of a frame
/// repeats makes a series of the column's data type. This is how such a column is made a series.
/// Columns that are series are left out, since they repeat no value, and so are data types that
/// hold values of others.
#[verifier::external_body]
pub(crate) fn value_fits(df: &DataFrame, column: usize) -> (fits: bool)
    requires
        column < frame_dtypes(*df).len(),
        !column_is_series(*df, column as int),
        dtype_known(frame_dtypes(*df)[column as int]),
        !dtype_nested(frame_dtypes(*df)[column as int]),
    ensures
        fits == column_value_fits(*df, column as int),
        fits ==> column_fits(*df, column as int),
{
    let repeated = df.columns()[column].as_scalar_column().unwrap();
    let value = repeated.scalar().as_any_value();
    Series::from_any_values_and_dtype(repeated.name().clone(), &[value], repeated.dtype(), true)
        .is_ok()
}

/// `Column::as_materialized_series`: a column of a frame as a series. A column that repeats one
/// value is left out where this value cannot be made a series of the column's data type, since
/// the call panics there or gives a series of another type.
#[verifier::external_body]
pub(crate) fn column_series(df: &DataFrame, column: usize) -> (series: Series)
    requires
        column < frame_cells(*df).len(),
        column_fits(*df, column as int),
    ensures
        series_name(series) == frame_names(*df)[column as int],
        series_dtype(series) == frame_dtypes(*df)[column as int],
        series_cells(series) == frame_cells(*df)[column as int],
        series_masked(series) == column_masked(*df, column as int),
{
    df.columns()[column].as_materialized_series().clone()
}

/// `Series::slice`: the cells from `start` on, `len` of them.
#[verifier::external_body]
pub(crate) fn series_slice(series: &Series, start: usize, len: usize) -> (slice: Series)
    requires
        start + len <= series_cells(*series).len(),
    ensures
        series_name(slice) == series_name(*series),
        series_dtype(slice) == series_dtype(*series),
        series_cells(slice) == series_cells(*series).subrange(start as int, start + len),
{
    series.slice(start as i64, len)
}

/// `SeriesBuilder::subslice_extend`: appends a range of a series of the builder's data type.
/// How buffers are shared has no bearing on the cells.
#[verifier::external_body]
pub(crate) fn subslice_extend(
    builder: &mut SeriesBuilder,
    series: &Series,
    start: usize,
    len: usize,
)
    requires
        series_dtype(*series) == builder_dtype(*old(builder)),
        start + len <= series_cells(*series).len(),
        builder_cells(*old(builder)).len() + len <= MAX_ROWS,
    ensures
        builder_dtype(*final(builder)) == builder_dtype(*old(builder)),
        builder_cells(*final(builder)) == builder_cells(*old(builder)) + series_cells(
            *series,
        ).subrange(start as int, start + len),
{
    builder.subslice_extend(series, start, len, ShareStrategy::Always);
}

/// `SeriesBuilder::subslice_extend_repeated`: appends a range of a series `repeats` times over.
#[verifier::external_body]
pub(crate) fn subslice_extend_repeated(
    builder: &mut SeriesBuilder,
    series: &Series,
    start: usize,
    len: usize,
    repeats: usize,
)
    requires
        series_dtype(*series) == builder_dtype(*old(builder)),
        start + len <= series_cells(*series).len(),
        builder_cells(*old(builder)).len() + len * repeats <= MAX_ROWS,
    ensures
        builder_dtype(*final(builder)) == builder_dtype(*old(builder)),
        builder_cells(*final(builder)) == builder_cells(*old(builder)) + Seq::new(
            (len * repeats) as nat,
            |r: int| series_cells(*series)[start + r % (len as int)],
        ),
{
    builder.subslice_extend_repeated(series, start, len, repeats, ShareStrategy::Always);
}

/// `SeriesBuilder::subslice_extend_each_repeated`: appends a range of a series, each of its
/// cells `repeats` times in a row.
#[verifier::external_body]
pub(crate) fn subslice_extend_each_repeated(
    builder: &mut SeriesBuilder,
    series: &Series,
    start: usize,
    len: usize,
    repeats: usize,
)
    requires
        series_dtype(*series) == builder_dtype(*old(builder)),
        start + len <= series_cells(*series).len(),
        builder_cells(*old(builder)).len() + len * repeats <= MAX_ROWS,
    ensures
        builder_dtype(*final(builder)) == builder_dtype(*old(builder)),
        builder_cells(*final(builder)) == builder_cells(*old(builder)) + Seq::new(
            (len * repeats) as nat,
            |r: int| series_cells(*series)[start + r / (repeats as int)],
        ),
{
    builder.subslice_extend_each_repeated(series, start, len, repeats, ShareStrategy::Always);
}

/// `SeriesBuilder::extend_nulls`: appends `len` nulls.
#[verifier::external_body]
pub(crate) fn extend_nulls(builder: &mut SeriesBuilder, len: usize)
    requires
        builder_cells(*old(builder)).len() + len <= MAX_ROWS,
    ensures
        builder_dtype(*final(builder)) == builder_dtype(*old(builder)),
        builder_cells(*final(builder)) == builder_cells(*old(builder)) + Seq::new(
            len as nat,
            |r: int| None::<int>,
        ),
{
    builder.extend_nulls(len);
}

/// `SeriesBuilder::freeze`: the finished series, under the given name. It panics where the data
/// type is not known in full.
#[verifier::external_body]
pub(crate) fn freeze(builder: SeriesBuilder, name: &String) -> (series: Series)
    requires
        dtype_known(builder_dtype(builder)),
        builder_cells(builder).len() <= MAX_ROWS,
    ensures
        series_name(series) == name@,
        series_dtype(series) == builder_dtype(builder),
        series_cells(series) == builder_cells(builder),
{
    builder.freeze(name.as_str().into())
}

/// `Series::len`: the number of cells.
#[verifier::external_body]
pub(crate) fn series_len(series: &Series) -> (len: usize)
    ensures
        len == series_cells(*series).len(),
{
    series.len()
}

/// `DataFrame::new`: a frame of the given series, from left to right. It is refused exactly where
/// a series has another length than `height` or two of them share a name. A column keeps the series
/// that it was made from, also where it repeats the one value of it.
#[verifier::external_body]
pub(crate) fn frame_from_series(height: usize, columns: Vec<Series>) -> (df: Result<
    DataFrame,
    PolarsError,
>)
    ensures
        df is Ok <==> {
            &&& forall|c: int|
                0 <= c < columns@.len() ==> #[trigger] series_cells(columns@[c]).len() == height
            &&& forall|a: int, b: int|
                0 <= a < b < columns@.len() ==> #[trigger] series_name(columns@[a])
                    != #[trigger] series_name(columns@[b])
        },
        df is Ok ==> {
            &&& frame_names(df->Ok_0) == columns@.map_values(|s: Series| series_name(s))
            &&& frame_dtypes(df->Ok_0) == columns@.map_values(|s: Series| series_dtype(s))
            &&& frame_cells(df->Ok_0) == columns@.map_values(|s: Series| series_cells(s))
            &&& forall|c: int| 0 <= c < columns@.len() ==> #[trigger] column_fits(df->Ok_0, c)
            &&& forall|c: int|
                0 <= c < columns@.len() ==> #[trigger] column_masked(df->Ok_0, c) == series_masked(
                    columns@[c],
                )
        },
{
    DataFrame::new(height, columns.into_iter().map(Column::from).collect())
}

/// A schema: an ordered list of column names, each with a data type.
///
/// It holds a `polars_core::schema::Schema`.
#[verifier::external_body]
pub struct OutputSchema {
    fields: Schema,
}

/// The names in a schema, in order.
pub uninterp spec fn schema_names(schema: OutputSchema) -> Seq<Seq<char>>;

/// The data types in a schema, in the order of the names.
pub uninterp spec fn schema_dtypes(schema: OutputSchema) -> Seq<int>;

/// `Schema::default`: an empty schema.
#[verifier::external_body]
pub(crate) fn empty_schema() -> (schema: OutputSchema)
    ensures
        schema_names(schema) == Seq::<Seq<char>>::empty(),
        schema_dtypes(schema) == Seq::<int>::empty(),
{
    OutputSchema { fields: Schema::default() }
}

/// `Schema::with_column`: appends a name that the schema does not hold yet, with the data type of
/// a column of a frame. Nothing is said of a name that it holds already.
#[verifier::external_body]
pub(crate) fn with_column(
    schema: &mut OutputSchema,
    name: &String,
    df: &DataFrame,
    column: usize,
)
    requires
        column < frame_dtypes(*df).len(),
    ensures
        !schema_names(*old(schema)).contains(name@) ==> {
            &&& schema_names(*final(schema)) == schema_names(*old(schema)).push(name@)
            &&& schema_dtypes(*final(schema)) == schema_dtypes(*old(schema)).push(
                frame_dtypes(*df)[column as int],
            )
        },
{
    schema.fields.with_column(name.as_str().into(), df.columns()[column].dtype().clone());
}

/// `SeriesBuilder::new`, for the data type at a position of a schema: an empty builder. It may
/// panic where the data type is not known in full.
#[verifier::external_body]
pub(crate) fn new_builder(schema: &OutputSchema, position: usize) -> (builder: SeriesBuilder)
    requires
        position < schema_dtypes(*schema).len(),
        dtype_known(schema_dtypes(*schema)[position as int]),
    ensures
        builder_dtype(builder) == schema_dtypes(*schema)[position as int],
        builder_cells(builder) == Seq::<Option<int>>::empty(),
{
    SeriesBuilder::new(schema.fields.get_at_index(position).unwrap().1.clone())
}

} // verus!
