//! The inputs of a join: which frames and keys it accepts, and which columns its result has.
use vstd::prelude::*;

use polars_core::frame::DataFrame;

use crate::frames::{
    column_fits, column_is_known, column_is_nested, column_is_series, column_names,
    column_value_fits, dtype_known, dtype_nested, empty_schema, frame_cells, frame_dtypes,
    frame_names, is_series, same_dtype, schema_dtypes, schema_names, value_fits, with_column,
    OutputSchema,
};
use crate::names::{
    empty_set, find_name, insert_name, names_in, position_of, text, NameSet,
};

verus! {

/// Why frames could not be joined. Inputs, keys and columns are given by their positions.
#[derive(Debug, Clone, Copy, PartialEq, Eq, Structural)]
pub enum JoinManyError {
    /// There are fewer than two frames.
    TooFewInputs,
    /// There is no key column.
    NoKeys,
    /// A key is named twice.
    DuplicateKey { key: usize },
    /// An input has no column of the name of a key.
    MissingKey { input: usize, key: usize },
    /// A key column of an input has another data type than that of the first input.
    KeyTypeMismatch { input: usize, key: usize },
    /// A column that is no key has the name of another such column before it.
    DuplicateColumn { input: usize, column: usize },
    /// The number of rows of a group is too large for a machine integer.
    SizeOverflow,
    /// The result has more rows than a series can hold.
    TooManyRows,
}

/// The key repeats one before it.
pub open spec fn duplicate_key(keys: Seq<Seq<char>>, k: int) -> bool {
    exists|j: int| 0 <= j < k && #[trigger] keys[j] == keys[k]
}

/// The data type of the column of the given name.
pub open spec fn key_dtype(df: DataFrame, name: Seq<char>) -> int {
    frame_dtypes(df)[position_of(frame_names(df), name)]
}

/// An input lacks the column of a key.
pub open spec fn missing_key(
    dfs: Seq<DataFrame>,
    keys: Seq<Seq<char>>,
    input: int,
    k: int,
) -> bool {
    !frame_names(dfs[input]).contains(keys[k])
}

/// An input lacks the column of a key, or has it with another data type than the first input.
pub open spec fn bad_key(dfs: Seq<DataFrame>, keys: Seq<Seq<char>>, input: int, k: int) -> bool {
    missing_key(dfs, keys, input, k) || key_dtype(dfs[input], keys[k]) != key_dtype(
        dfs[0],
        keys[k],
    )
}

/// The place `(i, j)` comes before the place `(input, position)`.
pub open spec fn earlier(i: int, j: int, input: int, position: int) -> bool {
    i < input || (i == input && j < position)
}

/// A key column of an input is bad, and none before it is: by input, then by key.
pub open spec fn first_bad_key(
    dfs: Seq<DataFrame>,
    keys: Seq<Seq<char>>,
    input: int,
    k: int,
) -> bool {
    &&& 0 <= input < dfs.len()
    &&& 0 <= k < keys.len()
    &&& bad_key(dfs, keys, input, k)
    &&& forall|i: int, j: int|
        0 <= i < dfs.len() && 0 <= j < keys.len() && earlier(i, j, input, k) ==> !#[trigger] bad_key(
            dfs,
            keys,
            i,
            j,
        )
}

/// A column of an input that is no key column.
pub open spec fn payload(dfs: Seq<DataFrame>, keys: Seq<Seq<char>>, input: int, c: int) -> bool {
    &&& 0 <= input < dfs.len()
    &&& 0 <= c < frame_names(dfs[input]).len()
    &&& !keys.contains(frame_names(dfs[input])[c])
}

/// A column that is no key column repeats the name of one before it: by input, then by position.
pub open spec fn repeated_column(
    dfs: Seq<DataFrame>,
    keys: Seq<Seq<char>>,
    input: int,
    c: int,
) -> bool {
    &&& payload(dfs, keys, input, c)
    &&& exists|i: int, d: int|
        earlier(i, d, input, c) && #[trigger] payload(dfs, keys, i, d) && frame_names(dfs[i])[d]
            == frame_names(dfs[input])[c]
}

/// The first column that repeats a name.
pub open spec fn first_repeated_column(
    dfs: Seq<DataFrame>,
    keys: Seq<Seq<char>>,
    input: int,
    c: int,
) -> bool {
    &&& repeated_column(dfs, keys, input, c)
    &&& forall|i: int, d: int|
        earlier(i, d, input, c) ==> !#[trigger] repeated_column(dfs, keys, i, d)
}

/// No key is named twice.
pub open spec fn keys_distinct(keys: Seq<Seq<char>>) -> bool {
    forall|k: int| 0 <= k < keys.len() ==> !#[trigger] duplicate_key(keys, k)
}

/// The first input has the columns of the first `n` keys.
pub open spec fn first_has_keys(dfs: Seq<DataFrame>, keys: Seq<Seq<char>>, n: int) -> bool {
    forall|k: int| 0 <= k < n ==> !#[trigger] missing_key(dfs, keys, 0, k)
}

/// No two columns share a name, but for key columns.
pub open spec fn no_repeated_column(dfs: Seq<DataFrame>, keys: Seq<Seq<char>>) -> bool {
    forall|i: int, c: int| !#[trigger] repeated_column(dfs, keys, i, c)
}

/// There are two frames and one key at least, and the keys are distinct.
pub open spec fn keys_usable(dfs: Seq<DataFrame>, keys: Seq<Seq<char>>) -> bool {
    &&& dfs.len() >= 2
    &&& keys.len() >= 1
    &&& keys_distinct(keys)
}

/// Every input has every key column, with the same data type throughout.
pub open spec fn keys_present(dfs: Seq<DataFrame>, keys: Seq<Seq<char>>) -> bool {
    forall|i: int, k: int|
        0 <= i < dfs.len() && 0 <= k < keys.len() ==> !#[trigger] bad_key(dfs, keys, i, k)
}

/// The frames can be joined on the keys.
pub open spec fn accepted(dfs: Seq<DataFrame>, keys: Seq<Seq<char>>) -> bool {
    &&& keys_usable(dfs, keys)
    &&& keys_present(dfs, keys)
    &&& no_repeated_column(dfs, keys)
}

/// A column has a data type that is known in full, and values of this type.
pub open spec fn column_sound(df: DataFrame, c: int) -> bool {
    dtype_known(frame_dtypes(df)[c]) && column_fits(df, c)
}

/// All columns of a frame can be read and built.
pub open spec fn frame_sound(df: DataFrame) -> bool {
    forall|c: int| 0 <= c < frame_dtypes(df).len() ==> #[trigger] column_sound(df, c)
}

/// All columns of the frames can be read and built.
pub open spec fn all_sound(dfs: Seq<DataFrame>) -> bool {
    forall|i: int, c: int|
        0 <= i < dfs.len() && 0 <= c < frame_dtypes(dfs[i]).len() ==> #[trigger] column_sound(
            dfs[i],
            c,
        )
}

/// A column has a data type that is known in full, and is a series or repeats a plain value of
/// this type.
pub open spec fn column_ready(df: DataFrame, c: int) -> bool {
    &&& dtype_known(frame_dtypes(df)[c])
    &&& column_is_series(df, c) || (!dtype_nested(frame_dtypes(df)[c]) && column_value_fits(df, c))
}

/// All columns of the frames have data types that are known in full, and are series or repeat
/// plain values of these types.
pub open spec fn all_ready(dfs: Seq<DataFrame>) -> bool {
    forall|i: int, c: int|
        0 <= i < dfs.len() && 0 <= c < frame_dtypes(dfs[i]).len() ==> #[trigger] column_ready(
            dfs[i],
            c,
        )
}

/// The frames are refused for the given reason.
pub open spec fn refused(dfs: Seq<DataFrame>, keys: Seq<Seq<char>>, error: JoinManyError) -> bool {
    match error {
        JoinManyError::TooFewInputs => dfs.len() < 2,
        JoinManyError::NoKeys => dfs.len() >= 2 && keys.len() == 0,
        JoinManyError::DuplicateKey { key } => {
            &&& dfs.len() >= 2
            &&& key < keys.len()
            &&& duplicate_key(keys, key as int)
            &&& forall|k: int| 0 <= k < key ==> !#[trigger] duplicate_key(keys, k)
        },
        JoinManyError::MissingKey { input, key } => {
            &&& keys_usable(dfs, keys)
            &&& first_bad_key(dfs, keys, input as int, key as int)
            &&& missing_key(dfs, keys, input as int, key as int)
        },
        JoinManyError::KeyTypeMismatch { input, key } => {
            &&& keys_usable(dfs, keys)
            &&& first_bad_key(dfs, keys, input as int, key as int)
            &&& !missing_key(dfs, keys, input as int, key as int)
        },
        JoinManyError::DuplicateColumn { input, column } => {
            &&& keys_usable(dfs, keys)
            &&& keys_present(dfs, keys)
            &&& first_repeated_column(dfs, keys, input as int, column as int)
        },
        JoinManyError::SizeOverflow => false,
        JoinManyError::TooManyRows => false,
    }
}

/// The frames' column names have been read.
pub open spec fn names_read(dfs: Seq<DataFrame>, names: Seq<Vec<String>>) -> bool {
    &&& names.len() == dfs.len()
    &&& forall|i: int|
        0 <= i < dfs.len() ==> {
            &&& text((#[trigger] names[i])@) == frame_names(dfs[i])
            &&& names[i]@.len() == frame_dtypes(dfs[i]).len()
            &&& names[i]@.len() == frame_cells(dfs[i]).len()
        }
}

/// Reads the names of the columns of every frame.
pub(crate) fn read_names(dfs: &[DataFrame]) -> (names: Vec<Vec<String>>)
    ensures
        names_read(dfs@, names@),
{
    let mut names: Vec<Vec<String>> = Vec::new();
    let mut i: usize = 0;
    while i < dfs.len()
        invariant
            i <= dfs@.len(),
            names@.len() == i,
            forall|j: int|
                0 <= j < i ==> {
                    &&& text((#[trigger] names@[j])@) == frame_names(dfs@[j])
                    &&& names@[j]@.len() == frame_dtypes(dfs@[j]).len()
                    &&& names@[j]@.len() == frame_cells(dfs@[j]).len()
                },
        decreases dfs@.len() - i,
    {
        let list = column_names(&dfs[i]);
        assert(text(list@) =~= frame_names(dfs@[i as int]));
        names.push(list);
        i += 1;
    }
    names
}

/// Checks that there are enough frames and keys and that no key is named twice.
pub(crate) fn check_keys(dfs: &[DataFrame], keys: &[String]) -> (checked: Result<(), JoinManyError>)
    ensures
        match checked {
            Ok(()) => keys_usable(dfs@, text(keys@)),
            Err(error) => refused(dfs@, text(keys@), error),
        },
{
    let ghost wanted = text(keys@);
    if dfs.len() < 2 {
        return Err(JoinManyError::TooFewInputs);
    }
    if keys.len() == 0 {
        return Err(JoinManyError::NoKeys);
    }
    let mut seen: NameSet = empty_set();
    let mut k: usize = 0;
    while k < keys.len()
        invariant
            dfs@.len() >= 2,
            wanted == text(keys@),
            k <= keys@.len(),
            forall|name: Seq<char>| #[trigger]
                names_in(seen).contains(name) <==> exists|j: int|
                    0 <= j < k && #[trigger] wanted[j] == name,
            forall|j: int| 0 <= j < k ==> !#[trigger] duplicate_key(wanted, j),
        decreases keys@.len() - k,
    {
        assert(wanted[k as int] == keys@[k as int]@);
        let ghost before = names_in(seen);
        if !insert_name(&mut seen, &keys[k]) {
            assert(duplicate_key(wanted, k as int));
            return Err(JoinManyError::DuplicateKey { key: k });
        }
        assert forall|name: Seq<char>| #[trigger] names_in(seen).contains(name) <==> exists|j: int|
            0 <= j < k + 1 && #[trigger] wanted[j] == name by {
            if before.contains(name) {
                let j = choose|j: int| 0 <= j < k && #[trigger] wanted[j] == name;
                assert(0 <= j < k + 1 && wanted[j] == name);
            }
            if name == wanted[k as int] {
                assert(0 <= k < k + 1 && wanted[k as int] == name);
            }
        }
        assert(!duplicate_key(wanted, k as int));
        k += 1;
    }
    Ok(())
}

/// Checks that every input has every key column, with one data type throughout.
pub(crate) fn check_columns(dfs: &[DataFrame], keys: &[String], names: &Vec<Vec<String>>) -> (checked: Result<
    (),
    JoinManyError,
>)
    requires
        keys_usable(dfs@, text(keys@)),
        names_read(dfs@, names@),
    ensures
        match checked {
            Ok(()) => keys_present(dfs@, text(keys@)),
            Err(error) => refused(dfs@, text(keys@), error),
        },
{
    let ghost wanted = text(keys@);
    let mut i: usize = 0;
    while i < dfs.len()
        invariant
            keys_usable(dfs@, wanted),
            wanted == text(keys@),
            names_read(dfs@, names@),
            i <= dfs@.len(),
            forall|a: int, b: int|
                0 <= a < i && 0 <= b < wanted.len() ==> !#[trigger] bad_key(dfs@, wanted, a, b),
        decreases dfs@.len() - i,
    {
        let mut k: usize = 0;
        while k < keys.len()
            invariant
                keys_usable(dfs@, wanted),
                wanted == text(keys@),
                names_read(dfs@, names@),
                i < dfs@.len(),
                k <= keys@.len(),
                forall|a: int, b: int|
                    0 <= a < dfs@.len() && 0 <= b < wanted.len() && earlier(a, b, i as int, k as int)
                        ==> !#[trigger] bad_key(dfs@, wanted, a, b),
            decreases keys@.len() - k,
        {
            assert(wanted[k as int] == keys@[k as int]@);
            assert(text(names@[i as int]@) == frame_names(dfs@[i as int]));
            assert(text(names@[0]@) == frame_names(dfs@[0]));
            match find_name(names[i].as_slice(), &keys[k]) {
                None => {
                    assert(first_bad_key(dfs@, wanted, i as int, k as int));
                    return Err(JoinManyError::MissingKey { input: i, key: k });
                },
                Some(here) => {
                    assert(frame_names(dfs@[i as int])[here as int] == wanted[k as int]);
                    if i > 0 {
                        match find_name(names[0].as_slice(), &keys[k]) {
                            None => {
                                assert(!bad_key(dfs@, wanted, 0, k as int));
                            },
                            Some(there) => {
                                if !same_dtype(&dfs[i], here, &dfs[0], there) {
                                    assert(first_bad_key(dfs@, wanted, i as int, k as int));
                                    return Err(
                                        JoinManyError::KeyTypeMismatch { input: i, key: k },
                                    );
                                }
                            },
                        }
                    }
                    assert(!bad_key(dfs@, wanted, i as int, k as int));
                },
            }
            k += 1;
        }
        i += 1;
    }
    Ok(())
}

/// Tests whether a column is of a data type that is known in full, and a series or a repeated plain
/// value of this type.
fn is_ready(df: &DataFrame, c: usize) -> (ready: bool)
    requires
        c < frame_dtypes(*df).len(),
    ensures
        ready == column_ready(*df, c as int),
        ready ==> column_sound(*df, c as int),
{
    column_is_known(df, c) && (is_series(df, c) || (!column_is_nested(df, c) && value_fits(df, c)))
}

/// Tests whether all columns are of data types that are known in full, and series or repeated plain
/// values of these types. Such frames can be read and built.
pub(crate) fn check_ready(dfs: &[DataFrame], names: &Vec<Vec<String>>) -> (ready: bool)
    requires
        names_read(dfs@, names@),
    ensures
        ready == all_ready(dfs@),
        ready ==> all_sound(dfs@),
{
    let mut i: usize = 0;
    while i < dfs.len()
        invariant
            names_read(dfs@, names@),
            i <= dfs@.len(),
            forall|a: int, c: int|
                0 <= a < i && 0 <= c < frame_dtypes(dfs@[a]).len() ==> #[trigger] column_ready(
                    dfs@[a],
                    c,
                ),
            forall|a: int, c: int|
                0 <= a < i && 0 <= c < frame_dtypes(dfs@[a]).len() ==> #[trigger] column_sound(
                    dfs@[a],
                    c,
                ),
        decreases dfs@.len() - i,
    {
        let ghost df = dfs@[i as int];
        assert(text(names@[i as int]@) == frame_names(df));
        let mut c: usize = 0;
        while c < names[i].len()
            invariant
                i < dfs@.len(),
                i < names@.len(),
                df == dfs@[i as int],
                names@[i as int]@.len() == frame_dtypes(df).len(),
                c <= names@[i as int]@.len(),
                forall|d: int| 0 <= d < c ==> #[trigger] column_ready(df, d),
                forall|d: int| 0 <= d < c ==> #[trigger] column_sound(df, d),
            decreases names@[i as int]@.len() - c,
        {
            if !is_ready(&dfs[i], c) {
                assert(!column_ready(dfs@[i as int], c as int));
                return false;
            }
            assert(column_ready(df, c as int));
            c += 1;
        }
        i += 1;
    }
    true
}

/// Where the cells of a column of the result come from.
#[derive(Debug, Clone, Copy, PartialEq, Eq, Structural)]
pub enum Source {
    /// A key column.
    Key { key: usize },
    /// A column of an input that is no key column.
    Payload { input: usize, column: usize },
}

/// The key columns of the result: the keys in their order, the first `m` of them.
pub open spec fn key_sources(m: nat) -> Seq<Source> {
    Seq::new(m, |k: int| Source::Key { key: k as usize })
}

/// The columns of an input that are no key columns, among its first `n`, from left to right.
pub open spec fn payload_sources(
    dfs: Seq<DataFrame>,
    keys: Seq<Seq<char>>,
    input: int,
    n: int,
) -> Seq<Source>
    decreases n,
{
    if n <= 0 {
        Seq::empty()
    } else if payload(dfs, keys, input, n - 1) {
        payload_sources(dfs, keys, input, n - 1).push(
            Source::Payload { input: input as usize, column: (n - 1) as usize },
        )
    } else {
        payload_sources(dfs, keys, input, n - 1)
    }
}

/// The columns of the first `n` inputs that are no key columns, input by input.
pub open spec fn all_payload_sources(
    dfs: Seq<DataFrame>,
    keys: Seq<Seq<char>>,
    n: int,
) -> Seq<Source>
    decreases n,
{
    if n <= 0 {
        Seq::empty()
    } else {
        all_payload_sources(dfs, keys, n - 1) + payload_sources(
            dfs,
            keys,
            n - 1,
            frame_names(dfs[n - 1]).len() as int,
        )
    }
}

/// The columns of the result: the keys, then what else the inputs hold.
pub open spec fn output_sources(dfs: Seq<DataFrame>, keys: Seq<Seq<char>>) -> Seq<Source> {
    key_sources(keys.len()) + all_payload_sources(dfs, keys, dfs.len() as int)
}

/// The name of a column of the result.
pub open spec fn source_name(
    dfs: Seq<DataFrame>,
    keys: Seq<Seq<char>>,
    source: Source,
) -> Seq<char> {
    match source {
        Source::Key { key } => keys[key as int],
        Source::Payload { input, column } => frame_names(dfs[input as int])[column as int],
    }
}

/// The data type of a column of the result: that of the first input for a key column.
pub open spec fn source_dtype(dfs: Seq<DataFrame>, keys: Seq<Seq<char>>, source: Source) -> int {
    match source {
        Source::Key { key } => key_dtype(dfs[0], keys[key as int]),
        Source::Payload { input, column } => frame_dtypes(dfs[input as int])[column as int],
    }
}

/// The names of the columns of the result.
pub open spec fn names_of(
    dfs: Seq<DataFrame>,
    keys: Seq<Seq<char>>,
    sources: Seq<Source>,
) -> Seq<Seq<char>> {
    sources.map_values(|s: Source| source_name(dfs, keys, s))
}

/// The data types of the columns of the result.
pub open spec fn dtypes_for(
    dfs: Seq<DataFrame>,
    keys: Seq<Seq<char>>,
    sources: Seq<Source>,
) -> Seq<int> {
    sources.map_values(|s: Source| source_dtype(dfs, keys, s))
}

/// A column of the result comes from a key or from a column that is no key column.
pub open spec fn source_valid(dfs: Seq<DataFrame>, keys: Seq<Seq<char>>, source: Source) -> bool {
    match source {
        Source::Key { key } => key < keys.len(),
        Source::Payload { input, column } => payload(dfs, keys, input as int, column as int),
    }
}

/// The columns of the result: where they come from, their names, and their schema.
pub struct OutputColumns {
    /// Where the cells come from.
    pub sources: Vec<Source>,
    /// The names.
    pub names: Vec<String>,
    /// The names with the data types.
    pub schema: OutputSchema,
}

/// The columns come from `sources` and have the names and data types of these.
pub open spec fn columns_from(
    dfs: Seq<DataFrame>,
    keys: Seq<Seq<char>>,
    columns: OutputColumns,
    sources: Seq<Source>,
) -> bool {
    &&& columns.sources@ == sources
    &&& text(columns.names@) == names_of(dfs, keys, sources)
    &&& schema_names(columns.schema) == names_of(dfs, keys, sources)
    &&& schema_dtypes(columns.schema) == dtypes_for(dfs, keys, sources)
    &&& forall|i: int| 0 <= i < sources.len() ==> source_valid(dfs, keys, #[trigger] sources[i])
    &&& forall|a: int, b: int|
        0 <= a < b < sources.len() ==> source_name(dfs, keys, #[trigger] sources[a]) != source_name(
            dfs,
            keys,
            #[trigger] sources[b],
        )
}

proof fn lemma_columns_extend(
    dfs: Seq<DataFrame>,
    keys: Seq<Seq<char>>,
    sources: Seq<Source>,
    source: Source,
)
    ensures
        names_of(dfs, keys, sources.push(source)) == names_of(dfs, keys, sources).push(
            source_name(dfs, keys, source),
        ),
        dtypes_for(dfs, keys, sources.push(source)) == dtypes_for(dfs, keys, sources).push(
            source_dtype(dfs, keys, source),
        ),
{
    assert(names_of(dfs, keys, sources.push(source)) =~= names_of(dfs, keys, sources).push(
        source_name(dfs, keys, source),
    ));
    assert(dtypes_for(dfs, keys, sources.push(source)) =~= dtypes_for(dfs, keys, sources).push(
        source_dtype(dfs, keys, source),
    ));
}

/// Appends a column of the result that comes from a column of a frame.
fn push_column(
    columns: &mut OutputColumns,
    Ghost(dfs): Ghost<Seq<DataFrame>>,
    Ghost(keys): Ghost<Seq<Seq<char>>>,
    source: Source,
    name: &String,
    df: &DataFrame,
    column: usize,
)
    requires
        columns_from(dfs, keys, *old(columns), old(columns).sources@),
        source_valid(dfs, keys, source),
        name@ == source_name(dfs, keys, source),
        column < frame_dtypes(*df).len(),
        frame_dtypes(*df)[column as int] == source_dtype(dfs, keys, source),
        forall|i: int|
            0 <= i < old(columns).sources@.len() ==> source_name(
                dfs,
                keys,
                #[trigger] old(columns).sources@[i],
            ) != name@,
    ensures
        columns_from(dfs, keys, *final(columns), old(columns).sources@.push(source)),
{
    proof {
        lemma_columns_extend(dfs, keys, columns.sources@, source);
        let names = names_of(dfs, keys, columns.sources@);
        assert(!names.contains(name@)) by {
            if names.contains(name@) {
                let i = choose|i: int| 0 <= i < names.len() && names[i] == name@;
                assert(source_name(dfs, keys, columns.sources@[i]) == name@);
            }
        }
    }
    columns.sources.push(source);
    columns.names.push(name.clone());
    with_column(&mut columns.schema, name, df, column);
    assert(text(columns.names@) =~= text(old(columns).names@).push(name@));
}

/// Some column before the place `(input, c)` that is no key column has the name.
spec fn named_before(
    dfs: Seq<DataFrame>,
    keys: Seq<Seq<char>>,
    input: int,
    c: int,
    name: Seq<char>,
) -> bool {
    exists|i: int, d: int|
        earlier(i, d, input, c) && #[trigger] payload(dfs, keys, i, d) && frame_names(dfs[i])[d]
            == name
}

/// The set holds the names of the columns before the place `(input, c)` that are no key columns.
spec fn seen_before(
    dfs: Seq<DataFrame>,
    keys: Seq<Seq<char>>,
    input: int,
    c: int,
    seen: Set<Seq<char>>,
) -> bool {
    forall|name: Seq<char>| #[trigger]
        seen.contains(name) <==> named_before(dfs, keys, input, c, name)
}

/// The columns taken so far come from keys or have names in the set.
spec fn sources_seen(
    dfs: Seq<DataFrame>,
    keys: Seq<Seq<char>>,
    sources: Seq<Source>,
    seen: Set<Seq<char>>,
) -> bool {
    forall|i: int|
        0 <= i < sources.len() ==> keys.contains(
            source_name(dfs, keys, #[trigger] sources[i]),
        ) || seen.contains(source_name(dfs, keys, sources[i]))
}

proof fn lemma_seen_step(
    dfs: Seq<DataFrame>,
    keys: Seq<Seq<char>>,
    input: int,
    c: int,
    seen: Set<Seq<char>>,
)
    requires
        0 <= input < dfs.len(),
        0 <= c < frame_names(dfs[input]).len(),
        seen_before(dfs, keys, input, c, seen),
    ensures
        payload(dfs, keys, input, c) ==> seen_before(
            dfs,
            keys,
            input,
            c + 1,
            seen.insert(frame_names(dfs[input])[c]),
        ),
        !payload(dfs, keys, input, c) ==> seen_before(dfs, keys, input, c + 1, seen),
{
    let name = frame_names(dfs[input])[c];
    let more = if payload(dfs, keys, input, c) {
        seen.insert(name)
    } else {
        seen
    };
    assert forall|other: Seq<char>| #[trigger] more.contains(other) <==> named_before(
        dfs,
        keys,
        input,
        c + 1,
        other,
    ) by {
        if seen.contains(other) {
            let (i, d) = choose|i: int, d: int|
                earlier(i, d, input, c) && #[trigger] payload(dfs, keys, i, d) && frame_names(
                    dfs[i],
                )[d] == other;
            assert(earlier(i, d, input, c + 1) && payload(dfs, keys, i, d));
        } else if more.contains(other) {
            assert(earlier(input, c, input, c + 1) && payload(dfs, keys, input, c));
        }
        if named_before(dfs, keys, input, c + 1, other) {
            let (i, d) = choose|i: int, d: int|
                earlier(i, d, input, c + 1) && #[trigger] payload(dfs, keys, i, d) && frame_names(
                    dfs[i],
                )[d] == other;
            if earlier(i, d, input, c) {
                assert(named_before(dfs, keys, input, c, other));
            } else {
                assert(i == input && d == c);
            }
        }
    }
}

/// The columns of an input end where the next input begins.
proof fn lemma_seen_next_input(
    dfs: Seq<DataFrame>,
    keys: Seq<Seq<char>>,
    input: int,
    seen: Set<Seq<char>>,
)
    requires
        0 <= input < dfs.len(),
        seen_before(dfs, keys, input, frame_names(dfs[input]).len() as int, seen),
    ensures
        seen_before(dfs, keys, input + 1, 0, seen),
{
    let end = frame_names(dfs[input]).len() as int;
    assert forall|other: Seq<char>| #[trigger] seen.contains(other) <==> named_before(
        dfs,
        keys,
        input + 1,
        0,
        other,
    ) by {
        if seen.contains(other) {
            let (i, d) = choose|i: int, d: int|
                earlier(i, d, input, end) && #[trigger] payload(dfs, keys, i, d) && frame_names(
                    dfs[i],
                )[d] == other;
            assert(earlier(i, d, input + 1, 0) && payload(dfs, keys, i, d));
        }
        if named_before(dfs, keys, input + 1, 0, other) {
            let (i, d) = choose|i: int, d: int|
                earlier(i, d, input + 1, 0) && #[trigger] payload(dfs, keys, i, d) && frame_names(
                    dfs[i],
                )[d] == other;
            assert(earlier(i, d, input, end) && payload(dfs, keys, i, d));
        }
    }
}

/// Lists the columns of the result: the keys, then what else the inputs hold. A key that the first
/// input lacks is refused, and so is a name that two columns share, neither of them a key column.
pub(crate) fn build_output_schema(dfs: &[DataFrame], keys: &[String], names: &Vec<Vec<String>>) -> (built:
    Result<OutputColumns, JoinManyError>)
    requires
        keys@.len() > 0 ==> dfs@.len() > 0,
        keys_distinct(text(keys@)),
        names_read(dfs@, names@),
    ensures
        match built {
            Ok(columns) => {
                &&& first_has_keys(dfs@, text(keys@), keys@.len() as int)
                &&& no_repeated_column(dfs@, text(keys@))
                &&& columns_from(
                    dfs@,
                    text(keys@),
                    columns,
                    output_sources(dfs@, text(keys@)),
                )
            },
            Err(JoinManyError::MissingKey { input, key }) => {
                &&& input == 0
                &&& key < keys@.len()
                &&& missing_key(dfs@, text(keys@), 0, key as int)
                &&& first_has_keys(dfs@, text(keys@), key as int)
            },
            Err(JoinManyError::DuplicateColumn { input, column }) => {
                &&& first_has_keys(dfs@, text(keys@), keys@.len() as int)
                &&& first_repeated_column(dfs@, text(keys@), input as int, column as int)
            },
            Err(_) => false,
        },
{
    let ghost wanted = text(keys@);
    let mut columns = OutputColumns {
        sources: Vec::new(),
        names: Vec::new(),
        schema: empty_schema(),
    };
    assert(text(columns.names@) =~= names_of(dfs@, wanted, columns.sources@));
    assert(schema_names(columns.schema) =~= names_of(dfs@, wanted, columns.sources@));
    assert(schema_dtypes(columns.schema) =~= dtypes_for(dfs@, wanted, columns.sources@));
    assert(columns.sources@ =~= key_sources(0));
    let mut k: usize = 0;
    while k < keys.len()
        invariant
            keys@.len() > 0 ==> dfs@.len() > 0,
            keys_distinct(wanted),
            first_has_keys(dfs@, wanted, k as int),
            wanted == text(keys@),
            names_read(dfs@, names@),
            k <= keys@.len(),
            columns_from(dfs@, wanted, columns, key_sources(k as nat)),
        decreases keys@.len() - k,
    {
        let ghost source = Source::Key { key: k };
        assert(wanted[k as int] == keys@[k as int]@);
        assert(text(names@[0]@) == frame_names(dfs@[0]));
        assert(!duplicate_key(wanted, k as int));
        match find_name(names[0].as_slice(), &keys[k]) {
            None => {
                return Err(JoinManyError::MissingKey { input: 0, key: k });
            },
            Some(position) => {
                push_column(
                    &mut columns,
                    Ghost(dfs@),
                    Ghost(wanted),
                    Source::Key { key: k },
                    &keys[k],
                    &dfs[0],
                    position,
                );
            },
        }
        assert(key_sources(k as nat).push(source) =~= key_sources((k + 1) as nat));
        k += 1;
    }
    let mut seen: NameSet = empty_set();
    assert(key_sources(wanted.len()) =~= key_sources(wanted.len()) + all_payload_sources(
        dfs@,
        wanted,
        0,
    ));
    assert forall|j: int| 0 <= j < columns.sources@.len() implies wanted.contains(
        source_name(dfs@, wanted, #[trigger] columns.sources@[j]),
    ) by {
        assert(columns.sources@[j] == Source::Key { key: j as usize });
        assert(wanted[j] == source_name(dfs@, wanted, columns.sources@[j]));
    }
    let mut i: usize = 0;
    while i < dfs.len()
        invariant
            keys_distinct(wanted),
            first_has_keys(dfs@, wanted, keys@.len() as int),
            wanted == text(keys@),
            names_read(dfs@, names@),
            i <= dfs@.len(),
            columns_from(
                dfs@,
                wanted,
                columns,
                key_sources(wanted.len()) + all_payload_sources(dfs@, wanted, i as int),
            ),
            seen_before(dfs@, wanted, i as int, 0, names_in(seen)),
            sources_seen(dfs@, wanted, columns.sources@, names_in(seen)),
            forall|a: int, b: int|
                earlier(a, b, i as int, 0) ==> !#[trigger] repeated_column(dfs@, wanted, a, b),
        decreases dfs@.len() - i,
    {
        let ghost start = key_sources(wanted.len()) + all_payload_sources(dfs@, wanted, i as int);
        assert(text(names@[i as int]@) == frame_names(dfs@[i as int]));
        assert(start =~= start + payload_sources(dfs@, wanted, i as int, 0));
        let mut c: usize = 0;
        while c < names[i].len()
            invariant
                keys_distinct(wanted),
                first_has_keys(dfs@, wanted, keys@.len() as int),
                wanted == text(keys@),
                names_read(dfs@, names@),
                i < dfs@.len(),
                c <= names@[i as int]@.len(),
                text(names@[i as int]@) == frame_names(dfs@[i as int]),
                columns_from(
                    dfs@,
                    wanted,
                    columns,
                    start + payload_sources(dfs@, wanted, i as int, c as int),
                ),
                seen_before(dfs@, wanted, i as int, c as int, names_in(seen)),
                sources_seen(dfs@, wanted, columns.sources@, names_in(seen)),
                forall|a: int, b: int|
                    earlier(a, b, i as int, c as int) ==> !#[trigger] repeated_column(
                        dfs@,
                        wanted,
                        a,
                        b,
                    ),
            decreases names@[i as int]@.len() - c,
        {
            let ghost name = frame_names(dfs@[i as int])[c as int];
            let ghost done = payload_sources(dfs@, wanted, i as int, c as int);
            assert(names@[i as int]@[c as int]@ == text(names@[i as int]@)[c as int]);
            proof {
                lemma_seen_step(dfs@, wanted, i as int, c as int, names_in(seen));
            }
            match find_name(keys, &names[i][c]) {
                Some(key) => {
                    assert(wanted.contains(name));
                    assert(!payload(dfs@, wanted, i as int, c as int));
                },
                None => {
                    assert(payload(dfs@, wanted, i as int, c as int));
                    let ghost before = names_in(seen);
                    if !insert_name(&mut seen, &names[i][c]) {
                        assert(named_before(dfs@, wanted, i as int, c as int, name));
                        assert(first_repeated_column(dfs@, wanted, i as int, c as int));
                        return Err(JoinManyError::DuplicateColumn { input: i, column: c });
                    }
                    assert(!named_before(dfs@, wanted, i as int, c as int, name));
                    push_column(
                        &mut columns,
                        Ghost(dfs@),
                        Ghost(wanted),
                        Source::Payload { input: i, column: c },
                        &names[i][c],
                        &dfs[i],
                        c,
                    );
                    assert(start + done.push(Source::Payload { input: i, column: c }) =~= (start
                        + done).push(Source::Payload { input: i, column: c }));
                },
            }
            assert(!repeated_column(dfs@, wanted, i as int, c as int));
            c += 1;
        }
        proof {
            lemma_seen_next_input(dfs@, wanted, i as int, names_in(seen));
            assert(columns.sources@ =~= key_sources(wanted.len()) + all_payload_sources(
                dfs@,
                wanted,
                i + 1,
            ));
            assert forall|a: int, b: int| earlier(a, b, i + 1, 0) implies !#[trigger] repeated_column(
                dfs@,
                wanted,
                a,
                b,
            ) by {
                if a == i && b >= frame_names(dfs@[i as int]).len() {
                    assert(!payload(dfs@, wanted, a, b));
                }
            }
        }
        i += 1;
    }
    assert forall|a: int, b: int| !#[trigger] repeated_column(dfs@, wanted, a, b) by {
        if a >= dfs@.len() {
            assert(!payload(dfs@, wanted, a, b));
        }
    }
    Ok(columns)
}

/// Frames are refused for one reason only, and frames that are fit to be joined for none.
pub proof fn refusal_is_unique(
    dfs: Seq<DataFrame>,
    keys: Seq<Seq<char>>,
    a: JoinManyError,
    b: JoinManyError,
)
    requires
        refused(dfs, keys, a),
        refused(dfs, keys, b),
    ensures
        a == b,
        !accepted(dfs, keys),
{
    match (a, b) {
        (JoinManyError::DuplicateKey { key: j }, JoinManyError::DuplicateKey { key: k }) => {
            if j < k {
                assert(duplicate_key(keys, j as int));
            } else if k < j {
                assert(duplicate_key(keys, k as int));
            }
        },
        (JoinManyError::DuplicateColumn { .. }, JoinManyError::DuplicateColumn { .. }) => {},
        _ => {},
    }
}

/// Frames that are refused are not fit to be joined, and are refused for no other reason.
pub proof fn lemma_refusal(dfs: Seq<DataFrame>, keys: Seq<Seq<char>>, error: JoinManyError)
    requires
        refused(dfs, keys, error),
    ensures
        !accepted(dfs, keys),
        forall|other: JoinManyError| #[trigger] refused(dfs, keys, other) ==> other == error,
{
    refusal_is_unique(dfs, keys, error, error);
    assert forall|other: JoinManyError| #[trigger] refused(dfs, keys, other) implies other
        == error by {
        refusal_is_unique(dfs, keys, error, other);
    }
}

} // verus!
