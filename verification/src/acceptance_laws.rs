//! Which frames a join takes, and why it refuses the others.
use vstd::prelude::*;

use polars_core::frame::DataFrame;

use crate::frames::{
    column_fits, column_is_series, column_value_fits, dtype_known, dtype_nested, frame_dtypes,
    frame_names,
};
use crate::join_inputs::{
    accepted, all_ready, all_sound, bad_key, column_ready, column_sound, duplicate_key, earlier,
    first_bad_key, first_repeated_column, keys_distinct, keys_present, missing_key,
    no_repeated_column, payload, refused, repeated_column, JoinManyError,
};
use crate::join_many::{is_outcome, joins_to};
use crate::merge::{is_merge, GroupModel};
use crate::names::{first_at, lemma_position, position_of, text};
use crate::row_keys::Key;

verus! {

/// Column `c` of a frame is its first of the given name.
pub open spec fn is_named(df: DataFrame, name: Seq<char>, c: int) -> bool {
    &&& 0 <= c < frame_names(df).len()
    &&& frame_names(df)[c] == name
    &&& forall|d: int| 0 <= d < c ==> #[trigger] frame_names(df)[d] != name
}

/// A frame has no column of the given name.
pub open spec fn lacks(df: DataFrame, name: Seq<char>) -> bool {
    forall|c: int| 0 <= c < frame_names(df).len() ==> #[trigger] frame_names(df)[c] != name
}

/// Frame `f` and the first frame both have a column for key `k`, with one data type.
pub open spec fn is_shared(dfs: Seq<DataFrame>, keys: Seq<Seq<char>>, f: int, k: int) -> bool {
    exists|c: int, d: int| #[trigger]
        is_named(dfs[f], keys[k], c) && #[trigger] is_named(dfs[0], keys[k], d) && frame_dtypes(
            dfs[f],
        )[c] == frame_dtypes(dfs[0])[d]
}

/// Frame `f` and the first frame both have a column for key `k`, but with different data types.
pub open spec fn is_at_odds(dfs: Seq<DataFrame>, keys: Seq<Seq<char>>, f: int, k: int) -> bool {
    exists|c: int, d: int| #[trigger]
        is_named(dfs[f], keys[k], c) && #[trigger] is_named(dfs[0], keys[k], d) && frame_dtypes(
            dfs[f],
        )[c] != frame_dtypes(dfs[0])[d]
}

/// All keys of all frames before `f`, and those before key `k` of frame `f`, are shared.
pub open spec fn are_shared_before(
    dfs: Seq<DataFrame>,
    keys: Seq<Seq<char>>,
    f: int,
    k: int,
) -> bool {
    forall|i: int, j: int|
        0 <= i < dfs.len() && 0 <= j < keys.len() && (i < f || (i == f && j < k))
            ==> #[trigger] is_shared(dfs, keys, i, j)
}

/// Column `c` of frame `f` is not named like a key.
pub open spec fn is_extra(dfs: Seq<DataFrame>, keys: Seq<Seq<char>>, f: int, c: int) -> bool {
    &&& 0 <= f < dfs.len()
    &&& 0 <= c < frame_names(dfs[f]).len()
    &&& forall|k: int| 0 <= k < keys.len() ==> #[trigger] keys[k] != frame_names(dfs[f])[c]
}

/// Two columns that are not named like keys have one name, and the first stands in an earlier frame
/// or before the second in one frame.
pub open spec fn are_namesakes(
    dfs: Seq<DataFrame>,
    keys: Seq<Seq<char>>,
    e: int,
    b: int,
    f: int,
    c: int,
) -> bool {
    &&& is_extra(dfs, keys, e, b)
    &&& is_extra(dfs, keys, f, c)
    &&& e < f || (e == f && b < c)
    &&& frame_names(dfs[e])[b] == frame_names(dfs[f])[c]
}

/// The frames can be joined: there are at least two and a key, no key is given twice, every frame
/// has a column for each key with one data type for all, and no two other columns share a name.
pub open spec fn can_be_joined(dfs: Seq<DataFrame>, keys: Seq<Seq<char>>) -> bool {
    &&& dfs.len() >= 2
    &&& keys.len() >= 1
    &&& forall|j: int, k: int| 0 <= j < k < keys.len() ==> #[trigger] keys[j] != #[trigger] keys[k]
    &&& forall|f: int, k: int|
        0 <= f < dfs.len() && 0 <= k < keys.len() ==> #[trigger] is_shared(dfs, keys, f, k)
    &&& forall|e: int, b: int, f: int, c: int| !#[trigger] are_namesakes(dfs, keys, e, b, f, c)
}

/// The error is the reason why the frames cannot be joined: what is wrong first, in the order in
/// which a reader meets it.
pub open spec fn is_reason(
    dfs: Seq<DataFrame>,
    keys: Seq<Seq<char>>,
    error: JoinManyError,
) -> bool {
    let distinct = forall|i: int, j: int|
        0 <= i < j < keys.len() ==> #[trigger] keys[i] != #[trigger] keys[j];
    match error {
        JoinManyError::TooFewInputs => dfs.len() < 2,
        JoinManyError::NoKeys => dfs.len() >= 2 && keys.len() == 0,
        JoinManyError::DuplicateKey { key } => {
            &&& dfs.len() >= 2
            &&& key < keys.len()
            &&& exists|j: int| 0 <= j < key && #[trigger] keys[j] == keys[key as int]
            &&& forall|i: int, j: int|
                0 <= i < j < key ==> #[trigger] keys[i] != #[trigger] keys[j]
        },
        JoinManyError::MissingKey { input, key } => {
            &&& dfs.len() >= 2
            &&& distinct
            &&& input < dfs.len()
            &&& key < keys.len()
            &&& are_shared_before(dfs, keys, input as int, key as int)
            &&& lacks(dfs[input as int], keys[key as int])
        },
        JoinManyError::KeyTypeMismatch { input, key } => {
            &&& dfs.len() >= 2
            &&& distinct
            &&& input < dfs.len()
            &&& key < keys.len()
            &&& are_shared_before(dfs, keys, input as int, key as int)
            &&& is_at_odds(dfs, keys, input as int, key as int)
        },
        JoinManyError::DuplicateColumn { input, column } => {
            &&& dfs.len() >= 2
            &&& keys.len() >= 1
            &&& distinct
            &&& are_shared_before(dfs, keys, dfs.len() as int, 0)
            &&& exists|e: int, b: int| #[trigger]
                are_namesakes(dfs, keys, e, b, input as int, column as int)
            &&& forall|e: int, b: int, f: int, c: int|
                f < input || (f == input && c < column) ==> !#[trigger] are_namesakes(
                    dfs,
                    keys,
                    e,
                    b,
                    f,
                    c,
                )
        },
        JoinManyError::SizeOverflow => false,
        JoinManyError::TooManyRows => false,
    }
}

/// The column of a key is the first of its name.
pub proof fn lemma_named(df: DataFrame, name: Seq<char>)
    ensures
        frame_names(df).contains(name) <==> is_named(df, name, position_of(frame_names(df), name)),
        frame_names(df).contains(name) <==> !lacks(df, name),
        forall|c: int| #[trigger]
            is_named(df, name, c) ==> c == position_of(frame_names(df), name) && frame_names(
                df,
            ).contains(name),
{
    let names = frame_names(df);
    if names.contains(name) {
        lemma_position(names, name);
        let p = choose|p: int| 0 <= p < names.len() && names[p] == name;
        assert(names[p] == name);
    }
    if !lacks(df, name) {
        let c = choose|c: int| 0 <= c < names.len() && #[trigger] names[c] == name;
        assert(names.contains(names[c]));
    }
    assert forall|c: int| #[trigger] is_named(df, name, c) implies c == position_of(names, name)
        && names.contains(name) by {
        assert(names.contains(names[c]));
        lemma_position(names, name);
        let p = position_of(names, name);
        assert(first_at(names, name, p));
        assert(names[p] == name && names[c] == name);
    }
}

proof fn lemma_shared(dfs: Seq<DataFrame>, keys: Seq<Seq<char>>, f: int, k: int)
    ensures
        is_shared(dfs, keys, f, k) <==> !missing_key(dfs, keys, 0, k) && !bad_key(dfs, keys, f, k),
        is_at_odds(dfs, keys, f, k) <==> !missing_key(dfs, keys, 0, k) && !missing_key(
            dfs,
            keys,
            f,
            k,
        ) && bad_key(dfs, keys, f, k),
{
    lemma_named(dfs[f], keys[k]);
    lemma_named(dfs[0], keys[k]);
}

/// The columns that are not named like keys.
pub proof fn lemma_extra(dfs: Seq<DataFrame>, keys: Seq<Seq<char>>, f: int, c: int)
    ensures
        is_extra(dfs, keys, f, c) <==> payload(dfs, keys, f, c),
{
    if 0 <= f < dfs.len() && 0 <= c < frame_names(dfs[f]).len() {
        let name = frame_names(dfs[f])[c];
        if keys.contains(name) {
            let k = choose|k: int| 0 <= k < keys.len() && keys[k] == name;
            assert(keys[k] == name);
        }
        if !is_extra(dfs, keys, f, c) {
            let k = choose|k: int| 0 <= k < keys.len() && #[trigger] keys[k] == name;
            assert(keys.contains(keys[k]));
        }
    }
}

proof fn lemma_namesakes(dfs: Seq<DataFrame>, keys: Seq<Seq<char>>, f: int, c: int)
    ensures
        repeated_column(dfs, keys, f, c) <==> exists|e: int, b: int| #[trigger]
            are_namesakes(dfs, keys, e, b, f, c),
{
    lemma_extra(dfs, keys, f, c);
    if repeated_column(dfs, keys, f, c) {
        let (e, b) = choose|e: int, b: int|
            earlier(e, b, f, c) && #[trigger] payload(dfs, keys, e, b) && frame_names(dfs[e])[b]
                == frame_names(dfs[f])[c];
        lemma_extra(dfs, keys, e, b);
        assert(are_namesakes(dfs, keys, e, b, f, c));
    }
    if exists|e: int, b: int| #[trigger] are_namesakes(dfs, keys, e, b, f, c) {
        let (e, b) = choose|e: int, b: int| #[trigger] are_namesakes(dfs, keys, e, b, f, c);
        lemma_extra(dfs, keys, e, b);
        assert(earlier(e, b, f, c) && payload(dfs, keys, e, b));
    }
}

proof fn lemma_distinct(keys: Seq<Seq<char>>, n: int)
    requires
        n <= keys.len(),
    ensures
        (forall|k: int| 0 <= k < n ==> !#[trigger] duplicate_key(keys, k)) <==> (forall|
            i: int,
            j: int,
        |
            0 <= i < j < n ==> #[trigger] keys[i] != #[trigger] keys[j]),
{
    if forall|k: int| 0 <= k < n ==> !#[trigger] duplicate_key(keys, k) {
        assert forall|i: int, j: int| 0 <= i < j < n implies #[trigger] keys[i]
            != #[trigger] keys[j] by {
            assert(!duplicate_key(keys, j));
        }
    }
}

/// Frames are taken exactly where they can be joined.
pub proof fn frames_that_can_be_joined_are_accepted(dfs: Seq<DataFrame>, keys: Seq<Seq<char>>)
    ensures
        accepted(dfs, keys) <==> can_be_joined(dfs, keys),
{
    lemma_distinct(keys, keys.len() as int);
    assert(keys_distinct(keys) <==> forall|j: int, k: int|
        0 <= j < k < keys.len() ==> #[trigger] keys[j] != #[trigger] keys[k]);
    if dfs.len() >= 2 {
        lemma_all_shared(dfs, keys);
    }
    lemma_no_namesakes(dfs, keys);
}

proof fn lemma_all_shared(dfs: Seq<DataFrame>, keys: Seq<Seq<char>>)
    requires
        dfs.len() >= 2,
    ensures
        keys_present(dfs, keys) <==> forall|f: int, k: int|
            0 <= f < dfs.len() && 0 <= k < keys.len() ==> #[trigger] is_shared(dfs, keys, f, k),
{
    if keys_present(dfs, keys) {
        assert forall|f: int, k: int| 0 <= f < dfs.len() && 0 <= k < keys.len() implies #[trigger] is_shared(
            dfs,
            keys,
            f,
            k,
        ) by {
            lemma_shared(dfs, keys, f, k);
            assert(!bad_key(dfs, keys, 0, k));
            assert(!bad_key(dfs, keys, f, k));
        }
    }
    if forall|f: int, k: int|
        0 <= f < dfs.len() && 0 <= k < keys.len() ==> #[trigger] is_shared(dfs, keys, f, k) {
        assert forall|f: int, k: int| 0 <= f < dfs.len() && 0 <= k < keys.len() implies !#[trigger] bad_key(
            dfs,
            keys,
            f,
            k,
        ) by {
            lemma_shared(dfs, keys, f, k);
            assert(is_shared(dfs, keys, f, k));
        }
    }
}

proof fn lemma_no_namesakes(dfs: Seq<DataFrame>, keys: Seq<Seq<char>>)
    ensures
        no_repeated_column(dfs, keys) <==> forall|e: int, b: int, f: int, c: int|
            !#[trigger] are_namesakes(dfs, keys, e, b, f, c),
{
    if no_repeated_column(dfs, keys) {
        assert forall|e: int, b: int, f: int, c: int| !#[trigger] are_namesakes(
            dfs,
            keys,
            e,
            b,
            f,
            c,
        ) by {
            lemma_namesakes(dfs, keys, f, c);
            assert(!repeated_column(dfs, keys, f, c));
        }
    }
    if forall|e: int, b: int, f: int, c: int| !#[trigger] are_namesakes(dfs, keys, e, b, f, c) {
        assert forall|f: int, c: int| !#[trigger] repeated_column(dfs, keys, f, c) by {
            lemma_namesakes(dfs, keys, f, c);
        }
    }
}

proof fn lemma_shared_before(dfs: Seq<DataFrame>, keys: Seq<Seq<char>>, f: int, k: int)
    requires
        0 <= f < dfs.len(),
        0 <= k < keys.len(),
    ensures
        first_bad_key(dfs, keys, f, k) && missing_key(dfs, keys, f, k) <==> are_shared_before(
            dfs,
            keys,
            f,
            k,
        ) && lacks(dfs[f], keys[k]),
        first_bad_key(dfs, keys, f, k) && !missing_key(dfs, keys, f, k) <==> are_shared_before(
            dfs,
            keys,
            f,
            k,
        ) && is_at_odds(dfs, keys, f, k),
{
    lemma_shared(dfs, keys, f, k);
    lemma_shared(dfs, keys, 0, k);
    lemma_named(dfs[f], keys[k]);
    if first_bad_key(dfs, keys, f, k) {
        assert forall|i: int, j: int|
            0 <= i < dfs.len() && 0 <= j < keys.len() && (i < f || (i == f && j
                < k)) implies #[trigger] is_shared(dfs, keys, i, j) by {
            lemma_shared(dfs, keys, i, j);
            assert(earlier(i, j, f, k));
            assert(!bad_key(dfs, keys, i, j));
            assert(earlier(0, j, f, k));
            assert(!bad_key(dfs, keys, 0, j));
        }
        if !missing_key(dfs, keys, f, k) && f > 0 {
            assert(earlier(0, k, f, k));
            assert(!bad_key(dfs, keys, 0, k));
        }
    }
    if are_shared_before(dfs, keys, f, k) && (lacks(dfs[f], keys[k]) || is_at_odds(
        dfs,
        keys,
        f,
        k,
    )) {
        assert forall|i: int, j: int|
            0 <= i < dfs.len() && 0 <= j < keys.len() && earlier(i, j, f, k) implies !#[trigger] bad_key(
            dfs,
            keys,
            i,
            j,
        ) by {
            lemma_shared(dfs, keys, i, j);
            assert(is_shared(dfs, keys, i, j));
        }
    }
}

proof fn lemma_first_namesake(dfs: Seq<DataFrame>, keys: Seq<Seq<char>>, f: int, c: int)
    ensures
        first_repeated_column(dfs, keys, f, c) <==> (exists|e: int, b: int| #[trigger]
            are_namesakes(dfs, keys, e, b, f, c)) && (forall|e: int, b: int, g: int, d: int|
            g < f || (g == f && d < c) ==> !#[trigger] are_namesakes(dfs, keys, e, b, g, d)),
{
    lemma_namesakes(dfs, keys, f, c);
    if first_repeated_column(dfs, keys, f, c) {
        assert forall|e: int, b: int, g: int, d: int|
            g < f || (g == f && d < c) implies !#[trigger] are_namesakes(dfs, keys, e, b, g, d) by {
            lemma_namesakes(dfs, keys, g, d);
            assert(earlier(g, d, f, c));
            assert(!repeated_column(dfs, keys, g, d));
        }
    }
    if forall|e: int, b: int, g: int, d: int|
        g < f || (g == f && d < c) ==> !#[trigger] are_namesakes(dfs, keys, e, b, g, d) {
        assert forall|g: int, d: int| earlier(g, d, f, c) implies !#[trigger] repeated_column(
            dfs,
            keys,
            g,
            d,
        ) by {
            lemma_namesakes(dfs, keys, g, d);
        }
    }
}

proof fn lemma_reason(dfs: Seq<DataFrame>, keys: Seq<Seq<char>>, error: JoinManyError)
    ensures
        refused(dfs, keys, error) <==> is_reason(dfs, keys, error),
{
    lemma_distinct(keys, keys.len() as int);
    match error {
        JoinManyError::DuplicateKey { key } => {
            if key < keys.len() {
                lemma_distinct(keys, key as int);
            }
        },
        JoinManyError::MissingKey { input, key } => {
            if input < dfs.len() && key < keys.len() {
                lemma_shared_before(dfs, keys, input as int, key as int);
            }
        },
        JoinManyError::KeyTypeMismatch { input, key } => {
            if input < dfs.len() && key < keys.len() {
                lemma_shared_before(dfs, keys, input as int, key as int);
            }
        },
        JoinManyError::DuplicateColumn { input, column } => {
            lemma_first_namesake(dfs, keys, input as int, column as int);
            if dfs.len() >= 2 {
                lemma_all_shared(dfs, keys);
                assert(are_shared_before(dfs, keys, dfs.len() as int, 0) <==> forall|
                    f: int,
                    k: int,
                |
                    0 <= f < dfs.len() && 0 <= k < keys.len() ==> #[trigger] is_shared(
                        dfs,
                        keys,
                        f,
                        k,
                    ));
            }
        },
        _ => {},
    }
}

/// Each error but those on the number of rows comes exactly where it is the reason, and where there
/// is one, the frames cannot be joined.
pub proof fn frames_are_refused_for_a_reason(
    dfs: Seq<DataFrame>,
    keys: Seq<Seq<char>>,
    joined: Result<DataFrame, JoinManyError>,
    error: JoinManyError,
)
    requires
        joins_to(dfs, keys, joined),
        error != JoinManyError::SizeOverflow,
        error != JoinManyError::TooManyRows,
    ensures
        joined == Err::<DataFrame, JoinManyError>(error) <==> is_reason(dfs, keys, error),
        joined == Err::<DataFrame, JoinManyError>(error) ==> !can_be_joined(dfs, keys),
        !can_be_joined(dfs, keys) ==> joined is Err && is_reason(dfs, keys, joined->Err_0),
{
    lemma_reason(dfs, keys, error);
    frames_that_can_be_joined_are_accepted(dfs, keys);
    if accepted(dfs, keys) {
        let (lists, groups) = choose|lists: Seq<Seq<Key>>, groups: Seq<GroupModel>|
            #[trigger] is_merge(lists, groups) && is_outcome(dfs, keys, groups, joined);
    } else {
        lemma_reason(dfs, keys, joined->Err_0);
    }
}

/// What the join asks of the columns of frames that it takes. It must be able to make each a series
/// of a data type that is known in full. That is ready to be tested where each is a series, or
/// repeats a value that makes one of a data type without others inside.
pub proof fn what_the_join_asks_of_columns(dfs: Seq<DataFrame>)
    ensures
        all_sound(dfs) <==> forall|f: int, c: int|
            0 <= f < dfs.len() && 0 <= c < frame_dtypes(dfs[f]).len() ==> dtype_known(
                #[trigger] frame_dtypes(dfs[f])[c],
            ) && column_fits(dfs[f], c),
        all_ready(dfs) <==> forall|f: int, c: int|
            0 <= f < dfs.len() && 0 <= c < frame_dtypes(dfs[f]).len() ==> dtype_known(
                #[trigger] frame_dtypes(dfs[f])[c],
            ) && (column_is_series(dfs[f], c) || (!dtype_nested(frame_dtypes(dfs[f])[c])
                && column_value_fits(dfs[f], c))),
{
    if all_sound(dfs) {
        assert forall|f: int, c: int|
            0 <= f < dfs.len() && 0 <= c < frame_dtypes(dfs[f]).len() implies dtype_known(
            #[trigger] frame_dtypes(dfs[f])[c],
        ) && column_fits(dfs[f], c) by {
            assert(column_sound(dfs[f], c));
        }
    }
    if all_ready(dfs) {
        assert forall|f: int, c: int|
            0 <= f < dfs.len() && 0 <= c < frame_dtypes(dfs[f]).len() implies dtype_known(
            #[trigger] frame_dtypes(dfs[f])[c],
        ) && (column_is_series(dfs[f], c) || (!dtype_nested(frame_dtypes(dfs[f])[c])
            && column_value_fits(dfs[f], c))) by {
            assert(column_ready(dfs[f], c));
        }
    }
}

/// The names that the join goes by are the given ones, in their order.
pub proof fn names_are_taken_as_they_are(names: Seq<String>)
    ensures
        text(names).len() == names.len(),
        forall|i: int| 0 <= i < names.len() ==> #[trigger] text(names)[i] == names[i]@,
{
}

} // verus!
