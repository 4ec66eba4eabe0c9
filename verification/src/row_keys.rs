//! Row keys: the key columns of a frame, encoded into one byte string for each row.
//!
//! A row whose key holds a null has no byte string. Keys are ordered with the missing ones first
//! and the others by their bytes; a missing key equals no key, not even another missing one. Bytes
//! are equal where the cells are, and ordered as the cells are, from left to right.
use vstd::prelude::*;

use std::cmp::Ordering;

use polars_arrow::array::{Array, BinaryArray};
use polars_core::chunked_array::ops::row_encode::_get_rows_encoded_arr;
use polars_core::frame::column::Column;
use polars_core::series::Series;
use polars_error::PolarsError;

use crate::frames::{dtype_known, series_cells, series_dtype, series_masked, Cell};

verus! {

/// The key of a row: its encoded bytes, or `None` where the row has no key.
pub type Key = Option<Seq<u8>>;

/// The encoded keys of the rows of a frame.
///
/// It holds a `polars_arrow::array::BinaryArray`.
#[verifier::external_body]
pub struct EncodedKeys {
    rows: BinaryArray<i64>,
}

/// The keys in an encoding, row by row.
pub uninterp spec fn encoded_rows(keys: EncodedKeys) -> Seq<Option<Seq<u8>>>;

/// The bytes that the row encoding gives to one row: the data types of the encoded columns, the
/// cells of the row, and for each column whether it sorts in descending order and whether its
/// nulls sort last.
pub uninterp spec fn row_bytes(
    dtypes: Seq<int>,
    cells: Seq<Option<int>>,
    descending: Seq<bool>,
    nulls_last: Seq<bool>,
) -> Seq<u8>;

/// Whether a value of a data type comes before another where `Series::sort` sorts them in ascending
/// order.
pub uninterp spec fn value_less(dtype: int, a: int, b: int) -> bool;

/// The data types of a list of series.
pub open spec fn dtypes_of(series: Seq<Series>) -> Seq<int> {
    series.map_values(|s: Series| series_dtype(s))
}

/// The cells of a list of series, series by series.
pub open spec fn cells_of(series: Seq<Series>) -> Seq<Seq<Cell>> {
    series.map_values(|s: Series| series_cells(s))
}

/// Which series of a list carry a mask.
pub open spec fn masks_of(series: Seq<Series>) -> Seq<bool> {
    series.map_values(|s: Series| series_masked(s))
}

/// Row `i` of a list of columns.
pub open spec fn row_of(columns: Seq<Seq<Cell>>, i: int) -> Seq<Cell> {
    columns.map_values(|column: Seq<Cell>| column[i])
}

/// Row `i` of a list of series has these data types and holds these cells.
pub open spec fn holds_row(
    series: Seq<Series>,
    i: int,
    dtypes: Seq<int>,
    cells: Seq<Cell>,
) -> bool {
    &&& dtypes_of(series) == dtypes
    &&& forall|c: int| 0 <= c < series.len() ==> 0 <= i < #[trigger] series_cells(series[c]).len()
    &&& row_of(cells_of(series), i) == cells
}

/// The cells are a row of series of these data types.
pub open spec fn is_row(dtypes: Seq<int>, cells: Seq<Cell>) -> bool {
    exists|series: Seq<Series>, i: int| #[trigger] holds_row(series, i, dtypes, cells)
}

/// No cell of the row is null.
pub open spec fn complete(cells: Seq<Cell>) -> bool {
    forall|c: int| 0 <= c < cells.len() ==> #[trigger] cells[c] is Some
}

/// `n` times false.
pub open spec fn all_false(n: nat) -> Seq<bool> {
    Seq::new(n, |i: int| false)
}

/// The number of masks among the first `n` columns.
pub open spec fn mask_count(masks: Seq<bool>, n: int) -> int
    decreases n,
{
    if n <= 0 {
        0
    } else if masks[n - 1] {
        mask_count(masks, n - 1) + 1
    } else {
        mask_count(masks, n - 1)
    }
}

/// The masks of the columns go unheeded: there are more than three, and no row is complete.
pub open spec fn masks_dropped(columns: Seq<Seq<Cell>>, masks: Seq<bool>) -> bool {
    &&& mask_count(masks, masks.len() as int) > 3
    &&& forall|i: int| 0 <= i < columns[0].len() ==> !#[trigger] complete(row_of(columns, i))
}

/// One cell comes before another: nulls first, then in the order of the values.
pub open spec fn cell_less(dtype: int, a: Cell, b: Cell) -> bool {
    match (a, b) {
        (None, Some(_)) => true,
        (Some(x), Some(y)) => value_less(dtype, x, y),
        (_, None) => false,
    }
}

/// One row comes before another: it has the smaller cell in the first column in which they differ.
pub open spec fn row_less(dtypes: Seq<int>, a: Seq<Cell>, b: Seq<Cell>) -> bool {
    exists|c: int|
        0 <= c < dtypes.len() && (forall|d: int| 0 <= d < c ==> #[trigger] a[d] == b[d])
            && #[trigger] cell_less(dtypes[c], a[c], b[c])
}

/// The bytes of a row, each column in ascending order with its nulls first.
pub open spec fn ascending_bytes(dtypes: Seq<int>, cells: Seq<Cell>) -> Seq<u8> {
    row_bytes(dtypes, cells, all_false(dtypes.len()), all_false(dtypes.len()))
}

/// The bytes of a row tell it from every other row of these data types, and are ordered against
/// theirs as the rows are.
pub open spec fn bytes_stand_for(dtypes: Seq<int>, cells: Seq<Cell>) -> bool {
    forall|other: Seq<Cell>| #[trigger]
        is_row(dtypes, other) ==> {
            &&& ascending_bytes(dtypes, other) == ascending_bytes(dtypes, cells) ==> other == cells
            &&& bytes_less(ascending_bytes(dtypes, cells), ascending_bytes(dtypes, other))
                <==> row_less(dtypes, cells, other)
        }
}

/// The key of row `i`: its bytes, or none where a cell is null. Where the masks go unheeded, a row
/// has its bytes in spite of its nulls.
pub open spec fn row_key(
    dtypes: Seq<int>,
    columns: Seq<Seq<Cell>>,
    masks: Seq<bool>,
    i: int,
) -> Key {
    if complete(row_of(columns, i)) || masks_dropped(columns, masks) {
        Some(ascending_bytes(dtypes, row_of(columns, i)))
    } else {
        None
    }
}

/// `rows` are the keys of the rows of the given columns, and stand for them.
pub open spec fn is_encoding(
    dtypes: Seq<int>,
    columns: Seq<Seq<Cell>>,
    masks: Seq<bool>,
    rows: Seq<Key>,
) -> bool {
    &&& columns.len() >= 1
    &&& rows.len() == columns[0].len()
    &&& forall|i: int|
        0 <= i < rows.len() ==> #[trigger] rows[i] == row_key(dtypes, columns, masks, i)
    &&& forall|i: int|
        0 <= i < rows.len() ==> is_row(dtypes, #[trigger] row_of(columns, i)) && bytes_stand_for(
            dtypes,
            row_of(columns, i),
        )
}

/// `_get_rows_encoded_arr`: encodes a list of series of one length, row by row.
///
/// The bytes of a row are those of the row encoding, a function of the row alone. The encodings of
/// its cells follow each other, each unambiguous, and floating point numbers are normalised before:
/// so bytes are equal only where the cells are, and have the sort order of the columns. This is
/// claimed for ascending order with nulls first. Of two different values of a column, one comes
/// before the other.
///
/// With `broadcast_nulls` a complete row has its bytes, and a row with a null cell has none. The
/// exception are more than three masks that leave no row: they are combined by code that drops a
/// mask without a set bit, and all rows have their bytes. Data types that are not known in full are
/// left out: the call panics on them.
#[verifier::external_body]
pub(crate) fn encode_rows(
    series: &Vec<Series>,
    descending: &Vec<bool>,
    nulls_last: &Vec<bool>,
    broadcast_nulls: bool,
) -> (keys: Result<EncodedKeys, PolarsError>)
    requires
        series@.len() >= 1,
        descending@.len() == series@.len(),
        nulls_last@.len() == series@.len(),
        forall|c: int|
            0 <= c < series@.len() ==> dtype_known(#[trigger] series_dtype(series@[c])),
        forall|c: int|
            0 <= c < series@.len() ==> #[trigger] series_cells(series@[c]).len() == series_cells(
                series@[0],
            ).len(),
    ensures
        keys is Ok,
        encoded_rows(keys->Ok_0).len() == series_cells(series@[0]).len(),
        forall|i: int|
            0 <= i < encoded_rows(keys->Ok_0).len() ==> #[trigger] encoded_rows(keys->Ok_0)[i]
                == if !broadcast_nulls || complete(row_of(cells_of(series@), i)) || masks_dropped(
                cells_of(series@),
                masks_of(series@),
            ) {
                Some(
                    row_bytes(
                        dtypes_of(series@),
                        row_of(cells_of(series@), i),
                        descending@,
                        nulls_last@,
                    ),
                )
            } else {
                None
            },
        descending@ == all_false(series@.len()) && nulls_last@ == all_false(series@.len())
            ==> forall|i: int|
            0 <= i < encoded_rows(keys->Ok_0).len() ==> bytes_stand_for(
                dtypes_of(series@),
                #[trigger] row_of(cells_of(series@), i),
            ),
        forall|c: int, i: int, j: int|
            0 <= c < series@.len() && 0 <= i < encoded_rows(keys->Ok_0).len() && 0 <= j
                < encoded_rows(keys->Ok_0).len() && (#[trigger] series_cells(series@[c])[i]) is Some
                && (#[trigger] series_cells(series@[c])[j]) is Some && series_cells(series@[c])[i]
                != series_cells(series@[c])[j] ==> (value_less(
                series_dtype(series@[c]),
                series_cells(series@[c])[i]->0,
                series_cells(series@[c])[j]->0,
            ) <==> !value_less(
                series_dtype(series@[c]),
                series_cells(series@[c])[j]->0,
                series_cells(series@[c])[i]->0,
            )),
{
    let columns: Vec<Column> = series.iter().map(|s| Column::from(s.clone())).collect();
    _get_rows_encoded_arr(&columns, descending, nulls_last, broadcast_nulls).map(
        |rows| EncodedKeys { rows },
    )
}

/// Encodes the rows of a list of key columns: ascending, nulls first, and no key for a row that
/// holds a null. Where more than three columns carry masks and no row is complete, all rows have
/// keys.
pub fn encode_keys(series: &Vec<Series>) -> (keys: EncodedKeys)
    requires
        series@.len() >= 1,
        forall|c: int|
            0 <= c < series@.len() ==> dtype_known(#[trigger] series_dtype(series@[c])),
        forall|c: int|
            0 <= c < series@.len() ==> #[trigger] series_cells(series@[c]).len() == series_cells(
                series@[0],
            ).len(),
    ensures
        is_encoding(dtypes_of(series@), cells_of(series@), masks_of(series@), encoded_rows(keys)),
{
    let mut descending: Vec<bool> = Vec::new();
    let mut nulls_last: Vec<bool> = Vec::new();
    let mut c: usize = 0;
    while c < series.len()
        invariant
            c <= series@.len(),
            descending@ == all_false(c as nat),
            nulls_last@ == all_false(c as nat),
        decreases series@.len() - c,
    {
        descending.push(false);
        nulls_last.push(false);
        assert(descending@ =~= all_false((c + 1) as nat));
        assert(nulls_last@ =~= all_false((c + 1) as nat));
        c += 1;
    }
    assert(cells_of(series@)[0] == series_cells(series@[0]));
    let keys = encode_rows(series, &descending, &nulls_last, true).unwrap();
    assert forall|i: int| 0 <= i < encoded_rows(keys).len() implies is_row(
        dtypes_of(series@),
        #[trigger] row_of(cells_of(series@), i),
    ) by {
        assert(holds_row(series@, i, dtypes_of(series@), row_of(cells_of(series@), i)));
    }
    keys
}

/// `Array::is_null`: the row has no key.
#[verifier::external_body]
pub(crate) fn key_is_null(keys: &EncodedKeys, row: usize) -> (null: bool)
    requires
        row < encoded_rows(*keys).len(),
    ensures
        null == (encoded_rows(*keys)[row as int] is None),
{
    keys.rows.is_null(row)
}

/// `BinaryArray::value`: the bytes of the row's key. Nothing is said of a row without a key.
#[verifier::external_body]
pub(crate) fn key_value(keys: &EncodedKeys, row: usize) -> (bytes: &[u8])
    requires
        row < encoded_rows(*keys).len(),
    ensures
        encoded_rows(*keys)[row as int] is Some ==> bytes@ == encoded_rows(*keys)[row as int]->0,
{
    keys.rows.value(row)
}

/// `a` and `b` agree before position `p`, where `a` ends or holds the smaller byte.
pub open spec fn smaller_at(a: Seq<u8>, b: Seq<u8>, p: int) -> bool {
    &&& 0 <= p <= a.len()
    &&& p < b.len()
    &&& forall|i: int| 0 <= i < p ==> #[trigger] a[i] == b[i]
    &&& p == a.len() || a[p] < b[p]
}

/// `a` comes before `b` in the lexicographic order of byte strings.
pub open spec fn bytes_less(a: Seq<u8>, b: Seq<u8>) -> bool {
    exists|p: int| smaller_at(a, b, p)
}

/// `a` comes before `b` in the order of keys: missing keys first, then by bytes.
pub open spec fn key_less(a: Key, b: Key) -> bool {
    match (a, b) {
        (None, Some(_)) => true,
        (Some(x), Some(y)) => bytes_less(x, y),
        (_, None) => false,
    }
}

/// Two keys match: both are there and they hold the same bytes.
pub open spec fn key_same(a: Key, b: Key) -> bool {
    a is Some && a == b
}

/// The key of a row of an encoding.
pub open spec fn key_at(keys: EncodedKeys, row: usize) -> Key {
    encoded_rows(keys)[row as int]
}

/// Compares two byte strings in lexicographic order.
fn compare_bytes(a: &[u8], b: &[u8]) -> (order: Ordering)
    ensures
        order is Less <==> bytes_less(a@, b@),
        order is Greater <==> bytes_less(b@, a@),
        order is Equal <==> a@ == b@,
{
    let mut i: usize = 0;
    while i < a.len() && i < b.len()
        invariant
            i <= a@.len(),
            i <= b@.len(),
            forall|j: int| 0 <= j < i ==> #[trigger] a@[j] == b@[j],
        decreases a@.len() - i,
    {
        let x: u8 = a[i];
        let y: u8 = b[i];
        if x != y {
            proof {
                lemma_differ_at(a@, b@, i);
            }
            if x < y {
                return Ordering::Less;
            }
            return Ordering::Greater;
        }
        i += 1;
    }
    proof {
        lemma_prefix(a@, b@, i);
    }
    if i < b.len() {
        Ordering::Less
    } else if i < a.len() {
        Ordering::Greater
    } else {
        Ordering::Equal
    }
}

/// Compares the key of a row with the key of another.
pub fn compare_keys(a: &EncodedKeys, a_row: usize, b: &EncodedKeys, b_row: usize) -> (order:
    Ordering)
    requires
        a_row < encoded_rows(*a).len(),
        b_row < encoded_rows(*b).len(),
    ensures
        order is Less <==> key_less(key_at(*a, a_row), key_at(*b, b_row)),
        order is Greater <==> key_less(key_at(*b, b_row), key_at(*a, a_row)),
        order is Equal <==> key_at(*a, a_row) == key_at(*b, b_row),
{
    let a_null = key_is_null(a, a_row);
    let b_null = key_is_null(b, b_row);
    match (a_null, b_null) {
        (true, true) => Ordering::Equal,
        (true, false) => Ordering::Less,
        (false, true) => Ordering::Greater,
        (false, false) => compare_bytes(key_value(a, a_row), key_value(b, b_row)),
    }
}

/// Tells whether the keys of two rows match.
pub fn keys_equal(a: &EncodedKeys, a_row: usize, b: &EncodedKeys, b_row: usize) -> (equal: bool)
    requires
        a_row < encoded_rows(*a).len(),
        b_row < encoded_rows(*b).len(),
    ensures
        equal == key_same(key_at(*a, a_row), key_at(*b, b_row)),
{
    if key_is_null(a, a_row) || key_is_null(b, b_row) {
        return false;
    }
    match compare_bytes(key_value(a, a_row), key_value(b, b_row)) {
        Ordering::Equal => true,
        _ => false,
    }
}

/// The order of keys is a strict total order: exactly one of `a` before `b`, `b` before `a` and
/// `a` equal to `b` holds.
pub proof fn key_order_is_total(a: Key, b: Key)
    ensures
        key_less(a, b) || key_less(b, a) || a == b,
        !(key_less(a, b) && key_less(b, a)),
        a == b ==> !key_less(a, b),
{
    match (a, b) {
        (Some(x), Some(y)) => {
            lemma_bytes_trichotomy(x, y, 0);
        },
        _ => {},
    }
}

/// The order of keys is transitive.
pub proof fn key_order_is_transitive(a: Key, b: Key, c: Key)
    requires
        key_less(a, b),
        key_less(b, c),
    ensures
        key_less(a, c),
{
    match (a, b, c) {
        (Some(x), Some(y), Some(z)) => {
            let p = choose|p: int| smaller_at(x, y, p);
            let q = choose|q: int| smaller_at(y, z, q);
            let r = if p <= q { p } else { q };
            assert forall|i: int| 0 <= i < r implies #[trigger] x[i] == z[i] by {
                assert(x[i] == y[i]);
                assert(y[i] == z[i]);
            }
            if q < p {
                assert(x[q] == y[q]);
            } else if p < q && p < x.len() {
                assert(y[p] == z[p]);
            }
            assert(smaller_at(x, z, r));
        },
        _ => {},
    }
}

proof fn lemma_bytes_trichotomy(a: Seq<u8>, b: Seq<u8>, i: int)
    requires
        0 <= i <= a.len(),
        i <= b.len(),
        forall|j: int| 0 <= j < i ==> #[trigger] a[j] == b[j],
    ensures
        bytes_less(a, b) || bytes_less(b, a) || a == b,
        !(bytes_less(a, b) && bytes_less(b, a)),
        a == b ==> !bytes_less(a, b),
    decreases a.len() - i,
{
    if i < a.len() && i < b.len() && a[i] == b[i] {
        lemma_bytes_trichotomy(a, b, i + 1);
    } else if i < a.len() && i < b.len() {
        if a[i] < b[i] {
            assert(smaller_at(a, b, i));
        } else {
            assert(smaller_at(b, a, i));
        }
    } else if i < b.len() {
        assert(smaller_at(a, b, i));
    } else if i < a.len() {
        assert(smaller_at(b, a, i));
    } else {
        assert(a =~= b);
    }
    if bytes_less(a, b) && bytes_less(b, a) {
        let p = choose|p: int| smaller_at(a, b, p);
        let q = choose|q: int| smaller_at(b, a, q);
        if p < q {
            assert(b[p] == a[p]);
        } else if q < p {
            assert(a[q] == b[q]);
        }
    }
}

proof fn lemma_differ_at(a: Seq<u8>, b: Seq<u8>, i: usize)
    requires
        i < a.len(),
        i < b.len(),
        forall|j: int| 0 <= j < i ==> #[trigger] a[j] == b[j],
        a[i as int] != b[i as int],
    ensures
        a != b,
        bytes_less(a, b) <==> a[i as int] < b[i as int],
        bytes_less(b, a) <==> b[i as int] < a[i as int],
{
    let p = i as int;
    if a[p] < b[p] {
        assert(smaller_at(a, b, p));
    } else {
        assert(smaller_at(b, a, p));
    }
    if bytes_less(a, b) {
        let q = choose|q: int| smaller_at(a, b, q);
        assert(q == p);
    }
    if bytes_less(b, a) {
        let q = choose|q: int| smaller_at(b, a, q);
        assert(q == p);
    }
}

proof fn lemma_prefix(a: Seq<u8>, b: Seq<u8>, i: usize)
    requires
        i <= a.len(),
        i <= b.len(),
        i == a.len() || i == b.len(),
        forall|j: int| 0 <= j < i ==> #[trigger] a[j] == b[j],
    ensures
        bytes_less(a, b) <==> i < b.len(),
        bytes_less(b, a) <==> i < a.len(),
        a == b <==> i == a.len() && i == b.len(),
{
    let p = i as int;
    if i < b.len() {
        assert(smaller_at(a, b, p));
    }
    if i < a.len() {
        assert(smaller_at(b, a, p));
    }
    if i == a.len() && i == b.len() {
        assert(a =~= b);
    }
}

} // verus!
