//! How the rows of a group are laid out: every combination of one row from each list that is
//! part of the group, the last list varying fastest.
use vstd::prelude::*;

use vstd::arithmetic::div_mod::{
    lemma_hoist_over_denominator, lemma_mod_multiples_vanish, lemma_multiply_divide_lt,
    lemma_small_mod,
};

use polars_core::series::builder::SeriesBuilder;
use polars_core::series::Series;

use crate::frames::{
    builder_cells, builder_dtype, extend_nulls, series_cells, series_dtype, series_slice,
    subslice_extend, subslice_extend_each_repeated, subslice_extend_repeated, Cell, MAX_ROWS,
};
use crate::merge::{ints, Group, GroupModel};

verus! {

/// What a list with `len` rows in a group multiplies the number of combinations by.
pub open spec fn factor(len: int) -> int {
    if len > 0 {
        len
    } else {
        1
    }
}

/// The number of combinations of the lists from `f` on.
pub open spec fn combinations_from(lens: Seq<int>, f: int) -> int
    decreases lens.len() - f,
{
    if f < 0 || f >= lens.len() {
        1
    } else {
        factor(lens[f]) * combinations_from(lens, f + 1)
    }
}

/// The number of combinations of the lists before `f`.
pub open spec fn combinations_before(lens: Seq<int>, f: int) -> int
    decreases f,
{
    if f <= 0 {
        1
    } else {
        combinations_before(lens, f - 1) * factor(lens[f - 1])
    }
}

/// The number of rows that a group gives.
pub open spec fn rows_of(group: GroupModel) -> int {
    combinations_from(group.lens, 0)
}

/// Which of the `lens[f]` rows of list `f` stands in row `r` of the group.
pub open spec fn digit(lens: Seq<int>, f: int, r: int) -> int {
    (r / combinations_from(lens, f + 1)) % lens[f]
}

/// The row of list `f` that stands in row `r` of the group, where the list is part of it.
pub open spec fn picked(group: GroupModel, f: int, r: int) -> Option<int> {
    if group.lens[f] > 0 {
        Some(group.starts[f] + digit(group.lens, f, r))
    } else {
        None
    }
}

/// A column of list `f`, laid out for a group: null throughout where the list is not part of it.
pub open spec fn group_column(cells: Seq<Cell>, group: GroupModel, f: int) -> Seq<Cell> {
    Seq::new(
        rows_of(group) as nat,
        |r: int|
            match picked(group, f, r) {
                Some(row) => cells[row],
                None => None,
            },
    )
}

/// A key column of the leading list, laid out for a group: the key of its first row throughout.
pub open spec fn group_key_column(cells: Seq<Cell>, group: GroupModel) -> Seq<Cell> {
    Seq::new(rows_of(group) as nat, |r: int| cells[group.starts[group.lead]])
}

/// A range of cells, each repeated `post` times in a row, and all of that `pre` times over.
pub open spec fn tile(cells: Seq<Cell>, start: int, len: int, pre: int, post: int) -> Seq<Cell> {
    Seq::new((pre * (len * post)) as nat, |r: int| cells[start + (r / post) % len])
}

/// There is at least one combination of the lists from `f` on.
pub proof fn lemma_from_positive(lens: Seq<int>, f: int)
    ensures
        combinations_from(lens, f) >= 1,
    decreases lens.len() - f,
{
    if 0 <= f < lens.len() {
        lemma_from_positive(lens, f + 1);
        let a = factor(lens[f]);
        let b = combinations_from(lens, f + 1);
        assert(a * b >= 1) by (nonlinear_arith)
            requires
                a >= 1,
                b >= 1,
        ;
    }
}

/// A group gives at least one row.
pub proof fn lemma_rows_positive(group: GroupModel)
    ensures
        rows_of(group) >= 1,
{
    lemma_from_positive(group.lens, 0);
}

proof fn lemma_before_positive(lens: Seq<int>, f: int)
    ensures
        combinations_before(lens, f) >= 1,
    decreases f,
{
    if f > 0 {
        lemma_before_positive(lens, f - 1);
        let a = combinations_before(lens, f - 1);
        let b = factor(lens[f - 1]);
        assert(a * b >= 1) by (nonlinear_arith)
            requires
                a >= 1,
                b >= 1,
        ;
    }
}

/// The combinations of all lists are those of the lists before `f` times those from `f` on.
proof fn lemma_combinations_split(lens: Seq<int>, f: int)
    requires
        0 <= f <= lens.len(),
    ensures
        combinations_before(lens, f) * combinations_from(lens, f) == combinations_from(lens, 0),
    decreases f,
{
    if f > 0 {
        lemma_combinations_split(lens, f - 1);
        let a = combinations_before(lens, f - 1);
        let b = factor(lens[f - 1]);
        let c = combinations_from(lens, f);
        assert((a * b) * c == a * (b * c)) by (nonlinear_arith);
    }
}

proof fn lemma_part_of_product(a: int, b: int)
    requires
        a >= 1,
        b >= 1,
    ensures
        a <= a * b,
        b <= a * b,
{
    assert(a <= a * b && b <= a * b) by (nonlinear_arith)
        requires
            a >= 1,
            b >= 1,
    ;
}

/// The number of rows that a group gives, or none where it does not fit.
pub fn group_rows(group: &Group) -> (rows: Option<usize>)
    ensures
        rows == if rows_of(group@) <= usize::MAX {
            Some(rows_of(group@) as usize)
        } else {
            None
        },
{
    let ghost lens = group@.lens;
    let mut rows: usize = 1;
    let mut f: usize = 0;
    while f < group.lens.len()
        invariant
            lens == group@.lens,
            lens == ints(group.lens@),
            f <= lens.len(),
            rows == combinations_before(lens, f as int),
        decreases lens.len() - f,
    {
        let len: usize = group.lens[f];
        assert(lens[f as int] == len);
        assert(combinations_before(lens, f + 1) == combinations_before(lens, f as int) * factor(
            lens[f as int],
        ));
        if len > 0 {
            match rows.checked_mul(len) {
                Some(product) => {
                    rows = product;
                },
                None => {
                    proof {
                        lemma_combinations_split(lens, f + 1);
                        lemma_before_positive(lens, f + 1);
                        lemma_from_positive(lens, f + 1);
                        lemma_part_of_product(
                            combinations_before(lens, f + 1),
                            combinations_from(lens, f + 1),
                        );
                    }
                    return None;
                },
            }
        }
        f += 1;
    }
    proof {
        lemma_combinations_split(lens, f as int);
    }
    Some(rows)
}

/// The number of combinations of the lists before list `f`.
fn rows_before(group: &Group, f: usize) -> (rows: usize)
    requires
        f <= group@.lens.len(),
        rows_of(group@) <= usize::MAX,
    ensures
        rows == combinations_before(group@.lens, f as int),
{
    let ghost lens = group@.lens;
    let mut rows: usize = 1;
    let mut i: usize = 0;
    while i < f
        invariant
            lens == group@.lens,
            lens == ints(group.lens@),
            rows_of(group@) <= usize::MAX,
            i <= f <= lens.len(),
            rows == combinations_before(lens, i as int),
        decreases f - i,
    {
        let len: usize = group.lens[i];
        assert(lens[i as int] == len);
        proof {
            lemma_combinations_split(lens, i + 1);
            lemma_before_positive(lens, i + 1);
            lemma_from_positive(lens, i + 1);
            lemma_part_of_product(
                combinations_before(lens, i + 1),
                combinations_from(lens, i + 1),
            );
        }
        if len > 0 {
            rows = rows * len;
        }
        i += 1;
    }
    rows
}

/// The number of combinations of the lists from list `f` on.
fn rows_from(group: &Group, f: usize) -> (rows: usize)
    requires
        f <= group@.lens.len(),
        rows_of(group@) <= usize::MAX,
    ensures
        rows == combinations_from(group@.lens, f as int),
{
    let ghost lens = group@.lens;
    let mut rows: usize = 1;
    let mut i: usize = group.lens.len();
    while i > f
        invariant
            lens == group@.lens,
            lens == ints(group.lens@),
            rows_of(group@) <= usize::MAX,
            f <= i <= lens.len(),
            rows == combinations_from(lens, i as int),
        decreases i,
    {
        i -= 1;
        let len: usize = group.lens[i];
        assert(lens[i as int] == len);
        proof {
            lemma_combinations_split(lens, i as int);
            lemma_before_positive(lens, i as int);
            lemma_from_positive(lens, i as int);
            lemma_part_of_product(
                combinations_before(lens, i as int),
                combinations_from(lens, i as int),
            );
        }
        if len > 0 {
            rows = len * rows;
        }
    }
    rows
}

/// Appends the cell in row `row` of a key column, `repeats` times over.
pub fn append_key_column(builder: &mut SeriesBuilder, series: &Series, row: usize, repeats: usize)
    requires
        series_dtype(*series) == builder_dtype(*old(builder)),
        row < series_cells(*series).len(),
        builder_cells(*old(builder)).len() + repeats <= MAX_ROWS,
    ensures
        builder_dtype(*final(builder)) == builder_dtype(*old(builder)),
        builder_cells(*final(builder)) == builder_cells(*old(builder)) + Seq::new(
            repeats as nat,
            |r: int| series_cells(*series)[row as int],
        ),
{
    let slice = series_slice(series, row, 1);
    subslice_extend_repeated(builder, &slice, 0, 1, repeats);
    assert(builder_cells(*builder) =~= builder_cells(*old(builder)) + Seq::new(
        repeats as nat,
        |r: int| series_cells(*series)[row as int],
    ));
}

/// In the tile of a range, the cell in place `r` of round `k` is the one in place `r` of a round.
proof fn lemma_tile_round(k: int, len: int, post: int, r: int)
    requires
        0 <= k,
        1 <= len,
        1 <= post,
        0 <= r < len * post,
    ensures
        ((k * (len * post) + r) / post) % len == r / post,
        0 <= r / post < len,
{
    assert(k * (len * post) == (k * len) * post) by (nonlinear_arith);
    lemma_hoist_over_denominator(r, k * len, post as nat);
    assert((k * (len * post) + r) / post == r / post + k * len);
    assert(len * post == post * len) by (nonlinear_arith);
    lemma_multiply_divide_lt(r, post, len);
    assert(r / post >= 0) by (nonlinear_arith)
        requires
            r >= 0,
            post >= 1,
    ;
    assert(k * len == len * k) by (nonlinear_arith);
    lemma_mod_multiples_vanish(k, r / post, len);
    lemma_small_mod((r / post) as nat, len as nat);
}

proof fn lemma_tile_step(cells: Seq<Cell>, start: int, len: int, k: int, post: int)
    requires
        0 <= k,
        1 <= len,
        1 <= post,
    ensures
        tile(cells, start, len, k + 1, post) == tile(cells, start, len, k, post) + Seq::new(
            (len * post) as nat,
            |r: int| cells[start + r / post],
        ),
{
    let width = len * post;
    assert(width >= 1) by (nonlinear_arith)
        requires
            len >= 1,
            post >= 1,
            width == len * post,
    ;
    assert((k + 1) * width == k * width + width) by (nonlinear_arith);
    assert(k * width >= 0) by (nonlinear_arith)
        requires
            k >= 0,
            width >= 1,
    ;
    let longer = tile(cells, start, len, k + 1, post);
    let round = Seq::new(width as nat, |r: int| cells[start + r / post]);
    let joined = tile(cells, start, len, k, post) + round;
    assert forall|r: int| 0 <= r < longer.len() implies longer[r] == joined[r] by {
        if r >= k * width {
            lemma_tile_round(k, len, post, r - k * width);
        }
    }
    assert(longer =~= joined);
}

/// Appends a range of a column, each cell repeated `post` times in a row, and all of that `pre`
/// times over.
pub fn append_group_column(
    builder: &mut SeriesBuilder,
    series: &Series,
    start: usize,
    len: usize,
    pre: usize,
    post: usize,
)
    requires
        series_dtype(*series) == builder_dtype(*old(builder)),
        start + len <= series_cells(*series).len(),
        builder_cells(*old(builder)).len() + pre * (len * post) <= MAX_ROWS,
    ensures
        builder_dtype(*final(builder)) == builder_dtype(*old(builder)),
        builder_cells(*final(builder)) == builder_cells(*old(builder)) + tile(
            series_cells(*series),
            start as int,
            len as int,
            pre as int,
            post as int,
        ),
{
    let ghost cells = series_cells(*series);
    let ghost before = builder_cells(*builder);
    if len == 0 || post == 0 {
        assert(pre * (len * post) == 0) by (nonlinear_arith)
            requires
                len == 0 || post == 0,
        ;
        assert(before + tile(
            cells,
            start as int,
            len as int,
            pre as int,
            post as int,
        ) =~= before);
        return;
    }
    assert(0 * (len * post) == 0) by (nonlinear_arith);
    assert(before + tile(cells, start as int, len as int, 0, post as int) =~= before);
    let mut k: usize = 0;
    while k < pre
        invariant
            cells == series_cells(*series),
            before == builder_cells(*old(builder)),
            series_dtype(*series) == builder_dtype(*builder),
            builder_dtype(*builder) == builder_dtype(*old(builder)),
            start + len <= cells.len(),
            1 <= len,
            1 <= post,
            before.len() + pre * (len * post) <= MAX_ROWS,
            k <= pre,
            builder_cells(*builder) == before + tile(
                cells,
                start as int,
                len as int,
                k as int,
                post as int,
            ),
        decreases pre - k,
    {
        proof {
            let width = len * post;
            assert(width >= 1) by (nonlinear_arith)
                requires
                    len >= 1,
                    post >= 1,
                    width == len * post,
            ;
            assert(0 <= k * width && k * width + width <= pre * width) by (nonlinear_arith)
                requires
                    k + 1 <= pre,
                    width >= 1,
                    k >= 0,
            ;
            lemma_tile_step(cells, start as int, len as int, k as int, post as int);
        }
        if post == 1 {
            subslice_extend(builder, series, start, len);
            assert(cells.subrange(start as int, start + len) =~= Seq::new(
                (len * post) as nat,
                |r: int| cells[start + r / (post as int)],
            ));
        } else {
            subslice_extend_each_repeated(builder, series, start, len, post);
        }
        assert(builder_cells(*builder) =~= before + tile(
            cells,
            start as int,
            len as int,
            k + 1,
            post as int,
        ));
        k += 1;
    }
}

/// The group takes its rows of list `f` from a column of `height` cells.
pub open spec fn share_fits(group: GroupModel, f: int, height: int) -> bool {
    &&& 0 <= f < group.lens.len()
    &&& f < group.starts.len()
    &&& group.lens[f] > 0 ==> 0 <= group.starts[f] && group.starts[f] + group.lens[f] <= height
}

/// Appends a column of list `f`, laid out for a group of `rows` rows.
pub fn append_payload(
    builder: &mut SeriesBuilder,
    series: &Series,
    group: &Group,
    f: usize,
    rows: usize,
)
    requires
        series_dtype(*series) == builder_dtype(*old(builder)),
        share_fits(group@, f as int, series_cells(*series).len() as int),
        rows == rows_of(group@),
        builder_cells(*old(builder)).len() + rows <= MAX_ROWS,
    ensures
        builder_dtype(*final(builder)) == builder_dtype(*old(builder)),
        builder_cells(*final(builder)) == builder_cells(*old(builder)) + group_column(
            series_cells(*series),
            group@,
            f as int,
        ),
{
    let ghost cells = series_cells(*series);
    let ghost before = builder_cells(*builder);
    let ghost lens = group@.lens;
    assert(lens[f as int] == group.lens@[f as int]);
    assert(group@.starts[f as int] == group.starts@[f as int]);
    assert(f < group.lens.len());
    let len: usize = group.lens[f];
    if len > 0 {
        let pre = rows_before(group, f);
        let post = rows_from(group, f + 1);
        proof {
            lemma_from_positive(lens, f + 1);
            lemma_combinations_split(lens, f as int);
            assert(combinations_from(lens, f as int) == len * post);
        }
        append_group_column(builder, series, group.starts[f], len, pre, post);
        assert(tile(
            cells,
            group@.starts[f as int],
            len as int,
            pre as int,
            post as int,
        ) =~= group_column(cells, group@, f as int));
    } else {
        extend_nulls(builder, rows);
        assert(builder_cells(*builder) =~= before + group_column(cells, group@, f as int));
    }
}

} // verus!
