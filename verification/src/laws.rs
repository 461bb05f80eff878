//! What holds across the library's operations: the fast paths agree with
//! calling the function on whole rows, deep reductions reduce each cell,
//! windows span reductions and ignore their sign, scans end in reductions,
//! and the byte unscans undo the byte scans on bits.

use vstd::prelude::*;
use crate::shape::{shape_size, lemma_size_cons};
use crate::array::{
    ArrayView, well_shaped, row_shape, row_size, row_count, row_of, rows_of, concat_data,
    same_shapes,
};
use crate::ops::{ByteOp, Primitive, byte_op, fold_bytes, reduce_bytes};
use crate::fast::{
    column, axis_block, axis_blocks, fast_reduce_spec, scan_spec, scan_cell, unscan_spec,
    unscan_cell, adjacent_spec, window_rest,
};
use crate::func::{Function, Pervasive, Join, join_spec};
use crate::reduce::{
    join_axes_spec, invscan_values, single, adjacent_values, adjacent_is_numeric, window_size,
    reduce_content_spec, join_fits,
};
use crate::fold::{
    fold_spec, fold_steps, fold_pushed, first_iterated, first_differing, is_iterated, fold_row,
    call_on_stack, lemma_first_differing,
};
use crate::func::pervasive_spec;
use crate::shape::lemma_split;
use crate::generic::{
    fold_rows, apply2, generic_reduce_spec, reduce_rows_spec, scan_rows, generic_scan_spec,
    unscan_rows, collect, generic_adjacent_spec, window_rows, reduce_each, generic_reduce_impl_spec,
};

verus! {

/// A well-shaped array of rank one or more lays out `row_count` rows of
/// `row_size` bytes.
pub proof fn lemma_rows_layout(v: ArrayView)
    requires
        well_shaped(v),
        v.0.len() > 0,
    ensures
        v.1.len() == row_count(v) * row_size(v),
        row_shape(v) == v.0.skip(1),
{
    lemma_size_cons(v.0);
}

/// Row `j` of an array fits inside its bytes.
pub proof fn lemma_row_in_bounds(v: ArrayView, j: int)
    requires
        well_shaped(v),
        v.0.len() > 0,
        0 <= j < row_count(v),
    ensures
        0 <= j * row_size(v),
        j * row_size(v) + row_size(v) <= v.1.len(),
{
    lemma_rows_layout(v);
    let r = row_size(v);
    let n = row_count(v);
    assert(0 <= j * r && j * r + r <= n * r) by (nonlinear_arith)
        requires
            0 <= j < n,
            0 <= r,
    ;
}

/// Folding the rows `1..j` into row 0 with a pervasive function folds each
/// column of the first `j` rows.
pub proof fn lemma_pervasive_fold(op: ByteOp, v: ArrayView, j: int)
    requires
        well_shaped(v),
        v.0.len() > 0,
        1 <= j <= row_count(v),
    ensures
        fold_rows(Pervasive { op }, row_of(v, 0), rows_of(v).subrange(1, j)) == Ok::<
            ArrayView,
            crate::errors::ReduceError,
        >(
            (
                row_shape(v),
                Seq::new(
                    row_size(v),
                    |k: int|
                        fold_bytes(
                            op,
                            v.1[k],
                            column(v.1, 0, k, row_count(v) as int, row_size(v) as int).subrange(
                                1,
                                j,
                            ),
                        ),
                ),
            ),
        ),
    decreases j,
{
    let n = row_count(v) as int;
    let r = row_size(v) as int;
    let f = Pervasive { op };
    lemma_row_in_bounds(v, 0);
    assert(0 * r == 0) by (nonlinear_arith);
    if j == 1 {
        assert(rows_of(v).subrange(1, 1) =~= Seq::<ArrayView>::empty());
        let target = Seq::new(
            r as nat,
            |k: int| fold_bytes(op, v.1[k], column(v.1, 0, k, n, r).subrange(1, 1)),
        );
        assert forall|k: int| 0 <= k < r implies #[trigger] target[k] == row_of(v, 0).1[k] by {
            assert(column(v.1, 0, k, n, r).subrange(1, 1) =~= Seq::<u8>::empty());
        }
        assert(target =~= row_of(v, 0).1);
    } else {
        lemma_pervasive_fold(op, v, j - 1);
        lemma_row_in_bounds(v, j - 1);
        let rows = rows_of(v).subrange(1, j);
        assert(rows.drop_last() =~= rows_of(v).subrange(1, j - 1));
        assert(rows.last() == row_of(v, j - 1));
        let acc = (
            row_shape(v),
            Seq::new(
                r as nat,
                |k: int| fold_bytes(op, v.1[k], column(v.1, 0, k, n, r).subrange(1, j - 1)),
            ),
        );
        let row = row_of(v, j - 1);
        assert(row.1.len() == r);
        assert(f.spec_call(seq![row, acc]) == Ok::<Seq<ArrayView>, crate::errors::ReduceError>(
            seq![(acc.0, Seq::new(acc.1.len(), |i: int| byte_op(op, acc.1[i], row.1[i])))],
        ));
        let target = Seq::new(
            r as nat,
            |k: int| fold_bytes(op, v.1[k], column(v.1, 0, k, n, r).subrange(1, j)),
        );
        assert forall|k: int| 0 <= k < r implies #[trigger] target[k] == byte_op(
            op,
            acc.1[k],
            row.1[k],
        ) by {
            let col = column(v.1, 0, k, n, r);
            assert(col.subrange(1, j).drop_last() =~= col.subrange(1, j - 1));
            assert((0 * n + (j - 1)) * r + k == (j - 1) * r + k) by (nonlinear_arith);
            assert(col.subrange(1, j).last() == row.1[k]);
        }
        assert(target =~= Seq::new(acc.1.len(), |i: int| byte_op(op, acc.1[i], row.1[i])));
    }
}

/// The fast reduction agrees with the reduction that calls the pervasive
/// function on whole rows: reducing an array with rows at depth 0, with no
/// fill, gives the same array either way.
pub proof fn law_fast_reduce_matches_rows(op: ByteOp, v: ArrayView, identity: u8)
    requires
        well_shaped(v),
        v.0.len() > 0,
        row_count(v) > 0,
    ensures
        generic_reduce_spec(Pervasive { op }, v, 0, None) == Ok::<
            ArrayView,
            crate::errors::ReduceError,
        >(fast_reduce_spec(v, identity, None, 0, op, op)),
{
    let n = row_count(v) as int;
    let r = row_size(v) as int;
    let f = Pervasive { op };
    lemma_pervasive_fold(op, v, n);
    lemma_rows_layout(v);
    assert(rows_of(v)[0] == row_of(v, 0));
    assert(rows_of(v).skip(1) =~= rows_of(v).subrange(1, n));
    assert(generic_reduce_spec(f, v, 0, None) == reduce_rows_spec(f, rows_of(v), None));
    let fast = fast_reduce_spec(v, identity, None, 0, op, op);
    if v.0.len() == 1 {
        assert(row_shape(v) =~= Seq::<usize>::empty());
        assert(shape_size(Seq::<usize>::empty()) == 1);
        assert(r == 1);
        assert(v.1.len() == n) by (nonlinear_arith)
            requires
                v.1.len() == n * r,
                r == 1,
        ;
        let col = column(v.1, 0, 0, n, r);
        assert(col.subrange(1, n) =~= v.1.skip(1)) by {
            assert forall|i: int| 0 <= i < n - 1 implies col.subrange(1, n)[i] == v.1.skip(1)[i] by {
                assert((0 * n + (i + 1)) * r + 0 == i + 1) by (nonlinear_arith)
                    requires
                        r == 1,
                ;
            }
        }
        let g = Seq::new(r as nat, |k: int| fold_bytes(op, v.1[k], column(v.1, 0, k, n, r).subrange(1, n)));
        assert(g[0] == fold_bytes(op, v.1[0], col.subrange(1, n)));
        assert(g =~= seq![reduce_bytes(op, identity, None, v.1)]);
        assert(fast == (Seq::<usize>::empty(), seq![reduce_bytes(op, identity, None, v.1)]));
        assert(reduce_rows_spec(f, rows_of(v), None) == fold_rows(f, rows_of(v)[0], rows_of(v).skip(1)));
        assert(fold_rows(f, row_of(v, 0), rows_of(v).subrange(1, n)) == Ok::<ArrayView, crate::errors::ReduceError>((row_shape(v), g)));
    } else {
        assert(v.0.take(0) =~= Seq::<usize>::empty());
        assert(shape_size(Seq::<usize>::empty()) == 1);
        assert(v.0.remove(0) =~= v.0.skip(1));
        assert(v.0.skip(0int + 1) =~= v.0.skip(1));
        let blocks = axis_blocks(v.1, 1, n, r, op, identity, None, identity);
        assert(axis_blocks(v.1, 0, n, r, op, identity, None, identity) == Seq::<u8>::empty());
        assert(blocks =~= axis_block(v.1, 0, n, r, op, identity, None, identity));
        let g = Seq::new(
            r as nat,
            |k: int| fold_bytes(op, v.1[k], column(v.1, 0, k, n, r).subrange(1, n)),
        );
        assert forall|k: int| 0 <= k < r implies #[trigger] g[k] == blocks[k] by {
            let col = column(v.1, 0, k, n, r);
            assert(col.skip(1) =~= col.subrange(1, n));
            assert((0 * n + 0) * r + k == k) by (nonlinear_arith);
        }
        assert(g =~= blocks);
        assert(fast == (v.0.skip(1), blocks));
        assert(reduce_rows_spec(f, rows_of(v), None) == fold_rows(f, rows_of(v)[0], rows_of(v).skip(1)));
    }
}

/// The fast reduction of an array with rows at depth 0, with no default:
/// the row shape, and each column folded from its first byte.
pub proof fn lemma_fast_reduce_columns(op: ByteOp, v: ArrayView, identity: u8)
    requires
        well_shaped(v),
        v.0.len() > 0,
        row_count(v) > 0,
    ensures
        fast_reduce_spec(v, identity, None, 0, op, op) == (
            row_shape(v),
            Seq::new(
                row_size(v),
                |k: int|
                    fold_bytes(
                        op,
                        v.1[k],
                        column(v.1, 0, k, row_count(v) as int, row_size(v) as int).subrange(
                            1,
                            row_count(v) as int,
                        ),
                    ),
            ),
        ),
{
    let n = row_count(v) as int;
    let r = row_size(v) as int;
    lemma_rows_layout(v);
    let g = Seq::new(
        r as nat,
        |k: int| fold_bytes(op, v.1[k], column(v.1, 0, k, n, r).subrange(1, n)),
    );
    if v.0.len() == 1 {
        assert(row_shape(v) =~= Seq::<usize>::empty());
        assert(shape_size(Seq::<usize>::empty()) == 1);
        assert(r == 1);
        assert(v.1.len() == n) by (nonlinear_arith)
            requires
                v.1.len() == n * r,
                r == 1,
        ;
        let col = column(v.1, 0, 0, n, r);
        assert(col.subrange(1, n) =~= v.1.skip(1)) by {
            assert forall|i: int| 0 <= i < n - 1 implies col.subrange(1, n)[i] == v.1.skip(1)[i] by {
                assert((0 * n + (i + 1)) * r + 0 == i + 1) by (nonlinear_arith)
                    requires
                        r == 1,
                ;
            }
        }
        assert(g[0] == fold_bytes(op, v.1[0], col.subrange(1, n)));
        assert(g =~= seq![reduce_bytes(op, identity, None, v.1)]);
    } else {
        assert(v.0.take(0) =~= Seq::<usize>::empty());
        assert(shape_size(Seq::<usize>::empty()) == 1);
        assert(v.0.remove(0) =~= v.0.skip(1));
        assert(v.0.skip(0int + 1) =~= v.0.skip(1));
        let blocks = axis_blocks(v.1, 1, n, r, op, identity, None, identity);
        assert(axis_blocks(v.1, 0, n, r, op, identity, None, identity) == Seq::<u8>::empty());
        assert(blocks =~= axis_block(v.1, 0, n, r, op, identity, None, identity));
        assert forall|k: int| 0 <= k < r implies #[trigger] g[k] == blocks[k] by {
            let col = column(v.1, 0, k, n, r);
            assert(col.skip(1) =~= col.subrange(1, n));
            assert((0 * n + 0) * r + k == k) by (nonlinear_arith);
        }
        assert(g =~= blocks);
    }
}

/// The place `k` of row `j` of a scan is column `k` of rows `0..=j` folded.
pub proof fn lemma_scan_column(op: ByteOp, v: ArrayView, j: int, k: int)
    requires
        well_shaped(v),
        v.0.len() > 0,
        0 <= j < row_count(v),
        0 <= k < row_size(v),
    ensures
        scan_cell(v.1, row_size(v) as int, op, j * row_size(v) + k) == fold_bytes(
            op,
            v.1[k],
            column(v.1, 0, k, row_count(v) as int, row_size(v) as int).subrange(1, j + 1),
        ),
    decreases j,
{
    let n = row_count(v) as int;
    let r = row_size(v) as int;
    let col = column(v.1, 0, k, n, r);
    lemma_rows_layout(v);
    if j == 0 {
        assert(0 * r == 0) by (nonlinear_arith);
        assert(col.subrange(1, 1) =~= Seq::<u8>::empty());
    } else {
        lemma_scan_column(op, v, j - 1, k);
        assert(j * r + k - r == (j - 1) * r + k && j * r + k >= r) by (nonlinear_arith)
            requires
                j >= 1,
                k >= 0,
                r >= 0,
        ;
        assert((0 * n + j) * r + k == j * r + k) by (nonlinear_arith);
        assert(col.subrange(1, j + 1).drop_last() =~= col.subrange(1, j));
        assert(col.subrange(1, j + 1).last() == v.1[j * r + k]);
    }
}

/// The last row of a scan is the reduction of the array at depth 0.
pub proof fn law_scan_ends_in_reduce(op: ByteOp, v: ArrayView, identity: u8)
    requires
        well_shaped(v),
        v.0.len() > 0,
        row_count(v) > 0,
    ensures
        scan_spec(v, op).1.subrange(
            (row_count(v) - 1) * row_size(v),
            (row_count(v) * row_size(v)) as int,
        ) == fast_reduce_spec(v, identity, None, 0, op, op).1,
{
    let n = row_count(v) as int;
    let r = row_size(v) as int;
    lemma_fast_reduce_columns(op, v, identity);
    lemma_rows_layout(v);
    assert((n - 1) * r + r == n * r && 0 <= (n - 1) * r) by (nonlinear_arith)
        requires
            n >= 1,
            r >= 0,
    ;
    let last = scan_spec(v, op).1.subrange((n - 1) * r, n * r);
    let red = fast_reduce_spec(v, identity, None, 0, op, op).1;
    assert forall|k: int| 0 <= k < r implies #[trigger] last[k] == red[k] by {
        lemma_scan_column(op, v, n - 1, k);
    }
    assert(last =~= red);
}

/// A window spanning all rows gives the reduction of the array at depth 0,
/// as a single row.
pub proof fn law_full_window_is_reduce(op: ByteOp, v: ArrayView, identity: u8)
    requires
        well_shaped(v),
        v.0.len() > 0,
        row_count(v) > 0,
    ensures
        adjacent_spec(v, row_count(v), op) == Ok::<ArrayView, crate::errors::ReduceError>(
            (v.0.update(0, 1usize), fast_reduce_spec(v, identity, None, 0, op, op).1),
        ),
{
    let n = row_count(v) as int;
    let r = row_size(v) as int;
    lemma_fast_reduce_columns(op, v, identity);
    lemma_rows_layout(v);
    assert((n - (n - 1)) * r == r) by (nonlinear_arith);
    let adj = Seq::new(
        r as nat,
        |i: int| fold_bytes(op, v.1[i], window_rest(v.1, r, n, i)),
    );
    let red = fast_reduce_spec(v, identity, None, 0, op, op).1;
    assert forall|k: int| 0 <= k < r implies #[trigger] adj[k] == red[k] by {
        let col = column(v.1, 0, k, n, r);
        assert forall|j: int| 0 <= j < n - 1 implies #[trigger] window_rest(v.1, r, n, k)[j]
            == col.subrange(1, n)[j] by {
            assert((0 * n + (j + 1)) * r + k == k + (j + 1) * r) by (nonlinear_arith);
        }
        assert(window_rest(v.1, r, n, k) =~= col.subrange(1, n));
    }
    assert(adj =~= red);
    assert(v.0[0] - (n - 1) == 1);
}

/// A window of one row leaves the array as it is.
pub proof fn law_unit_window_is_identity(op: ByteOp, v: ArrayView)
    requires
        well_shaped(v),
        v.0.len() > 0,
    ensures
        adjacent_spec(v, 1, op) == Ok::<ArrayView, crate::errors::ReduceError>(v),
{
    let n = row_count(v) as int;
    let r = row_size(v) as int;
    lemma_rows_layout(v);
    if row_count(v) >= 1 {
        let adj = Seq::new(
            ((n - 0) * r) as nat,
            |i: int| fold_bytes(op, v.1[i], window_rest(v.1, r, 1, i)),
        );
        assert forall|i: int| 0 <= i < v.1.len() implies #[trigger] adj[i] == v.1[i] by {
            assert(window_rest(v.1, r, 1, i) =~= Seq::<u8>::empty());
        }
        assert(adj =~= v.1);
        assert(v.0.update(0, (v.0[0] - 0) as usize) =~= v.0);
    } else {
        assert(v.0[0] == 0);
        assert(v.0.update(0, 0usize) =~= v.0);
        assert(0 * r == 0) by (nonlinear_arith);
        assert(v.1 =~= Seq::<u8>::empty());
    }
}

/// Folding with the maximum gives a byte no smaller than the start and every
/// folded byte, and equal to one of them.
pub proof fn lemma_fold_max(init: u8, s: Seq<u8>)
    ensures
        fold_bytes(ByteOp::Max, init, s) >= init,
        forall|i: int| 0 <= i < s.len() ==> fold_bytes(ByteOp::Max, init, s) >= #[trigger] s[i],
        fold_bytes(ByteOp::Max, init, s) == init || exists|i: int|
            0 <= i < s.len() && fold_bytes(ByteOp::Max, init, s) == #[trigger] s[i],
    decreases s.len(),
{
    if s.len() > 0 {
        lemma_fold_max(init, s.drop_last());
        let prev = fold_bytes(ByteOp::Max, init, s.drop_last());
        assert forall|i: int| 0 <= i < s.len() implies fold_bytes(ByteOp::Max, init, s)
            >= #[trigger] s[i] by {
            if i < s.len() - 1 {
                assert(s.drop_last()[i] == s[i]);
            }
        }
        if fold_bytes(ByteOp::Max, init, s) != init {
            if fold_bytes(ByteOp::Max, init, s) == s.last() {
                assert(fold_bytes(ByteOp::Max, init, s) == s[s.len() - 1]);
            } else {
                let i = choose|i: int| 0 <= i < s.drop_last().len() && prev == s.drop_last()[i];
                assert(fold_bytes(ByteOp::Max, init, s) == s[i]);
            }
        }
    }
}

/// Folding with the minimum gives a byte no greater than the start and
/// every folded byte, and equal to one of them.
pub proof fn lemma_fold_min(init: u8, s: Seq<u8>)
    ensures
        fold_bytes(ByteOp::Min, init, s) <= init,
        forall|i: int| 0 <= i < s.len() ==> fold_bytes(ByteOp::Min, init, s) <= #[trigger] s[i],
        fold_bytes(ByteOp::Min, init, s) == init || exists|i: int|
            0 <= i < s.len() && fold_bytes(ByteOp::Min, init, s) == #[trigger] s[i],
    decreases s.len(),
{
    if s.len() > 0 {
        lemma_fold_min(init, s.drop_last());
        let prev = fold_bytes(ByteOp::Min, init, s.drop_last());
        assert forall|i: int| 0 <= i < s.len() implies fold_bytes(ByteOp::Min, init, s)
            <= #[trigger] s[i] by {
            if i < s.len() - 1 {
                assert(s.drop_last()[i] == s[i]);
            }
        }
        if fold_bytes(ByteOp::Min, init, s) != init {
            if fold_bytes(ByteOp::Min, init, s) == s.last() {
                assert(fold_bytes(ByteOp::Min, init, s) == s[s.len() - 1]);
            } else {
                let i = choose|i: int| 0 <= i < s.drop_last().len() && prev == s.drop_last()[i];
                assert(fold_bytes(ByteOp::Min, init, s) == s[i]);
            }
        }
    }
}

/// Reducing a list of bytes with the maximum gives its largest byte, and
/// with the minimum its smallest.
pub proof fn law_reduce_extremes(v: ArrayView, identity: u8)
    requires
        well_shaped(v),
        v.0.len() == 1,
        v.1.len() > 0,
    ensures
        fast_reduce_spec(v, identity, None, 0, ByteOp::Max, ByteOp::Max).1.len() == 1,
        forall|i: int| 0 <= i < v.1.len() ==> fast_reduce_spec(v, identity, None, 0, ByteOp::Max, ByteOp::Max).1[0] >= #[trigger] v.1[i],
        exists|i: int| 0 <= i < v.1.len() && fast_reduce_spec(v, identity, None, 0, ByteOp::Max, ByteOp::Max).1[0] == #[trigger] v.1[i],
        fast_reduce_spec(v, identity, None, 0, ByteOp::Min, ByteOp::Min).1.len() == 1,
        forall|i: int| 0 <= i < v.1.len() ==> fast_reduce_spec(v, identity, None, 0, ByteOp::Min, ByteOp::Min).1[0] <= #[trigger] v.1[i],
        exists|i: int| 0 <= i < v.1.len() && fast_reduce_spec(v, identity, None, 0, ByteOp::Min, ByteOp::Min).1[0] == #[trigger] v.1[i],
{
    let rest = v.1.skip(1);
    lemma_fold_max(v.1[0], rest);
    lemma_fold_min(v.1[0], rest);
    let mx = fold_bytes(ByteOp::Max, v.1[0], rest);
    let mn = fold_bytes(ByteOp::Min, v.1[0], rest);
    assert forall|i: int| 0 <= i < v.1.len() implies mx >= #[trigger] v.1[i] && mn <= v.1[i] by {
        if i > 0 {
            assert(rest[i - 1] == v.1[i]);
        }
    }
    if mx != v.1[0] {
        let i = choose|i: int| 0 <= i < rest.len() && mx == rest[i];
        assert(mx == v.1[i + 1]);
    } else {
        assert(mx == v.1[0]);
    }
    if mn != v.1[0] {
        let i = choose|i: int| 0 <= i < rest.len() && mn == rest[i];
        assert(mn == v.1[i + 1]);
    } else {
        assert(mn == v.1[0]);
    }
}

/// Whether every byte is zero or one.
pub open spec fn all_bits(s: Seq<u8>) -> bool {
    forall|i: int| 0 <= i < s.len() ==> #[trigger] s[i] <= 1
}

/// A scan by equality or inequality of bits gives bits.
pub proof fn lemma_scan_bits(op: ByteOp, data: Seq<u8>, r: int, i: int)
    requires
        op == ByteOp::Eq || op == ByteOp::Ne,
        all_bits(data),
        0 <= i < data.len(),
    ensures
        scan_cell(data, r, op, i) <= 1,
{
}

/// An unscan by equality or inequality undoes the scan by the same function,
/// on arrays of bits.
pub proof fn law_unscan_undoes_scan(op: ByteOp, v: ArrayView)
    requires
        op == ByteOp::Eq || op == ByteOp::Ne,
        all_bits(v.1),
    ensures
        unscan_spec(scan_spec(v, op), op) == v,
{
    let s = scan_spec(v, op);
    let r = row_size(v) as int;
    assert(row_size(s) == row_size(v));
    assert forall|i: int| 0 <= i < v.1.len() implies #[trigger] unscan_spec(s, op).1[i] == v.1[i] by {
        if r > 0 && i >= r {
            lemma_scan_bits(op, v.1, r, i - r);
            assert(v.1[i] <= 1);
        }
    }
    assert(unscan_spec(s, op).1 =~= v.1);
}

/// A scan by equality or inequality undoes the unscan by the same function,
/// on arrays of bits.
pub proof fn law_scan_undoes_unscan(op: ByteOp, v: ArrayView)
    requires
        op == ByteOp::Eq || op == ByteOp::Ne,
        all_bits(v.1),
    ensures
        scan_spec(unscan_spec(v, op), op) == v,
{
    let u = unscan_spec(v, op);
    let r = row_size(v) as int;
    assert(row_size(u) == row_size(v));
    assert forall|i: int| 0 <= i < v.1.len() implies #[trigger] scan_cell(u.1, r, op, i) == v.1[i] by {
        lemma_scan_of_unscan(op, v, i);
    }
    assert(scan_spec(u, op).1 =~= v.1);
}

/// Each place of the scan of an unscan of bits is the bit it started from.
pub proof fn lemma_scan_of_unscan(op: ByteOp, v: ArrayView, i: int)
    requires
        op == ByteOp::Eq || op == ByteOp::Ne,
        all_bits(v.1),
        0 <= i < v.1.len(),
    ensures
        scan_cell(unscan_spec(v, op).1, row_size(v) as int, op, i) == v.1[i],
    decreases i,
{
    let r = row_size(v) as int;
    if r > 0 && i >= r {
        lemma_scan_of_unscan(op, v, i - r);
        assert(v.1[i] <= 1 && v.1[i - r] <= 1);
    }
}

/// Rows whose bytes are consecutive blocks of `g` join into `g` itself.
pub proof fn lemma_concat_blocks(rows: Seq<ArrayView>, r: nat, g: spec_fn(int) -> u8)
    requires
        forall|j: int|
            0 <= j < rows.len() ==> (#[trigger] rows[j]).1 == Seq::new(r, |k: int| g(j * r + k)),
    ensures
        concat_data(rows) == Seq::new(rows.len() * r, g),
    decreases rows.len(),
{
    if rows.len() == 0 {
        assert(0 * r == 0) by (nonlinear_arith);
        assert(concat_data(rows) =~= Seq::new(rows.len() * r, g));
    } else {
        let m = rows.len() - 1;
        lemma_concat_blocks(rows.drop_last(), r, g);
        assert(rows.last() == rows[m]);
        assert(m * r + r == rows.len() * r) by (nonlinear_arith)
            requires
                m == rows.len() - 1,
        ;
        let c = concat_data(rows);
        assert forall|i: int| 0 <= i < rows.len() * r implies #[trigger] c[i] == g(i) by {
            if i >= m * r {
                let k = i - m * r;
                assert(m * r + k == i);
            }
        }
        assert(c =~= Seq::new(rows.len() * r, g));
    }
}

/// Folding the rows `i + 1..i + j` into row `i` with a pervasive function
/// folds each place down the window of `j` rows that starts at row `i`.
pub proof fn lemma_pervasive_window(op: ByteOp, v: ArrayView, i: int, j: int)
    requires
        well_shaped(v),
        v.0.len() > 0,
        0 <= i,
        1 <= j,
        i + j <= row_count(v),
    ensures
        fold_rows(Pervasive { op }, row_of(v, i), rows_of(v).subrange(i + 1, i + j)) == Ok::<
            ArrayView,
            crate::errors::ReduceError,
        >(
            (
                row_shape(v),
                Seq::new(
                    row_size(v),
                    |k: int|
                        fold_bytes(
                            op,
                            v.1[i * row_size(v) + k],
                            window_rest(v.1, row_size(v) as int, j, i * row_size(v) + k),
                        ),
                ),
            ),
        ),
    decreases j,
{
    let n = row_count(v) as int;
    let r = row_size(v) as int;
    let f = Pervasive { op };
    lemma_row_in_bounds(v, i);
    let target = Seq::new(
        r as nat,
        |k: int| fold_bytes(op, v.1[i * r + k], window_rest(v.1, r, j, i * r + k)),
    );
    if j == 1 {
        assert(rows_of(v).subrange(i + 1, i + 1) =~= Seq::<ArrayView>::empty());
        assert forall|k: int| 0 <= k < r implies #[trigger] target[k] == row_of(v, i).1[k] by {
            assert(window_rest(v.1, r, 1, i * r + k) =~= Seq::<u8>::empty());
        }
        assert(target =~= row_of(v, i).1);
    } else {
        lemma_pervasive_window(op, v, i, j - 1);
        lemma_row_in_bounds(v, i + j - 1);
        let rows = rows_of(v).subrange(i + 1, i + j);
        assert(rows.drop_last() =~= rows_of(v).subrange(i + 1, i + j - 1));
        assert(rows.last() == row_of(v, i + j - 1));
        let acc = (
            row_shape(v),
            Seq::new(
                r as nat,
                |k: int| fold_bytes(op, v.1[i * r + k], window_rest(v.1, r, j - 1, i * r + k)),
            ),
        );
        let row = row_of(v, i + j - 1);
        assert(row.1.len() == r);
        assert(f.spec_call(seq![row, acc]) == Ok::<Seq<ArrayView>, crate::errors::ReduceError>(
            seq![(acc.0, Seq::new(acc.1.len(), |q: int| byte_op(op, acc.1[q], row.1[q])))],
        ));
        assert forall|k: int| 0 <= k < r implies #[trigger] target[k] == byte_op(
            op,
            acc.1[k],
            row.1[k],
        ) by {
            let w = window_rest(v.1, r, j, i * r + k);
            assert(w.drop_last() =~= window_rest(v.1, r, j - 1, i * r + k));
            assert(i * r + k + (j - 2 + 1) * r == (i + j - 1) * r + k) by (nonlinear_arith);
            assert(w.last() == row.1[k]);
        }
        assert(target =~= Seq::new(acc.1.len(), |q: int| byte_op(op, acc.1[q], row.1[q])));
    }
}

/// A shape with rows is its row count followed by its row shape.
pub proof fn lemma_shape_split(v: ArrayView)
    requires
        v.0.len() > 0,
    ensures
        v.0 == seq![v.0[0]] + row_shape(v),
{
    assert(v.0 =~= seq![v.0[0]] + v.0.skip(1));
}

/// The fast windowed fold agrees with the windowed fold that calls the
/// pervasive function on whole rows.
pub proof fn law_fast_adjacent_matches_rows(op: ByteOp, v: ArrayView, n: nat)
    requires
        well_shaped(v),
        v.0.len() > 0,
        n >= 1,
    ensures
        generic_adjacent_spec(Pervasive { op }, v, n) == adjacent_spec(v, n, op),
{
    let f = Pervasive { op };
    let rc = row_count(v) as int;
    let r = row_size(v) as int;
    lemma_rows_layout(v);
    if rc >= n {
        let count = rc - (n - 1);
        let rows = rows_of(v);
        let g = |i: int| fold_rows(f, rows[i], rows.subrange(i + 1, i + n));
        let cell = |q: int| fold_bytes(op, v.1[q], window_rest(v.1, r, n as int, q));
        let blocks = Seq::new(
            count as nat,
            |i: int| (row_shape(v), Seq::new(r as nat, |k: int| cell(i * r + k))),
        );
        assert forall|i: int| 0 <= i < count implies #[trigger] g(i) == Ok::<
            ArrayView,
            crate::errors::ReduceError,
        >(blocks[i]) by {
            lemma_pervasive_window(op, v, i, n as int);
            assert(rows[i] == row_of(v, i));
            assert(Seq::new(
                r as nat,
                |k: int| fold_bytes(op, v.1[i * r + k], window_rest(v.1, r, n as int, i * r + k)),
            ) =~= Seq::new(r as nat, |k: int| cell(i * r + k)));
        }
        lemma_collect_from(count as nat, g, blocks);
        assert(window_rows(f, rows, n) == collect(count as nat, g));
        assert(same_shapes(blocks));
        lemma_concat_blocks(blocks, r as nat, cell);
        lemma_shape_split(v);
        assert(seq![count as usize] + row_shape(v) =~= v.0.update(0, (v.0[0] - (n - 1)) as usize));
        if count > 0 {
            assert(blocks[0].0 == row_shape(v));
        }
    }
}

/// A collection whose every result is known is those results.
pub proof fn lemma_collect_from(
    n: nat,
    g: spec_fn(int) -> Result<ArrayView, crate::errors::ReduceError>,
    s: Seq<ArrayView>,
)
    requires
        s.len() == n,
        forall|i: int| 0 <= i < n ==> #[trigger] g(i) == Ok::<ArrayView, crate::errors::ReduceError>(s[i]),
    ensures
        collect(n, g) == Ok::<Seq<ArrayView>, crate::errors::ReduceError>(s),
    decreases n,
{
    if n > 0 {
        lemma_collect_from((n - 1) as nat, g, s.drop_last());
        assert(g(n - 1) == Ok::<ArrayView, crate::errors::ReduceError>(s[n - 1]));
        assert(s.drop_last().push(s[n - 1]) =~= s);
    } else {
        assert(s =~= Seq::<ArrayView>::empty());
    }
}

/// The rows of the scan by a pervasive function, as a sequence of rows.
pub open spec fn scanned_rows(op: ByteOp, v: ArrayView) -> Seq<ArrayView> {
    Seq::new(
        row_count(v),
        |j: int|
            (
                row_shape(v),
                Seq::new(
                    row_size(v),
                    |k: int| scan_cell(v.1, row_size(v) as int, op, j * row_size(v) + k),
                ),
            ),
    )
}

/// Scanning the first `m` rows with a pervasive function gives the first
/// `m` rows of the fast scan.
pub proof fn lemma_scan_rows_pervasive(op: ByteOp, v: ArrayView, m: int)
    requires
        well_shaped(v),
        v.0.len() > 0,
        1 <= m <= row_count(v),
    ensures
        scan_rows(Pervasive { op }, rows_of(v).take(m)) == Ok::<
            Seq<ArrayView>,
            crate::errors::ReduceError,
        >(scanned_rows(op, v).take(m)),
    decreases m,
{
    let f = Pervasive { op };
    let r = row_size(v) as int;
    let s = scanned_rows(op, v);
    lemma_rows_layout(v);
    lemma_row_in_bounds(v, m - 1);
    if m == 1 {
        assert(0 * r == 0) by (nonlinear_arith);
        assert(row_of(v, 0).1 =~= s[0].1);
        assert(rows_of(v).take(1) =~= s.take(1));
    } else {
        lemma_scan_rows_pervasive(op, v, m - 1);
        let rows = rows_of(v).take(m);
        assert(rows.drop_last() =~= rows_of(v).take(m - 1));
        assert(rows.last() == row_of(v, m - 1));
        let p = s.take(m - 1);
        assert(p.last() == s[m - 2]);
        let row = row_of(v, m - 1);
        assert(f.spec_call(seq![row, s[m - 2]]) == Ok::<
            Seq<ArrayView>,
            crate::errors::ReduceError,
        >(seq![(s[m - 2].0, Seq::new(s[m - 2].1.len(), |q: int| byte_op(op, s[m - 2].1[q], row.1[q])))]));
        assert forall|k: int| 0 <= k < r implies #[trigger] s[m - 1].1[k] == byte_op(
            op,
            s[m - 2].1[k],
            row.1[k],
        ) by {
            assert((m - 1) * r + k - r == (m - 2) * r + k && (m - 1) * r + k >= r) by (
            nonlinear_arith)
                requires
                    m >= 2,
                    k >= 0,
                    r > 0,
            ;
        }
        assert(s[m - 1].1 =~= Seq::new(s[m - 2].1.len(), |q: int| byte_op(op, s[m - 2].1[q], row.1[q])));
        assert(p.push(s[m - 1]) =~= s.take(m));
    }
}

/// The fast scan agrees with the scan that calls the pervasive function on
/// whole rows.
pub proof fn law_fast_scan_matches_rows(op: ByteOp, v: ArrayView)
    requires
        well_shaped(v),
        v.0.len() > 0,
    ensures
        generic_scan_spec(Pervasive { op }, v) == Ok::<ArrayView, crate::errors::ReduceError>(
            scan_spec(v, op),
        ),
{
    let rc = row_count(v) as int;
    let r = row_size(v) as int;
    lemma_rows_layout(v);
    if rc == 0 {
        assert(v.0.update(0, 0usize) =~= v.0);
        assert(0 * r == 0) by (nonlinear_arith);
        assert(scan_spec(v, op).1 =~= Seq::<u8>::empty());
    } else {
        lemma_scan_rows_pervasive(op, v, rc);
        let s = scanned_rows(op, v);
        assert(rows_of(v).take(rc) =~= rows_of(v));
        assert(s.take(rc) =~= s);
        let cell = |q: int| scan_cell(v.1, r, op, q);
        assert forall|j: int| 0 <= j < s.len() implies (#[trigger] s[j]).1 == Seq::new(
            r as nat,
            |k: int| cell(j * r + k),
        ) by {
            assert(s[j].1 =~= Seq::new(r as nat, |k: int| cell(j * r + k)));
        }
        lemma_concat_blocks(s, r as nat, cell);
        assert(same_shapes(s));
        lemma_shape_split(v);
        assert(scan_spec(v, op).1 =~= Seq::new(s.len() * (r as nat), cell));
    }
}

/// The fast unscan agrees with the unscan that calls the pervasive function
/// on whole rows.
pub proof fn law_fast_unscan_matches_rows(op: ByteOp, v: ArrayView)
    requires
        well_shaped(v),
        v.0.len() > 0,
    ensures
        invscan_values(Pervasive { op }, v) == Ok::<ArrayView, crate::errors::ReduceError>(
            unscan_spec(v, op),
        ),
{
    let f = Pervasive { op };
    let rc = row_count(v) as int;
    let r = row_size(v) as int;
    lemma_rows_layout(v);
    if rc == 0 {
        assert(v.0.update(0, 0usize) =~= v.0);
        assert(0 * r == 0) by (nonlinear_arith);
        assert(unscan_spec(v, op).1 =~= Seq::<u8>::empty());
    } else {
        let rows = rows_of(v);
        let cell = |q: int| unscan_cell(v.1, r, op, q);
        let us = Seq::new(
            rc as nat,
            |i: int| (row_shape(v), Seq::new(r as nat, |k: int| cell(i * r + k))),
        );
        let g = |i: int|
            if i == 0 {
                Ok(rows[0])
            } else {
                apply2(f, rows[i - 1], rows[i])
            };
        assert forall|i: int| 0 <= i < rc implies #[trigger] g(i) == Ok::<
            ArrayView,
            crate::errors::ReduceError,
        >(us[i]) by {
            lemma_row_in_bounds(v, i);
            if i == 0 {
                assert(0 * r == 0) by (nonlinear_arith);
                assert(rows[0].1 =~= us[0].1);
            } else {
                lemma_row_in_bounds(v, i - 1);
                let a = rows[i - 1];
                let b = rows[i];
                assert(f.spec_call(seq![b, a]) == Ok::<Seq<ArrayView>, crate::errors::ReduceError>(
                    seq![(a.0, Seq::new(a.1.len(), |q: int| byte_op(op, a.1[q], b.1[q])))],
                ));
                assert forall|k: int| 0 <= k < r implies #[trigger] us[i].1[k] == byte_op(
                    op,
                    a.1[k],
                    b.1[k],
                ) by {
                    assert(i * r + k - r == (i - 1) * r + k && i * r + k >= r) by (
                    nonlinear_arith)
                        requires
                            i >= 1,
                            k >= 0,
                            r > 0,
                    ;
                }
                assert(us[i].1 =~= Seq::new(a.1.len(), |q: int| byte_op(op, a.1[q], b.1[q])));
            }
        }
        lemma_collect_from(rc as nat, g, us);
        assert(unscan_rows(f, rows) == collect(rows.len(), g));
        assert forall|j: int| 0 <= j < us.len() implies (#[trigger] us[j]).1 == Seq::new(
            r as nat,
            |k: int| cell(j * r + k),
        ) by {}
        lemma_concat_blocks(us, r as nat, cell);
        assert(same_shapes(us));
        lemma_shape_split(v);
        assert(unscan_spec(v, op).1 =~= Seq::new(us.len() * (r as nat), cell));
    }
}

/// Joining rows `1..j` onto row 0 puts the first `j` rows together.
pub proof fn lemma_join_fold(v: ArrayView, j: int)
    requires
        well_shaped(v),
        v.0.len() >= 2,
        v.0[0] * v.0[1] <= usize::MAX,
        1 <= j <= row_count(v),
    ensures
        fold_rows(Join, row_of(v, 0), rows_of(v).subrange(1, j)) == Ok::<
            ArrayView,
            crate::errors::ReduceError,
        >(
            (
                seq![(j * v.0[1]) as usize] + v.0.skip(2),
                v.1.subrange(0, j * row_size(v)),
            ),
        ),
    decreases j,
{
    let r = row_size(v) as int;
    let n = row_count(v) as int;
    let s1 = v.0[1] as int;
    lemma_rows_layout(v);
    lemma_row_in_bounds(v, j - 1);
    lemma_split(v.0, 2);
    lemma_size_cons(v.0.take(2));
    lemma_size_cons(v.0.take(2).skip(1));
    assert(v.0.take(2).skip(1).skip(1) =~= Seq::<usize>::empty());
    assert(shape_size(v.0.take(2)) == n * (s1 * 1));
    assert(j * s1 <= n * (s1 * 1)) by (nonlinear_arith)
        requires
            j <= n,
            s1 >= 0,
    ;
    assert(v.0.skip(1) =~= seq![v.0[1]] + v.0.skip(2));
    if j == 1 {
        assert(rows_of(v).subrange(1, 1) =~= Seq::<ArrayView>::empty());
        assert(1 * s1 == s1);
        assert(0 * r == 0) by (nonlinear_arith);
        assert(1 * r == r);
    } else {
        lemma_join_fold(v, j - 1);
        let rows = rows_of(v).subrange(1, j);
        assert(rows.drop_last() =~= rows_of(v).subrange(1, j - 1));
        assert(rows.last() == row_of(v, j - 1));
        let acc = (seq![((j - 1) * s1) as usize] + v.0.skip(2), v.1.subrange(0, (j - 1) * r));
        let row = row_of(v, j - 1);
        assert((j - 1) * s1 + s1 == j * s1) by (nonlinear_arith);
        assert((j - 1) * r + r == j * r) by (nonlinear_arith);
        assert(0 <= (j - 1) * s1) by (nonlinear_arith)
            requires
                j >= 1,
                s1 >= 0,
        ;
        assert(acc.0.skip(1) =~= v.0.skip(2));
        assert(row.0.skip(1) =~= v.0.skip(2));
        assert(row_shape(acc) == row_shape(row));
        assert(acc.0[0] + row.0[0] == j * s1);
        assert(seq![(j * s1) as usize] + row_shape(acc) =~= seq![(j * s1) as usize] + v.0.skip(2));
        assert(acc.1 + row.1 =~= v.1.subrange(0, j * r));
        assert(join_spec(acc, row) == Ok::<ArrayView, crate::errors::ReduceError>(
            (seq![(j * s1) as usize] + v.0.skip(2), v.1.subrange(0, j * r)),
        ));
    }
}

/// Joining the scalars `1..j` of a list onto its first gives its first `j`
/// bytes as a list.
pub proof fn lemma_join_fold_list(v: ArrayView, j: int)
    requires
        well_shaped(v),
        v.0.len() == 1,
        2 <= j <= row_count(v),
    ensures
        fold_rows(Join, row_of(v, 0), rows_of(v).subrange(1, j)) == Ok::<
            ArrayView,
            crate::errors::ReduceError,
        >((seq![j as usize], v.1.subrange(0, j))),
    decreases j,
{
    lemma_rows_layout(v);
    assert(row_shape(v) =~= Seq::<usize>::empty());
    assert(shape_size(Seq::<usize>::empty()) == 1);
    assert(row_size(v) == 1);
    let rc = row_count(v) as int;
    assert(v.1.len() == rc) by (nonlinear_arith)
        requires
            v.1.len() == rc * 1,
    ;
    let rows = rows_of(v).subrange(1, j);
    assert(rows.drop_last() =~= rows_of(v).subrange(1, j - 1));
    assert(rows.last() == row_of(v, j - 1));
    let row = row_of(v, j - 1);
    assert(row.1 =~= v.1.subrange(j - 1, j));
    if j == 2 {
        assert(rows_of(v).subrange(1, 1) =~= Seq::<ArrayView>::empty());
        let first = row_of(v, 0);
        assert(first.1 =~= v.1.subrange(0, 1));
        assert(first.1 + row.1 =~= v.1.subrange(0, 2));
    } else {
        lemma_join_fold_list(v, j - 1);
        let acc = (seq![(j - 1) as usize], v.1.subrange(0, j - 1));
        assert(row_shape(acc) =~= Seq::<usize>::empty());
        assert(acc.1 + row.1 =~= v.1.subrange(0, j));
        assert(seq![j as usize] + row.0 =~= seq![j as usize]);
        assert(join_spec(acc, row) == Ok::<ArrayView, crate::errors::ReduceError>(
            (seq![j as usize], v.1.subrange(0, j)),
        ));
    }
}

/// A reduce by join merges the first two axes, as joining the rows one by
/// one does; a list of two or more bytes stays as it is.
pub proof fn law_join_reduce_matches_rows(v: ArrayView)
    requires
        well_shaped(v),
        join_fits(v, 0),
        (v.0.len() >= 2 && row_count(v) >= 1) || (v.0.len() == 1 && row_count(v) >= 2),
    ensures
        generic_reduce_spec(Join, v, 0, None) == Ok::<ArrayView, crate::errors::ReduceError>(
            join_axes_spec(v, 0),
        ),
{
    let n = row_count(v) as int;
    let r = row_size(v) as int;
    lemma_rows_layout(v);
    assert(rows_of(v)[0] == row_of(v, 0));
    assert(rows_of(v).skip(1) =~= rows_of(v).subrange(1, n));
    if v.0.len() >= 2 {
        lemma_join_fold(v, n);
        assert(v.1.subrange(0, n * r) =~= v.1);
        assert(v.0.take(0) + seq![(v.0[0] * v.0[1]) as usize] + v.0.skip(2) =~= seq![(n * v.0[1]) as usize] + v.0.skip(2));
    } else {
        lemma_join_fold_list(v, n);
        assert(row_shape(v) =~= Seq::<usize>::empty());
        assert(shape_size(Seq::<usize>::empty()) == 1);
        assert(v.1.len() == n) by (nonlinear_arith)
            requires
                v.1.len() == n * r,
                r == 1,
        ;
        assert(v.1.subrange(0, n) =~= v.1);
        assert(seq![n as usize] =~= v.0);
    }
}

/// The reduced chunks laid out one after another: place `k` of chunk `c`.
pub proof fn lemma_axis_blocks_index(
    data: Seq<u8>,
    p: nat,
    n: int,
    r: int,
    op: ByteOp,
    identity: u8,
    default: Option<u8>,
    empty_value: u8,
    c: int,
    k: int,
)
    requires
        r >= 0,
        0 <= c < p,
        0 <= k < r,
    ensures
        c * r + k < p * r,
        axis_blocks(data, p, n, r, op, identity, default, empty_value)[c * r + k] == axis_block(
            data,
            c,
            n,
            r,
            op,
            identity,
            default,
            empty_value,
        )[k],
    decreases p,
{
    crate::fast::lemma_axis_blocks_len(data, (p - 1) as nat, n, r, op, identity, default, empty_value);
    assert(c * r + k < p * r) by (nonlinear_arith)
        requires
            0 <= c < p,
            0 <= k < r,
    ;
    if c < p - 1 {
        lemma_axis_blocks_index(data, (p - 1) as nat, n, r, op, identity, default, empty_value, c, k);
    } else {
        assert(c * r == (p - 1) * r);
    }
}

/// Chunk `c` of row `i`'s chunks is chunk `i * q + c` of the whole array,
/// where each row holds `q` chunks of `n` rows of `r` bytes.
pub proof fn lemma_chunk_of_row(
    data: Seq<u8>,
    i: int,
    q: int,
    c: int,
    n: int,
    r: int,
    op: ByteOp,
    identity: u8,
)
    requires
        0 <= i,
        0 <= c < q,
        n > 0,
        r >= 0,
        (i + 1) * (q * n * r) <= data.len(),
    ensures
        axis_block(
            data.subrange(i * (q * n * r), (i + 1) * (q * n * r)),
            c,
            n,
            r,
            op,
            identity,
            None,
            identity,
        ) == axis_block(data, i * q + c, n, r, op, identity, None, identity),
{
    assert(0 <= q * n * r && 0 <= i * (q * n * r) && (i + 1) * (q * n * r) == i * (q * n * r) + q * n * r)
        by (nonlinear_arith)
        requires
            0 <= i,
            0 <= q,
            0 <= n,
            0 <= r,
    ;
    let row = data.subrange(i * (q * n * r), (i + 1) * (q * n * r));
    assert forall|k: int| 0 <= k < r implies #[trigger] column(row, c, k, n, r) =~= column(
        data,
        i * q + c,
        k,
        n,
        r,
    ) by {
        assert forall|j: int| 0 <= j < n implies column(row, c, k, n, r)[j] == column(
            data,
            i * q + c,
            k,
            n,
            r,
        )[j] by {
            assert((i * q + c) * n == i * q * n + c * n) by (nonlinear_arith);
            assert((i * q * n + (c * n + j)) * r == i * q * n * r + (c * n + j) * r)
                by (nonlinear_arith);
            assert(i * q * n * r == i * (q * n * r)) by (nonlinear_arith);
            assert(((i * q + c) * n + j) * r + k == i * (q * n * r) + ((c * n + j) * r + k));
            crate::fast::lemma_cell_index(c, j, k, n, r, q);
            assert((c + 1) * n * r <= q * n * r);
            let x = (c * n + j) * r + k;
            assert(0 <= x < q * n * r);
            assert(row.len() == q * n * r);
            assert(row[x] == data[i * (q * n * r) + x]);
            assert(column(row, c, k, n, r)[j] == row[x]);
        }
    }
    assert(axis_block(row, c, n, r, op, identity, None, identity) =~= axis_block(
        data,
        i * q + c,
        n,
        r,
        op,
        identity,
        None,
        identity,
    ));
}

/// Reducing each row with a pervasive function at `depth`, where each gives
/// the fast reduction, gives the fast reductions in order.
pub proof fn lemma_reduce_each_fast(op: ByteOp, rows: Seq<ArrayView>, depth: nat, identity: u8)
    requires
        forall|i: int|
            0 <= i < rows.len() ==> generic_reduce_spec(Pervasive { op }, #[trigger] rows[i], depth, None)
                == Ok::<ArrayView, crate::errors::ReduceError>(
                fast_reduce_spec(rows[i], identity, None, depth, op, op),
            ),
    ensures
        reduce_each(Pervasive { op }, rows, depth, None) == Ok::<
            Seq<ArrayView>,
            crate::errors::ReduceError,
        >(Seq::new(rows.len(), |i: int| fast_reduce_spec(rows[i], identity, None, depth, op, op))),
    decreases rows.len(),
{
    if rows.len() > 0 {
        lemma_reduce_each_fast(op, rows.drop_last(), depth, identity);
        assert(rows.last() == rows[rows.len() - 1]);
        assert(Seq::new(
            rows.drop_last().len(),
            |i: int| fast_reduce_spec(rows.drop_last()[i], identity, None, depth, op, op),
        ).push(fast_reduce_spec(rows.last(), identity, None, depth, op, op)) =~= Seq::new(
            rows.len(),
            |i: int| fast_reduce_spec(rows[i], identity, None, depth, op, op),
        ));
    } else {
        assert(Seq::new(rows.len(), |i: int| fast_reduce_spec(rows[i], identity, None, depth, op, op))
            =~= Seq::<ArrayView>::empty());
    }
}

/// The reduction of row `i` of a list of rows of `n` bytes is place `i` of
/// the reduction of the whole along its rows.
pub proof fn lemma_list_row_chunk(op: ByteOp, data: Seq<u8>, i: int, n: int, p: int, identity: u8)
    requires
        0 <= i < p,
        n > 0,
        p * n <= data.len(),
    ensures
        seq![reduce_bytes(op, identity, None, data.subrange(i * n, i * n + n))] =~= Seq::new(
            1,
            |t: int| axis_blocks(data, p as nat, n, 1, op, identity, None, identity)[i + t],
        ),
{
    assert(0 <= i * n && i * n + n <= p * n && (i + 1) * (1 * n * 1) == i * n + n && i * (1 * n * 1) == i * n)
        by (nonlinear_arith)
        requires
            0 <= i < p,
            n > 0,
    ;
    lemma_axis_blocks_index(data, p as nat, n, 1, op, identity, None, identity, i, 0);
    lemma_chunk_of_row(data, i, 1, 0, n, 1, op, identity);
    let row = data.subrange(i * n, i * n + n);
    let col = column(row, 0, 0, n, 1);
    assert forall|j: int| 0 <= j < n implies col[j] == row[j] by {
        assert((0 * n + j) * 1 + 0 == j);
    }
    assert(col =~= row);
    assert(i * 1 + 0 == i);
}

/// The reduction of row `i`, made of `q` chunks of `n` rows of `r` bytes, is
/// the `i`-th run of `q * r` bytes of the reduction of the whole.
pub proof fn lemma_row_chunks(
    op: ByteOp,
    data: Seq<u8>,
    i: int,
    q: int,
    n: int,
    r: int,
    p: int,
    identity: u8,
)
    requires
        0 <= i,
        0 <= q,
        n > 0,
        r >= 0,
        (i + 1) * q <= p,
        (i + 1) * (q * n * r) <= data.len(),
    ensures
        axis_blocks(
            data.subrange(i * (q * n * r), (i + 1) * (q * n * r)),
            q as nat,
            n,
            r,
            op,
            identity,
            None,
            identity,
        ) =~= Seq::new(
            (q * r) as nat,
            |t: int| axis_blocks(data, p as nat, n, r, op, identity, None, identity)[i * (q * r) + t],
        ),
{
    let row = data.subrange(i * (q * n * r), (i + 1) * (q * n * r));
    assert(0 <= q * n * r && 0 <= i * (q * n * r) && (i + 1) * (q * n * r) == i * (q * n * r) + q * n * r)
        by (nonlinear_arith)
        requires
            0 <= i,
            0 <= q,
            0 <= n,
            0 <= r,
    ;
    crate::fast::lemma_axis_blocks_len(row, q as nat, n, r, op, identity, None, identity);
    let whole = axis_blocks(data, p as nat, n, r, op, identity, None, identity);
    let mine = axis_blocks(row, q as nat, n, r, op, identity, None, identity);
    assert forall|t: int| 0 <= t < q * r implies #[trigger] mine[t] == whole[i * (q * r) + t] by {
        assert(r > 0) by (nonlinear_arith)
            requires
                0 <= t < q * r,
                q >= 0,
        ;
        let c = t / r;
        let k = t % r;
        assert(t == c * r + k && 0 <= k < r && 0 <= c < q) by (nonlinear_arith)
            requires
                r > 0,
                0 <= t < q * r,
                c == t / r,
                k == t % r,
        ;
        lemma_axis_blocks_index(row, q as nat, n, r, op, identity, None, identity, c, k);
        lemma_chunk_of_row(data, i, q, c, n, r, op, identity);
        assert(i * q + c < p) by (nonlinear_arith)
            requires
                0 <= i,
                0 <= c < q,
                (i + 1) * q <= p,
        ;
        lemma_axis_blocks_index(data, p as nat, n, r, op, identity, None, identity, i * q + c, k);
        assert(i * (q * r) + t == (i * q + c) * r + k) by (nonlinear_arith)
            requires
                t == c * r + k,
        ;
    }
}

/// The sizes behind a reduction at depth `d`: each of the `rc` rows holds
/// `q` chunks of `n` rows of `r` bytes, and the whole has `p = rc * q` chunks.
pub proof fn lemma_depth_sizes(v: ArrayView, d: int)
    requires
        well_shaped(v),
        1 <= d < v.0.len(),
    ensures
        ({
            let q = shape_size(v.0.skip(1).take(d - 1));
            let n = v.0[d] as int;
            let r = shape_size(v.0.skip(d + 1)) as int;
            &&& row_size(v) == q * n * r
            &&& shape_size(v.0.take(d)) == row_count(v) * q
            &&& v.1.len() == row_count(v) * (q * n * r)
        }),
{
    let rs = v.0.skip(1);
    let q = shape_size(rs.take(d - 1));
    let n = v.0[d] as int;
    let r = shape_size(v.0.skip(d + 1)) as int;
    lemma_rows_layout(v);
    assert(rs.skip(d - 1) =~= v.0.skip(d));
    lemma_split(rs, d - 1);
    lemma_size_cons(v.0.skip(d));
    assert(v.0.skip(d).skip(1) =~= v.0.skip(d + 1));
    assert(row_size(v) == q * (n * r));
    assert(q * (n * r) == q * n * r) by (nonlinear_arith);
    assert(v.0.take(d) =~= seq![v.0[0]] + rs.take(d - 1));
    crate::shape::lemma_size_append(seq![v.0[0]], rs.take(d - 1));
    assert(seq![v.0[0]].drop_first() =~= Seq::<usize>::empty());
    assert(shape_size(seq![v.0[0]]) == (v.0[0] as nat) * shape_size(Seq::<usize>::empty()));
    assert((v.0[0] as nat) * 1 == v.0[0] as nat) by (nonlinear_arith);
}

/// The fast reduction of row `i` one level less deep is the `i`-th run of the
/// fast reduction of the whole.
pub proof fn lemma_row_of_fast_reduce(op: ByteOp, v: ArrayView, depth: nat, identity: u8, i: int)
    requires
        well_shaped(v),
        1 <= depth < v.0.len(),
        forall|t: int| 0 <= t <= depth ==> #[trigger] v.0[t] > 0,
        0 <= i < row_count(v),
    ensures
        ({
            let d = depth as int;
            let q = shape_size(v.0.skip(1).take(d - 1));
            let n = v.0[d] as int;
            let r = shape_size(v.0.skip(d + 1)) as int;
            let p = shape_size(v.0.take(d));
            fast_reduce_spec(rows_of(v)[i], identity, None, (depth - 1) as nat, op, op).1 =~= Seq::new(
                (q * r) as nat,
                |t: int| axis_blocks(v.1, p, n, r, op, identity, None, identity)[i * (q * r) + t],
            )
        }),
{
    let d = depth as int;
    let rc = row_count(v) as int;
    let q = shape_size(v.0.skip(1).take(d - 1));
    let n = v.0[d] as int;
    let r = shape_size(v.0.skip(d + 1)) as int;
    let p = shape_size(v.0.take(d));
    lemma_depth_sizes(v, d);
    lemma_rows_layout(v);
    lemma_row_in_bounds(v, i);
    let row = rows_of(v)[i];
    assert(row == row_of(v, i));
    assert(row.0 == v.0.skip(1));
    assert(i * (q * n * r) + q * n * r == (i + 1) * (q * n * r)) by (nonlinear_arith);
    assert(row.1 == v.1.subrange(i * (q * n * r), (i + 1) * (q * n * r)));
    assert((i + 1) * q <= p) by (nonlinear_arith)
        requires
            0 <= i < rc,
            p == rc * q,
            q >= 0,
    ;
    assert((i + 1) * (q * n * r) <= v.1.len()) by (nonlinear_arith)
        requires
            0 <= i < rc,
            v.1.len() == rc * (q * n * r),
            q * n * r >= 0,
    ;
    if d == 1 && row.0.len() == 1 {
        assert(q == 1) by {
            assert(v.0.skip(1).take(0) =~= Seq::<usize>::empty());
        }
        assert(r == 1) by {
            assert(v.0.skip(2) =~= Seq::<usize>::empty());
        }
        assert(i * (q * n * r) == i * n && i * (q * r) == i && (i + 1) * (q * n * r) == i * n + n
            && p * n <= v.1.len() && p == rc && q * r == 1) by (nonlinear_arith)
            requires
                q == 1,
                r == 1,
                p == rc * q,
                v.1.len() == rc * (q * n * r),
        ;
        lemma_list_row_chunk(op, v.1, i, n, p as int, identity);
        assert(row.1 == v.1.subrange(i * n, i * n + n));
        assert(fast_reduce_spec(row, identity, None, 0, op, op).1 == seq![reduce_bytes(op, identity, None, row.1)]);
        let blocks = axis_blocks(v.1, p, n, r, op, identity, None, identity);
        assert(Seq::new((q * r) as nat, |t: int| blocks[i * (q * r) + t]) =~= Seq::new(
            1,
            |t: int| blocks[i + t],
        ));
    } else {
        assert(row.0.skip(d) =~= v.0.skip(d + 1));
        assert(row.0.take(d - 1) =~= v.0.skip(1).take(d - 1));
        assert(row.0[d - 1] == v.0[d]);
        assert(fast_reduce_spec(row, identity, None, (depth - 1) as nat, op, op).1 == axis_blocks(
            row.1,
            q,
            n,
            r,
            op,
            identity,
            None,
            identity,
        ));
        lemma_row_chunks(op, v.1, i, q as int, n, r, p as int, identity);
    }
}

/// The fast reduction agrees with the reduction that calls the pervasive
/// function on whole rows at every depth, where no axis down to the reduced
/// one is empty.
#[verifier::spinoff_prover]
#[verifier::rlimit(50)]
pub proof fn law_fast_reduce_matches_rows_at_depth(
    op: ByteOp,
    v: ArrayView,
    depth: nat,
    identity: u8,
)
    requires
        well_shaped(v),
        depth < v.0.len(),
        forall|i: int| 0 <= i <= depth ==> #[trigger] v.0[i] > 0,
    ensures
        generic_reduce_spec(Pervasive { op }, v, depth, None) == Ok::<
            ArrayView,
            crate::errors::ReduceError,
        >(fast_reduce_spec(v, identity, None, depth, op, op)),
    decreases depth,
{
    let f = Pervasive { op };
    if depth == 0 {
        law_fast_reduce_matches_rows(op, v, identity);
    } else {
        let d = depth as int;
        let rc = row_count(v) as int;
        let rows = rows_of(v);
        lemma_rows_layout(v);
        assert forall|i: int| 0 <= i < rows.len() implies generic_reduce_spec(
            f,
            #[trigger] rows[i],
            (depth - 1) as nat,
            None,
        ) == Ok::<ArrayView, crate::errors::ReduceError>(
            fast_reduce_spec(rows[i], identity, None, (depth - 1) as nat, op, op),
        ) by {
            lemma_row_in_bounds(v, i);
            let row = rows[i];
            assert(row.0 == v.0.skip(1));
            assert forall|t: int| 0 <= t <= depth - 1 implies #[trigger] row.0[t] > 0 by {
                assert(row.0[t] == v.0[t + 1]);
            }
            law_fast_reduce_matches_rows_at_depth(op, row, (depth - 1) as nat, identity);
        }
        lemma_reduce_each_fast(op, rows, (depth - 1) as nat, identity);
        let outs = Seq::new(
            rows.len(),
            |i: int| fast_reduce_spec(rows[i], identity, None, (depth - 1) as nat, op, op),
        );
        let rs = v.0.skip(1);
        let q = shape_size(rs.take(d - 1));
        let n = v.0[d] as int;
        let r = shape_size(v.0.skip(d + 1)) as int;
        let p = shape_size(v.0.take(d));
        lemma_depth_sizes(v, d);
        let whole = axis_blocks(v.1, p, n, r, op, identity, None, identity);
        let g = |t: int| whole[t];
        assert forall|i: int| 0 <= i < outs.len() implies (#[trigger] outs[i]).1 == Seq::new(
            (q * r) as nat,
            |t: int| g(i * (q * r) + t),
        ) by {
            lemma_row_of_fast_reduce(op, v, depth, identity, i);
        }
        lemma_concat_blocks(outs, (q * r) as nat, g);
        crate::fast::lemma_axis_blocks_len(v.1, p, n, r, op, identity, None, identity);
        assert(rc * (q * r) == p * r) by (nonlinear_arith)
            requires
                p == rc * q,
        ;
        assert(concat_data(outs) =~= whole);
        assert forall|i: int| 0 <= i < outs.len() implies #[trigger] outs[i].0 == rs.remove(d - 1) by {
            assert(rows[i].0 == rs);
        }
        assert(same_shapes(outs));
        lemma_shape_split(v);
        assert(seq![rc as usize] + rs.remove(d - 1) =~= v.0.remove(d));
    }
}

/// A pervasive function gives the same whichever array comes first.
pub proof fn lemma_pervasive_commutes(op: ByteOp, a: ArrayView, b: ArrayView)
    ensures
        pervasive_spec(op, a, b) == (match pervasive_spec(op, b, a) {
            Ok(x) => Ok::<ArrayView, crate::errors::ReduceError>((a.0, x.1)),
            Err(e) => Err(e),
        }),
{
    if a.0 == b.0 && a.1.len() == b.1.len() {
        assert(Seq::new(a.1.len(), |i: int| byte_op(op, a.1[i], b.1[i])) =~= Seq::new(
            b.1.len(),
            |i: int| byte_op(op, b.1[i], a.1[i]),
        ));
    }
}

/// After `k` steps, a fold by a pervasive function with one accumulator has
/// folded the first `k` rows into it.
pub proof fn lemma_fold_steps_pervasive(op: ByteOp, acc: ArrayView, v: ArrayView, k: nat)
    requires
        k <= rows_of(v).len(),
    ensures
        fold_steps(Pervasive { op }, seq![acc], seq![v], k) == single(
            fold_rows(Pervasive { op }, acc, rows_of(v).take(k as int)),
        ),
    decreases k,
{
    let f = Pervasive { op };
    if k == 0 {
        assert(rows_of(v).take(0) =~= Seq::<ArrayView>::empty());
    } else {
        lemma_fold_steps_pervasive(op, acc, v, (k - 1) as nat);
        let rows = rows_of(v).take(k as int);
        assert(rows.drop_last() =~= rows_of(v).take(k - 1));
        let row = rows.last();
        assert(row == row_of(v, k - 1));
        assert(fold_pushed(seq![v], k - 1) =~= seq![row]) by {
            if !is_iterated(v) {
                assert(k - 1 == 0);
            }
        }
        match fold_rows(f, acc, rows_of(v).take(k - 1)) {
            Ok(x) => {
                let st = seq![x] + seq![row];
                assert(st.subrange(st.len() - 2, st.len() as int) =~= st);
                assert(st.take(st.len() - 2) =~= Seq::<ArrayView>::empty());
                assert(st =~= seq![x, row]);
                lemma_pervasive_commutes(op, row, x);
                match pervasive_spec(op, x, row) {
                    Ok(z) => {
                        assert(Seq::<ArrayView>::empty() + seq![(row.0, z.1)] =~= seq![(x.0, z.1)]);
                    },
                    Err(e) => {},
                }
            },
            Err(e) => {},
        }
    }
}

/// A fold by a pervasive function with one accumulator is a reduction that
/// starts from the accumulator.
pub proof fn law_fold_is_reduce_from_accumulator(op: ByteOp, acc: ArrayView, v: ArrayView)
    ensures
        fold_spec(Pervasive { op }, seq![acc, v]) == single(
            reduce_rows_spec(Pervasive { op }, rows_of(v), Some(acc)),
        ),
{
    let f = Pervasive { op };
    let stack = seq![acc, v];
    let arrays = Seq::new(1, |i: int| stack[stack.len() - 1 - i]);
    assert(arrays =~= seq![v]);
    assert(stack.take(1) =~= seq![acc]);
    let i0 = first_iterated(arrays, 0);
    if is_iterated(v) {
        assert(i0 == 0);
        assert(first_differing(arrays, row_count(v), 1) == 1);
    } else {
        assert(first_iterated(arrays, 1) == 1);
        assert(i0 == 1);
    }
    lemma_fold_steps_pervasive(op, acc, v, rows_of(v).len());
    assert(rows_of(v).take(rows_of(v).len() as int) =~= rows_of(v));
}

/// A reduction below the first axis reduces each cell on its own: where the
/// reduced axis is not empty, run `c` of the result is the reduction at
/// depth 0 of cell `c`, the block spanned by the axes from `depth` on, and
/// the result's shape is the leading axes followed by the cell result's.
pub proof fn law_deep_reduce_reduces_cells(
    op: ByteOp,
    v: ArrayView,
    depth: nat,
    identity: u8,
    default: Option<u8>,
    c: int,
)
    requires
        well_shaped(v),
        0 < depth < v.0.len(),
        v.0[depth as int] > 0,
        0 <= c < shape_size(v.0.take(depth as int)),
    ensures
        ({
            let d = depth as int;
            let z = shape_size(v.0.skip(d)) as int;
            let k = shape_size(v.0.skip(d + 1)) as int;
            let cell = (v.0.skip(d), v.1.subrange(c * z, c * z + z));
            let whole = fast_reduce_spec(v, identity, default, depth, op, op);
            let part = fast_reduce_spec(cell, identity, default, 0, op, op);
            &&& whole.0 == v.0.take(d) + part.0
            &&& 0 <= c * k
            &&& c * k + k <= whole.1.len()
            &&& whole.1.subrange(c * k, c * k + k) == part.1
        }),
{
    let d = depth as int;
    let n = v.0[d] as int;
    let r = shape_size(v.0.skip(d + 1)) as int;
    let p = shape_size(v.0.take(d));
    let z = shape_size(v.0.skip(d)) as int;
    lemma_size_cons(v.0.skip(d));
    assert(v.0.skip(d).skip(1) =~= v.0.skip(d + 1));
    assert(v.0.skip(d)[0] == v.0[d]);
    assert(z == n * r);
    lemma_split(v.0, d);
    assert(v.1.len() == p * z);
    assert(0 <= c * z && c * z + z <= p * z) by (nonlinear_arith)
        requires
            0 <= c < p,
            z >= 0,
    ;
    assert(0 <= c * r && c * r + r <= p * r) by (nonlinear_arith)
        requires
            0 <= c < p,
            r >= 0,
    ;
    let cell = (v.0.skip(d), v.1.subrange(c * z, c * z + z));
    let ev = match default {
        Some(x) => x,
        None => identity,
    };
    let blocks = axis_blocks(v.1, p, n, r, op, identity, default, ev);
    crate::fast::lemma_axis_blocks_len(v.1, p, n, r, op, identity, default, ev);
    let blk = axis_block(v.1, c, n, r, op, identity, default, ev);
    assert forall|t: int| 0 <= t < r implies #[trigger] blocks.subrange(c * r, c * r + r)[t]
        == blk[t] by {
        lemma_axis_blocks_index(v.1, p, n, r, op, identity, default, ev, c, t);
    }
    assert forall|t: int| 0 <= t < r implies #[trigger] column(cell.1, 0, t, n, r) == column(
        v.1,
        c,
        t,
        n,
        r,
    ) by {
        assert forall|j: int| 0 <= j < n implies column(cell.1, 0, t, n, r)[j] == column(
            v.1,
            c,
            t,
            n,
            r,
        )[j] by {
            assert((0 * n + j) * r + t == j * r + t && 0 <= j * r + t < z && (c * n + j) * r + t
                == c * z + (j * r + t)) by (nonlinear_arith)
                requires
                    0 <= j < n,
                    0 <= t < r,
                    z == n * r,
            ;
        }
        assert(column(cell.1, 0, t, n, r) =~= column(v.1, c, t, n, r));
    }
    let whole = fast_reduce_spec(v, identity, default, depth, op, op);
    let part = fast_reduce_spec(cell, identity, default, 0, op, op);
    assert(whole.1 == blocks);
    if v.0.len() == d + 1 {
        assert(v.0.skip(d + 1) =~= Seq::<usize>::empty());
        assert(r == 1);
        assert(cell.0.len() == 1);
        assert(v.0.remove(d) =~= v.0.take(d));
        assert(part.0 =~= Seq::<usize>::empty());
        assert(n * r == n) by (nonlinear_arith)
            requires
                r == 1,
        ;
        assert(cell.1.len() == n);
        assert forall|j: int| 0 <= j < n implies #[trigger] column(cell.1, 0, 0, n, 1)[j]
            == cell.1[j] by {
            assert((0 * n + j) * 1 + 0 == j);
        }
        assert(column(cell.1, 0, 0, n, 1) =~= cell.1);
        assert(blocks.subrange(c * r, c * r + r) =~= part.1);
    } else {
        assert(cell.0.len() > 1);
        assert(cell.0.take(0) =~= Seq::<usize>::empty());
        assert(cell.0.skip(1) =~= v.0.skip(d + 1));
        assert(cell.0[0] == v.0[d]);
        assert(v.0.remove(d) =~= v.0.take(d) + cell.0.remove(0));
        let inner = axis_blocks(cell.1, 1, n, r, op, identity, default, identity);
        let first = axis_block(cell.1, 0, n, r, op, identity, default, identity);
        assert(axis_blocks(cell.1, 0, n, r, op, identity, default, identity) =~= Seq::<u8>::empty());
        assert(inner == axis_blocks(cell.1, 0, n, r, op, identity, default, identity) + first);
        assert(inner =~= first);
        assert(part.1 == inner);
        assert(blocks.subrange(c * r, c * r + r) =~= part.1);
    }
}

/// A negative window size acts as its absolute value: a windowed fold by
/// `-n` is the windowed fold by `n`, on every array and for every function.
pub proof fn law_window_sign<F: Function>(f: F, v: ArrayView, n: int)
    ensures
        adjacent_values(f, v, -n) == adjacent_values(f, v, n),
        adjacent_is_numeric(f, -n) == adjacent_is_numeric(f, n),
{
    assert(window_size(-n) == window_size(n));
}

/// Reducing the contents of a list of boxes by any function but an unflipped
/// join is the reduction of those contents as rows: where the contents are
/// the rows of an array, the content reduce pushes what the row-wise reduce
/// of that array at depth 0 pushes, with the same fill.
pub proof fn law_content_reduce_is_row_reduce<F: Function>(
    f: F,
    v: ArrayView,
    fill: Option<ArrayView>,
)
    requires
        f.spec_primitive() != Some((Primitive::Join, false)),
    ensures
        reduce_content_spec(f, rows_of(v), fill) == generic_reduce_impl_spec(f, v, 0, fill),
{
}

/// At every step of a fold over the top `m` values of the stack, each
/// array's row is pushed where that array stood: the rows keep the arrays'
/// stack order, so the row of the array that was on top of the stack is on
/// top when the function is called.
pub proof fn law_fold_rows_keep_stack_order(stack: Seq<ArrayView>, m: nat, k: int, t: int)
    requires
        m <= stack.len(),
        0 <= t < m,
    ensures
        fold_pushed(Seq::new(m, |i: int| stack[stack.len() - 1 - i]), k).len() == m,
        fold_pushed(Seq::new(m, |i: int| stack[stack.len() - 1 - i]), k)[t] == fold_row(
            stack[stack.len() - m + t],
            k,
        ),
{
    let arrays = Seq::new(m, |i: int| stack[stack.len() - 1 - i]);
    assert(arrays[m - 1 - t] == stack[stack.len() - m + t]);
}

/// One step of a fold by a function that leaves its top argument: the
/// accumulator's place takes the row of the first array.
proof fn lemma_fold_step_keeps_top<F: Function>(f: F, s0: Seq<ArrayView>, arrays: Seq<ArrayView>, j: int)
    requires
        f.spec_signature().outputs == 1,
        f.spec_signature().args == arrays.len() + 1,
        arrays.len() >= 1,
        s0.len() >= 1,
        forall|args: Seq<ArrayView>|
            args.len() == f.spec_signature().args ==> #[trigger] f.spec_call(args) == Ok::<
                Seq<ArrayView>,
                crate::errors::ReduceError,
            >(seq![args.last()]),
    ensures
        call_on_stack(f, s0 + fold_pushed(arrays, j)) == Ok::<
            Seq<ArrayView>,
            crate::errors::ReduceError,
        >(s0.drop_last() + seq![fold_row(arrays[0], j)]),
{
    let m = arrays.len() as int;
    let st = s0 + fold_pushed(arrays, j);
    let a = m + 1;
    let args = st.subrange(st.len() - a, st.len() as int);
    assert(args.len() == f.spec_signature().args);
    assert(args.last() == st.last());
    assert(st.last() == fold_pushed(arrays, j)[m - 1]);
    assert(arrays[m - 1 - (m - 1)] == arrays[0]);
    assert(st.take(st.len() - a) =~= s0.drop_last());
}

/// A fold by a function that takes its accumulator and one row of each of
/// the arrays, and leaves the row on top, over arrays that all have the same
/// `n >= 2` rows, leaves the last row of the array that was on top of the
/// stack in place of the accumulator, the rest of the stack untouched.
pub proof fn law_fold_keeps_top_row<F: Function>(f: F, stack: Seq<ArrayView>, n: nat)
    requires
        f.spec_signature().outputs == 1,
        f.spec_signature().args >= 2,
        forall|args: Seq<ArrayView>|
            args.len() == f.spec_signature().args ==> #[trigger] f.spec_call(args) == Ok::<
                Seq<ArrayView>,
                crate::errors::ReduceError,
            >(seq![args.last()]),
        stack.len() >= f.spec_signature().args,
        n >= 2,
        forall|i: int|
            stack.len() - (f.spec_signature().args - 1) <= i < stack.len() ==> row_count(
                #[trigger] stack[i],
            ) == n,
    ensures
        fold_spec(f, stack) == Ok::<Seq<ArrayView>, crate::errors::ReduceError>(
            stack.take(stack.len() - f.spec_signature().args) + seq![row_of(stack.last(), n - 1)],
        ),
{
    let sig = f.spec_signature();
    let m = (sig.args - sig.outputs) as nat;
    let arrays = Seq::new(m, |i: int| stack[stack.len() - 1 - i]);
    let rest = stack.take(stack.len() - m);
    assert forall|i: int| 0 <= i < m implies #[trigger] row_count(arrays[i]) == n by {
        assert(arrays[i] == stack[stack.len() - 1 - i]);
    }
    assert(is_iterated(arrays[0]));
    assert(first_iterated(arrays, 0) == 0);
    lemma_first_differing(arrays, n, 1);
    let count = n;
    lemma_fold_keeps_top_steps(f, rest, arrays, count);
    assert(rest.drop_last() =~= stack.take(stack.len() - sig.args));
    assert(arrays[0] == stack.last());
}

/// After `k >= 1` steps of such a fold, the accumulator's place holds the
/// first array's row `k - 1`.
proof fn lemma_fold_keeps_top_steps<F: Function>(
    f: F,
    rest: Seq<ArrayView>,
    arrays: Seq<ArrayView>,
    k: nat,
)
    requires
        f.spec_signature().outputs == 1,
        f.spec_signature().args == arrays.len() + 1,
        arrays.len() >= 1,
        rest.len() >= 1,
        k >= 1,
        forall|args: Seq<ArrayView>|
            args.len() == f.spec_signature().args ==> #[trigger] f.spec_call(args) == Ok::<
                Seq<ArrayView>,
                crate::errors::ReduceError,
            >(seq![args.last()]),
    ensures
        fold_steps(f, rest, arrays, k) == Ok::<Seq<ArrayView>, crate::errors::ReduceError>(
            rest.drop_last() + seq![fold_row(arrays[0], k - 1)],
        ),
    decreases k,
{
    if k == 1 {
        lemma_fold_step_keeps_top(f, rest, arrays, 0);
    } else {
        lemma_fold_keeps_top_steps(f, rest, arrays, (k - 1) as nat);
        let t = rest.drop_last() + seq![fold_row(arrays[0], k - 2)];
        lemma_fold_step_keeps_top(f, t, arrays, k - 1);
        assert(t.drop_last() =~= rest.drop_last());
    }
}

} // verus!
