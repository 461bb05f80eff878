//! Functions recognised as byte primitives: calling them on whole rows gives
//! what the byte paths give. Where a reduce, scan or windowed fold takes a
//! byte path, its result is the one that calling the function on rows would
//! give.

use vstd::prelude::*;
use crate::shape::shape_size;
use crate::array::{ArrayView, well_shaped, row_shape, row_size, row_count, row_of, rows_of};
use crate::errors::ReduceError;
use crate::func::{Function, Pervasive, bytewise};
use crate::ops::{ByteOp, Primitive, primitive_byte_op};
use crate::generic::{
    apply2, fold_rows, reduce_each, generic_reduce_spec, generic_reduce_impl_spec, scan_rows,
    generic_scan_spec, generic_adjacent_spec, window_rows, collect, dyadic_sig,
};
use crate::reduce::{
    reduce_values, reduce_is_numeric, scan_values, scan_is_numeric, adjacent_values,
    adjacent_is_numeric, window_size,
};
use crate::laws::{
    lemma_row_in_bounds, law_fast_reduce_matches_rows_at_depth, law_fast_scan_matches_rows,
    law_fast_adjacent_matches_rows,
};

verus! {

/// Called with `a` on top of `b`, two arrays of one shape, the function
/// combines them byte by byte with `op`.
pub open spec fn acts_as<F: Function>(f: F, op: ByteOp) -> bool {
    forall|a: ArrayView, b: ArrayView|
        a.0 == b.0 && a.1.len() == b.1.len() ==> #[trigger] apply2(f, a, b) == Ok::<
            ArrayView,
            ReduceError,
        >(bytewise(op, a, b))
}

/// A function recognised as a byte primitive is dyadic and acts as that
/// primitive's byte function.
pub proof fn lemma_acts_as<F: Function>(f: F)
    requires
        f.spec_primitive() is Some,
        primitive_byte_op((f.spec_primitive()->Some_0).0) is Some,
    ensures
        f.spec_signature() == dyadic_sig(),
        acts_as(f, primitive_byte_op((f.spec_primitive()->Some_0).0)->Some_0),
{
    let op = primitive_byte_op((f.spec_primitive()->Some_0).0)->Some_0;
    f.lemma_primitive((Seq::empty(), Seq::empty()), (Seq::empty(), Seq::empty()));
    assert forall|a: ArrayView, b: ArrayView| a.0 == b.0 && a.1.len() == b.1.len() implies
        #[trigger] apply2(f, a, b) == Ok::<ArrayView, ReduceError>(bytewise(op, a, b)) by {
        f.lemma_primitive(a, b);
    }
}

/// The row of rank 0 array is the array; the rows of a well-shaped array are
/// well shaped, all of its row shape and row size.
pub proof fn lemma_rows_alike(v: ArrayView)
    requires
        well_shaped(v),
    ensures
        forall|i: int|
            0 <= i < rows_of(v).len() ==> (#[trigger] rows_of(v)[i]).0 == row_shape(v)
                && rows_of(v)[i].1.len() == row_size(v) && well_shaped(rows_of(v)[i]),
{
    assert forall|i: int| 0 <= i < rows_of(v).len() implies (#[trigger] rows_of(v)[i]).0
        == row_shape(v) && rows_of(v)[i].1.len() == row_size(v) && well_shaped(rows_of(v)[i]) by {
        if v.0.len() > 0 {
            lemma_row_in_bounds(v, i);
        } else {
            assert(i == 0);
            assert(0 * row_size(v) == 0);
        }
    }
}

/// Two functions that act as one byte function fold rows of one shape and
/// size alike, keeping that shape and size.
pub proof fn lemma_fold_agree<F: Function, G: Function>(
    f: F,
    g: G,
    op: ByteOp,
    init: ArrayView,
    rows: Seq<ArrayView>,
)
    requires
        acts_as(f, op),
        acts_as(g, op),
        forall|i: int|
            0 <= i < rows.len() ==> (#[trigger] rows[i]).0 == init.0 && rows[i].1.len()
                == init.1.len(),
    ensures
        fold_rows(f, init, rows) == fold_rows(g, init, rows),
        fold_rows(f, init, rows) is Ok,
        (fold_rows(f, init, rows)->Ok_0).0 == init.0,
        (fold_rows(f, init, rows)->Ok_0).1.len() == init.1.len(),
    decreases rows.len(),
{
    if rows.len() > 0 {
        let p = rows.drop_last();
        assert forall|i: int| 0 <= i < p.len() implies (#[trigger] p[i]).0 == init.0
            && p[i].1.len() == init.1.len() by {
            assert(p[i] == rows[i]);
        }
        lemma_fold_agree(f, g, op, init, p);
        let acc = fold_rows(f, init, p)->Ok_0;
        let row = rows.last();
        assert(apply2(f, acc, row) == Ok::<ArrayView, ReduceError>(bytewise(op, acc, row)));
        assert(apply2(g, acc, row) == Ok::<ArrayView, ReduceError>(bytewise(op, acc, row)));
    }
}

/// Two dyadic functions that act as one byte function reduce a well-shaped
/// array alike, at every depth.
pub proof fn lemma_reduce_agree<F: Function, G: Function>(
    f: F,
    g: G,
    op: ByteOp,
    v: ArrayView,
    depth: nat,
)
    requires
        acts_as(f, op),
        acts_as(g, op),
        f.spec_signature() == dyadic_sig(),
        g.spec_signature() == dyadic_sig(),
        well_shaped(v),
    ensures
        generic_reduce_spec(f, v, depth, None) == generic_reduce_spec(g, v, depth, None),
    decreases depth, 0nat,
{
    let rows = rows_of(v);
    lemma_rows_alike(v);
    if depth > 0 {
        lemma_reduce_each_agree(f, g, op, rows, (depth - 1) as nat);
    } else if rows.len() > 0 {
        let rest = rows.skip(1);
        assert forall|i: int| 0 <= i < rest.len() implies (#[trigger] rest[i]).0 == rows[0].0
            && rest[i].1.len() == rows[0].1.len() by {
            assert(rest[i] == rows[i + 1]);
        }
        lemma_fold_agree(f, g, op, rows[0], rest);
    }
}

/// Two dyadic functions that act as one byte function reduce each of a
/// sequence of well-shaped arrays alike.
pub proof fn lemma_reduce_each_agree<F: Function, G: Function>(
    f: F,
    g: G,
    op: ByteOp,
    rows: Seq<ArrayView>,
    depth: nat,
)
    requires
        acts_as(f, op),
        acts_as(g, op),
        f.spec_signature() == dyadic_sig(),
        g.spec_signature() == dyadic_sig(),
        forall|i: int| 0 <= i < rows.len() ==> well_shaped(#[trigger] rows[i]),
    ensures
        reduce_each(f, rows, depth, None) == reduce_each(g, rows, depth, None),
    decreases depth, rows.len() + 1,
{
    if rows.len() > 0 {
        let p = rows.drop_last();
        assert forall|i: int| 0 <= i < p.len() implies well_shaped(#[trigger] p[i]) by {
            assert(p[i] == rows[i]);
        }
        lemma_reduce_each_agree(f, g, op, p, depth);
        lemma_reduce_agree(f, g, op, rows.last(), depth);
    }
}

/// Two functions that act as one byte function scan rows of one shape and
/// size alike, each result keeping that shape and size.
pub proof fn lemma_scan_agree<F: Function, G: Function>(
    f: F,
    g: G,
    op: ByteOp,
    rows: Seq<ArrayView>,
)
    requires
        acts_as(f, op),
        acts_as(g, op),
        rows.len() > 0,
        forall|i: int|
            0 <= i < rows.len() ==> (#[trigger] rows[i]).0 == rows[0].0 && rows[i].1.len()
                == rows[0].1.len(),
    ensures
        scan_rows(f, rows) == scan_rows(g, rows),
        scan_rows(f, rows) is Ok,
        (scan_rows(f, rows)->Ok_0).len() > 0,
        forall|i: int|
            0 <= i < (scan_rows(f, rows)->Ok_0).len() ==> (#[trigger] (scan_rows(
                f,
                rows,
            )->Ok_0)[i]).0 == rows[0].0 && (scan_rows(f, rows)->Ok_0)[i].1.len()
                == rows[0].1.len(),
    decreases rows.len(),
{
    if rows.len() > 1 {
        let q = rows.drop_last();
        assert forall|i: int| 0 <= i < q.len() implies (#[trigger] q[i]).0 == q[0].0
            && q[i].1.len() == q[0].1.len() by {
            assert(q[i] == rows[i] && q[0] == rows[0]);
        }
        lemma_scan_agree(f, g, op, q);
        let p = scan_rows(f, q)->Ok_0;
        let acc = p.last();
        let row = rows.last();
        assert(acc == p[p.len() - 1]);
        assert(apply2(f, acc, row) == Ok::<ArrayView, ReduceError>(bytewise(op, acc, row)));
        assert(apply2(g, acc, row) == Ok::<ArrayView, ReduceError>(bytewise(op, acc, row)));
        let s = p.push(bytewise(op, acc, row));
        assert(scan_rows(f, rows) == Ok::<Seq<ArrayView>, ReduceError>(s));
        assert forall|i: int| 0 <= i < s.len() implies (#[trigger] s[i]).0 == rows[0].0
            && s[i].1.len() == rows[0].1.len() by {
            if i < p.len() {
                assert(s[i] == p[i]);
            }
        }
    }
}

/// Collections whose parts agree are the same.
pub proof fn lemma_collect_agree(
    n: nat,
    g1: spec_fn(int) -> Result<ArrayView, ReduceError>,
    g2: spec_fn(int) -> Result<ArrayView, ReduceError>,
)
    requires
        forall|i: int| 0 <= i < n ==> #[trigger] g1(i) == g2(i),
    ensures
        collect(n, g1) == collect(n, g2),
    decreases n,
{
    if n > 0 {
        lemma_collect_agree((n - 1) as nat, g1, g2);
        assert(g1(n - 1) == g2(n - 1));
    }
}

/// A reduce by a function recognised as maximum or minimum, with no fills,
/// down to an axis where no axis so far is empty, is not numeric and pushes
/// exactly what calling the function on whole rows gives: for maximum the
/// largest, for minimum the smallest byte of each column.
pub proof fn law_byte_reduce_calls_rows<F: Function>(f: F, v: ArrayView, depth: nat)
    requires
        f.spec_primitive() is Some,
        (f.spec_primitive()->Some_0).0 == Primitive::Max || (f.spec_primitive()->Some_0).0
            == Primitive::Min,
        well_shaped(v),
        depth < v.0.len(),
        forall|i: int| 0 <= i <= depth ==> #[trigger] v.0[i] > 0,
    ensures
        !reduce_is_numeric(f, v, false, None, false),
        reduce_values(f, v, depth, None, None) == generic_reduce_impl_spec(f, v, depth, None),
{
    let op = primitive_byte_op((f.spec_primitive()->Some_0).0)->Some_0;
    lemma_acts_as(f);
    let pv = Pervasive { op };
    lemma_acts_as(pv);
    lemma_reduce_agree(f, pv, op, v, depth);
    law_fast_reduce_matches_rows_at_depth(op, v, depth, 0);
    assert(v.0[0] > 0);
}

/// A scan by a function recognised as equality, inequality, maximum or
/// minimum, of a well-shaped array of rank one or more, is not numeric and
/// gives exactly what calling the function on whole rows gives.
pub proof fn law_byte_scan_calls_rows<F: Function>(f: F, v: ArrayView)
    requires
        f.spec_primitive() is Some,
        primitive_byte_op((f.spec_primitive()->Some_0).0) is Some,
        well_shaped(v),
        v.0.len() > 0,
    ensures
        !scan_is_numeric(f, v),
        scan_values(f, v) == generic_scan_spec(f, v),
{
    let op = primitive_byte_op((f.spec_primitive()->Some_0).0)->Some_0;
    lemma_acts_as(f);
    let pv = Pervasive { op };
    lemma_acts_as(pv);
    law_fast_scan_matches_rows(op, v);
    if row_count(v) > 0 {
        let rows = rows_of(v);
        lemma_rows_alike(v);
        lemma_scan_agree(f, pv, op, rows);
    }
}

/// A windowed fold by a function recognised as maximum or minimum, of a
/// well-shaped array of rank one or more by a window of `n` or `-n` rows, is
/// not numeric and gives exactly what folding each window of `|n|` rows by
/// calling the function on whole rows gives.
pub proof fn law_byte_adjacent_calls_rows<F: Function>(f: F, v: ArrayView, n: int)
    requires
        f.spec_primitive() is Some,
        (f.spec_primitive()->Some_0).0 == Primitive::Max || (f.spec_primitive()->Some_0).0
            == Primitive::Min,
        well_shaped(v),
        v.0.len() > 0,
        n != 0,
    ensures
        !adjacent_is_numeric(f, n),
        adjacent_values(f, v, n) == generic_adjacent_spec(f, v, window_size(n)),
{
    let op = primitive_byte_op((f.spec_primitive()->Some_0).0)->Some_0;
    let w = window_size(n);
    lemma_acts_as(f);
    let pv = Pervasive { op };
    lemma_acts_as(pv);
    law_fast_adjacent_matches_rows(op, v, w);
    if row_count(v) >= w {
        let rows = rows_of(v);
        lemma_rows_alike(v);
        let g1 = |i: int| fold_rows(f, rows[i], rows.subrange(i + 1, i + w));
        let g2 = |i: int| fold_rows(pv, rows[i], rows.subrange(i + 1, i + w));
        let count = (rows.len() - (w - 1)) as nat;
        assert forall|i: int| 0 <= i < count implies #[trigger] g1(i) == g2(i) by {
            let win = rows.subrange(i + 1, i + w);
            assert forall|j: int| 0 <= j < win.len() implies (#[trigger] win[j]).0 == rows[i].0
                && win[j].1.len() == rows[i].1.len() by {
                assert(win[j] == rows[i + 1 + j]);
            }
            lemma_fold_agree(f, pv, op, rows[i], win);
        }
        lemma_collect_agree(count, g1, g2);
        assert(window_rows(f, rows, w) == collect(count, g1));
        assert(window_rows(pv, rows, w) == collect(count, g2));
    }
}

/// Folding the first `j` bytes of a list, as rows, into a scalar `b` by a
/// function that acts as `op` gives the scalar of `op` folded over them from
/// `b`.
proof fn lemma_list_fold_from<F: Function>(f: F, op: ByteOp, b: u8, v: ArrayView, j: int)
    requires
        acts_as(f, op),
        well_shaped(v),
        v.0.len() == 1,
        0 <= j <= row_count(v),
    ensures
        fold_rows(f, (Seq::<usize>::empty(), seq![b]), rows_of(v).take(j)) == Ok::<
            ArrayView,
            ReduceError,
        >((Seq::<usize>::empty(), seq![crate::ops::fold_bytes(op, b, v.1.take(j))])),
    decreases j,
{
    let fill: ArrayView = (Seq::empty(), seq![b]);
    lemma_rows_alike(v);
    assert(row_shape(v) =~= Seq::<usize>::empty());
    if j == 0 {
        assert(rows_of(v).take(0) =~= Seq::<ArrayView>::empty());
        assert(v.1.take(0) =~= Seq::<u8>::empty());
    } else {
        lemma_list_fold_from(f, op, b, v, j - 1);
        let rows = rows_of(v).take(j);
        assert(rows.drop_last() =~= rows_of(v).take(j - 1));
        let row = rows.last();
        assert(row == rows_of(v)[j - 1]);
        let acc: ArrayView = (
            Seq::empty(),
            seq![crate::ops::fold_bytes(op, b, v.1.take(j - 1))],
        );
        assert(apply2(f, acc, row) == Ok::<ArrayView, ReduceError>(bytewise(op, acc, row)));
        crate::laws::lemma_row_in_bounds(v, j - 1);
        assert(row.1 == v.1.subrange(j - 1, j));
        assert(v.1.take(j).drop_last() =~= v.1.take(j - 1));
        assert(v.1.take(j).last() == v.1[j - 1]);
        assert(bytewise(op, acc, row).1 =~= seq![crate::ops::fold_bytes(op, b, v.1.take(j))]);
    }
}

/// A reduce of a list by a function recognised as maximum or minimum, with a
/// byte fill `b` and no other fill, is not numeric and pushes exactly what
/// calling the function on the bytes one by one, from the scalar `b`, gives:
/// the largest or smallest of `b` and the list's bytes.
pub proof fn law_byte_reduce_with_fill_calls_rows<F: Function>(f: F, v: ArrayView, b: u8)
    requires
        f.spec_primitive() is Some,
        (f.spec_primitive()->Some_0).0 == Primitive::Max || (f.spec_primitive()->Some_0).0
            == Primitive::Min,
        well_shaped(v),
        v.0.len() == 1,
        row_count(v) > 0,
    ensures
        !reduce_is_numeric(f, v, false, Some(b), false),
        reduce_values(f, v, 0, None, Some(b)) == generic_reduce_impl_spec(
            f,
            v,
            0,
            Some((Seq::<usize>::empty(), seq![b])),
        ),
{
    let op = primitive_byte_op((f.spec_primitive()->Some_0).0)->Some_0;
    let fill: ArrayView = (Seq::empty(), seq![b]);
    lemma_acts_as(f);
    let rows = rows_of(v);
    let n = row_count(v) as int;
    lemma_rows_alike(v);
    assert(row_shape(v) =~= Seq::<usize>::empty());
    lemma_list_fold_from(f, op, b, v, n);
    crate::laws::lemma_rows_layout(v);
    assert(shape_size(Seq::<usize>::empty()) == 1);
    assert(row_size(v) == 1);
    assert(v.1.len() == n) by (nonlinear_arith)
        requires
            v.1.len() == n * row_size(v),
            row_size(v) == 1,
    ;
    assert(rows.take(n) =~= rows);
    assert(v.1.take(n) =~= v.1);
}

} // verus!
