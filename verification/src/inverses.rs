//! Arrays taken apart into rows and put back together, and the unscan that
//! undoes a scan by a function whose every step it undoes.

use vstd::prelude::*;
use crate::array::{
    ArrayView, well_shaped, row_shape, row_size, row_count, row_of, rows_of, concat_data,
    same_shapes, combine_rows, first_dim_zero,
};
use crate::errors::ReduceError;
use crate::func::{Function, Join};
use crate::generic::{
    apply2, scan_rows, generic_scan_spec, unscan_rows, collect, dyadic_sig, generic_reduce_spec,
    reduce_each,
};
use crate::laws::{
    lemma_rows_layout, lemma_row_in_bounds, lemma_concat_blocks, lemma_shape_split,
    lemma_collect_from, law_join_reduce_matches_rows,
};
use crate::reduce::{
    invscan_values, scan_values, scan_is_numeric, reduce_content_spec, content_rows, join_axes_spec,
    join_fits,
};
use crate::func::bytewise;
use crate::ops::{ByteOp, Primitive, primitive_byte_op};
use crate::shape::{shape_size, lemma_size_cons};

verus! {

/// Where every array has `z` bytes, the bytes of array `i` are the `i`-th
/// run of `z` bytes of all of them laid end to end.
pub proof fn lemma_concat_run(s: Seq<ArrayView>, z: nat, i: int)
    requires
        forall|j: int| 0 <= j < s.len() ==> (#[trigger] s[j]).1.len() == z,
        0 <= i < s.len(),
    ensures
        concat_data(s).len() == s.len() * z,
        0 <= i * z,
        i * z + z <= s.len() * z,
        concat_data(s).subrange(i * z, i * z + z) == s[i].1,
    decreases s.len(),
{
    let n = s.len() as int;
    let p = s.drop_last();
    assert forall|j: int| 0 <= j < p.len() implies (#[trigger] p[j]).1.len() == z by {
        assert(p[j] == s[j]);
    }
    if n > 1 {
        if i < n - 1 {
            lemma_concat_run(p, z, i);
        } else {
            lemma_concat_run(p, z, 0);
        }
    } else {
        assert(concat_data(p) =~= Seq::<u8>::empty());
        assert((n - 1) * z == 0) by (nonlinear_arith)
            requires
                n == 1,
        ;
    }
    assert(concat_data(p).len() == (n - 1) * z);
    assert((n - 1) * z + z == n * z && 0 <= i * z && i * z + z <= n * z) by (nonlinear_arith)
        requires
            0 <= i < n,
    ;
    let c = concat_data(s);
    assert(c == concat_data(p) + s.last().1);
    if i < n - 1 {
        assert(i * z + z <= (n - 1) * z) by (nonlinear_arith)
            requires
                0 <= i < n - 1,
        ;
        assert(p[i] == s[i]);
        assert(c.subrange(i * z, i * z + z) =~= concat_data(p).subrange(i * z, i * z + z));
    } else {
        assert(i * z == (n - 1) * z);
        assert(c.subrange(i * z, i * z + z) =~= s.last().1);
    }
}

/// Rows of one shape, each well shaped, put together and taken apart again
/// are the same rows.
pub proof fn lemma_rows_of_combined(s: Seq<ArrayView>)
    requires
        0 < s.len() <= usize::MAX,
        same_shapes(s),
        forall|j: int| 0 <= j < s.len() ==> well_shaped(#[trigger] s[j]),
    ensures
        combine_rows(s) is Ok,
        well_shaped(combine_rows(s)->Ok_0),
        (combine_rows(s)->Ok_0).0.len() > 0,
        row_count(combine_rows(s)->Ok_0) == s.len(),
        rows_of(combine_rows(s)->Ok_0) == s,
{
    let n = s.len() as int;
    let sh = s[0].0;
    let z = shape_size(sh);
    let w = combine_rows(s)->Ok_0;
    assert forall|j: int| 0 <= j < s.len() implies (#[trigger] s[j]).1.len() == z by {
        assert(s[j].0 == sh);
    }
    lemma_concat_run(s, z, 0);
    assert(w.0 == seq![n as usize] + sh);
    assert(w.0.skip(1) =~= sh);
    assert(w.0[0] == n);
    lemma_size_cons(w.0);
    assert(shape_size(w.0) == n * z);
    assert(row_shape(w) == sh);
    assert(row_size(w) == z);
    assert forall|i: int| 0 <= i < n implies #[trigger] rows_of(w)[i] == s[i] by {
        lemma_concat_run(s, z, i);
        assert(s[i].0 == sh);
        assert(row_of(w, i).1 =~= s[i].1);
    }
    assert(rows_of(w) =~= s);
}

/// A well-shaped array with rows is its rows put back together.
pub proof fn lemma_combine_rows_of(v: ArrayView)
    requires
        well_shaped(v),
        v.0.len() > 0,
        row_count(v) > 0,
    ensures
        combine_rows(rows_of(v)) == Ok::<ArrayView, ReduceError>(v),
{
    let rows = rows_of(v);
    let rc = row_count(v) as int;
    let r = row_size(v);
    lemma_rows_layout(v);
    assert(same_shapes(rows));
    let g = |q: int| v.1[q];
    assert forall|j: int| 0 <= j < rows.len() implies (#[trigger] rows[j]).1 == Seq::new(
        r,
        |k: int| g(j * r + k),
    ) by {
        lemma_row_in_bounds(v, j);
        assert(rows[j].1 =~= Seq::new(r, |k: int| g(j * r + k)));
    }
    lemma_concat_blocks(rows, r, g);
    assert(concat_data(rows) =~= v.1);
    lemma_shape_split(v);
    assert(seq![rows.len() as usize] + rows[0].0 =~= v.0);
}

/// The steps of a scan of rows that succeeded: as many results as rows, the
/// first row first, and each later result the function called with the one
/// before it on top of its row.
pub proof fn lemma_scan_steps<G: Function>(g: G, rows: Seq<ArrayView>)
    requires
        scan_rows(g, rows) is Ok,
    ensures
        ({
            let p = scan_rows(g, rows)->Ok_0;
            &&& p.len() == rows.len()
            &&& rows.len() > 0 ==> p[0] == rows[0]
            &&& forall|i: int|
                1 <= i < rows.len() ==> apply2(g, p[i - 1], rows[i]) == Ok::<
                    ArrayView,
                    ReduceError,
                >(#[trigger] p[i])
        }),
    decreases rows.len(),
{
    if rows.len() > 1 {
        let q = rows.drop_last();
        lemma_scan_steps(g, q);
        let pq = scan_rows(g, q)->Ok_0;
        let p = scan_rows(g, rows)->Ok_0;
        assert(p == pq.push(apply2(g, pq.last(), rows.last())->Ok_0));
        assert forall|i: int| 1 <= i < rows.len() implies apply2(g, p[i - 1], rows[i]) == Ok::<
            ArrayView,
            ReduceError,
        >(#[trigger] p[i]) by {
            if i < rows.len() - 1 {
                assert(p[i] == pq[i] && p[i - 1] == pq[i - 1] && rows[i] == q[i]);
            }
        }
    }
}

/// An unscan by `f` undoes a scan by `g` wherever `f` undoes each step of
/// `g`: called with `a` on top of what `g` gave for `a` on top of `x`, `f`
/// gives back `x`. The row-wise scan of a well-shaped array of rank one or
/// more then unscans to the array itself.
pub proof fn law_unscan_undoes_generic_scan<F: Function, G: Function>(f: F, g: G, v: ArrayView)
    requires
        well_shaped(v),
        v.0.len() > 0,
        f.spec_signature() == dyadic_sig(),
        forall|a: ArrayView, x: ArrayView|
            #[trigger] apply2(g, a, x) is Ok ==> apply2(f, a, apply2(g, a, x)->Ok_0) == Ok::<
                ArrayView,
                ReduceError,
            >(x),
        generic_scan_spec(g, v) is Ok,
    ensures
        invscan_values(f, generic_scan_spec(g, v)->Ok_0) == Ok::<ArrayView, ReduceError>(v),
{
    let rc = row_count(v) as int;
    let r = row_size(v) as int;
    lemma_rows_layout(v);
    if rc == 0 {
        assert(v.0.update(0, 0usize) =~= v.0);
        assert(0 * r == 0) by (nonlinear_arith);
        assert(first_dim_zero(v).1 =~= v.1);
        assert(first_dim_zero(v) == v);
    } else {
        let rows = rows_of(v);
        lemma_scan_steps(g, rows);
        let s = scan_rows(g, rows)->Ok_0;
        assert forall|i: int| 0 <= i < rows.len() implies well_shaped(#[trigger] rows[i]) by {
            lemma_row_in_bounds(v, i);
        }
        assert forall|i: int| 0 <= i < s.len() implies well_shaped(#[trigger] s[i]) by {
            lemma_scan_well_shaped(g, rows, s, i);
        }
        lemma_rows_of_combined(s);
        let w = combine_rows(s)->Ok_0;
        assert(generic_scan_spec(g, v) == Ok::<ArrayView, ReduceError>(w));
        let h = |i: int|
            if i == 0 {
                Ok(s[0])
            } else {
                apply2(f, s[i - 1], s[i])
            };
        assert forall|i: int| 0 <= i < s.len() implies #[trigger] h(i) == Ok::<
            ArrayView,
            ReduceError,
        >(rows[i]) by {
            if i > 0 {
                assert(apply2(g, s[i - 1], rows[i]) == Ok::<ArrayView, ReduceError>(s[i]));
            }
        }
        lemma_collect_from(s.len(), h, rows);
        assert(unscan_rows(f, s) == collect(s.len(), h));
        lemma_combine_rows_of(v);
    }
}

/// Every result of a scan of well-shaped rows by a dyadic function is well
/// shaped.
proof fn lemma_scan_well_shaped<G: Function>(
    g: G,
    rows: Seq<ArrayView>,
    s: Seq<ArrayView>,
    i: int,
)
    requires
        s.len() == rows.len(),
        0 <= i < s.len(),
        s[0] == rows[0],
        forall|j: int| 0 <= j < rows.len() ==> well_shaped(#[trigger] rows[j]),
        forall|j: int|
            1 <= j < rows.len() ==> apply2(g, s[j - 1], rows[j]) == Ok::<ArrayView, ReduceError>(
                #[trigger] s[j],
            ),
        g.spec_signature() == dyadic_sig(),
    ensures
        well_shaped(s[i]),
    decreases i,
{
    if i > 0 {
        lemma_scan_well_shaped(g, rows, s, i - 1);
        assert(apply2(g, s[i - 1], rows[i]) == Ok::<ArrayView, ReduceError>(s[i]));
        let args = seq![rows[i], s[i - 1]];
        assert forall|k: int| 0 <= k < args.len() implies well_shaped(#[trigger] args[k]) by {
            if k == 0 {
                assert(args[k] == rows[i]);
            } else {
                assert(args[k] == s[i - 1]);
            }
        }
        g.lemma_call_well_shaped(args);
        assert((g.spec_call(args)->Ok_0)[0] == s[i]);
    }
}

/// An unscan by `f` undoes a scan by `g` wherever `f` undoes each step of
/// `g`: where the scan of a well-shaped array of rank one or more is done on
/// bytes, the unscan of what it gives is the array itself. A byte scan by
/// equality, inequality, maximum or minimum maps two bytes to one, so no `f`
/// undoes its steps, and there the requirement on `f` is never met.
pub proof fn law_invscan_undoes_scan<F: Function, G: Function>(f: F, g: G, v: ArrayView)
    requires
        well_shaped(v),
        v.0.len() > 0,
        f.spec_signature() == dyadic_sig(),
        forall|a: ArrayView, x: ArrayView|
            #[trigger] apply2(g, a, x) is Ok ==> apply2(f, a, apply2(g, a, x)->Ok_0) == Ok::<
                ArrayView,
                ReduceError,
            >(x),
        !scan_is_numeric(g, v),
        scan_values(g, v) is Ok,
    ensures
        invscan_values(f, scan_values(g, v)->Ok_0) == Ok::<ArrayView, ReduceError>(v),
{
    match g.spec_primitive() {
        Some((p, flipped)) => {
            if primitive_byte_op(p) is Some {
                let op = primitive_byte_op(p)->Some_0;
                let av: u8 = if op == ByteOp::Min {
                    0
                } else {
                    5
                };
                let a: ArrayView = (Seq::empty(), seq![av]);
                let x1: ArrayView = (Seq::empty(), seq![3u8]);
                let x2: ArrayView = (Seq::empty(), seq![2u8]);
                g.lemma_primitive(a, x1);
                g.lemma_primitive(a, x2);
                let y1 = bytewise(op, a, x1);
                let y2 = bytewise(op, a, x2);
                assert(y1.1 =~= y2.1);
                assert(y1 == y2);
                assert(apply2(g, a, x1) == Ok::<ArrayView, ReduceError>(y1));
                assert(apply2(g, a, x2) == Ok::<ArrayView, ReduceError>(y2));
                assert(x1.1[0] != x2.1[0]);
                assert(false);
            } else {
                law_unscan_undoes_generic_scan(f, g, v);
            }
        },
        None => {
            law_unscan_undoes_generic_scan(f, g, v);
        },
    }
}

/// How many rows the arrays have together.
pub open spec fn total_rows(items: Seq<ArrayView>) -> nat
    decreases items.len(),
{
    if items.len() == 0 {
        0
    } else {
        total_rows(items.drop_last()) + row_count(items.last())
    }
}

/// The bytes of arrays laid end to end split where the arrays do.
pub proof fn lemma_concat_append(a: Seq<ArrayView>, b: Seq<ArrayView>)
    ensures
        concat_data(a + b) == concat_data(a) + concat_data(b),
    decreases b.len(),
{
    if b.len() == 0 {
        assert(a + b =~= a);
        assert(concat_data(b) =~= Seq::<u8>::empty());
        assert(concat_data(a) + concat_data(b) =~= concat_data(a));
    } else {
        assert((a + b).drop_last() =~= a + b.drop_last());
        assert((a + b).last() == b.last());
        lemma_concat_append(a, b.drop_last());
        assert(concat_data(a + b) =~= concat_data(a) + concat_data(b));
    }
}

/// The bytes of the rows of a well-shaped array of rank one or more, laid end
/// to end, are its bytes.
pub proof fn lemma_concat_rows_of(x: ArrayView)
    requires
        well_shaped(x),
        x.0.len() > 0,
    ensures
        concat_data(rows_of(x)) == x.1,
{
    lemma_rows_layout(x);
    if row_count(x) > 0 {
        lemma_combine_rows_of(x);
    } else {
        assert(rows_of(x) =~= Seq::<ArrayView>::empty());
        assert(0 * row_size(x) == 0);
        assert(x.1 =~= Seq::<u8>::empty());
    }
}

/// The rows of contents of rank one or more that share a row shape: as many
/// as the contents have together, all well shaped and of that shape, and
/// their bytes laid end to end are the contents' bytes laid end to end.
pub proof fn lemma_content_rows(items: Seq<ArrayView>, s: Seq<usize>)
    requires
        forall|i: int|
            0 <= i < items.len() ==> well_shaped(#[trigger] items[i]) && items[i].0.len() > 0
                && row_shape(items[i]) == s,
    ensures
        content_rows(items).len() == total_rows(items),
        forall|j: int|
            0 <= j < content_rows(items).len() ==> (#[trigger] content_rows(items)[j]).0 == s
                && well_shaped(content_rows(items)[j]),
        concat_data(content_rows(items)) == concat_data(items),
    decreases items.len(),
{
    if items.len() > 0 {
        let p = items.drop_last();
        let x = items.last();
        assert forall|i: int| 0 <= i < p.len() implies well_shaped(#[trigger] p[i]) && p[i].0.len()
            > 0 && row_shape(p[i]) == s by {
            assert(p[i] == items[i]);
        }
        lemma_content_rows(p, s);
        assert(x == items[items.len() - 1]);
        let rx = rows_of(x);
        assert forall|j: int| 0 <= j < rx.len() implies (#[trigger] rx[j]).0 == s && well_shaped(
            rx[j],
        ) by {
            lemma_row_in_bounds(x, j);
        }
        let c = content_rows(items);
        assert(c == content_rows(p) + rx);
        assert forall|j: int| 0 <= j < c.len() implies (#[trigger] c[j]).0 == s && well_shaped(
            c[j],
        ) by {
            if j < content_rows(p).len() {
                assert(c[j] == content_rows(p)[j]);
            } else {
                assert(c[j] == rx[j - content_rows(p).len()]);
            }
        }
        lemma_concat_append(content_rows(p), rx);
        lemma_concat_rows_of(x);
    }
}

/// A content reduce by unflipped join, of contents of rank one or more that
/// share a row shape `s`, joins the rows of every content in order: the
/// result has as many rows as the contents together, each of shape `s`, and
/// the contents' bytes one after another. With no rows at all it is an empty
/// list.
pub proof fn law_join_content_rows<F: Function>(
    f: F,
    items: Seq<ArrayView>,
    fill: Option<ArrayView>,
    s: Seq<usize>,
)
    requires
        f.spec_primitive() == Some((Primitive::Join, false)),
        forall|i: int|
            0 <= i < items.len() ==> well_shaped(#[trigger] items[i]) && items[i].0.len() > 0
                && row_shape(items[i]) == s,
        total_rows(items) <= usize::MAX,
    ensures
        total_rows(items) > 0 ==> reduce_content_spec(f, items, fill) == Ok::<
            Seq<ArrayView>,
            ReduceError,
        >(seq![(seq![total_rows(items) as usize] + s, concat_data(items))]),
        total_rows(items) == 0 ==> reduce_content_spec(f, items, fill) == Ok::<
            Seq<ArrayView>,
            ReduceError,
        >(seq![(seq![0usize], Seq::<u8>::empty())]),
{
    lemma_content_rows(items, s);
    let c = content_rows(items);
    if c.len() > 0 {
        assert(same_shapes(c));
        assert(c[0].0 == s);
    }
}

/// Arrays that each have `k` rows have `k` rows apiece together.
proof fn lemma_total_rows_uniform(items: Seq<ArrayView>, k: nat)
    requires
        forall|i: int| 0 <= i < items.len() ==> row_count(#[trigger] items[i]) == k,
    ensures
        total_rows(items) == items.len() * k,
    decreases items.len(),
{
    if items.len() > 0 {
        let p = items.drop_last();
        assert forall|i: int| 0 <= i < p.len() implies row_count(#[trigger] p[i]) == k by {
            assert(p[i] == items[i]);
        }
        lemma_total_rows_uniform(p, k);
        assert(row_count(items.last()) == k);
        assert(p.len() * k + k == items.len() * k) by (nonlinear_arith)
            requires
                p.len() + 1 == items.len(),
        ;
    }
}

/// A content reduce by unflipped join whose contents are the rows of one
/// array of rank two or more merges that array's first two axes, as a reduce
/// by join of the array itself does.
pub proof fn law_join_content_of_rows<F: Function>(f: F, v: ArrayView, fill: Option<ArrayView>)
    requires
        f.spec_primitive() == Some((Primitive::Join, false)),
        well_shaped(v),
        v.0.len() >= 2,
        0 < v.0[0] * v.0[1] <= usize::MAX,
    ensures
        reduce_content_spec(f, rows_of(v), fill) == Ok::<Seq<ArrayView>, ReduceError>(
            seq![join_axes_spec(v, 0)],
        ),
{
    let items = rows_of(v);
    let s = v.0.skip(2);
    lemma_rows_layout(v);
    assert forall|i: int| 0 <= i < items.len() implies well_shaped(#[trigger] items[i])
        && items[i].0.len() > 0 && row_shape(items[i]) == s && row_count(items[i]) == v.0[1] by {
        lemma_row_in_bounds(v, i);
        assert(items[i].0 == v.0.skip(1));
        assert(items[i].0.skip(1) =~= s);
    }
    lemma_total_rows_uniform(items, v.0[1] as nat);
    law_join_content_rows(f, items, fill, s);
    lemma_concat_rows_of(v);
    assert(v.0.take(0) + seq![(v.0[0] * v.0[1]) as usize] + v.0.skip(2) =~= seq![
        total_rows(items) as usize,
    ] + s);
}

/// Arrays with the same bytes, one for one, lay out the same bytes.
proof fn lemma_concat_same_bytes(a: Seq<ArrayView>, b: Seq<ArrayView>)
    requires
        a.len() == b.len(),
        forall|i: int| 0 <= i < a.len() ==> (#[trigger] a[i]).1 == b[i].1,
    ensures
        concat_data(a) == concat_data(b),
    decreases a.len(),
{
    if a.len() > 0 {
        let pa = a.drop_last();
        let pb = b.drop_last();
        assert forall|i: int| 0 <= i < pa.len() implies (#[trigger] pa[i]).1 == pb[i].1 by {
            assert(pa[i] == a[i] && pb[i] == b[i]);
        }
        lemma_concat_same_bytes(pa, pb);
        assert(a.last().1 == b.last().1);
    }
}

/// Where each array reduces to its counterpart, they all do, in order.
proof fn lemma_reduce_each_ok<F: Function>(
    f: F,
    rows: Seq<ArrayView>,
    depth: nat,
    outs: Seq<ArrayView>,
)
    requires
        rows.len() == outs.len(),
        forall|i: int|
            0 <= i < rows.len() ==> generic_reduce_spec(f, #[trigger] rows[i], depth, None) == Ok::<
                ArrayView,
                ReduceError,
            >(outs[i]),
    ensures
        reduce_each(f, rows, depth, None) == Ok::<Seq<ArrayView>, ReduceError>(outs),
    decreases rows.len(),
{
    if rows.len() > 0 {
        let p = rows.drop_last();
        let q = outs.drop_last();
        assert forall|i: int| 0 <= i < p.len() implies generic_reduce_spec(
            f,
            #[trigger] p[i],
            depth,
            None,
        ) == Ok::<ArrayView, ReduceError>(q[i]) by {
            assert(p[i] == rows[i] && q[i] == outs[i]);
        }
        lemma_reduce_each_ok(f, p, depth, q);
        assert(generic_reduce_spec(f, rows[rows.len() - 1], depth, None) == Ok::<
            ArrayView,
            ReduceError,
        >(outs[outs.len() - 1]));
        assert(rows.last() == rows[rows.len() - 1]);
        assert(q.push(outs.last()) =~= outs);
    } else {
        assert(outs =~= Seq::<ArrayView>::empty());
    }
}

/// A reduce by join at `depth`, of a well-shaped array with axes `depth` and
/// `depth + 1`, none of the axes down to `depth` empty, merges those two axes
/// and keeps the bytes, as joining rows one by one at that depth does.
pub proof fn law_join_reduce_matches_rows_at_depth(v: ArrayView, depth: nat)
    requires
        well_shaped(v),
        depth + 2 <= v.0.len(),
        forall|i: int| 0 <= i <= depth ==> #[trigger] v.0[i] > 0,
        join_fits(v, depth),
    ensures
        generic_reduce_spec(Join, v, depth, None) == Ok::<ArrayView, ReduceError>(
            join_axes_spec(v, depth),
        ),
    decreases depth,
{
    if depth == 0 {
        assert(row_count(v) >= 1);
        law_join_reduce_matches_rows(v);
    } else {
        let d = depth as int;
        let rows = rows_of(v);
        let n = row_count(v) as int;
        lemma_rows_layout(v);
        let rs = v.0.skip(1);
        assert forall|i: int| 0 <= i < rows.len() implies generic_reduce_spec(
            Join,
            #[trigger] rows[i],
            (depth - 1) as nat,
            None,
        ) == Ok::<ArrayView, ReduceError>(join_axes_spec(rows[i], (depth - 1) as nat)) by {
            lemma_row_in_bounds(v, i);
            let r = rows[i];
            assert(r.0 == rs);
            assert forall|t: int| 0 <= t <= depth - 1 implies #[trigger] r.0[t] > 0 by {
                assert(r.0[t] == v.0[t + 1]);
            }
            assert(r.0[d - 1] == v.0[d] && r.0[d] == v.0[d + 1]);
            law_join_reduce_matches_rows_at_depth(r, (depth - 1) as nat);
        }
        let outs = Seq::new(rows.len(), |i: int| join_axes_spec(rows[i], (depth - 1) as nat));
        lemma_reduce_each_ok(Join, rows, (depth - 1) as nat, outs);
        let m = (v.0[d] * v.0[d + 1]) as usize;
        let ms = rs.take(d - 1) + seq![m] + rs.skip(d + 1);
        assert forall|i: int| 0 <= i < outs.len() implies (#[trigger] outs[i]).0 == ms
            && outs[i].1 == rows[i].1 by {
            lemma_row_in_bounds(v, i);
            assert(rows[i].0 == rs);
            assert(rs[d - 1] == v.0[d] && rs[d] == v.0[d + 1]);
        }
        assert(n > 0);
        assert(outs[0].0 == ms);
        assert(same_shapes(outs));
        lemma_concat_same_bytes(outs, rows);
        lemma_concat_rows_of(v);
        assert(seq![outs.len() as usize] + ms =~= v.0.take(d) + seq![m] + v.0.skip(d + 2));
    }
}

} // verus!
