//! Reduce, reduce of box contents, scan, unscan and windowed folds: each
//! picks the fast path for its function and array, or calls the function on
//! whole rows.

use vstd::prelude::*;
use crate::shape::{shape_size, lemma_size_cons, lemma_size_append};
use crate::array::{
    Array, ArrayView, views, views_result, view_result, rows_of, row_count, combine_rows,
    first_dim_zero,
};
use crate::errors::ReduceError;
use crate::func::Function;
use crate::ops::{ByteOp, Primitive};
use crate::fast::{
    fast_reduce, fast_reduce_spec, fast_reduce_fits, fast_scan, scan_spec, fast_adjacent,
    adjacent_spec,
};
use crate::generic::{
    dyadic_sig, sig_error, opt_view, generic_reduce_impl, generic_reduce_impl_spec,
    deprecated_reduce, deprecated_spec, is_deprecated_sig, reduce_rows, reduce_rows_spec,
    generic_scan, generic_scan_spec, generic_unscan, unscan_rows, generic_adjacent,
    generic_adjacent_spec,
};

verus! {

/// What a reduce, scan, unscan or windowed fold leaves for the caller.
pub enum Outcome {
    /// The values it pushes onto the stack, in order.
    Pushed(Vec<Array>),
    /// The array, handed back: this function of it is computed in
    /// floating-point arithmetic, on numbers rather than bytes.
    Numeric(Array),
}

/// Whether the primitive is computed only in floating-point arithmetic.
pub open spec fn is_numeric_primitive(p: Primitive) -> bool {
    p == Primitive::Add || p == Primitive::Sub || p == Primitive::Mul || p == Primitive::Div
        || p == Primitive::Mod || p == Primitive::Atan
}

fn numeric_primitive(p: Primitive) -> (r: bool)
    ensures
        r == is_numeric_primitive(p),
{
    match p {
        Primitive::Add | Primitive::Sub | Primitive::Mul | Primitive::Div | Primitive::Mod
        | Primitive::Atan => true,
        _ => false,
    }
}

/// Axes `d` and `d + 1` merged into one, where the array has both; the bytes
/// stay as they are.
pub open spec fn join_axes_spec(v: ArrayView, depth: nat) -> ArrayView {
    let d = if depth < v.0.len() {
        depth as int
    } else {
        v.0.len() as int
    };
    if v.0.len() - d < 2 {
        v
    } else {
        (
            v.0.take(d) + seq![(v.0[d] * v.0[d + 1]) as usize] + v.0.skip(d + 2),
            v.1,
        )
    }
}

/// Whether a reduce by join can merge its axes: where it merges axes `d` and
/// `d + 1`, their product fits in `usize`.
pub open spec fn join_fits(v: ArrayView, depth: nat) -> bool {
    let d = if depth < v.0.len() {
        depth as int
    } else {
        v.0.len() as int
    };
    v.0.len() - d >= 2 ==> v.0[d] * v.0[d + 1] <= usize::MAX
}

/// A reduce by join: merges the reduced axis into the next.
pub fn join_axes(xs: Array, depth: usize) -> (r: Array)
    requires
        join_fits(xs@, depth as nat),
    ensures
        r@ == join_axes_spec(xs@, depth as nat),
{
    let ghost v = xs@;
    let shape = xs.shape();
    let rank = shape.len();
    let d = if depth < rank {
        depth
    } else {
        rank
    };
    if rank - d < 2 {
        return xs;
    }
    proof {
        let two = v.0.skip(d as int).take(2);
        lemma_size_cons(two);
        lemma_size_cons(two.skip(1));
        assert(two.skip(1).skip(1) =~= Seq::<usize>::empty());
        assert(two[0] == v.0[d as int] && two.skip(1)[0] == v.0[d + 1]);
        let a = v.0[d as int] as nat;
        let b = v.0[d + 1] as nat;
        assert(shape_size(two) == a * (b * 1));
        assert(a * (b * 1) == a * b) by (nonlinear_arith);
    }
    let merged = shape[d] * shape[d + 1];
    let mut new_shape: Vec<usize> = Vec::new();
    let mut i: usize = 0;
    while i < d
        invariant
            i <= d,
            d + 2 <= shape@.len(),
            new_shape@ == shape@.take(i as int),
        decreases d - i,
    {
        new_shape.push(shape[i]);
        i = i + 1;
    }
    new_shape.push(merged);
    let mut i: usize = d + 2;
    while i < rank
        invariant
            d + 2 <= i <= rank,
            rank == shape@.len(),
            new_shape@ == shape@.take(d as int) + seq![merged] + shape@.subrange(d + 2, i as int),
        decreases rank - i,
    {
        new_shape.push(shape[i]);
        i = i + 1;
    }
    let data = xs.data();
    let mut bytes: Vec<u8> = Vec::new();
    let mut k: usize = 0;
    while k < data.len()
        invariant
            k <= data@.len(),
            bytes@ == data@.take(k as int),
        decreases data.len() - k,
    {
        bytes.push(data[k]);
        k = k + 1;
    }
    assert(data@.take(data@.len() as int) =~= data@);
    assert(new_shape@ =~= v.0.take(d as int) + seq![merged] + v.0.skip(d + 2));
    proof {
        let s = v.0;
        let two = s.skip(d as int).take(2);
        assert(s =~= s.take(d as int) + (two + s.skip(d + 2)));
        assert(s.skip(d as int).skip(2) =~= s.skip(d + 2));
        lemma_size_append(s.take(d as int), two + s.skip(d + 2));
        lemma_size_append(two, s.skip(d + 2));
        let ms = seq![merged];
        assert(ms.drop_first() =~= Seq::<usize>::empty());
        assert(shape_size(ms) == (merged as nat) * shape_size(ms.drop_first()));
        let m = merged as nat;
        assert(m * 1 == m) by (nonlinear_arith);
        lemma_size_append(s.take(d as int), ms + s.skip(d + 2));
        lemma_size_append(ms, s.skip(d + 2));
        assert(new_shape@ =~= s.take(d as int) + (ms + s.skip(d + 2)));
    }
    Array::from_parts(new_shape, bytes)
}

/// Whether a reduce of this byte array by this function is computed in
/// floating-point arithmetic: a numeric primitive, or a maximum or minimum of
/// an array without rows, or with a number fill and no byte fill.
pub open spec fn reduce_is_numeric<F: Function>(
    f: F,
    v: ArrayView,
    has_value_fill: bool,
    byte_fill: Option<u8>,
    num_fill: bool,
) -> bool {
    match f.spec_primitive() {
        Some((p, flipped)) => if p == Primitive::Join && !flipped && !has_value_fill {
            false
        } else if p == Primitive::Max || p == Primitive::Min {
            row_count(v) == 0 || (num_fill && byte_fill is None)
        } else {
            is_numeric_primitive(p)
        },
        None => false,
    }
}

/// The values that a reduce of a byte array pushes, where it is not computed
/// in floating-point arithmetic: a join merges axes; a maximum or minimum
/// reduces bytes, from the byte fill where there is one; any other function is
/// called on whole rows.
pub open spec fn reduce_values<F: Function>(
    f: F,
    v: ArrayView,
    depth: nat,
    value_fill: Option<ArrayView>,
    byte_fill: Option<u8>,
) -> Result<Seq<ArrayView>, ReduceError> {
    match f.spec_primitive() {
        Some((p, flipped)) => if p == Primitive::Join && !flipped && value_fill is None {
            Ok(seq![join_axes_spec(v, depth)])
        } else if p == Primitive::Max {
            Ok(seq![fast_reduce_spec(v, 0, byte_fill, depth, ByteOp::Max, ByteOp::Max)])
        } else if p == Primitive::Min {
            Ok(seq![fast_reduce_spec(v, 0, byte_fill, depth, ByteOp::Min, ByteOp::Min)])
        } else {
            generic_reduce_impl_spec(f, v, depth, value_fill)
        },
        None => generic_reduce_impl_spec(f, v, depth, value_fill),
    }
}

fn one_value(a: Array) -> (r: Vec<Array>)
    ensures
        views(r@) == seq![a@],
{
    let mut r: Vec<Array> = Vec::new();
    r.push(a);
    assert(views(r@) =~= seq![a@]);
    r
}

/// Whether a reduce of this byte array can lay out its result: a join that
/// merges axes needs their product to fit, and a maximum or minimum on bytes
/// needs the result's size to fit. No other path multiplies axes.
pub open spec fn reduce_fits<F: Function>(
    f: F,
    v: ArrayView,
    depth: nat,
    has_value_fill: bool,
    byte_fill: Option<u8>,
    num_fill: bool,
) -> bool {
    match f.spec_primitive() {
        Some((p, flipped)) => if p == Primitive::Join && !flipped && !has_value_fill {
            join_fits(v, depth)
        } else if (p == Primitive::Max || p == Primitive::Min) && !reduce_is_numeric(
            f,
            v,
            has_value_fill,
            byte_fill,
            num_fill,
        ) {
            fast_reduce_fits(v, depth)
        } else {
            true
        },
        None => true,
    }
}

/// Reduces a byte array by a function at `depth`.
pub fn reduce<F: Function>(
    f: &F,
    xs: Array,
    depth: usize,
    value_fill: &Option<Array>,
    byte_fill: Option<u8>,
    num_fill: bool,
) -> (r: Result<Outcome, ReduceError>)
    requires
        reduce_fits(*f, xs@, depth as nat, value_fill is Some, byte_fill, num_fill),
    ensures
        outcome_matches(
            r,
            reduce_is_numeric(*f, xs@, value_fill is Some, byte_fill, num_fill),
            xs@,
            reduce_values(*f, xs@, depth as nat, opt_view(*value_fill), byte_fill),
        ),
{
    match f.as_flipped_primitive() {
        Some((p, flipped)) => {
            if p == Primitive::Join && !flipped && value_fill.is_none() {
                return Ok(Outcome::Pushed(one_value(join_axes(xs, depth))));
            }
            if p == Primitive::Max || p == Primitive::Min {
                if xs.row_count() == 0 || (num_fill && byte_fill.is_none()) {
                    return Ok(Outcome::Numeric(xs));
                }
                let op = if p == Primitive::Max {
                    ByteOp::Max
                } else {
                    ByteOp::Min
                };
                return Ok(Outcome::Pushed(one_value(fast_reduce(xs, 0, byte_fill, depth, op))));
            }
            if numeric_primitive(p) {
                return Ok(Outcome::Numeric(xs));
            }
            match generic_reduce_impl(f, xs, depth, value_fill) {
                Ok(v) => Ok(Outcome::Pushed(v)),
                Err(e) => Err(e),
            }
        },
        None => match generic_reduce_impl(f, xs, depth, value_fill) {
            Ok(v) => Ok(Outcome::Pushed(v)),
            Err(e) => Err(e),
        },
    }
}

/// Reduces an array by a function called on whole rows, at `depth`.
pub fn generic_reduce<F: Function>(
    f: &F,
    xs: Array,
    depth: usize,
    value_fill: &Option<Array>,
) -> (r: Result<Vec<Array>, ReduceError>)
    ensures
        views_result(r) == generic_reduce_impl_spec(*f, xs@, depth as nat, opt_view(*value_fill)),
{
    generic_reduce_impl(f, xs, depth, value_fill)
}

/// Whether a result holds the values expected: the array handed back where
/// the work is numeric, else exactly the values pushed or the error given.
pub open spec fn outcome_matches(
    r: Result<Outcome, ReduceError>,
    numeric: bool,
    v: ArrayView,
    values: Result<Seq<ArrayView>, ReduceError>,
) -> bool {
    match r {
        Ok(Outcome::Numeric(a)) => numeric && a@ == v,
        Ok(Outcome::Pushed(vals)) => !numeric && values == Ok::<Seq<ArrayView>, ReduceError>(
            views(vals@),
        ),
        Err(e) => !numeric && values == Err::<Seq<ArrayView>, ReduceError>(e),
    }
}

/// A single result as the one value pushed.
pub open spec fn single(r: Result<ArrayView, ReduceError>) -> Result<Seq<ArrayView>, ReduceError> {
    match r {
        Ok(x) => Ok(seq![x]),
        Err(e) => Err(e),
    }
}

fn push_single(r: Result<Array, ReduceError>) -> (o: Result<Outcome, ReduceError>)
    ensures
        match o {
            Ok(Outcome::Pushed(vals)) => single(view_result(r)) == Ok::<
                Seq<ArrayView>,
                ReduceError,
            >(views(vals@)),
            Ok(Outcome::Numeric(_)) => false,
            Err(e) => single(view_result(r)) == Err::<Seq<ArrayView>, ReduceError>(e),
        },
{
    match r {
        Ok(a) => Ok(Outcome::Pushed(one_value(a))),
        Err(e) => Err(e),
    }
}

/// The rows of each content, one content after another.
pub open spec fn content_rows(items: Seq<ArrayView>) -> Seq<ArrayView>
    decreases items.len(),
{
    if items.len() == 0 {
        Seq::empty()
    } else {
        content_rows(items.drop_last()) + rows_of(items.last())
    }
}

/// What a reduce of a list of boxes by a function pushes, given the boxes'
/// contents: a join joins the rows of all contents; any other function
/// reduces the contents as rows.
pub open spec fn reduce_content_spec<F: Function>(
    f: F,
    items: Seq<ArrayView>,
    fill: Option<ArrayView>,
) -> Result<Seq<ArrayView>, ReduceError> {
    if f.spec_primitive() == Some((Primitive::Join, false)) {
        single(combine_rows(content_rows(items)))
    } else if is_deprecated_sig(f.spec_signature()) {
        deprecated_spec(f, items)
    } else if f.spec_signature() != dyadic_sig() {
        Err(sig_error(f.spec_signature()))
    } else {
        single(reduce_rows_spec(f, items, fill))
    }
}

/// Reduces a list of boxes by a function, given the boxes' contents in order
/// and, where there is a fill value, its content: both are unboxed before
/// they reach the function.
pub fn reduce_content<F: Function>(f: &F, items: Vec<Array>, value_fill: &Option<Array>) -> (r:
    Result<Vec<Array>, ReduceError>)
    ensures
        views_result(r) == reduce_content_spec(*f, views(items@), opt_view(*value_fill)),
{
    let ghost vs = views(items@);
    let is_join = match f.as_flipped_primitive() {
        Some((Primitive::Join, false)) => true,
        _ => false,
    };
    if is_join {
        let mut rows: Vec<Array> = Vec::new();
        let mut i: usize = 0;
        assert(vs.take(0) =~= Seq::<ArrayView>::empty());
        assert(views(rows@) =~= Seq::<ArrayView>::empty());
        while i < items.len()
            invariant
                i <= items@.len(),
                vs == views(items@),
                views(rows@) == content_rows(vs.take(i as int)),
            decreases items.len() - i,
        {
            let mut item_rows = items[i].duplicate().into_rows();
            let ghost before = views(rows@);
            let ghost more = views(item_rows@);
            rows.append(&mut item_rows);
            assert(views(rows@) =~= before + more);
            assert(vs.take(i + 1).drop_last() =~= vs.take(i as int));
            i = i + 1;
        }
        assert(vs.take(items@.len() as int) =~= vs);
        return match Array::from_row_values(rows) {
            Ok(a) => Ok(one_value(a)),
            Err(e) => Err(e),
        };
    }
    let sig = f.signature();
    if (sig.args == 0 || sig.args == 1) && sig.outputs == 1 {
        return deprecated_reduce(f, items);
    }
    if sig.args != 2 || sig.outputs != 1 {
        return Err(ReduceError::SignatureMismatch { args: sig.args, outputs: sig.outputs });
    }
    match reduce_rows(f, items, value_fill) {
        Ok(a) => Ok(one_value(a)),
        Err(e) => Err(e),
    }
}

/// Whether a scan of this byte array by this function is computed in
/// floating-point arithmetic.
pub open spec fn scan_is_numeric<F: Function>(f: F, v: ArrayView) -> bool {
    v.0.len() > 0 && match f.spec_primitive() {
        Some((p, flipped)) => is_numeric_primitive(p),
        None => false,
    }
}

/// What a scan of a byte array gives, where it is not numeric: refused for a
/// rank 0 array; equality, inequality, maximum and minimum scan bytes; any
/// other function is called on whole rows.
pub open spec fn scan_values<F: Function>(f: F, v: ArrayView) -> Result<ArrayView, ReduceError> {
    if v.0.len() == 0 {
        Err(ReduceError::RankZero)
    } else {
        match f.spec_primitive() {
            Some((p, flipped)) => if p == Primitive::Eq {
                Ok(scan_spec(v, ByteOp::Eq))
            } else if p == Primitive::Ne {
                Ok(scan_spec(v, ByteOp::Ne))
            } else if p == Primitive::Max {
                Ok(scan_spec(v, ByteOp::Max))
            } else if p == Primitive::Min {
                Ok(scan_spec(v, ByteOp::Min))
            } else {
                generic_scan_spec(f, v)
            },
            None => generic_scan_spec(f, v),
        }
    }
}

/// Scans a byte array by a function.
pub fn scan<F: Function>(f: &F, xs: Array) -> (r: Result<Outcome, ReduceError>)
    ensures
        outcome_matches(r, scan_is_numeric(*f, xs@), xs@, single(scan_values(*f, xs@))),
{
    if xs.rank() == 0 {
        return Err(ReduceError::RankZero);
    }
    match f.as_flipped_primitive() {
        Some((p, flipped)) => {
            let op = match p {
                Primitive::Eq => Some(ByteOp::Eq),
                Primitive::Ne => Some(ByteOp::Ne),
                Primitive::Max => Some(ByteOp::Max),
                Primitive::Min => Some(ByteOp::Min),
                _ => None,
            };
            match op {
                Some(op) => push_single(Ok(fast_scan(xs, op))),
                None => {
                    if numeric_primitive(p) {
                        return Ok(Outcome::Numeric(xs));
                    }
                    push_single(generic_scan(f, xs))
                },
            }
        },
        None => push_single(generic_scan(f, xs)),
    }
}

/// Whether an unscan of this byte array by this function is computed in
/// floating-point arithmetic: unscan by subtraction or division.
pub open spec fn invscan_is_numeric<F: Function>(f: F, v: ArrayView) -> bool {
    &&& v.0.len() > 0
    &&& f.spec_signature() == dyadic_sig()
    &&& row_count(v) > 0
    &&& (f.spec_primitive() == Some((Primitive::Sub, false)) || f.spec_primitive() == Some(
        (Primitive::Div, false),
    ))
}

/// What an unscan of a byte array gives, where it is not numeric: refused
/// for a rank 0 array or a function that is not dyadic; no rows stay no rows;
/// else the first row, then each row combined with the row before it.
pub open spec fn invscan_values<F: Function>(f: F, v: ArrayView) -> Result<ArrayView, ReduceError> {
    if v.0.len() == 0 {
        Err(ReduceError::RankZero)
    } else if f.spec_signature() != dyadic_sig() {
        Err(sig_error(f.spec_signature()))
    } else if row_count(v) == 0 {
        Ok(first_dim_zero(v))
    } else {
        match unscan_rows(f, rows_of(v)) {
            Ok(s) => combine_rows(s),
            Err(e) => Err(e),
        }
    }
}

/// Undoes a scan of a byte array by a function.
pub fn invscan<F: Function>(f: &F, xs: Array) -> (r: Result<Outcome, ReduceError>)
    ensures
        outcome_matches(r, invscan_is_numeric(*f, xs@), xs@, single(invscan_values(*f, xs@))),
{
    if xs.rank() == 0 {
        return Err(ReduceError::RankZero);
    }
    let sig = f.signature();
    if sig.args != 2 || sig.outputs != 1 {
        return Err(ReduceError::SignatureMismatch { args: sig.args, outputs: sig.outputs });
    }
    if xs.row_count() == 0 {
        return push_single(Ok(xs.first_dim_zero()));
    }
    match f.as_flipped_primitive() {
        Some((Primitive::Sub, false)) | Some((Primitive::Div, false)) => {
            return Ok(Outcome::Numeric(xs));
        },
        _ => {},
    }
    push_single(generic_unscan(f, xs))
}

/// The size of a window given as a signed integer.
pub open spec fn window_size(n: int) -> nat {
    if n >= 0 {
        n as nat
    } else {
        (-n) as nat
    }
}

/// Whether a windowed fold of a byte array by this function is computed in
/// floating-point arithmetic.
pub open spec fn adjacent_is_numeric<F: Function>(f: F, n: int) -> bool {
    window_size(n) != 0 && match f.spec_primitive() {
        Some((p, flipped)) => is_numeric_primitive(p),
        None => false,
    }
}

/// What a windowed fold of a byte array gives, where it is not numeric:
/// refused for a window of size zero; maximum and minimum fold bytes; any
/// other function is called on whole rows.
pub open spec fn adjacent_values<F: Function>(f: F, v: ArrayView, n: int) -> Result<
    ArrayView,
    ReduceError,
> {
    if window_size(n) == 0 {
        Err(ReduceError::ZeroWindow)
    } else {
        match f.spec_primitive() {
            Some((p, flipped)) => if p == Primitive::Max {
                adjacent_spec(v, window_size(n), ByteOp::Max)
            } else if p == Primitive::Min {
                adjacent_spec(v, window_size(n), ByteOp::Min)
            } else {
                generic_adjacent_spec(f, v, window_size(n))
            },
            None => generic_adjacent_spec(f, v, window_size(n)),
        }
    }
}

/// Folds each window of `|n|` adjacent rows of a byte array by a function.
pub fn adjacent<F: Function>(f: &F, n: isize, xs: Array) -> (r: Result<Outcome, ReduceError>)
    ensures
        outcome_matches(r, adjacent_is_numeric(*f, n as int), xs@, single(adjacent_values(*f, xs@, n as int))),
{
    let n_abs: usize = if n >= 0 {
        n as usize
    } else {
        ((-(n + 1)) as usize) + 1
    };
    assert(n_abs == window_size(n as int));
    if n_abs == 0 {
        return Err(ReduceError::ZeroWindow);
    }
    match f.as_flipped_primitive() {
        Some((p, flipped)) => {
            if p == Primitive::Max {
                return push_single(fast_adjacent(xs, n_abs, ByteOp::Max));
            }
            if p == Primitive::Min {
                return push_single(fast_adjacent(xs, n_abs, ByteOp::Min));
            }
            if numeric_primitive(p) {
                return Ok(Outcome::Numeric(xs));
            }
            push_single(generic_adjacent(f, xs, n_abs))
        },
        None => push_single(generic_adjacent(f, xs, n_abs)),
    }
}

/// The stack and the window results after `k` windows of the fallback
/// windowed fold: each window reduced at depth 0, its values pushed, and the
/// top value popped as the window's result. `None` where a window is reduced
/// in floating-point arithmetic.
pub open spec fn fallback_state<F: Function>(
    f: F,
    windows: Seq<ArrayView>,
    k: nat,
    stack: Seq<ArrayView>,
    value_fill: Option<ArrayView>,
    byte_fill: Option<u8>,
    num_fill: bool,
) -> Result<Option<(Seq<ArrayView>, Seq<ArrayView>)>, ReduceError>
    decreases k,
{
    if k == 0 {
        Ok(Some((stack, Seq::empty())))
    } else {
        match fallback_state(f, windows, (k - 1) as nat, stack, value_fill, byte_fill, num_fill) {
            Ok(Some((st, rows))) => if reduce_is_numeric(
                f,
                windows[k - 1],
                value_fill is Some,
                byte_fill,
                num_fill,
            ) {
                Ok(None)
            } else {
                match reduce_values(f, windows[k - 1], 0, value_fill, byte_fill) {
                    Ok(vals) => if (st + vals).len() == 0 {
                        Err(ReduceError::EmptyStack)
                    } else {
                        Ok(Some(((st + vals).drop_last(), rows.push((st + vals).last()))))
                    },
                    Err(e) => Err(e),
                }
            },
            Ok(None) => Ok(None),
            Err(e) => Err(e),
        }
    }
}

/// What the fallback windowed fold leaves on the stack: the window results
/// joined as rows on top of what the reductions left; `None` where a window is
/// reduced in floating-point arithmetic.
pub open spec fn fallback_spec<F: Function>(
    f: F,
    windows: Seq<ArrayView>,
    stack: Seq<ArrayView>,
    value_fill: Option<ArrayView>,
    byte_fill: Option<u8>,
    num_fill: bool,
) -> Result<Option<Seq<ArrayView>>, ReduceError> {
    match fallback_state(f, windows, windows.len(), stack, value_fill, byte_fill, num_fill) {
        Ok(Some((st, rows))) => match combine_rows(rows) {
            Ok(x) => Ok(Some(st.push(x))),
            Err(e) => Err(e),
        },
        Ok(None) => Ok(None),
        Err(e) => Err(e),
    }
}

/// Once the fallback stops, it stays stopped.
pub proof fn lemma_fallback_stops<F: Function>(
    f: F,
    windows: Seq<ArrayView>,
    k: nat,
    n: nat,
    stack: Seq<ArrayView>,
    value_fill: Option<ArrayView>,
    byte_fill: Option<u8>,
    num_fill: bool,
)
    requires
        k <= n,
        !(fallback_state(f, windows, k, stack, value_fill, byte_fill, num_fill) is Ok
            && fallback_state(f, windows, k, stack, value_fill, byte_fill, num_fill)->Ok_0 is Some),
    ensures
        fallback_state(f, windows, n, stack, value_fill, byte_fill, num_fill) == fallback_state(
            f,
            windows,
            k,
            stack,
            value_fill,
            byte_fill,
            num_fill,
        ),
    decreases n,
{
    if n > k {
        lemma_fallback_stops(f, windows, k, (n - 1) as nat, stack, value_fill, byte_fill, num_fill);
    }
}

/// A windowed fold with windows that are not single rows: each window is
/// reduced by the function, and the results are joined as rows. The stack
/// below is given, as the reductions may leave values on it or take them.
pub fn adjacent_fallback<F: Function>(
    f: &F,
    windows: Vec<Array>,
    stack: Vec<Array>,
    value_fill: &Option<Array>,
    byte_fill: Option<u8>,
    num_fill: bool,
) -> (r: Result<Option<Vec<Array>>, ReduceError>)
    requires
        forall|i: int|
            0 <= i < windows@.len() ==> reduce_fits(
                *f,
                #[trigger] windows@[i]@,
                0,
                value_fill is Some,
                byte_fill,
                num_fill,
            ),
    ensures
        match r {
            Ok(Some(st)) => fallback_spec(
                *f,
                views(windows@),
                views(stack@),
                opt_view(*value_fill),
                byte_fill,
                num_fill,
            ) == Ok::<Option<Seq<ArrayView>>, ReduceError>(Some(views(st@))),
            Ok(None) => fallback_spec(
                *f,
                views(windows@),
                views(stack@),
                opt_view(*value_fill),
                byte_fill,
                num_fill,
            ) == Ok::<Option<Seq<ArrayView>>, ReduceError>(None),
            Err(e) => fallback_spec(
                *f,
                views(windows@),
                views(stack@),
                opt_view(*value_fill),
                byte_fill,
                num_fill,
            ) == Err::<Option<Seq<ArrayView>>, ReduceError>(e),
        },
{
    let ghost ws = views(windows@);
    let ghost s0 = views(stack@);
    let ghost vf = opt_view(*value_fill);
    let mut st = stack;
    let mut rows: Vec<Array> = Vec::new();
    assert(views(rows@) =~= Seq::<ArrayView>::empty());
    let mut i: usize = 0;
    while i < windows.len()
        invariant
            i <= windows@.len(),
            ws == views(windows@),
            s0 == views(stack@),
            vf == opt_view(*value_fill),
            forall|i: int|
                0 <= i < windows@.len() ==> reduce_fits(
                    *f,
                    #[trigger] windows@[i]@,
                    0,
                    value_fill is Some,
                    byte_fill,
                    num_fill,
                ),
            fallback_state(*f, ws, i as nat, s0, vf, byte_fill, num_fill) == Ok::<
                Option<(Seq<ArrayView>, Seq<ArrayView>)>,
                ReduceError,
            >(Some((views(st@), views(rows@)))),
        decreases windows.len() - i,
    {
        let w = windows[i].duplicate();
        assert(w@ == ws[i as int]);
        match reduce(f, w, 0, value_fill, byte_fill, num_fill) {
            Ok(Outcome::Numeric(_)) => {
                proof {
                    lemma_fallback_stops(*f, ws, (i + 1) as nat, ws.len(), s0, vf, byte_fill, num_fill);
                }
                return Ok(None);
            },
            Ok(Outcome::Pushed(vals)) => {
                let mut vals = vals;
                let ghost before = views(st@);
                let ghost vv = views(vals@);
                st.append(&mut vals);
                assert(views(st@) =~= before + vv);
                if st.len() == 0 {
                    proof {
                        lemma_fallback_stops(*f, ws, (i + 1) as nat, ws.len(), s0, vf, byte_fill, num_fill);
                    }
                    return Err(ReduceError::EmptyStack);
                }
                let ghost full = views(st@);
                let x = st.pop().unwrap();
                assert(views(st@) =~= full.drop_last());
                assert(x@ == full.last());
                let ghost rb = views(rows@);
                rows.push(x);
                assert(views(rows@) =~= rb.push(full.last()));
            },
            Err(e) => {
                proof {
                    lemma_fallback_stops(*f, ws, (i + 1) as nat, ws.len(), s0, vf, byte_fill, num_fill);
                }
                return Err(e);
            },
        }
        i = i + 1;
    }
    match Array::from_row_values(rows) {
        Ok(x) => {
            let ghost sb = views(st@);
            st.push(x);
            assert(views(st@) =~= sb.push(x@));
            Ok(Some(st))
        },
        Err(e) => Err(e),
    }
}

} // verus!
