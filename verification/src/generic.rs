//! Reductions, scans, unscans and windowed folds that call a function on
//! whole rows, for functions that have no fast path.

use vstd::prelude::*;
use crate::array::{
    Array, ArrayView, views, views_result, view_result, rows_of, row_count, combine_rows,
    first_dim_zero,
};
use crate::errors::ReduceError;
use crate::func::{Function, Signature};

verus! {

/// The signature of a function that takes two values and returns one.
pub open spec fn dyadic_sig() -> Signature {
    Signature { args: 2, outputs: 1 }
}

/// The error for a function of the wrong signature.
pub open spec fn sig_error(s: Signature) -> ReduceError {
    ReduceError::SignatureMismatch { args: s.args, outputs: s.outputs }
}

/// The value of an optional array.
pub open spec fn opt_view(o: Option<Array>) -> Option<ArrayView> {
    match o {
        Some(a) => Some(a@),
        None => None,
    }
}

/// Calls a dyadic function with the running value `acc` on top of the stack
/// and `row` below it; its one result.
pub open spec fn apply2<F: Function>(f: F, acc: ArrayView, row: ArrayView) -> Result<
    ArrayView,
    ReduceError,
> {
    match f.spec_call(seq![row, acc]) {
        Ok(o) => Ok(o[0]),
        Err(e) => Err(e),
    }
}

/// Folds the rows into `init` from the left, stopping at the first failure.
pub open spec fn fold_rows<F: Function>(f: F, init: ArrayView, rows: Seq<ArrayView>) -> Result<
    ArrayView,
    ReduceError,
>
    decreases rows.len(),
{
    if rows.len() == 0 {
        Ok(init)
    } else {
        match fold_rows(f, init, rows.drop_last()) {
            Ok(acc) => apply2(f, acc, rows.last()),
            Err(e) => Err(e),
        }
    }
}

/// Reduces rows: from the fill value where there is one, else from the
/// first row; refused where there is neither.
pub open spec fn reduce_rows_spec<F: Function>(
    f: F,
    rows: Seq<ArrayView>,
    fill: Option<ArrayView>,
) -> Result<ArrayView, ReduceError> {
    match fill {
        Some(x) => fold_rows(f, x, rows),
        None => if rows.len() == 0 {
            Err(ReduceError::EmptyReduce)
        } else {
            fold_rows(f, rows[0], rows.skip(1))
        },
    }
}

/// The results of `g` at `0..n`, in order, or the first failure.
pub open spec fn collect(n: nat, g: spec_fn(int) -> Result<ArrayView, ReduceError>) -> Result<
    Seq<ArrayView>,
    ReduceError,
>
    decreases n,
{
    if n == 0 {
        Ok(Seq::empty())
    } else {
        match collect((n - 1) as nat, g) {
            Ok(p) => match g(n - 1) {
                Ok(x) => Ok(p.push(x)),
                Err(e) => Err(e),
            },
            Err(e) => Err(e),
        }
    }
}

/// A collection that failed stays failed as it grows.
pub proof fn lemma_collect_err(n: nat, m: nat, g: spec_fn(int) -> Result<ArrayView, ReduceError>)
    requires
        m <= n,
        collect(m, g) is Err,
    ensures
        collect(n, g) == collect(m, g),
    decreases n,
{
    if n > m {
        lemma_collect_err((n - 1) as nat, m, g);
    }
}

/// Calls a dyadic function with `acc` as its first argument and `row` as
/// its second.
pub fn call2<F: Function>(f: &F, acc: Array, row: Array) -> (r: Result<Array, ReduceError>)
    requires
        f.spec_signature() == dyadic_sig(),
    ensures
        view_result(r) == apply2(*f, acc@, row@),
{
    let ghost va = acc@;
    let ghost vr = row@;
    let mut args: Vec<Array> = Vec::new();
    args.push(row);
    args.push(acc);
    assert(views(args@) =~= seq![vr, va]);
    match f.call(args) {
        Ok(out) => {
            let mut out = out;
            let ghost vo = views(out@);
            let x = out.pop().unwrap();
            assert(x@ == vo[0]);
            Ok(x)
        },
        Err(e) => Err(e),
    }
}

/// Folds rows `start..end` of `rows` into `init`.
fn fold_rows_range<F: Function>(
    f: &F,
    init: Array,
    rows: &Vec<Array>,
    start: usize,
    end: usize,
) -> (r: Result<Array, ReduceError>)
    requires
        f.spec_signature() == dyadic_sig(),
        start <= end <= rows@.len(),
    ensures
        view_result(r) == fold_rows(*f, init@, views(rows@).subrange(start as int, end as int)),
{
    let ghost vs = views(rows@).subrange(start as int, end as int);
    let mut acc = init;
    let mut i: usize = start;
    assert(vs.take(0) =~= Seq::<ArrayView>::empty());
    while i < end
        invariant
            start <= i <= end <= rows@.len(),
            f.spec_signature() == dyadic_sig(),
            vs == views(rows@).subrange(start as int, end as int),
            fold_rows(*f, init@, vs.take(i - start)) == Ok::<ArrayView, ReduceError>(acc@),
        decreases end - i,
    {
        let row = rows[i].duplicate();
        proof {
            assert(vs.take(i - start + 1).drop_last() =~= vs.take(i - start));
            assert(vs.take(i - start + 1).last() == row@);
        }
        match call2(f, acc, row) {
            Ok(x) => {
                acc = x;
            },
            Err(e) => {
                proof {
                    lemma_fold_rows_err(*f, init@, vs, (i - start + 1) as nat);
                }
                return Err(e);
            },
        }
        i = i + 1;
    }
    assert(vs.take(end - start) =~= vs);
    Ok(acc)
}

/// A fold that failed on a prefix of the rows fails on all of them.
pub proof fn lemma_fold_rows_err<F: Function>(f: F, init: ArrayView, rows: Seq<ArrayView>, m: nat)
    requires
        m <= rows.len(),
        fold_rows(f, init, rows.take(m as int)) is Err,
    ensures
        fold_rows(f, init, rows) == fold_rows(f, init, rows.take(m as int)),
    decreases rows.len(),
{
    if m < rows.len() {
        assert(rows.drop_last().take(m as int) =~= rows.take(m as int));
        lemma_fold_rows_err(f, init, rows.drop_last(), m);
    } else {
        assert(rows.take(m as int) =~= rows);
    }
}

/// Reduces rows with a dyadic function, from the fill value where there is
/// one, else from the first row.
pub fn reduce_rows<F: Function>(f: &F, rows: Vec<Array>, fill: &Option<Array>) -> (r: Result<
    Array,
    ReduceError,
>)
    requires
        f.spec_signature() == dyadic_sig(),
    ensures
        view_result(r) == reduce_rows_spec(*f, views(rows@), opt_view(*fill)),
{
    match fill {
        Some(x) => {
            assert(views(rows@).subrange(0, rows@.len() as int) =~= views(rows@));
            fold_rows_range(f, x.duplicate(), &rows, 0, rows.len())
        },
        None => {
            if rows.len() == 0 {
                return Err(ReduceError::EmptyReduce);
            }
            let first = rows[0].duplicate();
            assert(views(rows@).subrange(1, rows@.len() as int) =~= views(rows@).skip(1));
            fold_rows_range(f, first, &rows, 1, rows.len())
        },
    }
}

/// What a reduction by a dyadic function at `depth` gives: at depth 0 the
/// rows reduced; deeper, each row reduced one level less deep and the results
/// joined as rows.
pub open spec fn generic_reduce_spec<F: Function>(
    f: F,
    v: ArrayView,
    depth: nat,
    fill: Option<ArrayView>,
) -> Result<ArrayView, ReduceError>
    decreases depth, 0nat,
{
    if f.spec_signature() != dyadic_sig() {
        Err(sig_error(f.spec_signature()))
    } else if depth > 0 {
        match reduce_each(f, rows_of(v), (depth - 1) as nat, fill) {
            Ok(rs) => combine_rows(rs),
            Err(e) => Err(e),
        }
    } else {
        reduce_rows_spec(f, rows_of(v), fill)
    }
}

/// Each row reduced at `depth`, in order, or the first failure.
pub open spec fn reduce_each<F: Function>(
    f: F,
    rows: Seq<ArrayView>,
    depth: nat,
    fill: Option<ArrayView>,
) -> Result<Seq<ArrayView>, ReduceError>
    decreases depth, rows.len() + 1,
{
    if rows.len() == 0 {
        Ok(Seq::empty())
    } else {
        match reduce_each(f, rows.drop_last(), depth, fill) {
            Ok(p) => match generic_reduce_spec(f, rows.last(), depth, fill) {
                Ok(x) => Ok(p.push(x)),
                Err(e) => Err(e),
            },
            Err(e) => Err(e),
        }
    }
}

/// Reductions of a prefix that failed fail for all rows.
pub proof fn lemma_reduce_each_err<F: Function>(
    f: F,
    rows: Seq<ArrayView>,
    depth: nat,
    fill: Option<ArrayView>,
    m: nat,
)
    requires
        m <= rows.len(),
        reduce_each(f, rows.take(m as int), depth, fill) is Err,
    ensures
        reduce_each(f, rows, depth, fill) == reduce_each(f, rows.take(m as int), depth, fill),
    decreases rows.len(),
{
    if m < rows.len() {
        assert(rows.drop_last().take(m as int) =~= rows.take(m as int));
        lemma_reduce_each_err(f, rows.drop_last(), depth, fill, m);
    } else {
        assert(rows.take(m as int) =~= rows);
    }
}

/// Reduces an array at `depth` with a dyadic function called on whole rows.
pub fn generic_reduce_inner<F: Function>(
    f: &F,
    xs: Array,
    depth: usize,
    fill: &Option<Array>,
) -> (r: Result<Array, ReduceError>)
    ensures
        view_result(r) == generic_reduce_spec(*f, xs@, depth as nat, opt_view(*fill)),
    decreases depth,
{
    let sig = f.signature();
    if sig.args != 2 || sig.outputs != 1 {
        return Err(ReduceError::SignatureMismatch { args: sig.args, outputs: sig.outputs });
    }
    let ghost v = xs@;
    let rows = xs.into_rows();
    if depth > 0 {
        let ghost vs = views(rows@);
        let mut new_rows: Vec<Array> = Vec::new();
        let mut i: usize = 0;
        assert(vs.take(0) =~= Seq::<ArrayView>::empty());
        assert(views(new_rows@) =~= Seq::<ArrayView>::empty());
        while i < rows.len()
            invariant
                i <= rows@.len(),
                depth > 0,
                vs == views(rows@),
                vs == rows_of(v),
                v == xs@,
                reduce_each(*f, vs.take(i as int), (depth - 1) as nat, opt_view(*fill))
                    == Ok::<Seq<ArrayView>, ReduceError>(views(new_rows@)),
            decreases rows.len() - i,
        {
            let row = rows[i].duplicate();
            let ghost vrow = row@;
            proof {
                assert(vs.take(i + 1).drop_last() =~= vs.take(i as int));
                assert(vs.take(i + 1).last() == row@);
                assert(reduce_each(*f, vs.take(i + 1), (depth - 1) as nat, opt_view(*fill)) == match reduce_each(*f, vs.take(i as int), (depth - 1) as nat, opt_view(*fill)) {
                    Ok(p) => match generic_reduce_spec(*f, vrow, (depth - 1) as nat, opt_view(*fill)) {
                        Ok(x) => Ok(p.push(x)),
                        Err(e) => Err(e),
                    },
                    Err(e) => Err(e),
                });
            }
            match generic_reduce_inner(f, row, depth - 1, fill) {
                Ok(x) => {
                    let ghost prev = views(new_rows@);
                    new_rows.push(x);
                    assert(views(new_rows@) =~= prev.push(x@));
                },
                Err(e) => {
                    assert(generic_reduce_spec(*f, vrow, (depth - 1) as nat, opt_view(*fill)) == Err::<ArrayView, ReduceError>(e));
                    assert(reduce_each(*f, vs.take(i + 1), (depth - 1) as nat, opt_view(*fill)) == Err::<Seq<ArrayView>, ReduceError>(e));
                    proof {
                        lemma_reduce_each_err(*f, vs, (depth - 1) as nat, opt_view(*fill), (i + 1) as nat);
                        assert(generic_reduce_spec(*f, v, depth as nat, opt_view(*fill)) == match reduce_each(*f, rows_of(v), (depth - 1) as nat, opt_view(*fill)) {
                            Ok(rs) => combine_rows(rs),
                            Err(e) => Err(e),
                        });
                    }

                    return Err(e);
                },
            }
            i = i + 1;
        }
        assert(vs.take(rows@.len() as int) =~= vs);
        Array::from_row_values(new_rows)
    } else {
        reduce_rows(f, rows, fill)
    }
}

/// What the one-argument form leaves on the stack for one row: the function
/// called on the row, or, taking no argument, the row and then its result.
pub open spec fn deprecated_step<F: Function>(f: F, row: ArrayView) -> Result<
    Seq<ArrayView>,
    ReduceError,
> {
    if f.spec_signature().args == 1 {
        f.spec_call(seq![row])
    } else {
        match f.spec_call(Seq::empty()) {
            Ok(o) => Ok(seq![row] + o),
            Err(e) => Err(e),
        }
    }
}

/// What the one-argument form leaves on the stack for all rows, in order.
pub open spec fn deprecated_spec<F: Function>(f: F, rows: Seq<ArrayView>) -> Result<
    Seq<ArrayView>,
    ReduceError,
>
    decreases rows.len(),
{
    if rows.len() == 0 {
        Ok(Seq::empty())
    } else {
        match deprecated_spec(f, rows.drop_last()) {
            Ok(p) => match deprecated_step(f, rows.last()) {
                Ok(o) => Ok(p + o),
                Err(e) => Err(e),
            },
            Err(e) => Err(e),
        }
    }
}

/// A signature of the older form of reduce: at most one argument, one result.
pub open spec fn is_deprecated_sig(s: Signature) -> bool {
    (s.args == 0 || s.args == 1) && s.outputs == 1
}

/// The one-argument form that failed on a prefix fails for all rows.
pub proof fn lemma_deprecated_err<F: Function>(f: F, rows: Seq<ArrayView>, m: nat)
    requires
        m <= rows.len(),
        deprecated_spec(f, rows.take(m as int)) is Err,
    ensures
        deprecated_spec(f, rows) == deprecated_spec(f, rows.take(m as int)),
    decreases rows.len(),
{
    if m < rows.len() {
        assert(rows.drop_last().take(m as int) =~= rows.take(m as int));
        lemma_deprecated_err(f, rows.drop_last(), m);
    } else {
        assert(rows.take(m as int) =~= rows);
    }
}

/// The older form of reduce: calls a function of at most one argument once
/// per row, and gives what it leaves on the stack.
pub fn deprecated_reduce<F: Function>(f: &F, rows: Vec<Array>) -> (r: Result<
    Vec<Array>,
    ReduceError,
>)
    requires
        is_deprecated_sig(f.spec_signature()),
    ensures
        views_result(r) == deprecated_spec(*f, views(rows@)),
{
    let sig = f.signature();
    let ghost vs = views(rows@);
    let mut pushed: Vec<Array> = Vec::new();
    let mut i: usize = 0;
    assert(vs.take(0) =~= Seq::<ArrayView>::empty());
    assert(views(pushed@) =~= Seq::<ArrayView>::empty());
    while i < rows.len()
        invariant
            i <= rows@.len(),
            sig == f.spec_signature(),
            is_deprecated_sig(sig),
            vs == views(rows@),
            deprecated_spec(*f, vs.take(i as int)) == Ok::<Seq<ArrayView>, ReduceError>(
                views(pushed@),
            ),
        decreases rows.len() - i,
    {
        let row = rows[i].duplicate();
        let ghost vrow = row@;
        let ghost before = views(pushed@);
        proof {
            assert(vs.take(i + 1).drop_last() =~= vs.take(i as int));
            assert(vs.take(i + 1).last() == vrow);
        }
        let mut args: Vec<Array> = Vec::new();
        if sig.args == 1 {
            args.push(row);
            assert(views(args@) =~= seq![vrow]);
        } else {
            pushed.push(row);
            assert(views(args@) =~= Seq::<ArrayView>::empty());
        }
        match f.call(args) {
            Ok(out) => {
                let mut out = out;
                let ghost vo = views(out@);
                let ghost mid = views(pushed@);
                pushed.append(&mut out);
                assert(views(pushed@) =~= mid + vo);
                if sig.args != 1 {
                    assert(mid =~= before.push(vrow));
                    assert(before + (seq![vrow] + vo) =~= mid + vo);
                }
            },
            Err(e) => {
                proof {
                    lemma_deprecated_err(*f, vs, (i + 1) as nat);
                }
                return Err(e);
            },
        }
        i = i + 1;
    }
    assert(vs.take(rows@.len() as int) =~= vs);
    Ok(pushed)
}

/// What a reduce by a function leaves on the stack: the older form's values
/// for a function of at most one argument, else the one reduced value.
pub open spec fn generic_reduce_impl_spec<F: Function>(
    f: F,
    v: ArrayView,
    depth: nat,
    fill: Option<ArrayView>,
) -> Result<Seq<ArrayView>, ReduceError> {
    if is_deprecated_sig(f.spec_signature()) {
        deprecated_spec(f, rows_of(v))
    } else {
        match generic_reduce_spec(f, v, depth, fill) {
            Ok(x) => Ok(seq![x]),
            Err(e) => Err(e),
        }
    }
}

/// Reduces an array by a function called on whole rows; the values it
/// leaves on the stack.
pub fn generic_reduce_impl<F: Function>(
    f: &F,
    xs: Array,
    depth: usize,
    fill: &Option<Array>,
) -> (r: Result<Vec<Array>, ReduceError>)
    ensures
        views_result(r) == generic_reduce_impl_spec(*f, xs@, depth as nat, opt_view(*fill)),
{
    let sig = f.signature();
    if (sig.args == 0 || sig.args == 1) && sig.outputs == 1 {
        let rows = xs.into_rows();
        deprecated_reduce(f, rows)
    } else {
        match generic_reduce_inner(f, xs, depth, fill) {
            Ok(x) => {
                let mut out: Vec<Array> = Vec::new();
                out.push(x);
                assert(views(out@) =~= seq![x@]);
                Ok(out)
            },
            Err(e) => Err(e),
        }
    }
}

/// The running results of a scan of rows: the first row, then each row
/// combined with the result before it.
pub open spec fn scan_rows<F: Function>(f: F, rows: Seq<ArrayView>) -> Result<
    Seq<ArrayView>,
    ReduceError,
>
    decreases rows.len(),
{
    if rows.len() <= 1 {
        Ok(rows)
    } else {
        match scan_rows(f, rows.drop_last()) {
            Ok(p) => match apply2(f, p.last(), rows.last()) {
                Ok(x) => Ok(p.push(x)),
                Err(e) => Err(e),
            },
            Err(e) => Err(e),
        }
    }
}

/// A scan that failed on a prefix fails for all rows.
pub proof fn lemma_scan_rows_err<F: Function>(f: F, rows: Seq<ArrayView>, m: nat)
    requires
        1 <= m <= rows.len(),
        scan_rows(f, rows.take(m as int)) is Err,
    ensures
        scan_rows(f, rows) == scan_rows(f, rows.take(m as int)),
    decreases rows.len(),
{
    if m < rows.len() {
        assert(rows.drop_last().take(m as int) =~= rows.take(m as int));
        lemma_scan_rows_err(f, rows.drop_last(), m);
    } else {
        assert(rows.take(m as int) =~= rows);
    }
}

/// What a scan by a function called on whole rows gives.
pub open spec fn generic_scan_spec<F: Function>(f: F, v: ArrayView) -> Result<
    ArrayView,
    ReduceError,
> {
    if f.spec_signature() != dyadic_sig() {
        Err(sig_error(f.spec_signature()))
    } else if row_count(v) == 0 {
        Ok(first_dim_zero(v))
    } else {
        match scan_rows(f, rows_of(v)) {
            Ok(s) => combine_rows(s),
            Err(e) => Err(e),
        }
    }
}

/// Scans an array by a function called on whole rows.
pub fn generic_scan<F: Function>(f: &F, xs: Array) -> (r: Result<Array, ReduceError>)
    ensures
        view_result(r) == generic_scan_spec(*f, xs@),
{
    let sig = f.signature();
    if sig.args != 2 || sig.outputs != 1 {
        return Err(ReduceError::SignatureMismatch { args: sig.args, outputs: sig.outputs });
    }
    if xs.row_count() == 0 {
        return Ok(xs.first_dim_zero());
    }
    let ghost v = xs@;
    let rows = xs.into_rows();
    let ghost vs = views(rows@);
    let mut acc = rows[0].duplicate();
    let mut scanned: Vec<Array> = Vec::new();
    scanned.push(acc.duplicate());
    let mut i: usize = 1;
    assert(vs.take(1) =~= seq![acc@]);
    assert(views(scanned@) =~= seq![acc@]);
    while i < rows.len()
        invariant
            1 <= i <= rows@.len(),
            f.spec_signature() == dyadic_sig(),
            vs == views(rows@),
            vs == rows_of(xs@),
            scanned@.len() == i,
            acc@ == views(scanned@).last(),
            scan_rows(*f, vs.take(i as int)) == Ok::<Seq<ArrayView>, ReduceError>(
                views(scanned@),
            ),
        decreases rows.len() - i,
    {
        let row = rows[i].duplicate();
        proof {
            assert(vs.take(i + 1).drop_last() =~= vs.take(i as int));
            assert(vs.take(i + 1).last() == row@);
        }
        match call2(f, acc, row) {
            Ok(x) => {
                acc = x;
                let ghost prev = views(scanned@);
                scanned.push(acc.duplicate());
                assert(views(scanned@) =~= prev.push(acc@));
            },
            Err(e) => {
                proof {
                    lemma_scan_rows_err(*f, vs, (i + 1) as nat);
                }
                return Err(e);
            },
        }
        i = i + 1;
    }
    assert(vs.take(rows@.len() as int) =~= vs);
    Array::from_row_values(scanned)
}

/// The rows of an unscan: the first row, then each row combined with the
/// row before it.
pub open spec fn unscan_rows<F: Function>(f: F, rows: Seq<ArrayView>) -> Result<
    Seq<ArrayView>,
    ReduceError,
> {
    collect(
        rows.len(),
        |i: int|
            if i == 0 {
                Ok(rows[0])
            } else {
                apply2(f, rows[i - 1], rows[i])
            },
    )
}

/// Undoes a scan with a function called on whole rows.
pub fn generic_unscan<F: Function>(f: &F, xs: Array) -> (r: Result<Array, ReduceError>)
    requires
        f.spec_signature() == dyadic_sig(),
    ensures
        view_result(r) == match unscan_rows(*f, rows_of(xs@)) {
            Ok(s) => combine_rows(s),
            Err(e) => Err(e),
        },
{
    let ghost v = xs@;
    let rows = xs.into_rows();
    let ghost vs = views(rows@);
    let ghost g = |i: int|
        if i == 0 {
            Ok(vs[0])
        } else {
            apply2(*f, vs[i - 1], vs[i])
        };
    assert(unscan_rows(*f, vs) == collect(vs.len(), g));
    let mut out: Vec<Array> = Vec::new();
    assert(views(out@) =~= Seq::<ArrayView>::empty());
    let mut i: usize = 0;
    while i < rows.len()
        invariant
            i <= rows@.len(),
            f.spec_signature() == dyadic_sig(),
            vs == views(rows@),
            vs == rows_of(xs@),
            g == (|i: int|
                if i == 0 {
                    Ok(vs[0])
                } else {
                    apply2(*f, vs[i - 1], vs[i])
                }),
            collect(i as nat, g) == Ok::<Seq<ArrayView>, ReduceError>(views(out@)),
        decreases rows.len() - i,
    {
        let cur = rows[i].duplicate();
        let x = if i == 0 {
            cur
        } else {
            let prev = rows[i - 1].duplicate();
            match call2(f, prev, cur) {
                Ok(x) => x,
                Err(e) => {
                    proof {
                        lemma_collect_err(rows@.len(), (i + 1) as nat, g);
                    }
                    return Err(e);
                },
            }
        };
        let ghost before = views(out@);
        out.push(x);
        assert(views(out@) =~= before.push(x@));
        i = i + 1;
    }
    Array::from_row_values(out)
}

/// The windows of a windowed fold: for each run of `n` adjacent rows, its
/// first row folded with the others.
pub open spec fn window_rows<F: Function>(f: F, rows: Seq<ArrayView>, n: nat) -> Result<
    Seq<ArrayView>,
    ReduceError,
> {
    collect(
        (rows.len() - (n - 1)) as nat,
        |i: int| fold_rows(f, rows[i], rows.subrange(i + 1, i + n)),
    )
}

/// What a windowed fold by a function called on whole rows gives: refused
/// for a function that is not dyadic; a window longer than the rows gives no
/// rows, except for a rank 0 array, which has no rows to give none of.
pub open spec fn generic_adjacent_spec<F: Function>(f: F, v: ArrayView, n: nat) -> Result<
    ArrayView,
    ReduceError,
> {
    if f.spec_signature() != dyadic_sig() {
        Err(sig_error(f.spec_signature()))
    } else if row_count(v) < n {
        if v.0.len() == 0 {
            Err(ReduceError::ScalarAdjacency)
        } else {
            Ok(first_dim_zero(v))
        }
    } else {
        match window_rows(f, rows_of(v), n) {
            Ok(s) => combine_rows(s),
            Err(e) => Err(e),
        }
    }
}

/// Folds each window of `n` adjacent rows by a function called on whole rows.
pub fn generic_adjacent<F: Function>(f: &F, xs: Array, n: usize) -> (r: Result<
    Array,
    ReduceError,
>)
    requires
        n > 0,
    ensures
        view_result(r) == generic_adjacent_spec(*f, xs@, n as nat),
{
    let sig = f.signature();
    if sig.args != 2 || sig.outputs != 1 {
        return Err(ReduceError::SignatureMismatch { args: sig.args, outputs: sig.outputs });
    }
    if xs.row_count() < n {
        if xs.rank() == 0 {
            return Err(ReduceError::ScalarAdjacency);
        }
        return Ok(xs.first_dim_zero());
    }
    let rows = xs.into_rows();
    let ghost vs = views(rows@);
    let win_count = rows.len() - (n - 1);
    let ghost g = |i: int| fold_rows(*f, vs[i], vs.subrange(i + 1, i + n));
    let mut out: Vec<Array> = Vec::new();
    assert(views(out@) =~= Seq::<ArrayView>::empty());
    let mut i: usize = 0;
    while i < win_count
        invariant
            i <= win_count,
            win_count == rows@.len() - (n - 1),
            n > 0,
            n <= rows@.len(),
            f.spec_signature() == dyadic_sig(),
            vs == views(rows@),
            vs == rows_of(xs@),
            g == (|i: int| fold_rows(*f, vs[i], vs.subrange(i + 1, i + n))),
            collect(i as nat, g) == Ok::<Seq<ArrayView>, ReduceError>(views(out@)),
        decreases win_count - i,
    {
        let first = rows[i].duplicate();
        match fold_rows_range(f, first, &rows, i + 1, i + n) {
            Ok(x) => {
                let ghost before = views(out@);
                out.push(x);
                assert(views(out@) =~= before.push(x@));
            },
            Err(e) => {
                proof {
                    lemma_collect_err(win_count as nat, (i + 1) as nat, g);
                }
                return Err(e);
            },
        }
        i = i + 1;
    }
    Array::from_row_values(out)
}

} // verus!
