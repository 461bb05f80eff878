//! Fold: calls a function once per row of the iterated arrays, threading
//! accumulators through the stack.

use vstd::prelude::*;
use crate::array::{Array, ArrayView, views, views_result, row_count, row_of, rows_of};
use crate::errors::ReduceError;
use crate::func::Function;

verus! {

/// Calls the function on the top of the stack: it takes its arguments from
/// the top and leaves its results there.
pub open spec fn call_on_stack<F: Function>(f: F, s: Seq<ArrayView>) -> Result<
    Seq<ArrayView>,
    ReduceError,
> {
    let a = f.spec_signature().args as int;
    if s.len() < a {
        Err(ReduceError::EmptyStack)
    } else {
        match f.spec_call(s.subrange(s.len() - a, s.len() as int)) {
            Ok(o) => Ok(s.take(s.len() - a) + o),
            Err(e) => Err(e),
        }
    }
}

/// Whether a fold iterates over the rows of an array: every array except one
/// with a single row, which is repeated.
pub open spec fn is_iterated(a: ArrayView) -> bool {
    row_count(a) != 1
}

/// The row of an iterated array used at step `k`: its only row where it has
/// one, else row `k`.
pub open spec fn fold_row(a: ArrayView, k: int) -> ArrayView {
    if is_iterated(a) {
        row_of(a, k)
    } else {
        row_of(a, 0)
    }
}

/// The rows pushed before step `k`, in stack order: the last array's row
/// first, so that the first array's row is on top.
pub open spec fn fold_pushed(arrays: Seq<ArrayView>, k: int) -> Seq<ArrayView> {
    Seq::new(arrays.len(), |t: int| fold_row(arrays[arrays.len() - 1 - t], k))
}

/// The stack after `k` steps of a fold, or the first failure.
pub open spec fn fold_steps<F: Function>(
    f: F,
    stack: Seq<ArrayView>,
    arrays: Seq<ArrayView>,
    k: nat,
) -> Result<Seq<ArrayView>, ReduceError>
    decreases k,
{
    if k == 0 {
        Ok(stack)
    } else {
        match fold_steps(f, stack, arrays, (k - 1) as nat) {
            Ok(s) => call_on_stack(f, s + fold_pushed(arrays, k - 1)),
            Err(e) => Err(e),
        }
    }
}

/// The first iterated array at or after `i`, or the number of arrays.
pub open spec fn first_iterated(a: Seq<ArrayView>, i: int) -> int
    decreases a.len() - i,
{
    if i >= a.len() {
        a.len() as int
    } else if is_iterated(a[i]) {
        i
    } else {
        first_iterated(a, i + 1)
    }
}

/// The first iterated array at or after `i` whose row count is not `n`, or
/// the number of arrays.
pub open spec fn first_differing(a: Seq<ArrayView>, n: nat, i: int) -> int
    decreases a.len() - i,
{
    if i >= a.len() {
        a.len() as int
    } else if is_iterated(a[i]) && row_count(a[i]) != n {
        i
    } else {
        first_differing(a, n, i + 1)
    }
}

/// What a fold does to the stack. It is refused for a function that does not
/// take more values than it returns. It takes one array per extra argument
/// from the top of the stack, and needs as many accumulators below them as the
/// function returns. The iterated arrays must agree on their row count: the
/// first that does not is reported beside the first iterated one. The
/// function is then called once per row, or once where no array is iterated.
pub open spec fn fold_spec<F: Function>(f: F, stack: Seq<ArrayView>) -> Result<
    Seq<ArrayView>,
    ReduceError,
> {
    let sig = f.spec_signature();
    if sig.args <= sig.outputs {
        Err(ReduceError::FoldSignature { args: sig.args, outputs: sig.outputs })
    } else {
        let m = sig.args - sig.outputs;
        if stack.len() < m {
            Err(ReduceError::EmptyStack)
        } else {
            let arrays = Seq::new(m as nat, |i: int| stack[stack.len() - 1 - i]);
            let rest = stack.take(stack.len() - m);
            if rest.len() < sig.outputs {
                Err(ReduceError::EmptyStack)
            } else {
                let i0 = first_iterated(arrays, 0);
                if i0 < m && first_differing(arrays, row_count(arrays[i0]), i0 + 1) < m {
                    let j0 = first_differing(arrays, row_count(arrays[i0]), i0 + 1);
                    Err(
                        ReduceError::FoldLengthMismatch {
                            first: row_count(arrays[i0]) as usize,
                            second: row_count(arrays[j0]) as usize,
                        },
                    )
                } else {
                    let count = if i0 < m {
                        row_count(arrays[i0])
                    } else {
                        1
                    };
                    fold_steps(f, rest, arrays, count)
                }
            }
        }
    }
}

/// A fold that failed after some steps has failed for good.
pub proof fn lemma_fold_steps_err<F: Function>(
    f: F,
    stack: Seq<ArrayView>,
    arrays: Seq<ArrayView>,
    k: nat,
    n: nat,
)
    requires
        k <= n,
        fold_steps(f, stack, arrays, k) is Err,
    ensures
        fold_steps(f, stack, arrays, n) == fold_steps(f, stack, arrays, k),
    decreases n,
{
    if n > k {
        lemma_fold_steps_err(f, stack, arrays, k, (n - 1) as nat);
    }
}

/// Below `first_iterated`, no array is iterated; at it, one is.
pub proof fn lemma_first_iterated(a: Seq<ArrayView>, i: int)
    requires
        0 <= i <= a.len(),
    ensures
        i <= first_iterated(a, i) <= a.len(),
        forall|j: int| i <= j < first_iterated(a, i) ==> !is_iterated(#[trigger] a[j]),
        first_iterated(a, i) < a.len() ==> is_iterated(a[first_iterated(a, i)]),
    decreases a.len() - i,
{
    if i < a.len() && !is_iterated(a[i]) {
        lemma_first_iterated(a, i + 1);
    }
}

/// Below `first_differing`, every iterated array has `n` rows; at it, one
/// does not.
pub proof fn lemma_first_differing(a: Seq<ArrayView>, n: nat, i: int)
    requires
        0 <= i <= a.len(),
    ensures
        i <= first_differing(a, n, i) <= a.len(),
        forall|j: int|
            i <= j < first_differing(a, n, i) ==> is_iterated(#[trigger] a[j]) ==> row_count(a[j])
                == n,
        first_differing(a, n, i) < a.len() ==> is_iterated(a[first_differing(a, n, i)])
            && row_count(a[first_differing(a, n, i)]) != n,
    decreases a.len() - i,
{
    if i < a.len() && !(is_iterated(a[i]) && row_count(a[i]) != n) {
        lemma_first_differing(a, n, i + 1);
    }
}

/// Folds with a function over the arrays on top of the stack; the stack
/// afterwards.
pub fn fold<F: Function>(f: &F, stack: Vec<Array>) -> (r: Result<Vec<Array>, ReduceError>)
    ensures
        views_result(r) == fold_spec(*f, views(stack@)),
{
    let ghost s0 = views(stack@);
    let sig = f.signature();
    if sig.args <= sig.outputs {
        return Err(ReduceError::FoldSignature { args: sig.args, outputs: sig.outputs });
    }
    let m = sig.args - sig.outputs;
    let mut st = stack;
    if st.len() < m {
        return Err(ReduceError::EmptyStack);
    }
    let ghost arr_spec = Seq::new(m as nat, |i: int| s0[s0.len() - 1 - i]);
    let mut arrays: Vec<Array> = Vec::new();
    let mut i: usize = 0;
    while i < m
        invariant
            i <= m <= s0.len(),
            arr_spec == Seq::new(m as nat, |i: int| s0[s0.len() - 1 - i]),
            views(st@) == s0.take(s0.len() - i),
            st@.len() == s0.len() - i,
            views(arrays@) == arr_spec.take(i as int),
        decreases m - i,
    {
        let ghost before = views(arrays@);
        let ghost sv = views(st@);
        let a = st.pop().unwrap();
        assert(a@ == sv.last());
        assert(a@ == arr_spec[i as int]);
        arrays.push(a);
        assert(views(arrays@) =~= before.push(arr_spec[i as int]));
        assert(arr_spec.take(i + 1) =~= arr_spec.take(i as int).push(arr_spec[i as int]));
        assert(views(arrays@) =~= arr_spec.take(i + 1));
        assert(views(st@) =~= s0.take(s0.len() - (i + 1)));
        i = i + 1;
    }
    assert(arr_spec.take(m as int) =~= arr_spec);
    if st.len() < sig.outputs {
        return Err(ReduceError::EmptyStack);
    }
    let ghost rest = views(st@);
    let mut counts: Vec<usize> = Vec::new();
    let mut all_rows: Vec<Vec<Array>> = Vec::new();
    let mut i: usize = 0;
    while i < m
        invariant
            i <= m,
            arrays@.len() == m,
            views(arrays@) == arr_spec,
            counts@.len() == i,
            all_rows@.len() == i,
            forall|j: int| 0 <= j < i ==> #[trigger] counts@[j] == row_count(arr_spec[j]),
            forall|j: int| 0 <= j < i ==> views(#[trigger] all_rows@[j]@) == rows_of(arr_spec[j]),
        decreases m - i,
    {
        counts.push(arrays[i].row_count());
        all_rows.push(arrays[i].duplicate().into_rows());
        i = i + 1;
    }
    proof {
        lemma_first_iterated(arr_spec, 0);
    }
    let mut i0: usize = 0;
    while i0 < m && counts[i0] == 1
        invariant
            i0 <= m,
            counts@.len() == m,
            arr_spec.len() == m,
            forall|j: int| 0 <= j < m ==> #[trigger] counts@[j] == row_count(arr_spec[j]),
            forall|j: int| 0 <= j < i0 ==> !is_iterated(#[trigger] arr_spec[j]),
            first_iterated(arr_spec, 0) >= i0,
            forall|j: int| 0 <= j < first_iterated(arr_spec, 0) ==> !is_iterated(#[trigger] arr_spec[j]),
            first_iterated(arr_spec, 0) < m ==> is_iterated(arr_spec[first_iterated(arr_spec, 0)]),
            first_iterated(arr_spec, 0) <= m,
        decreases m - i0,
    {
        i0 = i0 + 1;
    }
    assert(i0 == first_iterated(arr_spec, 0));
    let mut count: usize = 1;
    if i0 < m {
        count = counts[i0];
        proof {
            lemma_first_differing(arr_spec, row_count(arr_spec[i0 as int]), i0 + 1);
        }
        let mut j: usize = i0 + 1;
        while j < m && (counts[j] == 1 || counts[j] == count)
            invariant
                i0 < j <= m,
                counts@.len() == m,
                arr_spec.len() == m,
                count == row_count(arr_spec[i0 as int]),
                forall|q: int| 0 <= q < m ==> #[trigger] counts@[q] == row_count(arr_spec[q]),
                j <= first_differing(arr_spec, row_count(arr_spec[i0 as int]), i0 + 1),
                first_differing(arr_spec, row_count(arr_spec[i0 as int]), i0 + 1) <= m,
                first_differing(arr_spec, row_count(arr_spec[i0 as int]), i0 + 1) < m ==> is_iterated(
                    arr_spec[first_differing(arr_spec, row_count(arr_spec[i0 as int]), i0 + 1)],
                ) && row_count(
                    arr_spec[first_differing(arr_spec, row_count(arr_spec[i0 as int]), i0 + 1)],
                ) != row_count(arr_spec[i0 as int]),
            decreases m - j,
        {
            j = j + 1;
        }
        if j < m {
            assert(j == first_differing(arr_spec, row_count(arr_spec[i0 as int]), i0 + 1));
            return Err(ReduceError::FoldLengthMismatch { first: count, second: counts[j] });
        }
        proof {
            lemma_first_differing(arr_spec, row_count(arr_spec[i0 as int]), i0 + 1);
        }
    }
    assert(count == (if i0 < m { row_count(arr_spec[i0 as int]) } else { 1 }));
    assert(fold_spec(*f, s0) == fold_steps(*f, rest, arr_spec, count as nat));
    let mut k: usize = 0;
    while k < count
        invariant
            k <= count,
            m == sig.args - sig.outputs,
            sig == f.spec_signature(),
            sig.args > sig.outputs,
            arrays@.len() == m,
            views(arrays@) == arr_spec,
            all_rows@.len() == m,
            counts@.len() == m,
            forall|j: int| 0 <= j < m ==> #[trigger] counts@[j] == row_count(arr_spec[j]),
            forall|j: int| 0 <= j < m ==> views(#[trigger] all_rows@[j]@) == rows_of(arr_spec[j]),
            forall|j: int| 0 <= j < m ==> is_iterated(#[trigger] arr_spec[j]) ==> row_count(arr_spec[j]) == count,
            st@.len() >= sig.outputs,
            s0 == views(stack@),
            fold_spec(*f, s0) == fold_steps(*f, rest, arr_spec, count as nat),
            fold_steps(*f, rest, arr_spec, k as nat) == Ok::<Seq<ArrayView>, ReduceError>(
                views(st@),
            ),
        decreases count - k,
    {
        let ghost before = views(st@);
        let ghost pushed = fold_pushed(arr_spec, k as int);
        let mut t: usize = 0;
        while t < m
            invariant
                t <= m,
                k < count,
                arrays@.len() == m,
                all_rows@.len() == m,
                counts@.len() == m,
                forall|j: int| 0 <= j < m ==> #[trigger] counts@[j] == row_count(arr_spec[j]),
                forall|j: int| 0 <= j < m ==> views(#[trigger] all_rows@[j]@) == rows_of(arr_spec[j]),
                forall|j: int| 0 <= j < m ==> is_iterated(#[trigger] arr_spec[j]) ==> row_count(arr_spec[j]) == count,
                arr_spec.len() == m,
                pushed == fold_pushed(arr_spec, k as int),
                views(st@) == before + pushed.take(t as int),
            decreases m - t,
        {
            let i = m - 1 - t;
            let idx = if counts[i] == 1 {
                0
            } else {
                k
            };
            let row = all_rows[i][idx].duplicate();
            proof {
                assert(views(all_rows@[i as int]@)[idx as int] == row@);
            }
            let ghost mid = views(st@);
            st.push(row);
            assert(views(st@) =~= mid.push(row@));
            assert(pushed.take(t + 1) =~= pushed.take(t as int).push(pushed[t as int]));
            t = t + 1;
        }
        assert(pushed.take(m as int) =~= pushed);
        let ghost s = views(st@);
        let at = st.len() - sig.args;
        let args = st.split_off(at);
        assert(views(args@) =~= s.subrange(s.len() - sig.args, s.len() as int));
        assert(views(st@) =~= s.take(s.len() - sig.args));
        match f.call(args) {
            Ok(out) => {
                let mut out = out;
                let ghost low = views(st@);
                let ghost vo = views(out@);
                st.append(&mut out);
                assert(views(st@) =~= low + vo);
                assert(call_on_stack(*f, s) == Ok::<Seq<ArrayView>, ReduceError>(views(st@)));
            },
            Err(e) => {
                assert(call_on_stack(*f, s) == Err::<Seq<ArrayView>, ReduceError>(e));
                assert(s == before + fold_pushed(arr_spec, k as int));
                assert(fold_steps(*f, rest, arr_spec, (k + 1) as nat) == Err::<Seq<ArrayView>, ReduceError>(e));
                proof {
                    lemma_fold_steps_err(*f, rest, arr_spec, (k + 1) as nat, count as nat);
                }
                return Err(e);
            },
        }
        k = k + 1;
    }
    Ok(st)
}

} // verus!
