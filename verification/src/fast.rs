//! Reductions, scans, unscans and windowed folds of byte arrays by a byte
//! function, element by element along the rows.

use vstd::prelude::*;
use crate::shape::{
    shape_size, lemma_split, lemma_size_cons, lemma_size_append, lemma_size_zero,
    lemma_size_positive, shape_product,
};
use crate::array::{Array, ArrayView, row_size, row_count};
use crate::errors::ReduceError;
use crate::ops::{ByteOp, byte_op, reduce_bytes, fold_bytes, lemma_reduce_push};

verus! {

/// The bytes of column `k` of chunk `c`, where each chunk holds `n` rows of
/// `r` bytes: the byte at row `j` and place `k`, for every `j` below `n`.
pub open spec fn column(data: Seq<u8>, c: int, k: int, n: int, r: int) -> Seq<u8> {
    Seq::new(n as nat, |j: int| data[(c * n + j) * r + k])
}

/// Chunk `c` reduced along its rows: `r` bytes, each the reduction of its
/// column, or `empty_value` where the chunk has no rows.
pub open spec fn axis_block(
    data: Seq<u8>,
    c: int,
    n: int,
    r: int,
    op: ByteOp,
    identity: u8,
    default: Option<u8>,
    empty_value: u8,
) -> Seq<u8> {
    Seq::new(
        r as nat,
        |k: int|
            if n == 0 {
                empty_value
            } else {
                reduce_bytes(op, identity, default, column(data, c, k, n, r))
            },
    )
}

/// The first `p` chunks reduced along their rows, one after another.
pub open spec fn axis_blocks(
    data: Seq<u8>,
    p: nat,
    n: int,
    r: int,
    op: ByteOp,
    identity: u8,
    default: Option<u8>,
    empty_value: u8,
) -> Seq<u8>
    decreases p,
{
    if p == 0 {
        Seq::empty()
    } else {
        axis_blocks(data, (p - 1) as nat, n, r, op, identity, default, empty_value) + axis_block(
            data,
            p - 1,
            n,
            r,
            op,
            identity,
            default,
            empty_value,
        )
    }
}

/// The axis that a reduction at `depth` removes: `depth`, or none (the rank)
/// where the array has no such axis.
pub open spec fn reduced_axis(v: ArrayView, depth: nat) -> nat {
    if depth < v.0.len() {
        depth
    } else {
        v.0.len()
    }
}

/// What a fast reduction gives. A list reduced at depth 0 folds its bytes
/// with `fut` into a scalar. Otherwise axis `depth` is removed, each column
/// along it folded with `fuu`: from `default` where given, else from its
/// first byte. An axis of length zero gives `identity` at depth 0, and the
/// default (or else `identity`) deeper. An array with no axis at `depth` is
/// left as it is.
pub open spec fn fast_reduce_spec(
    v: ArrayView,
    identity: u8,
    default: Option<u8>,
    depth: nat,
    fuu: ByteOp,
    fut: ByteOp,
) -> ArrayView {
    if depth == 0 && v.0.len() == 1 {
        (Seq::empty(), seq![reduce_bytes(fut, identity, default, v.1)])
    } else {
        let d = reduced_axis(v, depth) as int;
        if d == v.0.len() {
            v
        } else {
            let empty_value = if d == 0 {
                identity
            } else {
                match default {
                    Some(x) => x,
                    None => identity,
                }
            };
            (
                v.0.remove(d),
                axis_blocks(
                    v.1,
                    shape_size(v.0.take(d)),
                    v.0[d] as int,
                    shape_size(v.0.skip(d + 1)) as int,
                    fuu,
                    identity,
                    default,
                    empty_value,
                ),
            )
        }
    }
}

/// The reduced chunks are `r` bytes each.
pub proof fn lemma_axis_blocks_len(
    data: Seq<u8>,
    p: nat,
    n: int,
    r: int,
    op: ByteOp,
    identity: u8,
    default: Option<u8>,
    empty_value: u8,
)
    requires
        r >= 0,
    ensures
        axis_blocks(data, p, n, r, op, identity, default, empty_value).len() == p * r,
    decreases p,
{
    if p > 0 {
        lemma_axis_blocks_len(data, (p - 1) as nat, n, r, op, identity, default, empty_value);
        assert(axis_block(data, p - 1, n, r, op, identity, default, empty_value).len() == r);
        assert((p - 1) * r + r == p * r) by (nonlinear_arith);
    } else {
        assert(0 * r == 0) by (nonlinear_arith);
    }
}

/// Place `k` of row `j` of chunk `c` lies inside chunk `c`, and so inside the
/// first `p` chunks where `c < p`.
pub proof fn lemma_cell_index(c: int, j: int, k: int, n: int, r: int, p: int)
    requires
        0 <= c < p,
        0 <= j < n,
        0 <= k < r,
    ensures
        0 <= c * n <= c * n + j,
        c * n + j <= (c * n + j) * r,
        0 <= (c * n + j) * r + k < (c + 1) * n * r,
        (c + 1) * n * r <= p * n * r,
        (c + 1) * n * r == c * n * r + n * r,
{
    assert(0 <= c * n) by (nonlinear_arith)
        requires
            0 <= c,
            0 <= n,
    ;
    assert(c * n + j <= (c * n + j) * r) by (nonlinear_arith)
        requires
            0 <= c * n + j,
            1 <= r,
    ;
    assert((c * n + j) * r + k < (c + 1) * n * r) by (nonlinear_arith)
        requires
            0 <= c,
            0 <= j < n,
            0 <= k < r,
    ;
    assert((c + 1) * n * r <= p * n * r) by (nonlinear_arith)
        requires
            c + 1 <= p,
            0 <= n,
            0 <= r,
    ;
    assert((c + 1) * n * r == c * n * r + n * r) by (nonlinear_arith);
    assert(0 <= (c * n + j) * r) by (nonlinear_arith)
        requires
            0 <= c * n + j,
            0 <= r,
    ;
}

/// Reduces the bytes of a list with `op`: from `default` where given, else
/// from the first byte; `identity` where there are none.
pub fn reduce_list(data: &[u8], op: ByteOp, identity: u8, default: Option<u8>) -> (x: u8)
    ensures
        x == reduce_bytes(op, identity, default, data@),
{
    let mut acc: u8;
    let mut i: usize;
    match default {
        Some(d) => {
            acc = d;
            i = 0;
            assert(data@.take(0) =~= Seq::<u8>::empty());
        },
        None => {
            if data.len() == 0 {
                return identity;
            }
            acc = data[0];
            i = 1;
            assert(data@.take(1).skip(1) =~= Seq::<u8>::empty());
        },
    }
    while i < data.len()
        invariant
            1 <= i || default is Some,
            i <= data@.len(),
            acc == reduce_bytes(op, identity, default, data@.take(i as int)),
        decreases data.len() - i,
    {
        proof {
            lemma_reduce_push(op, identity, default, data@.take(i as int), data@[i as int]);
            assert(data@.take(i as int).push(data@[i as int]) =~= data@.take(i + 1));
        }
        acc = op.apply(acc, data[i]);
        i = i + 1;
    }
    assert(data@.take(data@.len() as int) =~= data@);
    acc
}

/// Chunk `c` of `data`, reduced along its `n` rows of `r` bytes.
pub fn reduce_chunk(
    data: &[u8],
    c: usize,
    n: usize,
    r: usize,
    op: ByteOp,
    identity: u8,
    default: Option<u8>,
    empty_value: u8,
) -> (b: Vec<u8>)
    requires
        (c + 1) * n * r <= data@.len(),
        data@.len() <= isize::MAX,
    ensures
        b@ == axis_block(data@, c as int, n as int, r as int, op, identity, default, empty_value),
{
    let ghost spec_block = axis_block(
        data@,
        c as int,
        n as int,
        r as int,
        op,
        identity,
        default,
        empty_value,
    );
    let mut acc: Vec<u8> = Vec::new();
    if n == 0 {
        let mut k: usize = 0;
        while k < r
            invariant
                k <= r,
                n == 0,
                spec_block == axis_block(
                    data@,
                    c as int,
                    n as int,
                    r as int,
                    op,
                    identity,
                    default,
                    empty_value,
                ),
                acc@ == spec_block.take(k as int),
            decreases r - k,
        {
            assert(spec_block[k as int] == empty_value);
            acc.push(empty_value);
            k = k + 1;
            assert(acc@ =~= spec_block.take(k as int));
        }
        assert(spec_block.take(r as int) =~= spec_block);
        return acc;
    }
    let mut k: usize = 0;
    while k < r
        invariant
            k <= r,
            n > 0,
            (c + 1) * n * r <= data@.len(),
            data@.len() <= isize::MAX,
            acc@.len() == k,
            forall|m: int|
                0 <= m < k ==> #[trigger] acc@[m] == reduce_bytes(
                    op,
                    identity,
                    default,
                    column(data@, c as int, m, n as int, r as int).take(1),
                ),
        decreases r - k,
    {
        proof {
            lemma_cell_index(c as int, 0, k as int, n as int, r as int, c + 1);
        }
        let x = data[(c * n) * r + k];
        let ghost col = column(data@, c as int, k as int, n as int, r as int);
        assert(col.take(1) =~= seq![x]);
        assert(seq![x].drop_last() =~= Seq::<u8>::empty());
        assert(seq![x].skip(1) =~= Seq::<u8>::empty());
        let v = match default {
            Some(d) => op.apply(d, x),
            None => x,
        };
        assert(fold_bytes(op, x, Seq::<u8>::empty()) == x);
        assert(seq![x].last() == x && seq![x][0] == x && seq![x].len() == 1);
        match default {
            Some(d) => {
                assert(fold_bytes(op, d, Seq::<u8>::empty()) == d);
                assert(fold_bytes(op, d, seq![x]) == byte_op(op, d, x));
            },
            None => {},
        }
        assert(reduce_bytes(op, identity, default, seq![x]) == v);
        assert(reduce_bytes(op, identity, default, col.take(1)) == v);
        acc.push(v);
        k = k + 1;
    }
    let mut j: usize = 1;
    while j < n
        invariant
            1 <= j <= n,
            (c + 1) * n * r <= data@.len(),
            data@.len() <= isize::MAX,
            acc@.len() == r,
            forall|m: int|
                0 <= m < r ==> #[trigger] acc@[m] == reduce_bytes(
                    op,
                    identity,
                    default,
                    column(data@, c as int, m, n as int, r as int).take(j as int),
                ),
        decreases n - j,
    {
        let mut k: usize = 0;
        while k < r
            invariant
                k <= r,
                1 <= j < n,
                (c + 1) * n * r <= data@.len(),
                data@.len() <= isize::MAX,
                acc@.len() == r,
                forall|m: int|
                    0 <= m < k ==> #[trigger] acc@[m] == reduce_bytes(
                        op,
                        identity,
                        default,
                        column(data@, c as int, m, n as int, r as int).take(j + 1),
                    ),
                forall|m: int|
                    k <= m < r ==> #[trigger] acc@[m] == reduce_bytes(
                        op,
                        identity,
                        default,
                        column(data@, c as int, m, n as int, r as int).take(j as int),
                    ),
            decreases r - k,
        {
            proof {
                lemma_cell_index(c as int, j as int, k as int, n as int, r as int, c + 1);
            }
            let x = data[(c * n + j) * r + k];
            let ghost col = column(data@, c as int, k as int, n as int, r as int);
            proof {
                assert(col.take(j as int).push(x) =~= col.take(j + 1));
                lemma_reduce_push(op, identity, default, col.take(j as int), x);
            }
            let y = op.apply(acc[k], x);
            acc.set(k, y);
            k = k + 1;
        }
        j = j + 1;
    }
    proof {
        assert forall|m: int| 0 <= m < r implies column(
            data@,
            c as int,
            m,
            n as int,
            r as int,
        ).take(n as int) =~= column(data@, c as int, m, n as int, r as int) by {}
    }
    assert(spec_block == axis_block(
        data@,
        c as int,
        n as int,
        r as int,
        op,
        identity,
        default,
        empty_value,
    ));
    assert(acc@ =~= spec_block);
    acc
}

/// The shape with axis `d` taken out.
fn remove_axis(shape: &[usize], d: usize) -> (s: Vec<usize>)
    requires
        d < shape@.len(),
    ensures
        s@ == shape@.remove(d as int),
{
    let mut s: Vec<usize> = Vec::new();
    let mut i: usize = 0;
    while i < shape.len()
        invariant
            i <= shape@.len(),
            d < shape@.len(),
            s@ == (if i <= d {
                shape@.take(i as int)
            } else {
                shape@.take(d as int) + shape@.subrange(d + 1, i as int)
            }),
        decreases shape.len() - i,
    {
        if i != d {
            s.push(shape[i]);
        }
        i = i + 1;
        assert(s@ =~= (if i <= d {
            shape@.take(i as int)
        } else {
            shape@.take(d as int) + shape@.subrange(d + 1, i as int)
        }));
    }
    assert(s@ =~= shape@.remove(d as int));
    s
}

/// Whether a fast reduction can lay out its result: where it removes an axis
/// (other than by folding a list into a scalar), the result's size fits in
/// `usize`. An array left as it is, or a list folded into a scalar, needs
/// nothing.
pub open spec fn fast_reduce_fits(v: ArrayView, depth: nat) -> bool {
    (reduced_axis(v, depth) < v.0.len() && !(depth == 0 && v.0.len() == 1)) ==> shape_size(
        v.0.remove(reduced_axis(v, depth) as int),
    ) <= usize::MAX
}

/// Reduces an array along axis `depth`, folding `fut` over a list's bytes
/// and `fuu` over the rows of every other array.
pub fn fast_reduce_different(
    arr: Array,
    identity: u8,
    default: Option<u8>,
    depth: usize,
    fuu: ByteOp,
    fut: ByteOp,
) -> (res: Array)
    requires
        fast_reduce_fits(arr@, depth as nat),
    ensures
        res@ == fast_reduce_spec(arr@, identity, default, depth as nat, fuu, fut),
{
    let shape = arr.shape();
    let data = arr.data();
    let rank = shape.len();
    if depth == 0 && rank == 1 {
        let x = reduce_list(data, fut, identity, default);
        return Array::scalar(x);
    }
    let d = if depth < rank {
        depth
    } else {
        rank
    };
    if d == rank {
        return arr;
    }
    let ghost v = arr@;
    let ghost tk = v.0.take(d as int);
    let ghost sk = v.0.skip(d + 1);
    let ghost ev = if d == 0 {
        identity
    } else {
        match default {
            Some(x) => x,
            None => identity,
        }
    };
    proof {
        assert(v.0.remove(d as int) =~= tk + sk);
        lemma_size_append(tk, sk);
    }
    let mut i: usize = 0;
    while i < rank
        invariant
            i <= rank,
            rank == shape@.len(),
            shape@ == v.0,
            d < rank,
            tk == v.0.take(d as int),
            sk == v.0.skip(d + 1),
            v == arr@,
            !(depth == 0 && rank == 1),
            d == depth,
            ev == (if d == 0 {
                identity
            } else {
                match default {
                    Some(x) => x,
                    None => identity,
                }
            }),
            forall|j: int| 0 <= j < i && j != d ==> #[trigger] shape@[j] > 0,
        decreases rank - i,
    {
        if i != d && shape[i] == 0 {
            proof {
                assert(v.0.remove(d as int) =~= tk + sk);
                lemma_size_append(tk, sk);
                if i < d {
                    lemma_size_zero(tk, i as int);
                } else {
                    assert(sk[i - d - 1] == v.0[i as int]);
                    lemma_size_zero(sk, i - d - 1);
                }
                let ps = shape_size(tk);
                let rs = shape_size(sk);
                assert(ps * rs == 0) by (nonlinear_arith)
                    requires
                        ps == 0 || rs == 0,
                ;
                lemma_axis_blocks_len(v.1, ps, v.0[d as int] as int, rs as int, fuu, identity, default, ev);
                assert(axis_blocks(v.1, ps, v.0[d as int] as int, rs as int, fuu, identity, default, ev)
                    =~= Seq::<u8>::empty());
            }
            let new_shape = remove_axis(shape, d);
            let out: Vec<u8> = Vec::new();
            assert(out@ =~= Seq::<u8>::empty());
            return Array::from_parts(new_shape, out);
        }
        i = i + 1;
    }
    proof {
        assert forall|j: int| 0 <= j < tk.len() implies tk[j] > 0 by {
            assert(tk[j] == shape@[j]);
        }
        assert forall|j: int| 0 <= j < sk.len() implies sk[j] > 0 by {
            assert(sk[j] == shape@[j + d + 1]);
        }
        lemma_size_positive(tk);
        lemma_size_positive(sk);
        let a = shape_size(tk);
        let b = shape_size(sk);
        assert(a <= a * b && b <= a * b) by (nonlinear_arith)
            requires
                a >= 1,
                b >= 1,
        ;
        lemma_split(v.0, d as int);
        lemma_size_cons(v.0.skip(d as int));
        assert(v.0.skip(d as int).skip(1) =~= v.0.skip(d + 1));
    }
    let p = shape_product(vstd::slice::slice_subrange(shape, 0, d));
    let n = shape[d];
    let r = shape_product(vstd::slice::slice_subrange(shape, d + 1, rank));
    assert(v.0.subrange(0, d as int) =~= v.0.take(d as int));
    assert(v.0.subrange(d + 1, rank as int) =~= v.0.skip(d + 1));
    proof {
        assert(data@.len() == p * (n * r));
        assert(p * (n * r) == p * n * r) by (nonlinear_arith);
    }
    let empty_value = if d == 0 {
        identity
    } else {
        match default {
            Some(x) => x,
            None => identity,
        }
    };
    let mut out: Vec<u8> = Vec::new();
    let mut c: usize = 0;
    while c < p
        invariant
            c <= p,
            data@ == v.1,
            data@.len() == p * n * r,
            data@.len() <= isize::MAX,
            out@ == axis_blocks(data@, c as nat, n as int, r as int, fuu, identity, default, empty_value),
        decreases p - c,
    {
        proof {
            assert((c + 1) * n * r <= p * n * r) by (nonlinear_arith)
                requires
                    c + 1 <= p,
            ;
        }
        let block = reduce_chunk(data, c, n, r, fuu, identity, default, empty_value);
        let mut k: usize = 0;
        let ghost before = out@;
        while k < block.len()
            invariant
                k <= block@.len(),
                out@ == before + block@.take(k as int),
            decreases block.len() - k,
        {
            out.push(block[k]);
            k = k + 1;
        }
        assert(block@.take(block@.len() as int) =~= block@);
        c = c + 1;
    }
    let new_shape = remove_axis(shape, d);
    proof {
        lemma_axis_blocks_len(data@, p as nat, n as int, r as int, fuu, identity, default, empty_value);
        assert(v.0.remove(d as int) =~= v.0.take(d as int) + v.0.skip(d + 1));
        lemma_size_append(v.0.take(d as int), v.0.skip(d + 1));
    }
    Array::from_parts(new_shape, out)
}

/// Reduces an array along axis `depth` with one byte function.
pub fn fast_reduce(arr: Array, identity: u8, default: Option<u8>, depth: usize, f: ByteOp) -> (res:
    Array)
    requires
        fast_reduce_fits(arr@, depth as nat),
    ensures
        res@ == fast_reduce_spec(arr@, identity, default, depth as nat, f, f),
{
    fast_reduce_different(arr, identity, default, depth, f, f)
}

/// Place `i` of a scan: the byte itself in the first row, else the scanned
/// byte one row up combined with it.
pub open spec fn scan_cell(data: Seq<u8>, r: int, op: ByteOp, i: int) -> u8
    decreases i,
{
    if r <= 0 || i < r {
        data[i]
    } else {
        byte_op(op, scan_cell(data, r, op, i - r), data[i])
    }
}

/// What a scan gives: the same shape, each row combined with the scan of the
/// rows before it.
pub open spec fn scan_spec(v: ArrayView, op: ByteOp) -> ArrayView {
    (v.0, Seq::new(v.1.len(), |i: int| scan_cell(v.1, row_size(v) as int, op, i)))
}

/// Place `i` of an unscan: the byte itself in the first row, else the byte
/// one row up combined with it.
pub open spec fn unscan_cell(data: Seq<u8>, r: int, op: ByteOp, i: int) -> u8 {
    if r <= 0 || i < r {
        data[i]
    } else {
        byte_op(op, data[i - r], data[i])
    }
}

/// What an unscan gives: the same shape, each row after the first combined
/// with the row before it.
pub open spec fn unscan_spec(v: ArrayView, op: ByteOp) -> ArrayView {
    (v.0, Seq::new(v.1.len(), |i: int| unscan_cell(v.1, row_size(v) as int, op, i)))
}

/// Scans an array of rank one or more along its rows.
pub fn fast_scan(arr: Array, f: ByteOp) -> (res: Array)
    requires
        arr@.0.len() > 0,
    ensures
        res@ == scan_spec(arr@, f),
{
    let ghost v = arr@;
    if arr.row_count() == 0 {
        let data = arr.data();
        proof {
            crate::shape::lemma_size_cons(v.0);
            assert(0 * shape_size(v.0.skip(1)) == 0) by (nonlinear_arith);
        }
        assert(scan_spec(v, f).1 =~= v.1);
        return arr;
    }
    let r = arr.row_len();
    let data = arr.data();
    proof {
        crate::shape::lemma_size_cons(v.0);
        assert(r == 0 ==> v.0[0] * r == 0) by (nonlinear_arith);
    }
    let mut out: Vec<u8> = Vec::new();
    let mut i: usize = 0;
    while i < data.len()
        invariant
            i <= data@.len(),
            data@ == v.1,
            r == row_size(v),
            out@.len() == i,
            forall|m: int| 0 <= m < i ==> #[trigger] out@[m] == scan_cell(v.1, r as int, f, m),
            r > 0 || data@.len() == 0,
        decreases data.len() - i,
    {
        if i < r {
            out.push(data[i]);
        } else {
            let y = f.apply(out[i - r], data[i]);
            out.push(y);
        }
        assert(out@[i as int] == scan_cell(v.1, r as int, f, i as int));
        i = i + 1;
    }
    let shape = arr.shape();
    let mut new_shape: Vec<usize> = Vec::new();
    let mut a: usize = 0;
    while a < shape.len()
        invariant
            a <= shape@.len(),
            new_shape@ == shape@.take(a as int),
        decreases shape.len() - a,
    {
        new_shape.push(shape[a]);
        a = a + 1;
    }
    assert(shape@.take(shape@.len() as int) =~= shape@);
    assert(out@ =~= scan_spec(v, f).1);
    Array::from_parts(new_shape, out)
}

/// Undoes a scan: each row after the first combined with the row before it.
pub fn fast_invscan(arr: Array, f: ByteOp) -> (res: Array)
    requires
        arr@.0.len() > 0,
    ensures
        res@ == unscan_spec(arr@, f),
{
    let ghost v = arr@;
    if arr.row_count() == 0 {
        let data = arr.data();
        proof {
            crate::shape::lemma_size_cons(v.0);
            assert(0 * shape_size(v.0.skip(1)) == 0) by (nonlinear_arith);
        }
        assert(unscan_spec(v, f).1 =~= v.1);
        return arr;
    }
    let r = arr.row_len();
    let data = arr.data();
    proof {
        crate::shape::lemma_size_cons(v.0);
        assert(r == 0 ==> v.0[0] * r == 0) by (nonlinear_arith);
    }
    let mut out: Vec<u8> = Vec::new();
    let mut i: usize = 0;
    while i < data.len()
        invariant
            i <= data@.len(),
            data@ == v.1,
            r == row_size(v),
            out@.len() == i,
            forall|m: int| 0 <= m < i ==> #[trigger] out@[m] == unscan_cell(v.1, r as int, f, m),
            r > 0 || data@.len() == 0,
        decreases data.len() - i,
    {
        if i < r {
            out.push(data[i]);
        } else {
            let y = f.apply(data[i - r], data[i]);
            out.push(y);
        }
        assert(out@[i as int] == unscan_cell(v.1, r as int, f, i as int));
        i = i + 1;
    }
    let shape = arr.shape();
    let mut new_shape: Vec<usize> = Vec::new();
    let mut a: usize = 0;
    while a < shape.len()
        invariant
            a <= shape@.len(),
            new_shape@ == shape@.take(a as int),
        decreases shape.len() - a,
    {
        new_shape.push(shape[a]);
        a = a + 1;
    }
    assert(shape@.take(shape@.len() as int) =~= shape@);
    assert(out@ =~= unscan_spec(v, f).1);
    Array::from_parts(new_shape, out)
}

/// The bytes that place `i` is combined with in a window of `n` rows of `r`
/// bytes: the same place in each of the `n - 1` rows below it.
pub open spec fn window_rest(data: Seq<u8>, r: int, n: int, i: int) -> Seq<u8> {
    Seq::new((n - 1) as nat, |j: int| data[i + (j + 1) * r])
}

/// What a windowed fold gives: refused for a rank 0 array; no rows where
/// there are fewer rows than the window; else one row per window of `n`
/// adjacent rows, each place folded down the window.
pub open spec fn adjacent_spec(v: ArrayView, n: nat, op: ByteOp) -> Result<ArrayView, ReduceError> {
    if v.0.len() == 0 {
        Err(ReduceError::ScalarAdjacency)
    } else if row_count(v) < n {
        Ok((v.0.update(0, 0usize), Seq::empty()))
    } else {
        let r = row_size(v) as int;
        let m = (row_count(v) - (n - 1)) * r;
        Ok(
            (
                v.0.update(0, (v.0[0] - (n - 1)) as usize),
                Seq::new(
                    m as nat,
                    |i: int| fold_bytes(op, v.1[i], window_rest(v.1, r, n as int, i)),
                ),
            ),
        )
    }
}

/// Folds each window of `n` adjacent rows of an array with a byte function.
pub fn fast_adjacent(arr: Array, n: usize, f: ByteOp) -> (res: Result<Array, ReduceError>)
    requires
        n > 0,
    ensures
        crate::array::view_result(res) == adjacent_spec(arr@, n as nat, f),
{
    let ghost v = arr@;
    let shape = arr.shape();
    if shape.len() == 0 {
        return Err(ReduceError::ScalarAdjacency);
    }
    let rc = arr.row_count();
    if rc < n {
        let mut new_shape: Vec<usize> = Vec::new();
        new_shape.push(0);
        let mut a: usize = 1;
        while a < shape.len()
            invariant
                1 <= a <= shape@.len(),
                new_shape@ == shape@.update(0, 0usize).take(a as int),
            decreases shape.len() - a,
        {
            new_shape.push(shape[a]);
            a = a + 1;
        }
        assert(new_shape@ =~= shape@.update(0, 0usize));
        proof {
            crate::shape::lemma_size_zero(new_shape@, 0);
        }
        return Ok(Array::from_parts(new_shape, Vec::new()));
    }
    let r = arr.row_len();
    let data = arr.data();
    let windows = rc - (n - 1);
    proof {
        crate::shape::lemma_size_cons(v.0);
        assert(data@.len() == rc * r);
        assert(windows * r <= rc * r) by (nonlinear_arith)
            requires
                windows <= rc,
        ;
    }
    let m = windows * r;
    let mut out: Vec<u8> = Vec::new();
    let mut i: usize = 0;
    while i < m
        invariant
            i <= m,
            m == windows * r,
            m <= data@.len(),
            0 < n,
            windows == rc - (n - 1),
            n <= rc,
            data@ == v.1,
            data@.len() == rc * r,
            data@.len() <= isize::MAX,
            r == row_size(v),
            out@.len() == i,
            forall|q: int|
                0 <= q < i ==> #[trigger] out@[q] == fold_bytes(
                    f,
                    v.1[q],
                    window_rest(v.1, r as int, n as int, q),
                ),
        decreases m - i,
    {
        let ghost rest = window_rest(v.1, r as int, n as int, i as int);
        let mut acc = data[i];
        let mut j: usize = 1;
        assert(rest.take(0) =~= Seq::<u8>::empty());
        while j < n
            invariant
                1 <= j <= n,
                i < m,
                m == windows * r,
                m <= data@.len(),
                windows == rc - (n - 1),
                n <= rc,
                data@ == v.1,
                data@.len() == rc * r,
                data@.len() <= isize::MAX,
                rest == window_rest(v.1, r as int, n as int, i as int),
                acc == fold_bytes(f, v.1[i as int], rest.take(j - 1)),
            decreases n - j,
        {
            proof {
                assert(i + j * r < rc * r) by (nonlinear_arith)
                    requires
                        i < (rc - (n - 1)) * r,
                        j <= n - 1,
                        0 <= j,
                ;
                assert(j * r <= i + j * r) by (nonlinear_arith)
                    requires
                        0 <= j,
                        0 <= i,
                ;
                assert(rest.take(j - 1).push(rest[j - 1]) =~= rest.take(j as int));
                assert(rest.take(j as int).drop_last() =~= rest.take(j - 1));
                assert(rest[j - 1] == v.1[i + j * r]);
            }
            acc = f.apply(acc, data[i + j * r]);
            j = j + 1;
        }
        assert(rest.take(n - 1) =~= rest);
        out.push(acc);
        i = i + 1;
    }
    let mut new_shape: Vec<usize> = Vec::new();
    new_shape.push(windows);
    let mut a: usize = 1;
    while a < shape.len()
        invariant
            1 <= a <= shape@.len(),
            new_shape@ == shape@.update(0, windows).take(a as int),
        decreases shape.len() - a,
    {
        new_shape.push(shape[a]);
        a = a + 1;
    }
    assert(new_shape@ =~= shape@.update(0, windows));
    proof {
        crate::shape::lemma_size_cons(new_shape@);
        assert(new_shape@.skip(1) =~= v.0.skip(1));
    }
    assert(out@ =~= adjacent_spec(v, n as nat, f).unwrap().1);
    Ok(Array::from_parts(new_shape, out))
}

} // verus!
