//! Row-major byte arrays: a shape and the bytes it lays out, with the rows
//! that an array splits into and the array that rows join into.

use vstd::prelude::*;
use ecow::EcoVec;
use crate::shape::{shape_size, lemma_size_cons, lemma_size_append, checked_shape_size};
use crate::eco::{eco_bytes, bytes_from_vec, bytes_as_slice, bytes_clone};
use crate::errors::ReduceError;

verus! {

/// An array as a mathematical value: its shape and its bytes in row-major order.
pub type ArrayView = (Seq<usize>, Seq<u8>);

/// The bytes are exactly as many as the shape lays out.
pub open spec fn well_shaped(v: ArrayView) -> bool {
    v.1.len() == shape_size(v.0)
}

/// The shape of each row: the shape without its first axis. A rank 0 array
/// is its own single row.
pub open spec fn row_shape(v: ArrayView) -> Seq<usize> {
    if v.0.len() == 0 {
        v.0
    } else {
        v.0.skip(1)
    }
}

/// Number of rows: the length of the first axis, or one for a rank 0 array.
pub open spec fn row_count(v: ArrayView) -> nat {
    if v.0.len() == 0 {
        1
    } else {
        v.0[0] as nat
    }
}

/// Number of bytes in each row.
pub open spec fn row_size(v: ArrayView) -> nat {
    shape_size(row_shape(v))
}

/// Row `i` of an array.
pub open spec fn row_of(v: ArrayView, i: int) -> ArrayView {
    (row_shape(v), v.1.subrange(i * row_size(v), i * row_size(v) + row_size(v)))
}

/// All rows of an array, in order.
pub open spec fn rows_of(v: ArrayView) -> Seq<ArrayView> {
    Seq::new(row_count(v), |i: int| row_of(v, i))
}

/// The bytes of several arrays, one after the other.
pub open spec fn concat_data(rows: Seq<ArrayView>) -> Seq<u8>
    decreases rows.len(),
{
    if rows.len() == 0 {
        Seq::empty()
    } else {
        concat_data(rows.drop_last()) + rows.last().1
    }
}

/// Every row has the shape of the first.
pub open spec fn same_shapes(rows: Seq<ArrayView>) -> bool {
    forall|i: int| 0 <= i < rows.len() ==> #[trigger] rows[i].0 == rows[0].0
}

/// The array whose rows are the given arrays: refused where their shapes
/// differ; no rows give an empty list.
pub open spec fn combine_rows(rows: Seq<ArrayView>) -> Result<ArrayView, ReduceError> {
    if rows.len() == 0 {
        Ok((seq![0usize], Seq::empty()))
    } else if same_shapes(rows) {
        Ok((seq![rows.len() as usize] + rows[0].0, concat_data(rows)))
    } else {
        Err(ReduceError::RowShapeMismatch)
    }
}

/// The array of the same shape but with no rows.
pub open spec fn first_dim_zero(v: ArrayView) -> ArrayView {
    (v.0.update(0, 0usize), Seq::empty())
}

/// An array of bytes with its shape.
pub struct Array {
    shape: Vec<usize>,
    data: EcoVec<u8>,
}

impl View for Array {
    type V = ArrayView;

    closed spec fn view(&self) -> ArrayView {
        (self.shape@, eco_bytes(self.data))
    }
}

/// The values of a sequence of arrays.
pub open spec fn views(v: Seq<Array>) -> Seq<ArrayView> {
    v.map_values(|a: Array| a@)
}

/// The value of an array result.
pub open spec fn view_result(r: Result<Array, ReduceError>) -> Result<ArrayView, ReduceError> {
    match r {
        Ok(a) => Ok(a@),
        Err(e) => Err(e),
    }
}

/// The values of a result that holds several arrays.
pub open spec fn views_result(r: Result<Vec<Array>, ReduceError>) -> Result<
    Seq<ArrayView>,
    ReduceError,
> {
    match r {
        Ok(v) => Ok(views(v@)),
        Err(e) => Err(e),
    }
}

/// Where rows all have one shape, their bytes are that shape's size per row.
pub proof fn lemma_concat_len(rows: Seq<ArrayView>, s: Seq<usize>)
    requires
        forall|i: int| 0 <= i < rows.len() ==> #[trigger] rows[i].0 == s && well_shaped(rows[i]),
    ensures
        concat_data(rows).len() == rows.len() * shape_size(s),
    decreases rows.len(),
{
    if rows.len() > 0 {
        lemma_concat_len(rows.drop_last(), s);
        let n = rows.len();
        let z = shape_size(s);
        assert(rows[rows.len() - 1].0 == s);
        assert(rows.last().1.len() == z);
        assert(concat_data(rows).len() == concat_data(rows.drop_last()).len() + z);
        assert((n - 1) * z + z == n * z) by (nonlinear_arith);
    }
}

impl Array {
    #[verifier::type_invariant]
    pub(crate) closed spec fn inv(self) -> bool {
        well_shaped(self@)
    }

    /// An array of the given shape and bytes, where the bytes are as many as
    /// the shape lays out.
    pub fn new(shape: Vec<usize>, data: Vec<u8>) -> (r: Option<Array>)
        ensures
            r is Some <==> well_shaped((shape@, data@)),
            r matches Some(a) ==> a@ == (shape@, data@),
    {
        let len = data.len();
        match checked_shape_size(shape.as_slice()) {
            Some(n) => {
                if n == len {
                    Some(Array::from_parts(shape, data))
                } else {
                    None
                }
            },
            None => None,
        }
    }

    pub(crate) fn from_parts(shape: Vec<usize>, data: Vec<u8>) -> (r: Array)
        requires
            well_shaped((shape@, data@)),
        ensures
            r@ == (shape@, data@),
    {
        Array { shape, data: bytes_from_vec(data) }
    }

    /// A rank 0 array holding one byte.
    pub fn scalar(x: u8) -> (r: Array)
        ensures
            r@ == (Seq::<usize>::empty(), seq![x]),
    {
        let shape: Vec<usize> = Vec::new();
        let mut data: Vec<u8> = Vec::new();
        data.push(x);
        assert(shape_size(shape@) == 1);
        Array::from_parts(shape, data)
    }

    /// The shape.
    pub fn shape(&self) -> (s: &[usize])
        ensures
            s@ == self@.0,
            well_shaped(self@),
    {
        proof {
            use_type_invariant(self);
        }
        self.shape.as_slice()
    }

    /// The bytes, in row-major order.
    pub fn data(&self) -> (d: &[u8])
        ensures
            d@ == self@.1,
            d@.len() <= isize::MAX,
            well_shaped(self@),
    {
        proof {
            use_type_invariant(self);
        }
        bytes_as_slice(&self.data)
    }

    /// Number of axes.
    pub fn rank(&self) -> (r: usize)
        ensures
            r == self@.0.len(),
    {
        self.shape.len()
    }

    /// Number of rows.
    pub fn row_count(&self) -> (r: usize)
        ensures
            r == row_count(self@),
    {
        if self.shape.len() == 0 {
            1
        } else {
            self.shape[0]
        }
    }

    /// The same array again, sharing its bytes.
    pub fn duplicate(&self) -> (r: Array)
        ensures
            r@ == self@,
    {
        proof {
            use_type_invariant(self);
        }
        Array { shape: self.shape.clone(), data: bytes_clone(&self.data) }
    }

    /// The same shape with the first axis set to zero, and no bytes.
    pub fn first_dim_zero(&self) -> (r: Array)
        requires
            self@.0.len() > 0,
        ensures
            r@ == first_dim_zero(self@),
    {
        let mut shape = self.shape.clone();
        shape.set(0, 0);
        proof {
            crate::shape::lemma_size_zero(shape@, 0);
        }
        Array::from_parts(shape, Vec::new())
    }

    /// Number of bytes in each row of an array that has rows.
    pub fn row_len(&self) -> (r: usize)
        requires
            row_count(self@) > 0,
        ensures
            r == row_size(self@),
    {
        proof {
            use_type_invariant(self);
        }
        if self.shape.len() == 0 {
            return 1;
        }
        let n = self.shape[0];
        let len = bytes_as_slice(&self.data).len();
        proof {
            lemma_size_cons(self.shape@);
            let r = row_size(self@);
            assert(len == n * r);
            assert(n > 0 && len == n * r ==> len / n == r) by (nonlinear_arith);
        }
        len / n
    }

    /// The rows, in order.
    pub fn into_rows(self) -> (rows: Vec<Array>)
        ensures
            views(rows@) == rows_of(self@),
    {
        proof {
            use_type_invariant(&self);
        }
        if self.shape.len() == 0 {
            let mut rows: Vec<Array> = Vec::new();
            let ghost v = self@;
            rows.push(self);
            assert(v.1.subrange(0, 1) =~= v.1);
            assert(row_size(v) == 1);
            assert(row_of(v, 0) == v);
            assert(views(rows@) =~= rows_of(v));
            return rows;
        }
        let n = self.shape[0];
        let mut rows: Vec<Array> = Vec::new();
        if n == 0 {
            assert(views(rows@) =~= rows_of(self@));
            return rows;
        }
        let r = self.row_len();
        let data = bytes_as_slice(&self.data);
        let mut rshape: Vec<usize> = Vec::new();
        let mut a: usize = 1;
        while a < self.shape.len()
            invariant
                1 <= a <= self.shape@.len(),
                rshape@ == self.shape@.subrange(1, a as int),
            decreases self.shape.len() - a,
        {
            rshape.push(self.shape[a]);
            a = a + 1;
        }
        assert(rshape@ =~= row_shape(self@));
        proof {
            lemma_size_cons(self.shape@);
        }
        let mut i: usize = 0;
        while i < n
            invariant
                i <= n,
                n == self@.0[0],
                self@.0.len() > 0,
                r == row_size(self@),
                data@ == self@.1,
                data@.len() == n * r,
                data@.len() <= isize::MAX,
                rshape@ == row_shape(self@),
                rows@.len() == i,
                forall|j: int| 0 <= j < i ==> #[trigger] rows@[j]@ == row_of(self@, j),
            decreases n - i,
        {
            proof {
                assert((i + 1) * r <= n * r) by (nonlinear_arith)
                    requires
                        i + 1 <= n,
                ;
                assert(i * r + r == (i + 1) * r) by (nonlinear_arith);
            }
            let start = i * r;
            let end = start + r;
            let mut bytes: Vec<u8> = Vec::new();
            let mut k: usize = start;
            while k < end
                invariant
                    start <= k <= end <= data@.len(),
                    bytes@ == data@.subrange(start as int, k as int),
                decreases end - k,
            {
                bytes.push(data[k]);
                k = k + 1;
            }
            rows.push(Array::from_parts(rshape.clone(), bytes));
            i = i + 1;
        }
        assert(views(rows@) =~= rows_of(self@));
        rows
    }

    /// The array whose rows are the given arrays.
    pub fn from_row_values(rows: Vec<Array>) -> (r: Result<Array, ReduceError>)
        ensures
            view_result(r) == combine_rows(views(rows@)),
    {
        let ghost vs = views(rows@);
        if rows.len() == 0 {
            let mut shape: Vec<usize> = Vec::new();
            shape.push(0);
            proof {
                crate::shape::lemma_size_zero(shape@, 0);
            }
            let a = Array::from_parts(shape, Vec::new());
            assert(a@.0 =~= seq![0usize]);
            assert(a@.1 =~= Seq::<u8>::empty());
            return Ok(a);
        }
        let first = rows[0].shape();
        let mut i: usize = 0;
        while i < rows.len()
            invariant
                i <= rows@.len(),
                rows@.len() > 0,
                vs == views(rows@),
                first@ == vs[0].0,
                forall|j: int| 0 <= j < i ==> #[trigger] vs[j].0 == vs[0].0,
            decreases rows.len() - i,
        {
            if !same_axes(rows[i].shape(), first) {
                assert(vs[i as int].0 != vs[0].0);
                assert(!same_shapes(vs));
                return Err(ReduceError::RowShapeMismatch);
            }
            i = i + 1;
        }
        let mut data: Vec<u8> = Vec::new();
        let mut i: usize = 0;
        while i < rows.len()
            invariant
                i <= rows@.len(),
                vs == views(rows@),
                data@ == concat_data(vs.take(i as int)),
                forall|j: int| 0 <= j < i ==> well_shaped(#[trigger] vs[j]),
            decreases rows.len() - i,
        {
            let bytes = rows[i].data();
            let mut k: usize = 0;
            let ghost before = data@;
            while k < bytes.len()
                invariant
                    k <= bytes@.len(),
                    data@ == before + bytes@.take(k as int),
                decreases bytes.len() - k,
            {
                data.push(bytes[k]);
                k = k + 1;
            }
            assert(bytes@.take(bytes@.len() as int) =~= bytes@);
            assert(vs.take(i + 1).drop_last() =~= vs.take(i as int));
            i = i + 1;
        }
        assert(vs.take(rows@.len() as int) =~= vs);
        let count = rows.len();
        let mut shape: Vec<usize> = Vec::new();
        shape.push(count);
        let mut a: usize = 0;
        while a < first.len()
            invariant
                a <= first@.len(),
                shape@ == seq![count] + first@.take(a as int),
            decreases first.len() - a,
        {
            shape.push(first[a]);
            a = a + 1;
        }
        proof {
            assert(first@.take(first@.len() as int) =~= first@);
            assert forall|j: int| 0 <= j < vs.len() implies #[trigger] vs[j].0 == first@
                && well_shaped(vs[j]) by {}
            lemma_concat_len(vs, first@);
            lemma_size_append(seq![rows@.len() as usize], first@);
            let head = seq![count];
            assert(head.drop_first() =~= Seq::<usize>::empty());
            assert(head[0] == rows@.len());
            assert(shape_size(head.drop_first()) == 1);
            assert(shape_size(head) == (head[0] as nat) * shape_size(head.drop_first()));
            let x = head[0] as nat;
            let y = shape_size(head.drop_first());
            assert(x * y == x) by (nonlinear_arith)
                requires
                    y == 1,
            ;
            assert(shape_size(head) == rows@.len());
            assert(shape@ =~= head + first@);
            assert(data@.len() == shape_size(shape@));
        }
        Ok(Array::from_parts(shape, data))
    }
}

/// Whether two shapes are equal.
pub fn same_axes(a: &[usize], b: &[usize]) -> (r: bool)
    ensures
        r == (a@ == b@),
{
    if a.len() != b.len() {
        return false;
    }
    let mut i: usize = 0;
    while i < a.len()
        invariant
            i <= a@.len(),
            a@.len() == b@.len(),
            forall|j: int| 0 <= j < i ==> a@[j] == b@[j],
        decreases a.len() - i,
    {
        if a[i] != b[i] {
            return false;
        }
        i = i + 1;
    }
    assert(a@ =~= b@);
    true
}

} // verus!
