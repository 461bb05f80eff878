//! Functions as the interpreter's stack sees them: a signature, possibly a
//! primitive they are recognised as, and what calling them does to the
//! values they take from the stack.

use vstd::prelude::*;
use crate::array::{Array, ArrayView, views, views_result, row_shape, well_shaped};
use crate::shape::{shape_size, lemma_size_cons, lemma_size_append};
use crate::errors::ReduceError;
use crate::ops::{ByteOp, Primitive, byte_op, byte_op_primitive, primitive_byte_op};

verus! {

/// How many values a function takes from the stack and how many it leaves.
#[derive(Clone, Copy, Debug, PartialEq, Eq, Structural)]
pub struct Signature {
    pub args: usize,
    pub outputs: usize,
}

/// A function value that reductions, scans, folds and windowed folds call.
///
/// Arguments and results are listed in stack order: the last value of each
/// list is the top of the stack, so the first argument is the last value of
/// `args`. A call is a function of its arguments: the same arguments give the
/// same result.
pub trait Function {
    spec fn spec_signature(&self) -> Signature;

    /// The primitive this function is, and whether its arguments are swapped.
    spec fn spec_primitive(&self) -> Option<(Primitive, bool)>;

    /// The values that a call leaves on the stack, or why it fails.
    spec fn spec_call(&self, args: Seq<ArrayView>) -> Result<Seq<ArrayView>, ReduceError>;

    /// A call that succeeds, on as many well-shaped arrays as the function
    /// takes, leaves as many arrays as it gives, all well shaped.
    proof fn lemma_call_well_shaped(&self, args: Seq<ArrayView>)
        requires
            args.len() == self.spec_signature().args,
            forall|i: int| 0 <= i < args.len() ==> well_shaped(#[trigger] args[i]),
        ensures
            self.spec_call(args) is Ok ==> (self.spec_call(args)->Ok_0).len()
                == self.spec_signature().outputs,
            self.spec_call(args) is Ok ==> forall|j: int|
                0 <= j < (self.spec_call(args)->Ok_0).len() ==> well_shaped(
                    #[trigger] (self.spec_call(args)->Ok_0)[j],
                ),
    ;

    /// A function recognised as a primitive takes two values and leaves one.
    /// Recognised as equality, inequality, maximum or minimum, it combines two
    /// arrays of one shape byte by byte, `a` on top of the stack first.
    proof fn lemma_primitive(&self, a: ArrayView, b: ArrayView)
        ensures
            self.spec_primitive() is Some ==> self.spec_signature() == (Signature {
                args: 2,
                outputs: 1,
            }),
            self.spec_primitive() is Some && primitive_byte_op((self.spec_primitive()->Some_0).0)
                is Some && a.0 == b.0 && a.1.len() == b.1.len() ==> self.spec_call(seq![b, a])
                == Ok::<Seq<ArrayView>, ReduceError>(
                seq![bytewise(primitive_byte_op((self.spec_primitive()->Some_0).0)->Some_0, a, b)],
            ),
    ;

    fn signature(&self) -> (s: Signature)
        ensures
            s == self.spec_signature(),
    ;

    fn as_flipped_primitive(&self) -> (p: Option<(Primitive, bool)>)
        ensures
            p == self.spec_primitive(),
    ;

    fn call(&self, args: Vec<Array>) -> (r: Result<Vec<Array>, ReduceError>)
        requires
            args@.len() == self.spec_signature().args,
        ensures
            views_result(r) == self.spec_call(views(args@)),
            r matches Ok(out) ==> out@.len() == self.spec_signature().outputs,
    ;
}

/// Two arrays of one shape combined byte by byte: `a`'s shape, and at each
/// place the function of `a`'s byte and `b`'s.
pub open spec fn bytewise(op: ByteOp, a: ArrayView, b: ArrayView) -> ArrayView {
    (a.0, Seq::new(a.1.len(), |i: int| byte_op(op, a.1[i], b.1[i])))
}

/// A dyadic byte function applied element by element to two arrays of one
/// shape.
#[derive(Clone, Copy, Debug)]
pub struct Pervasive {
    pub op: ByteOp,
}

/// The two arrays combined element by element: `a` is the first argument.
pub open spec fn pervasive_spec(op: ByteOp, a: ArrayView, b: ArrayView) -> Result<
    ArrayView,
    ReduceError,
> {
    if a.0 == b.0 && a.1.len() == b.1.len() {
        Ok((a.0, Seq::new(a.1.len(), |i: int| byte_op(op, a.1[i], b.1[i]))))
    } else {
        Err(ReduceError::ShapeMismatch)
    }
}

impl Function for Pervasive {
    open spec fn spec_signature(&self) -> Signature {
        Signature { args: 2, outputs: 1 }
    }

    open spec fn spec_primitive(&self) -> Option<(Primitive, bool)> {
        Some((byte_op_primitive(self.op), false))
    }

    open spec fn spec_call(&self, args: Seq<ArrayView>) -> Result<Seq<ArrayView>, ReduceError> {
        if args.len() != 2 {
            Err(ReduceError::EmptyStack)
        } else {
            match pervasive_spec(self.op, args[1], args[0]) {
                Ok(x) => Ok(seq![x]),
                Err(e) => Err(e),
            }
        }
    }

    proof fn lemma_call_well_shaped(&self, args: Seq<ArrayView>) {
    }

    proof fn lemma_primitive(&self, a: ArrayView, b: ArrayView) {
        assert(seq![b, a][1] == a && seq![b, a][0] == b);
    }

    fn signature(&self) -> (s: Signature) {
        Signature { args: 2, outputs: 1 }
    }

    fn as_flipped_primitive(&self) -> (p: Option<(Primitive, bool)>) {
        Some((self.op.primitive(), false))
    }

    fn call(&self, args: Vec<Array>) -> (r: Result<Vec<Array>, ReduceError>) {
        let mut args = args;
        let ghost vs = views(args@);
        let a = args.pop().unwrap();
        let b = args.pop().unwrap();
        assert(a@ == vs[1] && b@ == vs[0]);
        let sa = a.shape();
        let sb = b.shape();
        let da = a.data();
        let db = b.data();
        if !crate::array::same_axes(sa, sb) || da.len() != db.len() {
            return Err(ReduceError::ShapeMismatch);
        }
        let mut out: Vec<u8> = Vec::new();
        let mut i: usize = 0;
        while i < da.len()
            invariant
                i <= da@.len(),
                da@.len() == db@.len(),
                out@.len() == i,
                forall|m: int| 0 <= m < i ==> #[trigger] out@[m] == byte_op(self.op, da@[m], db@[m]),
            decreases da.len() - i,
        {
            out.push(self.op.apply(da[i], db[i]));
            i = i + 1;
        }
        let mut shape: Vec<usize> = Vec::new();
        let mut k: usize = 0;
        while k < sa.len()
            invariant
                k <= sa@.len(),
                shape@ == sa@.take(k as int),
            decreases sa.len() - k,
        {
            shape.push(sa[k]);
            k = k + 1;
        }
        assert(sa@.take(sa@.len() as int) =~= sa@);
        let c = Array::from_parts(shape, out);
        assert(c@ == pervasive_spec(self.op, vs[1], vs[0]).unwrap());
        let mut res: Vec<Array> = Vec::new();
        res.push(c);
        assert(views(res@) =~= seq![c@]);
        Ok(res)
    }
}

/// The function that leaves its argument as it is.
#[derive(Clone, Copy, Debug)]
pub struct Identity;

impl Function for Identity {
    open spec fn spec_signature(&self) -> Signature {
        Signature { args: 1, outputs: 1 }
    }

    open spec fn spec_primitive(&self) -> Option<(Primitive, bool)> {
        None
    }

    open spec fn spec_call(&self, args: Seq<ArrayView>) -> Result<Seq<ArrayView>, ReduceError> {
        Ok(args)
    }

    proof fn lemma_call_well_shaped(&self, args: Seq<ArrayView>) {
    }

    proof fn lemma_primitive(&self, a: ArrayView, b: ArrayView) {
    }

    fn signature(&self) -> (s: Signature) {
        Signature { args: 1, outputs: 1 }
    }

    fn as_flipped_primitive(&self) -> (p: Option<(Primitive, bool)>) {
        None
    }

    fn call(&self, args: Vec<Array>) -> (r: Result<Vec<Array>, ReduceError>) {
        Ok(args)
    }
}

/// The function that takes `count` values and leaves none.
#[derive(Clone, Copy, Debug)]
pub struct Pop {
    pub count: usize,
}

impl Function for Pop {
    open spec fn spec_signature(&self) -> Signature {
        Signature { args: self.count, outputs: 0 }
    }

    open spec fn spec_primitive(&self) -> Option<(Primitive, bool)> {
        None
    }

    open spec fn spec_call(&self, args: Seq<ArrayView>) -> Result<Seq<ArrayView>, ReduceError> {
        Ok(Seq::empty())
    }

    proof fn lemma_call_well_shaped(&self, args: Seq<ArrayView>) {
    }

    proof fn lemma_primitive(&self, a: ArrayView, b: ArrayView) {
    }

    fn signature(&self) -> (s: Signature) {
        Signature { args: self.count, outputs: 0 }
    }

    fn as_flipped_primitive(&self) -> (p: Option<(Primitive, bool)>) {
        None
    }

    fn call(&self, args: Vec<Array>) -> (r: Result<Vec<Array>, ReduceError>) {
        let out: Vec<Array> = Vec::new();
        assert(views(out@) =~= Seq::<ArrayView>::empty());
        Ok(out)
    }
}

/// The function that takes nothing and leaves a constant.
pub struct Constant {
    pub value: Array,
}

impl Function for Constant {
    open spec fn spec_signature(&self) -> Signature {
        Signature { args: 0, outputs: 1 }
    }

    open spec fn spec_primitive(&self) -> Option<(Primitive, bool)> {
        None
    }

    open spec fn spec_call(&self, args: Seq<ArrayView>) -> Result<Seq<ArrayView>, ReduceError> {
        if well_shaped(self.value@) {
            Ok(seq![self.value@])
        } else {
            Err(ReduceError::ShapeMismatch)
        }
    }

    proof fn lemma_call_well_shaped(&self, args: Seq<ArrayView>) {
    }

    proof fn lemma_primitive(&self, a: ArrayView, b: ArrayView) {
    }

    fn signature(&self) -> (s: Signature) {
        Signature { args: 0, outputs: 1 }
    }

    fn as_flipped_primitive(&self) -> (p: Option<(Primitive, bool)>) {
        None
    }

    fn call(&self, args: Vec<Array>) -> (r: Result<Vec<Array>, ReduceError>) {
        let _ = self.value.shape();
        let mut out: Vec<Array> = Vec::new();
        out.push(self.value.duplicate());
        assert(views(out@) =~= seq![self.value@]);
        Ok(out)
    }
}

/// Joins two arrays, `a` first: two scalars make a list; arrays of one rank
/// and one row shape put their rows together; an array and one of its rows
/// append or prepend that row. Refused for any other shapes, or where the row
/// count would not fit in `usize`.
pub open spec fn join_spec(a: ArrayView, b: ArrayView) -> Result<ArrayView, ReduceError> {
    if a.0.len() == 0 && b.0.len() == 0 {
        Ok((seq![2usize], a.1 + b.1))
    } else if a.0.len() == b.0.len() && row_shape(a) == row_shape(b) {
        if a.0[0] + b.0[0] <= usize::MAX {
            Ok((seq![(a.0[0] + b.0[0]) as usize] + row_shape(a), a.1 + b.1))
        } else {
            Err(ReduceError::ShapeMismatch)
        }
    } else if a.0.len() == b.0.len() + 1 && row_shape(a) == b.0 {
        if a.0[0] + 1 <= usize::MAX {
            Ok((seq![(a.0[0] + 1) as usize] + b.0, a.1 + b.1))
        } else {
            Err(ReduceError::ShapeMismatch)
        }
    } else if b.0.len() == a.0.len() + 1 && row_shape(b) == a.0 {
        if b.0[0] + 1 <= usize::MAX {
            Ok((seq![(b.0[0] + 1) as usize] + a.0, a.1 + b.1))
        } else {
            Err(ReduceError::ShapeMismatch)
        }
    } else {
        Err(ReduceError::ShapeMismatch)
    }
}

/// The join primitive.
#[derive(Clone, Copy, Debug)]
pub struct Join;

/// A join of two well-shaped arrays is well shaped.
proof fn lemma_join_well_shaped(a: ArrayView, b: ArrayView)
    requires
        well_shaped(a),
        well_shaped(b),
        join_spec(a, b) is Ok,
    ensures
        well_shaped(join_spec(a, b)->Ok_0),
{
    if a.0.len() == 0 && b.0.len() == 0 {
        lemma_rows_size(2, a.0);
    } else if a.0.len() == b.0.len() && row_shape(a) == row_shape(b) {
        lemma_size_cons(a.0);
        lemma_size_cons(b.0);
        let n = (a.0[0] + b.0[0]) as usize;
        lemma_rows_size(n, row_shape(a));
        let x = a.0[0] as nat;
        let y = b.0[0] as nat;
        let z = shape_size(row_shape(a));
        assert(x * z + y * z == (x + y) * z) by (nonlinear_arith);
    } else if a.0.len() == b.0.len() + 1 && row_shape(a) == b.0 {
        lemma_size_cons(a.0);
        let n = (a.0[0] + 1) as usize;
        lemma_rows_size(n, b.0);
        let x = a.0[0] as nat;
        let z = shape_size(b.0);
        assert(x * z + z == (x + 1) * z) by (nonlinear_arith);
    } else {
        lemma_size_cons(b.0);
        let n = (b.0[0] + 1) as usize;
        lemma_rows_size(n, a.0);
        let x = b.0[0] as nat;
        let z = shape_size(a.0);
        assert(z + x * z == (x + 1) * z) by (nonlinear_arith);
    }
}

/// The shape with its first axis replaced by `n` rows.
fn with_rows(n: usize, row: &[usize]) -> (s: Vec<usize>)
    ensures
        s@ == seq![n] + row@,
{
    let mut s: Vec<usize> = Vec::new();
    s.push(n);
    let mut i: usize = 0;
    while i < row.len()
        invariant
            i <= row@.len(),
            s@ == seq![n] + row@.take(i as int),
        decreases row.len() - i,
    {
        s.push(row[i]);
        i = i + 1;
    }
    assert(row@.take(row@.len() as int) =~= row@);
    s
}

/// The bytes of two arrays, one after the other.
fn concat_bytes(a: &[u8], b: &[u8]) -> (d: Vec<u8>)
    ensures
        d@ == a@ + b@,
{
    let mut d: Vec<u8> = Vec::new();
    let mut i: usize = 0;
    while i < a.len()
        invariant
            i <= a@.len(),
            d@ == a@.take(i as int),
        decreases a.len() - i,
    {
        d.push(a[i]);
        i = i + 1;
    }
    let mut j: usize = 0;
    while j < b.len()
        invariant
            j <= b@.len(),
            d@ == a@ + b@.take(j as int),
        decreases b.len() - j,
    {
        d.push(b[j]);
        j = j + 1;
    }
    assert(a@.take(a@.len() as int) =~= a@);
    assert(b@.take(b@.len() as int) =~= b@);
    d
}

/// The size of a shape with `n` rows of the given shape.
proof fn lemma_rows_size(n: usize, row: Seq<usize>)
    ensures
        shape_size(seq![n] + row) == n * shape_size(row),
{
    let h = seq![n];
    lemma_size_append(h, row);
    assert(h.drop_first() =~= Seq::<usize>::empty());
    assert(shape_size(h) == (n as nat) * shape_size(h.drop_first()));
    let x = n as nat;
    assert(x * 1 == x) by (nonlinear_arith);
}

impl Function for Join {
    open spec fn spec_signature(&self) -> Signature {
        Signature { args: 2, outputs: 1 }
    }

    open spec fn spec_primitive(&self) -> Option<(Primitive, bool)> {
        Some((Primitive::Join, false))
    }

    open spec fn spec_call(&self, args: Seq<ArrayView>) -> Result<Seq<ArrayView>, ReduceError> {
        if args.len() != 2 {
            Err(ReduceError::EmptyStack)
        } else {
            match join_spec(args[1], args[0]) {
                Ok(x) => Ok(seq![x]),
                Err(e) => Err(e),
            }
        }
    }

    proof fn lemma_call_well_shaped(&self, args: Seq<ArrayView>) {
        if args.len() == 2 && join_spec(args[1], args[0]) is Ok {
            lemma_join_well_shaped(args[1], args[0]);
        }
    }

    proof fn lemma_primitive(&self, a: ArrayView, b: ArrayView) {
    }

    fn signature(&self) -> (s: Signature) {
        Signature { args: 2, outputs: 1 }
    }

    fn as_flipped_primitive(&self) -> (p: Option<(Primitive, bool)>) {
        Some((Primitive::Join, false))
    }

    fn call(&self, args: Vec<Array>) -> (r: Result<Vec<Array>, ReduceError>) {
        let mut args = args;
        let ghost vs = views(args@);
        let a = args.pop().unwrap();
        let b = args.pop().unwrap();
        assert(a@ == vs[1] && b@ == vs[0]);
        let sa = a.shape();
        let sb = b.shape();
        let da = a.data();
        let db = b.data();
        let ghost va = a@;
        let ghost vb = b@;
        let data = concat_bytes(da, db);
        let shape: Vec<usize>;
        if sa.len() == 0 && sb.len() == 0 {
            shape = with_rows(2, sa);
            assert(shape@ =~= seq![2usize]);
            proof {
                lemma_rows_size(2, sa@);
            }
        } else if sa.len() == sb.len() && crate::array::same_axes(
            vstd::slice::slice_subrange(sa, 1, sa.len()),
            vstd::slice::slice_subrange(sb, 1, sb.len()),
        ) {
            assert(sa@.subrange(1, sa@.len() as int) =~= row_shape(va));
            assert(sb@.subrange(1, sb@.len() as int) =~= row_shape(vb));
            match sa[0].checked_add(sb[0]) {
                Some(n) => {
                    proof {
                        lemma_size_cons(va.0);
                        lemma_size_cons(vb.0);
                        lemma_rows_size(n, row_shape(va));
                        let x = sa@[0] as nat;
                        let y = sb@[0] as nat;
                        let z = shape_size(row_shape(va));
                        assert(x * z + y * z == (x + y) * z) by (nonlinear_arith);
                    }
                    shape = with_rows(n, vstd::slice::slice_subrange(sa, 1, sa.len()));
                },
                None => {
                    return Err(ReduceError::ShapeMismatch);
                },
            }
        } else if sa.len() > 0 && sa.len() - 1 == sb.len() && crate::array::same_axes(
            vstd::slice::slice_subrange(sa, 1, sa.len()),
            sb,
        ) {
            assert(sa@.subrange(1, sa@.len() as int) =~= row_shape(va));
            match sa[0].checked_add(1) {
                Some(n) => {
                    proof {
                        lemma_size_cons(va.0);
                        lemma_rows_size(n, vb.0);
                        let x = sa@[0] as nat;
                        let z = shape_size(vb.0);
                        assert(x * z + z == (x + 1) * z) by (nonlinear_arith);
                    }
                    shape = with_rows(n, sb);
                },
                None => {
                    return Err(ReduceError::ShapeMismatch);
                },
            }
        } else if sb.len() > 0 && sb.len() - 1 == sa.len() && crate::array::same_axes(
            vstd::slice::slice_subrange(sb, 1, sb.len()),
            sa,
        ) {
            assert(sb@.subrange(1, sb@.len() as int) =~= row_shape(vb));
            match sb[0].checked_add(1) {
                Some(n) => {
                    proof {
                        lemma_size_cons(vb.0);
                        lemma_rows_size(n, va.0);
                        let x = sb@[0] as nat;
                        let z = shape_size(va.0);
                        assert(z + x * z == (x + 1) * z) by (nonlinear_arith);
                    }
                    shape = with_rows(n, sa);
                },
                None => {
                    return Err(ReduceError::ShapeMismatch);
                },
            }
        } else {
            proof {
                if va.0.len() == vb.0.len() && va.0.len() > 0 && row_shape(va) == row_shape(vb) {
                    assert(sa@.subrange(1, sa@.len() as int) =~= row_shape(va));
                    assert(sb@.subrange(1, sb@.len() as int) =~= row_shape(vb));
                }
                if va.0.len() == vb.0.len() + 1 && row_shape(va) == vb.0 {
                    assert(sa@.subrange(1, sa@.len() as int) =~= row_shape(va));
                }
                if vb.0.len() == va.0.len() + 1 && row_shape(vb) == va.0 {
                    assert(sb@.subrange(1, sb@.len() as int) =~= row_shape(vb));
                }
            }
            return Err(ReduceError::ShapeMismatch);
        }
        let c = Array::from_parts(shape, data);
        let mut res: Vec<Array> = Vec::new();
        res.push(c);
        assert(views(res@) =~= seq![c@]);
        Ok(res)
    }
}

} // verus!
