//! The primitives that functions are recognised as, and the dyadic byte
//! functions that the fast paths apply element by element.

use vstd::prelude::*;

verus! {

/// The primitive functions that reductions, scans and windowed folds treat
/// specially.
#[derive(Clone, Copy, Debug, PartialEq, Eq, Structural)]
pub enum Primitive {
    Add,
    Sub,
    Mul,
    Div,
    Mod,
    Atan,
    Max,
    Min,
    Eq,
    Ne,
    Join,
}

/// A dyadic function from two bytes to a byte.
#[derive(Clone, Copy, Debug, PartialEq, Eq, Structural)]
pub enum ByteOp {
    /// The larger byte.
    Max,
    /// The smaller byte.
    Min,
    /// One where the bytes are equal, else zero.
    Eq,
    /// One where the bytes differ, else zero.
    Ne,
}

/// What a byte function gives for its two arguments.
pub open spec fn byte_op(op: ByteOp, a: u8, b: u8) -> u8 {
    match op {
        ByteOp::Max => if a >= b { a } else { b },
        ByteOp::Min => if a <= b { a } else { b },
        ByteOp::Eq => if a == b { 1 } else { 0 },
        ByteOp::Ne => if a != b { 1 } else { 0 },
    }
}

/// The byte function that a primitive is, where it is one.
pub open spec fn primitive_byte_op(p: Primitive) -> Option<ByteOp> {
    match p {
        Primitive::Max => Some(ByteOp::Max),
        Primitive::Min => Some(ByteOp::Min),
        Primitive::Eq => Some(ByteOp::Eq),
        Primitive::Ne => Some(ByteOp::Ne),
        _ => None,
    }
}

/// The primitive that a byte function is.
pub open spec fn byte_op_primitive(op: ByteOp) -> Primitive {
    match op {
        ByteOp::Max => Primitive::Max,
        ByteOp::Min => Primitive::Min,
        ByteOp::Eq => Primitive::Eq,
        ByteOp::Ne => Primitive::Ne,
    }
}

impl ByteOp {
    /// Applies the function: `a` is the running value, `b` the new byte.
    pub fn apply(&self, a: u8, b: u8) -> (r: u8)
        ensures
            r == byte_op(*self, a, b),
    {
        match self {
            ByteOp::Max => if a >= b { a } else { b },
            ByteOp::Min => if a <= b { a } else { b },
            ByteOp::Eq => if a == b { 1 } else { 0 },
            ByteOp::Ne => if a != b { 1 } else { 0 },
        }
    }

    /// The primitive that this function is.
    pub fn primitive(&self) -> (p: Primitive)
        ensures
            p == byte_op_primitive(*self),
    {
        match self {
            ByteOp::Max => Primitive::Max,
            ByteOp::Min => Primitive::Min,
            ByteOp::Eq => Primitive::Eq,
            ByteOp::Ne => Primitive::Ne,
        }
    }
}

/// Folds the bytes from the left, starting from `init`.
pub open spec fn fold_bytes(op: ByteOp, init: u8, s: Seq<u8>) -> u8
    decreases s.len(),
{
    if s.len() == 0 {
        init
    } else {
        byte_op(op, fold_bytes(op, init, s.drop_last()), s.last())
    }
}

/// Reduces the bytes: from `default` where one is given, else from the first
/// byte; `identity` for no bytes and no default.
pub open spec fn reduce_bytes(op: ByteOp, identity: u8, default: Option<u8>, s: Seq<u8>) -> u8 {
    match default {
        Some(d) => fold_bytes(op, d, s),
        None => if s.len() == 0 {
            identity
        } else {
            fold_bytes(op, s[0], s.skip(1))
        },
    }
}

/// Reducing one more byte applies the function once more.
pub proof fn lemma_reduce_push(op: ByteOp, identity: u8, default: Option<u8>, s: Seq<u8>, x: u8)
    requires
        default is Some || s.len() > 0,
    ensures
        reduce_bytes(op, identity, default, s.push(x)) == byte_op(
            op,
            reduce_bytes(op, identity, default, s),
            x,
        ),
{
    assert(s.push(x).drop_last() =~= s);
    if default is None {
        assert(s.push(x).skip(1) =~= s.skip(1).push(x));
        assert(s.push(x).skip(1).drop_last() =~= s.skip(1));
    }
}

} // verus!
