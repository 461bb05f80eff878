//! Shapes of row-major arrays and their sizes.

use vstd::prelude::*;

verus! {

/// Number of elements of an array of the given shape.
pub open spec fn shape_size(s: Seq<usize>) -> nat
    decreases s.len(),
{
    if s.len() == 0 {
        1
    } else {
        (s[0] as nat) * shape_size(s.drop_first())
    }
}

/// The size of an array is the size of its first axes times that of the rest.
pub proof fn lemma_size_append(a: Seq<usize>, b: Seq<usize>)
    ensures
        shape_size(a + b) == shape_size(a) * shape_size(b),
    decreases a.len(),
{
    if a.len() == 0 {
        assert(a + b =~= b);
        assert(shape_size(a) == 1);
        assert(shape_size(a + b) == shape_size(a) * shape_size(b));
    } else {
        assert((a + b).drop_first() =~= a.drop_first() + b);
        assert((a + b)[0] == a[0]);
        lemma_size_append(a.drop_first(), b);
        let h: nat = a[0] as nat;
        assert(h * (shape_size(a.drop_first()) * shape_size(b)) == (h * shape_size(a.drop_first()))
            * shape_size(b)) by (nonlinear_arith);
        assert(shape_size(a + b) == h * shape_size((a + b).drop_first()));
        assert(shape_size(a) == h * shape_size(a.drop_first()));
        assert(shape_size(a + b) == shape_size(a) * shape_size(b));
    }
}

/// Splitting a shape at `d` splits its size into two factors.
pub proof fn lemma_split(s: Seq<usize>, d: int)
    requires
        0 <= d <= s.len(),
    ensures
        shape_size(s) == shape_size(s.take(d)) * shape_size(s.skip(d)),
{
    assert(s =~= s.take(d) + s.skip(d));
    lemma_size_append(s.take(d), s.skip(d));
}

/// A shape that begins with the given axis.
pub proof fn lemma_size_cons(s: Seq<usize>)
    requires
        s.len() > 0,
    ensures
        shape_size(s) == (s[0] as nat) * shape_size(s.skip(1)),
{
    assert(s.skip(1) =~= s.drop_first());
    lemma_split(s, 1);
}

/// A shape with a zero-length axis has no elements.
pub proof fn lemma_size_zero(s: Seq<usize>, i: int)
    requires
        0 <= i < s.len(),
        s[i] == 0,
    ensures
        shape_size(s) == 0,
{
    lemma_split(s, i);
    lemma_size_cons(s.skip(i));
    assert(s.skip(i)[0] == 0);
    let x = shape_size(s.skip(i).skip(1));
    assert(0nat * x == 0) by (nonlinear_arith);
    assert(shape_size(s.skip(i)) == 0);
    let y = shape_size(s.take(i));
    assert(y * 0nat == 0) by (nonlinear_arith);
}

/// A shape with no zero-length axis has a size at least that of any of its
/// tails.
pub proof fn lemma_size_tail_le(s: Seq<usize>, i: int)
    requires
        0 <= i <= s.len(),
        forall|j: int| 0 <= j < s.len() ==> s[j] > 0,
    ensures
        shape_size(s.skip(i)) <= shape_size(s),
        shape_size(s.take(i)) <= shape_size(s),
        shape_size(s) > 0,
    decreases s.len(),
{
    lemma_split(s, i);
    lemma_size_positive(s.take(i));
    lemma_size_positive(s.skip(i));
    lemma_size_positive(s);
    let a = shape_size(s.take(i));
    let b = shape_size(s.skip(i));
    assert(a >= 1 && b >= 1 ==> a <= a * b && b <= a * b) by (nonlinear_arith);
}

/// A shape with no zero-length axis has at least one element.
pub proof fn lemma_size_positive(s: Seq<usize>)
    requires
        forall|j: int| 0 <= j < s.len() ==> s[j] > 0,
    ensures
        shape_size(s) >= 1,
    decreases s.len(),
{
    if s.len() > 0 {
        lemma_size_positive(s.drop_first());
        let h: nat = s[0] as nat;
        let x = shape_size(s.drop_first());
        assert(h >= 1 && x >= 1 ==> h * x >= 1) by (nonlinear_arith);
    }
}

/// The size of a shape whose size fits in `usize`.
pub fn shape_product(s: &[usize]) -> (r: usize)
    requires
        shape_size(s@) <= usize::MAX,
    ensures
        r == shape_size(s@),
{
    let mut k: usize = 0;
    while k < s.len()
        invariant
            k <= s@.len(),
            forall|j: int| 0 <= j < k ==> s@[j] > 0,
        decreases s.len() - k,
    {
        if s[k] == 0 {
            proof {
                lemma_size_zero(s@, k as int);
            }
            return 0;
        }
        k = k + 1;
    }
    let mut acc: usize = 1;
    let mut i: usize = s.len();
    assert(s@.skip(s@.len() as int) =~= Seq::<usize>::empty());
    while i > 0
        invariant
            i <= s@.len(),
            shape_size(s@) <= usize::MAX,
            forall|j: int| 0 <= j < s@.len() ==> s@[j] > 0,
            acc == shape_size(s@.skip(i as int)),
        decreases i,
    {
        i = i - 1;
        let ghost t = s@.skip(i as int);
        assert(t.drop_first() =~= s@.skip(i + 1));
        proof {
            lemma_size_tail_le(s@, i as int);
        }
        acc = s[i] * acc;
    }
    assert(s@.skip(0) =~= s@);
    acc
}

/// The size of a shape, or `None` where it does not fit in `usize`.
pub fn checked_shape_size(s: &[usize]) -> (r: Option<usize>)
    ensures
        match r {
            Some(n) => n == shape_size(s@),
            None => shape_size(s@) > usize::MAX,
        },
{
    let mut acc: usize = 1;
    let mut i: usize = s.len();
    assert(s@.skip(s@.len() as int) =~= Seq::<usize>::empty());
    while i > 0
        invariant
            i <= s@.len(),
            acc == shape_size(s@.skip(i as int)),
        decreases i,
    {
        i = i - 1;
        let ghost t = s@.skip(i as int);
        assert(t.drop_first() =~= s@.skip(i + 1));
        match s[i].checked_mul(acc) {
            Some(p) => {
                acc = p;
            },
            None => {
                let mut z: usize = 0;
                while z < i
                    invariant
                        z <= i < s@.len(),
                        forall|j: int| 0 <= j < z ==> s@[j] > 0,
                    decreases i - z,
                {
                    if s[z] == 0 {
                        proof {
                            lemma_size_zero(s@, z as int);
                        }
                        return Some(0);
                    }
                    z = z + 1;
                }
                proof {
                    lemma_split(s@, i as int);
                    assert forall|j: int| 0 <= j < s@.take(i as int).len() implies s@.take(
                        i as int,
                    )[j] > 0 by {}
                    lemma_size_positive(s@.take(i as int));
                    let a = shape_size(s@.take(i as int));
                    let b = shape_size(t);
                    assert(a >= 1 && b > usize::MAX ==> a * b > usize::MAX) by (nonlinear_arith);
                }
                return None;
            },
        }
    }
    assert(s@.skip(0) =~= s@);
    Some(acc)
}

} // verus!
