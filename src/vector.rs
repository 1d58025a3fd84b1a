use crate::error::MatrixError;
use vstd::prelude::*;

verus! {

/// Whether an integer fits in an `i64`.
pub open spec fn fits_i64(x: int) -> bool {
    i64::MIN <= x <= i64::MAX
}

/// The sum of the first `n` elementwise products of `a` and `b`,
/// computed over the mathematical integers.
pub open spec fn dot_prefix(a: Seq<i64>, b: Seq<i64>, n: nat) -> int
    decreases n,
{
    if n == 0 {
        0
    } else {
        dot_prefix(a, b, (n - 1) as nat) + a[n - 1] * b[n - 1]
    }
}

/// The dot product of two sequences of equal length.
pub open spec fn dot(a: Seq<i64>, b: Seq<i64>) -> int {
    dot_prefix(a, b, a.len())
}

/// Whether the accumulation of `a . b` in `i64` never leaves the type: every
/// elementwise product and every running sum fits.
pub open spec fn dot_fits(a: Seq<i64>, b: Seq<i64>) -> bool {
    forall|k: int|
        0 <= k < a.len() ==> fits_i64(#[trigger] (a[k] * b[k])) && fits_i64(
            dot_prefix(a, b, (k + 1) as nat),
        )
}

/// What `dot_product` returns for operands with views `a` and `b`.
pub open spec fn dot_result(a: Seq<i64>, b: Seq<i64>) -> Result<i64, MatrixError> {
    if a.len() != b.len() {
        Err(MatrixError::LengthMismatch(a.len() as usize, b.len() as usize))
    } else if !dot_fits(a, b) {
        Err(MatrixError::Overflow)
    } else {
        Ok(dot(a, b) as i64)
    }
}

/// A fixed-length sequence of elements; its length decides which vectors it
/// can be combined with.
pub struct Vector {
    data: Vec<i64>,
}

impl View for Vector {
    type V = Seq<i64>;

    closed spec fn view(&self) -> Seq<i64> {
        self.data@
    }
}

impl Vector {
    /// Wraps `data` as a vector of its length.
    pub fn new(data: Vec<i64>) -> (r: Vector)
        ensures
            r@ == data@,
    {
        Vector { data }
    }

    /// The number of elements.
    pub fn len(&self) -> (r: usize)
        ensures
            r == self@.len(),
    {
        self.data.len()
    }

    /// The element at position `i`.
    pub fn get(&self, i: usize) -> (r: i64)
        requires
            i < self@.len(),
        ensures
            r == self@[i as int],
    {
        self.data[i]
    }
}

/// The sum of the elementwise products of `a` and `b`, seeded with zero.
/// Fails with `LengthMismatch` when the lengths differ and with `Overflow`
/// when a product or a running sum leaves `i64`.
pub fn dot_product(a: Vector, b: Vector) -> (r: Result<i64, MatrixError>)
    ensures
        r == dot_result(a@, b@),
{
    dot_of(&a, &b)
}

/// `dot_product` on borrowed operands.
pub fn dot_of(a: &Vector, b: &Vector) -> (r: Result<i64, MatrixError>)
    ensures
        r == dot_result(a@, b@),
{
    let n = a.len();
    if n != b.len() {
        return Err(MatrixError::LengthMismatch(n, b.len()));
    }
    let mut acc: i64 = 0;
    let mut i: usize = 0;
    while i < n
        invariant
            n == a@.len() == b@.len(),
            i <= n,
            acc == dot_prefix(a@, b@, i as nat),
            forall|k: int|
                0 <= k < i ==> fits_i64(#[trigger] (a@[k] * b@[k])) && fits_i64(
                    dot_prefix(a@, b@, (k + 1) as nat),
                ),
        decreases n - i,
    {
        let x = a.get(i);
        let y = b.get(i);
        match x.checked_mul(y) {
            None => {
                assert(!fits_i64(a@[i as int] * b@[i as int]));
                return Err(MatrixError::Overflow);
            },
            Some(p) => match acc.checked_add(p) {
                None => {
                    assert(!fits_i64(dot_prefix(a@, b@, (i + 1) as nat)));
                    return Err(MatrixError::Overflow);
                },
                Some(s) => {
                    acc = s;
                    i = i + 1;
                },
            },
        }
    }
    Ok(acc)
}

/// When the accumulation fits, so does the dot product itself.
pub proof fn lemma_dot_fits(a: Seq<i64>, b: Seq<i64>)
    requires
        a.len() == b.len(),
        dot_fits(a, b),
    ensures
        fits_i64(dot(a, b)),
{
    if a.len() > 0 {
        let k = a.len() - 1;
        assert(fits_i64(a[k] * b[k]));
    }
}

/// Each term of `a . b` and of `b . a` agrees up to `n`.
proof fn lemma_dot_prefix_commutes(a: Seq<i64>, b: Seq<i64>, n: nat)
    ensures
        dot_prefix(a, b, n) == dot_prefix(b, a, n),
    decreases n,
{
    if n > 0 {
        lemma_dot_prefix_commutes(a, b, (n - 1) as nat);
        assert(a[n - 1] * b[n - 1] == b[n - 1] * a[n - 1]) by (nonlinear_arith);
    }
}

/// The dot product is commutative: swapping the operands changes neither the
/// value nor whether and how the call fails, except that a length mismatch
/// reports the two lengths in the order of the operands.
pub proof fn lemma_dot_product_commutative(a: Seq<i64>, b: Seq<i64>)
    requires
        a.len() == b.len(),
    ensures
        dot_result(a, b) == dot_result(b, a),
{
    assert forall|n: nat| dot_prefix(a, b, n) == dot_prefix(b, a, n) by {
        lemma_dot_prefix_commutes(a, b, n);
    }
    assert forall|k: int| 0 <= k < a.len() implies (a[k] * b[k] == b[k] * a[k]) by {
        assert(a[k] * b[k] == b[k] * a[k]) by (nonlinear_arith);
    }
}

/// A length mismatch is always reported, with both lengths.
pub proof fn lemma_dot_product_length_mismatch(a: Seq<i64>, b: Seq<i64>)
    requires
        a.len() != b.len(),
    ensures
        dot_result(a, b) == Err::<i64, MatrixError>(
            MatrixError::LengthMismatch(a.len() as usize, b.len() as usize),
        ),
{
}

} // verus!
