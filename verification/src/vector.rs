//! A non-empty vector of finite binary32 numbers, with element-wise addition
//! and scaling that either stay finite or fail.

use crate::arith::{lemma_product_with_non_finite, product, product_bits, sum, sum_bits};
use crate::binary32::{
    finite, is_finite, lemma_same_number_is_same_value, numbers_equal, same_number, value,
};
use vstd::prelude::*;
use vstd::std_specs::cmp::PartialEqSpecImpl;

verus! {

/// Why a vector could not be made.
#[derive(Debug, Clone, Copy, PartialEq, Eq, Structural)]
pub enum VectorError {
    /// No elements at all, or two vectors of unequal length in an addition.
    InvalidDimension,
    /// An element that is a NaN or an infinity.
    OutOfBounds,
}

/// A fixed-length sequence of finite binary32 numbers, each held as its bit
/// pattern.  It is never empty and never holds a NaN or an infinity.
#[derive(Debug)]
pub struct Vector {
    data: Vec<u32>,
}

/// Every element is a finite number.
pub open spec fn all_finite(s: Seq<u32>) -> bool {
    forall|i: int| 0 <= i < s.len() ==> finite(#[trigger] s[i])
}

/// The sequence can be the contents of a vector.
pub open spec fn valid(s: Seq<u32>) -> bool {
    s.len() >= 1 && all_finite(s)
}

/// What constructing a vector from `s` gives: the emptiness check comes
/// first, then the check of the elements.
pub open spec fn construction(s: Seq<u32>) -> Result<Seq<u32>, VectorError> {
    if s.len() == 0 {
        Err(VectorError::InvalidDimension)
    } else if !all_finite(s) {
        Err(VectorError::OutOfBounds)
    } else {
        Ok(s)
    }
}

/// The element-wise sums of two sequences of equal length.
pub open spec fn sums(a: Seq<u32>, b: Seq<u32>) -> Seq<u32> {
    Seq::new(a.len(), |i: int| sum_bits(a[i], b[i]))
}

/// The products of each element with `k`.
pub open spec fn products(a: Seq<u32>, k: u32) -> Seq<u32> {
    Seq::new(a.len(), |i: int| product_bits(a[i], k))
}

/// What adding two vectors gives: the lengths are compared before any
/// arithmetic, and the sums are checked as in a construction.
pub open spec fn addition(a: Seq<u32>, b: Seq<u32>) -> Result<Seq<u32>, VectorError> {
    if a.len() != b.len() {
        Err(VectorError::InvalidDimension)
    } else {
        construction(sums(a, b))
    }
}

/// What scaling a vector gives: the products are checked as in a construction.
pub open spec fn scaling(a: Seq<u32>, k: u32) -> Result<Seq<u32>, VectorError> {
    construction(products(a, k))
}

/// Two sequences hold the same numbers in the same order.
pub open spec fn same_numbers(a: Seq<u32>, b: Seq<u32>) -> bool {
    a.len() == b.len() && forall|i: int| 0 <= i < a.len() ==> same_number(#[trigger] a[i], b[i])
}

/// A result with the vector replaced by its contents.
pub open spec fn contents(r: Result<Vector, VectorError>) -> Result<Seq<u32>, VectorError> {
    match r {
        Ok(v) => Ok(v@),
        Err(e) => Err(e),
    }
}

impl View for Vector {
    type V = Seq<u32>;

    closed spec fn view(&self) -> Seq<u32> {
        self.data@
    }
}

impl Vector {
    #[verifier::type_invariant]
    spec fn well_formed(&self) -> bool {
        valid(self.data@)
    }

    /// Makes a vector that owns `data` as it is, or says why it cannot.
    pub fn try_new(data: Vec<u32>) -> (r: Result<Vector, VectorError>)
        ensures
            contents(r) == construction(data@),
            data@.len() == 0 ==> r == Err::<Vector, VectorError>(VectorError::InvalidDimension),
            data@.len() > 0 && !all_finite(data@) ==> r == Err::<Vector, VectorError>(
                VectorError::OutOfBounds,
            ),
            valid(data@) ==> r is Ok && r->Ok_0@ == data@,
    {
        match Self::validate(data.as_slice()) {
            Ok(()) => Ok(Vector { data }),
            Err(e) => Err(e),
        }
    }

    /// Checks that `data` can be the contents of a vector.
    pub fn validate(data: &[u32]) -> (r: Result<(), VectorError>)
        ensures
            r is Ok <==> valid(data@),
            data@.len() == 0 ==> r == Err::<(), VectorError>(VectorError::InvalidDimension),
            data@.len() > 0 && !all_finite(data@) ==> r == Err::<(), VectorError>(
                VectorError::OutOfBounds,
            ),
    {
        let n = data.len();
        if n == 0 {
            return Err(VectorError::InvalidDimension);
        }
        let mut i: usize = 0;
        while i < n
            invariant
                i <= n,
                n == data@.len(),
                forall|k: int| 0 <= k < i ==> finite(#[trigger] data@[k]),
            decreases n - i,
        {
            if !is_finite(data[i]) {
                return Err(VectorError::OutOfBounds);
            }
            i = i + 1;
        }
        Ok(())
    }

    /// The number of elements; at least one.
    pub fn dimensions(&self) -> (n: usize)
        ensures
            n == self@.len(),
            n >= 1,
    {
        proof {
            use_type_invariant(self);
        }
        self.data.len()
    }

    /// The elements, in order; all of them finite.
    pub fn data(&self) -> (s: &[u32])
        ensures
            s@ == self@,
            valid(self@),
    {
        proof {
            use_type_invariant(self);
        }
        self.data.as_slice()
    }

    /// The element-wise sum of two vectors of the same length.
    pub fn try_add(&self, other: &Vector) -> (r: Result<Vector, VectorError>)
        ensures
            contents(r) == addition(self@, other@),
            self@.len() != other@.len() ==> r == Err::<Vector, VectorError>(
                VectorError::InvalidDimension,
            ),
            self@.len() == other@.len() && !all_finite(sums(self@, other@)) ==> r == Err::<
                Vector,
                VectorError,
            >(VectorError::OutOfBounds),
            self@.len() == other@.len() && all_finite(sums(self@, other@)) ==> r is Ok
                && r->Ok_0@ == sums(self@, other@),
    {
        proof {
            use_type_invariant(self);
            use_type_invariant(other);
        }
        if self.dimensions() != other.dimensions() {
            return Err(VectorError::InvalidDimension);
        }
        let n = self.data.len();
        let mut data: Vec<u32> = Vec::with_capacity(n);
        let mut i: usize = 0;
        while i < n
            invariant
                i <= n,
                n == self.data@.len(),
                n == other.data@.len(),
                data@.len() == i,
                forall|k: int|
                    0 <= k < i ==> data@[k] == sum_bits(
                        #[trigger] self.data@[k],
                        other.data@[k],
                    ),
            decreases n - i,
        {
            data.push(sum(self.data[i], other.data[i]));
            i = i + 1;
        }
        assert(data@ =~= sums(self@, other@));
        Self::try_new(data)
    }

    /// Every element multiplied by `scalar`.
    pub fn try_scale(&self, scalar: u32) -> (r: Result<Vector, VectorError>)
        ensures
            contents(r) == scaling(self@, scalar),
            !finite(scalar) ==> r == Err::<Vector, VectorError>(VectorError::OutOfBounds),
            !all_finite(products(self@, scalar)) ==> r == Err::<Vector, VectorError>(
                VectorError::OutOfBounds,
            ),
            all_finite(products(self@, scalar)) ==> r is Ok && r->Ok_0@ == products(
                self@,
                scalar,
            ),
    {
        proof {
            use_type_invariant(self);
        }
        let n = self.data.len();
        let mut data: Vec<u32> = Vec::with_capacity(n);
        let mut i: usize = 0;
        while i < n
            invariant
                i <= n,
                n == self.data@.len(),
                data@.len() == i,
                forall|k: int|
                    0 <= k < i ==> data@[k] == product_bits(#[trigger] self.data@[k], scalar),
            decreases n - i,
        {
            data.push(product(self.data[i], scalar));
            i = i + 1;
        }
        proof {
            assert(data@ =~= products(self@, scalar));
            if !finite(scalar) {
                lemma_non_finite_scalar_fails(self@, scalar);
            }
        }
        Self::try_new(data)
    }
}

/// Adding two vectors of the same length gives what constructing a vector
/// from their element-wise sums gives: success with exactly those sums when
/// all of them are finite, and the same failure otherwise.
pub proof fn lemma_addition_is_construction_of_sums(a: Seq<u32>, b: Seq<u32>)
    requires
        valid(a),
        valid(b),
        a.len() == b.len(),
    ensures
        addition(a, b) == construction(sums(a, b)),
        sums(a, b).len() == a.len(),
        forall|i: int| 0 <= i < a.len() ==> #[trigger] sums(a, b)[i] == sum_bits(a[i], b[i]),
        all_finite(sums(a, b)) ==> addition(a, b) == Ok::<Seq<u32>, VectorError>(sums(a, b)),
        !all_finite(sums(a, b)) ==> addition(a, b) == Err::<Seq<u32>, VectorError>(
            VectorError::OutOfBounds,
        ),
{
}

/// Vectors of different lengths do not add, whatever they hold.
pub proof fn lemma_unequal_lengths_do_not_add(a: Seq<u32>, b: Seq<u32>)
    requires
        valid(a),
        valid(b),
        a.len() != b.len(),
    ensures
        addition(a, b) == Err::<Seq<u32>, VectorError>(VectorError::InvalidDimension),
{
}

/// Scaling gives what constructing a vector from the products gives.
pub proof fn lemma_scaling_is_construction_of_products(a: Seq<u32>, k: u32)
    requires
        valid(a),
    ensures
        scaling(a, k) == construction(products(a, k)),
        products(a, k).len() == a.len(),
        forall|i: int| 0 <= i < a.len() ==> #[trigger] products(a, k)[i] == product_bits(a[i], k),
        all_finite(products(a, k)) ==> scaling(a, k) == Ok::<Seq<u32>, VectorError>(
            products(a, k),
        ),
        !all_finite(products(a, k)) ==> scaling(a, k) == Err::<Seq<u32>, VectorError>(
            VectorError::OutOfBounds,
        ),
{
}

/// Scaling by a NaN or an infinity always fails: no product with such a
/// scalar is finite.
pub proof fn lemma_non_finite_scalar_fails(a: Seq<u32>, k: u32)
    requires
        valid(a),
        !finite(k),
    ensures
        scaling(a, k) == Err::<Seq<u32>, VectorError>(VectorError::OutOfBounds),
{
    lemma_product_with_non_finite(a[0], k);
    assert(!finite(products(a, k)[0]));
}

/// Whatever a construction accepts is valid, and is the input unchanged;
/// an empty input and one with a NaN or an infinity are told apart.
pub proof fn lemma_construction(s: Seq<u32>)
    ensures
        s.len() == 0 ==> construction(s) == Err::<Seq<u32>, VectorError>(
            VectorError::InvalidDimension,
        ),
        s.len() > 0 && !all_finite(s) ==> construction(s) == Err::<Seq<u32>, VectorError>(
            VectorError::OutOfBounds,
        ),
        valid(s) <==> construction(s) == Ok::<Seq<u32>, VectorError>(s),
        construction(s) is Ok <==> valid(s),
{
}

/// Vectors of finite numbers are equal exactly when they have the same
/// length and the same values at every index.  So a vector equals itself and
/// any vector built from the same sequence, and differs from every vector of
/// another length or with another value somewhere.
pub proof fn lemma_equality_is_equality_of_values(a: Seq<u32>, b: Seq<u32>)
    requires
        valid(a),
        valid(b),
    ensures
        same_numbers(a, b) <==> (a.len() == b.len() && forall|i: int|
            0 <= i < a.len() ==> value(#[trigger] a[i]) == value(b[i])),
        same_numbers(a, a),
        a.len() != b.len() ==> !same_numbers(a, b),
{
    if a.len() == b.len() {
        assert forall|i: int| 0 <= i < a.len() implies (same_number(#[trigger] a[i], b[i])
            <==> value(a[i]) == value(b[i])) by {
            lemma_same_number_is_same_value(a[i], b[i]);
        }
    }
    assert forall|i: int| 0 <= i < a.len() implies same_number(#[trigger] a[i], a[i]) by {
        lemma_same_number_is_same_value(a[i], a[i]);
    }
}

/// One index at which the values differ makes two vectors unequal.
pub proof fn lemma_different_value_is_unequal(a: Seq<u32>, b: Seq<u32>, i: int)
    requires
        valid(a),
        valid(b),
        0 <= i < a.len(),
        i < b.len(),
        value(a[i]) != value(b[i]),
    ensures
        !same_numbers(a, b),
{
    lemma_same_number_is_same_value(a[i], b[i]);
}

impl PartialEq for Vector {
    /// Two vectors are equal when they have the same length and hold the
    /// same numbers in the same order.
    fn eq(&self, other: &Vector) -> (r: bool) {
        let n = self.data.len();
        if n != other.data.len() {
            return false;
        }
        let mut i: usize = 0;
        while i < n
            invariant
                i <= n,
                n == self.data@.len(),
                n == other.data@.len(),
                forall|k: int| 0 <= k < i ==> same_number(#[trigger] self.data@[k], other.data@[k]),
            decreases n - i,
        {
            if !numbers_equal(self.data[i], other.data[i]) {
                return false;
            }
            i = i + 1;
        }
        true
    }
}

impl PartialEqSpecImpl for Vector {
    open spec fn obeys_eq_spec() -> bool {
        true
    }

    open spec fn eq_spec(&self, other: &Vector) -> bool {
        same_numbers(self@, other@)
    }
}

} // verus!
