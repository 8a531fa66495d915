//! Matrix-vector product and element-wise addition.

use crate::scalar::{is_multiple, is_sum, is_zero, Scalar};
use vstd::prelude::*;

verus! {

/// `acc` is the sum of the first `n` products `row[j] * v[j]`, added up from
/// zero in the order of `j`: each product is added to the sum of those before
/// it.
pub open spec fn is_dot<T: Scalar>(row: Seq<T>, v: Seq<T>, n: int, acc: T) -> bool
    decreases n,
{
    if n <= 0 {
        is_zero(acc)
    } else {
        exists|before: T, term: T|
            #![trigger is_sum(before, term, acc)]
            is_dot(row, v, n - 1, before) && is_multiple(row[n - 1], v[n - 1], term) && is_sum(
                before,
                term,
                acc,
            )
    }
}

/// The rows of a matrix.
pub open spec fn matrix<T>(arr: Vec<Vec<T>>) -> Seq<Seq<T>> {
    Seq::new(arr.len() as nat, |i: int| arr[i]@)
}

/// `out` is the product of the matrix `arr` and the vector `v`: one dot
/// product for each row.
pub open spec fn is_product<T: Scalar>(arr: Seq<Seq<T>>, v: Seq<T>, out: Seq<T>) -> bool {
    &&& out.len() == arr.len()
    &&& forall|i: int| 0 <= i < arr.len() ==> is_dot(arr[i], v, v.len() as int, #[trigger] out[i])
}

/// `out[i]` is `a[i] + b[i]` for every `i`.
pub open spec fn is_sum_of<T: Scalar>(a: Seq<T>, b: Seq<T>, out: Seq<T>) -> bool {
    &&& out.len() == a.len()
    &&& forall|i: int| 0 <= i < a.len() ==> is_sum(a[i], b[i], #[trigger] out[i])
}

/// The dot product of `row` and `vec`.
pub fn dot<T: Scalar>(row: &Vec<T>, vec: &[T]) -> (acc: T)
    requires
        row.len() == vec.len(),
    ensures
        is_dot(row@, vec@, vec.len() as int, acc),
{
    let mut acc = T::zero();
    let mut j: usize = 0;
    while j < row.len()
        invariant
            j <= row.len(),
            row.len() == vec.len(),
            is_dot(row@, vec@, j as int, acc),
        decreases row.len() - j,
    {
        let term = row[j].times(vec[j]);
        let next = acc.plus(term);
        assert(is_dot(row@, vec@, j + 1, next)) by {
            assert(is_sum(acc, term, next));
        }
        acc = next;
        j += 1;
    }
    acc
}

/// Writes the product of the matrix `arr` and the vector `vec` into `result`.
pub fn product<T: Scalar>(arr: &Vec<Vec<T>>, vec: &[T], result: &mut Vec<T>)
    requires
        old(result).len() == arr.len(),
        forall|i: int| 0 <= i < arr.len() ==> (#[trigger] arr[i]).len() == vec.len(),
    ensures
        is_product(matrix(*arr), vec@, final(result)@),
{
    let mut i: usize = 0;
    while i < arr.len()
        invariant
            i <= arr.len(),
            result.len() == arr.len(),
            forall|k: int| 0 <= k < arr.len() ==> (#[trigger] arr[k]).len() == vec.len(),
            forall|k: int| 0 <= k < i ==> is_dot(arr[k]@, vec@, vec.len() as int, #[trigger] result[k]),
        decreases arr.len() - i,
    {
        let value = dot(&arr[i], vec);
        result[i] = value;
        i += 1;
    }
}

/// The product of the matrix `arr` and the vector `vec`, in a new vector.
pub fn product_of<T: Scalar>(arr: &Vec<Vec<T>>, vec: &[T]) -> (result: Vec<T>)
    requires
        forall|i: int| 0 <= i < arr.len() ==> (#[trigger] arr[i]).len() == vec.len(),
    ensures
        is_product(matrix(*arr), vec@, result@),
{
    let mut result: Vec<T> = Vec::new();
    let mut i: usize = 0;
    while i < arr.len()
        invariant
            i <= arr.len(),
            result.len() == i,
            forall|k: int| 0 <= k < arr.len() ==> (#[trigger] arr[k]).len() == vec.len(),
            forall|k: int| 0 <= k < i ==> is_dot(arr[k]@, vec@, vec.len() as int, #[trigger] result[k]),
        decreases arr.len() - i,
    {
        result.push(dot(&arr[i], vec));
        i += 1;
    }
    result
}

/// Adds `vec2` to `vec1_result`, element by element.
pub fn sum<T: Scalar>(vec1_result: &mut Vec<T>, vec2: &Vec<T>)
    requires
        old(vec1_result).len() == vec2.len(),
    ensures
        is_sum_of(old(vec1_result)@, vec2@, final(vec1_result)@),
{
    let mut i: usize = 0;
    while i < vec1_result.len()
        invariant
            i <= vec1_result.len(),
            vec1_result.len() == vec2.len(),
            vec1_result.len() == old(vec1_result).len(),
            forall|k: int| 0 <= k < i ==> is_sum(old(vec1_result)[k], vec2[k], #[trigger] vec1_result[k]),
            forall|k: int| i <= k < vec1_result.len() ==> vec1_result[k] == old(vec1_result)[k],
        decreases vec1_result.len() - i,
    {
        let value = vec1_result[i].plus(vec2[i]);
        vec1_result[i] = value;
        i += 1;
    }
}

} // verus!
