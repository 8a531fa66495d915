//! Equality of networks: over weights and biases, never over the buffers.

use crate::network_math::matrix;
use crate::neural_network::{tensor, NeuralNetwork};
use crate::scalar::Scalar;
use vstd::prelude::*;
use vstd::std_specs::cmp::{PartialEqSpec, PartialEqSpecImpl};

verus! {

/// Two vectors are equal: they are as long as each other, and equal at
/// every index.
pub open spec fn same_vector<T: PartialEqSpec>(a: Seq<T>, b: Seq<T>) -> bool {
    &&& a.len() == b.len()
    &&& forall|j: int| 0 <= j < a.len() ==> #[trigger] a[j].eq_spec(&b[j])
}

/// Two matrices are equal: they have as many rows as each other, and equal
/// rows.
pub open spec fn same_matrix<T: PartialEqSpec>(a: Seq<Seq<T>>, b: Seq<Seq<T>>) -> bool {
    &&& a.len() == b.len()
    &&& forall|i: int| 0 <= i < a.len() ==> same_vector(#[trigger] a[i], b[i])
}

/// Two lists of matrices are equal: they are as long as each other, and
/// equal at every index.
pub open spec fn same_layers<T: PartialEqSpec>(a: Seq<Seq<Seq<T>>>, b: Seq<Seq<Seq<T>>>) -> bool {
    &&& a.len() == b.len()
    &&& forall|l: int| 0 <= l < a.len() ==> same_matrix(#[trigger] a[l], b[l])
}

fn vectors_equal<T: Scalar>(a: &Vec<T>, b: &Vec<T>) -> (r: bool)
    ensures
        T::obeys_eq_spec() ==> r == same_vector(a@, b@),
{
    if a.len() != b.len() {
        return false;
    }
    let mut j: usize = 0;
    while j < a.len()
        invariant
            j <= a.len(),
            a.len() == b.len(),
            T::obeys_eq_spec() ==> forall|k: int| 0 <= k < j ==> #[trigger] a[k].eq_spec(&b[k]),
        decreases a.len() - j,
    {
        if !(a[j] == b[j]) {
            return false;
        }
        j += 1;
    }
    true
}

fn matrices_equal<T: Scalar>(a: &Vec<Vec<T>>, b: &Vec<Vec<T>>) -> (r: bool)
    ensures
        T::obeys_eq_spec() ==> r == same_matrix(matrix(*a), matrix(*b)),
{
    if a.len() != b.len() {
        return false;
    }
    let mut i: usize = 0;
    while i < a.len()
        invariant
            i <= a.len(),
            a.len() == b.len(),
            T::obeys_eq_spec() ==> forall|k: int|
                0 <= k < i ==> same_vector(#[trigger] matrix(*a)[k], matrix(*b)[k]),
        decreases a.len() - i,
    {
        assert(matrix(*a)[i as int] == a[i as int]@);
        if !vectors_equal(&a[i], &b[i]) {
            return false;
        }
        i += 1;
    }
    true
}

fn layers_equal<T: Scalar>(a: &Vec<Vec<Vec<T>>>, b: &Vec<Vec<Vec<T>>>) -> (r: bool)
    ensures
        T::obeys_eq_spec() ==> r == same_layers(tensor(*a), tensor(*b)),
{
    if a.len() != b.len() {
        return false;
    }
    let mut l: usize = 0;
    while l < a.len()
        invariant
            l <= a.len(),
            a.len() == b.len(),
            T::obeys_eq_spec() ==> forall|k: int|
                0 <= k < l ==> same_matrix(#[trigger] tensor(*a)[k], tensor(*b)[k]),
        decreases a.len() - l,
    {
        assert(tensor(*a)[l as int] == matrix(a[l as int]));
        if !matrices_equal(&a[l], &b[l]) {
            return false;
        }
        l += 1;
    }
    true
}

/// Two networks are equal where their weights and their biases are equal.
/// The buffers are not compared.
impl<T: Scalar> PartialEq for NeuralNetwork<T> {
    fn eq(&self, other: &Self) -> (r: bool) {
        layers_equal(&self.weights, &other.weights) && matrices_equal(&self.biases, &other.biases)
    }
}

impl<T: Scalar> PartialEqSpecImpl for NeuralNetwork<T> {
    open spec fn obeys_eq_spec() -> bool {
        T::obeys_eq_spec()
    }

    open spec fn eq_spec(&self, other: &Self) -> bool {
        same_layers(self@.weights, other@.weights) && same_matrix(self@.biases, other@.biases)
    }
}

/// Whether two networks are equal does not depend on their buffers: a
/// network with the weights and biases of `a` is equal to whatever `a` is equal
/// to.
pub proof fn lemma_equality_ignores_buffers<T: Scalar>(
    a: NeuralNetwork<T>,
    b: NeuralNetwork<T>,
    c: NeuralNetwork<T>,
)
    requires
        a.weights == b.weights,
        a.biases == b.biases,
    ensures
        PartialEqSpec::eq_spec(&a, &c) == PartialEqSpec::eq_spec(&b, &c),
        PartialEqSpec::eq_spec(&c, &a) == PartialEqSpec::eq_spec(&c, &b),
{
}

} // verus!
