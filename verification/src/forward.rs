//! The forward pass, with and without the buffers of the network.

use crate::error::NetworkError;
use crate::model::{buffer_fits, is_activation, is_layer, Parameters};
use crate::network_math::{matrix, product, product_of, sum};
use crate::neural_network::NeuralNetwork;
use crate::scalar::{is_exponential, is_negation, is_quotient, is_sum, Scalar};
use vstd::prelude::*;
use vstd::slice::slice_to_vec;

verus! {

/// Replaces every element by its activation.
fn activate<T: Scalar>(values: &mut Vec<T>)
    ensures
        final(values).len() == old(values).len(),
        forall|i: int|
            0 <= i < old(values).len() ==> is_activation(old(values)[i], #[trigger] final(values)[i]),
{
    let mut j: usize = 0;
    while j < values.len()
        invariant
            j <= values.len(),
            values.len() == old(values).len(),
            forall|i: int| 0 <= i < j ==> is_activation(old(values)[i], #[trigger] values[i]),
            forall|i: int| j <= i < values.len() ==> values[i] == old(values)[i],
        decreases values.len() - j,
    {
        let a = NeuralNetwork::<T>::activation(values[j]);
        values[j] = a;
        j += 1;
    }
}

/// Writes the activation of every element of `pre` into `act`.
fn activate_into<T: Scalar>(pre: &Vec<T>, act: &mut Vec<T>)
    requires
        old(act).len() == pre.len(),
    ensures
        final(act).len() == pre.len(),
        forall|i: int| 0 <= i < pre.len() ==> is_activation(pre[i], #[trigger] final(act)[i]),
{
    let mut j: usize = 0;
    while j < act.len()
        invariant
            j <= act.len(),
            act.len() == pre.len(),
            forall|i: int| 0 <= i < j ==> is_activation(pre[i], #[trigger] act[i]),
        decreases act.len() - j,
    {
        let a = NeuralNetwork::<T>::activation(pre[j]);
        act[j] = a;
        j += 1;
    }
}

impl<T: Scalar> NeuralNetwork<T> {
    /// The logistic sigmoid, `1 / (1 + exp(-x))`.
    pub fn activation(x: T) -> (a: T)
        ensures
            is_activation(x, a),
    {
        let n = x.negated();
        let e = n.exp();
        let u = T::one();
        let d = u.plus(e);
        let v = T::one();
        let a = v.over(d);
        assert(is_negation(x, n) && is_exponential(n, e) && is_sum(u, e, d) && is_quotient(v, d, a));
        a
    }

    /// Runs the network on `input` and returns the activations of the last
    /// layer. The network is left as it is.
    pub fn process(&self, input: &[T]) -> (r: Result<Vec<T>, NetworkError>)
        ensures
            match r {
                Ok(output) => self@.accepts(input@) && self@.is_output(input@, output@),
                Err(e) => e == NetworkError::DimensionMismatch && !self@.accepts(input@),
            },
    {
        if !self.is_well_formed() {
            return Err(NetworkError::DimensionMismatch);
        }
        let ghost net = self@;
        assert(net.width(1) >= 1);
        if input.len() != self.weights[0][0].len() {
            return Err(NetworkError::DimensionMismatch);
        }
        let ghost mut pre: Seq<Seq<T>> = Seq::empty();
        let ghost mut act: Seq<Seq<T>> = Seq::empty();
        let mut prev: Vec<T> = slice_to_vec(input);
        let mut l: usize = 0;
        while l < self.weights.len()
            invariant
                l <= self.weights.len(),
                net == self@,
                net.well_formed(),
                input.len() == net.width(0),
                pre.len() == l,
                act.len() == l,
                prev@ == Parameters::feed(input@, act, l as int),
                forall|k: int|
                    0 <= k < l ==> is_layer(
                        net.weights[k],
                        net.biases[k],
                        Parameters::feed(input@, act, k),
                        #[trigger] pre[k],
                        act[k],
                    ),
            decreases self.weights.len() - l,
        {
            assert(net.biases[l as int] == self.biases[l as int]@);
            assert forall|i: int| 0 <= i < self.weights[l as int].len() implies (
            #[trigger] self.weights[l as int][i]).len() == prev.len() by {
                assert(net.weights[l as int][i].len() == net.width(l as int));
                assert(prev.len() == net.width(l as int)) by {
                    if l > 0 {
                        assert(pre[l - 1].len() == net.weights[l - 1].len());
                    }
                }
            }
            let mut result: Vec<T> = product_of(&self.weights[l], prev.as_slice());
            sum(&mut result, &self.biases[l]);
            let ghost sums = result@;
            activate(&mut result);
            proof {
                pre = pre.push(sums);
                act = act.push(result@);
            }
            prev = result;
            l += 1;
        }
        assert(net.is_forward(input@, pre, act));
        Ok(prev)
    }

    /// Runs the network on `input` and returns the activations of the last
    /// layer. The sums and activations of every layer stay in the buffers,
    /// where `training_step` finds them.
    pub fn process_mutable(&mut self, input: &[T]) -> (r: Result<Vec<T>, NetworkError>)
        ensures
            final(self).weights == old(self).weights,
            final(self).biases == old(self).biases,
            match r {
                Ok(output) => {
                    &&& old(self).is_ready()
                    &&& old(self)@.accepts(input@)
                    &&& final(self).is_ready()
                    &&& old(self)@.is_forward(
                        input@,
                        matrix(final(self).pre_activations),
                        matrix(final(self).activations),
                    )
                    &&& output@ == final(self).activations[old(self)@.depth() - 1]@
                },
                Err(e) => {
                    &&& e == NetworkError::DimensionMismatch
                    &&& !(old(self).is_ready() && old(self)@.accepts(input@))
                    &&& *final(self) == *old(self)
                },
            },
    {
        if !self.ready() {
            return Err(NetworkError::DimensionMismatch);
        }
        let ghost net = self@;
        assert(net.width(1) >= 1);
        if input.len() != self.weights[0][0].len() {
            return Err(NetworkError::DimensionMismatch);
        }
        let depth = self.weights.len();
        let mut l: usize = 0;
        while l < depth
            invariant
                l <= depth,
                depth == self.weights.len(),
                self.weights == old(self).weights,
                self.biases == old(self).biases,
                net == self@,
                self.is_ready(),
                input.len() == net.width(0),
                forall|k: int|
                    0 <= k < l ==> is_layer(
                        net.weights[k],
                        net.biases[k],
                        Parameters::feed(input@, matrix(self.activations), k),
                        #[trigger] matrix(self.pre_activations)[k],
                        matrix(self.activations)[k],
                    ),
            decreases depth - l,
        {
            let ghost before_pre = matrix(self.pre_activations);
            let ghost before_act = matrix(self.activations);
            let ghost fed = Parameters::feed(input@, before_act, l as int);
            assert(net.biases[l as int] == self.biases[l as int]@);
            assert(before_pre[l as int].len() == net.width(l + 1));
            assert(before_act[l as int].len() == net.width(l + 1));
            assert forall|i: int| 0 <= i < self.weights[l as int].len() implies (
            #[trigger] self.weights[l as int][i]).len() == fed.len() by {
                assert(net.weights[l as int][i].len() == net.width(l as int));
            }
            if l == 0 {
                product(&self.weights[l], input, &mut self.pre_activations[l]);
            } else {
                product(&self.weights[l], self.activations[l - 1].as_slice(), &mut self.pre_activations[l]);
            }
            sum(&mut self.pre_activations[l], &self.biases[l]);
            activate_into(&self.pre_activations[l], &mut self.activations[l]);
            proof {
                let pre = matrix(self.pre_activations);
                let act = matrix(self.activations);
                assert forall|k: int| 0 <= k <= l implies is_layer(
                    net.weights[k],
                    net.biases[k],
                    Parameters::feed(input@, act, k),
                    #[trigger] pre[k],
                    act[k],
                ) by {
                    if k < l {
                        assert(pre[k] == before_pre[k]);
                    }
                }
                assert(buffer_fits(pre, net)) by {
                    assert forall|k: int| 0 <= k < net.depth() implies (#[trigger] pre[k]).len()
                        == net.width(k + 1) by {
                        assert(before_pre[k].len() == net.width(k + 1));
                    }
                }
                assert(buffer_fits(act, net)) by {
                    assert forall|k: int| 0 <= k < net.depth() implies (#[trigger] act[k]).len()
                        == net.width(k + 1) by {
                        assert(before_act[k].len() == net.width(k + 1));
                    }
                }
            }
            l += 1;
        }
        let output = slice_to_vec(self.activations[depth - 1].as_slice());
        Ok(output)
    }
}

} // verus!
