//! Backpropagation and gradient descent, one example at a time.

use crate::error::NetworkError;
use crate::model::{
    buffer_fits, column, is_hidden_delta, is_output_delta, is_scaled_by_slope, is_step,
    weights_fit, Parameters,
};
use crate::network_math::{is_dot, matrix};
use crate::laws::lemma_same_widths;
use crate::neural_network::{tensor, zeros_like, zeros_like_layers, NeuralNetwork};
use crate::scalar::{is_difference, is_multiple, is_sum, Scalar};
use vstd::prelude::*;

verus! {

/// `lead * a * (1 - a)`.
fn scaled_by_slope<T: Scalar>(lead: T, a: T) -> (r: T)
    ensures
        is_scaled_by_slope(lead, a, r),
{
    let p = lead.times(a);
    let u = T::one();
    let q = u.minus(a);
    let r = p.times(q);
    assert(is_multiple(lead, a, p) && is_difference(u, a, q));
    r
}

/// The error signals of the output layer.
fn output_deltas<T: Scalar>(processed: &Vec<T>, targets: &[T]) -> (deltas: Vec<T>)
    requires
        processed.len() == targets.len(),
    ensures
        deltas.len() == processed.len(),
        forall|i: int|
            0 <= i < processed.len() ==> is_output_delta(processed[i], targets[i], #[trigger] deltas[i]),
{
    let mut deltas: Vec<T> = Vec::new();
    let mut i: usize = 0;
    while i < processed.len()
        invariant
            i <= processed.len(),
            processed.len() == targets.len(),
            deltas.len() == i,
            forall|k: int|
                0 <= k < i ==> is_output_delta(processed[k], targets[k], #[trigger] deltas[k]),
        decreases processed.len() - i,
    {
        let e = processed[i].minus(targets[i]);
        let d = scaled_by_slope(e, processed[i]);
        assert(is_difference(processed[i as int], targets[i as int], e));
        deltas.push(d);
        i += 1;
    }
    deltas
}

/// The error signals of the next layer, each multiplied by the weight that
/// leads to it from unit `i`, added up.
fn back_sum<T: Scalar>(next_deltas: &Vec<T>, next_weights: &Vec<Vec<T>>, i: usize) -> (acc: T)
    requires
        next_weights.len() == next_deltas.len(),
        forall|k: int| 0 <= k < next_weights.len() ==> i < (#[trigger] next_weights[k]).len(),
    ensures
        is_dot(
            next_deltas@,
            column(matrix(*next_weights), i as int),
            next_deltas.len() as int,
            acc,
        ),
{
    let ghost weights = column(matrix(*next_weights), i as int);
    let mut acc = T::zero();
    let mut j: usize = 0;
    while j < next_deltas.len()
        invariant
            j <= next_deltas.len(),
            next_weights.len() == next_deltas.len(),
            forall|k: int| 0 <= k < next_weights.len() ==> i < (#[trigger] next_weights[k]).len(),
            weights == column(matrix(*next_weights), i as int),
            is_dot(next_deltas@, weights, j as int, acc),
        decreases next_deltas.len() - j,
    {
        let term = next_deltas[j].times(next_weights[j][i]);
        let next = acc.plus(term);
        assert(is_dot(next_deltas@, weights, j + 1, next)) by {
            assert(is_sum(acc, term, next));
        }
        acc = next;
        j += 1;
    }
    acc
}

/// The error signals of a hidden layer with activations `acts`.
fn hidden_deltas<T: Scalar>(
    next_deltas: &Vec<T>,
    next_weights: &Vec<Vec<T>>,
    acts: &Vec<T>,
) -> (deltas: Vec<T>)
    requires
        next_weights.len() == next_deltas.len(),
        forall|k: int| 0 <= k < next_weights.len() ==> (#[trigger] next_weights[k]).len() == acts.len(),
    ensures
        deltas.len() == acts.len(),
        forall|i: int|
            0 <= i < acts.len() ==> is_hidden_delta(
                next_deltas@,
                matrix(*next_weights),
                i,
                acts[i],
                #[trigger] deltas[i],
            ),
{
    let mut deltas: Vec<T> = Vec::new();
    let mut i: usize = 0;
    while i < acts.len()
        invariant
            i <= acts.len(),
            next_weights.len() == next_deltas.len(),
            forall|k: int|
                0 <= k < next_weights.len() ==> (#[trigger] next_weights[k]).len() == acts.len(),
            deltas.len() == i,
            forall|k: int|
                0 <= k < i ==> is_hidden_delta(
                    next_deltas@,
                    matrix(*next_weights),
                    k,
                    acts[k],
                    #[trigger] deltas[k],
                ),
        decreases acts.len() - i,
    {
        let tmp = back_sum(next_deltas, next_weights, i);
        let d = scaled_by_slope(tmp, acts[i]);
        deltas.push(d);
        i += 1;
    }
    deltas
}

/// Writes `delta * fed[j]` into every `out[j]`.
fn scale_into<T: Scalar>(out: &mut Vec<T>, delta: T, fed: &[T])
    requires
        old(out).len() == fed.len(),
    ensures
        final(out).len() == fed.len(),
        forall|j: int| 0 <= j < fed.len() ==> is_multiple(delta, fed[j], #[trigger] final(out)[j]),
{
    let mut j: usize = 0;
    while j < out.len()
        invariant
            j <= out.len(),
            out.len() == fed.len(),
            forall|k: int| 0 <= k < j ==> is_multiple(delta, fed[k], #[trigger] out[k]),
        decreases out.len() - j,
    {
        let g = delta.times(fed[j]);
        out[j] = g;
        j += 1;
    }
}

/// Moves every element of `values` against its gradient:
/// `values[j] -= rate * gradients[j]`.
fn step_row<T: Scalar>(values: &mut Vec<T>, rate: T, gradients: &Vec<T>)
    requires
        old(values).len() == gradients.len(),
    ensures
        final(values).len() == old(values).len(),
        forall|j: int|
            0 <= j < old(values).len() ==> is_step(
                old(values)[j],
                rate,
                gradients[j],
                #[trigger] final(values)[j],
            ),
{
    let mut j: usize = 0;
    while j < values.len()
        invariant
            j <= values.len(),
            values.len() == old(values).len(),
            values.len() == gradients.len(),
            forall|k: int|
                0 <= k < j ==> is_step(old(values)[k], rate, gradients[k], #[trigger] values[k]),
            forall|k: int| j <= k < values.len() ==> values[k] == old(values)[k],
        decreases values.len() - j,
    {
        let s = rate.times(gradients[j]);
        let v = values[j].minus(s);
        assert(is_multiple(rate, gradients[j as int], s));
        values[j] = v;
        j += 1;
    }
}

/// Moves every element of a matrix against its gradient.
fn step_matrix<T: Scalar>(values: &mut Vec<Vec<T>>, rate: T, gradients: &Vec<Vec<T>>)
    requires
        old(values).len() == gradients.len(),
        forall|i: int|
            0 <= i < gradients.len() ==> (#[trigger] old(values)[i]).len() == gradients[i].len(),
    ensures
        final(values).len() == old(values).len(),
        forall|i: int|
            0 <= i < old(values).len() ==> (#[trigger] final(values)[i]).len() == old(values)[i].len(),
        forall|i: int, j: int|
            0 <= i < old(values).len() && 0 <= j < old(values)[i].len() ==> is_step(
                old(values)[i][j],
                rate,
                gradients[i][j],
                #[trigger] final(values)[i][j],
            ),
{
    let mut i: usize = 0;
    while i < values.len()
        invariant
            i <= values.len(),
            values.len() == old(values).len(),
            values.len() == gradients.len(),
            forall|k: int|
                0 <= k < gradients.len() ==> (#[trigger] values[k]).len() == gradients[k].len(),
            forall|k: int|
                0 <= k < gradients.len() ==> (#[trigger] old(values)[k]).len() == gradients[k].len(),
            forall|k: int, j: int|
                0 <= k < i && 0 <= j < old(values)[k].len() ==> is_step(
                    old(values)[k][j],
                    rate,
                    gradients[k][j],
                    #[trigger] values[k][j],
                ),
            forall|k: int| i <= k < values.len() ==> values[k] == old(values)[k],
        decreases values.len() - i,
    {
        step_row(&mut values[i], rate, &gradients[i]);
        i += 1;
    }
}

impl<T: Scalar> NeuralNetwork<T> {
    /// Writes the gradients of one layer: the gradient of a bias is the error
    /// signal of its unit, the gradient of a weight is that error signal times
    /// what was fed through the weight.
    fn update_gradients(
        layer: usize,
        deltas: &Vec<Vec<T>>,
        inputs: &[T],
        gradients_biases: &mut Vec<Vec<T>>,
        gradients_weights: &mut Vec<Vec<Vec<T>>>,
        activations: &Vec<Vec<T>>,
    )
        requires
            layer < deltas.len(),
            layer <= activations.len(),
            old(gradients_biases).len() == deltas.len(),
            old(gradients_weights).len() == deltas.len(),
            old(gradients_biases)[layer as int].len() == deltas[layer as int].len(),
            old(gradients_weights)[layer as int].len() == deltas[layer as int].len(),
            forall|i: int|
                0 <= i < deltas[layer as int].len() ==> (
                #[trigger] old(gradients_weights)[layer as int][i]).len() == Parameters::feed(
                    inputs@,
                    matrix(*activations),
                    layer as int,
                ).len(),
        ensures
            final(gradients_biases).len() == deltas.len(),
            final(gradients_weights).len() == deltas.len(),
            forall|l: int|
                0 <= l < deltas.len() && l != layer ==> #[trigger] final(gradients_biases)[l] == old(
                    gradients_biases,
                )[l],
            forall|l: int|
                0 <= l < deltas.len() && l != layer ==> #[trigger] final(gradients_weights)[l]
                    == old(gradients_weights)[l],
            final(gradients_biases)[layer as int]@ == deltas[layer as int]@,
            final(gradients_weights)[layer as int].len() == deltas[layer as int].len(),
            forall|i: int|
                0 <= i < deltas[layer as int].len() ==> (
                #[trigger] final(gradients_weights)[layer as int][i]).len() == old(
                    gradients_weights,
                )[layer as int][i].len(),
            forall|i: int, j: int|
                0 <= i < deltas[layer as int].len() && 0 <= j < Parameters::feed(
                    inputs@,
                    matrix(*activations),
                    layer as int,
                ).len() ==> is_multiple(
                    deltas[layer as int][i],
                    Parameters::feed(inputs@, matrix(*activations), layer as int)[j],
                    #[trigger] final(gradients_weights)[layer as int][i][j],
                ),
    {
        let ghost fed = Parameters::feed(inputs@, matrix(*activations), layer as int);
        let units = deltas[layer].len();
        let mut i: usize = 0;
        while i < units
            invariant
                i <= units,
                units == deltas[layer as int].len(),
                layer < deltas.len(),
                layer <= activations.len(),
                fed == Parameters::feed(inputs@, matrix(*activations), layer as int),
                gradients_biases.len() == deltas.len(),
                gradients_weights.len() == deltas.len(),
                gradients_biases[layer as int].len() == units,
                gradients_weights[layer as int].len() == units,
                forall|l: int|
                    0 <= l < deltas.len() && l != layer ==> #[trigger] gradients_biases[l] == old(
                        gradients_biases,
                    )[l],
                forall|l: int|
                    0 <= l < deltas.len() && l != layer ==> #[trigger] gradients_weights[l] == old(
                        gradients_weights,
                    )[l],
                forall|k: int|
                    0 <= k < units ==> (#[trigger] gradients_weights[layer as int][k]).len()
                        == fed.len(),
                forall|k: int|
                    0 <= k < units ==> (#[trigger] old(gradients_weights)[layer as int][k]).len()
                        == fed.len(),
                forall|k: int|
                    0 <= k < i ==> #[trigger] gradients_biases[layer as int][k] == deltas[layer as int][k],
                forall|k: int, j: int|
                    0 <= k < i && 0 <= j < fed.len() ==> is_multiple(
                        deltas[layer as int][k],
                        fed[j],
                        #[trigger] gradients_weights[layer as int][k][j],
                    ),
            decreases units - i,
        {
            gradients_biases[layer][i] = deltas[layer][i];
            if layer == 0 {
                scale_into(&mut gradients_weights[layer][i], deltas[layer][i], inputs);
            } else {
                scale_into(
                    &mut gradients_weights[layer][i],
                    deltas[layer][i],
                    activations[layer - 1].as_slice(),
                );
            }
            i += 1;
        }
    }

    /// The backward pass: the error signals of every layer and, from them,
    /// the gradients of every weight and bias. It reads the activations that
    /// `process_mutable` left in the buffers.
    fn gradients(&self, inputs: &[T], targets: &[T]) -> (r: (
        Vec<Vec<T>>,
        Vec<Vec<Vec<T>>>,
        Vec<Vec<T>>,
    ))
        requires
            self.is_ready(),
            self@.accepts(inputs@),
            targets.len() == self@.width(self@.depth()),
        ensures
            self@.is_backward(matrix(self.activations), targets@, matrix(r.0)),
            self@.is_gradient_from(
                inputs@,
                matrix(self.activations),
                matrix(r.0),
                tensor(r.1),
                matrix(r.2),
                0,
            ),
    {
        let ghost net = self@;
        let ghost act = matrix(self.activations);
        let depth = self.weights.len();
        let last = depth - 1;
        assert forall|l: int| 0 <= l < depth implies (#[trigger] self.biases[l]).len() == net.width(
            l + 1,
        ) by {
            assert(net.biases[l] == self.biases[l]@);
        }
        assert forall|l: int, i: int| 0 <= l < depth && 0 <= i < net.width(l + 1) implies (
        #[trigger] self.weights[l][i]).len() == net.width(l) by {
            assert(net.weights[l][i] == self.weights[l][i]@);
        }
        assert forall|l: int| 0 <= l < depth implies (#[trigger] self.activations[l]).len()
            == net.width(l + 1) by {
            assert(act[l] == self.activations[l]@);
        }

        let mut deltas: Vec<Vec<T>> = zeros_like(&self.biases);
        let mut gradients_weights: Vec<Vec<Vec<T>>> = zeros_like_layers(&self.weights);
        let mut gradients_biases: Vec<Vec<T>> = zeros_like(&self.biases);

        // The last layer.
        let output = output_deltas(&self.activations[last], targets);
        deltas[last] = output;
        Self::update_gradients(
            last,
            &deltas,
            inputs,
            &mut gradients_biases,
            &mut gradients_weights,
            &self.activations,
        );

        // The layers before it, from the last to the first.
        let mut done: usize = last;
        while done > 0
            invariant
                done <= last,
                last + 1 == depth,
                depth == self.weights.len(),
                net == self@,
                net.well_formed(),
                act == matrix(self.activations),
                self.activations.len() == depth,
                targets.len() == net.width(depth as int),
                inputs.len() == net.width(0),
                deltas.len() == depth,
                gradients_biases.len() == depth,
                gradients_weights.len() == depth,
                forall|l: int| 0 <= l < depth ==> (#[trigger] self.weights[l]).len() == net.width(l + 1),
                forall|l: int, i: int|
                    0 <= l < depth && 0 <= i < net.width(l + 1) ==> (
                    #[trigger] self.weights[l][i]).len() == net.width(l),
                forall|l: int|
                    0 <= l < depth ==> (#[trigger] self.activations[l]).len() == net.width(l + 1),
                forall|l: int| 0 <= l < depth ==> (#[trigger] deltas[l]).len() == net.width(l + 1),
                forall|l: int|
                    0 <= l < depth ==> (#[trigger] gradients_biases[l]).len() == net.width(l + 1),
                forall|l: int|
                    0 <= l < depth ==> (#[trigger] gradients_weights[l]).len() == net.width(l + 1),
                forall|l: int, i: int|
                    0 <= l < depth && 0 <= i < net.width(l + 1) ==> (
                    #[trigger] gradients_weights[l][i]).len() == net.width(l),
                forall|i: int|
                    0 <= i < net.width(depth as int) ==> is_output_delta(
                        act[last as int][i],
                        targets[i],
                        #[trigger] deltas[last as int][i],
                    ),
                forall|l: int, i: int|
                    done <= l < last && 0 <= i < net.width(l + 1) ==> is_hidden_delta(
                        deltas[l + 1]@,
                        net.weights[l + 1],
                        i,
                        act[l][i],
                        #[trigger] deltas[l][i],
                    ),
                forall|l: int| done <= l < depth ==> (#[trigger] gradients_biases[l])@ == deltas[l]@,
                forall|l: int, i: int, j: int|
                    done <= l < depth && 0 <= i < net.width(l + 1) && 0 <= j < net.width(l)
                        ==> is_multiple(
                        deltas[l][i],
                        Parameters::feed(inputs@, act, l)[j],
                        #[trigger] gradients_weights[l][i][j],
                    ),
            decreases done,
        {
            let layer = done - 1;
            let hidden = hidden_deltas(
                &deltas[layer + 1],
                &self.weights[layer + 1],
                &self.activations[layer],
            );
            deltas[layer] = hidden;
            Self::update_gradients(
                layer,
                &deltas,
                inputs,
                &mut gradients_biases,
                &mut gradients_weights,
                &self.activations,
            );
            done = layer;
        }

        (deltas, gradients_weights, gradients_biases)
    }

    /// Moves every weight and bias against its gradient:
    /// `value -= learning_rate * gradient`.
    fn descend(
        &mut self,
        learning_rate: T,
        gradients_weights: &Vec<Vec<Vec<T>>>,
        gradients_biases: &Vec<Vec<T>>,
    )
        requires
            old(self)@.well_formed(),
            weights_fit(tensor(*gradients_weights), old(self)@),
            buffer_fits(matrix(*gradients_biases), old(self)@),
        ensures
            final(self).pre_activations == old(self).pre_activations,
            final(self).activations == old(self).activations,
            final(self)@.well_formed(),
            final(self)@.layer_sizes() == old(self)@.layer_sizes(),
            forall|l: int, i: int|
                0 <= l < old(self)@.depth() && 0 <= i < old(self)@.width(l + 1) ==> is_step(
                    old(self)@.biases[l][i],
                    learning_rate,
                    matrix(*gradients_biases)[l][i],
                    #[trigger] final(self)@.biases[l][i],
                ),
            forall|l: int, i: int, j: int|
                0 <= l < old(self)@.depth() && 0 <= i < old(self)@.width(l + 1) && 0 <= j < old(
                    self,
                )@.width(l) ==> is_step(
                    old(self)@.weights[l][i][j],
                    learning_rate,
                    tensor(*gradients_weights)[l][i][j],
                    #[trigger] final(self)@.weights[l][i][j],
                ),
    {
        let ghost net = self@;
        let depth = self.weights.len();
        proof {
            assert forall|k: int| 0 <= k < depth implies (#[trigger] gradients_biases[k]).len()
                == net.width(k + 1) by {
                assert(matrix(*gradients_biases)[k] == gradients_biases[k]@);
            }
            assert forall|k: int| 0 <= k < depth implies (#[trigger] gradients_weights[k]).len()
                == net.width(k + 1) by {
                assert(tensor(*gradients_weights)[k] == matrix(gradients_weights[k]));
            }
            assert forall|k: int, i: int| 0 <= k < depth && 0 <= i < net.width(k + 1) implies (
            #[trigger] gradients_weights[k][i]).len() == net.width(k) by {
                assert(tensor(*gradients_weights)[k][i] == gradients_weights[k][i]@);
            }
            assert forall|k: int, i: int| 0 <= k < depth && 0 <= i < net.width(k + 1) implies (
            #[trigger] self.weights[k][i])@ == net.weights[k][i] by {}
            assert forall|k: int| 0 <= k < depth implies (#[trigger] self.biases[k])@
                == net.biases[k] by {}
        }
        let mut l: usize = 0;
        while l < depth
            invariant
                l <= depth,
                depth == self.weights.len(),
                depth == self.biases.len(),
                net.well_formed(),
                net.depth() == depth,
                self.pre_activations == old(self).pre_activations,
                self.activations == old(self).activations,
                gradients_biases.len() == depth,
                gradients_weights.len() == depth,
                forall|k: int| 0 <= k < depth ==> (#[trigger] self.weights[k]).len() == net.width(k + 1),
                forall|k: int, i: int|
                    0 <= k < depth && 0 <= i < net.width(k + 1) ==> (
                    #[trigger] self.weights[k][i]).len() == net.width(k),
                forall|k: int| 0 <= k < depth ==> (#[trigger] self.biases[k]).len() == net.width(k + 1),
                forall|k: int|
                    0 <= k < depth ==> (#[trigger] gradients_biases[k]).len() == net.width(k + 1),
                forall|k: int|
                    0 <= k < depth ==> (#[trigger] gradients_weights[k]).len() == net.width(k + 1),
                forall|k: int, i: int|
                    0 <= k < depth && 0 <= i < net.width(k + 1) ==> (
                    #[trigger] gradients_weights[k][i]).len() == net.width(k),
                forall|k: int, i: int|
                    l <= k < depth && 0 <= i < net.width(k + 1) ==> (#[trigger] self.weights[k][i])@
                        == net.weights[k][i],
                forall|k: int| l <= k < depth ==> (#[trigger] self.biases[k])@ == net.biases[k],
                forall|k: int, i: int|
                    0 <= k < l && 0 <= i < net.width(k + 1) ==> is_step(
                        net.biases[k][i],
                        learning_rate,
                        gradients_biases[k][i],
                        #[trigger] self.biases[k][i],
                    ),
                forall|k: int, i: int, j: int|
                    0 <= k < l && 0 <= i < net.width(k + 1) && 0 <= j < net.width(k) ==> is_step(
                        net.weights[k][i][j],
                        learning_rate,
                        gradients_weights[k][i][j],
                        #[trigger] self.weights[k][i][j],
                    ),
            decreases depth - l,
        {
            step_matrix(&mut self.weights[l], learning_rate, &gradients_weights[l]);
            step_row(&mut self.biases[l], learning_rate, &gradients_biases[l]);
            l += 1;
        }
    }

    /// One step of gradient descent on one example: a forward pass on
    /// `inputs`, a backward pass from `targets`, and then every weight and bias
    /// moved against its gradient by `learning_rate`.
    pub fn training_step(&mut self, inputs: &[T], targets: &[T], learning_rate: T) -> (r: Result<
        (),
        NetworkError,
    >)
        ensures
            match r {
                Ok(()) => {
                    &&& old(self).is_ready()
                    &&& old(self)@.accepts(inputs@)
                    &&& targets.len() == old(self)@.width(old(self)@.depth())
                    &&& final(self).is_ready()
                    &&& old(self)@.is_forward(
                        inputs@,
                        matrix(final(self).pre_activations),
                        matrix(final(self).activations),
                    )
                    &&& exists|deltas: Seq<Seq<T>>|
                        {
                            &&& #[trigger] old(self)@.is_backward(
                                matrix(final(self).activations),
                                targets@,
                                deltas,
                            )
                            &&& old(self)@.is_descent(
                                inputs@,
                                matrix(final(self).activations),
                                deltas,
                                learning_rate,
                                final(self)@,
                            )
                        }
                },
                Err(e) => {
                    &&& e == NetworkError::DimensionMismatch
                    &&& !(old(self).is_ready() && old(self)@.accepts(inputs@) && targets.len()
                        == old(self)@.width(old(self)@.depth()))
                    &&& *final(self) == *old(self)
                },
            },
    {
        if !self.ready() {
            return Err(NetworkError::DimensionMismatch);
        }
        let ghost net = self@;
        let last = self.weights.len() - 1;
        assert(net.biases[last as int] == self.biases[last as int]@);
        if targets.len() != self.biases[last].len() {
            return Err(NetworkError::DimensionMismatch);
        }
        match self.process_mutable(inputs) {
            Ok(_) => {},
            Err(e) => {
                return Err(e);
            },
        }
        let (deltas, gradients_weights, gradients_biases) = self.gradients(inputs, targets);
        self.descend(learning_rate, &gradients_weights, &gradients_biases);
        proof {
            let after = self@;
            lemma_same_widths(after, net);
        }
        Ok(())
    }
}

} // verus!
