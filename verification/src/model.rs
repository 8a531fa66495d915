//! The mathematical model of a network, and the relations that say what a
//! forward pass, a backward pass and a step of gradient descent compute.

use crate::network_math::is_dot;
use crate::scalar::{
    is_difference, is_exponential, is_multiple, is_negation, is_one, is_quotient, is_sum, Scalar,
};
use vstd::prelude::*;

verus! {

/// What a network is: its weights and biases. `weights[l][i][j]` leads from
/// unit `j` of layer `l` to unit `i` of layer `l + 1`, and `biases[l][i]`
/// belongs to unit `i` of layer `l + 1`, where layer 0 is the input.
pub struct Parameters<T> {
    pub weights: Seq<Seq<Seq<T>>>,
    pub biases: Seq<Seq<T>>,
}

/// The weights of `units` units, each followed by the unit's bias.
pub open spec fn flat_units<T>(weights: Seq<Seq<T>>, biases: Seq<T>, units: int) -> Seq<T>
    decreases units,
{
    if units <= 0 {
        Seq::empty()
    } else {
        flat_units(weights, biases, units - 1) + weights[units - 1].push(biases[units - 1])
    }
}

/// The weights and biases of the first `layers` layers, unit by unit.
pub open spec fn flat_layers<T>(
    weights: Seq<Seq<Seq<T>>>,
    biases: Seq<Seq<T>>,
    layers: int,
) -> Seq<T>
    decreases layers,
{
    if layers <= 0 {
        Seq::empty()
    } else {
        flat_layers(weights, biases, layers - 1) + flat_units(
            weights[layers - 1],
            biases[layers - 1],
            weights[layers - 1].len() as int,
        )
    }
}

impl<T> Parameters<T> {
    /// The number of layers after the input.
    pub open spec fn depth(self) -> int {
        self.weights.len() as int
    }

    /// The number of units in layer `k`, the input being layer 0.
    pub open spec fn width(self, k: int) -> int {
        if k == 0 {
            self.weights[0][0].len() as int
        } else {
            self.weights[k - 1].len() as int
        }
    }

    /// Every layer has at least one unit, every unit has one weight for each
    /// unit of the layer before it, and one bias.
    pub open spec fn well_formed(self) -> bool {
        &&& self.depth() >= 1
        &&& self.biases.len() == self.depth()
        &&& forall|k: int| 0 <= k <= self.depth() ==> 1 <= #[trigger] self.width(k) <= u32::MAX
        &&& forall|l: int|
            0 <= l < self.depth() ==> (#[trigger] self.biases[l]).len() == self.width(l + 1)
        &&& forall|l: int, i: int|
            0 <= l < self.depth() && 0 <= i < self.width(l + 1) ==> (
            #[trigger] self.weights[l][i]).len() == self.width(l)
    }

    /// The network can be run on `input`: it is well formed and `input` has
    /// one value for each unit of the input layer.
    pub open spec fn accepts(self, input: Seq<T>) -> bool {
        self.well_formed() && input.len() == self.width(0)
    }

    /// The number of units of every layer, the input first.
    pub open spec fn layer_sizes(self) -> Seq<u32> {
        Seq::new((self.depth() + 1) as nat, |k: int| self.width(k) as u32)
    }

    /// All weights and biases in the order in which they are written out.
    pub open spec fn flat(self) -> Seq<T> {
        flat_layers(self.weights, self.biases, self.depth())
    }

    /// What layer `l + 1` reads: the input, or the activations of layer `l`.
    pub open spec fn feed(input: Seq<T>, activations: Seq<Seq<T>>, l: int) -> Seq<T> {
        if l == 0 {
            input
        } else {
            activations[l - 1]
        }
    }
}

/// One vector for each layer after the input, as long as the layer has
/// units: the shape of the biases.
pub open spec fn buffer_fits<T>(buffer: Seq<Seq<T>>, parameters: Parameters<T>) -> bool {
    &&& buffer.len() == parameters.depth()
    &&& forall|l: int|
        0 <= l < parameters.depth() ==> (#[trigger] buffer[l]).len() == parameters.width(l + 1)
}

/// One matrix for each layer after the input, with a row for each unit that
/// is as long as the layer before: the shape of the weights.
pub open spec fn weights_fit<T>(layers: Seq<Seq<Seq<T>>>, parameters: Parameters<T>) -> bool {
    &&& layers.len() == parameters.depth()
    &&& forall|l: int|
        0 <= l < parameters.depth() ==> (#[trigger] layers[l]).len() == parameters.width(l + 1)
    &&& forall|l: int, i: int|
        0 <= l < parameters.depth() && 0 <= i < parameters.width(l + 1) ==> (
        #[trigger] layers[l][i]).len() == parameters.width(l)
}

/// Layer sizes that a network can have: two or more, none of them zero.
pub open spec fn valid_sizes(sizes: Seq<u32>) -> bool {
    &&& sizes.len() >= 2
    &&& forall|k: int| 0 <= k < sizes.len() ==> #[trigger] sizes[k] > 0
}

/// `a` is `1 / (1 + exp(-x))`.
pub open spec fn is_activation<T: Scalar>(x: T, a: T) -> bool {
    exists|n: T, e: T, u: T, d: T, v: T|
        #![trigger is_negation(x, n), is_exponential(n, e), is_sum(u, e, d), is_quotient(v, d, a)]
        is_negation(x, n) && is_exponential(n, e) && is_one(u) && is_sum(u, e, d) && is_one(v)
            && is_quotient(v, d, a)
}

/// `r` is `lead * a * (1 - a)`, multiplied from the left.
pub open spec fn is_scaled_by_slope<T: Scalar>(lead: T, a: T, r: T) -> bool {
    exists|p: T, u: T, q: T|
        #![trigger is_multiple(lead, a, p), is_difference(u, a, q)]
        is_multiple(lead, a, p) && is_one(u) && is_difference(u, a, q) && is_multiple(p, q, r)
}

/// The error signal of an output unit with activation `a` and target `y`:
/// `(a - y) * a * (1 - a)`.
pub open spec fn is_output_delta<T: Scalar>(a: T, y: T, d: T) -> bool {
    exists|e: T| #[trigger] is_difference(a, y, e) && is_scaled_by_slope(e, a, d)
}

/// Column `i` of a matrix.
pub open spec fn column<T>(rows: Seq<Seq<T>>, i: int) -> Seq<T> {
    Seq::new(rows.len(), |k: int| rows[k][i])
}

/// The error signal of a hidden unit `i` with activation `a`: the error
/// signals of the next layer, each multiplied by the weight that leads from
/// unit `i` to it, added up, and the sum scaled by `a * (1 - a)`.
pub open spec fn is_hidden_delta<T: Scalar>(
    next_deltas: Seq<T>,
    next_weights: Seq<Seq<T>>,
    i: int,
    a: T,
    d: T,
) -> bool {
    exists|t: T|
        #[trigger] is_dot(next_deltas, column(next_weights, i), next_deltas.len() as int, t)
            && is_scaled_by_slope(t, a, d)
}

/// `after` is `before - rate * gradient`.
pub open spec fn is_step<T: Scalar>(before: T, rate: T, gradient: T, after: T) -> bool {
    exists|s: T| #[trigger] is_multiple(rate, gradient, s) && is_difference(before, s, after)
}

/// `after` is `before - rate * (delta * fed)`.
pub open spec fn is_weight_step<T: Scalar>(before: T, rate: T, delta: T, fed: T, after: T) -> bool {
    exists|g: T| #[trigger] is_multiple(delta, fed, g) && is_step(before, rate, g, after)
}

/// One unit: `pre` is the dot product of its weights and what is fed to it,
/// plus its bias; `act` is the activation of `pre`.
pub open spec fn is_unit<T: Scalar>(row: Seq<T>, bias: T, fed: Seq<T>, pre: T, act: T) -> bool {
    exists|d: T|
        #[trigger] is_dot(row, fed, fed.len() as int, d) && is_sum(d, bias, pre) && is_activation(
            pre,
            act,
        )
}

/// One layer: every unit computes its own `pre[i]` and `act[i]`.
pub open spec fn is_layer<T: Scalar>(
    weights: Seq<Seq<T>>,
    biases: Seq<T>,
    fed: Seq<T>,
    pre: Seq<T>,
    act: Seq<T>,
) -> bool {
    &&& pre.len() == weights.len()
    &&& act.len() == weights.len()
    &&& forall|i: int|
        0 <= i < weights.len() ==> is_unit(weights[i], biases[i], fed, #[trigger] pre[i], act[i])
}

impl<T: Scalar> Parameters<T> {
    /// A forward pass: layer by layer, each fed by the one before it.
    pub open spec fn is_forward(
        self,
        input: Seq<T>,
        pre: Seq<Seq<T>>,
        act: Seq<Seq<T>>,
    ) -> bool {
        &&& pre.len() == self.depth()
        &&& act.len() == self.depth()
        &&& forall|l: int|
            0 <= l < self.depth() ==> is_layer(
                self.weights[l],
                self.biases[l],
                Self::feed(input, act, l),
                #[trigger] pre[l],
                act[l],
            )
    }

    /// `output` is what the last layer of some forward pass on `input` gives.
    pub open spec fn is_output(self, input: Seq<T>, output: Seq<T>) -> bool {
        exists|pre: Seq<Seq<T>>, act: Seq<Seq<T>>|
            #[trigger] self.is_forward(input, pre, act) && output == act[self.depth() - 1]
    }

    /// The backward pass through the layers from `from` on: the error
    /// signals of the last layer come from the targets, those of every other
    /// layer from the layer after it.
    pub open spec fn is_backward_from(
        self,
        act: Seq<Seq<T>>,
        targets: Seq<T>,
        deltas: Seq<Seq<T>>,
        from: int,
    ) -> bool {
        let last = self.depth() - 1;
        &&& buffer_fits(deltas, self)
        &&& forall|i: int|
            0 <= i < self.width(last + 1) ==> is_output_delta(
                act[last][i],
                targets[i],
                #[trigger] deltas[last][i],
            )
        &&& forall|l: int, i: int|
            from <= l < last && 0 <= i < self.width(l + 1) ==> is_hidden_delta(
                deltas[l + 1],
                self.weights[l + 1],
                i,
                act[l][i],
                #[trigger] deltas[l][i],
            )
    }

    /// A backward pass: the error signals of every layer.
    pub open spec fn is_backward(
        self,
        act: Seq<Seq<T>>,
        targets: Seq<T>,
        deltas: Seq<Seq<T>>,
    ) -> bool {
        self.is_backward_from(act, targets, deltas, 0)
    }

    /// The gradients of the layers from `from` on: that of a bias is the
    /// error signal of its unit, that of a weight is this error signal times
    /// what was fed through the weight.
    pub open spec fn is_gradient_from(
        self,
        input: Seq<T>,
        act: Seq<Seq<T>>,
        deltas: Seq<Seq<T>>,
        of_weights: Seq<Seq<Seq<T>>>,
        of_biases: Seq<Seq<T>>,
        from: int,
    ) -> bool {
        &&& weights_fit(of_weights, self)
        &&& buffer_fits(of_biases, self)
        &&& forall|l: int| from <= l < self.depth() ==> #[trigger] of_biases[l] == deltas[l]
        &&& forall|l: int, i: int, j: int|
            from <= l < self.depth() && 0 <= i < self.width(l + 1) && 0 <= j < self.width(l)
                ==> is_multiple(
                deltas[l][i],
                Self::feed(input, act, l)[j],
                #[trigger] of_weights[l][i][j],
            )
    }

    /// One step of gradient descent: every bias moves against its error signal,
    /// every weight against its error signal times what was fed through it.
    pub open spec fn is_descent(
        self,
        input: Seq<T>,
        act: Seq<Seq<T>>,
        deltas: Seq<Seq<T>>,
        rate: T,
        after: Parameters<T>,
    ) -> bool {
        &&& after.well_formed()
        &&& after.layer_sizes() == self.layer_sizes()
        &&& forall|l: int, i: int|
            0 <= l < self.depth() && 0 <= i < self.width(l + 1) ==> is_step(
                self.biases[l][i],
                rate,
                deltas[l][i],
                #[trigger] after.biases[l][i],
            )
        &&& forall|l: int, i: int, j: int|
            0 <= l < self.depth() && 0 <= i < self.width(l + 1) && 0 <= j < self.width(l)
                ==> is_weight_step(
                self.weights[l][i][j],
                rate,
                deltas[l][i],
                Self::feed(input, act, l)[j],
                #[trigger] after.weights[l][i][j],
            )
    }
}

} // verus!
