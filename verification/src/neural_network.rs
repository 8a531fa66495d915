//! The network as it is held in memory, its shape, and its construction.

use crate::error::NetworkError;
use crate::model::{buffer_fits, valid_sizes, Parameters};
use crate::network_math::matrix;
use crate::scalar::{is_drawn, is_zero, Scalar, Source};
use vstd::prelude::*;

verus! {

/// A fully connected feed-forward network with a sigmoid in every unit.
///
/// `weights` and `biases` are the network. `pre_activations` and
/// `activations` are buffers that `process_mutable` fills and
/// `training_step` reads; they are no part of what the network is.
#[derive(Debug, Clone)]
pub struct NeuralNetwork<T> {
    pub weights: Vec<Vec<Vec<T>>>,
    pub biases: Vec<Vec<T>>,
    pub pre_activations: Vec<Vec<T>>,
    pub activations: Vec<Vec<T>>,
}

/// The matrices of a list of layers.
pub open spec fn tensor<T>(layers: Vec<Vec<Vec<T>>>) -> Seq<Seq<Seq<T>>> {
    Seq::new(layers.len() as nat, |l: int| matrix(layers[l]))
}

impl<T> View for NeuralNetwork<T> {
    type V = Parameters<T>;

    open spec fn view(&self) -> Parameters<T> {
        Parameters { weights: tensor(self.weights), biases: matrix(self.biases) }
    }
}

/// Every element of the buffer is a zero.
pub open spec fn is_cleared<T: Scalar>(buffer: Vec<Vec<T>>) -> bool {
    forall|l: int, i: int|
        0 <= l < buffer.len() && 0 <= i < buffer[l].len() ==> is_zero(#[trigger] buffer[l][i])
}

impl<T> NeuralNetwork<T> {
    /// The network is well formed and both buffers fit it.
    pub open spec fn is_ready(&self) -> bool {
        &&& self@.well_formed()
        &&& buffer_fits(matrix(self.pre_activations), self@)
        &&& buffer_fits(matrix(self.activations), self@)
    }

    /// A network without layers.
    pub fn empty() -> (network: Self)
        ensures
            network.weights@.len() == 0,
            network.biases@.len() == 0,
            network.pre_activations@.len() == 0,
            network.activations@.len() == 0,
    {
        Self {
            weights: Vec::new(),
            biases: Vec::new(),
            pre_activations: Vec::new(),
            activations: Vec::new(),
        }
    }

    /// Whether the lengths of weights and biases agree with each other.
    pub fn is_well_formed(&self) -> (r: bool)
        ensures
            r == self@.well_formed(),
    {
        let depth = self.weights.len();
        if depth == 0 || self.biases.len() != depth {
            return false;
        }
        if self.weights[0].len() == 0 {
            assert(self@.width(1) == 0);
            return false;
        }
        let mut fed = self.weights[0][0].len();
        if fed == 0 || fed > u32::MAX as usize {
            assert(self@.width(0) == fed);
            return false;
        }
        let mut l: usize = 0;
        while l < depth
            invariant
                l <= depth,
                depth == self.weights.len(),
                depth == self.biases.len(),
                depth >= 1,
                fed == self@.width(l as int),
                forall|k: int| 0 <= k <= l ==> 1 <= #[trigger] self@.width(k) <= u32::MAX,
                forall|k: int| 0 <= k < l ==> (#[trigger] self@.biases[k]).len() == self@.width(k + 1),
                forall|k: int, i: int|
                    0 <= k < l && 0 <= i < self@.width(k + 1) ==> (
                    #[trigger] self@.weights[k][i]).len() == self@.width(k),
            decreases depth - l,
        {
            let units = self.weights[l].len();
            if units == 0 || units > u32::MAX as usize || self.biases[l].len() != units {
                assert(self@.biases[l as int].len() == self.biases[l as int].len());
                return false;
            }
            let mut i: usize = 0;
            while i < units
                invariant
                    i <= units,
                    l < depth,
                    depth == self.weights.len(),
                    units == self.weights[l as int].len(),
                    units == self@.width(l + 1),
                    fed == self@.width(l as int),
                    forall|k: int|
                        0 <= k < i ==> (#[trigger] self@.weights[l as int][k]).len() == fed,
                decreases units - i,
            {
                if self.weights[l][i].len() != fed {
                    assert(self@.weights[l as int][i as int].len() == self.weights[l as int][i as int].len());
                    return false;
                }
                i += 1;
            }
            fed = units;
            l += 1;
        }
        true
    }
}

impl<T: Scalar> NeuralNetwork<T> {
    /// Whether `buffer` holds one vector of the right length for each layer
    /// after the input.
    fn fits(&self, buffer: &Vec<Vec<T>>) -> (r: bool)
        requires
            self@.well_formed(),
        ensures
            r == buffer_fits(matrix(*buffer), self@),
    {
        if buffer.len() != self.weights.len() {
            return false;
        }
        let mut l: usize = 0;
        while l < buffer.len()
            invariant
                l <= buffer.len(),
                buffer.len() == self.weights.len(),
                forall|k: int|
                    0 <= k < l ==> (#[trigger] matrix(*buffer)[k]).len() == self@.width(k + 1),
            decreases buffer.len() - l,
        {
            assert(matrix(*buffer)[l as int] == buffer[l as int]@);
            if buffer[l].len() != self.weights[l].len() {
                return false;
            }
            l += 1;
        }
        true
    }

    /// Whether the network is well formed and its buffers fit it.
    pub fn ready(&self) -> (r: bool)
        ensures
            r == self.is_ready(),
    {
        self.is_well_formed() && self.fits(&self.pre_activations) && self.fits(&self.activations)
    }
}

/// A vector of `n` zeros.
pub(crate) fn zeros<T: Scalar>(n: usize) -> (v: Vec<T>)
    ensures
        v.len() == n,
        forall|i: int| 0 <= i < n ==> is_zero(#[trigger] v[i]),
{
    let mut v: Vec<T> = Vec::new();
    let mut i: usize = 0;
    while i < n
        invariant
            i <= n,
            v.len() == i,
            forall|k: int| 0 <= k < i ==> is_zero(#[trigger] v[k]),
        decreases n - i,
    {
        v.push(T::zero());
        i += 1;
    }
    v
}

/// A matrix of zeros with the row lengths of `like`.
pub(crate) fn zeros_like<T: Scalar>(like: &Vec<Vec<T>>) -> (m: Vec<Vec<T>>)
    ensures
        m.len() == like.len(),
        forall|i: int| 0 <= i < like.len() ==> (#[trigger] m[i]).len() == like[i].len(),
        forall|i: int, j: int| 0 <= i < m.len() && 0 <= j < m[i].len() ==> is_zero(#[trigger] m[i][j]),
{
    let mut m: Vec<Vec<T>> = Vec::new();
    let mut i: usize = 0;
    while i < like.len()
        invariant
            i <= like.len(),
            m.len() == i,
            forall|k: int| 0 <= k < i ==> (#[trigger] m[k]).len() == like[k].len(),
            forall|k: int, j: int| 0 <= k < i && 0 <= j < m[k].len() ==> is_zero(#[trigger] m[k][j]),
        decreases like.len() - i,
    {
        m.push(zeros(like[i].len()));
        i += 1;
    }
    m
}

/// Matrices of zeros with the shapes of those in `like`.
pub(crate) fn zeros_like_layers<T: Scalar>(like: &Vec<Vec<Vec<T>>>) -> (t: Vec<Vec<Vec<T>>>)
    ensures
        t.len() == like.len(),
        forall|l: int| 0 <= l < like.len() ==> (#[trigger] t[l]).len() == like[l].len(),
        forall|l: int, i: int|
            0 <= l < like.len() && 0 <= i < like[l].len() ==> (#[trigger] t[l][i]).len()
                == like[l][i].len(),
{
    let mut t: Vec<Vec<Vec<T>>> = Vec::new();
    let mut l: usize = 0;
    while l < like.len()
        invariant
            l <= like.len(),
            t.len() == l,
            forall|k: int| 0 <= k < l ==> (#[trigger] t[k]).len() == like[k].len(),
            forall|k: int, i: int|
                0 <= k < l && 0 <= i < like[k].len() ==> (#[trigger] t[k][i]).len()
                    == like[k][i].len(),
        decreases like.len() - l,
    {
        t.push(zeros_like(&like[l]));
        l += 1;
    }
    t
}

/// Weights and biases whose lengths follow `sizes` make a well-formed network
/// with these layer sizes.
pub(crate) proof fn lemma_shape<T>(weights: Vec<Vec<Vec<T>>>, biases: Vec<Vec<T>>, sizes: Seq<u32>)
    requires
        valid_sizes(sizes),
        weights.len() + 1 == sizes.len(),
        biases.len() + 1 == sizes.len(),
        forall|l: int| 0 <= l < weights.len() ==> (#[trigger] weights[l]).len() == sizes[l + 1],
        forall|l: int| 0 <= l < biases.len() ==> (#[trigger] biases[l]).len() == sizes[l + 1],
        forall|l: int, i: int|
            0 <= l < weights.len() && 0 <= i < sizes[l + 1] ==> (#[trigger] weights[l][i]).len()
                == sizes[l],
    ensures
        (Parameters { weights: tensor(weights), biases: matrix(biases) }).well_formed(),
        (Parameters { weights: tensor(weights), biases: matrix(biases) }).layer_sizes() == sizes,
{
}

/// Whether `layers` are sizes that a network can have.
pub fn check_sizes(layers: &[u32]) -> (r: bool)
    ensures
        r == valid_sizes(layers@),
{
    if layers.len() < 2 {
        return false;
    }
    let mut k: usize = 0;
    while k < layers.len()
        invariant
            k <= layers.len(),
            forall|i: int| 0 <= i < k ==> #[trigger] layers[i] > 0,
        decreases layers.len() - k,
    {
        if layers[k] == 0 {
            return false;
        }
        k += 1;
    }
    true
}

impl<T: Scalar> NeuralNetwork<T> {
    /// A network with the given layer sizes, the input layer first. Every
    /// weight and bias is drawn from `source`: layer by layer, for each unit in
    /// turn its weights, then its bias. The buffers are filled with zeros.
    pub fn new<S: Source<T>>(layers: &[u32], source: &mut S) -> (r: Result<Self, NetworkError>)
        ensures
            match r {
                Ok(network) => {
                    &&& valid_sizes(layers@)
                    &&& network.is_ready()
                    &&& network@.layer_sizes() == layers@
                    &&& forall|l: int, i: int, j: int|
                        0 <= l < network.weights.len() && 0 <= i < network.weights[l].len() && 0
                            <= j < network.weights[l][i].len() ==> is_drawn::<T, S>(
                            #[trigger] network.weights[l][i][j],
                        )
                    &&& forall|l: int, i: int|
                        0 <= l < network.biases.len() && 0 <= i < network.biases[l].len()
                            ==> is_drawn::<T, S>(#[trigger] network.biases[l][i])
                    &&& is_cleared(network.pre_activations)
                    &&& is_cleared(network.activations)
                },
                Err(e) => e == NetworkError::InvalidLayers && !valid_sizes(layers@),
            },
    {
        if !check_sizes(layers) {
            return Err(NetworkError::InvalidLayers);
        }
        let mut weights: Vec<Vec<Vec<T>>> = Vec::new();
        let mut biases: Vec<Vec<T>> = Vec::new();
        let mut k: usize = 1;
        while k < layers.len()
            invariant
                1 <= k <= layers.len(),
                weights.len() == k - 1,
                biases.len() == k - 1,
                forall|l: int| 0 <= l < k - 1 ==> (#[trigger] weights[l]).len() == layers[l + 1],
                forall|l: int| 0 <= l < k - 1 ==> (#[trigger] biases[l]).len() == layers[l + 1],
                forall|l: int, i: int|
                    0 <= l < k - 1 && 0 <= i < layers[l + 1] ==> (#[trigger] weights[l][i]).len()
                        == layers[l],
                forall|l: int, i: int, j: int|
                    0 <= l < weights.len() && 0 <= i < weights[l].len() && 0 <= j
                        < weights[l][i].len() ==> is_drawn::<T, S>(#[trigger] weights[l][i][j]),
                forall|l: int, i: int|
                    0 <= l < biases.len() && 0 <= i < biases[l].len() ==> is_drawn::<T, S>(
                        #[trigger] biases[l][i],
                    ),
            decreases layers.len() - k,
        {
            let units = layers[k] as usize;
            let fed = layers[k - 1] as usize;
            let mut layer_weights: Vec<Vec<T>> = Vec::new();
            let mut layer_biases: Vec<T> = Vec::new();
            let mut i: usize = 0;
            while i < units
                invariant
                    i <= units,
                    layer_weights.len() == i,
                    layer_biases.len() == i,
                    forall|u: int| 0 <= u < i ==> (#[trigger] layer_weights[u]).len() == fed,
                    forall|u: int, j: int|
                        0 <= u < i && 0 <= j < layer_weights[u].len() ==> is_drawn::<T, S>(
                            #[trigger] layer_weights[u][j],
                        ),
                    forall|u: int| 0 <= u < i ==> is_drawn::<T, S>(#[trigger] layer_biases[u]),
                decreases units - i,
            {
                let mut row: Vec<T> = Vec::new();
                let mut j: usize = 0;
                while j < fed
                    invariant
                        j <= fed,
                        row.len() == j,
                        forall|u: int| 0 <= u < j ==> is_drawn::<T, S>(#[trigger] row[u]),
                    decreases fed - j,
                {
                    let weight = source.draw();
                    assert(is_drawn::<T, S>(weight));
                    row.push(weight);
                    j += 1;
                }
                let bias = source.draw();
                assert(is_drawn::<T, S>(bias));
                layer_weights.push(row);
                layer_biases.push(bias);
                i += 1;
            }
            weights.push(layer_weights);
            biases.push(layer_biases);
            k += 1;
        }
        let pre_activations: Vec<Vec<T>> = zeros_like(&biases);
        let activations: Vec<Vec<T>> = zeros_like(&biases);
        let network = NeuralNetwork { weights, biases, pre_activations, activations };
        Ok(network)
    }
}

/// A buffer with the row lengths of the biases fits the network.
pub(crate) proof fn lemma_buffer<T>(buffer: Vec<Vec<T>>, biases: Vec<Vec<T>>, net: Parameters<T>)
    requires
        net.well_formed(),
        net.biases == matrix(biases),
        buffer.len() == biases.len(),
        forall|l: int| 0 <= l < biases.len() ==> (#[trigger] buffer[l]).len() == biases[l].len(),
    ensures
        buffer_fits(matrix(buffer), net),
{
    assert forall|l: int| 0 <= l < net.depth() implies (#[trigger] matrix(buffer)[l]).len()
        == net.width(l + 1) by {
        assert(net.biases[l] == biases[l]@);
    }
}

} // verus!
