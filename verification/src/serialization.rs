//! The text format of a network: a header line with the layer sizes, then
//! one value on each line.

use crate::error::NetworkError;
use crate::model::{flat_layers, flat_units, valid_sizes, Parameters};
use crate::network_math::matrix;
use crate::neural_network::{
    check_sizes, is_cleared, lemma_buffer, lemma_shape, tensor, zeros_like, NeuralNetwork,
};
use crate::scalar::{is_reading_of, is_text_of, Scalar};
use crate::text::{
    decimal, has_no_header, header_of, is_first_header, join, lines_of, parse_header,
    push_decimal, sizes_of_line, split_lines, texts,
};
use vstd::prelude::*;
use vstd::string::StringExecFns;

verus! {

/// `values[k]` is the text of `numbers[k]`, for every `k`.
pub open spec fn is_rendering<T: Scalar>(numbers: Seq<T>, values: Seq<Seq<char>>) -> bool {
    &&& values.len() == numbers.len()
    &&& forall|k: int| 0 <= k < numbers.len() ==> is_text_of(numbers[k], #[trigger] values[k])
}

/// The text of a network: the header line, then one line for each value.
pub open spec fn document(sizes: Seq<u32>, values: Seq<Seq<char>>) -> Seq<char> {
    join(seq![header_of(sizes)] + values, '\n')
}

/// The number of weights and biases in the first `layers` layers after the
/// input.
pub open spec fn parameter_count(sizes: Seq<u32>, layers: int) -> int
    decreases layers,
{
    if layers <= 0 {
        0
    } else {
        parameter_count(sizes, layers - 1) + sizes[layers] * (sizes[layers - 1] + 1)
    }
}

/// No line from `from` up to `to` was read as a value.
pub open spec fn all_rejected<T: Scalar>(lines: Seq<Seq<char>>, from: int, to: int) -> bool {
    forall|k: int| from <= k < to ==> is_reading_of::<T>(#[trigger] lines[k], None)
}

/// `values` were read from `lines`, in this order, starting at line `from`
/// and ending before line `upto`: each value from a line of its own, with only
/// rejected lines between.
pub open spec fn is_pulled<T: Scalar>(
    lines: Seq<Seq<char>>,
    from: int,
    values: Seq<T>,
    upto: int,
) -> bool
    decreases values.len(),
{
    if values.len() == 0 {
        upto == from
    } else {
        exists|mid: int, at: int|
            #![trigger all_rejected::<T>(lines, mid, at)]
            {
                &&& is_pulled(lines, from, values.drop_last(), mid)
                &&& mid <= at < lines.len()
                &&& all_rejected::<T>(lines, mid, at)
                &&& is_reading_of(lines[at], Some(values.last()))
                &&& upto == at + 1
            }
    }
}

/// What reading the values after a header at line `at` gives.
pub open spec fn is_reading_after<T: Scalar>(
    lines: Seq<Seq<char>>,
    at: int,
    r: Result<Parameters<T>, NetworkError>,
) -> bool {
    let sizes = sizes_of_line(lines[at])->0;
    if !valid_sizes(sizes) {
        r == Err::<Parameters<T>, NetworkError>(NetworkError::InvalidLayers)
    } else {
        exists|values: Seq<T>, upto: int|
            #[trigger] is_pulled(lines, at + 1, values, upto) && match r {
                Ok(p) => p.well_formed() && p.layer_sizes() == sizes && p.flat() == values,
                Err(e) => {
                    &&& e == NetworkError::MissingValues
                    &&& values.len() < parameter_count(sizes, sizes.len() - 1)
                    &&& all_rejected::<T>(lines, upto, lines.len() as int)
                },
            }
    }
}

/// What reading a text gives: the first line that lists two or more layer
/// sizes is the header; the values are read from the lines after it.
pub open spec fn is_reading<T: Scalar>(
    text: Seq<char>,
    r: Result<Parameters<T>, NetworkError>,
) -> bool {
    let lines = lines_of(text);
    if has_no_header(lines) {
        r == Err::<Parameters<T>, NetworkError>(NetworkError::MissingHeader)
    } else {
        exists|at: int| #[trigger] is_first_header(lines, at) && is_reading_after(lines, at, r)
    }
}

impl<T: Scalar> Parameters<T> {
    /// `text` is the network written out: its header, then every weight and
    /// bias on a line of its own.
    pub open spec fn is_text(self, text: Seq<char>) -> bool {
        exists|values: Seq<Seq<char>>|
            #[trigger] is_rendering(self.flat(), values) && text == document(
                self.layer_sizes(),
                values,
            )
    }
}

/// Joining one more part appends the separator and the part.
proof fn lemma_join_push(parts: Seq<Seq<char>>, part: Seq<char>, sep: char)
    requires
        parts.len() >= 1,
    ensures
        join(parts.push(part), sep) == join(parts, sep).push(sep) + part,
{
    assert(parts.push(part).drop_last() == parts);
}

/// The first `layers` layers are all that `flat_layers` reads.
proof fn lemma_flat_layers_reads<T>(
    w1: Seq<Seq<Seq<T>>>,
    b1: Seq<Seq<T>>,
    w2: Seq<Seq<Seq<T>>>,
    b2: Seq<Seq<T>>,
    layers: int,
)
    requires
        forall|l: int| 0 <= l < layers ==> w1[l] == w2[l] && b1[l] == b2[l],
    ensures
        flat_layers(w1, b1, layers) == flat_layers(w2, b2, layers),
    decreases layers,
{
    if layers > 0 {
        lemma_flat_layers_reads(w1, b1, w2, b2, layers - 1);
    }
}

/// The first `units` units are all that `flat_units` reads.
proof fn lemma_flat_units_reads<T>(
    w1: Seq<Seq<T>>,
    b1: Seq<T>,
    w2: Seq<Seq<T>>,
    b2: Seq<T>,
    units: int,
)
    requires
        forall|i: int| 0 <= i < units ==> w1[i] == w2[i] && b1[i] == b2[i],
    ensures
        flat_units(w1, b1, units) == flat_units(w2, b2, units),
    decreases units,
{
    if units > 0 {
        lemma_flat_units_reads(w1, b1, w2, b2, units - 1);
    }
}

/// Writes `x` on a new line of `out`.
fn push_value<T: Scalar>(out: &mut String, x: T) -> (value: Ghost<Seq<char>>)
    ensures
        is_text_of(x, value@),
        final(out)@ == old(out)@.push('\n') + value@,
{
    let s = x.render();
    out.push('\n');
    out.append(s.as_str());
    Ghost(s@)
}

impl<T: Scalar> NeuralNetwork<T> {
    /// The header line: the size of every layer, the input first, with one
    /// space between each two.
    fn header(&self) -> (out: String)
        requires
            self@.well_formed(),
        ensures
            out@ == header_of(self@.layer_sizes()),
    {
        let ghost net = self@;
        let ghost sizes = net.layer_sizes();
        let ghost fields = Seq::new(sizes.len(), |i: int| decimal(sizes[i] as nat));
        let mut out = String::new();
        assert(net.width(1) >= 1);
        push_decimal(&mut out, self.weights[0][0].len() as u32);
        let mut l: usize = 0;
        while l < self.biases.len()
            invariant
                l <= self.biases.len(),
                net == self@,
                net.well_formed(),
                sizes == net.layer_sizes(),
                fields == Seq::new(sizes.len(), |i: int| decimal(sizes[i] as nat)),
                out@ == join(fields.take(l + 1), ' '),
            decreases self.biases.len() - l,
        {
            assert(net.biases[l as int].len() == net.width(l + 1));
            out.push(' ');
            push_decimal(&mut out, self.biases[l].len() as u32);
            proof {
                lemma_join_push(fields.take(l + 1), fields[l + 1], ' ');
                assert(fields.take(l + 2) == fields.take(l + 1).push(fields[l + 1]));
            }
            l += 1;
        }
        assert(fields.take(sizes.len() as int) == fields);
        out
    }

    /// Writes the network out: the header, then for every layer in turn and
    /// every unit in turn its weights and then its bias, each on a line of
    /// its own.
    pub fn serialize(&self) -> (text: String)
        requires
            self@.well_formed(),
        ensures
            self@.is_text(text@),
    {
        let ghost net = self@;
        let mut out = self.header();
        let ghost header = out@;
        let ghost mut values: Seq<Seq<char>> = Seq::empty();
        let ghost mut numbers: Seq<T> = Seq::empty();
        let mut l: usize = 0;
        while l < self.weights.len()
            invariant
                l <= self.weights.len(),
                net == self@,
                net.well_formed(),
                out@ == join(seq![header] + values, '\n'),
                is_rendering(numbers, values),
                numbers == flat_layers(net.weights, net.biases, l as int),
            decreases self.weights.len() - l,
        {
            let ghost done_layers = numbers;
            assert(net.biases[l as int].len() == net.width(l + 1));
            let mut i: usize = 0;
            while i < self.weights[l].len()
                invariant
                    i <= self.weights[l as int].len(),
                    l < self.weights.len(),
                    net == self@,
                    net.well_formed(),
                    self.biases[l as int].len() == self.weights[l as int].len(),
                    out@ == join(seq![header] + values, '\n'),
                    is_rendering(numbers, values),
                    numbers == done_layers + flat_units(
                        net.weights[l as int],
                        net.biases[l as int],
                        i as int,
                    ),
                decreases self.weights[l as int].len() - i,
            {
                let ghost done_units = numbers;
                let ghost row = self.weights[l as int][i as int]@;
                let mut j: usize = 0;
                while j < self.weights[l][i].len()
                    invariant
                        j <= self.weights[l as int][i as int].len(),
                        l < self.weights.len(),
                        i < self.weights[l as int].len(),
                        row == self.weights[l as int][i as int]@,
                        out@ == join(seq![header] + values, '\n'),
                        is_rendering(numbers, values),
                        numbers == done_units + row.take(j as int),
                    decreases self.weights[l as int][i as int].len() - j,
                {
                    let value = push_value(&mut out, self.weights[l][i][j]);
                    proof {
                        lemma_join_push(seq![header] + values, value@, '\n');
                        values = values.push(value@);
                        numbers = numbers.push(row[j as int]);
                    }
                    j += 1;
                }
                let value = push_value(&mut out, self.biases[l][i]);
                proof {
                    let bias = self.biases[l as int][i as int];
                    lemma_join_push(seq![header] + values, value@, '\n');
                    values = values.push(value@);
                    numbers = numbers.push(bias);
                }
                i += 1;
            }
            l += 1;
        }
        assert(numbers == net.flat());
        out
    }
}

/// Finds the first header line.
fn find_header(lines: &Vec<String>) -> (r: Option<(usize, Vec<u32>)>)
    ensures
        match r {
            Some((at, sizes)) => is_first_header(texts(lines@), at as int) && sizes@ == sizes_of_line(
                texts(lines@)[at as int],
            )->0,
            None => has_no_header(texts(lines@)),
        },
{
    let mut at: usize = 0;
    while at < lines.len()
        invariant
            at <= lines.len(),
            forall|k: int| 0 <= k < at ==> (#[trigger] sizes_of_line(texts(lines@)[k])) is None,
        decreases lines.len() - at,
    {
        match parse_header(lines[at].as_str()) {
            Some(sizes) => {
                return Some((at, sizes));
            },
            None => {},
        }
        at += 1;
    }
    None
}

/// Reads the next value: the lines from `pos` on are tried in turn, and
/// `pos` moves behind the first that holds a value, or to the end.
fn next_value<T: Scalar>(lines: &Vec<String>, pos: &mut usize) -> (r: Option<T>)
    requires
        *old(pos) <= lines.len(),
    ensures
        *old(pos) <= *final(pos) <= lines.len(),
        match r {
            Some(value) => {
                &&& *old(pos) < *final(pos)
                &&& all_rejected::<T>(texts(lines@), *old(pos) as int, *final(pos) - 1)
                &&& is_reading_of(texts(lines@)[*final(pos) - 1], Some(value))
            },
            None => {
                &&& *final(pos) == lines.len()
                &&& all_rejected::<T>(texts(lines@), *old(pos) as int, lines.len() as int)
            },
        },
{
    while *pos < lines.len()
        invariant
            *old(pos) <= *pos <= lines.len(),
            all_rejected::<T>(texts(lines@), *old(pos) as int, *pos as int),
        decreases lines.len() - *pos,
    {
        let at = *pos;
        let r = T::parse(lines[at].as_str());
        *pos = at + 1;
        if r.is_some() {
            return r;
        }
    }
    None
}

/// The number of values grows with the number of layers.
proof fn lemma_count_grows(sizes: Seq<u32>, a: int, b: int)
    requires
        0 <= a <= b,
    ensures
        0 <= parameter_count(sizes, a) <= parameter_count(sizes, b),
    decreases b,
{
    if a < b {
        lemma_count_grows(sizes, a, b - 1);
    } else if b > 0 {
        lemma_count_grows(sizes, a - 1, b - 1);
    }
}

/// Before weight `j` of unit `i` of layer `k` is read, or its bias where `j`
/// is the number of its weights, fewer values have been read than the
/// network has.
proof fn lemma_count_short(sizes: Seq<u32>, k: int, i: int, j: int)
    requires
        1 <= k < sizes.len(),
        0 <= i < sizes[k],
        0 <= j <= sizes[k - 1],
    ensures
        parameter_count(sizes, k - 1) + i * (sizes[k - 1] + 1) + j < parameter_count(
            sizes,
            sizes.len() - 1,
        ),
{
    lemma_count_grows(sizes, k, sizes.len() - 1);
    let fed = sizes[k - 1] as int;
    let units = sizes[k] as int;
    assert(i * (fed + 1) + j < units * (fed + 1)) by (nonlinear_arith)
        requires
            0 <= i < units,
            0 <= j <= fed,
    ;
}

/// One more value, read behind rejected lines, extends what was pulled.
proof fn lemma_pulled_push<T: Scalar>(
    lines: Seq<Seq<char>>,
    from: int,
    values: Seq<T>,
    mid: int,
    value: T,
    upto: int,
)
    requires
        is_pulled(lines, from, values, mid),
        0 <= mid < upto <= lines.len(),
        all_rejected::<T>(lines, mid, upto - 1),
        is_reading_of(lines[upto - 1], Some(value)),
    ensures
        is_pulled(lines, from, values.push(value), upto),
{
    assert(values.push(value).drop_last() == values);
}

/// What `deserialize` returns, as the relation `is_reading` speaks of it.
pub open spec fn outcome<T>(r: Result<NeuralNetwork<T>, NetworkError>) -> Result<
    Parameters<T>,
    NetworkError,
> {
    match r {
        Ok(network) => Ok(network@),
        Err(e) => Err(e),
    }
}

impl<T: Scalar> NeuralNetwork<T> {
    /// Reads a network from a text. The first line that lists two or more
    /// layer sizes is the header. The weights and biases are read from the
    /// lines after it, in the order in which `serialize` writes them; a line
    /// that holds no value is passed over.
    pub fn deserialize(input: &str) -> (r: Result<Self, NetworkError>)
        ensures
            is_reading::<T>(input@, outcome(r)),
            r is Ok ==> {
                &&& r->Ok_0.is_ready()
                &&& is_cleared(r->Ok_0.pre_activations)
                &&& is_cleared(r->Ok_0.activations)
            },
    {
        let lines = split_lines(input);
        let ghost ls = texts(lines@);
        let (at, sizes) = match find_header(&lines) {
            Some(found) => found,
            None => {
                return Err(NetworkError::MissingHeader);
            },
        };
        assert(ls.len() == lines.len());
        assert(at < lines.len() && sizes_of_line(ls[at as int]) is Some);
        if !check_sizes(sizes.as_slice()) {
            return Err(NetworkError::InvalidLayers);
        }
        let ghost mut values: Seq<T> = Seq::empty();
        let mut pos: usize = at + 1;
        let mut weights: Vec<Vec<Vec<T>>> = Vec::new();
        let mut biases: Vec<Vec<T>> = Vec::new();
        let mut k: usize = 1;
        while k < sizes.len()
            invariant
                1 <= k <= sizes.len(),
                valid_sizes(sizes@),
                sizes@ == sizes_of_line(ls[at as int])->0,
                ls == texts(lines@),
                ls == lines_of(input@),
                is_first_header(ls, at as int),
                at < lines.len(),
                at < pos <= lines.len(),
                is_pulled(ls, at + 1, values, pos as int),
                values == flat_layers(tensor(weights), matrix(biases), k - 1),
                values.len() == parameter_count(sizes@, k - 1),
                weights.len() == k - 1,
                biases.len() == k - 1,
                forall|l: int| 0 <= l < k - 1 ==> (#[trigger] weights[l]).len() == sizes[l + 1],
                forall|l: int| 0 <= l < k - 1 ==> (#[trigger] biases[l]).len() == sizes[l + 1],
                forall|l: int, i: int|
                    0 <= l < k - 1 && 0 <= i < sizes[l + 1] ==> (#[trigger] weights[l][i]).len()
                        == sizes[l],
            decreases sizes.len() - k,
        {
            let units = sizes[k] as usize;
            let fed = sizes[k - 1] as usize;
            let ghost done_layers = values;
            let mut layer_weights: Vec<Vec<T>> = Vec::new();
            let mut layer_biases: Vec<T> = Vec::new();
            let mut i: usize = 0;
            while i < units
                invariant
                    i <= units,
                    1 <= k < sizes.len(),
                    units == sizes[k as int],
                    fed == sizes[k - 1],
                    ls == texts(lines@),
                    ls == lines_of(input@),
                    is_first_header(ls, at as int),
                    valid_sizes(sizes@),
                    sizes@ == sizes_of_line(ls[at as int])->0,
                    at < pos <= lines.len(),
                    is_pulled(ls, at + 1, values, pos as int),
                    values == done_layers + flat_units(matrix(layer_weights), layer_biases@, i as int),
                    values.len() == parameter_count(sizes@, k - 1) + i * (fed + 1),
                    layer_weights.len() == i,
                    layer_biases.len() == i,
                    forall|u: int| 0 <= u < i ==> (#[trigger] layer_weights[u]).len() == fed,
                decreases units - i,
            {
                let ghost done_units = values;
                let mut row: Vec<T> = Vec::new();
                let mut j: usize = 0;
                while j < fed
                    invariant
                        j <= fed,
                        i < units,
                        1 <= k < sizes.len(),
                        units == sizes[k as int],
                        fed == sizes[k - 1],
                        ls == texts(lines@),
                        ls == lines_of(input@),
                        is_first_header(ls, at as int),
                        valid_sizes(sizes@),
                        sizes@ == sizes_of_line(ls[at as int])->0,
                        at < pos <= lines.len(),
                        is_pulled(ls, at + 1, values, pos as int),
                        values == done_units + row@,
                        values.len() == parameter_count(sizes@, k - 1) + i * (fed + 1) + j,
                        row.len() == j,
                    decreases fed - j,
                {
                    let ghost mid = pos as int;
                    match next_value::<T>(&lines, &mut pos) {
                        Some(value) => {
                            row.push(value);
                            proof {
                                lemma_pulled_push(ls, at + 1, values, mid, value, pos as int);
                                values = values.push(value);
                            }
                        },
                        None => {
                            proof {
                                lemma_count_short(sizes@, k as int, i as int, j as int);
                            }
                            return Err(NetworkError::MissingValues);
                        },
                    }
                    j += 1;
                }
                let ghost mid = pos as int;
                match next_value::<T>(&lines, &mut pos) {
                    Some(value) => {
                        let ghost before_weights = matrix(layer_weights);
                        let ghost before_biases = layer_biases@;
                        layer_weights.push(row);
                        layer_biases.push(value);
                        proof {
                            lemma_pulled_push(ls, at + 1, values, mid, value, pos as int);
                            values = values.push(value);
                            lemma_flat_units_reads(
                                before_weights,
                                before_biases,
                                matrix(layer_weights),
                                layer_biases@,
                                i as int,
                            );
                            assert(i * (fed + 1) + fed + 1 == (i + 1) * (fed + 1))
                                by (nonlinear_arith);
                        }
                    },
                    None => {
                        proof {
                            lemma_count_short(sizes@, k as int, i as int, fed as int);
                        }
                        return Err(NetworkError::MissingValues);
                    },
                }
                i += 1;
            }
            let ghost before_weights = tensor(weights);
            let ghost before_biases = matrix(biases);
            weights.push(layer_weights);
            biases.push(layer_biases);
            proof {
                lemma_flat_layers_reads(
                    before_weights,
                    before_biases,
                    tensor(weights),
                    matrix(biases),
                    k - 1,
                );
            }
            k += 1;
        }
        let pre_activations: Vec<Vec<T>> = zeros_like(&biases);
        let activations: Vec<Vec<T>> = zeros_like(&biases);
        let network = NeuralNetwork { weights, biases, pre_activations, activations };
        proof {
            lemma_shape(network.weights, network.biases, sizes@);
            lemma_buffer(network.pre_activations, network.biases, network@);
            lemma_buffer(network.activations, network.biases, network@);
            assert(is_reading_after::<T>(ls, at as int, Ok(network@)));
        }
        Ok(network)
    }
}

} // verus!
