//! With an arithmetic whose operations are functions, every contract of the
//! library allows one result only. The same holds of the text format with a
//! scalar that is written and read in one way.

use crate::model::{
    column, is_activation, is_layer, is_scaled_by_slope, is_step, Parameters,
};
use crate::error::NetworkError;
use crate::laws::{lemma_flat_layers_len, lemma_known_by_flat, lemma_same_widths};
use crate::model::valid_sizes;
use crate::network_math::is_dot;
use crate::scalar::{
    has_exact_arithmetic, has_exact_readings, has_exact_texts, is_difference, is_exponential,
    is_multiple, is_negation, is_one, is_quotient, is_reading_of, is_sum, Scalar,
};
use crate::serialization::{
    all_rejected, document, is_pulled, is_reading, is_reading_after, is_rendering,
    parameter_count,
};
use crate::text::{has_no_header, is_first_header, lines_of, sizes_of_line};
use vstd::prelude::*;

verus! {

/// With exact arithmetic a dot product has one value.
pub proof fn lemma_dot_is_determined<T: Scalar>(row: Seq<T>, v: Seq<T>, n: int, x: T, y: T)
    requires
        has_exact_arithmetic::<T>(),
        is_dot(row, v, n, x),
        is_dot(row, v, n, y),
    ensures
        x == y,
    decreases n,
{
    if n > 0 {
        let (b1, t1) = choose|before: T, term: T|
            #![trigger is_sum(before, term, x)]
            is_dot(row, v, n - 1, before) && is_multiple(row[n - 1], v[n - 1], term) && is_sum(
                before,
                term,
                x,
            );
        let (b2, t2) = choose|before: T, term: T|
            #![trigger is_sum(before, term, y)]
            is_dot(row, v, n - 1, before) && is_multiple(row[n - 1], v[n - 1], term) && is_sum(
                before,
                term,
                y,
            );
        lemma_dot_is_determined(row, v, n - 1, b1, b2);
    }
}

/// With exact arithmetic the activation function has one value.
pub proof fn lemma_activation_is_determined<T: Scalar>(x: T, a: T, b: T)
    requires
        has_exact_arithmetic::<T>(),
        is_activation(x, a),
        is_activation(x, b),
    ensures
        a == b,
{
    let (n1, e1, ua, d1, v1) = choose|n: T, e: T, u: T, d: T, v: T|
        #![trigger is_negation(x, n), is_exponential(n, e), is_sum(u, e, d), is_quotient(v, d, a)]
        is_negation(x, n) && is_exponential(n, e) && is_one(u) && is_sum(u, e, d) && is_one(v)
            && is_quotient(v, d, a);
    let (n2, e2, ub, d2, v2) = choose|n: T, e: T, u: T, d: T, v: T|
        #![trigger is_negation(x, n), is_exponential(n, e), is_sum(u, e, d), is_quotient(v, d, b)]
        is_negation(x, n) && is_exponential(n, e) && is_one(u) && is_sum(u, e, d) && is_one(v)
            && is_quotient(v, d, b);
}

/// With exact arithmetic a layer has one vector of sums and one of
/// activations.
pub proof fn lemma_layer_is_determined<T: Scalar>(
    weights: Seq<Seq<T>>,
    biases: Seq<T>,
    fed: Seq<T>,
    pre1: Seq<T>,
    act1: Seq<T>,
    pre2: Seq<T>,
    act2: Seq<T>,
)
    requires
        has_exact_arithmetic::<T>(),
        is_layer(weights, biases, fed, pre1, act1),
        is_layer(weights, biases, fed, pre2, act2),
    ensures
        pre1 == pre2,
        act1 == act2,
{
    assert forall|i: int| 0 <= i < weights.len() implies pre1[i] == pre2[i] && act1[i] == act2[i] by {
        let d1 = choose|d: T|
            #[trigger] is_dot(weights[i], fed, fed.len() as int, d) && is_sum(d, biases[i], pre1[i])
                && is_activation(pre1[i], act1[i]);
        let d2 = choose|d: T|
            #[trigger] is_dot(weights[i], fed, fed.len() as int, d) && is_sum(d, biases[i], pre2[i])
                && is_activation(pre2[i], act2[i]);
        lemma_dot_is_determined(weights[i], fed, fed.len() as int, d1, d2);
        lemma_activation_is_determined(pre1[i], act1[i], act2[i]);
    }
}

/// Two forward passes on one input agree in their first `layers` layers.
proof fn lemma_forward_agrees<T: Scalar>(
    net: Parameters<T>,
    input: Seq<T>,
    pre1: Seq<Seq<T>>,
    act1: Seq<Seq<T>>,
    pre2: Seq<Seq<T>>,
    act2: Seq<Seq<T>>,
    layers: int,
)
    requires
        has_exact_arithmetic::<T>(),
        net.is_forward(input, pre1, act1),
        net.is_forward(input, pre2, act2),
        0 <= layers <= net.depth(),
    ensures
        forall|l: int| 0 <= l < layers ==> #[trigger] pre1[l] == pre2[l],
        forall|l: int| 0 <= l < layers ==> #[trigger] act1[l] == act2[l],
    decreases layers,
{
    if layers > 0 {
        lemma_forward_agrees(net, input, pre1, act1, pre2, act2, layers - 1);
        let l = layers - 1;
        lemma_layer_is_determined(
            net.weights[l],
            net.biases[l],
            Parameters::feed(input, act1, l),
            pre1[l],
            act1[l],
            pre2[l],
            act2[l],
        );
    }
}

/// With exact arithmetic a forward pass has one outcome: the sums and
/// activations of every layer are determined by the network and the input.
pub proof fn lemma_forward_is_determined<T: Scalar>(
    net: Parameters<T>,
    input: Seq<T>,
    pre1: Seq<Seq<T>>,
    act1: Seq<Seq<T>>,
    pre2: Seq<Seq<T>>,
    act2: Seq<Seq<T>>,
)
    requires
        has_exact_arithmetic::<T>(),
        net.is_forward(input, pre1, act1),
        net.is_forward(input, pre2, act2),
    ensures
        pre1 == pre2,
        act1 == act2,
{
    lemma_forward_agrees(net, input, pre1, act1, pre2, act2, net.depth());
}

/// With exact arithmetic the network has one output for an input: whatever
/// `process` and `process_mutable` return for it is the same.
pub proof fn lemma_output_is_determined<T: Scalar>(
    net: Parameters<T>,
    input: Seq<T>,
    out1: Seq<T>,
    out2: Seq<T>,
)
    requires
        has_exact_arithmetic::<T>(),
        net.is_output(input, out1),
        net.is_output(input, out2),
    ensures
        out1 == out2,
{
    let (pre1, act1) = choose|pre: Seq<Seq<T>>, act: Seq<Seq<T>>|
        #[trigger] net.is_forward(input, pre, act) && out1 == act[net.depth() - 1];
    let (pre2, act2) = choose|pre: Seq<Seq<T>>, act: Seq<Seq<T>>|
        #[trigger] net.is_forward(input, pre, act) && out2 == act[net.depth() - 1];
    lemma_forward_is_determined(net, input, pre1, act1, pre2, act2);
}

/// With exact arithmetic `lead * a * (1 - a)` has one value.
proof fn lemma_slope_is_determined<T: Scalar>(lead: T, a: T, r: T, s: T)
    requires
        has_exact_arithmetic::<T>(),
        is_scaled_by_slope(lead, a, r),
        is_scaled_by_slope(lead, a, s),
    ensures
        r == s,
{
    let (pa, ua, qa) = choose|p: T, u: T, q: T|
        #![trigger is_multiple(lead, a, p), is_difference(u, a, q)]
        is_multiple(lead, a, p) && is_one(u) && is_difference(u, a, q) && is_multiple(p, q, r);
    let (pb, ub, qb) = choose|p: T, u: T, q: T|
        #![trigger is_multiple(lead, a, p), is_difference(u, a, q)]
        is_multiple(lead, a, p) && is_one(u) && is_difference(u, a, q) && is_multiple(p, q, s);
}

/// Two backward passes agree in the layers from `from` on.
proof fn lemma_backward_agrees<T: Scalar>(
    net: Parameters<T>,
    act: Seq<Seq<T>>,
    targets: Seq<T>,
    d1: Seq<Seq<T>>,
    d2: Seq<Seq<T>>,
    from: int,
)
    requires
        has_exact_arithmetic::<T>(),
        net.depth() >= 1,
        net.is_backward(act, targets, d1),
        net.is_backward(act, targets, d2),
        0 <= from < net.depth(),
    ensures
        forall|l: int| from <= l < net.depth() ==> #[trigger] d1[l] == d2[l],
    decreases net.depth() - from,
{
    let last = net.depth() - 1;
    if from == last {
    } else {
        lemma_backward_agrees(net, act, targets, d1, d2, from + 1);
        let l = from;
        assert forall|i: int| 0 <= i < net.width(l + 1) implies d1[l][i] == d2[l][i] by {
            let next = d1[l + 1];
            let through = column(net.weights[l + 1], i);
            let t1 = choose|t: T|
                #[trigger] is_dot(next, through, next.len() as int, t) && is_scaled_by_slope(
                    t,
                    act[l][i],
                    d1[l][i],
                );
            let t2 = choose|t: T|
                #[trigger] is_dot(next, through, next.len() as int, t) && is_scaled_by_slope(
                    t,
                    act[l][i],
                    d2[l][i],
                );
            lemma_dot_is_determined(next, through, next.len() as int, t1, t2);
            lemma_slope_is_determined(t1, act[l][i], d1[l][i], d2[l][i]);
        }
    }
}

/// With exact arithmetic a backward pass has one outcome: the error signals
/// are determined by the network, the activations and the targets.
pub proof fn lemma_backward_is_determined<T: Scalar>(
    net: Parameters<T>,
    act: Seq<Seq<T>>,
    targets: Seq<T>,
    d1: Seq<Seq<T>>,
    d2: Seq<Seq<T>>,
)
    requires
        has_exact_arithmetic::<T>(),
        net.depth() >= 1,
        net.is_backward(act, targets, d1),
        net.is_backward(act, targets, d2),
    ensures
        d1 == d2,
{
    lemma_backward_agrees(net, act, targets, d1, d2, 0);
}

/// With exact arithmetic a step of gradient descent has one outcome: the new
/// weights and biases are determined by the old ones, the input, the
/// activations, the error signals and the learning rate.
pub proof fn lemma_descent_is_determined<T: Scalar>(
    net: Parameters<T>,
    input: Seq<T>,
    act: Seq<Seq<T>>,
    deltas: Seq<Seq<T>>,
    rate: T,
    after1: Parameters<T>,
    after2: Parameters<T>,
)
    requires
        has_exact_arithmetic::<T>(),
        net.well_formed(),
        net.is_descent(input, act, deltas, rate, after1),
        net.is_descent(input, act, deltas, rate, after2),
    ensures
        after1 == after2,
{
    lemma_same_widths(after1, net);
    lemma_same_widths(after2, net);
    assert forall|l: int| 0 <= l < net.depth() implies #[trigger] after1.biases[l]
        == after2.biases[l] by {
    }
    assert forall|l: int| 0 <= l < net.depth() implies #[trigger] after1.weights[l]
        == after2.weights[l] by {
        assert forall|i: int| 0 <= i < net.width(l + 1) implies #[trigger] after1.weights[l][i]
            == after2.weights[l][i] by {
        }
    }
    assert(after1.weights =~= after2.weights);
    assert(after1.biases =~= after2.biases);
}

/// With exact texts a network is written out in one way.
pub proof fn lemma_text_is_determined<T: Scalar>(net: Parameters<T>, s: Seq<char>, t: Seq<char>)
    requires
        has_exact_texts::<T>(),
        net.is_text(s),
        net.is_text(t),
    ensures
        s == t,
{
    let numbers = net.flat();
    let sizes = net.layer_sizes();
    let v1 = choose|values: Seq<Seq<char>>|
        #[trigger] is_rendering(numbers, values) && s == document(sizes, values);
    let v2 = choose|values: Seq<Seq<char>>|
        #[trigger] is_rendering(numbers, values) && t == document(sizes, values);
    assert(v1 =~= v2);
}

/// What was pulled up to any value of `values` was pulled from a line, behind
/// rejected lines.
proof fn lemma_pulled_before<T: Scalar>(
    lines: Seq<Seq<char>>,
    from: int,
    values: Seq<T>,
    upto: int,
    k: int,
) -> (r: (int, int))
    requires
        is_pulled(lines, from, values, upto),
        0 <= k < values.len(),
    ensures
        is_pulled(lines, from, values.take(k), r.0),
        r.0 <= r.1 < lines.len(),
        all_rejected::<T>(lines, r.0, r.1),
        is_reading_of(lines[r.1], Some(values[k])),
    decreases values.len(),
{
    let (mid, at) = choose|mid: int, at: int|
        #![trigger all_rejected::<T>(lines, mid, at)]
        {
            &&& is_pulled(lines, from, values.drop_last(), mid)
            &&& mid <= at < lines.len()
            &&& all_rejected::<T>(lines, mid, at)
            &&& is_reading_of(lines[at], Some(values.last()))
            &&& upto == at + 1
        };
    if k == values.len() - 1 {
        (mid, at)
    } else {
        let r = lemma_pulled_before(lines, from, values.drop_last(), mid, k);
        assert(values.drop_last().take(k) == values.take(k));
        r
    }
}

/// With exact readings, as many values pulled from the same line on are the
/// same values, pulled up to the same line.
proof fn lemma_pulled_is_determined<T: Scalar>(
    lines: Seq<Seq<char>>,
    from: int,
    v1: Seq<T>,
    ua: int,
    v2: Seq<T>,
    ub: int,
)
    requires
        has_exact_readings::<T>(),
        is_pulled(lines, from, v1, ua),
        is_pulled(lines, from, v2, ub),
        v1.len() == v2.len(),
    ensures
        v1 == v2,
        ua == ub,
    decreases v1.len(),
{
    if v1.len() > 0 {
        let (m1, a1) = choose|mid: int, at: int|
            #![trigger all_rejected::<T>(lines, mid, at)]
            {
                &&& is_pulled(lines, from, v1.drop_last(), mid)
                &&& mid <= at < lines.len()
                &&& all_rejected::<T>(lines, mid, at)
                &&& is_reading_of(lines[at], Some(v1.last()))
                &&& ua == at + 1
            };
        let (m2, a2) = choose|mid: int, at: int|
            #![trigger all_rejected::<T>(lines, mid, at)]
            {
                &&& is_pulled(lines, from, v2.drop_last(), mid)
                &&& mid <= at < lines.len()
                &&& all_rejected::<T>(lines, mid, at)
                &&& is_reading_of(lines[at], Some(v2.last()))
                &&& ub == at + 1
            };
        lemma_pulled_is_determined(lines, from, v1.drop_last(), m1, v2.drop_last(), m2);
        assert(v2 =~= v2.drop_last().push(v2.last()));
    } else {
    }
}

/// With exact readings a text is read in one way: as one network, or with one
/// error.
pub proof fn lemma_reading_is_determined<T: Scalar>(
    text: Seq<char>,
    r: Result<Parameters<T>, NetworkError>,
    s: Result<Parameters<T>, NetworkError>,
)
    requires
        has_exact_readings::<T>(),
        is_reading::<T>(text, r),
        is_reading::<T>(text, s),
    ensures
        r == s,
{
    let lines = lines_of(text);
    if !has_no_header(lines) {
        let a1 = choose|at: int| #[trigger] is_first_header(lines, at) && is_reading_after(lines, at, r);
        let sizes = sizes_of_line(lines[a1])->0;
        if valid_sizes(sizes) {
            let total = parameter_count(sizes, sizes.len() - 1);
            let (v1, ua) = choose|values: Seq<T>, upto: int|
                #[trigger] is_pulled(lines, a1 + 1, values, upto) && match r {
                    Ok(p) => p.well_formed() && p.layer_sizes() == sizes && p.flat() == values,
                    Err(e) => {
                        &&& e == NetworkError::MissingValues
                        &&& values.len() < total
                        &&& all_rejected::<T>(lines, upto, lines.len() as int)
                    },
                };
            let (v2, ub) = choose|values: Seq<T>, upto: int|
                #[trigger] is_pulled(lines, a1 + 1, values, upto) && match s {
                    Ok(p) => p.well_formed() && p.layer_sizes() == sizes && p.flat() == values,
                    Err(e) => {
                        &&& e == NetworkError::MissingValues
                        &&& values.len() < total
                        &&& all_rejected::<T>(lines, upto, lines.len() as int)
                    },
                };
            match (r, s) {
                (Ok(p), Ok(q)) => {
                    lemma_same_widths(p, q);
                    lemma_flat_layers_len(p, p.depth());
                    lemma_flat_layers_len(q, q.depth());
                    lemma_pulled_is_determined(lines, a1 + 1, v1, ua, v2, ub);
                    lemma_known_by_flat(p, q);
                },
                (Ok(p), Err(_)) => {
                    lemma_flat_layers_len(p, p.depth());
                    lemma_ended_early(lines, a1 + 1, v1, ua, v2, ub);
                },
                (Err(_), Ok(q)) => {
                    lemma_flat_layers_len(q, q.depth());
                    lemma_ended_early(lines, a1 + 1, v2, ub, v1, ua);
                },
                (Err(_), Err(_)) => {},
            }
        }
    }
}

/// With exact readings, where the lines ran out behind some values, no more
/// values than these were pulled from them.
proof fn lemma_ended_early<T: Scalar>(
    lines: Seq<Seq<char>>,
    from: int,
    more: Seq<T>,
    ua: int,
    fewer: Seq<T>,
    ub: int,
)
    requires
        has_exact_readings::<T>(),
        is_pulled(lines, from, more, ua),
        is_pulled(lines, from, fewer, ub),
        all_rejected::<T>(lines, ub, lines.len() as int),
    ensures
        more.len() <= fewer.len(),
{
    if more.len() > fewer.len() {
        let k = fewer.len() as int;
        let (mid, at) = lemma_pulled_before(lines, from, more, ua, k);
        lemma_pulled_is_determined(lines, from, more.take(k), mid, fewer, ub);
    }
}

} // verus!
