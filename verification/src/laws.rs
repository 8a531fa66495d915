//! What holds of the text format: a written network is read back, a network
//! is known by its layer sizes and its values, and lines without meaning
//! change nothing.

use crate::error::NetworkError;
use crate::model::{flat_layers, flat_units, valid_sizes, Parameters};
use crate::scalar::{is_reading_of, is_text_of, Scalar};
use crate::serialization::{
    all_rejected, document, is_pulled, is_reading, is_reading_after, is_rendering,
    parameter_count,
};
use crate::text::{
    has_no_header, header_of, is_first_header, lemma_header_reads_back, lemma_lines_of_join,
    lines_of, sizes_of_line,
};
use vstd::prelude::*;

verus! {

/// The text of `x` has no line feed, and is read back as `x` and as nothing
/// else.
pub open spec fn reads_back<T: Scalar>(x: T) -> bool {
    forall|text: Seq<char>| #[trigger]
        is_text_of(x, text) ==> {
            &&& !text.contains('\n')
            &&& forall|r: Option<T>| #[trigger] is_reading_of(text, r) ==> r == Some(x)
        }
}

/// Two sequences that end in parts of one length, and are equal, are equal
/// part by part.
proof fn lemma_split<T>(a: Seq<T>, b: Seq<T>, c: Seq<T>, d: Seq<T>)
    requires
        a + b == c + d,
        b.len() == d.len(),
    ensures
        a == c,
        b == d,
{
    assert((c + d).len() == c.len() + d.len());
    assert forall|i: int| 0 <= i < a.len() implies a[i] == c[i] by {
        assert((c + d)[i] == c[i]);
    }
    assert forall|i: int| 0 <= i < b.len() implies b[i] == d[i] by {
        assert((c + d)[c.len() + i] == d[i]);
    }
}

/// `units` units with `fed` weights each hold `units * (fed + 1)` values.
proof fn lemma_flat_units_len<T>(weights: Seq<Seq<T>>, biases: Seq<T>, units: int, fed: int)
    requires
        0 <= units,
        forall|i: int| 0 <= i < units ==> (#[trigger] weights[i]).len() == fed,
    ensures
        flat_units(weights, biases, units).len() == units * (fed + 1),
    decreases units,
{
    if units > 0 {
        lemma_flat_units_len(weights, biases, units - 1, fed);
        assert((units - 1) * (fed + 1) + fed + 1 == units * (fed + 1)) by (nonlinear_arith);
    }
}

/// The first `layers` layers of a well-formed network hold as many values
/// as their sizes say.
pub proof fn lemma_flat_layers_len<T>(net: Parameters<T>, layers: int)
    requires
        net.well_formed(),
        0 <= layers <= net.depth(),
    ensures
        flat_layers(net.weights, net.biases, layers).len() == parameter_count(
            net.layer_sizes(),
            layers,
        ),
    decreases layers,
{
    if layers > 0 {
        lemma_flat_layers_len(net, layers - 1);
        let l = layers - 1;
        lemma_flat_units_len(net.weights[l], net.biases[l], net.width(layers), net.width(l));
    }
}

/// Units that are written out alike are alike.
proof fn lemma_same_units<T>(
    w1: Seq<Seq<T>>,
    b1: Seq<T>,
    w2: Seq<Seq<T>>,
    b2: Seq<T>,
    units: int,
    fed: int,
)
    requires
        0 <= units,
        forall|i: int| 0 <= i < units ==> (#[trigger] w1[i]).len() == fed,
        forall|i: int| 0 <= i < units ==> (#[trigger] w2[i]).len() == fed,
        flat_units(w1, b1, units) == flat_units(w2, b2, units),
    ensures
        forall|i: int| 0 <= i < units ==> #[trigger] w1[i] == w2[i],
        forall|i: int| 0 <= i < units ==> #[trigger] b1[i] == b2[i],
    decreases units,
{
    if units > 0 {
        let u = units - 1;
        let t1 = w1[u].push(b1[u]);
        let t2 = w2[u].push(b2[u]);
        lemma_split(flat_units(w1, b1, u), t1, flat_units(w2, b2, u), t2);
        lemma_same_units(w1, b1, w2, b2, u, fed);
        assert(t2.drop_last() == w2[u]);
        assert(t2.last() == b2[u]);
    }
}

/// Two well-formed networks with the same layer sizes that are written out
/// alike are alike in their first `layers` layers.
proof fn lemma_same_layers<T>(p: Parameters<T>, q: Parameters<T>, layers: int)
    requires
        p.well_formed(),
        q.well_formed(),
        p.layer_sizes() == q.layer_sizes(),
        0 <= layers <= p.depth(),
        flat_layers(p.weights, p.biases, layers) == flat_layers(q.weights, q.biases, layers),
    ensures
        forall|l: int| 0 <= l < layers ==> #[trigger] p.weights[l] == q.weights[l],
        forall|l: int| 0 <= l < layers ==> #[trigger] p.biases[l] == q.biases[l],
    decreases layers,
{
    lemma_same_widths(p, q);
    if layers > 0 {
        let l = layers - 1;
        let units = p.width(layers);
        let fed = p.width(l);
        lemma_flat_units_len(p.weights[l], p.biases[l], units, fed);
        lemma_flat_units_len(q.weights[l], q.biases[l], units, fed);
        lemma_split(
            flat_layers(p.weights, p.biases, l),
            flat_units(p.weights[l], p.biases[l], units),
            flat_layers(q.weights, q.biases, l),
            flat_units(q.weights[l], q.biases[l], units),
        );
        lemma_same_units(p.weights[l], p.biases[l], q.weights[l], q.biases[l], units, fed);
        lemma_same_layers(p, q, l);
    }
}

/// Networks with the same layer sizes have the same depth and widths.
pub(crate) proof fn lemma_same_widths<T>(p: Parameters<T>, q: Parameters<T>)
    requires
        p.well_formed(),
        q.well_formed(),
        p.layer_sizes() == q.layer_sizes(),
    ensures
        p.depth() == q.depth(),
        forall|k: int| 0 <= k <= p.depth() ==> #[trigger] p.width(k) == q.width(k),
{
    assert(q.layer_sizes().len() == q.depth() + 1);
    assert forall|k: int| 0 <= k <= p.depth() implies #[trigger] p.width(k) == q.width(k) by {
        assert(q.layer_sizes()[k] == q.width(k) as u32);
    }
}

/// A well-formed network is known by its layer sizes and its values in the
/// order in which they are written out.
pub proof fn lemma_known_by_flat<T>(p: Parameters<T>, q: Parameters<T>)
    requires
        p.well_formed(),
        q.well_formed(),
        p.layer_sizes() == q.layer_sizes(),
        p.flat() == q.flat(),
    ensures
        p == q,
{
    lemma_same_widths(p, q);
    lemma_same_layers(p, q, p.depth());
    assert(p.weights =~= q.weights);
    assert(p.biases =~= q.biases);
}

/// Where every line from `from` on is the text of a number that reads back,
/// the values pulled from them are these numbers, one from each line in turn.
proof fn lemma_pulled_in_turn<T: Scalar>(
    lines: Seq<Seq<char>>,
    numbers: Seq<T>,
    from: int,
    values: Seq<T>,
    upto: int,
)
    requires
        0 <= from,
        lines.len() == from + numbers.len(),
        forall|k: int|
            0 <= k < numbers.len() ==> is_text_of(#[trigger] numbers[k], lines[from + k])
                && reads_back(numbers[k]),
        is_pulled(lines, from, values, upto),
    ensures
        values.len() <= numbers.len(),
        upto == from + values.len(),
        forall|k: int| 0 <= k < values.len() ==> #[trigger] values[k] == numbers[k],
    decreases values.len(),
{
    if values.len() > 0 {
        let (mid, at) = choose|mid: int, at: int|
            #![trigger all_rejected::<T>(lines, mid, at)]
            {
                &&& is_pulled(lines, from, values.drop_last(), mid)
                &&& mid <= at < lines.len()
                &&& all_rejected::<T>(lines, mid, at)
                &&& is_reading_of(lines[at], Some(values.last()))
                &&& upto == at + 1
            };
        lemma_pulled_in_turn(lines, numbers, from, values.drop_last(), mid);
        assert forall|i: int| 0 <= i < values.len() implies #[trigger] values[i] == numbers[i] by {
            if i < values.len() - 1 {
                assert(values.drop_last()[i] == numbers[i]);
            }
        }
    }
}

/// The text that `serialize` writes for a well-formed network is read by
/// `deserialize` as that network: the same weights and the same biases. It
/// holds for every network whose values read back from their texts.
pub proof fn lemma_deserialize_inverts_serialize<T: Scalar>(
    net: Parameters<T>,
    text: Seq<char>,
    r: Result<Parameters<T>, NetworkError>,
)
    requires
        net.well_formed(),
        forall|k: int| 0 <= k < net.flat().len() ==> reads_back(#[trigger] net.flat()[k]),
        net.is_text(text),
        is_reading::<T>(text, r),
    ensures
        r == Ok::<Parameters<T>, NetworkError>(net),
{
    let sizes = net.layer_sizes();
    let numbers = net.flat();
    let values = choose|values: Seq<Seq<char>>|
        #[trigger] is_rendering(numbers, values) && text == document(sizes, values);
    let parts = seq![header_of(sizes)] + values;
    lemma_header_reads_back(sizes);
    lemma_lines_of_join(parts);
    let lines = lines_of(text);
    assert(sizes_of_line(lines[0]) is Some);
    let at = choose|at: int| #[trigger] is_first_header(lines, at) && is_reading_after(lines, at, r);
    lemma_flat_layers_len(net, net.depth());
    let (read, upto) = choose|read: Seq<T>, upto: int|
        #[trigger] is_pulled(lines, 1, read, upto) && match r {
            Ok(p) => p.well_formed() && p.layer_sizes() == sizes && p.flat() == read,
            Err(e) => {
                &&& e == NetworkError::MissingValues
                &&& read.len() < parameter_count(sizes, sizes.len() - 1)
                &&& all_rejected::<T>(lines, upto, lines.len() as int)
            },
        };
    lemma_pulled_in_turn(lines, numbers, 1, read, upto);
    match r {
        Ok(p) => {
            lemma_same_widths(p, net);
            lemma_flat_layers_len(p, p.depth());
            assert(read =~= numbers);
            lemma_known_by_flat(p, net);
        },
        Err(_) => {},
    }
}

/// Where line `i` of a text stands once one more line has been put before
/// line `k`.
pub open spec fn moved(i: int, k: int) -> int {
    if i < k {
        i
    } else {
        i + 1
    }
}

/// Values that were pulled from some lines are pulled, as they are, from
/// these lines with one more rejected line among them.
proof fn lemma_pulled_past_noise<T: Scalar>(
    lines: Seq<Seq<char>>,
    k: int,
    line: Seq<char>,
    from: int,
    values: Seq<T>,
    upto: int,
)
    requires
        0 <= k <= lines.len(),
        0 <= from,
        is_reading_of::<T>(line, None),
        is_pulled(lines, from, values, upto),
    ensures
        from <= upto,
        is_pulled(lines.insert(k, line), moved(from - 1, k) + 1, values, moved(upto - 1, k) + 1),
    decreases values.len(),
{
    let noisy = lines.insert(k, line);
    lines.insert_ensures(k, line);
    if values.len() > 0 {
        let (mid, at) = choose|mid: int, at: int|
            #![trigger all_rejected::<T>(lines, mid, at)]
            {
                &&& is_pulled(lines, from, values.drop_last(), mid)
                &&& mid <= at < lines.len()
                &&& all_rejected::<T>(lines, mid, at)
                &&& is_reading_of(lines[at], Some(values.last()))
                &&& upto == at + 1
            };
        lemma_pulled_past_noise(lines, k, line, from, values.drop_last(), mid);
        let mid2 = moved(mid - 1, k) + 1;
        let at2 = moved(at, k);
        assert(noisy[at2] == lines[at]);
        assert(all_rejected::<T>(noisy, mid2, at2)) by {
            assert forall|i: int| mid2 <= i < at2 implies is_reading_of::<T>(
                #[trigger] noisy[i],
                None,
            ) by {
                if i < k {
                    assert(noisy[i] == lines[i]);
                    assert(is_reading_of::<T>(lines[i], None));
                } else if i > k {
                    assert(noisy[i] == lines[i - 1]);
                    assert(is_reading_of::<T>(lines[i - 1], None));
                } else {
                    assert(noisy[i] == line);
                }
            }
        }
        assert(is_pulled(noisy, moved(from - 1, k) + 1, values.drop_last(), mid2));
    }
}

/// A line that is no header and holds no value changes nothing: whatever a
/// text is read as, it is read as the same with such a line put anywhere into
/// it. `noisy` is the text with `line` as its line `k`.
pub proof fn lemma_noise_is_passed_over<T: Scalar>(
    text: Seq<char>,
    noisy: Seq<char>,
    k: int,
    line: Seq<char>,
    r: Result<Parameters<T>, NetworkError>,
)
    requires
        0 <= k <= lines_of(text).len(),
        lines_of(noisy) == lines_of(text).insert(k, line),
        sizes_of_line(line) is None,
        is_reading_of::<T>(line, None),
        is_reading::<T>(text, r),
    ensures
        is_reading::<T>(noisy, r),
{
    let lines = lines_of(text);
    let more = lines_of(noisy);
    lines.insert_ensures(k, line);
    assert forall|i: int| 0 <= i < lines.len() implies #[trigger] more[moved(i, k)] == lines[i] by {}
    if has_no_header(lines) {
        assert forall|i: int| 0 <= i < more.len() implies (#[trigger] sizes_of_line(more[i])) is None by {
            if i < k {
                assert(more[moved(i, k)] == lines[i]);
            } else if i > k {
                assert(more[moved(i - 1, k)] == lines[i - 1]);
            }
        }
    } else {
        let at = choose|at: int| #[trigger] is_first_header(lines, at) && is_reading_after(lines, at, r);
        let at2 = moved(at, k);
        assert(more[at2] == lines[at]);
        assert(is_first_header(more, at2)) by {
            assert forall|i: int| 0 <= i < at2 implies (#[trigger] sizes_of_line(more[i])) is None by {
                if i < k {
                    assert(more[moved(i, k)] == lines[i]);
                } else if i > k {
                    assert(more[moved(i - 1, k)] == lines[i - 1]);
                }
            }
        }
        let sizes = sizes_of_line(lines[at])->0;
        if valid_sizes(sizes) {
            let (values, upto) = choose|values: Seq<T>, upto: int|
                #[trigger] is_pulled(lines, at + 1, values, upto) && match r {
                    Ok(p) => p.well_formed() && p.layer_sizes() == sizes && p.flat() == values,
                    Err(e) => {
                        &&& e == NetworkError::MissingValues
                        &&& values.len() < parameter_count(sizes, sizes.len() - 1)
                        &&& all_rejected::<T>(lines, upto, lines.len() as int)
                    },
                };
            lemma_pulled_past_noise(lines, k, line, at + 1, values, upto);
            let upto2 = moved(upto - 1, k) + 1;
            assert(is_pulled(more, at2 + 1, values, upto2));
            if r is Err {
                assert forall|i: int| upto2 <= i < more.len() implies is_reading_of::<T>(
                    #[trigger] more[i],
                    None,
                ) by {
                    if i < k {
                        assert(more[moved(i, k)] == lines[i]);
                        assert(is_reading_of::<T>(lines[i], None));
                    } else if i > k {
                        assert(more[moved(i - 1, k)] == lines[i - 1]);
                        assert(is_reading_of::<T>(lines[i - 1], None));
                    }
                }
            }
            assert(is_reading_after(more, at2, r));
        } else {
            assert(is_reading_after(more, at2, r));
        }
        assert(!has_no_header(more)) by {
            assert(sizes_of_line(more[at2]) is Some);
        }
    }
}

} // verus!
