use neural_network_lib::error::NetworkError;
use neural_network_lib::neural_network::NeuralNetwork;
use neural_network_lib::scalar::Scalar;
use neural_network_lib::text::{parse_header, parse_size, push_decimal, split_fields, split_lines};

/// Single-precision numbers, as the scalar of the networks under test.
#[derive(Debug, Clone, Copy, PartialEq)]
struct Real(f32);

impl Scalar for Real {
    fn zero() -> Self {
        Real(0.0)
    }

    fn one() -> Self {
        Real(1.0)
    }

    fn plus(self, rhs: Self) -> Self {
        Real(self.0 + rhs.0)
    }

    fn minus(self, rhs: Self) -> Self {
        Real(self.0 - rhs.0)
    }

    fn times(self, rhs: Self) -> Self {
        Real(self.0 * rhs.0)
    }

    fn over(self, rhs: Self) -> Self {
        Real(self.0 / rhs.0)
    }

    fn negated(self) -> Self {
        Real(-self.0)
    }

    fn exp(self) -> Self {
        Real(self.0.exp())
    }

    fn render(self) -> String {
        self.0.to_string()
    }

    fn parse(text: &str) -> Option<Self> {
        text.parse::<f32>().ok().map(Real)
    }
}

fn reals(values: &[f32]) -> Vec<Real> {
    values.iter().map(|&x| Real(x)).collect()
}

fn matrix(rows: &[&[f32]]) -> Vec<Vec<Real>> {
    rows.iter().map(|row| reals(row)).collect()
}

fn network(weights: Vec<Vec<Vec<Real>>>, biases: Vec<Vec<Real>>) -> NeuralNetwork<Real> {
    let buffer: Vec<Vec<Real>> = biases.iter().map(|b| vec![Real(0.0); b.len()]).collect();
    NeuralNetwork { weights, biases, pre_activations: buffer.clone(), activations: buffer }
}

#[test]
fn a_text_with_n_line_feeds_has_n_plus_one_lines() {
    assert_eq!(split_lines(""), vec![""]);
    assert_eq!(split_lines("a"), vec!["a"]);
    assert_eq!(split_lines("a\nb"), vec!["a", "b"]);
    assert_eq!(split_lines("a\n"), vec!["a", ""]);
    assert_eq!(split_lines("\n\n"), vec!["", "", ""]);
    assert_eq!(split_lines("1 2\r\n0.5"), vec!["1 2\r", "0.5"]);
}

#[test]
fn fields_are_separated_by_runs_of_blanks() {
    assert_eq!(split_fields(""), Vec::<String>::new());
    assert_eq!(split_fields("   "), Vec::<String>::new());
    assert_eq!(split_fields("abc"), vec!["abc"]);
    assert_eq!(split_fields("2 3 2 1"), vec!["2", "3", "2", "1"]);
    assert_eq!(split_fields("  2\t3  \r"), vec!["2", "3"]);
    assert_eq!(split_fields("a\x0Cb"), vec!["a", "b"]);
}

#[test]
fn a_layer_size_is_digits_with_an_optional_plus_sign() {
    assert_eq!(parse_size("0"), Some(0));
    assert_eq!(parse_size("7"), Some(7));
    assert_eq!(parse_size("+7"), Some(7));
    assert_eq!(parse_size("007"), Some(7));
    assert_eq!(parse_size("784"), Some(784));
    assert_eq!(parse_size("4294967295"), Some(4294967295));
    assert_eq!(parse_size("0000000000004294967295"), Some(4294967295));
    assert_eq!(parse_size("4294967296"), None);
    assert_eq!(parse_size("99999999999999999999999999"), None);
    assert_eq!(parse_size(""), None);
    assert_eq!(parse_size("+"), None);
    assert_eq!(parse_size("-1"), None);
    assert_eq!(parse_size("++1"), None);
    assert_eq!(parse_size("1+"), None);
    assert_eq!(parse_size("1.5"), None);
    assert_eq!(parse_size("1e3"), None);
    assert_eq!(parse_size("12a"), None);
}

#[test]
fn a_layer_size_is_read_as_the_standard_library_reads_it() {
    let fields = [
        "0", "1", "+1", "-1", "-0", "00", "10", "4294967295", "4294967296", "", "+", "-", " 1",
        "1 ", "1_0", "0x10", "1.0", "٣",
    ];
    for field in fields {
        assert_eq!(parse_size(field), field.parse::<u32>().ok(), "{:?}", field);
    }
}

#[test]
fn a_header_lists_two_or_more_layer_sizes() {
    assert_eq!(parse_header("2 3 2 1"), Some(vec![2, 3, 2, 1]));
    assert_eq!(parse_header("1 1"), Some(vec![1, 1]));
    assert_eq!(parse_header("2\t3"), Some(vec![2, 3]));
    assert_eq!(parse_header(" 2   3 "), Some(vec![2, 3]));
    assert_eq!(parse_header("+2 03"), Some(vec![2, 3]));
    assert_eq!(parse_header("2 0 1"), Some(vec![2, 0, 1]));
    assert_eq!(parse_header("5"), None);
    assert_eq!(parse_header(""), None);
    assert_eq!(parse_header("layer 1"), None);
    assert_eq!(parse_header("2 x"), None);
    assert_eq!(parse_header("0.5 0.25"), None);
    assert_eq!(parse_header("2 4294967296"), None);
}

#[test]
fn decimal_digits_have_no_leading_zeros() {
    for (n, expected) in [(0, "0"), (7, "7"), (10, "10"), (784, "784"), (4294967295, "4294967295")] {
        let mut out = String::from("n=");
        push_decimal(&mut out, n);
        assert_eq!(out, format!("n={}", expected));
    }
}

#[test]
fn values_are_written_unit_by_unit_weights_before_bias() {
    let net = network(
        vec![matrix(&[&[1.0, 2.0], &[3.0, 4.0]]), matrix(&[&[5.0, 6.0]])],
        matrix(&[&[10.0, 20.0], &[30.0]]),
    );
    assert_eq!(net.serialize(), "2 2 1\n1\n2\n10\n3\n4\n20\n5\n6\n30");
}

#[test]
fn values_are_read_unit_by_unit_weights_before_bias() {
    let net = NeuralNetwork::<Real>::deserialize("2 2 1\n1\n2\n10\n3\n4\n20\n5\n6\n30").unwrap();
    assert_eq!(net.weights, vec![matrix(&[&[1.0, 2.0], &[3.0, 4.0]]), matrix(&[&[5.0, 6.0]])]);
    assert_eq!(net.biases, matrix(&[&[10.0, 20.0], &[30.0]]));
    assert_eq!(net.pre_activations, matrix(&[&[0.0, 0.0], &[0.0]]));
    assert_eq!(net.activations, matrix(&[&[0.0, 0.0], &[0.0]]));
}

#[test]
fn a_written_network_is_read_back() {
    let net = network(
        vec![matrix(&[&[0.1, -0.2, 1e-10], &[3.5e20, -0.0, 0.333_333_34]]), matrix(&[&[
            f32::MAX,
            f32::MIN_POSITIVE,
        ]])],
        matrix(&[&[-1.5, 2.25], &[1e-40]]),
    );
    let text = net.serialize();
    let back = NeuralNetwork::<Real>::deserialize(&text).unwrap();
    assert_eq!(back, net);
    assert_eq!(back.weights, net.weights);
    assert_eq!(back.biases, net.biases);
    assert_eq!(back.serialize(), text);
}

#[test]
fn the_first_header_is_taken_and_later_ones_are_passed_over() {
    let net = NeuralNetwork::<Real>::deserialize("x\n1 1\n0.5\n2 2\n0.25\n").unwrap();
    assert_eq!(net.weights, vec![matrix(&[&[0.5]])]);
    assert_eq!(net.biases, matrix(&[&[0.25]]));
}

#[test]
fn a_single_number_is_no_header() {
    let net = NeuralNetwork::<Real>::deserialize("7\n1 1\n0.5\n0.25").unwrap();
    assert_eq!(net.weights, vec![matrix(&[&[0.5]])]);
    assert_eq!(net.biases, matrix(&[&[0.25]]));
}

#[test]
fn values_behind_the_last_one_are_not_read() {
    let net = NeuralNetwork::<Real>::deserialize("1 1\n0.5\n0.25\n0.125\n9").unwrap();
    assert_eq!(net.weights, vec![matrix(&[&[0.5]])]);
    assert_eq!(net.biases, matrix(&[&[0.25]]));
}

#[test]
fn a_line_is_a_value_only_as_a_whole() {
    let r = NeuralNetwork::<Real>::deserialize("1 1\n 0.5\n0.25 \n0.125\n");
    assert_eq!(r.err(), Some(NetworkError::MissingValues));
    let net = NeuralNetwork::<Real>::deserialize("1 1\n 0.5\n0.25 \n0.125\n1e1\n").unwrap();
    assert_eq!(net.weights, vec![matrix(&[&[0.125]])]);
    assert_eq!(net.biases, matrix(&[&[10.0]]));
}

#[test]
fn a_text_without_a_header_is_rejected() {
    for text in ["", "\n", "layers\n0.5\n0.25", "5\n0.5\n0.25", "1.0 2.0\n0.5"] {
        let r = NeuralNetwork::<Real>::deserialize(text);
        assert_eq!(r.err(), Some(NetworkError::MissingHeader), "{:?}", text);
    }
}

#[test]
fn a_text_that_ends_too_early_is_rejected() {
    for text in ["1 1", "1 1\n", "1 1\n0.5", "1 1\n0.5\nbias\n", "2 1\n0.5\n0.25\n"] {
        let r = NeuralNetwork::<Real>::deserialize(text);
        assert_eq!(r.err(), Some(NetworkError::MissingValues), "{:?}", text);
    }
}

#[test]
fn a_header_with_an_empty_layer_is_rejected() {
    for text in ["2 0 1\n0.5\n0.25", "0 1\n0.5", "1 0"] {
        let r = NeuralNetwork::<Real>::deserialize(text);
        assert_eq!(r.err(), Some(NetworkError::InvalidLayers), "{:?}", text);
    }
}

#[test]
fn equal_networks_may_differ_in_their_buffers() {
    let a = network(vec![matrix(&[&[0.5]])], matrix(&[&[0.25]]));
    let mut b = a.clone();
    b.pre_activations = vec![];
    b.activations = matrix(&[&[7.0]]);
    assert_eq!(a, b);

    let mut c = a.clone();
    c.weights[0][0][0] = Real(0.75);
    assert_ne!(a, c);

    let mut d = a.clone();
    d.biases[0][0] = Real(0.75);
    assert_ne!(a, d);

    let mut e = a.clone();
    e.biases[0].push(Real(0.0));
    assert_ne!(a, e);
}
