use neural_network_lib::error::NetworkError;
use neural_network_lib::neural_network::NeuralNetwork;
use neural_network_lib::scalar::{Scalar, Source};

/// Single-precision numbers, as the scalar of the networks under test.
#[derive(Debug, Clone, Copy, PartialEq)]
struct Real(f32);

impl Scalar for Real {
    fn zero() -> Self {
        Real(0.0)
    }

    fn one() -> Self {
        Real(1.0)
    }

    fn plus(self, rhs: Self) -> Self {
        Real(self.0 + rhs.0)
    }

    fn minus(self, rhs: Self) -> Self {
        Real(self.0 - rhs.0)
    }

    fn times(self, rhs: Self) -> Self {
        Real(self.0 * rhs.0)
    }

    fn over(self, rhs: Self) -> Self {
        Real(self.0 / rhs.0)
    }

    fn negated(self) -> Self {
        Real(-self.0)
    }

    fn exp(self) -> Self {
        Real(self.0.exp())
    }

    fn render(self) -> String {
        self.0.to_string()
    }

    fn parse(text: &str) -> Option<Self> {
        text.parse::<f32>().ok().map(Real)
    }
}

/// Initial values drawn uniformly from -0.2 to 0.2.
struct Uniform;

impl Source<Real> for Uniform {
    fn draw(&mut self) -> Real {
        Real((rand::random::<f32>() * 2.0 - 1.0) * 0.2)
    }
}

fn reals(values: &[f32]) -> Vec<Real> {
    values.iter().map(|&x| Real(x)).collect()
}

fn matrix(rows: &[&[f32]]) -> Vec<Vec<Real>> {
    rows.iter().map(|row| reals(row)).collect()
}

fn get_network() -> NeuralNetwork<Real> {
    NeuralNetwork {
        weights: vec![
            matrix(&[&[0.1, 0.2], &[0.2, 0.3], &[0.4, 0.5]]),
            matrix(&[&[0.5, 0.6, 0.7], &[0.5, 0.1, 0.2]]),
            matrix(&[&[0.3, 0.4]]),
        ],
        biases: matrix(&[&[-0.5, 0.3, 0.5], &[0.2, -0.9], &[0.6]]),
        pre_activations: matrix(&[&[0.0, 0.0, 0.0], &[0.0, 0.0], &[0.0]]),
        activations: matrix(&[&[0.0, 0.0, 0.0], &[0.0, 0.0], &[0.0]]),
    }
}

#[test]
fn test_sigmoid_activation_function() {
    assert!((NeuralNetwork::activation(Real(0.33)).0 - 0.581759).abs() < 0.001);
    assert!((NeuralNetwork::activation(Real(0.976)).0 - 0.72631).abs() < 0.001);
    assert!((NeuralNetwork::activation(Real(0.01)).0 - 0.50249).abs() < 0.001);
    assert!((NeuralNetwork::activation(Real(-0.75)).0 - 0.32082).abs() < 0.001);
    assert!((NeuralNetwork::activation(Real(0.0)).0 - 0.5).abs() < 0.001);
}

#[test]
fn test_process_network() {
    let mut network = get_network();

    let expected: f32 = 0.7287013674285573;
    let result1 = network.process(&reals(&[0.1, 0.8])).unwrap();
    let result2 = network.process_mutable(&reals(&[0.1, 0.8])).unwrap();

    assert_eq!(result1.len(), 1);
    assert_eq!(result2.len(), 1);
    assert!((result1[0].0 - expected).abs() < 0.001);
    assert!((result2[0].0 - expected).abs() < 0.001);
    assert_eq!(result1[0], result2[0]);
}

#[test]
fn test_serialize() {
    let network = get_network();
    let result = network.serialize();
    let expected = "2 3 2 1\n\
        0.1\n0.2\n-0.5\n0.2\n0.3\n0.3\n0.4\n0.5\n0.5\n0.5\n0.6\n0.7\n0.2\n0.5\n0.1\n0.2\n-0.9\n0.3\n0.4\n0.6";

    assert_eq!(result, expected);
}

#[test]
fn test_serialize_deserialize() {
    let network = NeuralNetwork::new(&[5, 7, 10, 10], &mut Uniform).unwrap();

    let serialized = network.serialize();
    let deserialized = NeuralNetwork::deserialize(&serialized).unwrap();

    assert_eq!(deserialized, network);
}

#[test]
fn test_deserialize_ignores_non_numeric_values() {
    let serialized = "\nlayers\n1 1 1\n\nlayer 1\n0.99\n0.33\n\noutput layer\n0.13\n3.14\n\nthis should be ignored\n";

    let deserialized = NeuralNetwork::deserialize(serialized).unwrap();
    let expected = NeuralNetwork {
        weights: vec![matrix(&[&[0.99]]), matrix(&[&[0.13]])],
        biases: matrix(&[&[0.33], &[3.14]]),
        pre_activations: vec![],
        activations: vec![],
    };

    assert_eq!(deserialized, expected);
}

#[test]
fn test_learning_step() {
    let mut network = NeuralNetwork::new(&[2, 2, 2], &mut Uniform).unwrap();
    network.weights = vec![
        matrix(&[&[0.15, 0.20], &[0.25, 0.30]]),
        matrix(&[&[0.40, 0.45], &[0.50, 0.55]]),
    ];

    network.biases = matrix(&[&[0.35, 0.35], &[0.60, 0.60]]);

    let input = reals(&[0.05, 0.10]);
    let target = reals(&[0.01, 0.99]);

    let result = network.process_mutable(&input);

    println!("RESULT: {:?}", result);

    network.training_step(&input, &target, Real(0.5)).unwrap();

    println!("new weights: {:?}", network.weights);
    println!("new biases: {:?}", network.biases);
}

#[test]
fn test_learning_step2() {
    let mut network = NeuralNetwork::new(&[2, 2, 1], &mut Uniform).unwrap();
    network.weights = vec![matrix(&[&[0.5, 0.3], &[-0.2, 0.7]]), matrix(&[&[0.4, -0.6]])];
    network.biases = matrix(&[&[0.1, -0.3], &[0.2]]);

    let input = reals(&[0.8, 0.4]);
    let target = reals(&[0.9]);

    println!("result {:?}", network.process_mutable(&input));
    network.training_step(&input, &target, Real(0.1)).unwrap();

    println!("new weights: {:?}", network.weights);
    println!("new biases: {:?}", network.biases);
}

#[test]
fn process_rejects_an_input_of_the_wrong_length() {
    let network = get_network();
    assert_eq!(network.process(&reals(&[0.1])), Err(NetworkError::DimensionMismatch));
    assert_eq!(network.process(&reals(&[0.1, 0.2, 0.3])), Err(NetworkError::DimensionMismatch));
}
