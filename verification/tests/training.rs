use neural_network_lib::error::NetworkError;
use neural_network_lib::network_interface::create;
use neural_network_lib::network_math::{dot, product, product_of, sum};
use neural_network_lib::neural_network::NeuralNetwork;
use neural_network_lib::scalar::{Scalar, Source};

/// Single-precision numbers, as the scalar of the networks under test.
#[derive(Debug, Clone, Copy, PartialEq)]
struct Real(f32);

impl Scalar for Real {
    fn zero() -> Self {
        Real(0.0)
    }

    fn one() -> Self {
        Real(1.0)
    }

    fn plus(self, rhs: Self) -> Self {
        Real(self.0 + rhs.0)
    }

    fn minus(self, rhs: Self) -> Self {
        Real(self.0 - rhs.0)
    }

    fn times(self, rhs: Self) -> Self {
        Real(self.0 * rhs.0)
    }

    fn over(self, rhs: Self) -> Self {
        Real(self.0 / rhs.0)
    }

    fn negated(self) -> Self {
        Real(-self.0)
    }

    fn exp(self) -> Self {
        Real(self.0.exp())
    }

    fn render(self) -> String {
        self.0.to_string()
    }

    fn parse(text: &str) -> Option<Self> {
        text.parse::<f32>().ok().map(Real)
    }
}

fn reals(values: &[f32]) -> Vec<Real> {
    values.iter().map(|&x| Real(x)).collect()
}

fn matrix(rows: &[&[f32]]) -> Vec<Vec<Real>> {
    rows.iter().map(|row| reals(row)).collect()
}

/// The numbers 1, 2, 3 and so on.
struct Counting(f32);

impl Source<Real> for Counting {
    fn draw(&mut self) -> Real {
        self.0 += 1.0;
        Real(self.0)
    }
}

fn network(weights: Vec<Vec<Vec<Real>>>, biases: Vec<Vec<Real>>) -> NeuralNetwork<Real> {
    let buffer: Vec<Vec<Real>> = biases.iter().map(|b| vec![Real(0.0); b.len()]).collect();
    NeuralNetwork { weights, biases, pre_activations: buffer.clone(), activations: buffer }
}

fn squared_error(output: &[Real], target: &[Real]) -> f32 {
    output.iter().zip(target.iter()).map(|(a, y)| (a.0 - y.0) * (a.0 - y.0)).sum()
}

#[test]
fn a_dot_product_adds_the_products_in_order() {
    assert_eq!(dot(&reals(&[1.0, 2.0, 3.0]), &reals(&[4.0, 5.0, 6.0])), Real(32.0));
    assert_eq!(dot(&reals(&[]), &reals(&[])), Real(0.0));
    // In single precision the order of the additions shows.
    assert_eq!(dot(&reals(&[1e8, 1.0, -1e8]), &reals(&[1.0, 1.0, 1.0])), Real(0.0));
    assert_eq!(dot(&reals(&[1e8, -1e8, 1.0]), &reals(&[1.0, 1.0, 1.0])), Real(1.0));
}

#[test]
fn a_product_has_one_dot_product_for_each_row() {
    let mut result = reals(&[9.0, 9.0, 9.0]);
    product(&matrix(&[&[1.0, 2.0], &[3.0, 4.0], &[0.0, -1.0]]), &reals(&[5.0, 6.0]), &mut result);
    assert_eq!(result, reals(&[17.0, 39.0, -6.0]));
}

#[test]
fn a_product_in_a_new_vector_is_the_same_product() {
    let rows = matrix(&[&[1.0, 2.0], &[3.0, 4.0], &[0.0, -1.0]]);
    assert_eq!(product_of(&rows, &reals(&[5.0, 6.0])), reals(&[17.0, 39.0, -6.0]));
    assert_eq!(product_of(&matrix(&[]), &reals(&[5.0, 6.0])), reals(&[]));
}

#[test]
fn a_sum_adds_element_by_element() {
    let mut target = reals(&[1.0, 2.0, 3.0]);
    sum(&mut target, &reals(&[0.5, -2.0, 10.0]));
    assert_eq!(target, reals(&[1.5, 0.0, 13.0]));
}

#[test]
fn a_new_network_has_the_given_shape_and_zeroed_buffers() {
    let net = NeuralNetwork::new(&[3, 4, 2], &mut Counting(0.0)).unwrap();
    assert!(net.is_well_formed());
    assert!(net.ready());
    assert_eq!(net.weights.len(), 2);
    assert_eq!(net.weights[0].len(), 4);
    assert!(net.weights[0].iter().all(|row| row.len() == 3));
    assert_eq!(net.weights[1].len(), 2);
    assert!(net.weights[1].iter().all(|row| row.len() == 4));
    assert_eq!(net.biases.iter().map(|b| b.len()).collect::<Vec<usize>>(), vec![4, 2]);
    assert_eq!(net.pre_activations, matrix(&[&[0.0; 4], &[0.0; 2]]));
    assert_eq!(net.activations, matrix(&[&[0.0; 4], &[0.0; 2]]));
}

#[test]
fn a_new_network_draws_the_weights_of_a_unit_and_then_its_bias() {
    let net = NeuralNetwork::new(&[2, 2, 1], &mut Counting(0.0)).unwrap();
    assert_eq!(net.weights, vec![matrix(&[&[1.0, 2.0], &[4.0, 5.0]]), matrix(&[&[7.0, 8.0]])]);
    assert_eq!(net.biases, matrix(&[&[3.0, 6.0], &[9.0]]));
}

#[test]
fn a_network_needs_two_layers_with_units() {
    for layers in [&[][..], &[3], &[0, 1], &[2, 0, 1], &[2, 3, 0]] {
        let r = NeuralNetwork::new(layers, &mut Counting(0.0));
        assert_eq!(r.err(), Some(NetworkError::InvalidLayers), "{:?}", layers);
    }
}

#[test]
fn an_empty_network_has_no_layers() {
    let net = NeuralNetwork::<Real>::empty();
    assert!(net.weights.is_empty());
    assert!(net.biases.is_empty());
    assert!(net.pre_activations.is_empty());
    assert!(net.activations.is_empty());
    assert!(!net.is_well_formed());
    assert_eq!(net.process(&[]), Err(NetworkError::DimensionMismatch));
}

#[test]
fn one_unit_computes_the_sigmoid_of_its_weighted_input_plus_bias() {
    // 2 * 0.5 - 1 = 0, and the sigmoid of 0 is 1/2.
    let mut net = network(vec![matrix(&[&[2.0]])], matrix(&[&[-1.0]]));
    assert_eq!(net.process(&reals(&[0.5])), Ok(reals(&[0.5])));
    assert_eq!(net.pre_activations, matrix(&[&[0.0]]));
    assert_eq!(net.activations, matrix(&[&[0.0]]));

    assert_eq!(net.process_mutable(&reals(&[1.5])), Ok(reals(&[1.0 / (1.0 + (-2.0f32).exp())])));
    assert_eq!(net.pre_activations, matrix(&[&[2.0]]));
    assert_eq!(net.activations, matrix(&[&[1.0 / (1.0 + (-2.0f32).exp())]]));
}

#[test]
fn both_forward_passes_agree() {
    let mut net = NeuralNetwork::new(&[4, 5, 3, 2], &mut Counting(-20.0)).unwrap();
    for row in net.weights.iter_mut().flatten() {
        for w in row.iter_mut() {
            *w = Real(w.0 / 40.0);
        }
    }
    let input = reals(&[0.25, -0.5, 0.75, 1.0]);
    let plain = net.process(&input).unwrap();
    let cached = net.process_mutable(&input).unwrap();
    assert_eq!(plain.len(), 2);
    assert_eq!(plain, cached);
    assert_eq!(net.activations[2], cached);
    assert_eq!(net.process(&input).unwrap(), plain);
}

#[test]
fn an_input_of_the_wrong_length_is_rejected() {
    let mut net = network(vec![matrix(&[&[1.0, 2.0]])], matrix(&[&[0.0]]));
    let before = net.clone();
    for input in [&[][..], &[1.0], &[1.0, 2.0, 3.0]] {
        assert_eq!(net.process(&reals(input)), Err(NetworkError::DimensionMismatch));
        assert_eq!(net.process_mutable(&reals(input)), Err(NetworkError::DimensionMismatch));
        assert_eq!(
            net.training_step(&reals(input), &reals(&[1.0]), Real(0.5)),
            Err(NetworkError::DimensionMismatch)
        );
    }
    assert_eq!(net.weights, before.weights);
    assert_eq!(net.biases, before.biases);
    assert_eq!(net.pre_activations, before.pre_activations);
    assert_eq!(net.activations, before.activations);
}

#[test]
fn a_target_of_the_wrong_length_is_rejected_and_nothing_changes() {
    let mut net = network(vec![matrix(&[&[1.0, 2.0]])], matrix(&[&[0.0]]));
    let before = net.clone();
    for target in [&[][..], &[1.0, 0.0]] {
        assert_eq!(
            net.training_step(&reals(&[1.0, 2.0]), &reals(target), Real(0.5)),
            Err(NetworkError::DimensionMismatch)
        );
    }
    assert_eq!(net.weights, before.weights);
    assert_eq!(net.biases, before.biases);
    assert_eq!(net.pre_activations, before.pre_activations);
    assert_eq!(net.activations, before.activations);
}

#[test]
fn weights_and_biases_that_disagree_in_length_are_rejected() {
    let ragged = network(vec![matrix(&[&[1.0, 2.0], &[3.0]])], matrix(&[&[0.0, 0.0]]));
    assert!(!ragged.is_well_formed());
    assert_eq!(ragged.process(&reals(&[1.0, 2.0])), Err(NetworkError::DimensionMismatch));

    let short_bias = network(vec![matrix(&[&[1.0], &[3.0]])], matrix(&[&[0.0]]));
    assert!(!short_bias.is_well_formed());
    assert_eq!(short_bias.process(&reals(&[1.0])), Err(NetworkError::DimensionMismatch));

    let broken_chain =
        network(vec![matrix(&[&[1.0], &[3.0]]), matrix(&[&[1.0, 2.0, 3.0]])], matrix(&[&[0.0, 0.0], &[
            0.0,
        ]]));
    assert!(!broken_chain.is_well_formed());
    assert_eq!(broken_chain.process(&reals(&[1.0])), Err(NetworkError::DimensionMismatch));
}

#[test]
fn buffers_that_do_not_fit_are_rejected_where_they_are_written() {
    let mut net = network(vec![matrix(&[&[2.0]])], matrix(&[&[-1.0]]));
    net.activations = vec![];
    assert!(net.is_well_formed());
    assert!(!net.ready());
    assert_eq!(net.process(&reals(&[0.5])), Ok(reals(&[0.5])));
    assert_eq!(net.process_mutable(&reals(&[0.5])), Err(NetworkError::DimensionMismatch));
    assert_eq!(
        net.training_step(&reals(&[0.5]), &reals(&[1.0]), Real(0.5)),
        Err(NetworkError::DimensionMismatch)
    );
}

#[test]
fn a_step_moves_one_unit_against_its_gradient() {
    // a = 1/2; delta = (a - y) * a * (1 - a) = -1/8;
    // the weight moves by -rate * delta * x, the bias by -rate * delta.
    let mut net = network(vec![matrix(&[&[2.0]])], matrix(&[&[-1.0]]));
    assert_eq!(net.training_step(&reals(&[0.5]), &reals(&[1.0]), Real(0.5)), Ok(()));
    assert_eq!(net.weights, vec![matrix(&[&[2.03125]])]);
    assert_eq!(net.biases, matrix(&[&[-0.9375]]));
    assert_eq!(net.pre_activations, matrix(&[&[0.0]]));
    assert_eq!(net.activations, matrix(&[&[0.5]]));
}

#[test]
fn a_step_carries_the_error_back_through_the_weights_of_the_next_layer() {
    // Both units have activation 1/2. The error signal of the output is
    // (1/2 - 1) / 4 = -1/8; that of the hidden unit is (-1/8 * 2) / 4 = -1/16,
    // taken through the weight 2 as it was before the step.
    let mut net =
        network(vec![matrix(&[&[0.0]]), matrix(&[&[2.0]])], matrix(&[&[0.0], &[-1.0]]));
    assert_eq!(net.training_step(&reals(&[4.0]), &reals(&[1.0]), Real(1.0)), Ok(()));
    assert_eq!(net.weights, vec![matrix(&[&[0.25]]), matrix(&[&[2.0625]])]);
    assert_eq!(net.biases, matrix(&[&[0.0625], &[-0.875]]));
    assert_eq!(net.activations, matrix(&[&[0.5], &[0.5]]));
}

#[test]
fn a_step_with_rate_zero_changes_nothing_but_the_buffers() {
    let mut net = network(
        vec![matrix(&[&[0.5, 0.3], &[-0.2, 0.7]]), matrix(&[&[0.4, -0.6]])],
        matrix(&[&[0.1, -0.3], &[0.2]]),
    );
    let before = net.clone();
    assert_eq!(net.training_step(&reals(&[0.8, 0.4]), &reals(&[0.9]), Real(0.0)), Ok(()));
    assert_eq!(net.weights, before.weights);
    assert_eq!(net.biases, before.biases);
    assert_eq!(net.activations[1], before.process(&reals(&[0.8, 0.4])).unwrap());
}

#[test]
fn repeated_steps_bring_the_output_to_the_target() {
    let mut net = network(
        vec![matrix(&[&[0.5, 0.3], &[-0.2, 0.7]]), matrix(&[&[0.4, -0.6]])],
        matrix(&[&[0.1, -0.3], &[0.2]]),
    );
    let input = reals(&[0.8, 0.4]);
    let target = reals(&[0.9]);
    let mut errors = vec![squared_error(&net.process(&input).unwrap(), &target)];
    for _ in 0..10 {
        for _ in 0..200 {
            net.training_step(&input, &target, Real(0.5)).unwrap();
        }
        errors.push(squared_error(&net.process(&input).unwrap(), &target));
    }
    assert!(errors[1] < errors[0], "{:?}", errors);
    assert!(errors[2] < errors[1], "{:?}", errors);
    assert!(errors[10] < errors[2], "{:?}", errors);
    assert!(errors[10] < 1e-4, "{:?}", errors);
}

#[test]
fn a_saturated_unit_has_gradient_zero() {
    // The sigmoid of 200 is 1 in single precision, so a * (1 - a) is 0.
    let mut net = network(vec![matrix(&[&[200.0]])], matrix(&[&[0.0]]));
    assert_eq!(net.training_step(&reals(&[1.0]), &reals(&[0.0]), Real(0.5)), Ok(()));
    assert_eq!(net.activations, matrix(&[&[1.0]]));
    assert_eq!(net.weights, vec![matrix(&[&[200.0]])]);
    assert_eq!(net.biases, matrix(&[&[0.0]]));
}

#[test]
fn the_interface_functions_return() {
    create(&[2, 3, 1], "name");
    let net = network(vec![matrix(&[&[2.0]])], matrix(&[&[-1.0]]));
    neural_network_lib::network_interface::process(&reals(&[0.5]), &net);
    assert_eq!(net, network(vec![matrix(&[&[2.0]])], matrix(&[&[-1.0]])));
}
