use std::cell::Cell;
use wiggle_ml::matrix::Mat;
use wiggle_ml::network::NN;

fn sigmoid(x: f32) -> f32 {
    1.0 / (1.0 + (-x).exp())
}

fn mat(rows: usize, cols: usize, vals: &[f32]) -> Mat<f32> {
    let mut m = Mat::new(rows, cols);
    m.es = vals.to_vec();
    m
}

/// Fresh parameters in [0, 1) from a fixed linear congruential sequence.
fn seeded(arch: &[usize], seed: u64) -> NN<f32> {
    let state = Cell::new(seed);
    let next = |_: f32| {
        let x = (state.get() * 1103515245 + 12345) % (1 << 31);
        state.set(x);
        x as f32 / (1u64 << 31) as f32
    };
    let mut nn = NN::new(arch);
    nn.apply_weights(&next);
    nn.apply_biases(&next);
    nn
}

fn xor_data() -> (Mat<f32>, Mat<f32>) {
    (
        mat(4, 2, &[0., 0., 0., 1., 1., 0., 1., 1.]),
        mat(4, 1, &[0., 1., 1., 0.]),
    )
}

#[test]
fn new_builds_the_architecture() {
    let nn: NN<f32> = NN::new(&[2, 3, 1]);
    assert_eq!(nn.layer_count(), 2);
    assert_eq!(nn.get_ref_weights(0).rows, 2);
    assert_eq!(nn.get_ref_weights(0).cols, 3);
    assert_eq!(nn.get_ref_biases(0).rows, 1);
    assert_eq!(nn.get_ref_biases(0).cols, 3);
    assert_eq!(nn.get_ref_weights(1).rows, 3);
    assert_eq!(nn.get_ref_weights(1).cols, 1);
    assert_eq!(nn.get_ref_input().cols, 2);
    assert_eq!(nn.get_ref_act(1).cols, 3);
    assert_eq!(nn.get_ref_output().cols, 1);
    assert!(nn.get_ref_weights(0).es.iter().all(|v| *v == 0.0));
    assert!(!nn.inputs_shown());
}

#[test]
fn zero_network_outputs_one_half() {
    let mut nn: NN<f32> = NN::new(&[2, 2, 1]);
    nn.set_input(&mat(1, 2, &[3., -7.]));
    nn.forward(&sigmoid);
    assert_eq!(nn.get_ref_output().es, vec![0.5]);
    assert_eq!(nn.get_ref_act(1).es, vec![0.5, 0.5]);
}

#[test]
fn input_and_output_rows_change_in_place() {
    let mut nn: NN<f32> = NN::new(&[2, 1]);
    nn.get_mut_input().set_at(0, 1, 4.0);
    assert_eq!(nn.get_ref_input().es, vec![0.0, 4.0]);
    nn.get_mut_output().set_at(0, 0, 0.25);
    assert_eq!(nn.get_ref_output().es, vec![0.25]);
}

#[test]
fn outputs_stay_strictly_between_zero_and_one() {
    let mut nn: NN<f32> = NN::new(&[1, 1]);
    nn.fill(1.0);
    for x in [-8.0, -1.0, 0.0, 1.0, 8.0] {
        nn.forward_with(&mat(1, 1, &[x]), &sigmoid);
        let y = nn.get_ref_output().es[0];
        assert!(0.0 < y && y < 1.0, "{x} gives {y}");
    }
}

#[test]
fn forward_computes_one_layer() {
    let mut nn: NN<f32> = NN::new(&[2, 1]);
    nn.fill(0.5);
    nn.forward_with(&mat(1, 2, &[1., 2.]), &sigmoid);
    assert_eq!(nn.get_ref_input().es, vec![1., 2.]);
    assert_eq!(nn.get_ref_output().es, vec![sigmoid(2.0)]);
}

#[test]
fn forward_twice_gives_the_same_output() {
    let mut nn = seeded(&[2, 3, 2], 7).with_input(&mat(1, 2, &[0.3, 0.9]));
    nn.forward(&sigmoid);
    let first = nn.get_ref_output().es.clone();
    let hidden = nn.get_ref_act(1).es.clone();
    nn.forward(&sigmoid);
    assert_eq!(nn.get_ref_output().es, first);
    assert_eq!(nn.get_ref_act(1).es, hidden);
}

#[test]
fn cost_of_zero_network_is_a_quarter() {
    let (ti, to) = xor_data();
    let mut nn: NN<f32> = NN::new(&[2, 2, 1]);
    assert_eq!(nn.cost(&ti, &to, &sigmoid), 0.25);
    assert_eq!(nn.get_ref_input().es, vec![1., 1.]);
}

#[test]
fn cost_sums_over_outputs_and_averages_over_examples() {
    let ti = mat(2, 1, &[0., 0.]);
    let to = mat(2, 2, &[1., 0., 0., 0.]);
    let mut nn: NN<f32> = NN::new(&[1, 2]);
    assert_eq!(nn.cost(&ti, &to, &sigmoid), 0.5);
}

#[test]
fn learn_steps_against_the_gradient() {
    let mut nn: NN<f32> = NN::new(&[2, 1]).filled_with(1.0);
    let g: NN<f32> = NN::new(&[2, 1]).filled_with(0.5);
    nn.learn(&g, 0.1);
    let stepped = 1.0f32 - 0.5f32 * 0.1f32;
    assert_eq!(nn.get_ref_weights(0).es, vec![stepped, stepped]);
    assert_eq!(nn.get_ref_biases(0).es, vec![stepped]);
}

#[test]
fn backprop_on_a_single_unit() {
    let ti = mat(1, 1, &[1.]);
    let to = mat(1, 1, &[1.]);
    let mut nn: NN<f32> = NN::new(&[1, 1]);
    let mut g: NN<f32> = NN::new(&[1, 1]);
    nn.backprop(&mut g, &ti, &to, &sigmoid);
    assert_eq!(g.get_ref_weights(0).es, vec![-0.25]);
    assert_eq!(g.get_ref_biases(0).es, vec![-0.25]);
    assert_eq!(g.get_ref_output().es, vec![-0.5]);
}

#[test]
fn backprop_averages_over_examples() {
    let ti = mat(2, 1, &[1., 0.]);
    let to = mat(2, 1, &[1., 1.]);
    let mut nn: NN<f32> = NN::new(&[1, 1]);
    let mut g: NN<f32> = NN::new(&[1, 1]);
    nn.backprop(&mut g, &ti, &to, &sigmoid);
    assert_eq!(g.get_ref_weights(0).es, vec![-0.125]);
    assert_eq!(g.get_ref_biases(0).es, vec![-0.25]);
}

#[test]
fn finite_diff_on_a_single_unit() {
    let ti = mat(1, 1, &[1.]);
    let to = mat(1, 1, &[1.]);
    let mut nn: NN<f32> = NN::new(&[1, 1]);
    let mut g: NN<f32> = NN::new(&[1, 1]);
    nn.finite_diff(&mut g, &ti, &to, 1e-3, &sigmoid);
    assert!((g.get_ref_weights(0).es[0] + 0.25).abs() < 1e-2);
    assert!((g.get_ref_biases(0).es[0] + 0.25).abs() < 1e-2);
    assert_eq!(nn.get_ref_weights(0).es, vec![0.0]);
}

#[test]
fn finite_diff_restores_the_parameters() {
    let (ti, to) = xor_data();
    let mut nn = seeded(&[2, 2, 1], 3);
    let before = nn.clone();
    let mut g: NN<f32> = NN::new(&[2, 2, 1]);
    nn.finite_diff(&mut g, &ti, &to, 0.1, &sigmoid);
    for l in 0..2 {
        assert_eq!(nn.get_ref_weights(l).es, before.get_ref_weights(l).es);
        assert_eq!(nn.get_ref_biases(l).es, before.get_ref_biases(l).es);
    }
}

#[test]
fn finite_diff_and_backprop_agree() {
    let (ti, to) = xor_data();
    let mut nn = seeded(&[2, 1], 11);
    let mut fd: NN<f32> = NN::new(&[2, 1]);
    let mut bp: NN<f32> = NN::new(&[2, 1]);
    nn.finite_diff(&mut fd, &ti, &to, 1e-3, &sigmoid);
    nn.backprop(&mut bp, &ti, &to, &sigmoid);
    for l in 0..1 {
        for (a, b) in fd.get_ref_weights(l).es.iter().zip(bp.get_ref_weights(l).es.iter()) {
            assert!((a - b).abs() < 1e-2, "weights of layer {l}: {a} against {b}");
        }
        for (a, b) in fd.get_ref_biases(l).es.iter().zip(bp.get_ref_biases(l).es.iter()) {
            assert!((a - b).abs() < 1e-2, "biases of layer {l}: {a} against {b}");
        }
    }
}

#[test]
fn backprop_doubles_again_at_each_hidden_layer() {
    // The recurrence multiplies by 2 at every layer, so below the output the
    // backpropagated values are twice the finite-difference slopes.
    let (ti, to) = xor_data();
    let mut nn = seeded(&[2, 2, 1], 11);
    let mut fd: NN<f32> = NN::new(&[2, 2, 1]);
    let mut bp: NN<f32> = NN::new(&[2, 2, 1]);
    nn.finite_diff(&mut fd, &ti, &to, 1e-3, &sigmoid);
    nn.backprop(&mut bp, &ti, &to, &sigmoid);
    for (a, b) in fd.get_ref_biases(1).es.iter().zip(bp.get_ref_biases(1).es.iter()) {
        assert!((a - b).abs() < 1e-2);
    }
    for (a, b) in fd.get_ref_biases(0).es.iter().zip(bp.get_ref_biases(0).es.iter()) {
        assert!((2.0 * a - b).abs() < 1e-2);
    }
}

#[test]
fn apply_weights_and_biases_visit_every_parameter() {
    let mut nn: NN<f32> = NN::new(&[2, 2, 1]);
    nn.apply_weights(|v| v + 1.0);
    nn.apply_biases(|v| v - 1.0);
    assert_eq!(nn.get_ref_weights(0).es, vec![1.0; 4]);
    assert_eq!(nn.get_ref_weights(1).es, vec![1.0; 2]);
    assert_eq!(nn.get_ref_biases(0).es, vec![-1.0; 2]);
    assert_eq!(nn.get_ref_biases(1).es, vec![-1.0]);
}

#[test]
fn fmt_inputs_sets_the_flag() {
    let nn: NN<f32> = NN::new(&[1, 1]).fmt_inputs(true);
    assert!(nn.inputs_shown());
}
