use std::cell::Cell;
use wiggle_ml::matrix::Mat;
use wiggle_ml::network::NN;

fn sigmoid(x: f32) -> f32 {
    1.0 / (1.0 + (-x).exp())
}

/// Fresh parameters in [0, 1) from a fixed linear congruential sequence.
fn seeded(arch: &[usize], seed: u64) -> NN<f32> {
    let state = Cell::new(seed);
    let next = |_: f32| {
        let x = (state.get() * 1103515245 + 12345) % (1 << 31);
        state.set(x);
        x as f32 / (1u64 << 31) as f32
    };
    let mut nn = NN::new(arch);
    nn.apply_weights(&next);
    nn.apply_biases(&next);
    nn
}

fn train(arch: &[usize], seed: u64, ti: &Mat<f32>, to: &Mat<f32>, epochs: usize, rate: f32) -> NN<f32> {
    let mut nn = seeded(arch, seed);
    let mut g: NN<f32> = NN::new(arch);
    for _ in 0..epochs {
        nn.backprop(&mut g, ti, to, &sigmoid);
        nn.learn(&g, rate);
    }
    nn
}

fn gate(table: &[f32; 12]) -> (Mat<f32>, Mat<f32>) {
    (
        Mat::new(4, 2).submat_from(table, 3),
        Mat::new(4, 1).submat_from(&table[2..], 3),
    )
}

const OR: [f32; 12] = [0., 0., 0., 0., 1., 1., 1., 0., 1., 1., 1., 1.];
const XOR: [f32; 12] = [0., 0., 0., 0., 1., 1., 1., 0., 1., 1., 1., 0.];

#[test]
fn or_gate_is_learned() {
    let (ti, to) = gate(&OR);
    let mut nn = train(&[2, 2, 1], 1, &ti, &to, 10_000, 0.1);
    assert!(nn.cost(&ti, &to, &sigmoid) < 0.01);
    for i in 0..4 {
        nn.forward_with(&ti.row(i), &sigmoid);
        let predicted = nn.get_ref_output().es[0] > 0.5;
        assert_eq!(predicted, to.es[i] > 0.5, "row {i}");
    }
}

#[test]
fn xor_gate_is_learned_with_a_hidden_layer() {
    let (ti, to) = gate(&XOR);
    let mut nn = train(&[2, 2, 1], 1, &ti, &to, 20_000, 0.1);
    assert!(nn.cost(&ti, &to, &sigmoid) < 0.05);
}

#[test]
fn xor_gate_is_not_learned_without_a_hidden_layer() {
    let (ti, to) = gate(&XOR);
    let mut nn = train(&[2, 1], 1, &ti, &to, 20_000, 0.1);
    assert!(nn.cost(&ti, &to, &sigmoid) > 0.2);
}

#[test]
fn two_bit_adder_is_learned() {
    const BITS: usize = 2;
    let n = 1 << BITS;
    let rows = n * n;
    let mut ti: Mat<f32> = Mat::new(rows, 2 * BITS);
    let mut to: Mat<f32> = Mat::new(rows, BITS + 1);
    for i in 0..rows {
        let x = i / n;
        let y = i % n;
        let z = x + y;
        for j in 0..BITS {
            ti.set_at(i, j, ((x >> j) & 1) as f32);
            ti.set_at(i, j + BITS, ((y >> j) & 1) as f32);
            to.set_at(i, j, ((z >> j) & 1) as f32);
        }
        to.set_at(i, BITS, ((z >= n) as usize) as f32);
    }
    let mut nn = train(&[2 * BITS, 4 * BITS, BITS + 1], 1, &ti, &to, 5_000, 1.0);
    let mut fails = 0;
    for x in 0..n {
        for y in 0..n {
            let z = x + y;
            for j in 0..BITS {
                let inp = nn.get_mut_input();
                inp.set_at(0, j, ((x >> j) & 1) as f32);
                inp.set_at(0, j + BITS, ((y >> j) & 1) as f32);
            }
            nn.forward(&sigmoid);
            let out = nn.get_ref_output();
            if out.get_at(0, BITS) > 0.5 {
                if z < n {
                    fails += 1;
                }
            } else {
                let mut a = 0;
                for j in 0..BITS {
                    let bit = (out.get_at(0, j) > 0.5) as usize;
                    a |= bit << j;
                }
                if z != a {
                    fails += 1;
                }
            }
        }
    }
    assert_eq!(fails, 0);
}
