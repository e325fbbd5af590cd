use smarticles::mat::Mat2D;
use smarticles::net::{ActivationFn, Layer, Network};

fn layer(input_size: usize, output_size: usize, base: i32, activation_fn: ActivationFn) -> Layer<i32> {
    let weights = (0..(input_size * output_size) as i32).map(|k| base + k).collect();
    let biases = (0..output_size as i32).map(|k| base + 100 + k).collect();
    Layer {
        input_size,
        output_size,
        weights: Mat2D::from_rows(weights, output_size, input_size),
        biases: Mat2D::from_rows(biases, output_size, 1),
        activation_fn,
    }
}

fn network(base: i32) -> Network<i32> {
    Network::new(vec![
        layer(3, 2, base, ActivationFn::Tanh),
        layer(2, 1, base + 50, ActivationFn::Sigmoid),
    ])
}

fn scalars(n: &Network<i32>) -> Vec<i32> {
    n.layers()
        .iter()
        .flat_map(|l| {
            let mut v = l.weights.vec();
            v.extend(l.biases.vec());
            v
        })
        .collect()
}

#[test]
fn network_keeps_its_layers() {
    let n = network(0);

    assert_eq!(n.layers().len(), 2);
    assert_eq!(n.layers()[0].output_size, n.layers()[1].input_size);
    assert_eq!(n.layers()[1].activation_fn, ActivationFn::Sigmoid);
}

#[test]
fn scalar_count_counts_weights_and_biases() {
    assert_eq!(network(0).scalar_count(), 3 * 2 + 2 + 2 + 1);
}

#[test]
fn crossover_with_every_pick_true_is_self() {
    let a = network(0);
    let b = network(1000);
    let expected = scalars(&a);
    let picks = vec![true; a.scalar_count()];

    let child = a.crossover(b, &picks);
    assert_eq!(scalars(&child), expected);
}

#[test]
fn crossover_with_every_pick_false_is_other() {
    let a = network(0);
    let b = network(1000);
    let expected = scalars(&b);
    let picks = vec![false; a.scalar_count()];

    let child = a.crossover(b, &picks);
    assert_eq!(scalars(&child), expected);
    assert_eq!(child.layers()[0].activation_fn, ActivationFn::Tanh);
}

#[test]
fn crossover_takes_each_scalar_by_its_pick() {
    let a = network(0);
    let b = network(1000);
    let sa = scalars(&a);
    let sb = scalars(&b);
    let picks: Vec<bool> = (0..a.scalar_count()).map(|k| k % 3 == 0).collect();

    let child = a.crossover(b, &picks);
    let expected: Vec<i32> = (0..picks.len()).map(|k| if picks[k] { sa[k] } else { sb[k] }).collect();
    assert_eq!(scalars(&child), expected);
    assert_eq!(child.layers()[0].weights.shape(), (3, 2));
    assert_eq!(child.layers()[1].biases.shape(), (1, 1));
}
