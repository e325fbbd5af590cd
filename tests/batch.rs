use std::cell::RefCell;

use smarticles::batch::{selection_tier, total_order_key, Batch, SelectionTier};
use smarticles::mat::Mat2D;
use smarticles::net::{ActivationFn, Layer, Network};

fn tagged(tag: i32) -> Network<i32> {
    Network::new(vec![Layer {
        input_size: 1,
        output_size: 1,
        weights: Mat2D::from_rows(vec![tag], 1, 1),
        biases: Mat2D::from_rows(vec![0], 1, 1),
        activation_fn: ActivationFn::Relu,
    }])
}

fn tag(n: &Network<i32>) -> i32 {
    *n.layers()[0].weights.get(0, 0)
}

fn bits(scores: &[f32]) -> Vec<u32> {
    scores.iter().map(|s| s.to_bits()).collect()
}

#[test]
fn rank_keeps_index_order_for_equal_scores() {
    let batch = Batch::new((0..5).map(tagged).collect::<Vec<_>>());
    let ranking = batch.rank(&bits(&[5., 3., 3., 1., 0.]));

    let expected: Vec<(usize, u32)> = vec![(0, 5.), (1, 3.), (2, 3.), (3, 1.), (4, 0.)]
        .into_iter()
        .map(|(i, s): (usize, f32)| (i, s.to_bits()))
        .collect();
    assert_eq!(ranking, expected);
}

#[test]
fn rank_sorts_descending() {
    let batch = Batch::new((0..4).map(tagged).collect::<Vec<_>>());
    let ranking = batch.rank(&bits(&[-2.5, 7.0, 0.25, -0.0]));

    let order: Vec<usize> = ranking.iter().map(|(i, _)| *i).collect();
    assert_eq!(order, vec![1, 2, 3, 0]);
    assert_eq!(f32::from_bits(ranking[0].1), 7.0);
}

#[test]
fn rank_of_nothing_is_empty() {
    let batch: Batch<i32> = Batch::new(vec![]);

    assert!(batch.rank(&vec![]).is_empty());
}

#[test]
fn total_order_key_follows_total_cmp() {
    let values = [f32::NEG_INFINITY, -3.5, -1.0, -0.0, 0.0, 1e-30, 2.0, f32::INFINITY];
    for w in values.windows(2) {
        assert!(total_order_key(w[0].to_bits()) < total_order_key(w[1].to_bits()));
        assert_eq!(w[0].total_cmp(&w[1]), std::cmp::Ordering::Less);
    }
    assert_eq!(total_order_key(0.0f32.to_bits()), 0);
    assert_eq!(total_order_key((-0.0f32).to_bits()), -1);
    assert_eq!(total_order_key(1.0f32.to_bits()), 0x3f80_0000);
}

#[test]
fn selection_tiers_split_the_ranking() {
    let tiers: Vec<SelectionTier> = (0..8).map(|p| selection_tier(p, 8)).collect();

    assert_eq!(
        tiers,
        vec![
            SelectionTier::Scored,
            SelectionTier::Scored,
            SelectionTier::Scored,
            SelectionTier::Scored,
            SelectionTier::HalfOfLastScored,
            SelectionTier::HalfOfLastScored,
            SelectionTier::Excluded,
            SelectionTier::Excluded,
        ]
    );
}

#[test]
fn evolve_replaces_the_generation_and_counts_it() {
    let mut batch = Batch::new((0..4).map(|k| tagged(10 * k)).collect::<Vec<_>>());
    let ranking = batch.rank(&bits(&[1., 4., 3., 2.]));
    let draws = vec![(0, 1), (2, 2), (1, 0), (0, 0)];
    let shares = RefCell::new(Vec::new());

    batch.evolve(
        &ranking,
        &draws,
        |a: &Network<i32>, b: &Network<i32>, _i: usize, _j: usize| tagged(tag(a) * 1000 + tag(b)),
        |n: &Network<i32>, num: usize, den: usize| {
            shares.borrow_mut().push((num, den));
            tagged(tag(n) + 1)
        },
    );

    assert_eq!(batch.networks.len(), 4);
    assert_eq!(batch.generation, 1);
    let tags: Vec<i32> = batch.networks.iter().map(tag).collect();
    // ranking: network 1, 2, 3, 0
    assert_eq!(tags, vec![10 * 1000 + 20 + 1, 30 + 1 + 1, 20 * 1000 + 10 + 1, 10 + 1 + 1]);
    assert_eq!(
        shares.into_inner(),
        vec![(5, 12), (1, 2), (8, 12), (5, 12), (1, 2), (4, 12)]
    );
}

#[test]
fn evolve_twice_counts_two_generations() {
    let mut batch = Batch::new(vec![tagged(1), tagged(2)]);
    for _ in 0..2 {
        let ranking = batch.rank(&bits(&[0., 0.]));
        batch.evolve(&ranking, &vec![(0, 1), (1, 0)], |a: &Network<i32>, _b: &Network<i32>, _i: usize, _j: usize| tagged(tag(a)), |n: &Network<i32>, _: usize, _: usize| tagged(tag(n)));
    }

    assert_eq!(batch.generation, 2);
    assert_eq!(batch.networks.len(), 2);
}
