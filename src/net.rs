use vstd::prelude::*;

use crate::mat::{Mat2D, MatModel};

verus! {

/// Activation applied to each output of a layer.
#[derive(Debug, Clone, Copy, PartialEq, Eq, Structural)]
pub enum ActivationFn {
    Relu,
    LeakyRelu,
    Sigmoid,
    Tanh,
}

/// Mathematical picture of a layer.
pub struct LayerModel<T> {
    pub input_size: nat,
    pub output_size: nat,
    pub weights: MatModel<T>,
    pub biases: MatModel<T>,
    pub activation_fn: ActivationFn,
}

impl<T> LayerModel<T> {
    /// Weights are `output_size` by `input_size`, biases a column of
    /// `output_size`.
    pub open spec fn wf(self) -> bool {
        &&& self.weights.wf()
        &&& self.biases.wf()
        &&& self.weights.rows == self.output_size
        &&& self.weights.cols == self.input_size
        &&& self.biases.rows == self.output_size
        &&& self.biases.cols == 1
    }

    /// Number of scalars (weights and biases) of the layer.
    pub open spec fn scalar_count(self) -> nat {
        self.weights.data.len() + self.biases.data.len()
    }

    /// Same sizes, shapes and activation.
    pub open spec fn same_shape(self, other: LayerModel<T>) -> bool {
        &&& self.input_size == other.input_size
        &&& self.output_size == other.output_size
        &&& self.weights.rows == other.weights.rows
        &&& self.weights.cols == other.weights.cols
        &&& self.weights.data.len() == other.weights.data.len()
        &&& self.biases.rows == other.biases.rows
        &&& self.biases.cols == other.biases.cols
        &&& self.biases.data.len() == other.biases.data.len()
        &&& self.activation_fn == other.activation_fn
    }
}

/// A dense layer: `activation(weights * x + biases)`.
#[derive(Debug, Clone)]
pub struct Layer<T> {
    pub input_size: usize,
    pub output_size: usize,
    pub weights: Mat2D<T>,
    pub biases: Mat2D<T>,
    pub activation_fn: ActivationFn,
}

impl<T> View for Layer<T> {
    type V = LayerModel<T>;

    open spec fn view(&self) -> LayerModel<T> {
        LayerModel {
            input_size: self.input_size as nat,
            output_size: self.output_size as nat,
            weights: self.weights@,
            biases: self.biases@,
            activation_fn: self.activation_fn,
        }
    }
}

/// Each layer's output size is the next layer's input size.
pub open spec fn chained<T>(layers: Seq<LayerModel<T>>) -> bool {
    forall|k: int| 0 <= k < layers.len() - 1 ==> #[trigger] layers[k].output_size == layers[k + 1].input_size
}

/// Every layer is well formed and consecutive layers fit together.
pub open spec fn well_formed<T>(layers: Seq<LayerModel<T>>) -> bool {
    &&& chained(layers)
    &&& forall|k: int| 0 <= k < layers.len() ==> (#[trigger] layers[k]).wf()
}

/// Two networks with the same number of layers, layer by layer of the
/// same shape.
pub open spec fn same_topology<T>(a: Seq<LayerModel<T>>, b: Seq<LayerModel<T>>) -> bool {
    &&& a.len() == b.len()
    &&& forall|k: int| 0 <= k < a.len() ==> (#[trigger] a[k]).same_shape(b[k])
}

/// Number of scalars of the first `n` layers.
pub open spec fn scalars_before<T>(layers: Seq<LayerModel<T>>, n: int) -> nat
    decreases n,
{
    if n <= 0 {
        0
    } else {
        scalars_before(layers, n - 1) + layers[n - 1].scalar_count()
    }
}

/// Number of scalars of the whole network.
pub open spec fn scalar_total<T>(layers: Seq<LayerModel<T>>) -> nat {
    scalars_before(layers, layers.len() as int)
}

/// Entry by entry, `a` where the pick is true and `b` where it is false.
pub open spec fn pick_each<T>(a: Seq<T>, b: Seq<T>, picks: Seq<bool>) -> Seq<T> {
    Seq::new(a.len(), |k: int| if picks[k] { a[k] } else { b[k] })
}

/// A layer whose weights and biases are picked from `a` and `b` by the
/// picks of the layer's scalars, weights first, in storage order.
pub open spec fn crossed_layer<T>(a: LayerModel<T>, b: LayerModel<T>, picks: Seq<bool>) -> LayerModel<T> {
    let nw = a.weights.data.len() as int;
    LayerModel {
        weights: MatModel {
            data: pick_each(a.weights.data, b.weights.data, picks.subrange(0, nw)),
            ..a.weights
        },
        biases: MatModel {
            data: pick_each(
                a.biases.data,
                b.biases.data,
                picks.subrange(nw, nw + a.biases.data.len()),
            ),
            ..a.biases
        },
        ..a
    }
}

/// The child that `picks` makes of `a` and `b`: scalar number `k` of the
/// network (layer by layer, weights then biases) comes from `a` where
/// `picks[k]` holds and from `b` elsewhere.
pub open spec fn crossed<T>(a: Seq<LayerModel<T>>, b: Seq<LayerModel<T>>, picks: Seq<bool>) -> Seq<
    LayerModel<T>,
> {
    Seq::new(
        a.len(),
        |l: int|
            crossed_layer(
                a[l],
                b[l],
                picks.subrange(scalars_before(a, l) as int, scalars_before(a, l + 1) as int),
            ),
    )
}

/// A feed-forward network: a chain of dense layers.
#[derive(Debug, Clone)]
pub struct Network<T> {
    layers: Vec<Layer<T>>,
}

impl<T> View for Network<T> {
    type V = Seq<LayerModel<T>>;

    closed spec fn view(&self) -> Seq<LayerModel<T>> {
        self.layers@.map_values(|l: Layer<T>| l@)
    }
}

/// `scalars_before` grows by each layer's scalars.
pub proof fn lemma_scalars_before_mono<T>(layers: Seq<LayerModel<T>>, m: int, n: int)
    requires
        0 <= m <= n,
    ensures
        scalars_before(layers, m) <= scalars_before(layers, n),
    decreases n - m,
{
    if m < n {
        lemma_scalars_before_mono(layers, m, n - 1);
    }
}

/// Picking every entry of `a` gives `a`; picking none gives `b`.
pub proof fn lemma_pick_each_uniform<T>(a: Seq<T>, b: Seq<T>, picks: Seq<bool>)
    requires
        a.len() == b.len(),
        picks.len() == a.len(),
    ensures
        (forall|k: int| 0 <= k < picks.len() ==> picks[k]) ==> pick_each(a, b, picks) == a,
        (forall|k: int| 0 <= k < picks.len() ==> !picks[k]) ==> pick_each(a, b, picks) == b,
{
    if forall|k: int| 0 <= k < picks.len() ==> picks[k] {
        assert(pick_each(a, b, picks) =~= a);
    }
    if forall|k: int| 0 <= k < picks.len() ==> !picks[k] {
        assert(pick_each(a, b, picks) =~= b);
    }
}

impl<T: Copy> Network<T> {
    /// Builds a network from its layers, which must fit together.
    pub fn new(layers: Vec<Layer<T>>) -> (r: Self)
        requires
            chained(layers@.map_values(|l: Layer<T>| l@)),
        ensures
            r@ == layers@.map_values(|l: Layer<T>| l@),
    {
        Network { layers }
    }

    /// The layers, input side first.
    pub fn layers(&self) -> (r: &Vec<Layer<T>>)
        ensures
            r@.map_values(|l: Layer<T>| l@) == self@,
    {
        &self.layers
    }

    /// Number of scalars (weights and biases) of the network.
    pub fn scalar_count(&self) -> (r: usize)
        requires
            scalar_total(self@) <= usize::MAX,
        ensures
            r == scalar_total(self@),
    {
        let mut total: usize = 0;
        let mut l: usize = 0;
        while l < self.layers.len()
            invariant
                l <= self@.len(),
                self@.len() == self.layers@.len(),
                total == scalars_before(self@, l as int),
                scalar_total(self@) <= usize::MAX,
            decreases self@.len() - l,
        {
            proof {
                lemma_scalars_before_mono(self@, l + 1, self@.len() as int);
                assert(self@[l as int] == self.layers@[l as int]@);
            }
            let layer = &self.layers[l];
            let nw = layer.weights.len();
            let nb = layer.biases.len();
            total = total + nw + nb;
            l += 1;
        }
        total
    }

    /// The child of this network and `other`: each scalar is taken from this
    /// network where its pick is true and from `other` where it is false.
    /// Scalars are counted layer by layer, weights then biases, in storage
    /// order; the sizes and activations are this network's.
    pub fn crossover(self, other: Self, picks: &Vec<bool>) -> (r: Self)
        requires
            well_formed(self@),
            same_topology(self@, other@),
            picks@.len() == scalar_total(self@),
        ensures
            r@ == crossed(self@, other@, picks@),
            well_formed(r@),
    {
        let ghost a = self@;
        let ghost b = other@;
        let mut layers: Vec<Layer<T>> = Vec::with_capacity(self.layers.len());
        let npicks = picks.len();
        let mut start: usize = 0;
        let mut l: usize = 0;
        while l < self.layers.len()
            invariant
                a == self@,
                b == other@,
                a.len() == self.layers@.len(),
                b.len() == other.layers@.len(),
                well_formed(a),
                same_topology(a, b),
                picks@.len() == scalar_total(a),
                npicks == picks@.len(),
                l <= a.len(),
                start == scalars_before(a, l as int),
                layers@.len() == l,
                forall|k: int| 0 <= k < l ==> #[trigger] layers@[k]@ == crossed(a, b, picks@)[k],
            decreases a.len() - l,
        {
            proof {
                lemma_scalars_before_mono(a, l + 1, a.len() as int);
                assert(a[l as int] == self.layers@[l as int]@);
                assert(b[l as int] == other.layers@[l as int]@);
            }
            let la = &self.layers[l];
            let lb = &other.layers[l];
            let wa = la.weights.vec();
            let wb = lb.weights.vec();
            let ba = la.biases.vec();
            let bb = lb.biases.vec();
            let w = pick_entries(&wa, &wb, picks, start);
            let bias_start = start + wa.len();
            let bi = pick_entries(&ba, &bb, picks, bias_start);
            let weights = Mat2D::from_rows(w, la.weights.num_rows(), la.weights.num_columns());
            let biases = Mat2D::from_rows(bi, la.biases.num_rows(), la.biases.num_columns());
            let layer = Layer {
                input_size: la.input_size,
                output_size: la.output_size,
                weights,
                biases,
                activation_fn: la.activation_fn,
            };
            proof {
                let p = picks@.subrange(scalars_before(a, l as int) as int, scalars_before(a, l + 1) as int);
                let nw = a[l as int].weights.data.len() as int;
                assert(p.subrange(0, nw) =~= picks@.subrange(start as int, start + nw));
                assert(p.subrange(nw, nw + a[l as int].biases.data.len()) =~= picks@.subrange(
                    bias_start as int,
                    bias_start + ba@.len(),
                ));
                assert(layer@ == crossed(a, b, picks@)[l as int]);
            }
            layers.push(layer);
            start = bias_start + ba.len();
            l += 1;
        }
        let r = Network { layers };
        proof {
            assert(r@ =~= crossed(a, b, picks@));
            assert forall|k: int| 0 <= k < r@.len() - 1 implies #[trigger] r@[k].output_size == r@[k
                + 1].input_size by {
                assert(a[k].output_size == a[k + 1].input_size);
            }
        }
        r
    }
}

/// `a[k]` where `picks[start + k]` holds, `b[k]` elsewhere.
fn pick_entries<T: Copy>(a: &Vec<T>, b: &Vec<T>, picks: &Vec<bool>, start: usize) -> (r: Vec<T>)
    requires
        a@.len() == b@.len(),
        start + a@.len() <= picks@.len(),
    ensures
        r@ == pick_each(a@, b@, picks@.subrange(start as int, start + a@.len())),
{
    let mut r: Vec<T> = Vec::with_capacity(a.len());
    let npicks = picks.len();
    let mut k: usize = 0;
    while k < a.len()
        invariant
            npicks == picks@.len(),
            k <= a@.len(),
            a@.len() == b@.len(),
            start + a@.len() <= picks@.len(),
            r@.len() == k,
            forall|q: int| 0 <= q < k ==> #[trigger] r@[q] == if picks@[start + q] { a@[q] } else { b@[q] },
        decreases a@.len() - k,
    {
        if picks[start + k] {
            r.push(a[k]);
        } else {
            r.push(b[k]);
        }
        k += 1;
    }
    assert(r@ =~= pick_each(a@, b@, picks@.subrange(start as int, start + a@.len())));
    r
}

/// Crossover keeps one parent whole when every pick goes the same way: with
/// every pick true the child is this network, with every pick false it is
/// the other one.
pub proof fn lemma_crossover_uniform<T>(a: Seq<LayerModel<T>>, b: Seq<LayerModel<T>>, picks: Seq<bool>)
    requires
        well_formed(a),
        same_topology(a, b),
        picks.len() == scalar_total(a),
    ensures
        (forall|k: int| 0 <= k < picks.len() ==> picks[k]) ==> crossed(a, b, picks) == a,
        (forall|k: int| 0 <= k < picks.len() ==> !picks[k]) ==> crossed(a, b, picks) == b,
{
    assert forall|l: int| 0 <= l < a.len() implies {
        let p = picks.subrange(scalars_before(a, l) as int, scalars_before(a, l + 1) as int);
        &&& (forall|k: int| 0 <= k < picks.len() ==> picks[k]) ==> #[trigger] crossed(a, b, picks)[l] == a[l]
        &&& (forall|k: int| 0 <= k < picks.len() ==> !picks[k]) ==> crossed(a, b, picks)[l] == b[l]
    } by {
        lemma_scalars_before_mono(a, l + 1, a.len() as int);
        let p = picks.subrange(scalars_before(a, l) as int, scalars_before(a, l + 1) as int);
        let nw = a[l].weights.data.len() as int;
        let nb = a[l].biases.data.len() as int;
        lemma_pick_each_uniform(a[l].weights.data, b[l].weights.data, p.subrange(0, nw));
        lemma_pick_each_uniform(a[l].biases.data, b[l].biases.data, p.subrange(nw, nw + nb));
        if forall|k: int| 0 <= k < picks.len() ==> picks[k] {
            assert(forall|k: int| 0 <= k < nw ==> #[trigger] p.subrange(0, nw)[k] == picks[scalars_before(a, l) + k]);
            assert(forall|k: int| 0 <= k < nb ==> #[trigger] p.subrange(nw, nw + nb)[k] == picks[scalars_before(a, l) + nw + k]);
        }
        if forall|k: int| 0 <= k < picks.len() ==> !picks[k] {
            assert(forall|k: int| 0 <= k < nw ==> #[trigger] p.subrange(0, nw)[k] == picks[scalars_before(a, l) + k]);
            assert(forall|k: int| 0 <= k < nb ==> #[trigger] p.subrange(nw, nw + nb)[k] == picks[scalars_before(a, l) + nw + k]);
        }
    }
    if forall|k: int| 0 <= k < picks.len() ==> picks[k] {
        assert(crossed(a, b, picks) =~= a);
    }
    if forall|k: int| 0 <= k < picks.len() ==> !picks[k] {
        assert(crossed(a, b, picks) =~= b);
    }
}

} // verus!
