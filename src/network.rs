use vstd::prelude::*;
use vstd::arithmetic::mul::lemma_mul_is_distributive_add_other_way;
use crate::rng::random_in;

verus! {

/// Weights are fixed-point numbers: `WEIGHT_SCALE` stands for 1.
pub const WEIGHT_SCALE: i64 = 1000000;

/// Inputs of a neuron in layer `l`: the width of the previous layer, none for the input layer.
pub open spec fn inputs_of(sizes: Seq<usize>, l: int) -> int {
    if l <= 0 {
        0
    } else {
        sizes[l - 1] as int
    }
}

/// Number of weights of a network whose layers have widths `sizes`.
pub open spec fn weight_count(sizes: Seq<usize>) -> int
    decreases sizes.len(),
{
    if sizes.len() == 0 {
        0
    } else {
        weight_count(sizes.drop_last()) + sizes.last() * inputs_of(sizes, sizes.len() - 1)
    }
}

proof fn lemma_count_step(sizes: Seq<usize>, l: int)
    requires
        0 <= l < sizes.len(),
    ensures
        weight_count(sizes.take(l + 1)) == weight_count(sizes.take(l)) + sizes[l] * inputs_of(
            sizes,
            l,
        ),
        sizes[l] * inputs_of(sizes, l) >= 0,
{
    let t = sizes.take(l + 1);
    assert(t.drop_last() =~= sizes.take(l));
    assert(t.last() == sizes[l]);
    assert(inputs_of(t, l) == inputs_of(sizes, l));
    assert(sizes[l] * inputs_of(sizes, l) >= 0) by (nonlinear_arith)
        requires
            sizes[l] >= 0,
            inputs_of(sizes, l) >= 0,
    ;
}

proof fn lemma_count_mono(sizes: Seq<usize>, l: int)
    requires
        0 <= l <= sizes.len(),
    ensures
        weight_count(sizes.take(l)) <= weight_count(sizes),
    decreases sizes.len() - l,
{
    if l < sizes.len() {
        lemma_count_step(sizes, l);
        lemma_count_mono(sizes, l + 1);
    } else {
        assert(sizes.take(l) =~= sizes);
    }
}

/// Whether a network with layer widths `sizes` has exactly `n` weights.
pub fn weights_match(sizes: &Vec<usize>, n: usize) -> (r: bool)
    ensures
        r == (weight_count(sizes@) == n),
{
    let mut acc: usize = 0;
    let mut l: usize = 0;
    while l < sizes.len()
        invariant
            l <= sizes@.len(),
            acc == weight_count(sizes@.take(l as int)),
            acc <= n,
        decreases sizes@.len() - l,
    {
        proof {
            lemma_count_step(sizes@, l as int);
            lemma_count_mono(sizes@, l as int + 1);
        }
        let inputs: usize = if l == 0 { 0 } else { sizes[l - 1] };
        let term = match sizes[l].checked_mul(inputs) {
            Some(t) => t,
            None => {
                return false;
            },
        };
        let next = match acc.checked_add(term) {
            Some(t) => t,
            None => {
                return false;
            },
        };
        if next > n {
            return false;
        }
        acc = next;
        l = l + 1;
    }
    assert(sizes@.take(l as int) =~= sizes@);
    acc == n
}

/// Whether two layer-width lists are the same.
pub fn same_widths(a: &Vec<usize>, b: &Vec<usize>) -> (r: bool)
    ensures
        r == (a@ == b@),
{
    if a.len() != b.len() {
        return false;
    }
    let mut i: usize = 0;
    while i < a.len()
        invariant
            a@.len() == b@.len(),
            i <= a@.len(),
            forall|j: int| 0 <= j < i ==> a@[j] == b@[j],
        decreases a@.len() - i,
    {
        if a[i] != b[i] {
            return false;
        }
        i = i + 1;
    }
    assert(a@ =~= b@);
    true
}

/// A network in flat form: the width of each layer, then every weight,
/// layer by layer, neuron by neuron.
#[derive(Clone, Debug)]
pub struct FlatNetwork {
    pub neurons: Vec<usize>,
    pub weights: Vec<i64>,
}

impl FlatNetwork {
    /// The weight count matches the layer widths.
    pub open spec fn wf(&self) -> bool {
        self.weights@.len() == weight_count(self.neurons@)
    }

    /// Whether the weight count matches the layer widths.
    pub fn is_wf(&self) -> (r: bool)
        ensures
            r == self.wf(),
    {
        weights_match(&self.neurons, self.weights.len())
    }

    /// An exact copy.
    pub fn copy(&self) -> (r: FlatNetwork)
        ensures
            r.neurons@ == self.neurons@,
            r.weights@ == self.weights@,
    {
        let neurons = self.neurons.clone();
        let weights = self.weights.clone();
        assert(neurons@ =~= self.neurons@);
        assert(weights@ =~= self.weights@);
        FlatNetwork { neurons, weights }
    }
}

/// Every weight of a nested network, layer by layer, neuron by neuron.
pub open spec fn flat_weights(v: Seq<Seq<Seq<i64>>>) -> Seq<i64>
    decreases v.len(),
{
    if v.len() == 0 {
        seq![]
    } else {
        flat_weights(v.drop_last()) + v.last().flatten()
    }
}

/// Width of each layer of a nested network.
pub open spec fn layer_sizes(v: Seq<Seq<Seq<i64>>>) -> Seq<usize> {
    v.map_values(|l: Seq<Seq<i64>>| l.len() as usize)
}

/// `v` has layers of widths `sizes`, and each neuron one weight per neuron of
/// the previous layer.
pub open spec fn shaped(v: Seq<Seq<Seq<i64>>>, sizes: Seq<usize>) -> bool {
    &&& v.len() == sizes.len()
    &&& forall|l: int| 0 <= l < v.len() ==> #[trigger] v[l].len() == sizes[l]
    &&& forall|l: int, n: int|
        0 <= l < v.len() && 0 <= n < v[l].len() ==> #[trigger] v[l][n].len() == inputs_of(sizes, l)
}

proof fn lemma_layer_len(ns: Seq<Seq<i64>>, p: int)
    requires
        forall|n: int| 0 <= n < ns.len() ==> #[trigger] ns[n].len() == p,
    ensures
        ns.flatten().len() == ns.len() * p,
    decreases ns.len(),
{
    broadcast use Seq::lemma_flatten_push;
    if ns.len() > 0 {
        let d = ns.drop_last();
        assert forall|n: int| 0 <= n < d.len() implies #[trigger] d[n].len() == p by {
            assert(d[n] == ns[n]);
        }
        lemma_layer_len(d, p);
        assert(d.push(ns.last()) =~= ns);
        lemma_mul_is_distributive_add_other_way(p, d.len() as int, 1);
    }
}

proof fn lemma_shaped_drop_last(v: Seq<Seq<Seq<i64>>>, sizes: Seq<usize>)
    requires
        shaped(v, sizes),
        v.len() > 0,
    ensures
        shaped(v.drop_last(), sizes.drop_last()),
{
    let d = v.drop_last();
    assert forall|l: int| 0 <= l < d.len() implies #[trigger] d[l].len() == sizes.drop_last()[l] by {
        assert(d[l] == v[l]);
    }
    assert forall|l: int, n: int| 0 <= l < d.len() && 0 <= n < d[l].len() implies #[trigger] d[l][n].len()
        == inputs_of(sizes.drop_last(), l) by {
        assert(d[l] == v[l]);
        assert(v[l][n].len() == inputs_of(sizes, l));
    }
}

proof fn lemma_flat_len(v: Seq<Seq<Seq<i64>>>, sizes: Seq<usize>)
    requires
        shaped(v, sizes),
    ensures
        flat_weights(v).len() == weight_count(sizes),
    decreases v.len(),
{
    if v.len() > 0 {
        lemma_shaped_drop_last(v, sizes);
        lemma_flat_len(v.drop_last(), sizes.drop_last());
        let l = v.len() - 1;
        assert forall|n: int| 0 <= n < v.last().len() implies #[trigger] v.last()[n].len() == inputs_of(sizes, l) by {
            assert(v[l][n].len() == inputs_of(sizes, l));
        }
        lemma_layer_len(v.last(), inputs_of(sizes, l));
        assert(v[l].len() == sizes[l]);
    }
}

proof fn lemma_layer_injective(a: Seq<Seq<i64>>, b: Seq<Seq<i64>>, p: int)
    requires
        a.len() == b.len(),
        forall|n: int| 0 <= n < a.len() ==> #[trigger] a[n].len() == p,
        forall|n: int| 0 <= n < b.len() ==> #[trigger] b[n].len() == p,
        a.flatten() == b.flatten(),
    ensures
        a == b,
    decreases a.len(),
{
    broadcast use Seq::lemma_flatten_push;
    if a.len() > 0 {
        let (da, db) = (a.drop_last(), b.drop_last());
        assert forall|n: int| 0 <= n < da.len() implies #[trigger] da[n].len() == p by {
            assert(da[n] == a[n]);
        }
        assert forall|n: int| 0 <= n < db.len() implies #[trigger] db[n].len() == p by {
            assert(db[n] == b[n]);
        }
        lemma_layer_len(da, p);
        lemma_layer_len(db, p);
        assert(da.push(a.last()) =~= a);
        assert(db.push(b.last()) =~= b);
        let k = da.flatten().len();
        assert(a.flatten() =~= da.flatten() + a.last());
        assert(b.flatten() =~= db.flatten() + b.last());
        assert(da.flatten() =~= a.flatten().take(k as int));
        assert(db.flatten() =~= b.flatten().take(k as int));
        assert(a.last() =~= a.flatten().skip(k as int));
        assert(b.last() =~= b.flatten().skip(k as int));
        lemma_layer_injective(da, db, p);
        assert(a =~= b);
    }
}

/// The flat form determines the network: two networks of the same layer
/// widths whose weights flatten to the same sequence are the same network.
/// So unflattening what flattening gave yields the network back.
pub proof fn lemma_round_trip(a: Seq<Seq<Seq<i64>>>, b: Seq<Seq<Seq<i64>>>, sizes: Seq<usize>)
    requires
        shaped(a, sizes),
        shaped(b, sizes),
        flat_weights(a) == flat_weights(b),
    ensures
        a == b,
    decreases a.len(),
{
    if a.len() > 0 {
        let l = a.len() - 1;
        lemma_shaped_drop_last(a, sizes);
        lemma_shaped_drop_last(b, sizes);
        lemma_flat_len(a.drop_last(), sizes.drop_last());
        lemma_flat_len(b.drop_last(), sizes.drop_last());
        let k = weight_count(sizes.drop_last());
        assert(flat_weights(a.drop_last()) =~= flat_weights(a).take(k));
        assert(flat_weights(b.drop_last()) =~= flat_weights(b).take(k));
        assert(a.last().flatten() =~= flat_weights(a).skip(k));
        assert(b.last().flatten() =~= flat_weights(b).skip(k));
        lemma_round_trip(a.drop_last(), b.drop_last(), sizes.drop_last());
        assert forall|n: int| 0 <= n < a.last().len() implies #[trigger] a.last()[n].len() == inputs_of(sizes, l) by {
            assert(a[l][n].len() == inputs_of(sizes, l));
        }
        assert forall|n: int| 0 <= n < b.last().len() implies #[trigger] b.last()[n].len() == inputs_of(sizes, l) by {
            assert(b[l][n].len() == inputs_of(sizes, l));
        }
        assert(a[l].len() == sizes[l] && b[l].len() == sizes[l]);
        lemma_layer_injective(a.last(), b.last(), inputs_of(sizes, l));
        assert(a.drop_last().push(a.last()) =~= a);
        assert(b.drop_last().push(b.last()) =~= b);
    }
}

proof fn lemma_flat_step(v: Seq<Seq<Seq<i64>>>, l: int)
    requires
        0 <= l < v.len(),
    ensures
        flat_weights(v.take(l + 1)) == flat_weights(v.take(l)) + v[l].flatten(),
{
    assert(v.take(l + 1).drop_last() =~= v.take(l));
}

proof fn lemma_neuron_step(ns: Seq<Seq<i64>>, n: int)
    requires
        0 <= n < ns.len(),
    ensures
        ns.take(n + 1).flatten() == ns.take(n).flatten() + ns[n],
{
    broadcast use Seq::lemma_flatten_push;
    assert(ns.take(n).push(ns[n]) =~= ns.take(n + 1));
}

/// Why a flat network cannot be rebuilt.
#[derive(Clone, Copy, Debug, PartialEq, Eq, Structural)]
pub enum FlatError {
    /// The number of weights does not match the layer widths.
    WeightCount,
}

/// One neuron: a weight for each neuron of the previous layer.
#[derive(Clone, Debug)]
pub struct Neuron {
    pub weights: Vec<i64>,
}

/// One layer of neurons.
#[derive(Clone, Debug)]
pub struct Layer {
    pub neurons: Vec<Neuron>,
}

/// A layered feed-forward network; layer 0 is the input layer, whose
/// neurons have no weights.
#[derive(Clone, Debug)]
pub struct Network {
    pub layers: Vec<Layer>,
}

/// Input width, hidden layer widths and output width of a network.
pub type Options = (usize, Vec<usize>, usize);

/// Layer widths that `options` asks for, input layer first.
pub open spec fn schedule(options: Options) -> Seq<usize> {
    seq![options.0] + options.1@ + seq![options.2]
}

/// Every weight of `v` lies between -1 and 1.
pub open spec fn unit_weights(v: Seq<Seq<Seq<i64>>>) -> bool {
    forall|l: int, n: int, w: int|
        0 <= l < v.len() && 0 <= n < v[l].len() && 0 <= w < v[l][n].len() ==> -WEIGHT_SCALE
            <= #[trigger] v[l][n][w] <= WEIGHT_SCALE
}

impl Layer {
    /// `nb_neurons` neurons of `nb_inputs` weights each, drawn at random between -1 and 1.
    pub fn with_population(nb_neurons: usize, nb_inputs: usize) -> (r: Layer)
        ensures
            r@.len() == nb_neurons,
            forall|n: int| 0 <= n < nb_neurons ==> #[trigger] r@[n].len() == nb_inputs,
            forall|n: int, w: int|
                0 <= n < nb_neurons && 0 <= w < nb_inputs ==> -WEIGHT_SCALE <= #[trigger] r@[n][w]
                    <= WEIGHT_SCALE,
    {
        let mut neurons: Vec<Neuron> = Vec::new();
        while neurons.len() < nb_neurons
            invariant
                neurons@.len() <= nb_neurons,
                forall|n: int| 0 <= n < neurons@.len() ==> (#[trigger] neurons@[n]).weights@.len() == nb_inputs,
                forall|n: int, w: int|
                    0 <= n < neurons@.len() && 0 <= w < nb_inputs ==> -WEIGHT_SCALE
                        <= #[trigger] neurons@[n].weights@[w] <= WEIGHT_SCALE,
            decreases nb_neurons - neurons@.len(),
        {
            let mut weights: Vec<i64> = Vec::new();
            while weights.len() < nb_inputs
                invariant
                    weights@.len() <= nb_inputs,
                    forall|w: int| 0 <= w < weights@.len() ==> -WEIGHT_SCALE <= #[trigger] weights@[w] <= WEIGHT_SCALE,
                decreases nb_inputs - weights@.len(),
            {
                weights.push(random_in(-WEIGHT_SCALE, WEIGHT_SCALE));
            }
            neurons.push(Neuron { weights });
        }
        let r = Layer { neurons };
        assert forall|n: int, w: int|
            0 <= n < nb_neurons && 0 <= w < nb_inputs implies -WEIGHT_SCALE <= #[trigger] r@[n][w] <= WEIGHT_SCALE by {
            assert(r@[n] == r.neurons@[n].weights@);
        }
        r
    }
}

impl View for Layer {
    type V = Seq<Seq<i64>>;

    open spec fn view(&self) -> Seq<Seq<i64>> {
        self.neurons@.map_values(|n: Neuron| n.weights@)
    }
}

impl View for Network {
    type V = Seq<Seq<Seq<i64>>>;

    open spec fn view(&self) -> Seq<Seq<Seq<i64>>> {
        self.layers@.map_values(|l: Layer| l@)
    }
}

impl Network {
    /// Each neuron has one weight per neuron of the previous layer.
    pub open spec fn wf(&self) -> bool {
        shaped(self@, layer_sizes(self@))
    }

    /// A network of the widths `options` asks for, weights drawn at random
    /// between -1 and 1.
    pub fn random(options: &Options) -> (r: Network)
        ensures
            r.wf(),
            layer_sizes(r@) == schedule(*options),
            unit_weights(r@),
    {
        let ghost sched = schedule(*options);
        let mut widths: Vec<usize> = Vec::new();
        widths.push(options.0);
        let mut h: usize = 0;
        while h < options.1.len()
            invariant
                h <= options.1@.len(),
                widths@ == seq![options.0] + options.1@.take(h as int),
            decreases options.1@.len() - h,
        {
            widths.push(options.1[h]);
            h = h + 1;
            assert(widths@ =~= seq![options.0] + options.1@.take(h as int));
        }
        widths.push(options.2);
        assert(widths@ =~= sched);
        let mut layers: Vec<Layer> = Vec::new();
        layers.push(Layer::with_population(widths[0], 0));
        let mut h: usize = 0;
        while h < widths.len() - 1
            invariant
                sched == schedule(*options),
                widths@ == sched,
                h + 1 <= widths@.len(),
                layers@.len() == h + 1,
                shaped(layers@.map_values(|x: Layer| x@), sched.take(h + 1)),
                unit_weights(layers@.map_values(|x: Layer| x@)),
            decreases widths@.len() - h,
        {
            let width = widths[h + 1];
            assert(h + 2 <= sched.len());
            let previous = widths[h];
            let ghost built = layers@.map_values(|x: Layer| x@);
            let layer = Layer::with_population(width, previous);
            let ghost lv = layer@;
            layers.push(layer);
            proof {
                let nb = layers@.map_values(|x: Layer| x@);
                assert(nb =~= built.push(lv));
                assert forall|a: int| 0 <= a < nb.len() implies #[trigger] nb[a].len() == sched.take(h + 2)[a] by {
                    if a <= h {
                        assert(nb[a] == built[a]);
                    }
                }
                assert forall|a: int, b: int| 0 <= a < nb.len() && 0 <= b < nb[a].len() implies #[trigger] nb[a][b].len()
                    == inputs_of(sched.take(h + 2), a) by {
                    if a <= h {
                        assert(nb[a] == built[a]);
                        assert(built[a][b].len() == inputs_of(sched.take(h + 1), a));
                    }
                }
                assert forall|a: int, b: int, c: int|
                    0 <= a < nb.len() && 0 <= b < nb[a].len() && 0 <= c < nb[a][b].len() implies -WEIGHT_SCALE
                        <= #[trigger] nb[a][b][c] <= WEIGHT_SCALE by {
                    if a <= h {
                        assert(nb[a] == built[a]);
                    }
                }
            }
            h = h + 1;
        }
        let r = Network { layers };
        proof {
            assert(sched.take(h + 1) =~= sched);
            assert(layer_sizes(r@) =~= sched);
        }
        r
    }

    /// Rebuilds a network from its flat form; fails exactly when the number
    /// of weights does not match the layer widths.
    pub fn from_data(data: FlatNetwork) -> (r: Result<Network, FlatError>)
        ensures
            r is Err <==> !data.wf(),
            r matches Ok(net) ==> net.wf() && layer_sizes(net@) == data.neurons@ && flat_weights(
                net@,
            ) == data.weights@,
    {
        if !data.is_wf() {
            return Err(FlatError::WeightCount);
        }
        let ghost sizes = data.neurons@;
        let total = data.weights.len();
        let mut layers: Vec<Layer> = Vec::new();
        let mut index: usize = 0;
        let mut l: usize = 0;
        while l < data.neurons.len()
            invariant
                sizes == data.neurons@,
                data.wf(),
                total == data.weights@.len(),
                l <= sizes.len(),
                index == weight_count(sizes.take(l as int)),
                shaped(layers@.map_values(|x: Layer| x@), sizes.take(l as int)),
                flat_weights(layers@.map_values(|x: Layer| x@)) == data.weights@.take(index as int),
            decreases sizes.len() - l,
        {
            let ghost built = layers@.map_values(|x: Layer| x@);
            proof {
                lemma_count_step(sizes, l as int);
                lemma_count_mono(sizes, l as int + 1);
            }
            let width = data.neurons[l];
            let inputs: usize = if l == 0 { 0 } else { data.neurons[l - 1] };
            assert(inputs == inputs_of(sizes, l as int));
            let mut neurons: Vec<Neuron> = Vec::new();
            let mut n: usize = 0;
            let ghost start = index as int;
            while n < width
                invariant
                    data.wf(),
                    sizes == data.neurons@,
                    n <= width,
                    width == sizes[l as int],
                    inputs == inputs_of(sizes, l as int),
                    start + width * inputs <= data.weights@.len(),
                    total == data.weights@.len(),
                    0 <= start,
                    index == start + n * inputs,
                    neurons@.len() == n,
                    forall|t: int| 0 <= t < n ==> (#[trigger] neurons@[t]).weights@.len() == inputs,
                    neurons@.map_values(|x: Neuron| x.weights@).flatten() == data.weights@.subrange(start, index as int),
                decreases width - n,
            {
                assert(n * inputs + inputs <= width * inputs && n * inputs >= 0) by (nonlinear_arith)
                    requires
                        n < width,
                ;
                let mut weights: Vec<i64> = Vec::new();
                let ghost base = index as int;
                while weights.len() < inputs
                    invariant
                        weights@.len() <= inputs,
                        index == base + weights@.len(),
                        base + inputs <= data.weights@.len(),
                        total == data.weights@.len(),
                        0 <= base,
                        weights@ == data.weights@.subrange(base, index as int),
                    decreases inputs - weights@.len(),
                {
                    weights.push(data.weights[index]);
                    index = index + 1;
                    assert(weights@ =~= data.weights@.subrange(base, index as int));
                }
                let ghost before = neurons@.map_values(|x: Neuron| x.weights@);
                neurons.push(Neuron { weights });
                proof {
                    broadcast use Seq::lemma_flatten_push;
                    assert(neurons@.map_values(|x: Neuron| x.weights@) =~= before.push(weights@));
                    assert(data.weights@.subrange(start, index as int) =~= data.weights@.subrange(start, base) + weights@);
                    lemma_mul_is_distributive_add_other_way(inputs as int, n as int, 1);
                }
                n = n + 1;
            }
            let ghost layer_view = neurons@.map_values(|x: Neuron| x.weights@);
            layers.push(Layer { neurons });
            proof {
                let nb = layers@.map_values(|x: Layer| x@);
                assert(nb =~= built.push(layer_view));
                assert(nb.drop_last() =~= built);
                assert(sizes.take(l + 1).drop_last() =~= sizes.take(l as int));
                assert forall|a: int| 0 <= a < nb.len() implies #[trigger] nb[a].len() == sizes.take(l + 1)[a] by {
                    if a < l {
                        assert(nb[a] == built[a]);
                    }
                }
                assert forall|a: int, b: int| 0 <= a < nb.len() && 0 <= b < nb[a].len() implies #[trigger] nb[a][b].len()
                    == inputs_of(sizes.take(l + 1), a) by {
                    if a < l {
                        assert(nb[a] == built[a]);
                        assert(built[a][b].len() == inputs_of(sizes.take(l as int), a));
                    } else {
                        assert(nb[a][b] == neurons@[b].weights@);
                    }
                }
                assert(data.weights@.take(index as int) =~= data.weights@.take(start) + data.weights@.subrange(start, index as int));
            }
            l = l + 1;
        }
        proof {
            assert(sizes.take(l as int) =~= sizes);
            let v = layers@.map_values(|x: Layer| x@);
            assert(layer_sizes(v) =~= sizes);
            assert(data.weights@.take(index as int) =~= data.weights@);
        }
        Ok(Network { layers })
    }

    /// The flat form: layer widths, then all weights in order.
    pub fn into_data(self) -> (r: FlatNetwork)
        ensures
            r.neurons@ == layer_sizes(self@),
            r.weights@ == flat_weights(self@),
            self.wf() ==> r.wf(),
    {
        let ghost v = self@;
        let mut neurons: Vec<usize> = Vec::new();
        let mut weights: Vec<i64> = Vec::new();
        let mut l: usize = 0;
        while l < self.layers.len()
            invariant
                v == self@,
                l <= v.len(),
                neurons@ == layer_sizes(v).take(l as int),
                weights@ == flat_weights(v.take(l as int)),
            decreases v.len() - l,
        {
            let layer = &self.layers[l];
            assert(layer@ == v[l as int]);
            neurons.push(layer.neurons.len());
            assert(neurons@ =~= layer_sizes(v).take(l + 1));
            let mut n: usize = 0;
            assert(v[l as int].take(0) =~= seq![]);
            assert(weights@ =~= flat_weights(v.take(l as int)) + v[l as int].take(0).flatten());
            while n < layer.neurons.len()
                invariant
                    layer@ == v[l as int],
                    n <= layer@.len(),
                    weights@ == flat_weights(v.take(l as int)) + v[l as int].take(n as int).flatten(),
                decreases layer@.len() - n,
            {
                let neuron = &layer.neurons[n];
                assert(neuron.weights@ == v[l as int][n as int]);
                let ghost base = weights@;
                let mut w: usize = 0;
                while w < neuron.weights.len()
                    invariant
                        w <= neuron.weights@.len(),
                        weights@ == base + neuron.weights@.take(w as int),
                    decreases neuron.weights@.len() - w,
                {
                    weights.push(neuron.weights[w]);
                    w = w + 1;
                    assert(weights@ =~= base + neuron.weights@.take(w as int));
                }
                proof {
                    lemma_neuron_step(v[l as int], n as int);
                    assert(neuron.weights@.take(w as int) =~= neuron.weights@);
                }
                n = n + 1;
                assert(weights@ =~= flat_weights(v.take(l as int)) + v[l as int].take(n as int).flatten());
            }
            proof {
                lemma_flat_step(v, l as int);
                assert(v[l as int].take(n as int) =~= v[l as int]);
            }
            l = l + 1;
        }
        proof {
            assert(v.take(l as int) =~= v);
            assert(layer_sizes(v).take(l as int) =~= layer_sizes(v));
            if self.wf() {
                lemma_flat_len(v, layer_sizes(v));
            }
        }
        FlatNetwork { neurons, weights }
    }
}

} // verus!
