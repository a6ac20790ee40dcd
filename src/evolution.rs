use vstd::prelude::*;
use vstd::arithmetic::div_mod::lemma_fundamental_div_mod_converse;
use crate::network::{FlatNetwork, WEIGHT_SCALE, same_widths};
use crate::rng::random_in;

verus! {

/// Share `per_mille` thousandths of `n`, rounded half up.
pub open spec fn round_share(per_mille: int, n: int) -> int {
    (per_mille * n + 500) / 1000
}

/// The breeding pair after `(i, max)`: the scan runs `max` through the
/// genomes cyclically and `i` through `0..max`.
pub open spec fn pair_step(p: (int, int), len: int) -> (int, int) {
    if p.0 + 1 < p.1 {
        (p.0 + 1, p.1)
    } else if p.1 + 1 < len {
        (0, p.1 + 1)
    } else {
        (0, 1)
    }
}

/// The `n`-th breeding pair of the scan.
pub open spec fn pair_at(n: nat, len: int) -> (int, int)
    decreases n,
{
    if n == 0 {
        (0, 1)
    } else {
        pair_step(pair_at((n - 1) as nat, len), len)
    }
}

/// Weight `c` is one of the parents' weights, moved by at most `range`.
pub open spec fn crossed(c: i64, w1: i64, w2: i64, range: i64) -> bool {
    (w1 - range <= c <= w1 + range) || (w2 - range <= c <= w2 + range)
}

/// A child of `p1` and `p2`: the topology of `p1`, each weight taken from
/// either parent and mutated by at most `range`.
pub open spec fn child_of(c: FlatNetwork, p1: FlatNetwork, p2: FlatNetwork, range: i64) -> bool {
    &&& c.neurons@ == p1.neurons@
    &&& c.weights@.len() == p1.weights@.len()
    &&& forall|j: int|
        0 <= j < c.weights@.len() ==> crossed(
            #[trigger] c.weights@[j],
            p1.weights@[j],
            p2.weights@[j],
            range,
        )
}

/// The knobs of the genetic algorithm. Fractions are in thousandths.
#[derive(Clone, Copy, Debug)]
pub struct Settings {
    /// Networks in each population.
    pub population: usize,
    /// Share of the population copied unchanged from the best genomes.
    pub elitism: usize,
    /// Share of the population drawn at random.
    pub random_behaviour: usize,
    /// Chance that a bred weight is mutated.
    pub mutation_rate: usize,
    /// Largest change a mutation makes to a weight.
    pub mutation_range: i64,
    /// Children of each breeding pair.
    pub offspring: usize,
}

impl Settings {
    pub open spec fn wf(&self) -> bool {
        &&& self.elitism <= 1000
        &&& self.random_behaviour <= 1000
        &&& self.mutation_rate <= 1000
        &&& 0 <= self.mutation_range <= WEIGHT_SCALE
        &&& self.offspring >= 1
    }

    /// Networks carried over unchanged.
    pub open spec fn elite_count(&self) -> int {
        round_share(self.elitism as int, self.population as int)
    }

    /// Networks drawn at random, as far as the population has room.
    pub open spec fn random_count(&self) -> int {
        let r = round_share(self.random_behaviour as int, self.population as int);
        let room = self.population - self.elite_count();
        if r <= room {
            r
        } else {
            room
        }
    }

    /// Position of the first bred network.
    pub open spec fn bred_start(&self) -> int {
        self.elite_count() + self.random_count()
    }

    /// The values the game was tuned with: 50 networks, a fifth elite, a fifth
    /// random, a tenth of bred weights mutated by up to a half, one child per pair.
    pub open spec fn is_standard(&self) -> bool {
        &&& self.population == 50
        &&& self.elitism == 200
        &&& self.random_behaviour == 200
        &&& self.mutation_rate == 100
        &&& self.mutation_range == WEIGHT_SCALE / 2
        &&& self.offspring == 1
    }

    /// The standard settings.
    pub fn standard() -> (r: Settings)
        ensures
            r.wf(),
            r.is_standard(),
    {
        Settings {
            population: 50,
            elitism: 200,
            random_behaviour: 200,
            mutation_rate: 100,
            mutation_range: WEIGHT_SCALE / 2,
            offspring: 1,
        }
    }
}

/// A network with the points it scored.
#[derive(Clone, Debug)]
pub struct Genome {
    pub score: u32,
    pub network: FlatNetwork,
}

impl Genome {
    pub fn new(score: u32, network: FlatNetwork) -> (r: Genome)
        ensures
            r.score == score,
            r.network == network,
    {
        Genome { score, network }
    }
}

/// Why no population could be bred from a generation.
#[derive(Clone, Copy, Debug, PartialEq, Eq, Structural)]
pub enum BreedError {
    /// Fewer genomes than the elite, none at all, or fewer than two where breeding is needed.
    TooFewGenomes,
    /// The genomes do not all share the first genome's well-formed topology.
    MismatchedNetworks,
}

/// Scores never increase along the sequence.
pub open spec fn sorted_desc(g: Seq<Genome>) -> bool {
    forall|a: int, b: int| 0 <= a < b < g.len() ==> g[a].score >= g[b].score
}

/// Every genome is well formed and has the first genome's layer widths.
pub open spec fn uniform(g: Seq<Genome>) -> bool {
    forall|k: int|
        0 <= k < g.len() ==> (#[trigger] g[k]).network.wf() && g[k].network.neurons@
            == g[0].network.neurons@
}

/// Where a genome of score `s` goes: before the first genome that scored less.
pub open spec fn insert_position(g: Seq<Genome>, s: u32) -> int
    decreases g.len(),
{
    if g.len() == 0 {
        0
    } else if g.last().score < s {
        insert_position(g.drop_last(), s)
    } else {
        g.len() as int
    }
}

pub(crate) proof fn lemma_insert_position(g: Seq<Genome>, s: u32)
    requires
        sorted_desc(g),
    ensures
        0 <= insert_position(g, s) <= g.len(),
        forall|a: int| 0 <= a < insert_position(g, s) ==> g[a].score >= s,
        forall|a: int| insert_position(g, s) <= a < g.len() ==> g[a].score < s,
    decreases g.len(),
{
    if g.len() > 0 {
        let d = g.drop_last();
        assert(sorted_desc(d)) by {
            assert forall|a: int, b: int| 0 <= a < b < d.len() implies d[a].score >= d[b].score by {
                assert(d[a] == g[a] && d[b] == g[b]);
            }
        }
        lemma_insert_position(d, s);
        assert forall|a: int| 0 <= a < d.len() implies d[a] == g[a] by {}
        if g.last().score >= s {
            assert forall|a: int| 0 <= a < g.len() implies g[a].score >= s by {
                if a < g.len() - 1 {
                    assert(g[a].score >= g[g.len() - 1].score);
                }
            }
        }
    }
}

/// Why breeding from genomes `g` under `s` cannot go ahead, if it cannot.
pub open spec fn breed_error(g: Seq<Genome>, s: Settings) -> Option<BreedError> {
    if g.len() == 0 || g.len() < s.elite_count() || (s.bred_start() < s.population && g.len() < 2) {
        Some(BreedError::TooFewGenomes)
    } else if !uniform(g) {
        Some(BreedError::MismatchedNetworks)
    } else {
        None
    }
}

/// `r` is a population bred from genomes `g` under `s`: first the elite,
/// copied unchanged from the best genomes; then networks of the best genome's
/// topology with random weights between -1 and 1; then children of the pairs
/// of the breeding scan, `offspring` per pair, until the population is full.
pub open spec fn next_population(g: Seq<Genome>, s: Settings, r: Seq<FlatNetwork>) -> bool {
    &&& r.len() == s.population
    &&& forall|k: int|
        0 <= k < s.elite_count() ==> (#[trigger] r[k]).neurons@ == g[k].network.neurons@
            && r[k].weights@ == g[k].network.weights@
    &&& forall|k: int|
        s.elite_count() <= k < s.bred_start() ==> {
            &&& (#[trigger] r[k]).neurons@ == g[0].network.neurons@
            &&& r[k].weights@.len() == g[0].network.weights@.len()
            &&& forall|j: int|
                0 <= j < r[k].weights@.len() ==> -WEIGHT_SCALE <= #[trigger] r[k].weights@[j]
                    <= WEIGHT_SCALE
        }
    &&& forall|k: int|
        s.bred_start() <= k < s.population ==> {
            let p = pair_at(((k - s.bred_start()) / s.offspring as int) as nat, g.len() as int);
            child_of(#[trigger] r[k], g[p.0].network, g[p.1].network, s.mutation_range)
        }
}

proof fn lemma_pair_in_range(n: nat, len: int)
    requires
        len >= 2,
    ensures
        0 <= pair_at(n, len).0 < pair_at(n, len).1 < len,
    decreases n,
{
    if n > 0 {
        lemma_pair_in_range((n - 1) as nat, len);
    }
}

/// Breeding never changes topology: every network of a population bred from
/// a generation has the layer widths of every genome of that generation, and
/// the weight count they call for.
pub proof fn lemma_population_topology(g: Seq<Genome>, s: Settings, r: Seq<FlatNetwork>)
    requires
        s.wf(),
        breed_error(g, s) is None,
        next_population(g, s, r),
    ensures
        forall|k: int, m: int|
            0 <= k < r.len() && 0 <= m < g.len() ==> (#[trigger] r[k]).neurons@ == (
            #[trigger] g[m]).network.neurons@,
        forall|k: int| 0 <= k < r.len() ==> (#[trigger] r[k]).wf(),
{
    assert forall|k: int| 0 <= k < r.len() implies (#[trigger] r[k]).wf() && r[k].neurons@
        == g[0].network.neurons@ by {
        if k < s.elite_count() {
            assert(g[k].network.wf() && g[k].network.neurons@ == g[0].network.neurons@);
        } else if k < s.bred_start() {
            assert(g[0].network.wf());
        } else {
            let p = pair_at(((k - s.bred_start()) / s.offspring as int) as nat, g.len() as int);
            lemma_pair_in_range(((k - s.bred_start()) / s.offspring as int) as nat, g.len() as int);
            assert(child_of(r[k], g[p.0].network, g[p.1].network, s.mutation_range));
            assert(g[p.0].network.wf() && g[p.0].network.neurons@ == g[0].network.neurons@);
        }
    }
    assert forall|k: int, m: int|
        0 <= k < r.len() && 0 <= m < g.len() implies (#[trigger] r[k]).neurons@ == (
        #[trigger] g[m]).network.neurons@ by {
        assert(g[m].network.neurons@ == g[0].network.neurons@);
    }
}

/// The scored networks of one round, best first.
#[derive(Clone, Debug)]
pub struct Generation {
    pub genomes: Vec<Genome>,
}

/// `v` moved by `d`, stopping at the ends of `i64`.
fn shift(v: i64, d: i64) -> (r: i64)
    ensures
        r == shifted(v, d),
        d >= 0 ==> v <= r <= v + d,
        d < 0 ==> v + d <= r <= v,
{
    match v.checked_add(d) {
        Some(r) => r,
        None => if d >= 0 {
            i64::MAX
        } else {
            i64::MIN
        },
    }
}

/// `v` moved by `d`, stopping at the ends of `i64`.
pub open spec fn shifted(v: i64, d: i64) -> i64 {
    if v + d > i64::MAX {
        i64::MAX
    } else if v + d < i64::MIN {
        i64::MIN
    } else {
        (v + d) as i64
    }
}

/// One bred weight from the draws made for it: the first parent's weight if
/// `take_first`, else the second's, then moved by the mutation, if any.
pub fn cross_weight(w1: i64, w2: i64, take_first: bool, mutation: Option<i64>) -> (r: i64)
    ensures
        r == match mutation {
            Some(d) => shifted(if take_first { w1 } else { w2 }, d),
            None => if take_first { w1 } else { w2 },
        },
{
    let val = if take_first {
        w1
    } else {
        w2
    };
    match mutation {
        Some(d) => shift(val, d),
        None => val,
    }
}

/// A network of the same layer widths as `template` whose weights are drawn
/// at random between -1 and 1.
pub fn random_network(template: &FlatNetwork) -> (r: FlatNetwork)
    ensures
        r.neurons@ == template.neurons@,
        r.weights@.len() == template.weights@.len(),
        forall|j: int| 0 <= j < r.weights@.len() ==> -WEIGHT_SCALE <= #[trigger] r.weights@[j] <= WEIGHT_SCALE,
{
    let neurons = template.neurons.clone();
    assert(neurons@ =~= template.neurons@);
    let mut weights: Vec<i64> = Vec::new();
    while weights.len() < template.weights.len()
        invariant
            weights@.len() <= template.weights@.len(),
            forall|j: int| 0 <= j < weights@.len() ==> -WEIGHT_SCALE <= #[trigger] weights@[j] <= WEIGHT_SCALE,
        decreases template.weights@.len() - weights@.len(),
    {
        weights.push(random_in(-WEIGHT_SCALE, WEIGHT_SCALE));
    }
    FlatNetwork { neurons, weights }
}

impl Generation {
    pub fn new() -> (r: Generation)
        ensures
            r.genomes@.len() == 0,
    {
        Generation { genomes: Vec::new() }
    }

    /// Inserts `genome` after every genome that scored at least as much, so
    /// the generation stays sorted best first.
    pub fn add_genome(&mut self, genome: Genome)
        requires
            sorted_desc(old(self).genomes@),
        ensures
            final(self).genomes@ == old(self).genomes@.insert(
                insert_position(old(self).genomes@, genome.score),
                genome,
            ),
            sorted_desc(final(self).genomes@),
    {
        let ghost g = self.genomes@;
        proof {
            lemma_insert_position(g, genome.score);
        }
        let mut i: usize = 0;
        while i < self.genomes.len() && self.genomes[i].score >= genome.score
            invariant
                self.genomes@ == g,
                i <= g.len(),
                forall|a: int| 0 <= a < i ==> g[a].score >= genome.score,
            decreases g.len() - i,
        {
            i = i + 1;
        }
        let position = i;
        proof {
            let p = insert_position(g, genome.score);
            if position < g.len() {
                assert(g[position as int].score < genome.score);
                assert(position as int == p) by {
                    if p < position {
                        assert(g[p].score < genome.score);
                    }
                }
            } else {
                assert(position as int == p) by {
                    if p < g.len() {
                        assert(g[p].score < genome.score);
                    }
                }
            }
        }
        let ghost s = genome.score;
        self.genomes.insert(position, genome);
        proof {
            let n = self.genomes@;
            assert forall|a: int, b: int| 0 <= a < b < n.len() implies n[a].score >= n[b].score by {
                if b < position {
                } else if b == position {
                    assert(n[b].score == s);
                } else if a == position {
                    assert(n[a].score == s);
                    assert(n[b] == g[b - 1]);
                } else if a < position {
                    assert(n[b] == g[b - 1]);
                } else {
                    assert(n[a] == g[a - 1]);
                    assert(n[b] == g[b - 1]);
                }
            }
        }
    }

    /// The next population, bred from this generation as `next_population`
    /// says, or the reason it cannot be (see `breed_error`).
    pub fn generate_next_generation(&mut self, settings: &Settings) -> (r: Result<Vec<FlatNetwork>, BreedError>)
        requires
            settings.wf(),
        ensures
            final(self).genomes@ == old(self).genomes@,
            match r {
                Ok(nets) => breed_error(old(self).genomes@, *settings) is None && next_population(
                    old(self).genomes@,
                    *settings,
                    nets@,
                ),
                Err(e) => breed_error(old(self).genomes@, *settings) == Some(e),
            },
    {
        let ghost g = self.genomes@;
        let pop = settings.population;
        assert(settings.elitism as int * pop as int <= 1000 * usize::MAX as int
            && settings.random_behaviour as int * pop as int <= 1000 * usize::MAX as int) by (nonlinear_arith)
            requires
                settings.elitism <= 1000,
                settings.random_behaviour <= 1000,
                pop <= usize::MAX,
        ;
        let elite_wide: u128 = (settings.elitism as u128 * pop as u128 + 500) / 1000;
        let random_wide: u128 = (settings.random_behaviour as u128 * pop as u128 + 500) / 1000;
        assert(elite_wide <= pop) by (nonlinear_arith)
            requires
                elite_wide == (settings.elitism * pop + 500) / 1000,
                settings.elitism <= 1000,
        ;
        let elite = elite_wide as usize;
        let random = if random_wide <= (pop - elite) as u128 {
            random_wide as usize
        } else {
            pop - elite
        };
        let start = elite + random;
        assert(elite == settings.elite_count());
        assert(start == settings.bred_start());
        let len = self.genomes.len();
        if len == 0 || len < elite || (start < pop && len < 2) {
            return Err(BreedError::TooFewGenomes);
        }
        let mut k: usize = 0;
        while k < len
            invariant
                self.genomes@ == g,
                len == g.len(),
                len > 0,
                k <= len,
                elite == settings.elite_count(),
                start == settings.bred_start(),
                pop == settings.population,
                !(len < elite),
                !(start < pop && len < 2),
                forall|t: int|
                    0 <= t < k ==> (#[trigger] g[t]).network.wf() && g[t].network.neurons@
                        == g[0].network.neurons@,
            decreases len - k,
        {
            if !self.genomes[k].network.is_wf() || !same_widths(
                &self.genomes[k].network.neurons,
                &self.genomes[0].network.neurons,
            ) {
                assert(!uniform(g)) by {
                    assert(!(g[k as int].network.wf() && g[k as int].network.neurons@ == g[0].network.neurons@));
                }
                return Err(BreedError::MismatchedNetworks);
            }
            k = k + 1;
        }
        let mut nexts: Vec<FlatNetwork> = Vec::new();
        while nexts.len() < elite
            invariant
                self.genomes@ == g,
                elite <= len,
                len == g.len(),
                nexts@.len() <= elite,
                forall|t: int|
                    0 <= t < nexts@.len() ==> (#[trigger] nexts@[t]).neurons@ == g[t].network.neurons@
                        && nexts@[t].weights@ == g[t].network.weights@,
            decreases elite - nexts@.len(),
        {
            let n = self.genomes[nexts.len()].network.copy();
            nexts.push(n);
        }
        while nexts.len() < start
            invariant
                self.genomes@ == g,
                len > 0,
                len == g.len(),
                elite <= nexts@.len() <= start,
                forall|t: int|
                    0 <= t < elite ==> (#[trigger] nexts@[t]).neurons@ == g[t].network.neurons@
                        && nexts@[t].weights@ == g[t].network.weights@,
                forall|t: int|
                    elite <= t < nexts@.len() ==> {
                        &&& (#[trigger] nexts@[t]).neurons@ == g[0].network.neurons@
                        &&& nexts@[t].weights@.len() == g[0].network.weights@.len()
                        &&& forall|j: int|
                            0 <= j < nexts@[t].weights@.len() ==> -WEIGHT_SCALE
                                <= #[trigger] nexts@[t].weights@[j] <= WEIGHT_SCALE
                    },
            decreases start - nexts@.len(),
        {
            let n = random_network(&self.genomes[0].network);
            nexts.push(n);
        }
        if nexts.len() >= pop {
            return Ok(nexts);
        }
        let ghost prefix = nexts@;
        let offspring = settings.offspring;
        let ghost range = settings.mutation_range;
        let mut i: usize = 0;
        let mut max: usize = 1;
        let ghost mut pairs: nat = 0;
        while nexts.len() < pop
            invariant
                self.genomes@ == g,
                uniform(g),
                len == g.len(),
                len >= 2,
                settings.wf(),
                offspring == settings.offspring,
                range == settings.mutation_range,
                start <= pop,
                nexts@.len() <= pop,
                nexts@.len() == start + pairs * offspring || nexts@.len() == pop,
                nexts@.len() >= start,
                (i as int, max as int) == pair_at(pairs, len as int),
                prefix.len() == start,
                elite == settings.elite_count(),
                start == settings.bred_start(),
                pop == settings.population,
                forall|t: int| 0 <= t < start ==> #[trigger] nexts@[t] == prefix[t],
                forall|t: int|
                    0 <= t < elite ==> (#[trigger] prefix[t]).neurons@ == g[t].network.neurons@
                        && prefix[t].weights@ == g[t].network.weights@,
                forall|t: int|
                    elite <= t < start ==> {
                        &&& (#[trigger] prefix[t]).neurons@ == g[0].network.neurons@
                        &&& prefix[t].weights@.len() == g[0].network.weights@.len()
                        &&& forall|j: int|
                            0 <= j < prefix[t].weights@.len() ==> -WEIGHT_SCALE
                                <= #[trigger] prefix[t].weights@[j] <= WEIGHT_SCALE
                    },
                forall|t: int|
                    start <= t < nexts@.len() ==> {
                        let p = pair_at(((t - start) / offspring as int) as nat, len as int);
                        child_of(#[trigger] nexts@[t], g[p.0].network, g[p.1].network, range)
                    },
            decreases pop - nexts@.len(),
        {
            proof {
                lemma_pair_in_range(pairs, len as int);
            }
            let childs = self.breed(i, max, settings);
            let mut c: usize = 0;
            let ghost before = nexts@;
            while c < childs.len() && nexts.len() < pop
                invariant
                    childs@.len() == offspring,
                    offspring >= 1,
                    c <= offspring,
                    before.len() == start + pairs * offspring,
                    nexts@.len() == before.len() + c,
                    nexts@.len() <= pop,
                    forall|t: int| 0 <= t < before.len() ==> nexts@[t] == before[t],
                    forall|t: int|
                        0 <= t < childs@.len() ==> child_of(
                            (#[trigger] childs@[t]).network,
                            g[i as int].network,
                            g[max as int].network,
                            range,
                        ),
                    forall|t: int|
                        before.len() <= t < nexts@.len() ==> child_of(
                            #[trigger] nexts@[t],
                            g[i as int].network,
                            g[max as int].network,
                            range,
                        ),
                decreases offspring - c,
            {
                let n = childs[c].network.copy();
                assert(child_of(childs@[c as int].network, g[i as int].network, g[max as int].network, range));
                nexts.push(n);
                c = c + 1;
            }
            proof {
                assert forall|t: int| 0 <= t < start implies #[trigger] nexts@[t] == prefix[t] by {
                    assert(nexts@[t] == before[t]);
                }
                assert(start + pairs * offspring + offspring == start + (pairs + 1) * offspring) by (nonlinear_arith);
                assert forall|t: int| start <= t < nexts@.len() implies {
                    let p = pair_at(((t - start) / offspring as int) as nat, len as int);
                    child_of(#[trigger] nexts@[t], g[p.0].network, g[p.1].network, range)
                } by {
                    if t >= before.len() {
                        let q = t - before.len();
                        lemma_fundamental_div_mod_converse(t - start, offspring as int, pairs as int, q);
                    } else {
                        assert(nexts@[t] == before[t]);
                    }
                }
            }
            if i + 1 < max {
                i = i + 1;
            } else if max + 1 < len {
                i = 0;
                max = max + 1;
            } else {
                i = 0;
                max = 1;
            }
            proof {
                pairs = pairs + 1;
            }
        }
        proof {
            assert(nexts@.len() == pop);
            assert forall|t: int| 0 <= t < start implies #[trigger] nexts@[t] == prefix[t] by {}
        }
        Ok(nexts)
    }

    /// `offspring` children of genomes `i` and `max`. Each takes the first
    /// parent's score and topology; each weight comes from either parent with
    /// even chance, then with chance `mutation_rate` thousandths moves by a
    /// random amount of at most `mutation_range`.
    pub fn breed(&self, i: usize, max: usize, settings: &Settings) -> (r: Vec<Genome>)
        requires
            settings.wf(),
            i < self.genomes@.len(),
            max < self.genomes@.len(),
            self.genomes@[i as int].network.weights@.len() == self.genomes@[max as int].network.weights@.len(),
        ensures
            r@.len() == settings.offspring,
            forall|c: int|
                0 <= c < r@.len() ==> (#[trigger] r@[c]).score == self.genomes@[i as int].score
                    && child_of(
                    r@[c].network,
                    self.genomes@[i as int].network,
                    self.genomes@[max as int].network,
                    settings.mutation_range,
                ),
    {
        let g1 = &self.genomes[i];
        let g2 = &self.genomes[max];
        let range = settings.mutation_range;
        let mut r: Vec<Genome> = Vec::new();
        while r.len() < settings.offspring
            invariant
                r@.len() <= settings.offspring,
                settings.wf(),
                range == settings.mutation_range,
                g1.network.weights@.len() == g2.network.weights@.len(),
                forall|c: int|
                    0 <= c < r@.len() ==> (#[trigger] r@[c]).score == g1.score && child_of(
                        r@[c].network,
                        g1.network,
                        g2.network,
                        range,
                    ),
            decreases settings.offspring - r@.len(),
        {
            let neurons = g1.network.neurons.clone();
            assert(neurons@ =~= g1.network.neurons@);
            let mut weights: Vec<i64> = Vec::new();
            let n = g1.network.weights.len();
            while weights.len() < n
                invariant
                    n == g1.network.weights@.len(),
                    n == g2.network.weights@.len(),
                    weights@.len() <= n,
                    0 <= range <= WEIGHT_SCALE,
                    settings.mutation_rate <= 1000,
                    forall|j: int|
                        0 <= j < weights@.len() ==> crossed(
                            #[trigger] weights@[j],
                            g1.network.weights@[j],
                            g2.network.weights@[j],
                            range,
                        ),
                decreases n - weights@.len(),
            {
                let j = weights.len();
                let w1 = g1.network.weights[j];
                let w2 = g2.network.weights[j];
                let take_first = random_in(0, 1) == 1;
                let mutation = if random_in(0, 999) < settings.mutation_rate as i64 {
                    Some(random_in(-range, range))
                } else {
                    None
                };
                weights.push(cross_weight(w1, w2, take_first, mutation));
            }
            r.push(Genome { score: g1.score, network: FlatNetwork { neurons, weights } });
        }
        r
    }
}

} // verus!
