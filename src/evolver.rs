use vstd::prelude::*;
use crate::evolution::{
    BreedError, Generation, Genome, Settings, breed_error, insert_position, lemma_insert_position, lemma_population_topology,
    next_population, sorted_desc,
};
use crate::network::{
    FlatNetwork, Network, Options, flat_weights, layer_sizes, schedule, unit_weights,
};

verus! {

/// Genomes ranked as inserting the saved `(network, score)` pairs one after
/// the other into an empty generation ranks them.
pub open spec fn ranked(saved: Seq<(FlatNetwork, u32)>) -> Seq<Genome>
    decreases saved.len(),
{
    if saved.len() == 0 {
        seq![]
    } else {
        let g = ranked(saved.drop_last());
        let last = saved.last();
        g.insert(insert_position(g, last.1), Genome { score: last.1, network: last.0 })
    }
}

/// The genomes of a generation slot, if it holds one.
pub open spec fn genomes_of(slot: Option<Generation>) -> Option<Seq<Genome>> {
    match slot {
        Some(g) => Some(g.genomes@),
        None => None,
    }
}

/// Runs the generations of the genetic algorithm. It holds the options of
/// the networks, the settings of breeding, and the generation that collects
/// the scores of the current round (`None` before the first round).
pub struct Evolver {
    options: Options,
    settings: Settings,
    last_gen: Option<Generation>,
}

impl Evolver {
    /// The genomes collected in the current round; `None` before the first.
    pub closed spec fn slot(&self) -> Option<Seq<Genome>> {
        genomes_of(self.last_gen)
    }

    /// Input width, hidden layer widths and output width of the networks.
    pub closed spec fn options_spec(&self) -> Options {
        self.options
    }

    /// The settings of breeding.
    pub closed spec fn settings_spec(&self) -> Settings {
        self.settings
    }

    /// Settings are sound and the current generation is sorted best first.
    pub open spec fn wf(&self) -> bool {
        &&& self.settings_spec().wf()
        &&& self.slot() matches Some(g) ==> sorted_desc(g)
    }

    /// An evolver with the standard settings and no generation yet.
    pub fn new(options: Options) -> (r: Evolver)
        ensures
            r.wf(),
            r.options_spec() == options,
            r.settings_spec().is_standard(),
            r.slot() is None,
    {
        Evolver { options, settings: Settings::standard(), last_gen: None }
    }

    /// An evolver with the given settings and no generation yet.
    pub fn with_settings(options: Options, settings: Settings) -> (r: Evolver)
        requires
            settings.wf(),
        ensures
            r.wf(),
            r.options_spec() == options,
            r.settings_spec() == settings,
            r.slot() is None,
    {
        Evolver { options, settings, last_gen: None }
    }

    /// An evolver that resumes from a saved round: its generation holds the
    /// saved networks with their scores, ranked best first.
    pub fn from_save(options: Options, networks: Vec<(FlatNetwork, u32)>) -> (r: Evolver)
        ensures
            r.wf(),
            r.options_spec() == options,
            r.settings_spec().is_standard(),
            r.slot() == Some(ranked(networks@)),
    {
        let ghost saved = networks@;
        let mut networks = networks;
        let mut generation = Generation::new();
        let mut i: usize = 0;
        let n = networks.len();
        while networks.len() > 0
            invariant
                i + networks@.len() == n,
                n == saved.len(),
                networks@ == saved.skip(i as int),
                generation.genomes@ == ranked(saved.take(i as int)),
                sorted_desc(generation.genomes@),
            decreases networks@.len(),
        {
            let (network, score) = networks.remove(0);
            proof {
                assert(saved.take(i + 1).drop_last() =~= saved.take(i as int));
                assert(saved.take(i + 1).last() == saved[i as int]);
            }
            generation.add_genome(Genome::new(score, network));
            i = i + 1;
            assert(networks@ =~= saved.skip(i as int));
        }
        assert(saved.take(i as int) =~= saved);
        Evolver { options, settings: Settings::standard(), last_gen: Some(generation) }
    }

    /// Whether the next population is the first, which needs the bootstrap training.
    pub fn needs_bootstrap(&self) -> (r: bool)
        ensures
            r == self.slot() is None,
    {
        self.last_gen.is_none()
    }

    /// The generation collecting the current round's scores, if any.
    pub fn generation(&self) -> (r: Option<&Generation>)
        ensures
            match (r, self.slot()) {
                (Some(g), Some(s)) => g.genomes@ == s,
                (None, None) => true,
                _ => false,
            },
    {
        match &self.last_gen {
            Some(g) => Some(g),
            None => None,
        }
    }

    /// The next population, and a fresh empty generation to collect its scores.
    /// Before the first round: random networks of the widths the options ask
    /// for, to be trained. After a round: a population bred from its genomes
    /// (see `next_population`), or the reason it cannot be, which leaves the
    /// evolver as it was.
    pub fn next_generation(&mut self) -> (r: Result<Vec<Network>, BreedError>)
        requires
            old(self).wf(),
        ensures
            final(self).wf(),
            final(self).options_spec() == old(self).options_spec(),
            final(self).settings_spec() == old(self).settings_spec(),
            r is Ok ==> final(self).slot() == Some(Seq::<Genome>::empty()),
            r matches Ok(nets) ==> nets@.len() == old(self).settings_spec().population,
            r is Err ==> final(self).slot() == old(self).slot(),
            old(self).slot() is None ==> (r matches Ok(nets) && nets@.len()
                == old(self).settings_spec().population && forall|k: int|
                0 <= k < nets@.len() ==> {
                    &&& (#[trigger] nets@[k]).wf()
                    &&& layer_sizes(nets@[k]@) == schedule(old(self).options_spec())
                    &&& unit_weights(nets@[k]@)
                }),
            old(self).slot() matches Some(g) ==> match r {
                Ok(nets) => breed_error(g, old(self).settings_spec()) is None && exists|flat: Seq<FlatNetwork>|
                    {
                        &&& next_population(g, old(self).settings_spec(), flat)
                        &&& nets@.len() == flat.len()
                        &&& forall|k: int|
                            0 <= k < nets@.len() ==> (#[trigger] nets@[k]).wf() && layer_sizes(nets@[k]@)
                                == flat[k].neurons@ && flat_weights(nets@[k]@) == flat[k].weights@
                    },
                Err(e) => breed_error(g, old(self).settings_spec()) == Some(e),
            },
    {
        let settings = self.settings;
        match &mut self.last_gen {
            None => {
                let mut nets: Vec<Network> = Vec::new();
                while nets.len() < settings.population
                    invariant
                        nets@.len() <= settings.population,
                        forall|k: int|
                            0 <= k < nets@.len() ==> {
                                &&& (#[trigger] nets@[k]).wf()
                                &&& layer_sizes(nets@[k]@) == schedule(self.options)
                                &&& unit_weights(nets@[k]@)
                            },
                    decreases settings.population - nets@.len(),
                {
                    nets.push(Network::random(&self.options));
                }
                self.last_gen = Some(Generation::new());
                Ok(nets)
            },
            Some(generation) => {
                let flat = match generation.generate_next_generation(&settings) {
                    Ok(flat) => flat,
                    Err(e) => {
                        return Err(e);
                    },
                };
                let ghost g = generation.genomes@;
                proof {
                    lemma_population_topology(g, settings, flat@);
                }
                let ghost all = flat@;
                let mut flat = flat;
                let mut nets: Vec<Network> = Vec::new();
                while flat.len() > 0
                    invariant
                        nets@.len() + flat@.len() == all.len(),
                        flat@ == all.skip(nets@.len() as int),
                        forall|k: int| 0 <= k < all.len() ==> (#[trigger] all[k]).wf(),
                        forall|k: int|
                            0 <= k < nets@.len() ==> (#[trigger] nets@[k]).wf() && layer_sizes(nets@[k]@)
                                == all[k].neurons@ && flat_weights(nets@[k]@) == all[k].weights@,
                    decreases flat@.len(),
                {
                    let ghost k = nets@.len() as int;
                    let data = flat.remove(0);
                    assert(data == all[k]);
                    match Network::from_data(data) {
                        Ok(net) => {
                            nets.push(net);
                        },
                        Err(_) => {
                            assert(false);
                        },
                    }
                    assert(flat@ =~= all.skip(nets@.len() as int));
                }
                self.last_gen = Some(Generation::new());
                Ok(nets)
            },
        }
    }

    /// Records that `network` scored `score` in the current round.
    pub fn network_score(&mut self, network: Network, score: u32)
        requires
            old(self).wf(),
            old(self).slot() is Some,
        ensures
            final(self).wf(),
            final(self).options_spec() == old(self).options_spec(),
            final(self).settings_spec() == old(self).settings_spec(),
            match (final(self).slot(), old(self).slot()) {
                (Some(g), Some(g0)) => {
                    let p = insert_position(g0, score);
                    &&& g == g0.insert(p, g[p])
                    &&& g[p].score == score
                    &&& g[p].network.neurons@ == layer_sizes(network@)
                    &&& g[p].network.weights@ == flat_weights(network@)
                },
                _ => false,
            },
    {
        let genome = Genome::new(score, network.into_data());
        match &mut self.last_gen {
            Some(generation) => {
                proof {
                    lemma_insert_position(generation.genomes@, score);
                }
                generation.add_genome(genome);
            },
            None => {},
        }
    }
}

} // verus!
