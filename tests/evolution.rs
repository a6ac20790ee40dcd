use matsuo::evolution::{cross_weight, random_network, BreedError, Generation, Genome, Settings};
use matsuo::network::{FlatNetwork, WEIGHT_SCALE};

fn net(base: i64) -> FlatNetwork {
    FlatNetwork {
        neurons: vec![2, 2, 1],
        weights: vec![base, base + 1, base + 2, base + 3, base + 4, base + 5],
    }
}

fn generation(scores: &[u32]) -> Generation {
    let mut g = Generation::new();
    for (i, s) in scores.iter().enumerate() {
        g.add_genome(Genome::new(*s, net(100 * i as i64)));
    }
    g
}

fn settings(population: usize) -> Settings {
    Settings {
        population,
        elitism: 200,
        random_behaviour: 200,
        mutation_rate: 100,
        mutation_range: WEIGHT_SCALE / 2,
        offspring: 1,
    }
}

#[test]
fn add_genome_keeps_best_first() {
    let g = generation(&[3, 7, 1, 7, 0, 5]);
    let scores: Vec<u32> = g.genomes.iter().map(|x| x.score).collect();
    assert_eq!(scores, vec![7, 7, 5, 3, 1, 0]);
    // Equal scores keep their arrival order.
    assert_eq!(g.genomes[0].network.weights[0], 100);
    assert_eq!(g.genomes[1].network.weights[0], 300);
}

#[test]
fn lowest_score_goes_last() {
    let g = generation(&[5, 2]);
    assert_eq!(g.genomes[0].score, 5);
    assert_eq!(g.genomes[1].score, 2);
}

#[test]
fn breed_mixes_parents_within_range() {
    let g = generation(&[9, 4]);
    let s = Settings { offspring: 3, mutation_rate: 1000, mutation_range: 10, ..settings(10) };
    let children = g.breed(0, 1, &s);
    assert_eq!(children.len(), 3);
    for c in children.iter() {
        assert_eq!(c.score, 9);
        assert_eq!(c.network.neurons, vec![2, 2, 1]);
        for (j, w) in c.network.weights.iter().enumerate() {
            let a = g.genomes[0].network.weights[j];
            let b = g.genomes[1].network.weights[j];
            assert!((a - 10 <= *w && *w <= a + 10) || (b - 10 <= *w && *w <= b + 10));
        }
    }
}

#[test]
fn breed_without_mutation_copies_parent_weights() {
    let g = generation(&[9, 4]);
    let s = Settings { mutation_rate: 0, ..settings(10) };
    let child = &g.breed(0, 1, &s)[0];
    for (j, w) in child.network.weights.iter().enumerate() {
        assert!(*w == g.genomes[0].network.weights[j] || *w == g.genomes[1].network.weights[j]);
    }
}

#[test]
fn next_population_has_elite_random_and_children() {
    let scores: Vec<u32> = (0..12).collect();
    let mut g = generation(&scores);
    let s = settings(50);
    let next = g.generate_next_generation(&s).unwrap();
    assert_eq!(next.len(), 50);
    // round(0.2 * 50) = 10 elite copies, best first.
    for k in 0..10 {
        assert_eq!(next[k].weights, g.genomes[k].network.weights);
    }
    for k in 10..20 {
        assert_eq!(next[k].neurons, vec![2, 2, 1]);
        assert!(next[k].weights.iter().all(|w| -WEIGHT_SCALE <= *w && *w <= WEIGHT_SCALE));
    }
    // The first bred child comes from genomes 0 and 1, the next from 0 and 2, then 1 and 2.
    let pairs = [(0, 1), (0, 2), (1, 2), (0, 3)];
    for (t, (i, m)) in pairs.iter().enumerate() {
        let c = &next[20 + t];
        for (j, w) in c.weights.iter().enumerate() {
            let a = g.genomes[*i].network.weights[j];
            let b = g.genomes[*m].network.weights[j];
            let r = WEIGHT_SCALE / 2;
            assert!((a - r <= *w && *w <= a + r) || (b - r <= *w && *w <= b + r));
        }
    }
    for n in next.iter() {
        assert_eq!(n.neurons, vec![2, 2, 1]);
        assert_eq!(n.weights.len(), 6);
    }
}

#[test]
fn elite_fraction_rounds_half_up() {
    let scores: Vec<u32> = (0..5).collect();
    let mut g = generation(&scores);
    // 0.1 * 25 = 2.5 rounds to 3 elite copies.
    let s = Settings { elitism: 100, random_behaviour: 0, ..settings(25) };
    let next = g.generate_next_generation(&s).unwrap();
    assert_eq!(next.len(), 25);
    for k in 0..3 {
        assert_eq!(next[k].weights, g.genomes[k].network.weights);
    }
}

#[test]
fn too_few_genomes() {
    let mut empty = Generation::new();
    assert_eq!(empty.generate_next_generation(&settings(50)).err(), Some(BreedError::TooFewGenomes));
    let mut one = generation(&[3]);
    let s = Settings { elitism: 0, random_behaviour: 0, ..settings(4) };
    assert_eq!(one.generate_next_generation(&s).err(), Some(BreedError::TooFewGenomes));
    let mut few = generation(&[3, 2, 1]);
    assert_eq!(few.generate_next_generation(&settings(50)).err(), Some(BreedError::TooFewGenomes));
}

#[test]
fn one_genome_is_enough_without_breeding() {
    let mut one = generation(&[3]);
    let s = Settings { elitism: 0, random_behaviour: 1000, ..settings(4) };
    let next = one.generate_next_generation(&s).unwrap();
    assert_eq!(next.len(), 4);
}

#[test]
fn mismatched_topology_is_rejected() {
    let mut g = generation(&[3, 2]);
    g.add_genome(Genome::new(1, FlatNetwork { neurons: vec![2, 1], weights: vec![1, 2] }));
    let s = Settings { elitism: 0, random_behaviour: 0, ..settings(4) };
    assert_eq!(g.generate_next_generation(&s).err(), Some(BreedError::MismatchedNetworks));
    let mut bad = generation(&[3, 2]);
    bad.add_genome(Genome::new(1, FlatNetwork { neurons: vec![2, 2, 1], weights: vec![1] }));
    assert_eq!(bad.generate_next_generation(&s).err(), Some(BreedError::MismatchedNetworks));
}

#[test]
fn random_network_keeps_template_shape() {
    let r = random_network(&net(0));
    assert_eq!(r.neurons, vec![2, 2, 1]);
    assert_eq!(r.weights.len(), 6);
}

#[test]
fn standard_settings() {
    let s = Settings::standard();
    assert_eq!(s.population, 50);
    assert_eq!(s.elitism, 200);
    assert_eq!(s.random_behaviour, 200);
    assert_eq!(s.mutation_rate, 100);
    assert_eq!(s.mutation_range, WEIGHT_SCALE / 2);
    assert_eq!(s.offspring, 1);
}

#[test]
fn cross_weight_picks_and_mutates() {
    assert_eq!(cross_weight(10, 20, true, None), 10);
    assert_eq!(cross_weight(10, 20, false, None), 20);
    assert_eq!(cross_weight(10, 20, true, Some(-3)), 7);
    assert_eq!(cross_weight(10, 20, false, Some(5)), 25);
    assert_eq!(cross_weight(i64::MAX - 1, 0, true, Some(5)), i64::MAX);
    assert_eq!(cross_weight(0, i64::MIN + 1, false, Some(-5)), i64::MIN);
}
