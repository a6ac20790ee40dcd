use matsuo::evolver::Evolver;
use matsuo::network::{FlatNetwork, Network};

#[test]
fn first_population_is_bootstrapped() {
    let mut evol = Evolver::new((6, vec![6], 1));
    assert!(evol.needs_bootstrap());
    let nets = evol.next_generation().unwrap();
    assert_eq!(nets.len(), 50);
    for n in nets.into_iter() {
        let flat = n.into_data();
        assert_eq!(flat.neurons, vec![6, 6, 1]);
        assert_eq!(flat.weights.len(), 6 * 6 + 6 * 1);
    }
    assert!(!evol.needs_bootstrap());
    assert_eq!(evol.generation().unwrap().genomes.len(), 0);
}

#[test]
fn scored_population_breeds_the_next() {
    let mut evol = Evolver::new((6, vec![6], 1));
    let nets = evol.next_generation().unwrap();
    for (i, n) in nets.into_iter().enumerate() {
        evol.network_score(n, (i % 7) as u32);
    }
    let genomes = &evol.generation().unwrap().genomes;
    assert_eq!(genomes.len(), 50);
    assert!(genomes.windows(2).all(|w| w[0].score >= w[1].score));
    let best: Vec<Vec<i64>> = genomes.iter().take(10).map(|g| g.network.weights.clone()).collect();
    let next = evol.next_generation().unwrap();
    assert_eq!(next.len(), 50);
    for (k, n) in next.into_iter().enumerate() {
        let flat = n.into_data();
        assert_eq!(flat.neurons, vec![6, 6, 1]);
        assert_eq!(flat.weights.len(), 42);
        if k < 10 {
            assert_eq!(flat.weights, best[k]);
        }
    }
}

#[test]
fn resumes_from_save() {
    let saved: Vec<(FlatNetwork, u32)> = (0..4)
        .map(|i| (Network::random(&(6, vec![6], 1)).into_data(), i as u32))
        .collect();
    let mut evol = Evolver::from_save((6, vec![6], 1), saved);
    assert!(!evol.needs_bootstrap());
    let scores: Vec<u32> = evol.generation().unwrap().genomes.iter().map(|g| g.score).collect();
    assert_eq!(scores, vec![3, 2, 1, 0]);
    // Four genomes cannot supply the ten elite networks of the standard settings.
    assert!(evol.next_generation().is_err());
}
