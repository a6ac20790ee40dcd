use matsuo::network::{FlatError, FlatNetwork, Layer, Network, WEIGHT_SCALE};

fn sample_flat() -> FlatNetwork {
    FlatNetwork {
        neurons: vec![2, 3, 1],
        weights: vec![1, 2, 3, 4, 5, 6, 7, 8, 9],
    }
}

#[test]
fn from_data_rebuilds_layers() {
    let net = Network::from_data(sample_flat()).unwrap();
    assert_eq!(net.layers.len(), 3);
    assert_eq!(net.layers[0].neurons.len(), 2);
    assert!(net.layers[0].neurons.iter().all(|n| n.weights.is_empty()));
    assert_eq!(net.layers[1].neurons[0].weights, vec![1, 2]);
    assert_eq!(net.layers[1].neurons[2].weights, vec![5, 6]);
    assert_eq!(net.layers[2].neurons[0].weights, vec![7, 8, 9]);
}

#[test]
fn flatten_round_trip() {
    let net = Network::from_data(sample_flat()).unwrap();
    let flat = net.clone().into_data();
    assert_eq!(flat.neurons, vec![2, 3, 1]);
    assert_eq!(flat.weights, vec![1, 2, 3, 4, 5, 6, 7, 8, 9]);
    let again = Network::from_data(flat).unwrap();
    assert_eq!(again.into_data().weights, net.into_data().weights);
}

#[test]
fn from_data_rejects_wrong_weight_count() {
    let short = FlatNetwork { neurons: vec![2, 3, 1], weights: vec![0; 8] };
    assert_eq!(Network::from_data(short).err(), Some(FlatError::WeightCount));
    let long = FlatNetwork { neurons: vec![2, 3, 1], weights: vec![0; 10] };
    assert_eq!(Network::from_data(long).err(), Some(FlatError::WeightCount));
    let huge = FlatNetwork { neurons: vec![usize::MAX, usize::MAX], weights: vec![] };
    assert_eq!(Network::from_data(huge).err(), Some(FlatError::WeightCount));
}

#[test]
fn flat_well_formedness() {
    assert!(sample_flat().is_wf());
    assert!(FlatNetwork { neurons: vec![], weights: vec![] }.is_wf());
    assert!(!FlatNetwork { neurons: vec![4], weights: vec![1] }.is_wf());
    let copy = sample_flat().copy();
    assert_eq!(copy.weights, sample_flat().weights);
}

#[test]
fn random_layer_shape_and_range() {
    let layer = Layer::with_population(4, 3);
    assert_eq!(layer.neurons.len(), 4);
    for n in layer.neurons.iter() {
        assert_eq!(n.weights.len(), 3);
        assert!(n.weights.iter().all(|w| -WEIGHT_SCALE <= *w && *w <= WEIGHT_SCALE));
    }
}

#[test]
fn random_network_follows_options() {
    let net = Network::random(&(6, vec![6], 1));
    let flat = net.into_data();
    assert_eq!(flat.neurons, vec![6, 6, 1]);
    assert_eq!(flat.weights.len(), 42);
    // Drawn weights are spread over the range, not pinned to one end.
    assert!(flat.weights.iter().any(|w| *w != flat.weights[0]));
    assert!(flat.weights.iter().any(|w| *w != -WEIGHT_SCALE));
    let deep = Network::random(&(3, vec![4, 5], 2)).into_data();
    assert_eq!(deep.neurons, vec![3, 4, 5, 2]);
    assert_eq!(deep.weights.len(), 12 + 20 + 10);
}
