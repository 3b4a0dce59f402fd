use net_coords::{choose_k_nums, ConfigError, Network};
use std::collections::HashSet;

/// A path graph 0-1-2-3 with landmark 0.
fn path_network() -> Network {
    let mut rng = rand::thread_rng();
    let mut net = Network::new().build_network(4, 0, &mut rng);
    net.add_edge(0, 1);
    net.add_edge(1, 2);
    net.add_edge(2, 3);
    net.set_landmarks(&vec![0]).unwrap();
    net
}

#[test]
fn test_basic() {
    let mut rng = rand::thread_rng();
    let mut net = Network::new()
        .build_network(40, 3, &mut rng)
        .choose_landmarks(4, &mut rng)
        .unwrap();

    net.converge_coords();
    net.is_coord_unique();
}

#[test]
fn test_choose_k_nums() {
    let mut rng = rand::thread_rng();
    let knums = choose_k_nums(3, 100, &mut rng).unwrap();
    assert!(knums.len() == 3);
    for x in knums.into_iter() {
        assert!(x < 100);
    }
}

#[test]
fn test_hashset_vec() {
    let mut my_set: HashSet<Vec<usize>> = HashSet::new();
    my_set.insert(vec![1, 2, 3]);
    assert!(my_set.contains(&vec![1, 2, 3]));
    assert!(!my_set.contains(&vec![1, 2, 4]));
}

#[test]
fn test_choose_k_nums_distinct_and_full() {
    let mut rng = rand::thread_rng();
    let knums = choose_k_nums(100, 100, &mut rng).unwrap();
    assert_eq!(knums.len(), 100);
    let as_set: HashSet<usize> = knums.iter().copied().collect();
    assert_eq!(as_set.len(), 100);
    assert!(knums.iter().all(|&x| x < 100));
}

#[test]
fn test_choose_k_nums_rejects_oversized_request() {
    let mut rng = rand::thread_rng();
    assert_eq!(choose_k_nums(1, 0, &mut rng), Err(ConfigError::TooManyLandmarks));
    assert_eq!(choose_k_nums(11, 10, &mut rng), Err(ConfigError::TooManyLandmarks));
    assert_eq!(choose_k_nums(0, 0, &mut rng).unwrap(), Vec::<usize>::new());
}

#[test]
fn test_choose_landmarks_too_many() {
    let mut rng = rand::thread_rng();
    let net = Network::new().build_network(2, 0, &mut rng);
    match net.choose_landmarks(5, &mut rng) {
        Err(e) => assert_eq!(e, ConfigError::TooManyLandmarks),
        Ok(_) => panic!("five landmarks cannot fit in two nodes"),
    }
}

#[test]
fn test_set_landmarks_rejects_bad_entries() {
    let mut rng = rand::thread_rng();
    let mut net = Network::new().build_network(2, 0, &mut rng);
    assert_eq!(net.set_landmarks(&vec![0, 0]), Err(ConfigError::BadLandmark));
    assert_eq!(net.set_landmarks(&vec![9]), Err(ConfigError::BadLandmark));
    assert_eq!(net.set_landmarks(&vec![1, 0]), Ok(()));
}

#[test]
fn test_single_node_single_landmark() {
    let mut rng = rand::thread_rng();
    let mut net = Network::new().build_network(1, 0, &mut rng);
    net.set_landmarks(&vec![0]).unwrap();
    assert!(net.converge_coords());
    assert_eq!(net.get_coords(), &vec![vec![0]]);
    assert!(net.is_coord_unique());
}

#[test]
fn test_path_graph_distances() {
    let mut net = path_network();
    assert!(net.converge_coords());
    assert_eq!(net.get_coords(), &vec![vec![0], vec![1], vec![2], vec![3]]);
    // landmark identity: the landmark's own entry on its axis is zero
    assert_eq!(net.get_coords()[0][0], 0);
    assert!(net.is_coord_unique());
}

#[test]
fn test_disconnected_components() {
    let mut rng = rand::thread_rng();
    // two components: 0-1 and 2-3, landmark in the first only
    let mut net = Network::new().build_network(4, 0, &mut rng);
    net.add_edge(0, 1);
    net.add_edge(2, 3);
    net.set_landmarks(&vec![0]).unwrap();
    assert!(!net.converge_coords());
    // no partial table is committed
    assert_eq!(net.get_coords().len(), 0);
}

#[test]
fn test_adjacency_symmetric_and_irreflexive() {
    let mut rng = rand::thread_rng();
    let net = Network::new().build_network(30, 3, &mut rng);
    for v in 0..30 {
        let nbrs = net.neighbours_of(v).clone();
        assert!(!nbrs.contains(&v));
        for &u in nbrs.iter() {
            assert!(net.neighbours_of(u).contains(&v));
        }
    }
}

#[test]
fn test_iter_coords_monotone() {
    let net = path_network();
    let mut work = net.init_coords();
    assert_eq!(
        work,
        vec![vec![Some(0)], vec![None], vec![None], vec![None]]
    );
    for _ in 0..5 {
        let before = work.clone();
        net.iter_coords(&mut work);
        for v in 0..4 {
            if let Some(d0) = before[v][0] {
                // once known, stays known and never increases
                let d1 = work[v][0].expect("known slot became unknown");
                assert!(d1 <= d0);
            }
        }
    }
    assert_eq!(
        work,
        vec![vec![Some(0)], vec![Some(1)], vec![Some(2)], vec![Some(3)]]
    );
}

#[test]
fn test_fixpoint_deterministic() {
    let mut net1 = path_network();
    let mut net2 = path_network();
    assert!(net1.converge_coords());
    assert!(net2.converge_coords());
    assert_eq!(net1.get_coords(), net2.get_coords());
}

#[test]
fn test_unique_check_ignores_row_order() {
    let distinct = vec![vec![1, 2], vec![2, 1], vec![3, 3]];
    let permuted = vec![vec![3, 3], vec![1, 2], vec![2, 1]];
    assert_eq!(
        net_coords::network_sim::rows_unique(&distinct),
        net_coords::network_sim::rows_unique(&permuted)
    );
    assert!(net_coords::network_sim::rows_unique(&distinct));
    let doubled = vec![vec![1, 2], vec![3, 4], vec![1, 2]];
    let doubled_permuted = vec![vec![1, 2], vec![1, 2], vec![3, 4]];
    assert!(!net_coords::network_sim::rows_unique(&doubled));
    assert_eq!(
        net_coords::network_sim::rows_unique(&doubled),
        net_coords::network_sim::rows_unique(&doubled_permuted)
    );
}
