use cohorts::{
    assign_clusters, build_graph, calculate_median, clustering, distance_sq,
    find_best_representatives, k_core_decomposition, split_diagnosis, update_centroids, Error,
    Graph, Patient,
};

fn seeded(seed: u64) -> rand::rngs::StdRng {
    <rand::rngs::StdRng as rand::SeedableRng>::seed_from_u64(seed)
}

fn p(features: Vec<i64>, diagnosis: u8) -> Patient {
    Patient { features, diagnosis }
}

#[test]
fn test_distance_sq_value() {
    // (0-4)^2 + (3-7)^2 = 32
    assert_eq!(distance_sq(&vec![0, 3], &vec![4, 7]), Ok(32));
    assert_eq!(distance_sq(&vec![], &vec![]), Ok(0));
}

#[test]
fn test_distance_sq_mismatch() {
    assert_eq!(distance_sq(&vec![1, 2], &vec![1]), Err(Error::DimensionMismatch));
}

#[test]
fn test_split_diagnosis_values() {
    let patients = vec![
        p(vec![1, 2], 0),
        p(vec![3, 4], 1),
        p(vec![5, 6], 2),
        p(vec![7, 8], 1),
    ];
    let (diagnosed, rest) = split_diagnosis(&patients);
    assert_eq!(diagnosed.len(), 2);
    assert_eq!(diagnosed[0].features, vec![3, 4]);
    assert_eq!(diagnosed[1].features, vec![7, 8]);
    assert_eq!(rest.len(), 2);
    assert_eq!(rest[0].features, vec![1, 2]);
    assert_eq!(rest[1].diagnosis, 2);
}

#[test]
fn test_median_odd_count() {
    let patients = vec![p(vec![5], 0), p(vec![1], 0), p(vec![3], 0)];
    assert_eq!(calculate_median(&patients), vec![3]);
}

#[test]
fn test_median_even_count() {
    let patients = vec![p(vec![3, -2], 0), p(vec![1, -1], 0)];
    // (1 + 3) / 2 = 2; (-2 + -1) / 2 truncates toward zero to -1
    assert_eq!(calculate_median(&patients), vec![2, -1]);
}

#[test]
fn test_clustering_invalid_inputs() {
    let patients = vec![p(vec![1, 2], 0), p(vec![3, 4], 1)];
    let empty: Vec<Patient> = Vec::new();
    let ragged = vec![p(vec![1, 2], 0), p(vec![3], 1)];
    let mut rng = seeded(1);
    assert_eq!(clustering(0, &patients, 5, &mut rng), Err(Error::InvalidInput));
    assert_eq!(clustering(1, &empty, 5, &mut rng), Err(Error::InvalidInput));
    assert_eq!(clustering(3, &patients, 5, &mut rng), Err(Error::InvalidInput));
    assert_eq!(clustering(1, &ragged, 5, &mut rng), Err(Error::InvalidInput));
}

#[test]
fn test_clustering_identical_records() {
    // With every record at the same point, the per-dimension range collapses
    // and both the random initialization and the mean update must land on
    // that exact point.
    let patients = vec![p(vec![5, 5], 0), p(vec![5, 5], 1), p(vec![5, 5], 0)];
    let mut rng = seeded(3);
    let centroids = clustering(2, &patients, 10, &mut rng).unwrap();
    assert_eq!(centroids, vec![vec![5, 5], vec![5, 5]]);
}

#[test]
fn test_clustering_dimensionality() {
    let patients = vec![
        p(vec![1, 2, 3], 0),
        p(vec![100, 200, 300], 1),
        p(vec![101, 201, 301], 0),
    ];
    let mut rng = seeded(9);
    let centroids = clustering(2, &patients, 100, &mut rng).unwrap();
    assert_eq!(centroids.len(), 2);
    for c in &centroids {
        assert_eq!(c.len(), 3);
        for (j, v) in c.iter().enumerate() {
            let column: Vec<i64> = patients.iter().map(|q| q.features[j]).collect();
            let lo = *column.iter().min().unwrap();
            let hi = *column.iter().max().unwrap();
            assert!(lo <= *v && *v <= hi);
        }
    }
}

#[test]
fn test_assign_clusters_values() {
    let patients = vec![p(vec![0], 0), p(vec![10], 1)];
    let centroids = vec![vec![1], vec![9]];
    assert_eq!(assign_clusters(&patients, &centroids), Ok(vec![0, 1]));
}

#[test]
fn test_assign_clusters_tie_breaks_low() {
    // Equidistant from both centroids: the lower index wins.
    let patients = vec![p(vec![5], 0)];
    let centroids = vec![vec![4], vec![6]];
    assert_eq!(assign_clusters(&patients, &centroids), Ok(vec![0]));
}

#[test]
fn test_assign_clusters_errors() {
    let patients = vec![p(vec![0], 0)];
    let no_centroids: Vec<Vec<i64>> = Vec::new();
    assert_eq!(assign_clusters(&patients, &no_centroids), Err(Error::InvalidInput));
    let bad = vec![vec![1, 2]];
    assert_eq!(assign_clusters(&patients, &bad), Err(Error::DimensionMismatch));
}

#[test]
fn test_update_centroids_mean_and_clone() {
    let patients = vec![p(vec![2], 0), p(vec![4], 1)];
    let asg = vec![0, 0];
    let centroids = vec![vec![100], vec![200]];
    // Cluster 0 averages its two members; empty cluster 1 clones the
    // centroid of the most populated cluster, which is cluster 0.
    let updated = update_centroids(&patients, &asg, &centroids);
    assert_eq!(updated, vec![vec![3], vec![100]]);
}

#[test]
fn test_representative_selection() {
    let centroids = vec![vec![1, 1]];
    let clusters = vec![vec![p(vec![5, 5], 0), p(vec![0, 0], 1), p(vec![2, 2], 0)]];
    let reps = find_best_representatives(1, &centroids, &clusters);
    // L1 distances to [1,1]: 8, 2, 2; the first minimum wins.
    assert_eq!(reps, vec![(vec![0, 0], 1)]);
}

#[test]
fn test_representative_skips_empty_cluster() {
    let centroids = vec![vec![1], vec![2]];
    let clusters = vec![Vec::new(), vec![p(vec![7], 1)]];
    let reps = find_best_representatives(2, &centroids, &clusters);
    assert_eq!(reps, vec![(vec![7], 1)]);
}

#[test]
fn test_graph_build_idempotent() {
    let patients = vec![
        p(vec![1000, 2000], 0),
        p(vec![1000, 3000], 1),
        p(vec![4000, 3000], 0),
    ];
    let g1 = build_graph(&patients, 500, 1).unwrap();
    let g2 = build_graph(&patients, 500, 1).unwrap();
    assert_eq!(g1.adj, g2.adj);
    // Half the dimensions match between neighbours in the chain.
    assert!(g1.adj[0][1] && g1.adj[1][0]);
    assert!(g1.adj[1][2] && g1.adj[2][1]);
    assert!(!g1.adj[0][2] && !g1.adj[2][0]);
    assert!(!g1.adj[0][0] && !g1.adj[1][1] && !g1.adj[2][2]);
}

#[test]
fn test_graph_dimension_mismatch() {
    let patients = vec![p(vec![1], 0), p(vec![1, 2], 1)];
    assert!(matches!(build_graph(&patients, 500, 1), Err(Error::InvalidInput)));
}

#[test]
fn test_scenario_dissimilar_records() {
    // No two records share any coordinate within epsilon, so the graph has
    // no edges and no depth of peeling finds a non-empty core.
    let patients = vec![
        p(vec![1000, 2000], 0),
        p(vec![2000, 3000], 1),
        p(vec![3000, 4000], 0),
        p(vec![4000, 5000], 1),
    ];
    let g = build_graph(&patients, 500, 1).unwrap();
    for i in 0..4 {
        for j in 0..4 {
            assert!(!g.adj[i][j]);
        }
    }
    for k in 1..4 {
        assert_eq!(k_core_decomposition(&g, k), Vec::<Vec<usize>>::new());
    }
}

#[test]
fn test_scenario_identical_pair_core() {
    // Two identical records have similarity 1.0, so they carry an edge and
    // form the single 2-node core at k = 1; the two other records match
    // nothing.
    let patients = vec![
        p(vec![1000, 2000], 0),
        p(vec![1000, 2000], 1),
        p(vec![9000, 111000], 0),
        p(vec![5000, 777000], 1),
    ];
    let g = build_graph(&patients, 500, 1).unwrap();
    assert!(g.adj[0][1] && g.adj[1][0]);
    let cores = k_core_decomposition(&g, 1);
    assert_eq!(cores, vec![vec![0, 1]]);
}

#[test]
fn test_kcore_triangle_with_pendant() {
    // Triangle 0-1-2 with a pendant node 3 on node 2: at k = 2 the pendant
    // peels away and the triangle remains; at k = 3 nothing survives.
    let adj = vec![
        vec![false, true, true, false],
        vec![true, false, true, false],
        vec![true, true, false, true],
        vec![false, false, true, false],
    ];
    let g = Graph { adj };
    assert_eq!(k_core_decomposition(&g, 2), vec![vec![0, 1, 2]]);
    assert_eq!(k_core_decomposition(&g, 3), Vec::<Vec<usize>>::new());
    assert_eq!(k_core_decomposition(&g, 1), vec![vec![0, 1, 2, 3]]);
}

#[test]
fn test_kcore_two_components() {
    // Two disjoint edges: at k = 1 both pairs survive in one core.
    let adj = vec![
        vec![false, true, false, false],
        vec![true, false, false, false],
        vec![false, false, false, true],
        vec![false, false, true, false],
    ];
    let g = Graph { adj };
    assert_eq!(k_core_decomposition(&g, 1), vec![vec![0, 1, 2, 3]]);
    assert_eq!(k_core_decomposition(&g, 2), Vec::<Vec<usize>>::new());
}

#[test]
fn test_assignment_brute_force() {
    let patients = vec![
        p(vec![0, 0], 0),
        p(vec![10, 0], 1),
        p(vec![4, 4], 0),
        p(vec![7, 9], 1),
    ];
    let centroids = vec![vec![1, 1], vec![9, 9], vec![5, 5]];
    let asg = assign_clusters(&patients, &centroids).unwrap();
    assert_eq!(asg.len(), patients.len());
    for (e, pt) in patients.iter().enumerate() {
        let d = |c: &Vec<i64>| -> i128 {
            pt.features
                .iter()
                .zip(c.iter())
                .map(|(&a, &b)| ((a - b) as i128) * ((a - b) as i128))
                .sum()
        };
        let mut best = 0usize;
        for c in 1..centroids.len() {
            if d(&centroids[c]) < d(&centroids[best]) {
                best = c;
            }
        }
        assert_eq!(asg[e], best);
        for c in 0..centroids.len() {
            assert!(d(&centroids[asg[e]]) <= d(&centroids[c]));
        }
    }
}

#[test]
fn test_representative_minimizes_mad() {
    let centroids = vec![vec![2, 2], vec![50, 60]];
    let clusters = vec![
        vec![p(vec![1, 1], 0), p(vec![3, 3], 1), p(vec![2, 2], 0)],
        vec![p(vec![49, 61], 1), p(vec![55, 66], 0)],
    ];
    let reps = find_best_representatives(2, &centroids, &clusters);
    assert_eq!(reps.len(), 2);
    for (c, cluster) in clusters.iter().enumerate() {
        let l1 = |f: &Vec<i64>| -> i128 {
            f.iter().zip(centroids[c].iter()).map(|(&a, &b)| ((a - b) as i128).abs()).sum()
        };
        for member in cluster {
            assert!(l1(&reps[c].0) <= l1(&member.features));
        }
    }
}
