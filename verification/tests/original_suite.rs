use cohorts::{
    calculate_median, clustering, find_best_representatives, split_diagnosis, Patient,
};

fn seeded(seed: u64) -> rand::rngs::StdRng {
    <rand::rngs::StdRng as rand::SeedableRng>::seed_from_u64(seed)
}

#[test]
fn test_test_split_diagnosis() {
    // Create some sample patients
    let patients = vec![
        Patient { features: vec![1, 2, 3], diagnosis: 1 },
        Patient { features: vec![4, 5, 6], diagnosis: 0 },
    ];

    let (diagnosed, not_diagnosed) = split_diagnosis(&patients);

    // Assert that patients are correctly split based on diagnosis
    assert_eq!(diagnosed.len(), 1);
    assert_eq!(not_diagnosed.len(), 1);
}

#[test]
fn integration_tests_test_split_diagnosis() {
    let patients = vec![
        Patient { features: vec![1, 2], diagnosis: 0 },
        Patient { features: vec![3, 4], diagnosis: 1 },
    ];
    let (diagnosed, not_diagnosed) = split_diagnosis(&patients);
    assert_eq!(diagnosed.len(), 1); // Check if the diagnosed patients are separated correctly
    assert_eq!(not_diagnosed.len(), 1); // Check if the not diagnosed patients are separated correctly
}

#[test]
fn test_calculate_median() {
    // Create some sample patients with features
    let patients = vec![
        Patient { features: vec![1, 2, 3], diagnosis: 1 },
        Patient { features: vec![4, 5, 6], diagnosis: 1 },
    ];

    let median = calculate_median(&patients);

    // Assert that the median is calculated correctly for each feature
    assert_eq!(median.len(), patients[0].features.len());
}

#[test]
fn test_kmeans() {
    // Create some sample patients with features
    let patients = vec![
        Patient { features: vec![1, 2, 3], diagnosis: 1 },
        Patient { features: vec![4, 5, 6], diagnosis: 0 },
    ];

    let k = 2;
    let max_iter = 100;
    let mut rng = seeded(7);
    let centroids = clustering(k, &patients, max_iter, &mut rng).unwrap();

    assert_eq!(centroids.len(), k);

    let k = 3; // Number of representatives to select from each cluster
    let centroids: Vec<Vec<i64>> = vec![vec![1, 2, 3], vec![4, 5, 6]]; // Example centroids
    let clusters: Vec<Vec<Patient>> = vec![
        vec![
            Patient { features: vec![1, 2, 3], diagnosis: 1 },
            Patient { features: vec![2, 3, 4], diagnosis: 1 },
        ],
        vec![
            Patient { features: vec![4, 5, 6], diagnosis: 0 },
            Patient { features: vec![5, 6, 7], diagnosis: 0 },
        ],
    ]; // Example clusters

    // Find the k best representatives
    let best_representatives = find_best_representatives(k, &centroids, &clusters);

    // Print the best representatives
    for (i, rep) in best_representatives.iter().enumerate() {
        println!("Representative {}: {:?}", i + 1, rep);
    }
}

#[test]
fn test_clustering() {
    // Create sample patients for testing
    let patients = vec![
        Patient { features: vec![1, 2], diagnosis: 0 },
        Patient { features: vec![2, 3], diagnosis: 1 },
        Patient { features: vec![3, 4], diagnosis: 0 },
        Patient { features: vec![4, 5], diagnosis: 1 },
    ];

    // Perform clustering
    let k = 2;
    let max_iter = 100;
    let mut rng = seeded(11);
    let centroids = clustering(k, &patients, max_iter, &mut rng).unwrap();

    // Check if the number of centroids is correct
    assert_eq!(centroids.len(), k);
}

#[test]
fn test_find_best_representatives() {
    let k = 2;
    let centroids = vec![vec![10, 20], vec![30, 40]];
    let clusters = vec![
        vec![
            Patient { features: vec![11, 22], diagnosis: 0 },
            Patient { features: vec![15, 26], diagnosis: 1 },
        ],
        vec![
            Patient { features: vec![31, 42], diagnosis: 1 },
            Patient { features: vec![35, 46], diagnosis: 0 },
        ],
    ];
    let best_reps = find_best_representatives(k, &centroids, &clusters);
    assert_eq!(best_reps.len(), k); // Check if the correct number of best representatives is found
}
