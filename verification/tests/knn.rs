use rinha::dataset::{Dataset, LABEL_FRAUD, LABEL_LEGIT};
use rinha::knn::{count_fraud_in_ranges, count_fraud_neighbors, select_probes};
use rinha::preprocess::{encode_dataset, to_soa};
use rinha::proto::{DIM, NLIST};

fn point(v: i16) -> [i16; DIM] {
    [v; DIM]
}

fn dataset(points: &[[i16; DIM]], labels: &[u8]) -> Dataset {
    Dataset::from_bytes(&encode_dataset(labels, &to_soa(points))).unwrap()
}

#[test]
fn votes_come_from_the_five_nearest() {
    // Ten rows at increasing distance from 0; the nearest five are rows 0..5.
    let points: Vec<[i16; DIM]> = (0..10).map(|i| point(i * 100)).collect();
    let labels = [
        LABEL_FRAUD, LABEL_LEGIT, LABEL_FRAUD, LABEL_LEGIT, LABEL_FRAUD, // nearest
        LABEL_FRAUD, LABEL_FRAUD, LABEL_FRAUD, LABEL_FRAUD, LABEL_FRAUD,
    ];
    let ds = dataset(&points, &labels);
    assert_eq!(count_fraud_neighbors(&point(0), &ds), 3);
    // From the far end, the nearest five are rows 5..10, all frauds.
    assert_eq!(count_fraud_neighbors(&point(900), &ds), 5);
}

#[test]
fn fewer_rows_than_k() {
    let ds = dataset(&[point(1), point(2)], &[LABEL_FRAUD, LABEL_LEGIT]);
    assert_eq!(count_fraud_neighbors(&point(0), &ds), 1);
    let empty = dataset(&[], &[]);
    assert_eq!(count_fraud_neighbors(&point(0), &empty), 0);
}

#[test]
fn ranges_restrict_the_search() {
    let points: Vec<[i16; DIM]> = (0..10).map(|i| point(i * 100)).collect();
    let labels: Vec<u8> = (0..10).map(|i| if i >= 5 { LABEL_FRAUD } else { LABEL_LEGIT }).collect();
    let ds = dataset(&points, &labels);
    assert_eq!(count_fraud_in_ranges(&point(0), &ds, &[(0, 5)]), 0);
    assert_eq!(count_fraud_in_ranges(&point(0), &ds, &[(0, 2), (7, 10)]), 3);
    assert_eq!(count_fraud_in_ranges(&point(0), &ds, &[]), 0);
}

#[test]
fn probes_are_the_nearest_centroids() {
    let mut centroids: Vec<Vec<i16>> = vec![vec![4000; NLIST]; DIM];
    for (c, v) in [(17_usize, 10_i16), (500, 20), (3, 30), (1023, 40), (600, 50)] {
        for col in centroids.iter_mut() {
            col[c] = v;
        }
    }
    let mut probes = select_probes(&point(0), &centroids);
    probes.sort();
    assert_eq!(probes, [3, 17, 500, 1023]);
}
