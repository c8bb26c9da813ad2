use rinha::dataset::{align_up, padded_n, Dataset, DatasetError, LABEL_FRAUD, LABEL_LEGIT};
use rinha::preprocess::{encode_dataset, label_code, to_soa};
use rinha::proto::DIM;

fn rows(n: usize) -> Vec<[i16; DIM]> {
    (0..n)
        .map(|i| {
            let mut r = [0_i16; DIM];
            for (d, v) in r.iter_mut().enumerate() {
                *v = (i as i16) * 100 - (d as i16) * 7 - 4096 / 2;
            }
            r
        })
        .collect()
}

#[test]
fn padded_and_aligned_sizes() {
    assert_eq!(padded_n(0), 0);
    assert_eq!(padded_n(1), 8);
    assert_eq!(padded_n(8), 8);
    assert_eq!(padded_n(9), 16);
    assert_eq!(align_up(32 + 3, 64), 64);
    assert_eq!(align_up(64, 64), 64);
    assert_eq!(align_up(65, 64), 128);
}

#[test]
fn written_file_reads_back() {
    let rs = rows(11);
    let labels: Vec<u8> = (0..11).map(|i| if i % 3 == 0 { LABEL_FRAUD } else { LABEL_LEGIT }).collect();
    let soa = to_soa(&rs);
    assert_eq!(soa.len(), DIM * 16);
    let bytes = encode_dataset(&labels, &soa);
    assert_eq!(bytes.len(), 64 + DIM * 16 * 2);
    assert_eq!(&bytes[0..4], &0x5242_4B33_u32.to_le_bytes());
    let ds = Dataset::from_bytes(&bytes).unwrap();
    assert_eq!(ds.len(), 11);
    assert_eq!(ds.n_padded(), 16);
    assert!(!ds.is_empty());
    for i in 0..11 {
        assert_eq!(ds.is_fraud(i), i % 3 == 0);
    }
    assert!(!ds.is_fraud(11));
    assert!(!ds.is_fraud(1000));
    for d in 0..DIM {
        let col = ds.dim_column(d);
        assert_eq!(col.len(), 16);
        for i in 0..11 {
            assert_eq!(col[i], rs[i][d]);
        }
        for i in 11..16 {
            assert_eq!(col[i], 0);
        }
    }
}

#[test]
fn empty_dataset_reads_back() {
    let bytes = encode_dataset(&[], &[]);
    assert_eq!(bytes.len(), 64);
    let ds = Dataset::from_bytes(&bytes).unwrap();
    assert!(ds.is_empty());
    assert_eq!(ds.n_padded(), 0);
}

#[test]
fn bad_images_are_refused() {
    let labels = vec![LABEL_LEGIT; 2];
    let soa = to_soa(&rows(2));
    let good = encode_dataset(&labels, &soa);

    assert_eq!(
        Dataset::from_bytes(&good[..10]).err(),
        Some(DatasetError::Truncated { expected: 32, actual: 10 })
    );
    let mut bad = good.clone();
    bad[0] = 0;
    assert_eq!(Dataset::from_bytes(&bad).err(), Some(DatasetError::BadMagic(0x5242_4B00)));
    let mut bad = good.clone();
    bad[4] = 2;
    assert_eq!(Dataset::from_bytes(&bad).err(), Some(DatasetError::BadVersion(2)));
    let mut bad = good.clone();
    bad[8] = 15;
    assert_eq!(Dataset::from_bytes(&bad).err(), Some(DatasetError::BadDim(15)));
    let short = &good[..good.len() - 1];
    assert_eq!(
        Dataset::from_bytes(short).err(),
        Some(DatasetError::Truncated { expected: good.len(), actual: good.len() - 1 })
    );
}

#[test]
fn negative_values_survive_the_file() {
    let mut r = [0_i16; DIM];
    r[0] = -4096;
    r[1] = i16::MIN;
    r[2] = i16::MAX;
    r[3] = -1;
    let soa = to_soa(&[r]);
    let ds = Dataset::from_bytes(&encode_dataset(&[LABEL_FRAUD], &soa)).unwrap();
    assert_eq!(ds.dim_column(0)[0], -4096);
    assert_eq!(ds.dim_column(1)[0], i16::MIN);
    assert_eq!(ds.dim_column(2)[0], i16::MAX);
    assert_eq!(ds.dim_column(3)[0], -1);
}

#[test]
fn labels_are_fraud_or_legit() {
    assert_eq!(label_code("fraud"), Some(LABEL_FRAUD));
    assert_eq!(label_code("legit"), Some(LABEL_LEGIT));
    assert_eq!(label_code("Fraud"), None);
    assert_eq!(label_code(""), None);
}
