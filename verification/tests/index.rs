use fraud_index::dataset::Dataset;
use fraud_index::distance::DIMS;
use fraud_index::index_file::{encode_index, Index, LoadError};
use fraud_index::kmeans::{build_index, cell_stats, initial_centroids, nearest_centroid, CellStats,
    NUM_CELLS};

fn small_index() -> Index {
    let mut a = [0i16; DIMS];
    a[0] = -1;
    a[13] = 300;
    let b = [i16::MIN; DIMS];
    let c = [i16::MAX; DIMS];
    Index {
        vectors: vec![a, b, c],
        labels: vec![true, false, true],
        centroids: vec![b, a],
        cells: vec![vec![2, 0], vec![1]],
    }
}

#[test]
fn file_has_the_documented_layout() {
    let bytes = encode_index(&small_index());
    assert_eq!(&bytes[0..8], b"RINHA06\x02");
    assert_eq!(&bytes[8..12], &[3, 0, 0, 0]);
    assert_eq!(&bytes[12..14], &[14, 0]);
    assert_eq!(&bytes[14..18], &[2, 0, 0, 0]);
    assert_eq!(&bytes[18..20], &[0, 0x80]);
    assert_eq!(&bytes[46..48], &[0xff, 0xff]);
    assert_eq!(&bytes[74..77], &[1, 0, 1]);
    assert_eq!(&bytes[77..93], &[0, 0, 0, 0, 2, 0, 0, 0, 2, 0, 0, 0, 1, 0, 0, 0]);
    assert_eq!(&bytes[93..105], &[2, 0, 0, 0, 0, 0, 0, 0, 1, 0, 0, 0]);
    // The vectors stand dimension by dimension.
    assert_eq!(&bytes[105..111], &[0xff, 0xff, 0, 0x80, 0xff, 0x7f]);
    assert_eq!(bytes.len(), 105 + 28 * 3);
}

#[test]
fn written_index_is_read_back() {
    let ix = small_index();
    let ds = Dataset::load_from_bin(&encode_index(&ix)).ok().unwrap();
    assert!(ds.is_valid());
    assert_eq!(ds.count, 3);
    assert_eq!(ds.num_cells, 2);
    assert_eq!(ds.labels, vec![1, 0, 1]);
    assert_eq!(ds.centroids, ix.centroids);
    assert_eq!(ds.cell_meta, vec![(0, 2), (2, 1)]);
    assert_eq!(ds.cell_indices, vec![2, 0, 1]);
    assert!(ds.bbox_min.is_empty() && ds.bbox_max.is_empty());
    for i in 0..3 {
        for d in 0..DIMS {
            assert_eq!(ds.dim(d, i), ix.vectors[i][d]);
        }
    }
}

#[test]
fn bounding_boxes_follow_the_centroids() {
    let plain = encode_index(&small_index());
    let mut boxed = plain[..74].to_vec();
    boxed[7] = 3;
    for value in [-2i16, 7] {
        for _ in 0..2 * DIMS {
            boxed.extend_from_slice(&value.to_le_bytes());
        }
    }
    boxed.extend_from_slice(&plain[74..]);
    let ds = Dataset::load_from_bin(&boxed).ok().unwrap();
    assert_eq!(ds.bbox_min, vec![[-2i16; DIMS]; 2]);
    assert_eq!(ds.bbox_max, vec![[7i16; DIMS]; 2]);
    assert_eq!(ds.labels, vec![1, 0, 1]);
    assert_eq!(ds.cell_indices, vec![2, 0, 1]);
    assert_eq!(ds.dim(0, 1), i16::MIN);
}

fn load_error(bytes: &[u8]) -> LoadError {
    match Dataset::load_from_bin(bytes) {
        Ok(_) => panic!("the file is broken"),
        Err(e) => e,
    }
}

#[test]
fn broken_files_are_refused() {
    let good = encode_index(&small_index());
    assert_eq!(load_error(&[]), LoadError::TooSmall);
    assert_eq!(load_error(&good[..17]), LoadError::TooSmall);
    let mut bad = good.clone();
    bad[0] = b'r';
    assert_eq!(load_error(&bad), LoadError::BadMagic);
    let mut bad = good.clone();
    bad[7] = 4;
    assert_eq!(load_error(&bad), LoadError::BadMagic);
    let mut bad = good.clone();
    bad[12] = 15;
    assert_eq!(load_error(&bad), LoadError::DimensionMismatch);
    assert_eq!(load_error(&good[..18]), LoadError::Truncated);
    assert_eq!(load_error(&good[..good.len() - 1]), LoadError::Truncated);
    let mut bad = good.clone();
    bad[8] = 4;
    assert_eq!(load_error(&bad), LoadError::Truncated);
}

#[test]
fn labels_are_normalised_and_trailing_bytes_ignored() {
    let mut bytes = encode_index(&small_index());
    bytes[74] = 200;
    bytes.push(9);
    let ds = Dataset::load_from_bin(&bytes).ok().unwrap();
    assert_eq!(ds.labels, vec![1, 0, 1]);
}

#[test]
fn first_nearest_centroid_wins() {
    let near = [5i16; DIMS];
    let far = [50i16; DIMS];
    assert_eq!(nearest_centroid(&[far, near, near], &[0i16; DIMS]), 1);
    assert_eq!(nearest_centroid(&[near, far], &[28i16; DIMS]), 1);
    assert_eq!(nearest_centroid(&[], &[0i16; DIMS]), 0);
}

#[test]
fn seeds_are_evenly_spaced() {
    let vectors: Vec<[i16; DIMS]> = (0..2100).map(|i| [i as i16; DIMS]).collect();
    let seeds = initial_centroids(&vectors);
    assert_eq!(seeds.len(), NUM_CELLS);
    assert_eq!(seeds[0][0], 0);
    assert_eq!(seeds[1][0], 2);
    assert_eq!(seeds[1023][0], 2046);
    let few = initial_centroids(&vectors[5..8]);
    assert!(few.iter().all(|c| c[0] == 5));
}

#[test]
fn clusters_partition_the_vectors() {
    let vectors: Vec<[i16; DIMS]> = (0..3000).map(|i| [(i * 37 % 1000) as i16; DIMS]).collect();
    let labels: Vec<bool> = (0..3000).map(|i| i % 3 == 0).collect();
    let ix = build_index(vectors.clone(), labels.clone());
    assert_eq!(ix.vectors, vectors);
    assert_eq!(ix.labels, labels);
    assert_eq!(ix.cells.len(), NUM_CELLS);
    let mut seen = vec![0; 3000];
    for cell in &ix.cells {
        assert!(cell.windows(2).all(|w| w[0] < w[1]));
        for &i in cell {
            seen[i] += 1;
        }
    }
    assert!(seen.iter().all(|&n| n == 1));
    let ds = Dataset::load_from_bin(&encode_index(&ix)).ok().unwrap();
    assert!(ds.is_valid());
    assert_eq!(ds.count, 3000);
}

#[test]
fn centroids_are_means_rounded_towards_zero() {
    // Every seed is the first vector; it moves to the second cell when the
    // first centroid has moved to the mean.
    let vectors = vec![[-10i16; DIMS], [-1i16; DIMS], [0i16; DIMS]];
    let ix = build_index(vectors, vec![false, true, true]);
    assert_eq!(ix.cells[0], vec![1, 2]);
    assert_eq!(ix.cells[1], vec![0]);
    assert_eq!(ix.centroids[0], [0i16; DIMS]);
    assert_eq!(ix.centroids[1], [-10i16; DIMS]);
    assert_eq!(ix.centroids[2], [-10i16; DIMS]);
    assert_eq!(
        cell_stats(&ix.cells),
        CellStats { min: 0, max: 2, avg: 0, empty: NUM_CELLS - 2 },
    );
}

#[test]
fn stats_measure_the_cells() {
    let cells = vec![vec![0; 3000], vec![0; 100], vec![0; 1000]];
    assert_eq!(cell_stats(&cells), CellStats { min: 100, max: 3000, avg: 4, empty: 0 });
    assert_eq!(cell_stats(&[]), CellStats { min: 0, max: 0, avg: 0, empty: 0 });
}
