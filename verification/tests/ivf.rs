use fraud_index::dataset::Dataset;
use fraud_index::distance::DIMS;
use fraud_index::ivf::{is_risky_pattern, partition_key, IVFIndex, IVF_NPARTITIONS, PARTITION_CELLS};

#[test]
fn test_ivf_search() {
    let mut ds = Dataset::new();
    ds.count = 100;
    ds.num_cells = 4;
    ds.labels = vec![0u8; 100];
    for i in 0..50 {
        ds.labels[i] = 1;
    }

    ds.centroids = vec![
        [9000i16, 0, 0, 0, 0, 0, 0, 0, 0, 0, 0, 0, 0, 0],
        [0i16; DIMS],
        [0i16; DIMS],
        [0i16; DIMS],
    ];

    ds.cell_meta = vec![(0, 50), (50, 50), (100, 0), (100, 0)];
    ds.cell_indices = (0..100).map(|x| x as u32).collect();

    // dims[dim_idx * count + vec_idx]
    ds.dims = vec![0i16; DIMS * 100];
    for i in 0..50 {
        ds.dims[0 * 100 + i] = 9000i16;
    }
    for i in 50..100 {
        ds.dims[0 * 100 + i] = 1000i16;
    }

    let ivf = IVFIndex::new();
    let mut query = [0i16; DIMS];
    query[0] = 8000i16;

    let fraud_count = ivf.search(&ds, &query, 5, 2);
    assert!(fraud_count >= 3);
}

/// Vectors on a line, in cells of `per_cell` with bounding boxes; the centroid
/// of a cell is its first vector.
fn line(values: &[i16], labels: &[u8], per_cell: usize) -> Dataset {
    let n = values.len();
    let mut ds = Dataset::new();
    ds.count = n;
    ds.labels = labels.to_vec();
    ds.dims = vec![0i16; DIMS * n];
    ds.dims[..n].copy_from_slice(values);
    ds.cell_indices = (0..n as u32).collect();
    let mut at = 0;
    while at < n {
        let len = per_cell.min(n - at);
        let mut centroid = [0i16; DIMS];
        centroid[0] = values[at];
        ds.centroids.push(centroid);
        let mut lo = [0i16; DIMS];
        let mut hi = [0i16; DIMS];
        lo[0] = *values[at..at + len].iter().min().unwrap();
        hi[0] = *values[at..at + len].iter().max().unwrap();
        ds.bbox_min.push(lo);
        ds.bbox_max.push(hi);
        ds.cell_meta.push((at as u32, len as u32));
        at += len;
    }
    ds.num_cells = ds.cell_meta.len();
    ds
}

fn at(x: i16) -> [i16; DIMS] {
    let mut q = [0i16; DIMS];
    q[0] = x;
    q
}

#[test]
fn keys_have_one_bit_per_feature() {
    let mut q = [0i16; DIMS];
    assert_eq!(partition_key(&q), 0);
    q[0] = 6_000;
    assert_eq!(partition_key(&q), 1);
    q[7] = 5_001;
    assert_eq!(partition_key(&q), 3);
    q[8] = 5_001;
    assert_eq!(partition_key(&q), 7);
    q[2] = 5_001;
    assert_eq!(partition_key(&q), 15);
    assert_eq!(partition_key(&[5_000i16; DIMS]), 0);
}

#[test]
fn new_index_lists_nothing() {
    let ivf = IVFIndex::new();
    assert_eq!(ivf.num_cells, 0);
    assert_eq!(ivf.part_count, vec![0u32; IVF_NPARTITIONS]);
    assert_eq!(ivf.part_by_key, vec![[u32::MAX; PARTITION_CELLS]; IVF_NPARTITIONS]);
}

#[test]
fn partitions_list_their_first_cells() {
    let mut values = vec![0i16; 10];
    values[3] = 5_001;
    values[6] = 9_000;
    let ds = line(&values, &[0; 10], 1);
    let ivf = IVFIndex::build_from_dataset(&ds, ds.num_cells);
    assert_eq!(ivf.num_cells, 10);
    assert_eq!(ivf.part_count[1], 2);
    assert_eq!(ivf.part_by_key[1][0], 3);
    assert_eq!(ivf.part_by_key[1][1], 6);
    assert_eq!(ivf.part_by_key[1][2], u32::MAX);
    assert_eq!(ivf.part_count[0], 8);
    assert_eq!(ivf.part_by_key[0], [0, 1, 2, 4, 5, 7, 8, 9]);
}

#[test]
fn frauds_in_a_cell_are_counted_up_to_five() {
    let ds = line(&[0; 9], &[1, 1, 1, 1, 1, 1, 0, 1, 0], 7);
    let ivf = IVFIndex::new();
    assert_eq!(ivf.count_frauds_in_cell(&ds, 0), (5, 7));
    assert_eq!(ivf.count_frauds_in_cell(&ds, 1), (1, 2));
}

#[test]
fn frauds_in_a_cell_need_labels_only() {
    let mut ds = line(&[0; 4], &[1, 0, 1, 1], 4);
    ds.count = 0;
    ds.dims.clear();
    assert_eq!(IVFIndex::new().count_frauds_in_cell(&ds, 0), (3, 4));
}

#[test]
fn unanimous_neighbors_are_final() {
    let ds = line(&[0, 1, 2, 3, 4, 9000, 9001, 9002, 9003, 9004], &[0, 0, 0, 0, 0, 1, 1, 1, 1, 1], 5);
    let ivf = IVFIndex::new();
    assert_eq!(ivf.search(&ds, &at(0), 5, 1), 0);
    assert_eq!(ivf.search(&ds, &at(9000), 5, 1), 5);
}

#[test]
fn one_cell_agrees_with_brute_force() {
    let values = [0i16, 700, 1400, 2100, 2800, 3500, 4200, 4900, 5600, 6300, 7000, 7700];
    let labels = [1u8, 0, 1, 1, 0, 0, 1, 0, 1, 0, 1, 1];
    let ds = line(&values, &labels, 12);
    let ivf = IVFIndex::new();
    for x in [0i16, 350, 2500, 4000, 7700] {
        let (_, frauds) = ds.knn_brute_force(&at(x), 5);
        assert_eq!(ivf.search(&ds, &at(x), 5, 1), frauds);
        assert_eq!(ivf.search(&ds, &at(x), 5, 48), frauds);
    }
}

#[test]
fn one_cell_gives_the_pattern_of_brute_force() {
    let values = [0i16, 700, 1400, 2100, 2800, 3500, 4200, 4900];
    let labels = [1u8, 0, 1, 1, 0, 0, 1, 0];
    let ds = line(&values, &labels, 8);
    let ivf = IVFIndex::new();
    for k in 1..6 {
        for x in [0i16, 350, 2500, 4900] {
            let (indices, frauds) = ds.knn_brute_force(&at(x), k);
            let (count, bits, _, next) = ivf.search_phase_ex(&ds, &at(x), k, 1);
            assert_eq!(count, frauds);
            assert_eq!(next, i64::MAX);
            for i in 0..8 {
                let expected = i < indices.len() && labels[indices[i]] != 0;
                assert_eq!(bits >> i & 1 == 1, expected);
            }
        }
    }
}

#[test]
fn a_phase_tells_how_far_its_centroids_are() {
    let ds = line(&[10, 11, 30, 31, 50, 51], &[0, 1, 1, 1, 0, 0], 2);
    let ivf = IVFIndex::new();
    assert_eq!(ivf.search_phase_ex(&ds, &at(0), 3, 2), (2, 0b110, 900, 2500));
    assert_eq!(ivf.search_phase_ex(&ds, &at(0), 3, 3), (2, 0b110, 2500, i64::MAX));
    assert_eq!(ivf.search_phase_ex(&ds, &at(0), 3, 0), (0, 0, i64::MAX, 100));
}

#[test]
fn no_cell_is_ranked_behind_the_forty_eighth() {
    let values: Vec<i16> = (1..=50).collect();
    let ds = line(&values, &[0; 50], 1);
    let ivf = IVFIndex::new();
    assert_eq!(ivf.search_phase_ex(&ds, &at(0), 5, 47), (0, 0, 47 * 47, 48 * 48));
    assert_eq!(ivf.search_phase_ex(&ds, &at(0), 5, 48), (0, 0, 48 * 48, i64::MAX));
    assert_eq!(ivf.search_phase_ex(&ds, &at(0), 5, 60), (0, 0, 48 * 48, i64::MAX));
}

#[test]
fn more_than_five_neighbors_may_be_asked_for_where_fewer_are_found() {
    let ds = line(&[0, 10, 20, 30], &[1, 0, 1, 1], 4);
    let ivf = IVFIndex::new();
    assert_eq!(ivf.search(&ds, &at(0), 7, 1), 3);
    assert_eq!(ivf.search_phase_ex(&ds, &at(0), 7, 1), (3, 0b1101, 0, i64::MAX));
}

#[test]
fn risky_patterns_are_seven_or_six() {
    let risky = |nprobe: usize, gap: i64| -> Vec<u8> {
        (0..=255).filter(|bits| is_risky_pattern(nprobe, *bits, 0, gap)).collect()
    };
    let seven = vec![0b00110, 0b01010, 0b01100, 0b10010, 0b10011, 0b10110, 0b11100];
    assert_eq!(risky(10, 0), seven);
    assert_eq!(risky(8, 0), seven);
    assert_eq!(risky(12, 0), vec![0b00110, 0b01010, 0b01100, 0b10010, 0b10011, 0b11100]);
    assert_eq!(risky(10, 1_200_000), vec![0b10010]);
    assert_eq!(risky(12, 3_800_000), vec![0b01010]);
    assert_eq!(risky(12, 3_800_001), vec![]);
    assert_eq!(risky(10, i64::MAX), vec![]);
    assert!(is_risky_pattern(1, 0b11100, -1, 149_999));
    assert!(!is_risky_pattern(1, 0b11100, -1, 150_000));
}

#[test]
fn one_probe_sees_one_cell() {
    let ds = line(&[0, 1, 2, 10, 11, 12], &[0, 0, 0, 1, 1, 1], 3);
    let ivf = IVFIndex::new();
    assert_eq!(ivf.search(&ds, &at(12), 5, 1), 3);
}

#[test]
fn a_risky_pattern_is_searched_again() {
    // The first cell has frauds at places two and three; the next centroid is
    // hardly farther, and its cell holds nearer vectors.
    let mut ds = line(
        &[500, 510, 520, 530, 540, -400, -401, -402, -403, -404],
        &[0, 1, 1, 0, 0, 1, 1, 1, 1, 1],
        5,
    );
    ds.centroids[1][0] = 520;
    let ivf = IVFIndex::new();
    assert_eq!(ivf.search(&ds, &at(0), 5, 1), 5);
    // Where the next centroid is far away, the first count stands.
    ds.centroids[1][0] = 9000;
    assert_eq!(ivf.search(&ds, &at(0), 5, 1), 2);
}

#[test]
fn a_cell_with_a_far_centroid_is_passed_over() {
    let mut ds = line(&[500, 510, 520, 530, 540, 1, 2, 3], &[0, 0, 0, 0, 0, 1, 1, 1], 5);
    ds.centroids[1][0] = 545;
    let ivf = IVFIndex::new();
    assert_eq!(ivf.search(&ds, &at(0), 5, 2), 0);
    ds.centroids[1][0] = 535;
    assert_eq!(ivf.search(&ds, &at(0), 5, 2), 3);
}

#[test]
fn a_full_probe_is_not_repeated() {
    let mut ds = line(
        &[500, 510, 520, 530, 540, -400, -401, -402, -403, -404],
        &[0, 1, 1, 0, 0, 1, 1, 1, 1, 1],
        5,
    );
    ds.centroids[1][0] = 9000;
    let ivf = IVFIndex::new();
    assert_eq!(ivf.search(&ds, &at(0), 5, 2), 2);
    assert_eq!(ivf.search(&ds, &at(0), 5, 48), 2);
}

#[test]
fn pruning_by_boxes_loses_nothing() {
    let values: Vec<i16> = (0..40).map(|i| (i * 611 % 4000) as i16).collect();
    let labels: Vec<u8> = (0..40).map(|i| (i % 3 == 0) as u8).collect();
    let tight = line(&values, &labels, 8);
    let mut loose = line(&values, &labels, 8);
    loose.bbox_min = vec![[i16::MIN; DIMS]; loose.num_cells];
    loose.bbox_max = vec![[i16::MAX; DIMS]; loose.num_cells];
    let ivf = IVFIndex::new();
    for x in (0..4000).step_by(97) {
        assert_eq!(ivf.search(&tight, &at(x), 5, 5), ivf.search(&loose, &at(x), 5, 5));
    }
}

#[test]
fn matching_partitions_break_ties() {
    // Two centroids at the same distance; only the second one shares the key
    // of the query.
    let mut ds = line(&[4_990, 5_010], &[0, 1], 1);
    let ivf = IVFIndex::build_from_dataset(&ds, 2);
    assert_eq!(ivf.search(&ds, &at(5_000), 1, 1), 0);
    ds = line(&[4_991, 5_011], &[0, 1], 1);
    let ivf = IVFIndex::build_from_dataset(&ds, 2);
    assert_eq!(ivf.search(&ds, &at(5_001), 1, 1), 1);
}

#[test]
fn nothing_is_found_in_an_empty_index() {
    let ivf = IVFIndex::new();
    assert_eq!(ivf.search(&Dataset::new(), &[0i16; DIMS], 5, 1), 0);
}
