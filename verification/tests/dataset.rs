use fraud_index::dataset::Dataset;
use fraud_index::distance::{distance_i16, DIMS, MAX_DISTANCE};

fn three_vectors() -> Dataset {
    let mut ds = Dataset::new();
    ds.count = 3;
    ds.num_cells = 2;
    ds.labels = vec![0u8, 1u8, 0u8];
    ds.centroids = vec![[0i16; DIMS], [0i16; DIMS]];
    ds.cell_meta = vec![(0, 2), (2, 1)];
    ds.cell_indices = vec![0u32, 1, 2];
    ds.dims = vec![0i16; DIMS * 3];
    ds.dims[0 * 3 + 0] = 1000i16;
    ds.dims[0 * 3 + 1] = 9000i16;
    ds.dims[0 * 3 + 2] = 2000i16;
    ds
}

#[test]
fn test_load_and_search() {
    let mut ds = Dataset::new();
    ds.count = 3;
    ds.num_cells = 2;
    ds.labels = vec![0u8, 1u8, 0u8];
    ds.centroids = vec![[0i16; DIMS], [0i16; DIMS]];
    ds.cell_meta = vec![(0, 2), (2, 1)];
    ds.cell_indices = vec![0u32, 1, 2];
    ds.dims = vec![0i16; DIMS * 3];
    ds.dims[0 * 3 + 0] = 1000i16;
    ds.dims[0 * 3 + 1] = 9000i16;
    ds.dims[0 * 3 + 2] = 2000i16;

    let query = [1000i16, 0, 0, 0, 0, 0, 0, 0, 0, 0, 0, 0, 0, 0];
    let (indices, fraud_count) = ds.knn_brute_force(&query, 2);

    assert_eq!(indices.len(), 2);
    assert!(fraud_count <= 2);
}

#[test]
fn neighbors_come_nearest_first() {
    let ds = three_vectors();
    let mut query = [0i16; DIMS];
    query[0] = 1600;
    assert_eq!(ds.knn_brute_force(&query, 2), (vec![2, 0], 0));
    assert_eq!(ds.knn_brute_force(&query, 3), (vec![2, 0, 1], 1));
    assert_eq!(ds.knn_brute_force(&query, 9), (vec![2, 0, 1], 1));
}

#[test]
fn equally_near_vectors_keep_their_order() {
    let ds = three_vectors();
    let mut query = [0i16; DIMS];
    query[0] = 1500;
    assert_eq!(ds.knn_brute_force(&query, 2), (vec![0, 2], 0));
}

#[test]
fn no_neighbors_of_an_empty_dataset() {
    let ds = Dataset::new();
    assert_eq!(ds.knn_brute_force(&[7i16; DIMS], 5), (vec![], 0));
    assert!(ds.is_valid());
}

#[test]
fn components_stand_dimension_by_dimension() {
    let mut ds = three_vectors();
    ds.dims[5 * 3 + 1] = -42;
    assert_eq!(ds.dim(5, 1), -42);
    assert_eq!(ds.dim(0, 2), 2000);
    assert_eq!(ds.distance(&[0i16; DIMS], 1), 9000 * 9000 + 42 * 42);
}

#[test]
fn lower_bound_without_boxes_is_the_centroid_distance() {
    let mut ds = three_vectors();
    ds.centroids[1] = [3i16; DIMS];
    assert_eq!(ds.lower_bound(&[1i16; DIMS], 1), 14 * 4);
    ds.cell_meta[1] = (2, 0);
    assert_eq!(ds.lower_bound(&[1i16; DIMS], 1), i64::MAX);
}

#[test]
fn lower_bound_measures_to_the_box() {
    let mut ds = three_vectors();
    ds.bbox_min = vec![[10i16; DIMS], [0i16; DIMS]];
    ds.bbox_max = vec![[20i16; DIMS], [0i16; DIMS]];
    assert_eq!(ds.lower_bound(&[15i16; DIMS], 0), 0);
    assert_eq!(ds.lower_bound(&[7i16; DIMS], 0), 14 * 9);
    assert_eq!(ds.lower_bound(&[25i16; DIMS], 0), 14 * 25);
}

#[test]
fn lower_bound_counts_both_corners_of_a_reversed_box() {
    let mut ds = three_vectors();
    ds.bbox_min = vec![[0i16; DIMS], [0i16; DIMS]];
    ds.bbox_max = vec![[0i16; DIMS], [0i16; DIMS]];
    ds.bbox_min[0][3] = 5;
    ds.bbox_max[0][3] = -5;
    assert_eq!(ds.lower_bound(&[0i16; DIMS], 0), 50);
    ds.bbox_min[0] = [i16::MAX; DIMS];
    ds.bbox_max[0] = [i16::MIN; DIMS];
    assert_eq!(ds.lower_bound(&[0i16; DIMS], 0), 14 * (32767 * 32767 + 32768 * 32768));
}

#[test]
fn lower_bound_is_no_farther_than_a_vector_of_the_cell() {
    let mut ds = three_vectors();
    let mut lo = [0i16; DIMS];
    let mut hi = [0i16; DIMS];
    lo[0] = 1000;
    hi[0] = 9000;
    ds.bbox_min = vec![lo, [0i16; DIMS]];
    ds.bbox_max = vec![hi, [0i16; DIMS]];
    for x in [-500i16, 1000, 5000, 12000] {
        let mut query = [0i16; DIMS];
        query[0] = x;
        let bound = ds.lower_bound(&query, 0);
        assert!(bound <= ds.distance(&query, 0));
        assert!(bound <= ds.distance(&query, 1));
    }
}

#[test]
fn distances_are_symmetric_and_vanish_on_equals() {
    let a = [1i16, -2, 3, -4, 5, -6, 7, -8, 9, -10, 11, -12, 13, -14];
    let b = [0i16; DIMS];
    assert_eq!(distance_i16(&a, &b), 1015);
    assert_eq!(distance_i16(&b, &a), 1015);
    assert_eq!(distance_i16(&a, &a), 0);
}

#[test]
fn largest_distance_fits() {
    assert_eq!(distance_i16(&[i16::MIN; DIMS], &[i16::MAX; DIMS]), MAX_DISTANCE);
    assert_eq!(MAX_DISTANCE, 14 * 65535i64 * 65535);
}

#[test]
fn validity_needs_every_announced_part() {
    assert!(three_vectors().is_valid());
    let mut ds = three_vectors();
    ds.cell_indices[2] = 3;
    assert!(!ds.is_valid());
    let mut ds = three_vectors();
    ds.cell_meta[1] = (2, 2);
    assert!(!ds.is_valid());
    let mut ds = three_vectors();
    ds.labels.pop();
    assert!(!ds.is_valid());
    let mut ds = three_vectors();
    ds.dims.pop();
    assert!(!ds.is_valid());
    let mut ds = three_vectors();
    ds.num_cells = 3;
    assert!(!ds.is_valid());
}

#[test]
fn more_neighbors_extend_the_list() {
    let ds = three_vectors();
    let mut query = [0i16; DIMS];
    query[0] = 8000;
    let (one, f1) = ds.knn_brute_force(&query, 1);
    let (two, f2) = ds.knn_brute_force(&query, 2);
    let (all, f3) = ds.knn_brute_force(&query, 3);
    assert_eq!(one[..], two[..1]);
    assert_eq!(two[..], all[..2]);
    assert_eq!((f1, f2, f3), (1, 1, 1));
    let mut sorted = ds.knn_brute_force(&query, 50).0;
    sorted.sort();
    assert_eq!(sorted, vec![0, 1, 2]);
}
