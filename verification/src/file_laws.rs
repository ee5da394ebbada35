//! Where everything stands in an index file, byte by byte.

use crate::cluster_laws::{lemma_total_push, total};
use crate::dataset::Dataset;
use crate::index_file::{cell_count, fault, holds, index_count, indices_start, labels_start, len_sum,
    meta_start, vector_count, vectors_start, LoadError, MAGIC};
use vstd::prelude::*;
use vstd::string::*;

verus! {

/// The number that two bytes write, the lower one first.
pub open spec fn pair(d: Seq<u8>, p: int) -> int {
    d[p] + 256 * d[p + 1]
}

/// The number that four bytes write, the lowest one first.
pub open spec fn quad(d: Seq<u8>, p: int) -> int {
    pair(d, p) + 65_536 * pair(d, p + 2)
}

/// The number that two bytes write in two's complement, the lower one first.
pub open spec fn signed_pair(d: Seq<u8>, p: int) -> int {
    if d[p + 1] < 128 {
        pair(d, p)
    } else {
        pair(d, p) - 65_536
    }
}

/// The version of a file.
pub open spec fn version(d: Seq<u8>) -> u8 {
    d[7]
}

/// Where the labels stand: behind a header of eighteen bytes and one row of
/// twenty-eight bytes for each cell, or three where there are boxes.
pub open spec fn labels_at(d: Seq<u8>) -> int {
    18 + 28 * quad(d, 14) * if version(d) == 3 {
        3int
    } else {
        1int
    }
}

/// Where the cells stand: behind one byte for each vector.
pub open spec fn cells_at(d: Seq<u8>) -> int {
    labels_at(d) + quad(d, 8)
}

/// Where the numbers of the vectors of the cells stand: behind eight bytes for
/// each cell.
pub open spec fn numbers_at(d: Seq<u8>) -> int {
    cells_at(d) + 8 * quad(d, 14)
}

/// The lengths of the first `n` cells.
pub open spec fn cell_lengths(d: Seq<u8>, n: nat) -> Seq<int> {
    Seq::new(n, |c: int| quad(d, cells_at(d) + 8 * c + 4))
}

/// How many vectors the cells list, as far as 32 bits can tell.
pub open spec fn listed_count(d: Seq<u8>) -> int {
    total(cell_lengths(d, quad(d, 14) as nat)) % 4_294_967_296
}

/// Where the vectors stand: behind four bytes for each number.
pub open spec fn vectors_at(d: Seq<u8>) -> int {
    numbers_at(d) + 4 * listed_count(d)
}

/// Whether a file starts with the seven letters of the format and one of its
/// two versions.
pub open spec fn has_magic(d: Seq<u8>) -> bool {
    &&& d.take(7) == "RINHA06".spec_bytes()
    &&& version(d) == 2 || version(d) == 3
}

proof fn lemma_len_sum(d: Seq<u8>, n: nat)
    requires
        cells_at(d) == meta_start(d),
    ensures
        len_sum(d, n as int) == total(cell_lengths(d, n)),
    decreases n,
{
    if n > 0 {
        let m = (n - 1) as nat;
        lemma_len_sum(d, m);
        let x = quad(d, cells_at(d) + 8 * (n - 1) + 4);
        assert(cell_lengths(d, n) =~= cell_lengths(d, m).push(x));
        lemma_total_push(cell_lengths(d, m), x);
    } else {
        assert(cell_lengths(d, n) =~= Seq::<int>::empty());
    }
}

proof fn lemma_sections(d: Seq<u8>)
    requires
        d.len() >= 18,
    ensures
        vector_count(d) == quad(d, 8),
        cell_count(d) == quad(d, 14),
        crate::index_file::has_version(d, 2) || crate::index_file::has_version(d, 3) <==> has_magic(
            d,
        ),
        has_magic(d) ==> {
            &&& crate::index_file::has_version(d, 3) <==> version(d) == 3
            &&& labels_start(d) == labels_at(d)
            &&& meta_start(d) == cells_at(d)
            &&& indices_start(d) == numbers_at(d)
            &&& index_count(d) == listed_count(d)
            &&& vectors_start(d) == vectors_at(d)
        },
{
    reveal_strlit("RINHA06");
    assert(is_ascii(MAGIC));
    assert(d.subrange(0, 7) =~= d.take(7));
    if has_magic(d) {
        lemma_len_sum(d, quad(d, 14) as nat);
    }
}

/// What is wrong with a file: it is shorter than its header, starts otherwise,
/// has vectors of another length than fourteen, or ends before its vectors do;
/// nothing else is.
pub proof fn law_faults(d: Seq<u8>)
    ensures
        fault(d) == Some(LoadError::TooSmall) <==> d.len() < 18,
        fault(d) == Some(LoadError::BadMagic) <==> d.len() >= 18 && !has_magic(d),
        fault(d) == Some(LoadError::DimensionMismatch) <==> d.len() >= 18 && has_magic(d) && pair(
            d,
            12,
        ) != 14,
        fault(d) is None <==> d.len() >= 18 && has_magic(d) && pair(d, 12) == 14 && d.len()
            >= vectors_at(d) + 28 * quad(d, 8),
        fault(d) == Some(LoadError::Truncated) <==> d.len() >= 18 && has_magic(d) && pair(d, 12)
            == 14 && d.len() < vectors_at(d) + 28 * quad(d, 8),
{
    if d.len() >= 18 {
        lemma_sections(d);
        if has_magic(d) {
            assert(0 <= listed_count(d));
            assert(vectors_start(d) >= indices_start(d));
        }
    }
}

/// A dataset holds what the bytes of its file say: sixteen-bit components in
/// two's complement, labels of one byte, offsets and lengths and numbers of
/// four, and the vectors dimension by dimension.
pub proof fn law_file_layout(d: Seq<u8>, ds: &Dataset)
    requires
        fault(d) is None,
        holds(d, ds),
    ensures
        ds.count == quad(d, 8),
        ds.num_cells == quad(d, 14),
        ds.centroids@.len() == ds.num_cells,
        forall|c: int, i: int|
            0 <= c < ds.num_cells && 0 <= i < 14 ==> #[trigger] ds.centroids@[c]@[i] == signed_pair(
                d,
                18 + 28 * c + 2 * i,
            ),
        version(d) == 2 ==> ds.bbox_min@.len() == 0 && ds.bbox_max@.len() == 0,
        version(d) == 3 ==> ds.bbox_min@.len() == ds.num_cells && ds.bbox_max@.len()
            == ds.num_cells,
        version(d) == 3 ==> forall|c: int, i: int|
            0 <= c < ds.num_cells && 0 <= i < 14 ==> #[trigger] ds.bbox_min@[c]@[i] == signed_pair(
                d,
                18 + 28 * (ds.num_cells + c) + 2 * i,
            ),
        version(d) == 3 ==> forall|c: int, i: int|
            0 <= c < ds.num_cells && 0 <= i < 14 ==> #[trigger] ds.bbox_max@[c]@[i] == signed_pair(
                d,
                18 + 28 * (2 * ds.num_cells + c) + 2 * i,
            ),
        ds.labels@.len() == ds.count,
        forall|i: int|
            0 <= i < ds.count ==> (#[trigger] ds.labels@[i] == 0 <==> d[labels_at(d) + i] == 0)
                && ds.labels@[i] <= 1,
        ds.cell_meta@.len() == ds.num_cells,
        forall|c: int|
            0 <= c < ds.num_cells ==> (#[trigger] ds.cell_meta@[c]).0 == quad(
                d,
                cells_at(d) + 8 * c,
            ) && ds.cell_meta@[c].1 == quad(d, cells_at(d) + 8 * c + 4),
        ds.cell_indices@.len() == listed_count(d),
        forall|i: int|
            0 <= i < ds.cell_indices@.len() ==> #[trigger] ds.cell_indices@[i] == quad(
                d,
                numbers_at(d) + 4 * i,
            ),
        forall|i: int, e: int|
            0 <= i < ds.count && 0 <= e < 14 ==> #[trigger] ds.vector(i)[e] == signed_pair(
                d,
                vectors_at(d) + 2 * (e * ds.count + i),
            ),
{
    lemma_sections(d);
    law_faults(d);
    let m = quad(d, 14);
    assert forall|i: int, e: int| 0 <= i < ds.count && 0 <= e < 14 implies #[trigger] ds.vector(
        i,
    )[e] == signed_pair(d, vectors_at(d) + 2 * (e * ds.count + i)) by {
        let k = e * ds.count + i;
        assert(0 <= e * ds.count <= 13 * ds.count) by (nonlinear_arith)
            requires
                0 <= e <= 13,
                0 <= ds.count,
        ;
        assert(ds.dims@[k] == crate::words::i16_at(d, vectors_start(d) + 2 * k));
    }
}

} // verus!
