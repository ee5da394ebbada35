//! What an index file gives back.

use crate::dataset::Dataset;
use crate::distance::DIMS;
use crate::index_file::{cell_bytes, cell_count, cell_offset, cell_rows, centroid_bytes,
    column_bytes, columns, fault, has_version, header_bytes, holds, index_bytes, index_count,
    indices_start, label_bytes, labels_start, len_sum, meta_bytes, meta_rows, meta_start,
    vector_count, vector_rows, vectors_start, BOXED_VERSION, HEADER_LEN, Index, MAGIC,
    PLAIN_VERSION, VECTOR_LEN};
use crate::words::{i16_at, i16s, joined, law_u16_read_back, law_u32_read_back, lemma_i16s_at,
    lemma_joined_at, lemma_joined_len, lemma_u32s_at, u16_at, u16_bytes, u32_at, u32_bytes, u32s};
use vstd::prelude::*;
use vstd::string::*;

verus! {

/// The lengths of the sections.
proof fn lemma_section_lens(ix: &Index)
    requires
        ix.wf(),
    ensures
        header_bytes(ix).len() == HEADER_LEN,
        centroid_bytes(ix).len() == VECTOR_LEN * ix.cells@.len(),
        label_bytes(ix.labels@).len() == ix.vectors@.len(),
        meta_bytes(ix).len() == 8 * ix.cells@.len(),
        cell_bytes(ix).len() == 4 * cell_offset(ix.cells@, ix.cells@.len() as int),
        column_bytes(ix).len() == VECTOR_LEN * ix.vectors@.len(),
{
    reveal_strlit("RINHA06");
    assert(is_ascii("RINHA06"));
    let m = ix.cells@.len() as int;
    lemma_joined_len(vector_rows(ix.centroids@), m, DIMS as nat);
    lemma_joined_len(meta_rows(ix.cells@), m, 2);
    lemma_joined_len(columns(ix.vectors@), DIMS as int, ix.vectors@.len());
}

/// Where the sections stand.
proof fn lemma_sections(ix: &Index)
    requires
        ix.wf(),
    ensures
        ({
            let d = index_bytes(ix);
            let m = ix.cells@.len() as int;
            let n = ix.vectors@.len() as int;
            let t = cell_offset(ix.cells@, m);
            let a = HEADER_LEN as int;
            let b = a + VECTOR_LEN * m;
            let c = b + n;
            let e = c + 8 * m;
            let f = e + 4 * t;
            &&& d.len() == f + VECTOR_LEN * n
            &&& d.subrange(0, a) == header_bytes(ix)
            &&& d.subrange(a, b) == centroid_bytes(ix)
            &&& d.subrange(b, c) == label_bytes(ix.labels@)
            &&& d.subrange(c, e) == meta_bytes(ix)
            &&& d.subrange(e, f) == cell_bytes(ix)
            &&& d.subrange(f, f + VECTOR_LEN * n) == column_bytes(ix)
        }),
{
    lemma_section_lens(ix);
    let s1 = header_bytes(ix);
    let s2 = centroid_bytes(ix);
    let s3 = label_bytes(ix.labels@);
    let s4 = meta_bytes(ix);
    let s5 = cell_bytes(ix);
    let s6 = column_bytes(ix);
    lemma_six_parts(s1, s2, s3, s4, s5, s6);
}

/// The parts of a sequence that was put together from six.
proof fn lemma_six_parts(
    s1: Seq<u8>,
    s2: Seq<u8>,
    s3: Seq<u8>,
    s4: Seq<u8>,
    s5: Seq<u8>,
    s6: Seq<u8>,
)
    ensures
        ({
            let d = s1 + s2 + s3 + s4 + s5 + s6;
            let a = s1.len() as int;
            let b = a + s2.len();
            let c = b + s3.len();
            let e = c + s4.len();
            let f = e + s5.len();
            &&& d.len() == f + s6.len()
            &&& d.subrange(0, a) == s1
            &&& d.subrange(a, b) == s2
            &&& d.subrange(b, c) == s3
            &&& d.subrange(c, e) == s4
            &&& d.subrange(e, f) == s5
            &&& d.subrange(f, f + s6.len()) == s6
        }),
{
    let d = s1 + s2 + s3 + s4 + s5 + s6;
    let a = s1.len() as int;
    let b = a + s2.len();
    let c = b + s3.len();
    let e = c + s4.len();
    let f = e + s5.len();
    assert(d.subrange(0, a) =~= s1);
    assert(d.subrange(a, b) =~= s2);
    assert(d.subrange(b, c) =~= s3);
    assert(d.subrange(c, e) =~= s4);
    assert(d.subrange(e, f) =~= s5);
    assert(d.subrange(f, f + s6.len()) =~= s6);
}

/// The parts of the header of a file that starts with it.
proof fn lemma_header_parts(
    d: Seq<u8>,
    magic: Seq<u8>,
    version: u8,
    n: Seq<u8>,
    dims: Seq<u8>,
    m: Seq<u8>,
)
    requires
        magic.len() == 7,
        n.len() == 4,
        dims.len() == 2,
        m.len() == 4,
        d.len() >= 18,
        d.subrange(0, 18) == magic + seq![version] + n + dims + m,
    ensures
        d.subrange(0, 7) == magic,
        d[7] == version,
        d.subrange(8, 12) == n,
        d.subrange(12, 14) == dims,
        d.subrange(14, 18) == m,
{
    let h = magic + seq![version] + n + dims + m;
    assert(h.subrange(0, 7) =~= magic);
    assert(h[7] == version);
    assert(h.subrange(8, 12) =~= n);
    assert(h.subrange(12, 14) =~= dims);
    assert(h.subrange(14, 18) =~= m);
    assert(d.subrange(0, 7) =~= d.subrange(0, 18).subrange(0, 7));
    assert(d[7] == d.subrange(0, 18)[7]);
    assert(d.subrange(8, 12) =~= d.subrange(0, 18).subrange(8, 12));
    assert(d.subrange(12, 14) =~= d.subrange(0, 18).subrange(12, 14));
    assert(d.subrange(14, 18) =~= d.subrange(0, 18).subrange(14, 18));
}

/// The header of a written file.
proof fn lemma_written_header(ix: &Index)
    requires
        ix.wf(),
        ix.fits(),
    ensures
        ({
            let d = index_bytes(ix);
            &&& d.len() >= HEADER_LEN
            &&& has_version(d, PLAIN_VERSION)
            &&& !has_version(d, BOXED_VERSION)
            &&& vector_count(d) == ix.vectors@.len()
            &&& cell_count(d) == ix.cells@.len()
            &&& u16_at(d, 12) == DIMS
        }),
{
    lemma_sections(ix);
    lemma_read_header(index_bytes(ix), ix.vectors@.len() as u32, ix.cells@.len() as u32);
}

/// The number of vectors or cells in a header.
proof fn lemma_read_count(d: Seq<u8>, p: int, x: u32)
    requires
        0 <= p,
        p + 4 <= d.len(),
        d.subrange(p, p + 4) == u32_bytes(x as int),
    ensures
        u32_at(d, p) == x,
{
    law_u32_read_back(d, p, x as int);
}

/// The magic number and the version in a header.
proof fn lemma_read_version(d: Seq<u8>)
    requires
        d.len() >= HEADER_LEN,
        d.subrange(0, 7) == MAGIC.spec_bytes(),
        MAGIC.spec_bytes().len() == 7,
        d[7] == PLAIN_VERSION,
    ensures
        has_version(d, PLAIN_VERSION),
        !has_version(d, BOXED_VERSION),
{
}

/// The header of a file that starts with it.
proof fn lemma_read_header(d: Seq<u8>, n: u32, m: u32)
    requires
        d.len() >= HEADER_LEN,
        d.subrange(0, HEADER_LEN as int) == MAGIC.spec_bytes() + seq![PLAIN_VERSION] + u32_bytes(
            n as int,
        ) + u16_bytes(DIMS as int) + u32_bytes(m as int),
    ensures
        has_version(d, PLAIN_VERSION),
        !has_version(d, BOXED_VERSION),
        vector_count(d) == n,
        cell_count(d) == m,
        u16_at(d, 12) == DIMS,
{
    let magic = MAGIC.spec_bytes();
    assert(magic.len() == 7) by {
        reveal_strlit("RINHA06");
        assert(is_ascii("RINHA06"));
    }
    lemma_header_parts(
        d,
        magic,
        PLAIN_VERSION,
        u32_bytes(n as int),
        u16_bytes(DIMS as int),
        u32_bytes(m as int),
    );
    lemma_read_version(d);
    lemma_read_count(d, 8, n);
    law_u16_read_back(d, 12, DIMS as u16);
    lemma_read_count(d, 14, m);
}

/// The cells before cell `c` hold no more than all cells.
pub proof fn lemma_cell_offset(cells: Seq<Vec<usize>>, c: int, n: int)
    requires
        0 <= c <= n <= cells.len(),
    ensures
        cell_offset(cells, c) <= cell_offset(cells, n),
        c < n ==> cell_offset(cells, c) + cells[c]@.len() <= cell_offset(cells, n),
    decreases n,
{
    if c < n {
        lemma_cell_offset(cells, c, n - 1);
    }
}

/// Where the sections of a written file start.
proof fn lemma_written_starts(ix: &Index)
    requires
        ix.wf(),
        ix.fits(),
    ensures
        ({
            let d = index_bytes(ix);
            let t = cell_offset(ix.cells@, ix.cells@.len() as int);
            &&& HEADER_LEN <= d.len()
            &&& labels_start(d) == HEADER_LEN + VECTOR_LEN * ix.cells@.len()
            &&& meta_start(d) == labels_start(d) + ix.vectors@.len()
            &&& indices_start(d) == meta_start(d) + 8 * ix.cells@.len()
            &&& d.len() == indices_start(d) + 4 * t + VECTOR_LEN * ix.vectors@.len()
            &&& d.subrange(HEADER_LEN as int, labels_start(d)) == centroid_bytes(ix)
            &&& d.subrange(labels_start(d), meta_start(d)) == label_bytes(ix.labels@)
            &&& d.subrange(meta_start(d), indices_start(d)) == meta_bytes(ix)
            &&& d.subrange(indices_start(d), indices_start(d) + 4 * t) == cell_bytes(ix)
            &&& d.subrange(indices_start(d) + 4 * t, d.len() as int) == column_bytes(ix)
        }),
{
    lemma_written_header(ix);
    lemma_sections(ix);
}

/// The offset and the length of a cell.
proof fn lemma_meta_at(d: Seq<u8>, p: int, cells: Seq<Vec<usize>>, c: int)
    requires
        0 <= p,
        p + 8 * cells.len() <= d.len(),
        d.subrange(p, p + 8 * cells.len()) == u32s(joined(meta_rows(cells), cells.len() as int)),
        cell_offset(cells, cells.len() as int) <= u32::MAX,
        0 <= c < cells.len(),
    ensures
        u32_at(d, p + 8 * c) == cell_offset(cells, c),
        u32_at(d, p + 8 * c + 4) == cells[c]@.len(),
{
    let m = cells.len() as int;
    let rows = meta_rows(cells);
    let values = joined(rows, m);
    lemma_joined_len(rows, m, 2);
    lemma_joined_len(rows, c, 2);
    lemma_joined_at(rows, m, c, 0);
    lemma_joined_at(rows, m, c, 1);
    lemma_cell_offset(cells, c, m);
    assert(values[2 * c] == rows[c][0]);
    assert(values[2 * c + 1] == rows[c][1]);
    lemma_u32s_at(d, p, values, 2 * c);
    lemma_u32s_at(d, p, values, 2 * c + 1);
    assert(p + 4 * (2 * c) == p + 8 * c);
    assert(p + 4 * (2 * c + 1) == p + 8 * c + 4);
}

/// The offset and the length of a cell in a written file.
proof fn lemma_written_meta(ix: &Index, c: int)
    requires
        ix.wf(),
        ix.fits(),
        0 <= c < ix.cells@.len(),
    ensures
        u32_at(index_bytes(ix), meta_start(index_bytes(ix)) + 8 * c) == cell_offset(ix.cells@, c),
        u32_at(index_bytes(ix), meta_start(index_bytes(ix)) + 8 * c + 4) == ix.cells@[c]@.len(),
{
    lemma_written_starts(ix);
    lemma_meta_at(index_bytes(ix), meta_start(index_bytes(ix)), ix.cells@, c);
}

/// The sum of the lengths of the first cells in a written file.
proof fn lemma_written_len_sum(ix: &Index, c: int)
    requires
        ix.wf(),
        ix.fits(),
        0 <= c <= ix.cells@.len(),
    ensures
        len_sum(index_bytes(ix), c) == cell_offset(ix.cells@, c),
    decreases c,
{
    if c > 0 {
        lemma_written_len_sum(ix, c - 1);
        lemma_written_meta(ix, c - 1);
    }
}

/// A file with a good header has no fault where its sections fill it.
proof fn lemma_no_fault(d: Seq<u8>, t: int)
    requires
        HEADER_LEN <= d.len(),
        has_version(d, PLAIN_VERSION),
        u16_at(d, 12) == DIMS,
        0 <= t <= u32::MAX,
        len_sum(d, cell_count(d)) == t,
        d.len() == indices_start(d) + 4 * t + VECTOR_LEN * vector_count(d),
    ensures
        fault(d) is None,
        index_count(d) == t,
{
    assert(t % 0x1_0000_0000 == t);
}

/// The layout of a written file.
proof fn lemma_written_layout(ix: &Index)
    requires
        ix.wf(),
        ix.fits(),
    ensures
        fault(index_bytes(ix)) is None,
        index_count(index_bytes(ix)) == cell_offset(ix.cells@, ix.cells@.len() as int),
{
    lemma_written_header(ix);
    lemma_written_starts(ix);
    lemma_written_len_sum(ix, ix.cells@.len() as int);
    lemma_no_fault(index_bytes(ix), cell_offset(ix.cells@, ix.cells@.len() as int));
}

/// The component `e` of row `c` of some vectors.
proof fn lemma_row_at(d: Seq<u8>, p: int, rows: Seq<[i16; DIMS]>, c: int, e: int)
    requires
        0 <= p,
        p + VECTOR_LEN * rows.len() <= d.len(),
        d.subrange(p, p + VECTOR_LEN * rows.len()) == i16s(
            joined(vector_rows(rows), rows.len() as int),
        ),
        0 <= c < rows.len(),
        0 <= e < DIMS,
    ensures
        i16_at(d, p + VECTOR_LEN * c + 2 * e) == rows[c]@[e],
{
    let m = rows.len() as int;
    let parts = vector_rows(rows);
    lemma_joined_len(parts, m, DIMS as nat);
    lemma_joined_len(parts, c, DIMS as nat);
    lemma_joined_at(parts, m, c, e);
    lemma_i16s_at(d, p, joined(parts, m), DIMS * c + e);
    assert(p + 2 * (DIMS * c + e) == p + VECTOR_LEN * c + 2 * e);
}

/// The `i`-th vector of cell `c`.
proof fn lemma_index_at(d: Seq<u8>, p: int, cells: Seq<Vec<usize>>, c: int, i: int)
    requires
        0 <= p,
        p + 4 * cell_offset(cells, cells.len() as int) <= d.len(),
        d.subrange(p, p + 4 * cell_offset(cells, cells.len() as int)) == u32s(
            joined(cell_rows(cells), cells.len() as int),
        ),
        0 <= c < cells.len(),
        0 <= i < cells[c]@.len(),
    ensures
        u32_at(d, p + 4 * (cell_offset(cells, c) + i)) == cells[c]@[i] as int % 0x1_0000_0000,
{
    let rows = cell_rows(cells);
    let m = cells.len() as int;
    lemma_joined_at(rows, m, c, i);
    lemma_u32s_at(d, p, joined(rows, m), cell_offset(cells, c) + i);
}

/// The component `e` of vector `i` of some columns.
proof fn lemma_column_at(d: Seq<u8>, p: int, vectors: Seq<[i16; DIMS]>, i: int, e: int)
    requires
        0 <= p,
        p + VECTOR_LEN * vectors.len() <= d.len(),
        d.subrange(p, p + VECTOR_LEN * vectors.len()) == i16s(
            joined(columns(vectors), DIMS as int),
        ),
        0 <= i < vectors.len(),
        0 <= e < DIMS,
    ensures
        i16_at(d, p + 2 * (e * vectors.len() + i)) == vectors[i]@[e],
        0 <= e * vectors.len() + i < DIMS * vectors.len(),
{
    let n = vectors.len();
    let rows = columns(vectors);
    lemma_joined_len(rows, DIMS as int, n);
    lemma_joined_len(rows, e, n);
    lemma_joined_at(rows, DIMS as int, e, i);
    assert(0 <= e * n) by (nonlinear_arith)
        requires
            0 <= e,
            0 <= n,
    ;
    assert(rows[e][i] == vectors[i]@[e]);
    lemma_i16s_at(d, p, joined(rows, DIMS as int), e * n + i);
}

/// The centroid of cell `c` in a written file.
proof fn lemma_written_centroid(ix: &Index, c: int, e: int)
    requires
        ix.wf(),
        ix.fits(),
        0 <= c < ix.cells@.len(),
        0 <= e < DIMS,
    ensures
        i16_at(index_bytes(ix), HEADER_LEN + VECTOR_LEN * c + 2 * e) == ix.centroids@[c]@[e],
{
    lemma_written_starts(ix);
    lemma_row_at(index_bytes(ix), HEADER_LEN as int, ix.centroids@, c, e);
}

/// The `i`-th vector of cell `c` in a written file.
proof fn lemma_written_index(ix: &Index, c: int, i: int)
    requires
        ix.wf(),
        ix.fits(),
        0 <= c < ix.cells@.len(),
        0 <= i < ix.cells@[c]@.len(),
    ensures
        u32_at(
            index_bytes(ix),
            indices_start(index_bytes(ix)) + 4 * (cell_offset(ix.cells@, c) + i),
        ) == ix.cells@[c]@[i] as int % 0x1_0000_0000,
{
    let d = index_bytes(ix);
    lemma_written_starts(ix);
    lemma_index_at(d, indices_start(d), ix.cells@, c, i);
}

/// The component `e` of vector `i` in a written file.
proof fn lemma_written_component(ix: &Index, i: int, e: int)
    requires
        ix.wf(),
        ix.fits(),
        0 <= i < ix.vectors@.len(),
        0 <= e < DIMS,
    ensures
        i16_at(
            index_bytes(ix),
            vectors_start(index_bytes(ix)) + 2 * (e * ix.vectors@.len() + i),
        ) == ix.vectors@[i]@[e],
        0 <= e * ix.vectors@.len() + i < DIMS * ix.vectors@.len(),
{
    let d = index_bytes(ix);
    lemma_written_layout(ix);
    lemma_written_starts(ix);
    assert(vectors_start(d) == indices_start(d) + 4 * cell_offset(
        ix.cells@,
        ix.cells@.len() as int,
    ));
    lemma_column_at(d, vectors_start(d), ix.vectors@, i, e);
}

/// The vectors of a dataset read from a written file.
proof fn lemma_read_vector(ix: &Index, ds: &Dataset, i: int)
    requires
        ix.wf(),
        ix.fits(),
        holds(index_bytes(ix), ds),
        ds.count == ix.vectors@.len(),
        0 <= i < ix.vectors@.len(),
    ensures
        ds.vector(i) == ix.vectors@[i]@,
{
    lemma_written_header(ix);
    assert forall|e: int| 0 <= e < DIMS implies ds.vector(i)[e] == ix.vectors@[i]@[e] by {
        lemma_written_component(ix, i, e);
        assert(ds.vector(i)[e] == ds.dims@[e * ds.count + i]);
    }
    assert(ds.vector(i) =~= ix.vectors@[i]@);
}

/// The labels of a dataset read from a written file.
proof fn lemma_read_label(ix: &Index, ds: &Dataset, i: int)
    requires
        ix.wf(),
        ix.fits(),
        holds(index_bytes(ix), ds),
        ds.count == ix.vectors@.len(),
        0 <= i < ix.vectors@.len(),
    ensures
        (ds.labels@[i] != 0) == ix.labels@[i],
{
    let d = index_bytes(ix);
    lemma_written_starts(ix);
    assert(d.subrange(labels_start(d), meta_start(d))[i] == d[labels_start(d) + i]);
}

/// The centroids of a dataset read from a written file.
proof fn lemma_read_centroid(ix: &Index, ds: &Dataset, c: int)
    requires
        ix.wf(),
        ix.fits(),
        holds(index_bytes(ix), ds),
        ds.num_cells == ix.cells@.len(),
        0 <= c < ix.cells@.len(),
    ensures
        ds.centroids@[c]@ == ix.centroids@[c]@,
{
    assert forall|e: int| 0 <= e < DIMS implies ds.centroids@[c]@[e]
        == ix.centroids@[c]@[e] by {
        lemma_written_centroid(ix, c, e);
    }
    assert(ds.centroids@[c]@ =~= ix.centroids@[c]@);
}

/// The cells of a dataset read from a written file.
proof fn lemma_read_cell(ix: &Index, ds: &Dataset, c: int)
    requires
        ix.wf(),
        ix.fits(),
        holds(index_bytes(ix), ds),
        ds.num_cells == ix.cells@.len(),
        0 <= c < ix.cells@.len(),
    ensures
        ds.cell_len(c) == ix.cells@[c]@.len(),
        ds.cell_meta@[c].0 == cell_offset(ix.cells@, c),
        forall|i: int|
            0 <= i < ds.cell_len(c) ==> #[trigger] ds.cell_vector(c, i) == ix.cells@[c]@[i] as int
                % 0x1_0000_0000,
        cell_offset(ix.cells@, c) + ix.cells@[c]@.len() <= ds.cell_indices@.len() <= u32::MAX,
{
    let m = ix.cells@.len() as int;
    lemma_written_meta(ix, c);
    lemma_written_layout(ix);
    lemma_cell_offset(ix.cells@, c, m);
    assert forall|i: int| 0 <= i < ds.cell_len(c) implies #[trigger] ds.cell_vector(c, i)
        == ix.cells@[c]@[i] as int % 0x1_0000_0000 by {
        lemma_written_index(ix, c, i);
        assert(ds.cell_indices@[cell_offset(ix.cells@, c) + i] == u32_at(
            index_bytes(ix),
            indices_start(index_bytes(ix)) + 4 * (cell_offset(ix.cells@, c) + i),
        ));
    }
}

/// A written index file has no fault.
pub proof fn law_encoded_has_no_fault(ix: &Index)
    requires
        ix.wf(),
        ix.fits(),
    ensures
        fault(index_bytes(ix)) is None,
{
    lemma_written_layout(ix);
}

/// An index that was written is read back: the file has no fault, and the
/// dataset read from it has the same vectors, labels, centroids and cells, and
/// no bounding boxes.
pub proof fn law_load_gives_back_encoded(ix: &Index, ds: &Dataset)
    requires
        ix.wf(),
        ix.fits(),
        holds(index_bytes(ix), ds),
    ensures
        fault(index_bytes(ix)) is None,
        ds.count == ix.vectors@.len(),
        ds.num_cells == ix.cells@.len(),
        forall|i: int| 0 <= i < ds.count ==> #[trigger] ds.vector(i) == ix.vectors@[i]@,
        forall|i: int|
            0 <= i < ds.count ==> (#[trigger] ds.labels@[i] != 0) == ix.labels@[i],
        forall|c: int|
            0 <= c < ds.num_cells ==> #[trigger] ds.centroids@[c]@ == ix.centroids@[c]@,
        ds.bbox_min@.len() == 0,
        ds.bbox_max@.len() == 0,
        forall|c: int|
            0 <= c < ds.num_cells ==> #[trigger] ds.cell_len(c) == ix.cells@[c]@.len(),
        forall|c: int, i: int|
            0 <= c < ds.num_cells && 0 <= i < ds.cell_len(c) ==> #[trigger] ds.cell_vector(c, i)
                == ix.cells@[c]@[i] as int % 0x1_0000_0000,
{
    lemma_written_header(ix);
    lemma_written_layout(ix);
    assert forall|i: int| 0 <= i < ds.count implies #[trigger] ds.vector(i)
        == ix.vectors@[i]@ by {
        lemma_read_vector(ix, ds, i);
    }
    assert forall|i: int| 0 <= i < ds.count implies (#[trigger] ds.labels@[i] != 0)
        == ix.labels@[i] by {
        lemma_read_label(ix, ds, i);
    }
    assert forall|c: int| 0 <= c < ds.num_cells implies #[trigger] ds.centroids@[c]@
        == ix.centroids@[c]@ by {
        lemma_read_centroid(ix, ds, c);
    }
    assert forall|c: int| 0 <= c < ds.num_cells implies #[trigger] ds.cell_len(c)
        == ix.cells@[c]@.len() by {
        lemma_read_cell(ix, ds, c);
    }
    assert forall|c: int, i: int|
        0 <= c < ds.num_cells && 0 <= i < ds.cell_len(c) implies #[trigger] ds.cell_vector(c, i)
        == ix.cells@[c]@[i] as int % 0x1_0000_0000 by {
        lemma_read_cell(ix, ds, c);
    }
}

/// A cell is well formed where it holds numbers of existing vectors.
proof fn lemma_cell_wf(ds: &Dataset, c: int, cell: Seq<usize>)
    requires
        ds.count <= u32::MAX,
        ds.cell_len(c) == cell.len(),
        ds.cell_meta@[c].0 + cell.len() <= ds.cell_indices@.len() <= u32::MAX,
        forall|i: int|
            0 <= i < cell.len() ==> #[trigger] ds.cell_vector(c, i) == cell[i] as int
                % 0x1_0000_0000,
        forall|i: int| 0 <= i < cell.len() ==> #[trigger] cell[i] < ds.count,
    ensures
        ds.cell_wf(c),
        forall|i: int| 0 <= i < cell.len() ==> #[trigger] ds.cell_vector(c, i) == cell[i],
{
    assert forall|i: int| 0 <= i < cell.len() implies #[trigger] ds.cell_vector(c, i)
        == cell[i] by {
        assert(cell[i] < ds.count);
    }
    let at = ds.cell_meta@[c].0 as int;
    assert forall|i: int| at <= i < at + ds.cell_len(c) implies #[trigger] ds.cell_indices@[i]
        < ds.count by {
        assert(ds.cell_vector(c, i - at) == cell[i - at]);
    }
}

/// The dataset read from a written index is well formed where the cells speak
/// of existing vectors only, and lists the same vectors in its cells.
pub proof fn law_encoded_loads_well_formed(ix: &Index, ds: &Dataset)
    requires
        ix.wf(),
        ix.fits(),
        ix.cells_wf(),
        holds(index_bytes(ix), ds),
    ensures
        ds.wf(),
        forall|c: int, i: int|
            0 <= c < ds.num_cells && 0 <= i < ds.cell_len(c) ==> #[trigger] ds.cell_vector(c, i)
                == ix.cells@[c]@[i],
{
    law_load_gives_back_encoded(ix, ds);
    assert forall|c: int| 0 <= c < ds.num_cells implies #[trigger] ds.cell_wf(c) && forall|i: int|
        0 <= i < ds.cell_len(c) ==> #[trigger] ds.cell_vector(c, i) == ix.cells@[c]@[i] by {
        lemma_read_cell(ix, ds, c);
        lemma_cell_wf(ds, c, ix.cells@[c]@);
    }
    assert forall|c: int, i: int|
        0 <= c < ds.num_cells && 0 <= i < ds.cell_len(c) implies #[trigger] ds.cell_vector(c, i)
        == ix.cells@[c]@[i] by {
        assert(ds.cell_wf(c));
    }
}

} // verus!
