//! The binary index file: a magic number, the counts, the centroids, the
//! bounding boxes (version 3 only), the labels, the cells and the vectors,
//! dimension by dimension. All numbers are little-endian.

use crate::dataset::Dataset;
use crate::distance::DIMS;
use crate::scan::{stands_at, word_at};
use crate::words::{i16_at, i16s, joined, lemma_i16s_push, lemma_u32_bytes_low, lemma_u32s_push,
    push_i16, push_str, push_u32, read_i16, read_u16, read_u32, u16_at, u16_bytes, u32_at,
    u32_bytes, u32s};
use vstd::arithmetic::div_mod::lemma_add_mod_noop;
use vstd::prelude::*;
use vstd::string::*;

verus! {

/// The first bytes of every index file; the version follows.
pub const MAGIC: &'static str = "RINHA06";

/// The version without bounding boxes.
pub const PLAIN_VERSION: u8 = 2;

/// The version with bounding boxes.
pub const BOXED_VERSION: u8 = 3;

/// The length of the magic number, the version and the counts.
pub const HEADER_LEN: usize = 18;

/// The length of a vector in the file.
pub const VECTOR_LEN: usize = 28;

/// The contents of an index without bounding boxes.
pub struct Index {
    pub vectors: Vec<[i16; DIMS]>,
    /// Whether each vector is a fraud.
    pub labels: Vec<bool>,
    /// One centroid per cell.
    pub centroids: Vec<[i16; DIMS]>,
    /// The numbers of the vectors of each cell.
    pub cells: Vec<Vec<usize>>,
}

impl Index {
    /// Whether each vector has a label and each cell a centroid.
    pub open spec fn wf(&self) -> bool {
        &&& self.labels@.len() == self.vectors@.len()
        &&& self.centroids@.len() == self.cells@.len()
    }

    /// Whether the file format has room for all counts and positions.
    pub open spec fn fits(&self) -> bool {
        &&& self.vectors@.len() <= u32::MAX
        &&& self.cells@.len() <= u32::MAX
        &&& joined(cell_rows(self.cells@), self.cells@.len() as int).len() <= u32::MAX
    }

    /// Whether the cells speak of existing vectors only.
    pub open spec fn cells_wf(&self) -> bool {
        forall|c: int, i: int|
            0 <= c < self.cells@.len() && 0 <= i < self.cells@[c]@.len() ==> #[trigger] self.cells@[c]@[i]
                < self.vectors@.len()
    }
}

/// The components of some vectors, vector after vector.
pub open spec fn vector_rows(vectors: Seq<[i16; DIMS]>) -> Seq<Seq<i16>> {
    Seq::new(vectors.len(), |c: int| vectors[c]@)
}

/// The components of some vectors, dimension after dimension.
pub open spec fn columns(vectors: Seq<[i16; DIMS]>) -> Seq<Seq<i16>> {
    Seq::new(DIMS as nat, |d: int| Seq::new(vectors.len(), |i: int| vectors[i]@[d]))
}

/// The numbers of the vectors of each cell.
pub open spec fn cell_rows(cells: Seq<Vec<usize>>) -> Seq<Seq<int>> {
    Seq::new(cells.len(), |c: int| Seq::new(cells[c]@.len(), |i: int| cells[c]@[i] as int))
}

/// The number of vectors in the cells before cell `c`.
pub open spec fn cell_offset(cells: Seq<Vec<usize>>, c: int) -> int {
    joined(cell_rows(cells), c).len() as int
}

/// The offset and the length of each cell.
pub open spec fn meta_rows(cells: Seq<Vec<usize>>) -> Seq<Seq<int>> {
    Seq::new(cells.len(), |c: int| seq![cell_offset(cells, c), cells[c]@.len() as int])
}

/// A label as a byte.
pub open spec fn label_byte(fraud: bool) -> u8 {
    if fraud {
        1
    } else {
        0
    }
}

/// The labels, one byte each.
pub open spec fn label_bytes(labels: Seq<bool>) -> Seq<u8> {
    Seq::new(labels.len(), |i: int| label_byte(labels[i]))
}

/// The magic number, the version and the counts.
pub open spec fn header_bytes(ix: &Index) -> Seq<u8> {
    MAGIC.spec_bytes() + seq![PLAIN_VERSION] + u32_bytes(ix.vectors@.len() as int) + u16_bytes(
        DIMS as int,
    ) + u32_bytes(ix.cells@.len() as int)
}

/// The centroids in the file.
pub open spec fn centroid_bytes(ix: &Index) -> Seq<u8> {
    i16s(joined(vector_rows(ix.centroids@), ix.cells@.len() as int))
}

/// The offsets and lengths of the cells in the file.
pub open spec fn meta_bytes(ix: &Index) -> Seq<u8> {
    u32s(joined(meta_rows(ix.cells@), ix.cells@.len() as int))
}

/// The numbers of the vectors of all cells in the file.
pub open spec fn cell_bytes(ix: &Index) -> Seq<u8> {
    u32s(joined(cell_rows(ix.cells@), ix.cells@.len() as int))
}

/// The vectors in the file.
pub open spec fn column_bytes(ix: &Index) -> Seq<u8> {
    i16s(joined(columns(ix.vectors@), DIMS as int))
}

/// The index file of an index.
pub open spec fn index_bytes(ix: &Index) -> Seq<u8> {
    header_bytes(ix) + centroid_bytes(ix) + label_bytes(ix.labels@) + meta_bytes(ix) + cell_bytes(
        ix,
    ) + column_bytes(ix)
}

/// Appends vectors, vector after vector.
fn push_rows(out: &mut Vec<u8>, rows: &Vec<[i16; DIMS]>)
    ensures
        final(out)@ == old(out)@ + i16s(joined(vector_rows(rows@), rows@.len() as int)),
{
    let mut c: usize = 0;
    assert(out@ =~= old(out)@ + i16s(Seq::<i16>::empty()));
    while c < rows.len()
        invariant
            c <= rows@.len(),
            out@ == old(out)@ + i16s(joined(vector_rows(rows@), c as int)),
        decreases rows@.len() - c,
    {
        let ghost done = joined(vector_rows(rows@), c as int);
        let ghost row = rows@[c as int]@;
        let mut d: usize = 0;
        assert(done + row.take(0) =~= done);
        while d < DIMS
            invariant
                c < rows@.len(),
                d <= DIMS,
                row == rows@[c as int]@,
                out@ == old(out)@ + i16s(done + row.take(d as int)),
            decreases DIMS - d,
        {
            push_i16(out, rows[c][d]);
            proof {
                lemma_i16s_push(done + row.take(d as int), row[d as int]);
                assert((done + row.take(d as int)).push(row[d as int]) =~= done + row.take(d + 1));
            }
            d = d + 1;
            assert(out@ =~= old(out)@ + i16s(done + row.take(d as int)));
        }
        assert(row.take(DIMS as int) =~= row);
        c = c + 1;
    }
}

/// Appends labels, one byte each.
fn push_labels(out: &mut Vec<u8>, labels: &Vec<bool>)
    ensures
        final(out)@ == old(out)@ + label_bytes(labels@),
{
    let mut i: usize = 0;
    while i < labels.len()
        invariant
            i <= labels@.len(),
            out@ == old(out)@ + label_bytes(labels@).take(i as int),
        decreases labels@.len() - i,
    {
        out.push(
            if labels[i] {
                1
            } else {
                0
            },
        );
        i = i + 1;
        assert(out@ =~= old(out)@ + label_bytes(labels@).take(i as int));
    }
    assert(label_bytes(labels@).take(i as int) =~= label_bytes(labels@));
}

/// One more cell's offset and length.
proof fn lemma_meta_push(cells: Seq<Vec<usize>>, c: int)
    requires
        0 <= c < cells.len(),
    ensures
        u32s(joined(meta_rows(cells), c + 1)) == u32s(joined(meta_rows(cells), c)) + u32_bytes(
            cell_offset(cells, c) % 0x1_0000_0000,
        ) + u32_bytes(cells[c]@.len() as int),
        cell_offset(cells, c + 1) == cell_offset(cells, c) + cells[c]@.len(),
{
    let done = joined(meta_rows(cells), c);
    let at = cell_offset(cells, c);
    let len = cells[c]@.len() as int;
    lemma_u32_bytes_low(at);
    lemma_u32s_push(done, at);
    lemma_u32s_push(done.push(at), len);
    assert(done.push(at).push(len) =~= joined(meta_rows(cells), c + 1));
}

/// Appends the offset and the length of each cell.
fn push_meta(out: &mut Vec<u8>, cells: &Vec<Vec<usize>>)
    ensures
        final(out)@ == old(out)@ + u32s(joined(meta_rows(cells@), cells@.len() as int)),
{
    let mut offset: u64 = 0;
    let mut c: usize = 0;
    assert(out@ =~= old(out)@ + u32s(Seq::<int>::empty()));
    while c < cells.len()
        invariant
            c <= cells@.len(),
            offset == cell_offset(cells@, c as int) % 0x1_0000_0000,
            out@ == old(out)@ + u32s(joined(meta_rows(cells@), c as int)),
        decreases cells@.len() - c,
    {
        let len: u64 = cells[c].len() as u64;
        push_u32(out, offset);
        push_u32(out, len);
        proof {
            lemma_meta_push(cells@, c as int);
            lemma_add_mod_noop(cell_offset(cells@, c as int), len as int, 0x1_0000_0000);
            assert(out@ =~= old(out)@ + u32s(joined(meta_rows(cells@), c + 1)));
        }
        offset = (offset + len % 0x1_0000_0000) % 0x1_0000_0000;
        c = c + 1;
    }
}

/// Appends the numbers of the vectors of each cell.
fn push_cells(out: &mut Vec<u8>, cells: &Vec<Vec<usize>>)
    ensures
        final(out)@ == old(out)@ + u32s(joined(cell_rows(cells@), cells@.len() as int)),
{
    let mut c: usize = 0;
    assert(out@ =~= old(out)@ + u32s(Seq::<int>::empty()));
    while c < cells.len()
        invariant
            c <= cells@.len(),
            out@ == old(out)@ + u32s(joined(cell_rows(cells@), c as int)),
        decreases cells@.len() - c,
    {
        let ghost done = joined(cell_rows(cells@), c as int);
        let ghost row = cell_rows(cells@)[c as int];
        let cell: &Vec<usize> = &cells[c];
        let mut i: usize = 0;
        assert(done + row.take(0) =~= done);
        while i < cell.len()
            invariant
                c < cells@.len(),
                i <= cell@.len(),
                cell == cells@[c as int],
                row == cell_rows(cells@)[c as int],
                out@ == old(out)@ + u32s(done + row.take(i as int)),
            decreases cell@.len() - i,
        {
            push_u32(out, cell[i] as u64);
            proof {
                lemma_u32s_push(done + row.take(i as int), row[i as int]);
                assert((done + row.take(i as int)).push(row[i as int]) =~= done + row.take(i + 1));
            }
            i = i + 1;
            assert(out@ =~= old(out)@ + u32s(done + row.take(i as int)));
        }
        assert(row.take(i as int) =~= row);
        c = c + 1;
    }
}

/// Appends vectors, dimension after dimension.
fn push_columns(out: &mut Vec<u8>, vectors: &Vec<[i16; DIMS]>)
    ensures
        final(out)@ == old(out)@ + i16s(joined(columns(vectors@), DIMS as int)),
{
    let mut d: usize = 0;
    assert(out@ =~= old(out)@ + i16s(Seq::<i16>::empty()));
    while d < DIMS
        invariant
            d <= DIMS,
            out@ == old(out)@ + i16s(joined(columns(vectors@), d as int)),
        decreases DIMS - d,
    {
        let ghost done = joined(columns(vectors@), d as int);
        let ghost column = columns(vectors@)[d as int];
        let mut i: usize = 0;
        assert(done + column.take(0) =~= done);
        while i < vectors.len()
            invariant
                d < DIMS,
                i <= vectors@.len(),
                column == columns(vectors@)[d as int],
                out@ == old(out)@ + i16s(done + column.take(i as int)),
            decreases vectors@.len() - i,
        {
            push_i16(out, vectors[i][d]);
            proof {
                lemma_i16s_push(done + column.take(i as int), column[i as int]);
                assert((done + column.take(i as int)).push(column[i as int]) =~= done + column.take(
                    i + 1,
                ));
            }
            i = i + 1;
            assert(out@ =~= old(out)@ + i16s(done + column.take(i as int)));
        }
        assert(column.take(i as int) =~= column);
        d = d + 1;
    }
}

/// Writes an index file. Counts and positions are written modulo 2^32.
pub fn encode_index(ix: &Index) -> (out: Vec<u8>)
    requires
        ix.wf(),
    ensures
        out@ == index_bytes(ix),
{
    let mut out: Vec<u8> = Vec::new();
    push_str(&mut out, MAGIC);
    out.push(PLAIN_VERSION);
    push_u32(&mut out, ix.vectors.len() as u64);
    out.push(DIMS as u8);
    out.push(0);
    push_u32(&mut out, ix.cells.len() as u64);
    assert(out@ =~= header_bytes(ix));
    push_rows(&mut out, &ix.centroids);
    push_labels(&mut out, &ix.labels);
    push_meta(&mut out, &ix.cells);
    push_cells(&mut out, &ix.cells);
    push_columns(&mut out, &ix.vectors);
    out
}

/// Why an index file could not be read.
#[derive(Debug, Clone, Copy, PartialEq, Eq, Structural)]
pub enum LoadError {
    /// The file is shorter than its header.
    TooSmall,
    /// The file starts with no known magic number and version.
    BadMagic,
    /// The vectors have another number of dimensions.
    DimensionMismatch,
    /// The file ends before its last section does.
    Truncated,
}

/// Whether the file starts as a file of the given version does.
pub open spec fn has_version(d: Seq<u8>, version: u8) -> bool {
    stands_at(d, 0, MAGIC.spec_bytes()) && d[7] == version
}

/// The number of vectors in the file.
pub open spec fn vector_count(d: Seq<u8>) -> int {
    u32_at(d, 8) as int
}

/// The number of cells in the file.
pub open spec fn cell_count(d: Seq<u8>) -> int {
    u32_at(d, 14) as int
}

/// Where the labels start.
pub open spec fn labels_start(d: Seq<u8>) -> int {
    if has_version(d, BOXED_VERSION) {
        HEADER_LEN + VECTOR_LEN * (3 * cell_count(d))
    } else {
        HEADER_LEN + VECTOR_LEN * cell_count(d)
    }
}

/// Where the offsets and lengths of the cells start.
pub open spec fn meta_start(d: Seq<u8>) -> int {
    labels_start(d) + vector_count(d)
}

/// Where the numbers of the vectors of the cells start.
pub open spec fn indices_start(d: Seq<u8>) -> int {
    meta_start(d) + 8 * cell_count(d)
}

/// The sum of the lengths of the first `n` cells.
pub open spec fn len_sum(d: Seq<u8>, n: int) -> int
    decreases n,
{
    if n <= 0 {
        0
    } else {
        len_sum(d, n - 1) + u32_at(d, meta_start(d) + 8 * (n - 1) + 4)
    }
}

/// The number of positions that the cells hold, in 32 bits.
pub open spec fn index_count(d: Seq<u8>) -> int {
    len_sum(d, cell_count(d)) % 0x1_0000_0000
}

/// Where the vectors start.
pub open spec fn vectors_start(d: Seq<u8>) -> int {
    indices_start(d) + 4 * index_count(d)
}

/// Where the last section ends.
pub open spec fn file_end(d: Seq<u8>) -> int {
    vectors_start(d) + VECTOR_LEN * vector_count(d)
}

/// What is wrong with a file, if anything is.
pub open spec fn fault(d: Seq<u8>) -> Option<LoadError> {
    if d.len() < HEADER_LEN {
        Some(LoadError::TooSmall)
    } else if !has_version(d, PLAIN_VERSION) && !has_version(d, BOXED_VERSION) {
        Some(LoadError::BadMagic)
    } else if u16_at(d, 12) != DIMS {
        Some(LoadError::DimensionMismatch)
    } else if d.len() < indices_start(d) || d.len() < file_end(d) {
        Some(LoadError::Truncated)
    } else {
        None
    }
}

/// Whether `rows` are the `n` vectors that stand in the file from `p` on.
pub open spec fn rows_at(d: Seq<u8>, p: int, n: int, rows: Seq<[i16; DIMS]>) -> bool {
    &&& rows.len() == n
    &&& forall|c: int, i: int|
        0 <= c < n && 0 <= i < DIMS ==> #[trigger] rows[c]@[i] == i16_at(
            d,
            p + VECTOR_LEN * c + 2 * i,
        )
}

/// Whether a dataset holds what the file says. The labels are zero or one.
pub open spec fn holds(d: Seq<u8>, ds: &Dataset) -> bool {
    &&& ds.count == vector_count(d)
    &&& ds.num_cells == cell_count(d)
    &&& rows_at(d, HEADER_LEN as int, cell_count(d), ds.centroids@)
    &&& if has_version(d, BOXED_VERSION) {
        &&& rows_at(d, HEADER_LEN + VECTOR_LEN * cell_count(d), cell_count(d), ds.bbox_min@)
        &&& rows_at(d, HEADER_LEN + VECTOR_LEN * (2 * cell_count(d)), cell_count(d), ds.bbox_max@)
    } else {
        ds.bbox_min@.len() == 0 && ds.bbox_max@.len() == 0
    }
    &&& ds.labels@.len() == vector_count(d)
    &&& forall|i: int|
        0 <= i < vector_count(d) ==> #[trigger] ds.labels@[i] == label_byte(
            d[labels_start(d) + i] != 0,
        )
    &&& ds.cell_meta@.len() == cell_count(d)
    &&& forall|c: int|
        0 <= c < cell_count(d) ==> #[trigger] ds.cell_meta@[c] == (
            u32_at(d, meta_start(d) + 8 * c),
            u32_at(d, meta_start(d) + 8 * c + 4),
        )
    &&& ds.cell_indices@.len() == index_count(d)
    &&& forall|i: int|
        0 <= i < index_count(d) ==> #[trigger] ds.cell_indices@[i] == u32_at(
            d,
            indices_start(d) + 4 * i,
        )
    &&& ds.dims@.len() == DIMS * vector_count(d)
    &&& forall|k: int|
        0 <= k < DIMS * vector_count(d) ==> #[trigger] ds.dims@[k] == i16_at(
            d,
            vectors_start(d) + 2 * k,
        )
}

/// Reads `n` vectors from `pos` on.
fn read_rows(data: &[u8], pos: usize, n: usize) -> (rows: Vec<[i16; DIMS]>)
    requires
        pos + VECTOR_LEN * n <= data@.len(),
    ensures
        rows_at(data@, pos as int, n as int, rows@),
{
    let len: usize = data.len();
    let mut rows: Vec<[i16; DIMS]> = Vec::new();
    let mut c: usize = 0;
    while c < n
        invariant
            c <= n,
            len == data@.len(),
            pos + VECTOR_LEN * n <= len,
            rows_at(data@, pos as int, c as int, rows@),
        decreases n - c,
    {
        let mut row: [i16; DIMS] = [0; DIMS];
        let mut i: usize = 0;
        while i < DIMS
            invariant
                c < n,
                i <= DIMS,
                len == data@.len(),
                pos + VECTOR_LEN * n <= len,
                forall|j: int|
                    0 <= j < i ==> #[trigger] row@[j] == i16_at(
                        data@,
                        pos + VECTOR_LEN * c + 2 * j,
                    ),
            decreases DIMS - i,
        {
            row[i] = read_i16(data, pos + VECTOR_LEN * c + 2 * i);
            i = i + 1;
        }
        rows.push(row);
        c = c + 1;
    }
    rows
}

/// Reads `n` labels from `pos` on.
fn read_labels(data: &[u8], pos: usize, n: usize) -> (labels: Vec<u8>)
    requires
        pos + n <= data@.len(),
    ensures
        labels@.len() == n,
        forall|i: int|
            0 <= i < n ==> #[trigger] labels@[i] == label_byte(data@[pos + i] != 0),
{
    let len: usize = data.len();
    let mut labels: Vec<u8> = Vec::new();
    let mut i: usize = 0;
    while i < n
        invariant
            i <= n,
            len == data@.len(),
            pos + n <= len,
            labels@.len() == i,
            forall|j: int|
                0 <= j < i ==> #[trigger] labels@[j] == label_byte(data@[pos + j] != 0),
        decreases n - i,
    {
        labels.push(
            if data[pos + i] != 0 {
                1
            } else {
                0
            },
        );
        i = i + 1;
    }
    labels
}

/// Reads the offsets and lengths of `n` cells from `pos` on. The second part of
/// the result is the sum of the lengths, in 32 bits.
fn read_meta(data: &[u8], pos: usize, n: usize) -> (r: (Vec<(u32, u32)>, u32))
    requires
        pos == meta_start(data@),
        pos + 8 * n <= data@.len(),
    ensures
        r.0@.len() == n,
        forall|c: int|
            0 <= c < n ==> #[trigger] r.0@[c] == (
                u32_at(data@, pos + 8 * c),
                u32_at(data@, pos + 8 * c + 4),
            ),
        r.1 == len_sum(data@, n as int) % 0x1_0000_0000,
{
    let len: usize = data.len();
    let mut meta: Vec<(u32, u32)> = Vec::new();
    let mut total: u32 = 0;
    let mut c: usize = 0;
    while c < n
        invariant
            c <= n,
            len == data@.len(),
            pos == meta_start(data@),
            pos + 8 * n <= len,
            meta@.len() == c,
            forall|j: int|
                0 <= j < c ==> #[trigger] meta@[j] == (
                    u32_at(data@, pos + 8 * j),
                    u32_at(data@, pos + 8 * j + 4),
                ),
            total == len_sum(data@, c as int) % 0x1_0000_0000,
        decreases n - c,
    {
        let at: u32 = read_u32(data, pos + 8 * c);
        let cell_len: u32 = read_u32(data, pos + 8 * c + 4);
        meta.push((at, cell_len));
        proof {
            lemma_add_mod_noop(len_sum(data@, c as int), cell_len as int, 0x1_0000_0000);
        }
        total = total.wrapping_add(cell_len);
        c = c + 1;
    }
    (meta, total)
}

/// Reads `n` positions from `pos` on.
fn read_indices(data: &[u8], pos: usize, n: usize) -> (indices: Vec<u32>)
    requires
        pos + 4 * n <= data@.len(),
    ensures
        indices@.len() == n,
        forall|i: int| 0 <= i < n ==> #[trigger] indices@[i] == u32_at(data@, pos + 4 * i),
{
    let len: usize = data.len();
    let mut indices: Vec<u32> = Vec::new();
    let mut i: usize = 0;
    while i < n
        invariant
            i <= n,
            len == data@.len(),
            pos + 4 * n <= len,
            indices@.len() == i,
            forall|j: int| 0 <= j < i ==> #[trigger] indices@[j] == u32_at(data@, pos + 4 * j),
        decreases n - i,
    {
        indices.push(read_u32(data, pos + 4 * i));
        i = i + 1;
    }
    indices
}

/// Reads `n` components from `pos` on.
fn read_components(data: &[u8], pos: usize, n: usize) -> (dims: Vec<i16>)
    requires
        pos + 2 * n <= data@.len(),
    ensures
        dims@.len() == n,
        forall|k: int| 0 <= k < n ==> #[trigger] dims@[k] == i16_at(data@, pos + 2 * k),
{
    let len: usize = data.len();
    let mut dims: Vec<i16> = Vec::new();
    let mut k: usize = 0;
    while k < n
        invariant
            k <= n,
            len == data@.len(),
            pos + 2 * n <= len,
            dims@.len() == k,
            forall|j: int| 0 <= j < k ==> #[trigger] dims@[j] == i16_at(data@, pos + 2 * j),
        decreases n - k,
    {
        dims.push(read_i16(data, pos + 2 * k));
        k = k + 1;
    }
    dims
}

impl Dataset {
    /// Load a dataset from the bytes of an index file.
    pub fn load_from_bin(data: &[u8]) -> (r: Result<Dataset, LoadError>)
        ensures
            match r {
                Ok(ds) => fault(data@) is None && holds(data@, &ds),
                Err(e) => fault(data@) == Some(e),
            },
    {
        proof {
            reveal_strlit("RINHA06");
            assert(is_ascii("RINHA06"));
        }
        if data.len() < HEADER_LEN {
            return Err(LoadError::TooSmall);
        }
        let version: u8 = data[7];
        if !word_at(data, 0, MAGIC.as_bytes()) || (version != PLAIN_VERSION && version
            != BOXED_VERSION) {
            return Err(LoadError::BadMagic);
        }
        let boxed: bool = version == BOXED_VERSION;
        if read_u16(data, 12) as usize != DIMS {
            return Err(LoadError::DimensionMismatch);
        }
        let count: u32 = read_u32(data, 8);
        let cells: u32 = read_u32(data, 14);
        let len: u64 = data.len() as u64;
        let labels_at: u64 = if boxed {
            HEADER_LEN as u64 + VECTOR_LEN as u64 * (3 * cells as u64)
        } else {
            HEADER_LEN as u64 + VECTOR_LEN as u64 * cells as u64
        };
        let meta_at: u64 = labels_at + count as u64;
        let indices_at: u64 = meta_at + 8 * cells as u64;
        if len < indices_at {
            return Err(LoadError::Truncated);
        }
        let n: usize = count as usize;
        let m: usize = cells as usize;
        let (cell_meta, total) = read_meta(data, meta_at as usize, m);
        let vectors_at: u64 = indices_at + 4 * total as u64;
        if len < vectors_at + VECTOR_LEN as u64 * count as u64 {
            return Err(LoadError::Truncated);
        }
        let centroids: Vec<[i16; DIMS]> = read_rows(data, HEADER_LEN, m);
        let mut bbox_min: Vec<[i16; DIMS]> = Vec::new();
        let mut bbox_max: Vec<[i16; DIMS]> = Vec::new();
        if boxed {
            bbox_min = read_rows(data, HEADER_LEN + VECTOR_LEN * m, m);
            bbox_max = read_rows(data, HEADER_LEN + VECTOR_LEN * (2 * m), m);
        }
        let labels: Vec<u8> = read_labels(data, labels_at as usize, n);
        let cell_indices: Vec<u32> = read_indices(data, indices_at as usize, total as usize);
        let dims: Vec<i16> = read_components(data, vectors_at as usize, DIMS * n);
        Ok(
            Dataset {
                count: n,
                num_cells: m,
                labels,
                centroids,
                bbox_min,
                bbox_max,
                cell_meta,
                cell_indices,
                dims,
            },
        )
    }
}

} // verus!
