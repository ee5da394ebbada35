//! The labelled reference vectors from which an index is built.
//!
//! They come as a JSON array of objects like
//! {"vector":[0.1,-1,0.25],"label":"fraud"}, compressed with gzip.

use crate::distance::DIMS;
use crate::number::{lemma_mantissa_end, mantissa_end, plain_number_at, read_plain_number, whole,
    Number, NumberView};
use crate::scan::{after_byte, after_ws, lemma_run_end, run_end, same_bytes, scan, skip_byte,
    skip_ws, ByteClass, CLOSE_BRACE, CLOSE_BRACKET, COMMA, OPEN_BRACE, OPEN_BRACKET, QUOTE};
use vstd::prelude::*;
use vstd::slice::slice_subrange;
use vstd::string::*;

verus! {

/// A reference vector and its label.
#[derive(Debug)]
pub struct Reference {
    /// The components; those that the text does not give are zero.
    pub vector: Vec<Number>,
    pub fraud: bool,
}

/// What a reference says.
#[verifier::ext_equal]
pub struct ReferenceView {
    pub vector: Seq<NumberView>,
    pub fraud: bool,
}

/// The numerals that a list holds.
pub open spec fn number_views(list: Seq<Number>) -> Seq<NumberView> {
    list.map_values(|n: Number| n@)
}

impl View for Reference {
    type V = ReferenceView;

    open spec fn view(&self) -> ReferenceView {
        ReferenceView { vector: number_views(self.vector@), fraud: self.fraud }
    }
}

/// A reference of which nothing has been read yet.
pub open spec fn blank_reference() -> ReferenceView {
    ReferenceView { vector: Seq::new(DIMS as nat, |i: int| whole(0)), fraud: false }
}

/// The position behind the first byte `b` from `p` on, or the end of the text.
pub open spec fn past(d: Seq<u8>, p: int, b: u8) -> int {
    after_byte(d, run_end(d, p, ByteClass::Not(b)), b)
}

/// Steps behind the first byte `b` from `pos` on, or to the end of the text.
fn skip_past(data: &[u8], pos: usize, b: u8) -> (r: usize)
    requires
        pos <= data@.len(),
    ensures
        r == past(data@, pos as int, b),
        pos <= r <= data@.len(),
{
    skip_byte(data, scan(data, pos, ByteClass::Not(b)), b)
}

/// The vector after its components from number `i` on have been read from `p`
/// on, and the position behind them. There is none where the text ends in front
/// of a component.
pub open spec fn components(d: Seq<u8>, p: int, i: int, vector: Seq<NumberView>) -> Option<
    (Seq<NumberView>, int),
>
    decreases DIMS - i,
{
    if i >= DIMS || p >= d.len() {
        Some((vector, p))
    } else {
        let s = run_end(d, p, ByteClass::Blank);
        if s >= d.len() {
            None
        } else {
            components(
                d,
                after_byte(d, run_end(d, mantissa_end(d, s), ByteClass::Blank), COMMA),
                i + 1,
                vector.update(i, plain_number_at(d, s)),
            )
        }
    }
}

/// Where the key at `s` ends.
pub open spec fn name_end(d: Seq<u8>, s: int) -> int {
    run_end(d, after_byte(d, s, QUOTE), ByteClass::Not(QUOTE))
}

/// The key at `s`.
pub open spec fn name_at(d: Seq<u8>, s: int) -> Seq<u8> {
    d.subrange(after_byte(d, s, QUOTE), name_end(d, s))
}

/// Where the value of the member at `s` starts.
pub open spec fn value_start(d: Seq<u8>, s: int) -> int {
    run_end(d, after_byte(d, name_end(d, s), QUOTE), ByteClass::KeyGap)
}

/// The reference after the value at `v` of the member `name`, and the position
/// behind the value.
pub open spec fn value(name: Seq<u8>, d: Seq<u8>, v: int, r: ReferenceView) -> Option<
    (ReferenceView, int),
> {
    if name == "vector".spec_bytes() {
        match components(d, past(d, v, OPEN_BRACKET), 0, r.vector) {
            Some((vector, q)) => Some(
                (ReferenceView { vector, ..r }, past(d, q, CLOSE_BRACKET)),
            ),
            None => None,
        }
    } else if name == "label".spec_bytes() {
        if v < d.len() {
            let t = after_byte(d, v, QUOTE);
            let e = run_end(d, t, ByteClass::Not(QUOTE));
            Some(
                (
                    ReferenceView { fraud: d.subrange(t, e) == "fraud".spec_bytes(), ..r },
                    after_byte(d, e, QUOTE),
                ),
            )
        } else {
            None
        }
    } else {
        Some((r, v))
    }
}

pub proof fn lemma_components(d: Seq<u8>, p: int, i: int, vector: Seq<NumberView>)
    requires
        0 <= p <= d.len(),
    ensures
        components(d, p, i, vector) matches Some((_, q)) ==> p <= q <= d.len(),
    decreases DIMS - i,
{
    if i < DIMS && p < d.len() {
        let s = run_end(d, p, ByteClass::Blank);
        lemma_run_end(d, p, ByteClass::Blank);
        if s < d.len() {
            lemma_mantissa_end(d, s);
            lemma_run_end(d, mantissa_end(d, s), ByteClass::Blank);
            lemma_components(
                d,
                after_byte(d, run_end(d, mantissa_end(d, s), ByteClass::Blank), COMMA),
                i + 1,
                vector.update(i, plain_number_at(d, s)),
            );
        }
    }
}

/// The value of a member starts behind the member's first byte.
pub proof fn lemma_value_start(d: Seq<u8>, s: int)
    requires
        0 <= s < d.len(),
    ensures
        s <= after_byte(d, s, QUOTE) <= name_end(d, s) <= value_start(d, s) <= d.len(),
        s < value_start(d, s),
{
    lemma_run_end(d, after_byte(d, s, QUOTE), ByteClass::Not(QUOTE));
    lemma_run_end(d, after_byte(d, name_end(d, s), QUOTE), ByteClass::KeyGap);
}

pub proof fn lemma_value(name: Seq<u8>, d: Seq<u8>, v: int, r: ReferenceView)
    requires
        0 <= v <= d.len(),
    ensures
        value(name, d, v, r) matches Some((_, q)) ==> v <= q <= d.len(),
{
    lemma_run_end(d, v, ByteClass::Not(OPEN_BRACKET));
    lemma_components(d, past(d, v, OPEN_BRACKET), 0, r.vector);
    if let Some((_, q)) = components(d, past(d, v, OPEN_BRACKET), 0, r.vector) {
        lemma_run_end(d, q, ByteClass::Not(CLOSE_BRACKET));
    }
    lemma_run_end(d, after_byte(d, v, QUOTE), ByteClass::Not(QUOTE));
}

/// The reference after the members from `p` on, and the position where they
/// end.
pub open spec fn fields(d: Seq<u8>, p: int, r: ReferenceView) -> Option<(ReferenceView, int)>
    decreases d.len() - p,
{
    let s = after_ws(d, p);
    if !(0 <= p <= d.len()) || s >= d.len() || d[s] == CLOSE_BRACE {
        Some((r, s))
    } else {
        match value(name_at(d, s), d, value_start(d, s), r) {
            None => None,
            Some((next, q)) => {
                proof {
                    lemma_run_end(d, p, ByteClass::Whitespace);
                    lemma_value_start(d, s);
                    lemma_value(name_at(d, s), d, value_start(d, s), r);
                    lemma_run_end(d, q, ByteClass::Separator);
                }
                fields(d, run_end(d, q, ByteClass::Separator), next)
            },
        }
    }
}

pub proof fn lemma_fields(d: Seq<u8>, p: int, r: ReferenceView)
    requires
        0 <= p <= d.len(),
    ensures
        fields(d, p, r) matches Some((_, q)) ==> p <= q <= d.len() && (p < d.len() && d[p]
            != CLOSE_BRACE ==> p < q),
    decreases d.len() - p,
{
    let s = after_ws(d, p);
    lemma_run_end(d, p, ByteClass::Whitespace);
    if s < d.len() && d[s] != CLOSE_BRACE {
        lemma_value_start(d, s);
        lemma_value(name_at(d, s), d, value_start(d, s), r);
        if let Some((next, q)) = value(name_at(d, s), d, value_start(d, s), r) {
            lemma_run_end(d, q, ByteClass::Separator);
            lemma_fields(d, run_end(d, q, ByteClass::Separator), next);
        }
    }
}

/// What stands at a position of the reference text.
pub enum Item<R, P> {
    /// A reference, and the position behind it.
    Record(R, P),
    /// The end of the list.
    End,
    /// A value in which the text ends.
    CutOff,
}

/// What stands in the list at `p`, behind separators.
pub open spec fn item_at(d: Seq<u8>, p: int) -> Item<ReferenceView, int> {
    let s = run_end(d, p, ByteClass::Separator);
    if s >= d.len() || d[s] == CLOSE_BRACKET {
        Item::End
    } else {
        match fields(d, after_byte(d, s, OPEN_BRACE), blank_reference()) {
            Some((r, q)) => Item::Record(r, after_byte(d, q, CLOSE_BRACE)),
            None => Item::CutOff,
        }
    }
}

/// A reference takes up at least one byte.
pub proof fn lemma_item_at(d: Seq<u8>, p: int)
    requires
        0 <= p <= d.len(),
    ensures
        item_at(d, p) matches Item::Record(_, q) ==> p < q <= d.len(),
{
    let s = run_end(d, p, ByteClass::Separator);
    lemma_run_end(d, p, ByteClass::Separator);
    if s < d.len() && d[s] != CLOSE_BRACKET {
        lemma_fields(d, after_byte(d, s, OPEN_BRACE), blank_reference());
    }
}

/// The references of the list from `p` on.
pub open spec fn references_from(d: Seq<u8>, p: int) -> Option<Seq<ReferenceView>>
    decreases d.len() - p,
{
    match item_at(d, p) {
        Item::Record(r, q) => if 0 <= p <= d.len() {
            proof {
                lemma_item_at(d, p);
            }
            match references_from(d, q) {
                Some(rest) => Some(seq![r] + rest),
                None => None,
            }
        } else {
            None
        },
        Item::End => Some(Seq::empty()),
        Item::CutOff => None,
    }
}

/// Where the elements of the list start: behind the first opening bracket.
pub open spec fn list_start(d: Seq<u8>) -> int {
    past(d, 0, OPEN_BRACKET)
}

/// The references of a text, in order. There are none where the text ends
/// inside a value.
pub open spec fn references_in(d: Seq<u8>) -> Option<Seq<ReferenceView>> {
    references_from(d, list_start(d))
}

/// The references that a list holds.
pub open spec fn reference_views(list: Seq<Reference>) -> Seq<ReferenceView> {
    list.map_values(|r: Reference| r@)
}

/// Finds where the elements of the list start.
pub fn find_list(data: &[u8]) -> (r: usize)
    ensures
        r == list_start(data@),
        r <= data@.len(),
{
    skip_past(data, 0, OPEN_BRACKET)
}

/// Reads the components of a vector.
fn read_components(data: &[u8], pos: usize, vector: &mut Vec<Number>) -> (r: Option<usize>)
    requires
        pos <= data@.len(),
        old(vector)@.len() == DIMS,
    ensures
        final(vector)@.len() == DIMS,
        match r {
            Some(q) => components(data@, pos as int, 0, number_views(old(vector)@)) == Some(
                (number_views(final(vector)@), q as int),
            ) && pos <= q <= data@.len(),
            None => components(data@, pos as int, 0, number_views(old(vector)@)) is None,
        },
{
    let mut p: usize = pos;
    let mut i: usize = 0;
    while i < DIMS && p < data.len()
        invariant
            pos <= p <= data@.len(),
            i <= DIMS,
            vector@.len() == DIMS,
            components(data@, pos as int, 0, number_views(old(vector)@)) == components(
                data@,
                p as int,
                i as int,
                number_views(vector@),
            ),
        decreases DIMS - i,
    {
        let s: usize = scan(data, p, ByteClass::Blank);
        if s >= data.len() {
            return None;
        }
        let (n, e) = read_plain_number(data, s);
        let ghost shorter = number_views(vector@);
        vector.set(i, n);
        assert(number_views(vector@) =~= shorter.update(i as int, n@));
        p = skip_byte(data, scan(data, e, ByteClass::Blank), COMMA);
        i = i + 1;
    }
    Some(p)
}

/// Reads the value of one member of a reference.
fn read_value(name: &[u8], data: &[u8], pos: usize, reference: &mut Reference) -> (r: Option<usize>)
    requires
        pos <= data@.len(),
        old(reference).vector@.len() == DIMS,
    ensures
        final(reference).vector@.len() == DIMS,
        match r {
            Some(q) => value(name@, data@, pos as int, old(reference)@) == Some(
                (final(reference)@, q as int),
            ) && pos <= q <= data@.len(),
            None => value(name@, data@, pos as int, old(reference)@) is None,
        },
{
    if same_bytes(name, "vector".as_bytes()) {
        let open: usize = skip_past(data, pos, OPEN_BRACKET);
        match read_components(data, open, &mut reference.vector) {
            Some(q) => Some(skip_past(data, q, CLOSE_BRACKET)),
            None => None,
        }
    } else if same_bytes(name, "label".as_bytes()) {
        if pos >= data.len() {
            return None;
        }
        let start: usize = skip_byte(data, pos, QUOTE);
        let end: usize = scan(data, start, ByteClass::Not(QUOTE));
        reference.fraud = same_bytes(slice_subrange(data, start, end), "fraud".as_bytes());
        Some(skip_byte(data, end, QUOTE))
    } else {
        Some(pos)
    }
}

/// Reads what stands in the list at `pos`.
pub fn next_reference(data: &[u8], pos: usize) -> (r: Item<Reference, usize>)
    requires
        pos <= data@.len(),
    ensures
        match r {
            Item::Record(reference, q) => item_at(data@, pos as int) == Item::<
                ReferenceView,
                int,
            >::Record(reference@, q as int) && reference.vector@.len() == DIMS && pos < q
                <= data@.len(),
            Item::End => item_at(data@, pos as int) is End,
            Item::CutOff => item_at(data@, pos as int) is CutOff,
        },
{
    proof {
        lemma_item_at(data@, pos as int);
    }
    let start: usize = scan(data, pos, ByteClass::Separator);
    if start >= data.len() || data[start] == CLOSE_BRACKET {
        return Item::End;
    }
    let mut vector: Vec<Number> = Vec::new();
    let mut i: usize = 0;
    while i < DIMS
        invariant
            i <= DIMS,
            i == vector@.len(),
            forall|j: int| 0 <= j < i ==> (#[trigger] vector@[j])@ == whole(0),
        decreases DIMS - i,
    {
        vector.push(Number::zero());
        i = i + 1;
    }
    let mut reference = Reference { vector, fraud: false };
    assert(reference@ =~= blank_reference());
    let first: usize = skip_byte(data, start, OPEN_BRACE);
    let mut p: usize = first;
    loop
        invariant
            first <= p <= data@.len(),
            reference.vector@.len() == DIMS,
            fields(data@, first as int, blank_reference()) == fields(
                data@,
                p as int,
                reference@,
            ),
            pos <= start < data@.len(),
            start == run_end(data@, pos as int, ByteClass::Separator),
            data@[start as int] != CLOSE_BRACKET,
            first == after_byte(data@, start as int, OPEN_BRACE),
            item_at(data@, pos as int) matches Item::Record(_, q) ==> pos < q <= data@.len(),
        decreases data@.len() - p,
    {
        let s: usize = skip_ws(data, p);
        if s >= data.len() || data[s] == CLOSE_BRACE {
            return Item::Record(reference, skip_byte(data, s, CLOSE_BRACE));
        }
        proof {
            lemma_value_start(data@, s as int);
        }
        let from: usize = skip_byte(data, s, QUOTE);
        let to: usize = scan(data, from, ByteClass::Not(QUOTE));
        let v: usize = scan(data, skip_byte(data, to, QUOTE), ByteClass::KeyGap);
        match read_value(slice_subrange(data, from, to), data, v, &mut reference) {
            None => {
                return Item::CutOff;
            },
            Some(q) => {
                p = scan(data, q, ByteClass::Separator);
            },
        }
    }
}

/// Reads all references of a text. Returns `None` where the text ends inside a
/// value.
pub fn parse_json(data: &str) -> (r: Option<Vec<Reference>>)
    ensures
        match r {
            Some(list) => references_in(data.spec_bytes()) == Some(reference_views(list@))
                && forall|i: int|
                0 <= i < list@.len() ==> (#[trigger] list@[i]).vector@.len() == DIMS,
            None => references_in(data.spec_bytes()) is None,
        },
{
    let bytes: &[u8] = data.as_bytes();
    let mut list: Vec<Reference> = Vec::new();
    let mut p: usize = find_list(bytes);
    proof {
        if let Some(rest) = references_from(bytes@, p as int) {
            assert(reference_views(list@) + rest =~= rest);
        }
    }
    loop
        invariant
            bytes@ == data.spec_bytes(),
            p <= bytes@.len(),
            forall|i: int| 0 <= i < list@.len() ==> (#[trigger] list@[i]).vector@.len() == DIMS,
            match references_from(bytes@, p as int) {
                Some(rest) => references_in(bytes@) == Some(reference_views(list@) + rest),
                None => references_in(bytes@) is None,
            },
        decreases bytes@.len() - p,
    {
        match next_reference(bytes, p) {
            Item::End => {
                assert(reference_views(list@) + Seq::<ReferenceView>::empty() =~= reference_views(
                    list@,
                ));
                return Some(list);
            },
            Item::CutOff => {
                return None;
            },
            Item::Record(reference, q) => {
                let ghost shorter = reference_views(list@);
                let ghost last = reference@;
                list.push(reference);
                assert(reference_views(list@) =~= shorter + seq![last]);
                proof {
                    if let Some(rest) = references_from(bytes@, q as int) {
                        assert(shorter + (seq![last] + rest) =~= reference_views(list@) + rest);
                    }
                }
                p = q;
            },
        }
    }
}

/// The text that `flate2::read::GzDecoder` makes of a gzip stream; `None` where
/// the bytes do not start with a complete gzip member, or where what it holds is
/// not UTF-8.
pub uninterp spec fn gunzipped(data: Seq<u8>) -> Option<Seq<char>>;

/// Calls `flate2::read::GzDecoder::new` on the bytes and reads the decoder to
/// its end as text. Claims that the outcome depends on the bytes alone.
#[verifier::external_body]
fn gunzip(data: &[u8]) -> (r: Option<String>)
    ensures
        match r {
            Some(text) => gunzipped(data@) == Some(text@),
            None => gunzipped(data@) is None,
        },
{
    match std::io::read_to_string(flate2::read::GzDecoder::new(data)) {
        Ok(text) => Some(text),
        Err(_) => None,
    }
}

/// Why compressed references could not be read.
#[derive(Debug, Clone, Copy, PartialEq, Eq, Structural)]
pub enum ReferenceError {
    /// The bytes are no gzip stream of UTF-8 text.
    Compression,
    /// The text ends inside a value.
    CutOff,
}

/// Decompresses a gzip stream of text.
pub fn decompress(data: &[u8]) -> (r: Result<String, ReferenceError>)
    ensures
        match r {
            Ok(text) => gunzipped(data@) == Some(text@),
            Err(e) => gunzipped(data@) is None && e == ReferenceError::Compression,
        },
{
    match gunzip(data) {
        Some(text) => Ok(text),
        None => Err(ReferenceError::Compression),
    }
}

/// Reads all references of a gzip stream.
pub fn read_references(data: &[u8]) -> (r: Result<Vec<Reference>, ReferenceError>)
    ensures
        match r {
            Ok(list) => gunzipped(data@) is Some && references_in(
                vstd::utf8::encode_utf8(gunzipped(data@).unwrap()),
            ) == Some(reference_views(list@)) && forall|i: int|
                0 <= i < list@.len() ==> (#[trigger] list@[i]).vector@.len() == DIMS,
            Err(ReferenceError::Compression) => gunzipped(data@) is None,
            Err(ReferenceError::CutOff) => gunzipped(data@) is Some && references_in(
                vstd::utf8::encode_utf8(gunzipped(data@).unwrap()),
            ) is None,
        },
{
    match decompress(data) {
        Err(e) => Err(e),
        Ok(text) => match parse_json(text.as_str()) {
            Some(list) => Ok(list),
            None => Err(ReferenceError::CutOff),
        },
    }
}

} // verus!
