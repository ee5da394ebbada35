//! What lists of risks and of references say.

use crate::document_laws::{lemma_name_read, name_tokens};
use crate::json_values::{integer_at, string_at};
use crate::mcc_risk::{level_after, risks_from, risks_in};
use crate::number::{mantissa_end, plain_number_at, NumberView};
use crate::references::{blank_reference, components, fields, item_at, list_start, name_at, name_end,
    past, references_from, references_in, value, value_start, Item, ReferenceView};
use crate::scan::{after_byte, after_ws, decimal, lemma_run_end, run_end, stands_at, ByteClass,
    CLOSE_BRACE, CLOSE_BRACKET, COMMA, OPEN_BRACE, OPEN_BRACKET, QUOTE};
use crate::spelling::{is_number, is_text, lemma_mantissa_shift, lemma_number_read,
    lemma_spelled_first, lemma_spelled_one, lemma_spelled_split, lemma_token_byte, lemma_value_ends,
    number_of, spelled, spelled_end};
use crate::text_laws::{is_proper, law_plain_numeral_is_read, meant, written, Numeral};
use vstd::prelude::*;
use vstd::string::*;

verus! {

/// A code without an entry has the level 128; one with entries has that of the
/// last one, whatever is entered for other codes.
pub proof fn law_levels(entries: Seq<(u16, u8)>, code: u16, level: u8, other: int)
    ensures
        level_after(Seq::empty(), other) == 128,
        level_after(entries.push((code, level)), code as int) == level,
        other != code ==> level_after(entries.push((code, level)), other) == level_after(
            entries,
            other,
        ),
{
    assert(entries.push((code, level)).drop_last() =~= entries);
}

/// The tokens of risks behind their opening brace: a code in quotes and a
/// numeral for each.
pub open spec fn risk_tokens(list: Seq<(Seq<u8>, Seq<u8>)>) -> Seq<Seq<u8>>
    decreases list.len(),
{
    if list.len() == 0 {
        seq![seq![CLOSE_BRACE]]
    } else if list.len() == 1 {
        name_tokens(list[0].0) + (seq![list[0].1] + seq![seq![CLOSE_BRACE]])
    } else {
        name_tokens(list[0].0) + (seq![list[0].1] + (seq![seq![COMMA]] + risk_tokens(list.skip(1))))
    }
}

/// Whether each of the risks is a text in quotes and a numeral.
pub open spec fn are_risks(list: Seq<(Seq<u8>, Seq<u8>)>) -> bool {
    forall|i: int|
        0 <= i < list.len() ==> is_text((#[trigger] list[i]).0) && is_number(list[i].1)
}

/// The code and the risk of each.
pub open spec fn risk_entries(list: Seq<(Seq<u8>, Seq<u8>)>) -> Seq<(u16, NumberView)> {
    Seq::new(
        list.len(),
        |i: int|
            (
                (integer_at(string_at(list[i].0, 0), 0) % 65_536) as u16,
                number_of(list[i].1),
            ),
    )
}

proof fn lemma_risks_read(d: Seq<u8>, p: int, list: Seq<(Seq<u8>, Seq<u8>)>)
    requires
        spelled(d, p, risk_tokens(list)),
        are_risks(list),
    ensures
        risks_from(d, p) == Some(risk_entries(list)),
    decreases list.len(),
{
    let s = after_ws(d, p);
    let close = seq![CLOSE_BRACE];
    lemma_run_end(d, p, ByteClass::Whitespace);
    if list.len() == 0 {
        lemma_spelled_one(d, p, close);
        lemma_token_byte(d, s, close, 0);
        assert(risk_entries(list) =~= Seq::<(u16, NumberView)>::empty());
    } else {
        let (name, t) = list[0];
        assert(is_text(list[0].0) && is_number(list[0].1));
        let rest = if list.len() == 1 {
            seq![close]
        } else {
            seq![seq![COMMA]] + risk_tokens(list.skip(1))
        };
        lemma_spelled_split(d, p, name_tokens(name), seq![t] + rest);
        lemma_name_read(d, p, name);
        let v = spelled_end(d, p, name_tokens(name));
        lemma_spelled_first(d, v, t, rest);
        let e = after_ws(d, v) + t.len();
        let q = after_ws(d, e);
        lemma_run_end(d, e, ByteClass::Whitespace);
        let entry = ((integer_at(string_at(name, 0), 0) % 65_536) as u16, number_of(t));
        if list.len() == 1 {
            assert(rest =~= seq![close] + Seq::<Seq<u8>>::empty());
            lemma_value_ends(d, e, CLOSE_BRACE, Seq::empty());
            lemma_number_read(d, v, t);
            lemma_spelled_one(d, e, close);
            lemma_token_byte(d, q, close, 0);
            assert(risk_entries(list) =~= seq![entry]);
        } else {
            lemma_value_ends(d, e, COMMA, risk_tokens(list.skip(1)));
            lemma_number_read(d, v, t);
            lemma_spelled_first(d, e, seq![COMMA], risk_tokens(list.skip(1)));
            lemma_token_byte(d, q, seq![COMMA], 0);
            assert forall|i: int| 0 <= i < list.skip(1).len() implies is_text(
                (#[trigger] list.skip(1)[i]).0,
            ) && is_number(list.skip(1)[i].1) by {
                assert(list.skip(1)[i] == list[i + 1]);
            }
            lemma_risks_read(d, q + 1, list.skip(1));
            assert(risk_entries(list) =~= seq![entry] + risk_entries(list.skip(1)));
        }
    }
}

/// A document of risks gives the code and the risk of each entry, in order, with
/// any whitespace between its tokens.
pub proof fn law_risks_are_read(d: Seq<u8>, list: Seq<(Seq<u8>, Seq<u8>)>)
    requires
        spelled(d, 0, seq![seq![OPEN_BRACE]] + risk_tokens(list)),
        are_risks(list),
    ensures
        risks_in(d) == Some(risk_entries(list)),
{
    let open = seq![OPEN_BRACE];
    lemma_spelled_first(d, 0, open, risk_tokens(list));
    lemma_token_byte(d, after_ws(d, 0), open, 0);
    lemma_risks_read(d, after_ws(d, 0) + 1, list);
}

/// Whether a token is a numeral without an exponent.
pub open spec fn is_plain(t: Seq<u8>) -> bool {
    &&& t.len() > 0
    &&& mantissa_end(t, 0) == t.len()
    &&& run_end(t, 0, ByteClass::Blank) == 0
}

/// A component as it stands in a list: a numeral, with blanks before and behind
/// it.
pub struct Entry {
    pub before: Seq<u8>,
    pub numeral: Seq<u8>,
    pub behind: Seq<u8>,
}

/// Whether an entry is a numeral with blanks around it.
pub open spec fn is_entry(e: Entry) -> bool {
    is_plain(e.numeral) && all_of(e.before, ByteClass::Blank) && all_of(
        e.behind,
        ByteClass::Blank,
    )
}

/// The text of an entry.
pub open spec fn entry_text(e: Entry) -> Seq<u8> {
    e.before + (e.numeral + e.behind)
}

/// Entries with commas between them.
pub open spec fn numbers_text(ts: Seq<Entry>) -> Seq<u8>
    decreases ts.len(),
{
    if ts.len() == 0 {
        seq![]
    } else if ts.len() == 1 {
        entry_text(ts[0])
    } else {
        entry_text(ts[0]) + (seq![COMMA] + numbers_text(ts.skip(1)))
    }
}

/// Words that stand one behind the other stand together.
pub proof fn lemma_stands_split(d: Seq<u8>, p: int, a: Seq<u8>, b: Seq<u8>)
    ensures
        stands_at(d, p, a + b) <==> stands_at(d, p, a) && stands_at(d, p + a.len(), b),
{
    let n = a.len() as int;
    let m = n + b.len();
    if 0 <= p && p + m <= d.len() {
        let w = d.subrange(p, p + m);
        assert(w.subrange(0, n) =~= d.subrange(p, p + n));
        assert(w.subrange(n, m) =~= d.subrange(p + n, p + m));
        assert((a + b).subrange(0, n) =~= a);
        assert((a + b).subrange(n, m) =~= b);
        if stands_at(d, p, a) && stands_at(d, p + n, b) {
            assert(w =~= w.subrange(0, n) + w.subrange(n, m));
        }
    }
}

/// An entry that a comma or a bracket follows is read as its numeral.
proof fn lemma_entry_read(d: Seq<u8>, p: int, e: Entry)
    requires
        stands_at(d, p, entry_text(e)),
        is_entry(e),
        p + entry_text(e).len() < d.len(),
        d[p + entry_text(e).len()] == COMMA || d[p + entry_text(e).len()] == CLOSE_BRACKET,
    ensures
        ({
            let s = run_end(d, p, ByteClass::Blank);
            &&& s < d.len()
            &&& plain_number_at(d, s) == plain_number_at(e.numeral, 0)
            &&& run_end(d, mantissa_end(d, s), ByteClass::Blank) == p + entry_text(e).len()
        }),
{
    let t = e.numeral;
    let s = p + e.before.len();
    let m = s + t.len();
    let end = p + entry_text(e).len();
    lemma_stands_split(d, p, e.before, t + e.behind);
    lemma_stands_split(d, s, t, e.behind);
    lemma_token_byte(d, s, t, 0);
    assert(!ByteClass::Blank.has(t[0]));
    lemma_class_run(d, p, e.before, ByteClass::Blank);
    if e.behind.len() > 0 {
        lemma_token_byte(d, m, e.behind, 0);
        assert(ByteClass::Blank.has(e.behind[0]));
    }
    lemma_mantissa_shift(d, s, t);
    lemma_class_run(d, m, e.behind, ByteClass::Blank);
}

proof fn lemma_components_read(
    d: Seq<u8>,
    p: int,
    i: int,
    ts: Seq<Entry>,
    vector: Seq<NumberView>,
)
    requires
        0 <= i,
        i + ts.len() == 14,
        vector.len() == 14,
        stands_at(d, p, numbers_text(ts) + seq![CLOSE_BRACKET]),
        forall|k: int| 0 <= k < ts.len() ==> is_entry(#[trigger] ts[k]),
    ensures
        ({
            let end = p + numbers_text(ts).len();
            match components(d, p, i, vector) {
                Some((v, q)) => {
                    &&& q == end
                    &&& v.len() == 14
                    &&& forall|k: int| 0 <= k < i ==> #[trigger] v[k] == vector[k]
                    &&& forall|k: int|
                        i <= k < 14 ==> #[trigger] v[k] == plain_number_at(ts[k - i].numeral, 0)
                },
                None => false,
            }
        }),
    decreases ts.len(),
{
    if ts.len() > 0 {
        let t = ts[0];
        let text = entry_text(t);
        let close = seq![CLOSE_BRACKET];
        let e = p + text.len();
        let next = vector.update(i, plain_number_at(t.numeral, 0));
        assert(is_entry(t));
        if ts.len() == 1 {
            lemma_stands_split(d, p, text, close);
            lemma_token_byte(d, e, close, 0);
            lemma_entry_read(d, p, t);
            assert(components(d, p, i, vector) == components(d, e, i + 1, next));
            assert(components(d, e, 14, next) == Some((next, e)));
        } else {
            let rest = numbers_text(ts.skip(1)) + close;
            assert(numbers_text(ts) + close =~= text + (seq![COMMA] + rest));
            lemma_stands_split(d, p, text, seq![COMMA] + rest);
            lemma_stands_split(d, e, seq![COMMA], rest);
            lemma_token_byte(d, e, seq![COMMA], 0);
            lemma_entry_read(d, p, t);
            assert forall|k: int| 0 <= k < ts.skip(1).len() implies is_entry(
                #[trigger] ts.skip(1)[k],
            ) by {
                assert(ts.skip(1)[k] == ts[k + 1]);
            }
            lemma_components_read(d, e + 1, i + 1, ts.skip(1), next);
            assert(components(d, p, i, vector) == components(d, e + 1, i + 1, next));
            let v = components(d, p, i, vector).unwrap().0;
            assert forall|k: int| i <= k < 14 implies #[trigger] v[k] == plain_number_at(
                ts[k - i].numeral,
                0,
            ) by {
                if k == i {
                    assert(v[k] == next[k]);
                } else {
                    assert(v[k] == plain_number_at(ts.skip(1)[k - i - 1].numeral, 0));
                }
            }
            assert forall|k: int| 0 <= k < i implies #[trigger] v[k] == vector[k] by {
                assert(v[k] == next[k]);
            }
        }
    }
}

/// What a member of a reference gives: its components, or its label.
pub enum Content {
    Vector(Seq<Entry>),
    Label(Seq<u8>),
}

/// A member of a reference: what stands between its name and its value, what it
/// gives, and what stands behind it.
pub struct Field {
    pub gap: Seq<u8>,
    pub content: Content,
    pub behind: Seq<u8>,
}

/// Whether a sequence consists of bytes of a class.
pub open spec fn all_of(s: Seq<u8>, class: ByteClass) -> bool {
    forall|i: int| 0 <= i < s.len() ==> class.has(#[trigger] s[i])
}

/// Whether a member has fourteen components or a label without quotes, a colon
/// with spaces in front of its value, and separators behind it.
pub open spec fn is_field(f: Field) -> bool {
    &&& all_of(f.gap, ByteClass::KeyGap)
    &&& all_of(f.behind, ByteClass::Separator)
    &&& match f.content {
        Content::Vector(ts) => ts.len() == 14 && forall|k: int|
            0 <= k < ts.len() ==> is_entry(#[trigger] ts[k]),
        Content::Label(label) => forall|k: int|
            0 <= k < label.len() ==> #[trigger] label[k] != QUOTE,
    }
}

/// The name of a member, in quotes.
pub open spec fn name_text(c: Content) -> Seq<u8> {
    match c {
        Content::Vector(_) => "\"vector\"".spec_bytes(),
        Content::Label(_) => "\"label\"".spec_bytes(),
    }
}

/// The value of a member.
pub open spec fn content_text(c: Content) -> Seq<u8> {
    match c {
        Content::Vector(ts) => seq![OPEN_BRACKET] + (numbers_text(ts) + seq![CLOSE_BRACKET]),
        Content::Label(label) => seq![QUOTE] + (label + seq![QUOTE]),
    }
}

/// The text of a member.
pub open spec fn field_text(f: Field) -> Seq<u8> {
    name_text(f.content) + (f.gap + (content_text(f.content) + f.behind))
}

/// The texts of members, with a brace behind them.
pub open spec fn fields_text(fs: Seq<Field>) -> Seq<u8>
    decreases fs.len(),
{
    if fs.len() == 0 {
        seq![CLOSE_BRACE]
    } else {
        field_text(fs[0]) + fields_text(fs.skip(1))
    }
}

/// The reference after what a member gives.
pub open spec fn given(c: Content, r: ReferenceView) -> ReferenceView {
    match c {
        Content::Vector(ts) => ReferenceView {
            vector: Seq::new(14, |k: int| plain_number_at(ts[k].numeral, 0)),
            ..r
        },
        Content::Label(label) => ReferenceView { fraud: label == "fraud".spec_bytes(), ..r },
    }
}

/// The reference after what members give, one after the other.
pub open spec fn told(fs: Seq<Field>, r: ReferenceView) -> ReferenceView
    decreases fs.len(),
{
    if fs.len() == 0 {
        r
    } else {
        told(fs.skip(1), given(fs[0].content, r))
    }
}

/// Whether all of some members are members.
pub open spec fn are_fields(fs: Seq<Field>) -> bool {
    forall|k: int| 0 <= k < fs.len() ==> is_field(#[trigger] fs[k])
}

/// A run of bytes of a class ends where they do.
pub proof fn lemma_class_run(d: Seq<u8>, p: int, s: Seq<u8>, class: ByteClass)
    requires
        stands_at(d, p, s),
        all_of(s, class),
        p + s.len() < d.len() ==> !class.has(d[p + s.len()]),
    ensures
        run_end(d, p, class) == p + s.len(),
    decreases s.len(),
{
    if s.len() > 0 {
        assert(s =~= seq![s[0]] + s.skip(1));
        lemma_stands_split(d, p, seq![s[0]], s.skip(1));
        lemma_token_byte(d, p, s, 0);
        assert(class.has(s[0]));
        assert forall|i: int| 0 <= i < s.skip(1).len() implies class.has(
            #[trigger] s.skip(1)[i],
        ) by {
            assert(s.skip(1)[i] == s[i + 1]);
        }
        lemma_class_run(d, p + 1, s.skip(1), class);
    }
}

proof fn lemma_no_quote_run(d: Seq<u8>, p: int, e: int)
    requires
        0 <= p <= e < d.len(),
        d[e] == QUOTE,
        forall|i: int| p <= i < e ==> #[trigger] d[i] != QUOTE,
    ensures
        run_end(d, p, ByteClass::Not(QUOTE)) == e,
    decreases e - p,
{
    if p < e {
        assert(d[p] != QUOTE);
        lemma_no_quote_run(d, p + 1, e);
    }
}

/// A name in quotes is read where it stands.
pub proof fn lemma_quoted_name(d: Seq<u8>, s: int, word: Seq<u8>)
    requires
        stands_at(d, s, seq![QUOTE] + (word + seq![QUOTE])),
        forall|i: int| 0 <= i < word.len() ==> #[trigger] word[i] != QUOTE,
    ensures
        d[s] == QUOTE,
        name_end(d, s) == s + 1 + word.len(),
        name_at(d, s) == word,
        after_byte(d, name_end(d, s), QUOTE) == s + word.len() + 2,
{
    let quote = seq![QUOTE];
    lemma_stands_split(d, s, quote, word + quote);
    lemma_stands_split(d, s + 1, word, quote);
    lemma_token_byte(d, s, quote, 0);
    let e = s + 1 + word.len();
    lemma_token_byte(d, e, quote, 0);
    assert forall|i: int| s + 1 <= i < e implies #[trigger] d[i] != QUOTE by {
        lemma_token_byte(d, s + 1, word, i - s - 1);
    }
    lemma_no_quote_run(d, s + 1, e);
}

/// The names of members in quotes.
proof fn lemma_names()
    ensures
        "\"vector\"".spec_bytes() == seq![QUOTE] + ("vector".spec_bytes() + seq![QUOTE]),
        "\"label\"".spec_bytes() == seq![QUOTE] + ("label".spec_bytes() + seq![QUOTE]),
        "vector".spec_bytes() != "label".spec_bytes(),
        forall|i: int|
            0 <= i < "vector".spec_bytes().len() ==> #[trigger] "vector".spec_bytes()[i] != QUOTE,
        forall|i: int|
            0 <= i < "label".spec_bytes().len() ==> #[trigger] "label".spec_bytes()[i] != QUOTE,
{
    reveal_strlit("\"vector\"");
    reveal_strlit("\"label\"");
    reveal_strlit("vector");
    reveal_strlit("label");
    assert(is_ascii("\"vector\""));
    assert(is_ascii("\"label\""));
    assert(is_ascii("vector"));
    assert(is_ascii("label"));
    assert("\"vector\"".spec_bytes() =~= seq![QUOTE] + ("vector".spec_bytes() + seq![QUOTE]));
    assert("\"label\"".spec_bytes() =~= seq![QUOTE] + ("label".spec_bytes() + seq![QUOTE]));
}

/// The word of a member's name.
spec fn word_of(c: Content) -> Seq<u8> {
    match c {
        Content::Vector(_) => "vector".spec_bytes(),
        Content::Label(_) => "label".spec_bytes(),
    }
}

/// The components are read where they stand.
proof fn lemma_vector_read(d: Seq<u8>, v: int, ts: Seq<Entry>, r: ReferenceView)
    requires
        stands_at(d, v, content_text(Content::Vector(ts))),
        ts.len() == 14,
        forall|k: int| 0 <= k < ts.len() ==> is_entry(#[trigger] ts[k]),
        r.vector.len() == 14,
    ensures
        value("vector".spec_bytes(), d, v, r) == Some(
            (given(Content::Vector(ts), r), v + content_text(Content::Vector(ts)).len()),
        ),
{
    let open = seq![OPEN_BRACKET];
    let bracket = seq![CLOSE_BRACKET];
    let n = numbers_text(ts);
    lemma_stands_split(d, v, open, n + bracket);
    lemma_token_byte(d, v, open, 0);
    lemma_stands_split(d, v + 1, n, bracket);
    let q = v + 1 + n.len();
    lemma_token_byte(d, q, bracket, 0);
    lemma_components_read(d, v + 1, 0, ts, r.vector);
    assert(past(d, v, OPEN_BRACKET) == v + 1);
    assert(past(d, q, CLOSE_BRACKET) == q + 1);
    let vector = components(d, v + 1, 0, r.vector).unwrap().0;
    assert(vector =~= given(Content::Vector(ts), r).vector);
}

/// A label is read where it stands.
proof fn lemma_label_read(d: Seq<u8>, v: int, label: Seq<u8>, r: ReferenceView)
    requires
        stands_at(d, v, content_text(Content::Label(label))),
        forall|k: int| 0 <= k < label.len() ==> #[trigger] label[k] != QUOTE,
    ensures
        value("label".spec_bytes(), d, v, r) == Some(
            (given(Content::Label(label), r), v + content_text(Content::Label(label)).len()),
        ),
{
    lemma_names();
    lemma_quoted_name(d, v, label);
}

/// A member is read where it stands.
proof fn lemma_field_read(d: Seq<u8>, s: int, f: Field, r: ReferenceView)
    requires
        stands_at(d, s, field_text(f)),
        is_field(f),
        r.vector.len() == 14,
        s + field_text(f).len() < d.len(),
        !ByteClass::Separator.has(d[s + field_text(f).len()]),
    ensures
        d[s] == QUOTE,
        match value(name_at(d, s), d, value_start(d, s), r) {
            Some((next, q)) => next == given(f.content, r) && run_end(d, q, ByteClass::Separator)
                == s + field_text(f).len(),
            None => false,
        },
{
    let name = name_text(f.content);
    let text = content_text(f.content);
    lemma_names();
    lemma_stands_split(d, s, name, f.gap + (text + f.behind));
    let g = s + name.len();
    lemma_stands_split(d, g, f.gap, text + f.behind);
    let v = g + f.gap.len();
    lemma_stands_split(d, v, text, f.behind);
    let e = v + text.len();
    lemma_quoted_name(d, s, word_of(f.content));
    lemma_token_byte(d, v, text, 0);
    lemma_class_run(d, g, f.gap, ByteClass::KeyGap);
    lemma_class_run(d, e, f.behind, ByteClass::Separator);
    match f.content {
        Content::Vector(ts) => {
            assert(text[0] == OPEN_BRACKET);
            lemma_vector_read(d, v, ts, r);
        },
        Content::Label(label) => {
            assert(text[0] == QUOTE);
            lemma_label_read(d, v, label, r);
        },
    }
}

/// What follows a member starts with a quote or a brace.
proof fn lemma_fields_start(d: Seq<u8>, p: int, fs: Seq<Field>)
    requires
        stands_at(d, p, fields_text(fs)),
    ensures
        p < d.len(),
        fs.len() == 0 ==> d[p] == CLOSE_BRACE,
        fs.len() > 0 ==> d[p] == QUOTE,
{
    lemma_names();
    if fs.len() == 0 {
        lemma_token_byte(d, p, seq![CLOSE_BRACE], 0);
    } else {
        lemma_stands_split(d, p, field_text(fs[0]), fields_text(fs.skip(1)));
        let f = fs[0];
        lemma_stands_split(
            d,
            p,
            name_text(f.content),
            f.gap + (content_text(f.content) + f.behind),
        );
        lemma_token_byte(d, p, name_text(f.content), 0);
    }
}

proof fn lemma_fields_read(d: Seq<u8>, p: int, white: Seq<u8>, fs: Seq<Field>, r: ReferenceView)
    requires
        stands_at(d, p, white + fields_text(fs)),
        all_of(white, ByteClass::Whitespace),
        are_fields(fs),
        r.vector.len() == 14,
    ensures
        fields(d, p, r) == Some(
            (told(fs, r), p + white.len() + fields_text(fs).len() - 1),
        ),
        d[p + white.len() + fields_text(fs).len() - 1] == CLOSE_BRACE,
    decreases fs.len(),
{
    lemma_stands_split(d, p, white, fields_text(fs));
    let s = p + white.len();
    lemma_fields_start(d, s, fs);
    lemma_class_run(d, p, white, ByteClass::Whitespace);
    if fs.len() > 0 {
        let f = fs[0];
        assert(is_field(f));
        lemma_stands_split(d, s, field_text(f), fields_text(fs.skip(1)));
        let e = s + field_text(f).len();
        lemma_fields_start(d, e, fs.skip(1));
        lemma_field_read(d, s, f, r);
        assert forall|k: int| 0 <= k < fs.skip(1).len() implies is_field(
            #[trigger] fs.skip(1)[k],
        ) by {
            assert(fs.skip(1)[k] == fs[k + 1]);
        }
        let none = Seq::<u8>::empty();
        assert(none + fields_text(fs.skip(1)) =~= fields_text(fs.skip(1)));
        lemma_fields_read(d, e, none, fs.skip(1), given(f.content, r));
    }
}

/// A reference as it stands in a list: separators in front of its brace,
/// whitespace behind it, and its members.
pub struct Record {
    pub before: Seq<u8>,
    pub white: Seq<u8>,
    pub fields: Seq<Field>,
}

/// Whether a reference has members, and nothing but separators and whitespace
/// around its brace.
pub open spec fn is_record(x: Record) -> bool {
    &&& all_of(x.before, ByteClass::Separator)
    &&& all_of(x.white, ByteClass::Whitespace)
    &&& are_fields(x.fields)
}

/// The text of a reference.
pub open spec fn record_text(x: Record) -> Seq<u8> {
    x.before + (seq![OPEN_BRACE] + (x.white + fields_text(x.fields)))
}

/// A reference is read where it stands, as what its members give.
pub proof fn law_reference_is_read(d: Seq<u8>, p: int, x: Record)
    requires
        stands_at(d, p, record_text(x)),
        is_record(x),
    ensures
        item_at(d, p) == Item::<ReferenceView, int>::Record(
            told(x.fields, blank_reference()),
            p + record_text(x).len(),
        ),
{
    let open = seq![OPEN_BRACE];
    let rest = x.white + fields_text(x.fields);
    lemma_stands_split(d, p, x.before, open + rest);
    let s = p + x.before.len();
    lemma_stands_split(d, s, open, rest);
    lemma_token_byte(d, s, open, 0);
    lemma_class_run(d, p, x.before, ByteClass::Separator);
    lemma_stands_split(d, s + 1, x.white, fields_text(x.fields));
    lemma_fields_start(d, s + 1 + x.white.len(), x.fields);
    lemma_fields_read(d, s + 1, x.white, x.fields, blank_reference());
}

/// A reference with components and a label, in either order, has these
/// components, and is a fraud exactly where the label is "fraud".
pub proof fn law_reference_says(a: Field, b: Field, ts: Seq<Entry>, label: Seq<u8>)
    requires
        a.content == Content::Vector(ts),
        b.content == Content::Label(label),
    ensures
        ({
            let r = told(seq![a, b], blank_reference());
            &&& r == told(seq![b, a], blank_reference())
            &&& r.vector.len() == 14
            &&& forall|k: int|
                0 <= k < 14 ==> #[trigger] r.vector[k] == plain_number_at(ts[k].numeral, 0)
            &&& r.fraud <==> label == "fraud".spec_bytes()
        }),
        told(seq![a], blank_reference()).fraud == false,
{
    reveal_with_fuel(told, 3);
    assert(seq![a, b].skip(1) =~= seq![b]);
    assert(seq![b, a].skip(1) =~= seq![a]);
    assert(seq![a].skip(1) =~= Seq::<Field>::empty());
    assert(seq![b].skip(1) =~= Seq::<Field>::empty());
}

/// The texts of references, with separators and a bracket behind them.
pub open spec fn records_text(list: Seq<Record>, behind: Seq<u8>) -> Seq<u8>
    decreases list.len(),
{
    if list.len() == 0 {
        behind + seq![CLOSE_BRACKET]
    } else {
        record_text(list[0]) + records_text(list.skip(1), behind)
    }
}

/// What references say, one after the other.
pub open spec fn told_by(list: Seq<Record>) -> Seq<ReferenceView> {
    Seq::new(list.len(), |i: int| told(list[i].fields, blank_reference()))
}

proof fn lemma_records_read(d: Seq<u8>, p: int, list: Seq<Record>, behind: Seq<u8>)
    requires
        stands_at(d, p, records_text(list, behind)),
        forall|i: int| 0 <= i < list.len() ==> is_record(#[trigger] list[i]),
        all_of(behind, ByteClass::Separator),
    ensures
        references_from(d, p) == Some(told_by(list)),
    decreases list.len(),
{
    let bracket = seq![CLOSE_BRACKET];
    if list.len() == 0 {
        lemma_stands_split(d, p, behind, bracket);
        lemma_token_byte(d, p + behind.len(), bracket, 0);
        lemma_class_run(d, p, behind, ByteClass::Separator);
        assert(told_by(list) =~= Seq::<ReferenceView>::empty());
    } else {
        let x = list[0];
        let rest = list.skip(1);
        assert(is_record(x));
        lemma_stands_split(d, p, record_text(x), records_text(rest, behind));
        law_reference_is_read(d, p, x);
        assert forall|i: int| 0 <= i < rest.len() implies is_record(#[trigger] rest[i]) by {
            assert(rest[i] == list[i + 1]);
        }
        lemma_records_read(d, p + record_text(x).len(), rest, behind);
        assert(told_by(list) =~= seq![told(x.fields, blank_reference())] + told_by(rest));
    }
}

/// A text of references is read as one reference for each, in order, with any
/// separators and whitespace between them.
pub proof fn law_references_are_read(d: Seq<u8>, list: Seq<Record>, behind: Seq<u8>)
    requires
        stands_at(d, 0, seq![OPEN_BRACKET] + records_text(list, behind)),
        forall|i: int| 0 <= i < list.len() ==> is_record(#[trigger] list[i]),
        all_of(behind, ByteClass::Separator),
    ensures
        references_in(d) == Some(told_by(list)),
{
    let open = seq![OPEN_BRACKET];
    lemma_stands_split(d, 0, open, records_text(list, behind));
    lemma_token_byte(d, 0, open, 0);
    assert(list_start(d) == 1);
    lemma_records_read(d, 1, list, behind);
}

/// A numeral without an exponent may be a component, and is read as what it
/// writes.
pub proof fn law_numerals_are_components(n: Numeral)
    requires
        is_proper(n),
        n.exponent is None,
        decimal(n.digits) < 0x8000_0000,
    ensures
        is_plain(written(n)),
        meant(n, plain_number_at(written(n), 0)),
{
    law_plain_numeral_is_read(n, Seq::empty());
    assert(written(n) + Seq::<u8>::empty() =~= written(n));
    assert(48 <= n.digits[0] <= 57);
    assert(written(n)[0] == 45 || written(n)[0] == n.digits[0]);
}

} // verus!
