//! Risk levels of merchant category codes.
//!
//! A level is a risk between zero and one in steps of 1/255. The risks come
//! from a document like {"5411":0.15,"5812":0.30}.

use crate::json_parser::{after_key, key_at, lemma_key, parse_key};
use crate::json_values::{integer_at, parse_u16};
use crate::number::{lemma_number_at, number_at, parse_number, Number, NumberView};
use crate::scan::{after_byte, after_ws, lemma_run_end, skip_byte, skip_ws, ByteClass, CLOSE_BRACE,
    COMMA, OPEN_BRACE};
use vstd::prelude::*;
use vstd::slice::slice_subrange;

verus! {

/// Number of merchant category codes that have a level of their own.
pub const MCC_COUNT: usize = 10_000;

/// The level of a code that no document mentions.
pub const DEFAULT_LEVEL: u8 = 128;

/// The risk level of each merchant category code.
pub struct MccRiskTable {
    pub levels: Vec<u8>,
}

/// The level of a code after `entries` have been entered in turn.
pub open spec fn level_after(entries: Seq<(u16, u8)>, mcc: int) -> u8
    decreases entries.len(),
{
    if entries.len() == 0 {
        DEFAULT_LEVEL
    } else if entries.last().0 == mcc {
        entries.last().1
    } else {
        level_after(entries.drop_last(), mcc)
    }
}

impl MccRiskTable {
    /// Whether every code has a level.
    pub open spec fn wf(&self) -> bool {
        self.levels@.len() == MCC_COUNT
    }
}

/// The codes and risks of a document from `p` on. There are none where the text
/// ends inside a value.
pub open spec fn risks_from(d: Seq<u8>, p: int) -> Option<Seq<(u16, NumberView)>>
    decreases d.len() - p,
{
    let s = after_ws(d, p);
    if !(0 <= p <= d.len()) || s >= d.len() || d[s] == CLOSE_BRACE {
        Some(Seq::empty())
    } else {
        match number_at(d, after_key(d, s)) {
            None => None,
            Some((risk, q)) => {
                let entry = ((integer_at(key_at(d, s), 0) % 0x1_0000) as u16, risk);
                let e = after_ws(d, q);
                if e < d.len() && d[e] == COMMA {
                    proof {
                        lemma_run_end(d, p, ByteClass::Whitespace);
                        lemma_key(d, s);
                        lemma_number_at(d, after_key(d, s));
                        lemma_run_end(d, q, ByteClass::Whitespace);
                    }
                    match risks_from(d, e + 1) {
                        None => None,
                        Some(rest) => Some(seq![entry] + rest),
                    }
                } else {
                    Some(seq![entry])
                }
            },
        }
    }
}

/// The codes and risks of a document, in order.
pub open spec fn risks_in(d: Seq<u8>) -> Option<Seq<(u16, NumberView)>> {
    let s = after_ws(d, 0);
    if s < d.len() {
        risks_from(d, after_byte(d, s, OPEN_BRACE))
    } else {
        None
    }
}

/// The codes and risks that a list holds.
pub open spec fn risk_views(list: Seq<(u16, Number)>) -> Seq<(u16, NumberView)> {
    list.map_values(|e: (u16, Number)| (e.0, e.1@))
}

/// Parse a risk document. Returns `None` where the text ends before the
/// document starts, or inside a value.
pub fn parse_mcc_risks(json_data: &[u8]) -> (r: Option<Vec<(u16, Number)>>)
    ensures
        match r {
            Some(list) => risks_in(json_data@) == Some(risk_views(list@)),
            None => risks_in(json_data@) is None,
        },
{
    let first: usize = skip_ws(json_data, 0);
    if first >= json_data.len() {
        return None;
    }
    let mut list: Vec<(u16, Number)> = Vec::new();
    let mut p: usize = skip_byte(json_data, first, OPEN_BRACE);
    proof {
        if let Some(rest) = risks_from(json_data@, p as int) {
            assert(risk_views(list@) + rest =~= rest);
        }
    }
    loop
        invariant
            p <= json_data@.len(),
            match risks_from(json_data@, p as int) {
                Some(rest) => risks_in(json_data@) == Some(risk_views(list@) + rest),
                None => risks_in(json_data@) is None,
            },
        decreases json_data@.len() - p,
    {
        let s: usize = skip_ws(json_data, p);
        if s >= json_data.len() || json_data[s] == CLOSE_BRACE {
            assert(risk_views(list@) + Seq::<(u16, NumberView)>::empty() =~= risk_views(list@));
            return Some(list);
        }
        let (key_from, key_to, after) = parse_key(json_data, s);
        let (mcc, _end) = parse_u16(slice_subrange(json_data, key_from, key_to), 0);
        let found = parse_number(json_data, after);
        if found.is_none() {
            return None;
        }
        let (risk, q) = found.unwrap();
        let ghost shorter = risk_views(list@);
        let ghost entry = (mcc, risk@);
        list.push((mcc, risk));
        assert(risk_views(list@) =~= shorter + seq![entry]);
        let e: usize = skip_ws(json_data, q);
        if e < json_data.len() && json_data[e] == COMMA {
            p = e + 1;
            proof {
                if let Some(rest) = risks_from(json_data@, p as int) {
                    assert(shorter + (seq![entry] + rest) =~= risk_views(list@) + rest);
                }
            }
        } else {
            return Some(list);
        }
    }
}

/// Build the table of levels. A code that occurs more than once has the level
/// of its last entry; one that has no level of its own is ignored.
pub fn init_mcc_risk_table(entries: &[(u16, u8)]) -> (r: MccRiskTable)
    ensures
        r.wf(),
        forall|mcc: int| 0 <= mcc < MCC_COUNT ==> #[trigger] r.levels@[mcc] == level_after(
            entries@,
            mcc,
        ),
{
    let mut levels: Vec<u8> = vec![DEFAULT_LEVEL; MCC_COUNT];
    let mut i: usize = 0;
    assert(entries@.take(0) =~= Seq::<(u16, u8)>::empty());
    while i < entries.len()
        invariant
            i <= entries@.len(),
            levels@.len() == MCC_COUNT,
            forall|mcc: int| 0 <= mcc < MCC_COUNT ==> #[trigger] levels@[mcc] == level_after(
                entries@.take(i as int),
                mcc,
            ),
        decreases entries@.len() - i,
    {
        let mcc: usize = entries[i].0 as usize;
        assert(entries@.take(i + 1).drop_last() =~= entries@.take(i as int));
        if mcc < MCC_COUNT {
            levels[mcc] = entries[i].1;
        }
        i = i + 1;
    }
    assert(entries@.take(entries@.len() as int) =~= entries@);
    MccRiskTable { levels }
}

/// The risk level of a merchant category code; `None` stands for a risk of one
/// half, for a code without a level of its own.
pub fn get_mcc_risk(table: &MccRiskTable, mcc: u16) -> (r: Option<u8>)
    requires
        table.wf(),
    ensures
        r == if mcc < MCC_COUNT {
            Some(table.levels@[mcc as int])
        } else {
            None
        },
{
    if (mcc as usize) < MCC_COUNT {
        Some(table.levels[mcc as usize])
    } else {
        None
    }
}

} // verus!
