//! Little-endian integers and text in byte sequences.

use vstd::arithmetic::div_mod::lemma_fundamental_div_mod_converse;
use vstd::prelude::*;
use vstd::string::*;

verus! {

/// The unsigned 16-bit number at `p`.
pub open spec fn u16_at(d: Seq<u8>, p: int) -> int {
    d[p] + 0x100 * d[p + 1]
}

/// The signed 16-bit number at `p`, in two's complement.
pub open spec fn i16_at(d: Seq<u8>, p: int) -> i16 {
    if u16_at(d, p) >= 0x8000 {
        (u16_at(d, p) - 0x1_0000) as i16
    } else {
        u16_at(d, p) as i16
    }
}

/// The unsigned 32-bit number at `p`.
pub open spec fn u32_at(d: Seq<u8>, p: int) -> u32 {
    (d[p] + 0x100 * d[p + 1] + 0x1_0000 * d[p + 2] + 0x100_0000 * d[p + 3]) as u32
}

/// The two low bytes of a nonnegative number.
pub open spec fn u16_bytes(x: int) -> Seq<u8> {
    seq![(x % 0x100) as u8, (x / 0x100 % 0x100) as u8]
}

/// A signed 16-bit number, in two's complement.
pub open spec fn i16_bytes(v: i16) -> Seq<u8> {
    u16_bytes(
        if v < 0 {
            v + 0x1_0000
        } else {
            v as int
        },
    )
}

/// The four low bytes of a nonnegative number.
pub open spec fn u32_bytes(x: int) -> Seq<u8> {
    seq![
        (x % 0x100) as u8,
        (x / 0x100 % 0x100) as u8,
        (x / 0x1_0000 % 0x100) as u8,
        (x / 0x100_0000 % 0x100) as u8,
    ]
}

/// Signed 16-bit numbers, one after the other.
pub open spec fn i16s(values: Seq<i16>) -> Seq<u8> {
    Seq::new(2 * values.len(), |k: int| i16_bytes(values[k / 2])[k % 2])
}

/// Unsigned 32-bit numbers, one after the other.
pub open spec fn u32s(values: Seq<int>) -> Seq<u8> {
    Seq::new(4 * values.len(), |k: int| u32_bytes(values[k / 4])[k % 4])
}

/// The first `n` of some rows, one after the other.
pub open spec fn joined<T>(rows: Seq<Seq<T>>, n: int) -> Seq<T>
    decreases n,
{
    if n <= 0 {
        Seq::empty()
    } else {
        joined(rows, n - 1) + rows[n - 1]
    }
}

/// What is written as a signed 16-bit number is read back as such.
pub proof fn law_i16_read_back(d: Seq<u8>, p: int, v: i16)
    requires
        0 <= p,
        p + 2 <= d.len(),
        d.subrange(p, p + 2) == i16_bytes(v),
    ensures
        i16_at(d, p) == v,
{
    let s = d.subrange(p, p + 2);
    assert(s[0] == d[p] && s[1] == d[p + 1]);
}

/// What is written as an unsigned 16-bit number is read back as such.
pub proof fn law_u16_read_back(d: Seq<u8>, p: int, x: u16)
    requires
        0 <= p,
        p + 2 <= d.len(),
        d.subrange(p, p + 2) == u16_bytes(x as int),
    ensures
        u16_at(d, p) == x,
{
    let s = d.subrange(p, p + 2);
    assert(s[0] == d[p] && s[1] == d[p + 1]);
}

/// The low bytes of a number that is given by them.
proof fn lemma_low_bytes(x: int, r0: int, r1: int, r2: int, r3: int, q: int)
    requires
        0 <= r0 < 0x100,
        0 <= r1 < 0x100,
        0 <= r2 < 0x100,
        0 <= r3 < 0x100,
        x == r0 + 0x100 * r1 + 0x1_0000 * r2 + 0x100_0000 * r3 + 0x1_0000_0000 * q,
    ensures
        x % 0x100 == r0,
        x / 0x100 % 0x100 == r1,
        x / 0x1_0000 % 0x100 == r2,
        x / 0x100_0000 % 0x100 == r3,
        x % 0x1_0000_0000 == r0 + 0x100 * r1 + 0x1_0000 * r2 + 0x100_0000 * r3,
{
    let q1 = r1 + 0x100 * r2 + 0x1_0000 * r3 + 0x100_0000 * q;
    let q2 = r2 + 0x100 * r3 + 0x1_0000 * q;
    let q3 = r3 + 0x100 * q;
    lemma_fundamental_div_mod_converse(x, 0x100, q1, r0);
    lemma_fundamental_div_mod_converse(q1, 0x100, q2, r1);
    lemma_fundamental_div_mod_converse(x, 0x1_0000, q2, r0 + 0x100 * r1);
    lemma_fundamental_div_mod_converse(q2, 0x100, q3, r2);
    lemma_fundamental_div_mod_converse(x, 0x100_0000, q3, r0 + 0x100 * r1 + 0x1_0000 * r2);
    lemma_fundamental_div_mod_converse(q3, 0x100, q, r3);
    lemma_fundamental_div_mod_converse(
        x,
        0x1_0000_0000,
        q,
        r0 + 0x100 * r1 + 0x1_0000 * r2 + 0x100_0000 * r3,
    );
}

/// Every nonnegative number is given by its low bytes and a rest.
proof fn lemma_split(x: int) -> (r: (int, int, int, int, int))
    requires
        0 <= x,
    ensures
        0 <= r.0 < 0x100,
        0 <= r.1 < 0x100,
        0 <= r.2 < 0x100,
        0 <= r.3 < 0x100,
        x == r.0 + 0x100 * r.1 + 0x1_0000 * r.2 + 0x100_0000 * r.3 + 0x1_0000_0000 * r.4,
{
    let q1 = x / 0x100;
    let q2 = q1 / 0x100;
    let q3 = q2 / 0x100;
    (x % 0x100, q1 % 0x100, q2 % 0x100, q3 % 0x100, q3 / 0x100)
}

/// What is written as an unsigned 32-bit number is read back modulo 2^32.
pub proof fn law_u32_read_back(d: Seq<u8>, p: int, x: int)
    requires
        0 <= p,
        p + 4 <= d.len(),
        0 <= x,
        d.subrange(p, p + 4) == u32_bytes(x),
    ensures
        u32_at(d, p) == x % 0x1_0000_0000,
{
    let s = d.subrange(p, p + 4);
    assert(s[0] == d[p] && s[1] == d[p + 1] && s[2] == d[p + 2] && s[3] == d[p + 3]);
    let (r0, r1, r2, r3, q) = lemma_split(x);
    lemma_low_bytes(x, r0, r1, r2, r3, q);
}

/// The `k`-th of some signed 16-bit numbers.
pub proof fn lemma_i16s_at(d: Seq<u8>, p: int, values: Seq<i16>, k: int)
    requires
        0 <= p,
        p + 2 * values.len() <= d.len(),
        d.subrange(p, p + 2 * values.len()) == i16s(values),
        0 <= k < values.len(),
    ensures
        i16_at(d, p + 2 * k) == values[k],
{
    let s = d.subrange(p, p + 2 * values.len());
    assert(s[2 * k] == d[p + 2 * k] && s[2 * k + 1] == d[p + 2 * k + 1]);
    assert(d.subrange(p + 2 * k, p + 2 * k + 2) =~= i16_bytes(values[k]));
    law_i16_read_back(d, p + 2 * k, values[k]);
}

/// The `k`-th of some unsigned 32-bit numbers.
pub proof fn lemma_u32s_at(d: Seq<u8>, p: int, values: Seq<int>, k: int)
    requires
        0 <= p,
        p + 4 * values.len() <= d.len(),
        d.subrange(p, p + 4 * values.len()) == u32s(values),
        0 <= k < values.len(),
        0 <= values[k],
    ensures
        u32_at(d, p + 4 * k) == values[k] % 0x1_0000_0000,
{
    let s = d.subrange(p, p + 4 * values.len());
    assert(s[4 * k] == d[p + 4 * k] && s[4 * k + 1] == d[p + 4 * k + 1] && s[4 * k + 2] == d[p + 4
        * k + 2] && s[4 * k + 3] == d[p + 4 * k + 3]);
    assert(d.subrange(p + 4 * k, p + 4 * k + 4) =~= u32_bytes(values[k]));
    law_u32_read_back(d, p + 4 * k, values[k]);
}

/// Where the rows that stand before row `c` end, row `c` starts.
pub proof fn lemma_joined_at<T>(rows: Seq<Seq<T>>, n: int, c: int, i: int)
    requires
        0 <= c < n <= rows.len(),
        0 <= i < rows[c].len(),
    ensures
        joined(rows, c).len() + i < joined(rows, n).len(),
        joined(rows, n)[joined(rows, c).len() + i] == rows[c][i],
    decreases n,
{
    if c < n - 1 {
        lemma_joined_at(rows, n - 1, c, i);
    }
}

/// Rows of one length.
pub proof fn lemma_joined_len<T>(rows: Seq<Seq<T>>, n: int, w: nat)
    requires
        0 <= n <= rows.len(),
        forall|c: int| 0 <= c < n ==> (#[trigger] rows[c]).len() == w,
    ensures
        joined(rows, n).len() == n * w,
    decreases n,
{
    if n > 0 {
        lemma_joined_len(rows, n - 1, w);
        assert((n - 1) * w + w == n * w) by (nonlinear_arith);
    } else {
        assert(n * w == 0) by (nonlinear_arith)
            requires
                n == 0,
        ;
    }
}

/// Reads the unsigned 16-bit number at `pos`.
pub fn read_u16(data: &[u8], pos: usize) -> (r: u16)
    requires
        pos + 2 <= data@.len(),
    ensures
        r == u16_at(data@, pos as int),
{
    data[pos] as u16 + 0x100 * (data[pos + 1] as u16)
}

/// Reads the signed 16-bit number at `pos`.
pub fn read_i16(data: &[u8], pos: usize) -> (r: i16)
    requires
        pos + 2 <= data@.len(),
    ensures
        r == i16_at(data@, pos as int),
{
    let u: u16 = read_u16(data, pos);
    if u >= 0x8000 {
        (u as i32 - 0x1_0000) as i16
    } else {
        u as i16
    }
}

/// Reads the unsigned 32-bit number at `pos`.
pub fn read_u32(data: &[u8], pos: usize) -> (r: u32)
    requires
        pos + 4 <= data@.len(),
    ensures
        r == u32_at(data@, pos as int),
{
    data[pos] as u32 + 0x100 * (data[pos + 1] as u32) + 0x1_0000 * (data[pos + 2] as u32)
        + 0x100_0000 * (data[pos + 3] as u32)
}

/// Appends a signed 16-bit number.
pub fn push_i16(out: &mut Vec<u8>, v: i16)
    ensures
        final(out)@ == old(out)@ + i16_bytes(v),
{
    let u: u32 = if v < 0 {
        (v as i32 + 0x1_0000) as u32
    } else {
        v as u32
    };
    out.push((u % 0x100) as u8);
    out.push((u / 0x100) as u8);
    assert(out@ =~= old(out)@ + i16_bytes(v));
}

/// Appends the four low bytes of a number.
pub fn push_u32(out: &mut Vec<u8>, x: u64)
    ensures
        final(out)@ == old(out)@ + u32_bytes(x as int),
{
    out.push((x % 0x100) as u8);
    out.push((x / 0x100 % 0x100) as u8);
    out.push((x / 0x1_0000 % 0x100) as u8);
    out.push((x / 0x100_0000 % 0x100) as u8);
    assert(out@ =~= old(out)@ + u32_bytes(x as int));
}

/// Appends one more to a list of signed 16-bit numbers.
pub proof fn lemma_i16s_push(values: Seq<i16>, v: i16)
    ensures
        i16s(values.push(v)) == i16s(values) + i16_bytes(v),
{
    assert(i16s(values.push(v)) =~= i16s(values) + i16_bytes(v));
}

/// Appends one more to a list of unsigned 32-bit numbers.
pub proof fn lemma_u32s_push(values: Seq<int>, x: int)
    ensures
        u32s(values.push(x)) == u32s(values) + u32_bytes(x),
{
    assert(u32s(values.push(x)) =~= u32s(values) + u32_bytes(x));
}

/// Only the low bytes of a number count.
pub proof fn lemma_u32_bytes_low(x: int)
    requires
        0 <= x,
    ensures
        u32_bytes(x % 0x1_0000_0000) == u32_bytes(x),
{
    let (r0, r1, r2, r3, q) = lemma_split(x);
    lemma_low_bytes(x, r0, r1, r2, r3, q);
    lemma_low_bytes(x % 0x1_0000_0000, r0, r1, r2, r3, 0);
    assert(u32_bytes(x % 0x1_0000_0000) =~= u32_bytes(x));
}

/// Appends the bytes of a string.
pub fn push_str(out: &mut Vec<u8>, s: &str)
    ensures
        final(out)@ == old(out)@ + s.spec_bytes(),
{
    let bytes: &[u8] = s.as_bytes();
    let mut i: usize = 0;
    while i < bytes.len()
        invariant
            i <= bytes@.len(),
            bytes@ == s.spec_bytes(),
            out@ == old(out)@ + bytes@.take(i as int),
        decreases bytes@.len() - i,
    {
        out.push(bytes[i]);
        i = i + 1;
        assert(out@ =~= old(out)@ + bytes@.take(i as int));
    }
    assert(bytes@.take(i as int) =~= bytes@);
}

} // verus!
