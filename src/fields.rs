//! Prefix codes for the scalar fields of a node.
use crate::bits::{
    stream_of, bits_of, field, fits, lemma_field_in, lemma_pow2_values, lemma_val_bound, lemma_val_slice,
    BitBuf, BitReader,
};
use vstd::arithmetic::power2::pow2;
use vstd::prelude::*;

verus! {

/// Overclock 1.0 in millionths.
pub const OVERCLOCK_ONE: u32 = 1_000_000;

/// Largest value that the raw overclock form holds, plus one.
pub const OVERCLOCK_RAW_LIMIT: u32 = 0x400000;

/// Largest building count, plus one.
pub const BUILDINGS_LIMIT: u32 = 0x1000000 + 525;

/// Largest source rate, plus one.
pub const RATE_LIMIT: u32 = 0x20000;

/// What `field` yields, and where it ends: `None` where the stream runs out.
pub open spec fn outcome<T>(r: Option<T>, d: Option<(T, int)>, pos: int) -> bool {
    match d {
        None => r.is_none(),
        Some(x) => r == Some(x.0) && pos == x.1,
    }
}

/// A piece of a code, read where the code stands in a stream.
pub proof fn lemma_piece(pre: Seq<bool>, v: nat, c: nat, rest: Seq<bool>, a: int, b: int)
    requires
        0 <= a <= b <= c,
    ensures
        fits(pre + bits_of(v, c) + rest, pre.len() + a, (b - a) as nat),
        field(pre + bits_of(v, c) + rest, pre.len() + a, (b - a) as nat) == (v / pow2(
            (c - b) as nat,
        )) % pow2((b - a) as nat),
{
    lemma_field_in(pre, bits_of(v, c), rest, a, (b - a) as nat);
    lemma_val_slice(v, c, a, b);
}

// ----- Recipe identifier -----------------------------------------------------------------

/// A recipe identifier: 9 bits.
pub open spec fn recipe_code(r: nat) -> Seq<bool> {
    bits_of(r, 9)
}

/// The recipe identifier at `p`, if it is one of the `known` first ones.
pub open spec fn dec_recipe(s: Seq<bool>, p: int, known: nat) -> Option<(u16, int)> {
    if !fits(s, p, 9) || field(s, p, 9) >= known {
        None
    } else {
        Some((field(s, p, 9) as u16, p + 9))
    }
}

pub fn write_recipe_kind(buf: &mut BitBuf, v: u16)
    requires
        old(buf).wf(),
        v < 512,
        old(buf).pos + 9 <= u32::MAX,
    ensures
        final(buf).wf(),
        final(buf)@ == old(buf)@ + recipe_code(v as nat),
        final(buf).pos == old(buf).pos + 9,
{
    proof {
        lemma_pow2_values();
    }
    buf.write_bits(v as u64, 9);
}

pub fn read_recipe_kind(buf: &mut BitReader, known: usize) -> (r: Option<u16>)
    requires
        old(buf).wf(),
    ensures
        final(buf).wf(),
        final(buf).buf@ == old(buf).buf@,
        outcome(r, dec_recipe(old(buf).stream(), old(buf).pos as int, known as nat), final(buf).pos as int),
{
    let id = match buf.read_bits(9) {
        Some(v) => v,
        None => return None,
    };
    proof {
        lemma_pow2_values();
        lemma_val_bound(old(buf).stream().subrange(old(buf).pos as int, old(buf).pos + 9));
    }
    if id >= known as u64 {
        None
    } else {
        Some(id as u16)
    }
}

// ----- Overclock --------------------------------------------------------------------------

/// The overclock code, in millionths: `0` for 1.0, `1000` .. `1011` for 0.5, 1.5, 2.0 and
/// 2.5, else `11` and the value in 22 bits.
pub open spec fn overclock_code(v: nat) -> Seq<bool> {
    if v == 1_000_000 {
        bits_of(0, 1)
    } else if v == 500_000 {
        bits_of(8, 4)
    } else if v == 1_500_000 {
        bits_of(9, 4)
    } else if v == 2_000_000 {
        bits_of(10, 4)
    } else if v == 2_500_000 {
        bits_of(11, 4)
    } else {
        bits_of(3, 2) + bits_of(v, 22)
    }
}

/// The overclock at `p`.
pub open spec fn dec_overclock(s: Seq<bool>, p: int) -> Option<(u32, int)> {
    if !fits(s, p, 1) {
        None
    } else if field(s, p, 1) == 0 {
        Some((1_000_000u32, p + 1))
    } else if !fits(s, p, 2) {
        None
    } else if field(s, p + 1, 1) == 0 {
        if !fits(s, p, 4) {
            None
        } else {
            let k = field(s, p + 2, 2);
            Some(
                (
                    if k == 0 {
                        500_000u32
                    } else if k == 1 {
                        1_500_000u32
                    } else if k == 2 {
                        2_000_000u32
                    } else {
                        2_500_000u32
                    },
                    p + 4,
                ),
            )
        }
    } else if !fits(s, p, 24) {
        None
    } else {
        Some((field(s, p + 2, 22) as u32, p + 24))
    }
}

pub fn write_overclock(buf: &mut BitBuf, v: u32)
    requires
        old(buf).wf(),
        v < OVERCLOCK_RAW_LIMIT,
        old(buf).pos + 24 <= u32::MAX,
    ensures
        final(buf).wf(),
        final(buf)@ == old(buf)@ + overclock_code(v as nat),
        final(buf).pos == old(buf).pos + overclock_code(v as nat).len(),
{
    proof {
        lemma_pow2_values();
    }
    if v == 1_000_000 {
        buf.write_bits(0b0, 1);
    } else if v == 500_000 {
        buf.write_bits(0b1000, 4);
    } else if v == 1_500_000 {
        buf.write_bits(0b1001, 4);
    } else if v == 2_000_000 {
        buf.write_bits(0b1010, 4);
    } else if v == 2_500_000 {
        buf.write_bits(0b1011, 4);
    } else {
        buf.write_bits(0b11, 2);
        buf.write_bits(v as u64, 22);
        assert(final(buf)@ =~= old(buf)@ + overclock_code(v as nat));
    }
}

pub fn read_overclock(buf: &mut BitReader) -> (r: Option<u32>)
    requires
        old(buf).wf(),
    ensures
        final(buf).wf(),
        final(buf).buf@ == old(buf).buf@,
        outcome(r, dec_overclock(old(buf).stream(), old(buf).pos as int), final(buf).pos as int),
{
    let ghost s = old(buf).stream();
    let ghost p = old(buf).pos as int;
    proof {
        lemma_pow2_values();
    }
    match buf.read_bits(1) {
        None => return None,
        Some(0) => return Some(1_000_000),
        Some(_) => {},
    }
    match buf.read_bits(1) {
        None => return None,
        Some(0) => {
            let k = match buf.read_bits(2) {
                Some(k) => k,
                None => return None,
            };
            return if k == 0 {
                Some(500_000)
            } else if k == 1 {
                Some(1_500_000)
            } else if k == 2 {
                Some(2_000_000)
            } else {
                Some(2_500_000)
            };
        },
        Some(_) => {},
    }
    match buf.read_bits(22) {
        None => None,
        Some(v) => {
            proof {
                lemma_val_bound(s.subrange(p + 2, p + 24));
            }
            Some(v as u32)
        },
    }
}

/// Overclock round trip: every overclock below `2^22` is read back from its code, whatever
/// stands before and after it.
#[verifier::spinoff_prover]
#[verifier::rlimit(50)]
pub proof fn lemma_overclock_round_trip(pre: Seq<bool>, v: nat, rest: Seq<bool>)
    requires
        v < OVERCLOCK_RAW_LIMIT,
    ensures
        dec_overclock(pre + overclock_code(v) + rest, pre.len() as int) == Some(
            (v as u32, (pre.len() + overclock_code(v).len()) as int),
        ),
{
    lemma_pow2_values();
    let p = pre.len() as int;
    let s = pre + overclock_code(v) + rest;
    if v == 1_000_000 {
        lemma_piece(pre, 0, 1, rest, 0, 1);
    } else if v == 500_000 || v == 1_500_000 || v == 2_000_000 || v == 2_500_000 {
        let k: nat = if v == 500_000 {
            8
        } else if v == 1_500_000 {
            9
        } else if v == 2_000_000 {
            10
        } else {
            11
        };
        assert(overclock_code(v) == bits_of(k, 4));
        lemma_piece(pre, k, 4, rest, 0, 1);
        lemma_piece(pre, k, 4, rest, 1, 2);
        lemma_piece(pre, k, 4, rest, 2, 4);
        lemma_piece(pre, k, 4, rest, 0, 4);
        assert(field(s, p, 1) == (k / pow2(3)) % pow2(1));
        assert(field(s, p + 1, 1) == (k / pow2(2)) % pow2(1));
        assert(field(s, p + 2, 2) == (k / pow2(0)) % pow2(2));
        assert((k / 8) % 2 == 1 && (k / 4) % 2 == 0 && (k / 1) % 4 == k - 8) by (nonlinear_arith)
            requires
                8 <= k <= 11,
        ;
    } else {
        let a = bits_of(3, 2);
        let b = bits_of(v, 22);
        assert(s =~= pre + a + (b + rest));
        assert(s =~= (pre + a) + b + rest);
        lemma_piece(pre, 3, 2, b + rest, 0, 1);
        lemma_piece(pre, 3, 2, b + rest, 1, 2);
        lemma_piece(pre + a, v, 22, rest, 0, 22);
        assert(field(s, p, 1) == (3nat / pow2(1)) % pow2(1));
        assert(field(s, p + 1, 1) == (3nat / pow2(0)) % pow2(1));
        assert(field(s, p + 2, 22) == (v / pow2(0)) % pow2(22));
    }
}

/// A 4-bit code read as its first two and last two bits.
proof fn lemma_four(pre: Seq<bool>, w: nat, rest: Seq<bool>)
    requires
        w < 16,
    ensures
        fits(pre + bits_of(w, 4) + rest, pre.len() as int, 4),
        field(pre + bits_of(w, 4) + rest, pre.len() as int, 2) == w / 4,
        field(pre + bits_of(w, 4) + rest, (pre.len() + 2) as int, 2) == w % 4,
{
    lemma_pow2_values();
    let s = pre + bits_of(w, 4) + rest;
    let p = pre.len() as int;
    lemma_piece(pre, w, 4, rest, 0, 2);
    lemma_piece(pre, w, 4, rest, 2, 4);
    lemma_piece(pre, w, 4, rest, 0, 4);
    assert(field(s, p, 2) == (w / pow2(2)) % pow2(2));
    assert(field(s, p + 2, 2) == (w / pow2(0)) % pow2(2));
    assert((w / 4) % 4 == w / 4 && (w / 1) % 4 == w % 4) by (nonlinear_arith)
        requires
            w < 16,
    ;
}

/// A code of a 3-bit prefix `t` (`110` or `111`) and an `n`-bit body `w`, read back piecewise.
proof fn lemma_prefixed(pre: Seq<bool>, t: nat, w: nat, n: nat, rest: Seq<bool>)
    requires
        6 <= t <= 7,
        w < pow2(n),
    ensures
        fits(pre + (bits_of(t, 3) + bits_of(w, n)) + rest, pre.len() as int, 3 + n),
        field(pre + (bits_of(t, 3) + bits_of(w, n)) + rest, pre.len() as int, 2) == 3,
        field(pre + (bits_of(t, 3) + bits_of(w, n)) + rest, (pre.len() + 2) as int, 1) == t - 6,
        field(pre + (bits_of(t, 3) + bits_of(w, n)) + rest, (pre.len() + 3) as int, n) == w,
{
    lemma_pow2_values();
    let p = pre.len() as int;
    let a = bits_of(t, 3);
    let b = bits_of(w, n);
    let s = pre + (a + b) + rest;
    assert(s =~= pre + a + (b + rest));
    assert(s =~= (pre + a) + b + rest);
    lemma_piece(pre, t, 3, b + rest, 0, 2);
    lemma_piece(pre, t, 3, b + rest, 2, 3);
    lemma_piece(pre + a, w, n, rest, 0, n as int);
    lemma_field_in(pre, a + b, rest, 0, 3 + n);
    assert(field(s, p, 2) == (t / pow2(1)) % pow2(2));
    assert(field(s, p + 2, 1) == (t / pow2(0)) % pow2(1));
    assert(field(s, p + 3, n) == (w / pow2(0)) % pow2(n));
    assert((t / 2) % 4 == 3 && (t / 1) % 2 == t - 6) by (nonlinear_arith)
        requires
            6 <= t <= 7,
    ;
    vstd::arithmetic::div_mod::lemma_small_mod(w, pow2(n));
}

// ----- Building count -----------------------------------------------------------------------

/// The building count code: `v - 1` in 4 bits for 1 to 12, else `110` and `v - 13` in 9 bits
/// up to 524, else `111` and `v - 525` in 24 bits.
pub open spec fn buildings_code(v: nat) -> Seq<bool> {
    if v <= 12 {
        bits_of((v - 1) as nat, 4)
    } else if v <= 524 {
        bits_of(6, 3) + bits_of((v - 13) as nat, 9)
    } else {
        bits_of(7, 3) + bits_of((v - 525) as nat, 24)
    }
}

/// The building count at `p`.
pub open spec fn dec_buildings(s: Seq<bool>, p: int) -> Option<(u32, int)> {
    if !fits(s, p, 2) {
        None
    } else if field(s, p, 2) != 3 {
        if !fits(s, p, 4) {
            None
        } else {
            Some(((field(s, p, 2) * 4 + field(s, p + 2, 2) + 1) as u32, p + 4))
        }
    } else if !fits(s, p, 3) {
        None
    } else if field(s, p + 2, 1) == 0 {
        if !fits(s, p, 12) {
            None
        } else {
            Some(((field(s, p + 3, 9) + 13) as u32, p + 12))
        }
    } else if !fits(s, p, 27) {
        None
    } else {
        Some(((field(s, p + 3, 24) + 525) as u32, p + 27))
    }
}

pub fn write_building_count(buf: &mut BitBuf, v: u32)
    requires
        old(buf).wf(),
        1 <= v < BUILDINGS_LIMIT,
        old(buf).pos + 27 <= u32::MAX,
    ensures
        final(buf).wf(),
        final(buf)@ == old(buf)@ + buildings_code(v as nat),
        final(buf).pos == old(buf).pos + buildings_code(v as nat).len(),
{
    proof {
        lemma_pow2_values();
    }
    if v <= 12 {
        buf.write_bits((v - 1) as u64, 4);
    } else if v <= 524 {
        buf.write_bits(0b110, 3);
        buf.write_bits((v - 13) as u64, 9);
        assert(final(buf)@ =~= old(buf)@ + buildings_code(v as nat));
    } else {
        buf.write_bits(0b111, 3);
        buf.write_bits((v - 525) as u64, 24);
        assert(final(buf)@ =~= old(buf)@ + buildings_code(v as nat));
    }
}

pub fn read_building_count(buf: &mut BitReader) -> (r: Option<u32>)
    requires
        old(buf).wf(),
    ensures
        final(buf).wf(),
        final(buf).buf@ == old(buf).buf@,
        outcome(r, dec_buildings(old(buf).stream(), old(buf).pos as int), final(buf).pos as int),
{
    let ghost s = old(buf).stream();
    let ghost p = old(buf).pos as int;
    proof {
        lemma_pow2_values();
    }
    let first_two = match buf.read_bits(2) {
        Some(v) => v,
        None => return None,
    };
    proof {
        lemma_val_bound(s.subrange(p, p + 2));
    }
    if first_two != 0b11 {
        let low = match buf.read_bits(2) {
            Some(v) => v,
            None => return None,
        };
        proof {
            lemma_val_bound(s.subrange(p + 2, p + 4));
        }
        return Some((first_two * 4 + low + 1) as u32);
    }
    match buf.read_bits(1) {
        None => return None,
        Some(0) => {
            return match buf.read_bits(9) {
                None => None,
                Some(v) => {
                    proof {
                        lemma_val_bound(s.subrange(p + 3, p + 12));
                    }
                    Some((v + 13) as u32)
                },
            };
        },
        Some(_) => {},
    }
    match buf.read_bits(24) {
        None => None,
        Some(v) => {
            proof {
                lemma_val_bound(s.subrange(p + 3, p + 27));
            }
            Some((v + 525) as u32)
        },
    }
}

/// Building count round trip: every count from 1 to `2^24 + 524` is read back from its
/// code, whatever stands before and after it.
#[verifier::spinoff_prover]
#[verifier::rlimit(50)]
pub proof fn lemma_buildings_round_trip(pre: Seq<bool>, v: nat, rest: Seq<bool>)
    requires
        1 <= v < BUILDINGS_LIMIT,
    ensures
        dec_buildings(pre + buildings_code(v) + rest, pre.len() as int) == Some(
            (v as u32, (pre.len() + buildings_code(v).len()) as int),
        ),
{
    lemma_pow2_values();
    if v <= 12 {
        lemma_four(pre, (v - 1) as nat, rest);
        assert(((v - 1) as nat) / 4 * 4 + ((v - 1) as nat) % 4 == (v - 1) as nat);
    } else if v <= 524 {
        lemma_prefixed(pre, 6, (v - 13) as nat, 9, rest);
    } else {
        lemma_prefixed(pre, 7, (v - 525) as nat, 24, rest);
    }
}

// ----- Source item ----------------------------------------------------------------------------

/// A source item identifier: 4 bits.
pub open spec fn source_item_code(i: nat) -> Seq<bool> {
    bits_of(i, 4)
}

/// The source item identifier at `p`, if it is one of the `known` first ones.
pub open spec fn dec_source_item(s: Seq<bool>, p: int, known: nat) -> Option<(u8, int)> {
    if !fits(s, p, 4) || field(s, p, 4) >= known {
        None
    } else {
        Some((field(s, p, 4) as u8, p + 4))
    }
}

pub fn write_source_item_kind(buf: &mut BitBuf, v: u8)
    requires
        old(buf).wf(),
        v < 16,
        old(buf).pos + 4 <= u32::MAX,
    ensures
        final(buf).wf(),
        final(buf)@ == old(buf)@ + source_item_code(v as nat),
        final(buf).pos == old(buf).pos + 4,
{
    proof {
        lemma_pow2_values();
    }
    buf.write_bits(v as u64, 4);
}

pub fn read_source_item_kind(buf: &mut BitReader, known: usize) -> (r: Option<u8>)
    requires
        old(buf).wf(),
    ensures
        final(buf).wf(),
        final(buf).buf@ == old(buf).buf@,
        outcome(r, dec_source_item(old(buf).stream(), old(buf).pos as int, known as nat), final(buf).pos as int),
{
    let id = match buf.read_bits(4) {
        Some(v) => v,
        None => return None,
    };
    proof {
        lemma_pow2_values();
        lemma_val_bound(old(buf).stream().subrange(old(buf).pos as int, old(buf).pos + 4));
    }
    if id >= known as u64 {
        None
    } else {
        Some(id as u8)
    }
}

// ----- Source rate ------------------------------------------------------------------------------

/// The twelve common source rates, by their 4-bit code.
pub open spec fn common_rate(k: nat) -> nat {
    if k == 0 {
        30
    } else if k == 1 {
        60
    } else if k == 2 {
        120
    } else if k == 3 {
        240
    } else if k == 4 {
        300
    } else if k == 5 {
        480
    } else if k == 6 {
        600
    } else if k == 7 {
        960
    } else if k == 8 {
        1200
    } else if k == 9 {
        1920
    } else if k == 10 {
        2400
    } else {
        4800
    }
}

/// Whether `v` is one of the common rates.
pub open spec fn is_common_rate(v: nat) -> bool {
    exists|k: nat| k < 12 && common_rate(k) == v
}

/// The code of a common rate.
pub open spec fn common_rate_code(v: nat) -> nat {
    choose|k: nat| k < 12 && common_rate(k) == v
}

/// The source rate code: a common rate in 4 bits (never starting `11`), else `110` and
/// `v / 30` in 9 bits for a multiple of 30 below 15360, else `111` and `v` in 17 bits.
pub open spec fn rate_code(v: nat) -> Seq<bool> {
    if is_common_rate(v) {
        bits_of(common_rate_code(v), 4)
    } else if v % 30 == 0 && v / 30 < 512 {
        bits_of(6, 3) + bits_of(v / 30, 9)
    } else {
        bits_of(7, 3) + bits_of(v, 17)
    }
}

/// The source rate at `p`.
pub open spec fn dec_rate(s: Seq<bool>, p: int) -> Option<(u32, int)> {
    if !fits(s, p, 2) {
        None
    } else if field(s, p, 2) != 3 {
        if !fits(s, p, 4) {
            None
        } else {
            Some((common_rate(field(s, p, 2) * 4 + field(s, p + 2, 2)) as u32, p + 4))
        }
    } else if !fits(s, p, 3) {
        None
    } else if field(s, p + 2, 1) == 0 {
        if !fits(s, p, 12) {
            None
        } else {
            Some(((field(s, p + 3, 9) * 30) as u32, p + 12))
        }
    } else if !fits(s, p, 20) {
        None
    } else {
        Some((field(s, p + 3, 17) as u32, p + 20))
    }
}

/// The code of a common rate, or `None`.
fn common_rate_index(v: u32) -> (r: Option<u64>)
    ensures
        r.is_some() == is_common_rate(v as nat),
        r.is_some() ==> r.unwrap() < 12 && common_rate(r.unwrap() as nat) == v,
{
    let k: u64 = match v {
        30 => 0,
        60 => 1,
        120 => 2,
        240 => 3,
        300 => 4,
        480 => 5,
        600 => 6,
        960 => 7,
        1200 => 8,
        1920 => 9,
        2400 => 10,
        4800 => 11,
        _ => {
            proof {
                assert forall|k: nat| k < 12 implies common_rate(k) != v by {}
            }
            return None;
        },
    };
    assert(common_rate(k as nat) == v);
    Some(k)
}

proof fn lemma_common_rate_injective(a: nat, b: nat)
    requires
        a < 12,
        b < 12,
        common_rate(a) == common_rate(b),
    ensures
        a == b,
{
}

pub fn write_source_rate(buf: &mut BitBuf, v: u32)
    requires
        old(buf).wf(),
        v < RATE_LIMIT,
        old(buf).pos + 20 <= u32::MAX,
    ensures
        final(buf).wf(),
        final(buf)@ == old(buf)@ + rate_code(v as nat),
        final(buf).pos == old(buf).pos + rate_code(v as nat).len(),
{
    proof {
        lemma_pow2_values();
    }
    match common_rate_index(v) {
        Some(k) => {
            proof {
                let c = common_rate_code(v as nat);
                lemma_common_rate_injective(c, k as nat);
            }
            buf.write_bits(k, 4);
        },
        None => {
            if v % 30 == 0 && v / 30 < 512 {
                buf.write_bits(0b110, 3);
                buf.write_bits((v / 30) as u64, 9);
            } else {
                buf.write_bits(0b111, 3);
                buf.write_bits(v as u64, 17);
            }
            assert(final(buf)@ =~= old(buf)@ + rate_code(v as nat));
        },
    }
}

pub fn read_source_rate(buf: &mut BitReader) -> (r: Option<u32>)
    requires
        old(buf).wf(),
    ensures
        final(buf).wf(),
        final(buf).buf@ == old(buf).buf@,
        outcome(r, dec_rate(old(buf).stream(), old(buf).pos as int), final(buf).pos as int),
{
    let ghost s = old(buf).stream();
    let ghost p = old(buf).pos as int;
    proof {
        lemma_pow2_values();
    }
    let first_two = match buf.read_bits(2) {
        Some(v) => v,
        None => return None,
    };
    proof {
        lemma_val_bound(s.subrange(p, p + 2));
    }
    if first_two != 0b11 {
        let low = match buf.read_bits(2) {
            Some(v) => v,
            None => return None,
        };
        proof {
            lemma_val_bound(s.subrange(p + 2, p + 4));
        }
        let k = first_two * 4 + low;
        let rate: u32 = if k == 0 {
            30
        } else if k == 1 {
            60
        } else if k == 2 {
            120
        } else if k == 3 {
            240
        } else if k == 4 {
            300
        } else if k == 5 {
            480
        } else if k == 6 {
            600
        } else if k == 7 {
            960
        } else if k == 8 {
            1200
        } else if k == 9 {
            1920
        } else if k == 10 {
            2400
        } else {
            4800
        };
        return Some(rate);
    }
    match buf.read_bits(1) {
        None => return None,
        Some(0) => {
            return match buf.read_bits(9) {
                None => None,
                Some(v) => {
                    proof {
                        lemma_val_bound(s.subrange(p + 3, p + 12));
                    }
                    Some((v * 30) as u32)
                },
            };
        },
        Some(_) => {},
    }
    match buf.read_bits(17) {
        None => None,
        Some(v) => {
            proof {
                lemma_val_bound(s.subrange(p + 3, p + 20));
            }
            Some(v as u32)
        },
    }
}

/// Source rate round trip: every rate below `2^17` is read back from its code, whatever
/// stands before and after it.
#[verifier::spinoff_prover]
#[verifier::rlimit(50)]
pub proof fn lemma_rate_round_trip(pre: Seq<bool>, v: nat, rest: Seq<bool>)
    requires
        v < RATE_LIMIT,
    ensures
        dec_rate(pre + rate_code(v) + rest, pre.len() as int) == Some(
            (v as u32, (pre.len() + rate_code(v).len()) as int),
        ),
{
    lemma_pow2_values();
    if is_common_rate(v) {
        let w = common_rate_code(v);
        lemma_four(pre, w, rest);
        assert(w / 4 * 4 + w % 4 == w);
    } else if v % 30 == 0 && v / 30 < 512 {
        lemma_prefixed(pre, 6, v / 30, 9, rest);
    } else {
        lemma_prefixed(pre, 7, v, 17, rest);
    }
}

/// Recipe identifier round trip: an identifier below `known` is read back from its code.
pub proof fn lemma_recipe_round_trip(pre: Seq<bool>, v: nat, known: nat, rest: Seq<bool>)
    requires
        v < 512,
        v < known,
    ensures
        dec_recipe(pre + recipe_code(v) + rest, pre.len() as int, known) == Some(
            (v as u16, (pre.len() + 9) as int),
        ),
{
    lemma_pow2_values();
    lemma_piece(pre, v, 9, rest, 0, 9);
    let s = pre + recipe_code(v) + rest;
    let p = pre.len() as int;
    assert(fits(s, p, 9));
    assert(field(s, p, 9) == (v / pow2(0)) % pow2(9));
    assert(field(s, p, 9) == v);
}

/// Source item round trip: an identifier below `known` is read back from its code.
pub proof fn lemma_source_item_round_trip(pre: Seq<bool>, v: nat, known: nat, rest: Seq<bool>)
    requires
        v < 16,
        v < known,
    ensures
        dec_source_item(pre + source_item_code(v) + rest, pre.len() as int, known) == Some(
            (v as u8, (pre.len() + 4) as int),
        ),
{
    lemma_pow2_values();
    lemma_piece(pre, v, 4, rest, 0, 4);
    let s = pre + source_item_code(v) + rest;
    let p = pre.len() as int;
    assert(field(s, p, 4) == (v / pow2(0)) % pow2(4));
    assert(field(s, p, 4) == v);
}

/// Field round trip over the calls: where a field writer appended its code after what stood
/// before, the matching reader at that place of the buffer's bytes returns the value, for
/// every field at once.
pub proof fn lemma_buffer_fields_round_trip(w: BitBuf, pre: Seq<bool>, code: Seq<bool>, v: nat, known: nat)
    requires
        w.wf(),
        w@ == pre + code,
    ensures
        code == recipe_code(v) && v < 512 && v < known ==> dec_recipe(stream_of(w.buf@), pre.len() as int, known)
            == Some((v as u16, (pre.len() + 9) as int)),
        code == overclock_code(v) && v < OVERCLOCK_RAW_LIMIT ==> dec_overclock(stream_of(w.buf@), pre.len() as int)
            == Some((v as u32, (pre.len() + code.len()) as int)),
        code == buildings_code(v) && 1 <= v < BUILDINGS_LIMIT ==> dec_buildings(stream_of(w.buf@), pre.len() as int)
            == Some((v as u32, (pre.len() + code.len()) as int)),
        code == source_item_code(v) && v < 16 && v < known ==> dec_source_item(stream_of(w.buf@), pre.len() as int, known)
            == Some((v as u8, (pre.len() + 4) as int)),
        code == rate_code(v) && v < RATE_LIMIT ==> dec_rate(stream_of(w.buf@), pre.len() as int)
            == Some((v as u32, (pre.len() + code.len()) as int)),
{
    w.lemma_stream();
    let z = crate::bits::zeros((stream_of(w.buf@).len() - w.pos) as nat);
    if code == recipe_code(v) && v < 512 && v < known {
        lemma_recipe_round_trip(pre, v, known, z);
    }
    if code == overclock_code(v) && v < OVERCLOCK_RAW_LIMIT {
        lemma_overclock_round_trip(pre, v, z);
    }
    if code == buildings_code(v) && 1 <= v < BUILDINGS_LIMIT {
        lemma_buildings_round_trip(pre, v, z);
    }
    if code == source_item_code(v) && v < 16 && v < known {
        lemma_source_item_round_trip(pre, v, known, z);
    }
    if code == rate_code(v) && v < RATE_LIMIT {
        lemma_rate_round_trip(pre, v, z);
    }
}

} // verus!
