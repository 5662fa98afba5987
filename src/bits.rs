//! Bit strings, and a big-endian bit writer and reader over bytes.
//!
//! Bit 0 of a byte stream is the most significant bit of byte 0, bit 8 the most
//! significant bit of byte 1, and so on.
use vstd::arithmetic::div_mod::{lemma_div_denominator, lemma_mod_breakdown, lemma_small_mod};
use vstd::arithmetic::power2::{lemma2_to64, lemma2_to64_rest, lemma_pow2_adds, lemma_pow2_pos, pow2};
use vstd::prelude::*;

verus! {

/// The number denoted by a bit string, first bit most significant.
pub open spec fn val_of(s: Seq<bool>) -> nat
    decreases s.len(),
{
    if s.len() == 0 {
        0
    } else {
        2 * val_of(s.drop_last()) + if s.last() {
            1nat
        } else {
            0nat
        }
    }
}

/// The `count` low bits of `v`, most significant first.
pub open spec fn bits_of(v: nat, count: nat) -> Seq<bool> {
    Seq::new(count, |k: int| (v / pow2((count - 1 - k) as nat)) % 2 == 1)
}

/// `n` zero bits.
pub open spec fn zeros(n: nat) -> Seq<bool> {
    Seq::new(n, |k: int| false)
}

/// Whether `n` bits can be taken from `s` at position `p`.
pub open spec fn fits(s: Seq<bool>, p: int, n: nat) -> bool {
    0 <= p && p + n <= s.len()
}

/// The `n`-bit number that starts at position `p` of `s`.
pub open spec fn field(s: Seq<bool>, p: int, n: nat) -> nat {
    val_of(s.subrange(p, p + n))
}

/// The smallest number of bits that can tell `count` values apart.
pub open spec fn bits_needed(count: nat) -> nat
    decreases count,
{
    if count <= 1 {
        0
    } else {
        1 + bits_needed(((count + 1) / 2) as nat)
    }
}

/// Bit `j` (0 = most significant) of a byte.
pub open spec fn byte_bit(b: u8, j: u8) -> bool {
    ((b >> (7 - j) as u8) & 1u8) == 1u8
}

/// All bits of a byte sequence, in stream order.
pub open spec fn stream_of(bytes: Seq<u8>) -> Seq<bool> {
    Seq::new(8 * bytes.len(), |i: int| byte_bit(bytes[i / 8], (i % 8) as u8))
}

pub proof fn lemma_pow2_values()
    ensures
        pow2(0) == 1,
        pow2(1) == 2,
        pow2(2) == 4,
        pow2(3) == 8,
        pow2(4) == 16,
        pow2(7) == 128,
        pow2(8) == 256,
        pow2(9) == 512,
        pow2(17) == 0x20000,
        pow2(19) == 0x80000,
        pow2(20) == 0x100000,
        pow2(22) == 0x400000,
        pow2(24) == 0x1000000,
        pow2(32) == 0x1_0000_0000,
        pow2(63) == 0x8000_0000_0000_0000,
        pow2(64) == 0x1_0000_0000_0000_0000,
{
    lemma2_to64();
    lemma2_to64_rest();
}

/// A bit string denotes a number below `2^len`.
pub proof fn lemma_val_bound(s: Seq<bool>)
    ensures
        val_of(s) < pow2(s.len()),
    decreases s.len(),
{
    if s.len() > 0 {
        lemma_val_bound(s.drop_last());
        lemma_pow2_adds(1, (s.len() - 1) as nat);
        lemma2_to64();
    } else {
        lemma2_to64();
    }
}

/// Appending one bit doubles the value and adds the bit.
pub proof fn lemma_val_push(s: Seq<bool>, b: bool)
    ensures
        val_of(s.push(b)) == 2 * val_of(s) + if b {
            1nat
        } else {
            0nat
        },
{
    assert(s.push(b).drop_last() =~= s);
}

/// The bits of `v` denote `v` modulo `2^count`.
pub proof fn lemma_val_bits(v: nat, count: nat)
    ensures
        val_of(bits_of(v, count)) == v % pow2(count),
    decreases count,
{
    lemma2_to64();
    if count > 0 {
        let s = bits_of(v, count);
        assert(s.drop_last() =~= bits_of(v / 2, (count - 1) as nat)) by {
            assert forall|k: int| 0 <= k < count - 1 implies s.drop_last()[k] == bits_of(
                v / 2,
                (count - 1) as nat,
            )[k] by {
                let e = (count - 2 - k) as nat;
                lemma_pow2_adds(1, e);
                lemma_pow2_pos(e);
                lemma_div_denominator(v as int, 2, pow2(e) as int);
                assert((count - 1 - k) as nat == 1 + e);
            }
        }
        lemma_val_bits(v / 2, (count - 1) as nat);
        lemma_pow2_adds(1, (count - 1) as nat);
        lemma_pow2_pos((count - 1) as nat);
        lemma_mod_breakdown(v as int, 2, pow2((count - 1) as nat) as int);
        assert((count - 1 - (count - 1)) as nat == 0);
    }
}

/// A run of bits cut from the bits of `v` denotes the matching slice of `v`.
pub proof fn lemma_val_slice(v: nat, c: nat, a: int, b: int)
    requires
        0 <= a <= b <= c,
    ensures
        val_of(bits_of(v, c).subrange(a, b)) == (v / pow2((c - b) as nat)) % pow2((b - a) as nat),
{
    let d = pow2((c - b) as nat);
    lemma_pow2_pos((c - b) as nat);
    assert(bits_of(v, c).subrange(a, b) =~= bits_of(v / d, (b - a) as nat)) by {
        assert forall|k: int| 0 <= k < b - a implies bits_of(v, c).subrange(a, b)[k] == bits_of(
            v / d,
            (b - a) as nat,
        )[k] by {
            let e = (b - a - 1 - k) as nat;
            lemma_pow2_pos(e);
            lemma_pow2_adds((c - b) as nat, e);
            lemma_div_denominator(v as int, d as int, pow2(e) as int);
            assert((c - 1 - (a + k)) as nat == (c - b) as nat + e);
        }
    }
    lemma_val_bits(v / d, (b - a) as nat);
}

/// A value below `2^count` is read back whole from its bits.
pub proof fn lemma_val_bits_exact(v: nat, count: nat)
    requires
        v < pow2(count),
    ensures
        val_of(bits_of(v, count)) == v,
{
    lemma_val_bits(v, count);
    lemma_small_mod(v, pow2(count));
}

/// Reading `n` bits where a sequence holds `code` yields the matching slice of `code`.
pub proof fn lemma_field_in(pre: Seq<bool>, code: Seq<bool>, rest: Seq<bool>, a: int, n: nat)
    requires
        0 <= a,
        a + n <= code.len(),
    ensures
        fits(pre + code + rest, pre.len() + a, n),
        field(pre + code + rest, pre.len() + a, n) == val_of(code.subrange(a, a + n)),
{
    assert((pre + code + rest).subrange(pre.len() + a, pre.len() + a + n) =~= code.subrange(
        a,
        a + n,
    ));
}

pub proof fn lemma_bits_needed_bound(count: nat)
    ensures
        count <= pow2(bits_needed(count)),
        count >= 2 ==> pow2((bits_needed(count) - 1) as nat) < count,
    decreases count,
{
    lemma2_to64();
    if count > 1 {
        let h = ((count + 1) / 2) as nat;
        lemma_bits_needed_bound(h);
        lemma_pow2_adds(1, bits_needed(h));
        if h >= 2 {
            lemma_pow2_adds(1, (bits_needed(h) - 1) as nat);
        }
    }
}

/// More values never need fewer bits.
pub proof fn lemma_bits_needed_mono(a: nat, b: nat)
    requires
        a <= b,
    ensures
        bits_needed(a) <= bits_needed(b),
    decreases b,
{
    if a > 1 {
        lemma_bits_needed_mono(((a + 1) / 2) as nat, ((b + 1) / 2) as nat);
    }
}

/// Up to `2^64` values need at most 64 bits.
pub proof fn lemma_bits_needed_64(count: nat)
    requires
        count <= pow2(64),
    ensures
        bits_needed(count) <= 64,
{
    lemma_bits_needed_pow2(64);
    lemma_bits_needed_mono(count, pow2(64));
}

pub proof fn lemma_bits_needed_pow2(e: nat)
    ensures
        bits_needed(pow2(e)) == e,
    decreases e,
{
    lemma2_to64();
    if e > 0 {
        lemma_pow2_adds(1, (e - 1) as nat);
        lemma_pow2_pos((e - 1) as nat);
        lemma_bits_needed_pow2((e - 1) as nat);
        assert((pow2(e) + 1) / 2 == pow2((e - 1) as nat));
    }
}

/// The number of bits needed to tell `count` values apart: `ceil(log2(count))`.
pub fn required_bits_for(count: u64) -> (r: u8)
    requires
        count > 0,
    ensures
        r as nat == bits_needed(count as nat),
        r <= 64,
{
    let mut c: u64 = count;
    let mut r: u8 = 0;
    proof {
        lemma_pow2_values();
        lemma_bits_needed_64(count as nat);
    }
    while c > 1
        invariant
            c >= 1,
            r as nat + bits_needed(c as nat) == bits_needed(count as nat),
            bits_needed(count as nat) <= 64,
        decreases c,
    {
        c = c / 2 + c % 2;
        r = r + 1;
    }
    r
}

proof fn lemma_set_bit(b: u8, k: u8, j: u8)
    requires
        k < 8,
        j < 8,
    ensures
        byte_bit(b | (0x80u8 >> k), j) == (byte_bit(b, j) || j == k),
{
    assert(((((b | (0x80u8 >> k)) >> (7 - j) as u8) & 1u8) == 1u8) == (((((b >> (7 - j) as u8)
        & 1u8) == 1u8)) || j == k)) by (bit_vector)
        requires
            k < 8,
            j < 8,
    ;
}

proof fn lemma_zero_byte(j: u8)
    requires
        j < 8,
    ensures
        !byte_bit(0u8, j),
{
    assert(((0u8 >> (7 - j) as u8) & 1u8) != 1u8) by (bit_vector)
        requires
            j < 8,
    ;
}

/// Appends bits to a growing byte vector.
pub struct BitBuf {
    pub buf: Vec<u8>,
    /// Number of bits written.
    pub pos: usize,
}

impl View for BitBuf {
    type V = Seq<bool>;

    open spec fn view(&self) -> Seq<bool> {
        stream_of(self.buf@).take(self.pos as int)
    }
}

impl BitBuf {
    /// The bytes hold exactly the bits written, with zero fill after them.
    pub open spec fn wf(&self) -> bool {
        &&& self.buf@.len() == (self.pos + 7) / 8
        &&& forall|i: int|
            self.pos <= i < stream_of(self.buf@).len() ==> !#[trigger] stream_of(self.buf@)[i]
    }

    pub fn new() -> (r: BitBuf)
        ensures
            r.wf(),
            r@ == Seq::<bool>::empty(),
            r.pos == 0,
    {
        let r = BitBuf { buf: Vec::new(), pos: 0 };
        assert(r@ =~= Seq::<bool>::empty());
        r
    }

    /// The view holds exactly the bits written.
    pub proof fn lemma_len(&self)
        requires
            self.wf(),
        ensures
            self@.len() == self.pos,
    {
    }

    /// The bytes, read as a stream, hold the bits written and then zero fill.
    pub proof fn lemma_stream(&self)
        requires
            self.wf(),
        ensures
            stream_of(self.buf@) == self@ + zeros((stream_of(self.buf@).len() - self.pos) as nat),
            stream_of(self.buf@).len() >= self.pos,
    {
        assert(stream_of(self.buf@) =~= self@ + zeros((stream_of(self.buf@).len() - self.pos) as nat));
    }

    /// The bytes, read as a stream, hold the bits written and the zero fill up to the next
    /// byte boundary, and nothing more.
    pub proof fn lemma_stream_pad(&self)
        requires
            self.wf(),
        ensures
            stream_of(self.buf@) == self@ + zeros(pad_len(self.pos as nat)),
            self@.len() == self.pos,
    {
        self.lemma_stream();
        let p = self.pos as int;
        assert(8 * ((p + 7) / 8) - p == (8 - p % 8) % 8) by (nonlinear_arith)
            requires
                p >= 0,
        ;
    }

    pub fn write_bit(&mut self, b: bool)
        requires
            old(self).wf(),
            old(self).pos < u32::MAX,
        ensures
            final(self).wf(),
            final(self)@ == old(self)@.push(b),
            final(self).pos == old(self).pos + 1,
    {
        let ghost old_buf = self.buf@;
        if self.pos % 8 == 0 {
            self.buf.push(0u8);
            proof {
                assert forall|i: int| 0 <= i < stream_of(self.buf@).len() implies #[trigger] stream_of(
                    self.buf@,
                )[i] == if i < stream_of(old_buf).len() {
                    stream_of(old_buf)[i]
                } else {
                    false
                } by {
                    if i >= stream_of(old_buf).len() {
                        lemma_zero_byte((i % 8) as u8);
                    }
                }
            }
        }
        let ghost mid_buf = self.buf@;
        if b {
            let i = self.pos / 8;
            let k = (self.pos % 8) as u8;
            let old_byte = self.buf[i];
            self.buf.set(i, old_byte | (0x80u8 >> k));
            proof {
                assert forall|j: int| 0 <= j < stream_of(self.buf@).len() implies #[trigger] stream_of(
                    self.buf@,
                )[j] == (stream_of(mid_buf)[j] || j == old(self).pos) by {
                    if j / 8 == i {
                        lemma_set_bit(old_byte, k, (j % 8) as u8);
                    }
                }
            }
        }
        self.pos = self.pos + 1;
        assert(self@ =~= old(self)@.push(b));
    }

    /// Writes the `count` low bits of `v`, most significant first.
    pub fn write_bits(&mut self, v: u64, count: u8)
        requires
            old(self).wf(),
            count <= 64,
            v < pow2(count as nat),
            old(self).pos + count <= u32::MAX,
        ensures
            final(self).wf(),
            final(self)@ == old(self)@ + bits_of(v as nat, count as nat),
            final(self).pos == old(self).pos + count,
    {
        if count == 0 {
            assert(self@ + bits_of(v as nat, 0) =~= self@);
            return ;
        }
        proof {
            lemma_pow2_values();
        }
        // `p` is the weight of the next bit to write.
        let mut p: u64 = 1;
        let mut j: u8 = 1;
        while j < count
            invariant
                1 <= j <= count <= 64,
                p as nat == pow2((j - 1) as nat),
            decreases count - j,
        {
            proof {
                lemma_pow2_adds(1, (j - 1) as nat);
                lemma_pow2_values();
                vstd::arithmetic::power2::lemma_pow2_strictly_increases((j - 1) as nat, 63);
            }
            p = p * 2;
            j = j + 1;
        }
        let ghost code = bits_of(v as nat, count as nat);
        proof {
            lemma_pow2_pos((count - 1) as nat);
        }
        let mut k: u8 = 0;
        while k < count
            invariant
                self.wf(),
                k <= count <= 64,
                count == old(self).pos + count - old(self).pos,
                self.pos == old(self).pos + k,
                old(self).pos + count <= u32::MAX,
                k < count ==> p as nat == pow2((count - 1 - k) as nat),
                p > 0,
                self@ == old(self)@ + code.take(k as int),
                code == bits_of(v as nat, count as nat),
            decreases count - k,
        {
            let bit = (v / p) % 2 == 1;
            self.write_bit(bit);
            proof {
                assert(code.take(k + 1) =~= code.take(k as int).push(code[k as int]));
                if k + 1 < count {
                    lemma_pow2_values();
                    lemma_pow2_adds(1, (count - 2 - k) as nat);
                    lemma_pow2_pos((count - 2 - k) as nat);
                    assert((count - 1 - k) as nat == 1 + (count - 2 - k) as nat);
                }
            }
            if k + 1 < count {
                p = p / 2;
            }
            k = k + 1;
        }
        assert(code.take(count as int) =~= code);
    }

    pub fn write_u8(&mut self, v: u8)
        requires
            old(self).wf(),
            old(self).pos + 8 <= u32::MAX,
        ensures
            final(self).wf(),
            final(self)@ == old(self)@ + bits_of(v as nat, 8),
            final(self).pos == old(self).pos + 8,
    {
        proof {
            lemma_pow2_values();
        }
        self.write_bits(v as u64, 8);
    }

    /// Zero-fills up to the next byte boundary.
    pub fn finish_byte(&mut self)
        requires
            old(self).wf(),
            old(self).pos + 7 <= u32::MAX,
        ensures
            final(self).wf(),
            final(self)@ == old(self)@ + zeros(pad_len(old(self).pos as nat)),
            final(self).pos as nat == old(self).pos + pad_len(old(self).pos as nat),
            final(self).pos % 8 == 0,
            final(self).buf@ == old(self).buf@,
    {
        self.pos = (self.pos + 7) / 8 * 8;
        assert(self@ =~= old(self)@ + zeros(pad_len(old(self).pos as nat)));
    }

    /// Writes a length below 32768 in one byte (below 128) or two.
    pub fn write_len(&mut self, len: usize)
        requires
            old(self).wf(),
            len < 32768,
            old(self).pos + 16 <= u32::MAX,
        ensures
            final(self).wf(),
            final(self)@ == old(self)@ + len_code(len as nat),
            final(self).pos == old(self).pos + len_code(len as nat).len(),
    {
        if len < 0x80 {
            self.write_u8(len as u8);
        } else {
            self.write_u8((0x80 + len / 256) as u8);
            self.write_u8((len % 256) as u8);
            assert(self@ =~= old(self)@ + len_code(len as nat));
        }
    }
}

/// Bits of zero fill that bring `pos` to a byte boundary.
pub open spec fn pad_len(pos: nat) -> nat {
    ((8 - pos % 8) % 8) as nat
}

/// The length code: one byte `n` for `n < 128`, else `0x80 | n >> 8` and `n & 0xff`.
pub open spec fn len_code(n: nat) -> Seq<bool> {
    if n < 128 {
        bits_of(n, 8)
    } else {
        bits_of(128 + n / 256, 8) + bits_of(n % 256, 8)
    }
}

/// The length code read at `p`, with the position after it.
pub open spec fn dec_len(s: Seq<bool>, p: int) -> Option<(nat, int)> {
    if !fits(s, p, 8) {
        None
    } else if field(s, p, 1) == 0 {
        Some((field(s, p + 1, 7), p + 8))
    } else if !fits(s, p, 16) {
        None
    } else {
        Some((field(s, p + 1, 7) * 256 + field(s, p + 8, 8), p + 16))
    }
}

/// The bits written by a sequence of writes of `vals[i]` in `widths[i]` bits.
pub open spec fn written(vals: Seq<u64>, widths: Seq<u8>) -> Seq<bool>
    decreases vals.len(),
{
    if vals.len() == 0 {
        Seq::empty()
    } else {
        written(vals.drop_last(), widths) + bits_of(vals.last() as nat, widths[vals.len() - 1] as nat)
    }
}

/// Where the `i`-th of a sequence of writes begins.
pub open spec fn offset(widths: Seq<u8>, i: int) -> nat
    decreases i,
{
    if i <= 0 {
        0
    } else {
        offset(widths, i - 1) + widths[i - 1] as nat
    }
}

/// A value written in `count` bits is read back from where it was written, whatever
/// stands before and after it.
pub proof fn lemma_write_read(pre: Seq<bool>, v: nat, count: nat, rest: Seq<bool>)
    requires
        v < pow2(count),
    ensures
        fits(pre + bits_of(v, count) + rest, pre.len() as int, count),
        field(pre + bits_of(v, count) + rest, pre.len() as int, count) == v,
{
    lemma_field_in(pre, bits_of(v, count), rest, 0, count);
    assert(bits_of(v, count).subrange(0, count as int) =~= bits_of(v, count));
    lemma_val_bits_exact(v, count);
}

/// Bit-buffer round trip: after any sequence of writes of `vals[i]` in `widths[i]` bits,
/// reading the same widths in the same order returns each value as it was written.
pub proof fn lemma_bits_round_trip(vals: Seq<u64>, widths: Seq<u8>, i: int)
    requires
        vals.len() == widths.len(),
        forall|j: int| 0 <= j < vals.len() ==> widths[j] <= 64 && vals[j] < pow2(widths[j] as nat),
        0 <= i < vals.len(),
    ensures
        written(vals, widths).len() == offset(widths, vals.len() as int),
        fits(written(vals, widths), offset(widths, i) as int, widths[i] as nat),
        field(written(vals, widths), offset(widths, i) as int, widths[i] as nat) == vals[i],
    decreases vals.len(),
{
    lemma_written_len(vals, widths);
    let n = vals.len() - 1;
    if i == n {
        lemma_written_len(vals.drop_last(), widths);
        assert(written(vals, widths) =~= written(vals.drop_last(), widths) + bits_of(
            vals[n] as nat,
            widths[n] as nat,
        ) + Seq::empty());
        lemma_write_read(written(vals.drop_last(), widths), vals[n] as nat, widths[n] as nat, Seq::empty());
    } else {
        let pre = written(vals.drop_last(), widths);
        lemma_bits_round_trip(vals.drop_last(), widths.drop_last(), i);
        lemma_written_widths(vals.drop_last(), widths);
        lemma_offset_widths(widths, i);
        assert(written(vals, widths).subrange(offset(widths, i) as int, offset(widths, i) + widths[i])
            =~= pre.subrange(offset(widths, i) as int, offset(widths, i) + widths[i]));
    }
}

proof fn lemma_written_len(vals: Seq<u64>, widths: Seq<u8>)
    requires
        vals.len() <= widths.len(),
    ensures
        written(vals, widths).len() == offset(widths, vals.len() as int),
    decreases vals.len(),
{
    if vals.len() > 0 {
        lemma_written_len(vals.drop_last(), widths);
    }
}

proof fn lemma_written_widths(vals: Seq<u64>, widths: Seq<u8>)
    requires
        vals.len() < widths.len(),
    ensures
        written(vals, widths) == written(vals, widths.drop_last()),
    decreases vals.len(),
{
    if vals.len() > 0 {
        lemma_written_widths(vals.drop_last(), widths);
    }
}

proof fn lemma_offset_widths(widths: Seq<u8>, i: int)
    requires
        0 <= i < widths.len(),
    ensures
        offset(widths, i) == offset(widths.drop_last(), i),
        offset(widths, i) + widths[i] == offset(widths, i + 1),
    decreases i,
{
    if i > 0 {
        lemma_offset_widths(widths, i - 1);
    }
}

/// Length round trip: a length below 32768 is read back from its code, whatever
/// stands before and after it.
pub proof fn lemma_len_round_trip(pre: Seq<bool>, n: nat, rest: Seq<bool>)
    requires
        n < 32768,
    ensures
        dec_len(pre + len_code(n) + rest, pre.len() as int) == Some(
            (n, (pre.len() + len_code(n).len()) as int),
        ),
{
    lemma_pow2_values();
    let p = pre.len() as int;
    if n < 128 {
        let c = bits_of(n, 8);
        lemma_field_in(pre, c, rest, 0, 1);
        lemma_field_in(pre, c, rest, 1, 7);
        lemma_field_in(pre, c, rest, 0, 8);
        lemma_val_slice(n, 8, 0, 1);
        lemma_val_slice(n, 8, 1, 8);
        assert(field(pre + len_code(n) + rest, p, 1) == 0);
        assert(field(pre + len_code(n) + rest, p + 1, 7) == n);
    } else {
        let a = bits_of(128 + n / 256, 8);
        let b = bits_of(n % 256, 8);
        assert(pre + len_code(n) + rest =~= pre + a + (b + rest));
        assert(pre + len_code(n) + rest =~= (pre + a) + b + rest);
        lemma_field_in(pre, a, b + rest, 0, 1);
        lemma_field_in(pre, a, b + rest, 1, 7);
        lemma_field_in(pre + a, b, rest, 0, 8);
        lemma_val_slice(128 + n / 256, 8, 0, 1);
        lemma_val_slice(128 + n / 256, 8, 1, 8);
        lemma_val_slice(n % 256, 8, 0, 8);
        lemma_field_in(pre, len_code(n), rest, 0, 16);
        assert(n / 256 < 128);
        assert((128 + n / 256) / 128 == 1);
        assert(((n % 256) / 1) % 256 == n % 256);
        assert((pre + a).len() == p + 8);
        assert(field(pre + len_code(n) + rest, p, 1) == 1);
        assert(field(pre + len_code(n) + rest, p + 1, 7) == n / 256);
        assert(field(pre + len_code(n) + rest, p + 8, 8) == n % 256);
    }
}

/// Bit-buffer round trip over the calls: after `write_bits` of `vals[i]` in `widths[i]` bits in
/// turn, a `BitReader` on the buffer's bytes finds each value, read in the same widths from the
/// start, as it was written.
pub proof fn lemma_buffer_round_trip(w: BitBuf, vals: Seq<u64>, widths: Seq<u8>, i: int)
    requires
        w.wf(),
        w@ == written(vals, widths),
        vals.len() == widths.len(),
        forall|j: int| 0 <= j < vals.len() ==> widths[j] <= 64 && vals[j] < pow2(widths[j] as nat),
        0 <= i < vals.len(),
    ensures
        fits(stream_of(w.buf@), offset(widths, i) as int, widths[i] as nat),
        field(stream_of(w.buf@), offset(widths, i) as int, widths[i] as nat) == vals[i],
{
    w.lemma_stream();
    lemma_bits_round_trip(vals, widths, i);
    let (a, n) = (offset(widths, i) as int, widths[i] as nat);
    assert(stream_of(w.buf@).subrange(a, a + n) =~= written(vals, widths).subrange(a, a + n));
}

/// Length round trip over the calls: where `write_len(n)` appended to what stood before,
/// `read_len` at that place of the buffer's bytes returns `n`.
pub proof fn lemma_buffer_len_round_trip(w: BitBuf, pre: Seq<bool>, n: nat)
    requires
        w.wf(),
        w@ == pre + len_code(n),
        n < 32768,
    ensures
        dec_len(stream_of(w.buf@), pre.len() as int) == Some((n, (pre.len() + len_code(n).len()) as int)),
        pre.len() + len_code(n).len() == w.pos,
{
    w.lemma_stream();
    lemma_len_round_trip(pre, n, zeros((stream_of(w.buf@).len() - w.pos) as nat));
}

/// Reads bits from a byte slice.
pub struct BitReader<'a> {
    pub buf: &'a [u8],
    pub pos: usize,
}

impl<'a> BitReader<'a> {
    /// The stream of all bits of the slice.
    pub open spec fn stream(&self) -> Seq<bool> {
        stream_of(self.buf@)
    }

    /// The position lies within the stream, and bit positions fit in a `usize`.
    pub open spec fn wf(&self) -> bool {
        &&& self.pos <= self.stream().len()
        &&& self.stream().len() + 8 <= usize::MAX
    }

    pub fn new(buf: &'a [u8]) -> (r: BitReader<'a>)
        requires
            8 * buf@.len() + 8 <= usize::MAX,
        ensures
            r.wf(),
            r.buf@ == buf@,
            r.pos == 0,
    {
        BitReader { buf, pos: 0 }
    }

    fn read_bit(&mut self) -> (r: bool)
        requires
            old(self).wf(),
            old(self).pos < old(self).stream().len(),
        ensures
            final(self).wf(),
            final(self).buf@ == old(self).buf@,
            final(self).pos == old(self).pos + 1,
            r == old(self).stream()[old(self).pos as int],
    {
        let byte = self.buf[self.pos / 8];
        let k = (self.pos % 8) as u8;
        let r = ((byte >> (7 - k)) & 1u8) == 1u8;
        self.pos = self.pos + 1;
        r
    }

    /// Reads `count` bits, returned in the low bits of the result; `None` past the end.
    pub fn read_bits(&mut self, count: u8) -> (r: Option<u64>)
        requires
            old(self).wf(),
            count <= 64,
        ensures
            final(self).wf(),
            final(self).buf@ == old(self).buf@,
            r.is_some() == fits(old(self).stream(), old(self).pos as int, count as nat),
            r.is_some() ==> r.unwrap() as nat == field(
                old(self).stream(),
                old(self).pos as int,
                count as nat,
            ),
            r.is_some() ==> final(self).pos == old(self).pos + count,
    {
        let ghost s = self.stream();
        let ghost p0 = self.pos as int;
        if count as usize > self.buf.len() * 8 - self.pos {
            return None;
        }
        let mut out: u64 = 0;
        let mut i: u8 = 0;
        proof {
            lemma_pow2_values();
            assert(s.subrange(p0, p0) =~= Seq::<bool>::empty());
        }
        while i < count
            invariant
                self.wf(),
                self.buf@ == old(self).buf@,
                s == stream_of(self.buf@),
                p0 == old(self).pos,
                i <= count <= 64,
                self.pos == p0 + i,
                p0 + count <= s.len(),
                out as nat == val_of(s.subrange(p0, p0 + i)),
            decreases count - i,
        {
            let b = self.read_bit();
            proof {
                lemma_pow2_values();
                lemma_val_bound(s.subrange(p0, p0 + i));
                if i < 63 {
                    vstd::arithmetic::power2::lemma_pow2_strictly_increases(i as nat, 63);
                }
                assert(s.subrange(p0, p0 + i + 1) =~= s.subrange(p0, p0 + i).push(b));
                lemma_val_push(s.subrange(p0, p0 + i), b);
                lemma_val_bound(s.subrange(p0, p0 + i + 1));
                if i + 1 < 64 {
                    vstd::arithmetic::power2::lemma_pow2_strictly_increases((i + 1) as nat, 64);
                }
            }
            out = out * 2 + if b {
                1u64
            } else {
                0u64
            };
            i = i + 1;
        }
        Some(out)
    }

    pub fn read_u8(&mut self) -> (r: Option<u8>)
        requires
            old(self).wf(),
        ensures
            final(self).wf(),
            final(self).buf@ == old(self).buf@,
            r.is_some() == fits(old(self).stream(), old(self).pos as int, 8),
            r.is_some() ==> r.unwrap() as nat == field(old(self).stream(), old(self).pos as int, 8),
            r.is_some() ==> final(self).pos == old(self).pos + 8,
    {
        match self.read_bits(8) {
            Some(v) => {
                proof {
                    lemma_val_bound(old(self).stream().subrange(old(self).pos as int, old(self).pos + 8));
                    lemma_pow2_values();
                }
                Some(v as u8)
            },
            None => None,
        }
    }

    /// Skips to the next byte boundary.
    pub fn finish_byte(&mut self)
        requires
            old(self).wf(),
        ensures
            final(self).wf(),
            final(self).buf@ == old(self).buf@,
            final(self).pos as nat == old(self).pos + pad_len(old(self).pos as nat),
    {
        self.pos = (self.pos + 7) / 8 * 8;
    }

    /// Reads a length code.
    pub fn read_len(&mut self) -> (r: Option<usize>)
        requires
            old(self).wf(),
        ensures
            final(self).wf(),
            final(self).buf@ == old(self).buf@,
            r.is_some() == dec_len(old(self).stream(), old(self).pos as int).is_some(),
            r.is_some() ==> dec_len(old(self).stream(), old(self).pos as int) == Some(
                (r.unwrap() as nat, final(self).pos as int),
            ),
            r.is_some() ==> r.unwrap() < 32768,
    {
        let ghost s = self.stream();
        let ghost p = self.pos as int;
        proof {
            lemma_pow2_values();
        }
        let first = match self.read_bits(1) {
            Some(v) => v,
            None => return None,
        };
        let hi = match self.read_bits(7) {
            Some(v) => v,
            None => return None,
        };
        proof {
            lemma_val_bound(s.subrange(p + 1, p + 8));
        }
        if first == 0 {
            Some(hi as usize)
        } else {
            let lo = match self.read_bits(8) {
                Some(v) => v,
                None => return None,
            };
            proof {
                lemma_val_bound(s.subrange(p + 8, p + 16));
            }
            Some((hi * 256 + lo) as usize)
        }
    }
}

} // verus!
