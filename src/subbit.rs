//! Packing of small bounded numbers below one bit each, in 64-bit chunks.
//!
//! A run of values `v_i < b_i` is stored as the mixed-radix number
//! `(..(v_0 * b_1 + v_1) * b_2 + ..) * b_n + v_n`, in as many bits as the product of the
//! bounds needs. A chunk ends where the next bound would take the product past `u64::MAX`.
use crate::bits::{
    bits_needed, bits_of, field, fits, lemma_bits_needed_bound, lemma_write_read, BitBuf,
    BitReader,
};
use vstd::arithmetic::power2::pow2;
use vstd::prelude::*;

verus! {

/// The product of the bounds.
pub open spec fn product(b: Seq<u32>) -> nat
    decreases b.len(),
{
    if b.len() == 0 {
        1
    } else {
        product(b.drop_last()) * b.last() as nat
    }
}

/// The mixed-radix number of the values under the bounds.
pub open spec fn mixed(v: Seq<u32>, b: Seq<u32>) -> nat
    decreases b.len(),
{
    if b.len() == 0 || v.len() == 0 {
        0
    } else {
        mixed(v.drop_last(), b.drop_last()) * b.last() as nat + v.last() as nat
    }
}

/// The values that a mixed-radix number holds under the bounds.
pub open spec fn unmix(acc: nat, b: Seq<u32>) -> Seq<u32>
    decreases b.len(),
{
    if b.len() == 0 {
        Seq::empty()
    } else {
        unmix(acc / b.last() as nat, b.drop_last()).push((acc % b.last() as nat) as u32)
    }
}

/// Each value lies below its bound.
pub open spec fn in_bounds(v: Seq<u32>, b: Seq<u32>) -> bool {
    &&& v.len() == b.len()
    &&& forall|i: int| 0 <= i < b.len() ==> #[trigger] v[i] < b[i]
}

/// Whether adding bound `next` to a chunk with bounds `pb` starts a new chunk.
pub open spec fn flushes(pb: Seq<u32>, next: u32) -> bool {
    pb.len() > 0 && product(pb) * next > u64::MAX
}

/// A chunk: the mixed-radix number of its values, in the bits its product needs.
pub open spec fn chunk_bits(pv: Seq<u32>, pb: Seq<u32>) -> Seq<bool> {
    bits_of(mixed(pv, pb), bits_needed(product(pb)))
}

/// The bits emitted from a pending chunk `pv` / `pb` on, for the values `v` under the
/// bounds `b` that follow, ending with a flush.
pub open spec fn emitted(pv: Seq<u32>, pb: Seq<u32>, v: Seq<u32>, b: Seq<u32>) -> Seq<bool>
    decreases b.len(), if pb.len() > 0 {
        1int
    } else {
        0int
    },
{
    if b.len() == 0 || v.len() == 0 {
        chunk_bits(pv, pb)
    } else if flushes(pb, b[0]) {
        chunk_bits(pv, pb) + emitted(Seq::empty(), Seq::empty(), v, b)
    } else {
        emitted(pv.push(v[0]), pb.push(b[0]), v.skip(1), b.skip(1))
    }
}

/// The packed form of values `v` under bounds `b`.
pub open spec fn packed(v: Seq<u32>, b: Seq<u32>) -> Seq<bool> {
    emitted(Seq::empty(), Seq::empty(), v, b)
}

/// How many of the bounds `b` join a chunk whose product so far is `prod`.
pub open spec fn chunk_len(b: Seq<u32>, prod: nat) -> nat
    decreases b.len(),
{
    if b.len() == 0 || prod * b[0] as nat > u64::MAX {
        0
    } else {
        1 + chunk_len(b.skip(1), prod * b[0] as nat)
    }
}

/// The values packed at `p` under the bounds `b`, with the position after them.
pub open spec fn dec_packed(s: Seq<bool>, p: int, b: Seq<u32>) -> Option<(Seq<u32>, int)>
    decreases b.len(),
{
    if b.len() == 0 {
        Some((Seq::empty(), p))
    } else {
        let n = chunk_len(b, 1);
        let w = bits_needed(product(b.take(n as int)));
        if n == 0 || n > b.len() || !fits(s, p, w) {
            None
        } else {
            match dec_packed(s, p + w, b.skip(n as int)) {
                None => None,
                Some(rest) => Some((unmix(field(s, p, w), b.take(n as int)) + rest.0, rest.1)),
            }
        }
    }
}

/// Encoder state: the values of the open chunk, as a mixed-radix number and the product of
/// their bounds.
pub struct SubBitEncoder {
    pub acc: u64,
    pub num_options: u64,
    pub pending: Ghost<Seq<u32>>,
    pub bounds: Ghost<Seq<u32>>,
}

impl SubBitEncoder {
    pub open spec fn wf(&self) -> bool {
        &&& in_bounds(self.pending@, self.bounds@)
        &&& forall|i: int| 0 <= i < self.bounds@.len() ==> #[trigger] self.bounds@[i] >= 1
        &&& self.acc as nat == mixed(self.pending@, self.bounds@)
        &&& self.num_options as nat == product(self.bounds@)
    }

    pub fn new() -> (r: SubBitEncoder)
        ensures
            r.wf(),
            r.pending@ == Seq::<u32>::empty(),
            r.bounds@ == Seq::<u32>::empty(),
    {
        SubBitEncoder { acc: 0, num_options: 1, pending: Ghost(Seq::empty()), bounds: Ghost(Seq::empty()) }
    }

    /// Adds value `v` with `num_options` possible values, first writing out the open chunk
    /// where the product of the bounds would pass `u64::MAX`.
    pub fn encode(&mut self, buf: &mut BitBuf, v: u32, num_options: u32)
        requires
            old(self).wf(),
            old(buf).wf(),
            v < num_options,
            old(buf).pos + 64 <= u32::MAX,
        ensures
            final(self).wf(),
            final(buf).wf(),
            flushes(old(self).bounds@, num_options) ==> {
                &&& final(buf)@ == old(buf)@ + chunk_bits(old(self).pending@, old(self).bounds@)
                &&& final(self).pending@ == seq![v]
                &&& final(self).bounds@ == seq![num_options]
            },
            !flushes(old(self).bounds@, num_options) ==> {
                &&& final(buf)@ == old(buf)@
                &&& final(self).pending@ == old(self).pending@.push(v)
                &&& final(self).bounds@ == old(self).bounds@.push(num_options)
            },
            final(buf).pos <= old(buf).pos + 64,
            final(buf)@.len() >= old(buf)@.len(),
            final(buf)@.take(old(buf)@.len() as int) == old(buf)@,
    {
        proof {
            lemma_mixed_bound(self.pending@, self.bounds@);
        }
        if self.num_options > u64::MAX / (num_options as u64) {
            proof {
                assert(self.bounds@.len() > 0) by {
                    if self.bounds@.len() == 0 {
                        let n = num_options as int;
                        assert(0xffff_ffff_ffff_ffffint / n >= 1) by (nonlinear_arith)
                            requires
                                1 <= n <= 0xffff_ffff,
                        ;
                    }
                }
                assert(product(self.bounds@) * num_options > u64::MAX) by (nonlinear_arith)
                    requires
                        self.num_options > u64::MAX / (num_options as u64),
                        product(self.bounds@) == self.num_options,
                        num_options >= 1,
                ;
            }
            self.flush(buf);
            assert(self.num_options == 1);
        } else {
            proof {
                assert(product(self.bounds@) * num_options <= u64::MAX) by (nonlinear_arith)
                    requires
                        self.num_options <= u64::MAX / (num_options as u64),
                        product(self.bounds@) == self.num_options,
                        num_options >= 1,
                ;
            }
        }
        let ghost pv = self.pending@;
        let ghost pb = self.bounds@;
        proof {
            lemma_mixed_bound(pv, pb);
            assert(self.acc * (num_options as nat) + v < self.num_options * (num_options as nat)) by (nonlinear_arith)
                requires
                    self.acc < self.num_options,
                    v < num_options,
            ;
            assert(pv.push(v).drop_last() =~= pv);
            assert(pb.push(num_options).drop_last() =~= pb);
        }
        self.num_options = self.num_options * num_options as u64;
        self.acc = self.acc * num_options as u64 + v as u64;
        self.pending = Ghost(pv.push(v));
        self.bounds = Ghost(pb.push(num_options));
        proof {
            if flushes(old(self).bounds@, num_options) {
                assert((old(buf)@ + chunk_bits(old(self).pending@, old(self).bounds@)).take(old(buf)@.len() as int) =~= old(buf)@);
            } else {
                assert(old(buf)@.take(old(buf)@.len() as int) =~= old(buf)@);
            }
            if flushes(old(self).bounds@, num_options) {
                assert(pv.push(v) =~= seq![v]);
                assert(pb.push(num_options) =~= seq![num_options]);
            }
        }
    }

    /// Writes out the open chunk and starts an empty one.
    pub fn flush(&mut self, buf: &mut BitBuf)
        requires
            old(self).wf(),
            old(buf).wf(),
            old(buf).pos + 64 <= u32::MAX,
        ensures
            final(self).wf(),
            final(self).pending@ == Seq::<u32>::empty(),
            final(self).bounds@ == Seq::<u32>::empty(),
            final(buf).wf(),
            final(buf)@ == old(buf)@ + chunk_bits(old(self).pending@, old(self).bounds@),
            final(buf).pos <= old(buf).pos + 64,
            final(buf)@.len() >= old(buf)@.len(),
            final(buf)@.take(old(buf)@.len() as int) == old(buf)@,
    {
        proof {
            lemma_product_pos(self.bounds@);
        }
        let bits = required_bits(self.num_options);
        proof {
            lemma_mixed_bound(self.pending@, self.bounds@);
            lemma_bits_needed_bound(self.num_options as nat);
        }
        buf.write_bits(self.acc, bits);
        *self = SubBitEncoder::new();
        assert((old(buf)@ + chunk_bits(old(self).pending@, old(self).bounds@)).take(old(buf)@.len() as int) =~= old(buf)@);
    }
}

fn required_bits(count: u64) -> (r: u8)
    requires
        count > 0,
    ensures
        r as nat == bits_needed(count as nat),
        r <= 64,
{
    crate::bits::required_bits_for(count)
}

/// The mixed-radix number lies below the product of the bounds.
pub proof fn lemma_mixed_bound(v: Seq<u32>, b: Seq<u32>)
    requires
        in_bounds(v, b),
    ensures
        mixed(v, b) < product(b),
    decreases b.len(),
{
    if b.len() > 0 {
        let (v0, b0) = (v.drop_last(), b.drop_last());
        assert(in_bounds(v0, b0)) by {
            assert forall|i: int| 0 <= i < b0.len() implies #[trigger] v0[i] < b0[i] by {
                assert(v[i] < b[i]);
            }
        }
        lemma_mixed_bound(v0, b0);
        let (m, p, x, c) = (mixed(v0, b0), product(b0), v.last() as nat, b.last() as nat);
        assert(v[v.len() - 1] < b[b.len() - 1]);
        assert(m * c + x < p * c) by (nonlinear_arith)
            requires
                m < p,
                x < c,
        ;
    }
}

/// A product of positive bounds is positive.
pub proof fn lemma_product_pos(b: Seq<u32>)
    requires
        forall|i: int| 0 <= i < b.len() ==> #[trigger] b[i] >= 1,
    ensures
        product(b) >= 1,
    decreases b.len(),
{
    if b.len() > 0 {
        lemma_product_pos(b.drop_last());
        assert(b[b.len() - 1] >= 1);
        let (p, c) = (product(b.drop_last()), b.last() as nat);
        assert(p * c >= 1) by (nonlinear_arith)
            requires
                p >= 1,
                c >= 1,
        ;
    }
}

/// Decoding a mixed-radix number under its bounds gives back the values.
pub proof fn lemma_unmix_mixed(v: Seq<u32>, b: Seq<u32>)
    requires
        in_bounds(v, b),
    ensures
        unmix(mixed(v, b), b) == v,
    decreases b.len(),
{
    if b.len() > 0 {
        let (v0, b0) = (v.drop_last(), b.drop_last());
        assert(in_bounds(v0, b0)) by {
            assert forall|i: int| 0 <= i < b0.len() implies #[trigger] v0[i] < b0[i] by {
                assert(v[i] < b[i]);
            }
        }
        lemma_unmix_mixed(v0, b0);
        let (m, x, c) = (mixed(v0, b0), v.last() as nat, b.last() as nat);
        assert(v[v.len() - 1] < b[b.len() - 1]);
        assert((m * c + x) / c == m && (m * c + x) % c == x) by (nonlinear_arith)
            requires
                x < c,
        ;
        assert(v0.push(v.last()) =~= v);
    }
}


/// Decodes values packed under the bounds `bounds`, which the decoder has to know in advance.
pub fn decode_sub_bit_stream(buf: &mut BitReader, bounds: &Vec<u32>) -> (r: Option<Vec<u32>>)
    requires
        old(buf).wf(),
        forall|i: int| 0 <= i < bounds@.len() ==> #[trigger] bounds@[i] >= 1,
    ensures
        final(buf).wf(),
        final(buf).buf@ == old(buf).buf@,
        r.is_some() == dec_packed(old(buf).stream(), old(buf).pos as int, bounds@).is_some(),
        r.is_some() ==> r.unwrap()@ == dec_packed(old(buf).stream(), old(buf).pos as int, bounds@).unwrap().0
            && final(buf).pos == dec_packed(old(buf).stream(), old(buf).pos as int, bounds@).unwrap().1,
{
    let ghost s = old(buf).stream();
    let ghost p0 = old(buf).pos as int;
    let ghost b = bounds@;
    let mut out: Vec<u32> = Vec::new();
    let mut i: usize = 0;
    proof {
        assert(b.skip(0) =~= b);
        lemma_dec_packed_empty_prefix(s, p0, b);
    }
    while i < bounds.len()
        invariant
            buf.wf(),
            buf.buf@ == old(buf).buf@,
            s == buf.stream(),
            s == old(buf).stream(),
            p0 == old(buf).pos,
            b == bounds@,
            forall|k: int| 0 <= k < b.len() ==> #[trigger] b[k] >= 1,
            i <= b.len(),
            dec_packed(s, p0, b) == match dec_packed(s, buf.pos as int, b.skip(i as int)) {
                None => None,
                Some(r) => Some((out@ + r.0, r.1)),
            },
        decreases b.len() - i,
    {
        // Gather as many bounds as fit in one 64-bit chunk.
        let mut total: u64 = 1;
        let mut j: usize = i;
        proof {
            assert(b.subrange(i as int, i as int) =~= Seq::<u32>::empty());
        }
        while j < bounds.len() && total <= u64::MAX / (bounds[j] as u64)
            invariant
                i <= j <= b.len(),
                b == bounds@,
                forall|k: int| 0 <= k < b.len() ==> #[trigger] b[k] >= 1,
                total as nat == product(b.subrange(i as int, j as int)),
                chunk_len(b.skip(i as int), 1) == (j - i) + chunk_len(b.skip(j as int), total as nat),
            decreases b.len() - j,
        {
            let ghost t = total;
            let ghost c = bounds[j as int];
            proof {
                assert(t * c <= u64::MAX) by (nonlinear_arith)
                    requires
                        t <= 0xffff_ffff_ffff_ffffint / (c as int),
                        c >= 1,
                ;
                assert(b.skip(j as int).skip(1) =~= b.skip(j + 1));
                assert(b.subrange(i as int, j + 1).drop_last() =~= b.subrange(i as int, j as int));
            }
            total = total * (bounds[j] as u64);
            j = j + 1;
        }
        proof {
            if j < b.len() {
                let c = b[j as int];
                assert(total * c > u64::MAX) by (nonlinear_arith)
                    requires
                        total > 0xffff_ffff_ffff_ffffint / (c as int),
                        c >= 1,
                ;
                assert(b.skip(j as int)[0] == c);
            }
            assert(chunk_len(b.skip(j as int), total as nat) == 0);
            assert(chunk_len(b.skip(i as int), 1) == j - i);
            lemma_chunk_len_positive(b.skip(i as int));
            assert(b.skip(i as int).take((j - i) as int) =~= b.subrange(i as int, j as int));
            assert(b.skip(i as int).skip((j - i) as int) =~= b.skip(j as int));
            lemma_product_pos(b.subrange(i as int, j as int));
        }
        let w = crate::bits::required_bits_for(total);
        let ghost pos_before = buf.pos as int;
        let acc = match buf.read_bits(w) {
            Some(a) => a,
            None => {
                proof {
                    let bi = b.skip(i as int);
                    assert(bi.len() > 0);
                    assert(bi.take(chunk_len(bi, 1) as int) == b.subrange(i as int, j as int));
                    assert(!fits(s, pos_before, bits_needed(product(bi.take(chunk_len(bi, 1) as int)))));
                    assert(dec_packed(s, pos_before, bi).is_none());
                    assert(dec_packed(s, p0, b).is_none());
                }
                return None;
            },
        };
        // Split the chunk into its values, last one first.
        let ghost c = b.subrange(i as int, j as int);
        let mut slots: Vec<u32> = Vec::new();
        let mut k: usize = 0;
        while k < j - i
            invariant
                k <= j - i,
                slots@.len() == k,
            decreases j - i - k,
        {
            slots.push(0);
            k = k + 1;
        }
        let mut a: u64 = acc;
        proof {
            assert(c.take((j - i) as int) =~= c);
            assert(slots@.skip((j - i) as int) =~= Seq::<u32>::empty());
            assert(unmix(acc as nat, c) =~= unmix(a as nat, c.take(k as int)) + slots@.skip(k as int));
        }
        while k > 0
            invariant
                k <= j - i,
                i <= j <= b.len(),
                b == bounds@,
                c == b.subrange(i as int, j as int),
                forall|q: int| 0 <= q < b.len() ==> #[trigger] b[q] >= 1,
                slots@.len() == j - i,
                unmix(acc as nat, c) == unmix(a as nat, c.take(k as int)) + slots@.skip(k as int),
            decreases k,
        {
            k = k - 1;
            let d = bounds[i + k] as u64;
            assert(c[k as int] == b[i + k]);
            let ghost old_slots = slots@;
            let ghost old_a = a;
            slots.set(k, (a % d) as u32);
            a = a / d;
            proof {
                assert(c.take(k + 1).drop_last() =~= c.take(k as int));
                assert(slots@.skip(k as int) =~= seq![(old_a % d) as u32] + old_slots.skip(k + 1));
                assert(unmix(old_a as nat, c.take(k + 1)) == unmix(a as nat, c.take(k as int)).push(
                    (old_a % d) as u32,
                ));
                assert(unmix(a as nat, c.take(k as int)).push((old_a % d) as u32) + old_slots.skip(k + 1)
                    =~= unmix(a as nat, c.take(k as int)) + slots@.skip(k as int));
            }
        }
        proof {
            assert(c.take(0) =~= Seq::<u32>::empty());
            assert(slots@.skip(0) =~= slots@);
            assert(unmix(acc as nat, c) =~= slots@);
        }
        let ghost out_before = out@;
        let mut q: usize = 0;
        while q < slots.len()
            invariant
                q <= slots@.len(),
                out@ == out_before + slots@.take(q as int),
            decreases slots@.len() - q,
        {
            out.push(slots[q]);
            q = q + 1;
            assert(out@ =~= out_before + slots@.take(q as int));
        }
        proof {
            assert(slots@.take(slots@.len() as int) =~= slots@);
            let rest = dec_packed(s, buf.pos as int, b.skip(j as int));
            if rest.is_some() {
                assert(out_before + (slots@ + rest.unwrap().0) =~= out@ + rest.unwrap().0);
            }
        }
        i = j;
    }
    proof {
        assert(b.skip(b.len() as int) =~= Seq::<u32>::empty());
        assert(out@ + Seq::<u32>::empty() =~= out@);
    }
    Some(out)
}

proof fn lemma_dec_packed_empty_prefix(s: Seq<bool>, p: int, b: Seq<u32>)
    ensures
        dec_packed(s, p, b) == match dec_packed(s, p, b) {
            None => None,
            Some(r) => Some((Seq::<u32>::empty() + r.0, r.1)),
        },
{
    if let Some(r) = dec_packed(s, p, b) {
        assert(Seq::<u32>::empty() + r.0 =~= r.0);
    }
}

/// A chunk holds at least one bound and no more than there are.
pub proof fn lemma_chunk_len_positive(b: Seq<u32>)
    ensures
        b.len() > 0 ==> chunk_len(b, 1) >= 1,
        chunk_len(b, 1) <= b.len(),
{
    lemma_chunk_len_le(b, 1);
}

proof fn lemma_chunk_len_le(b: Seq<u32>, prod: nat)
    ensures
        chunk_len(b, prod) <= b.len(),
    decreases b.len(),
{
    if b.len() > 0 {
        lemma_chunk_len_le(b.skip(1), prod * b[0] as nat);
    }
}

/// What is emitted from a pending chunk on: that chunk, completed with the bounds that
/// still fit, then the chunks of the rest.
proof fn lemma_emitted_chunk(pv: Seq<u32>, pb: Seq<u32>, v: Seq<u32>, b: Seq<u32>)
    requires
        v.len() == b.len(),
        product(pb) <= u64::MAX,
    ensures
        ({
            let n = chunk_len(b, product(pb));
            &&& n <= b.len()
            &&& emitted(pv, pb, v, b) == chunk_bits(pv + v.take(n as int), pb + b.take(n as int))
                + if n < b.len() {
                emitted(Seq::empty(), Seq::empty(), v.skip(n as int), b.skip(n as int))
            } else {
                Seq::empty()
            }
        }),
    decreases b.len(),
{
    lemma_chunk_len_le(b, product(pb));
    let n = chunk_len(b, product(pb));
    if b.len() == 0 {
        assert(pv + v.take(0) =~= pv);
        assert(pb + b.take(0) =~= pb);
        assert(chunk_bits(pv, pb) + Seq::<bool>::empty() =~= chunk_bits(pv, pb));
    } else if flushes(pb, b[0]) {
        assert(n == 0);
        assert(pv + v.take(0) =~= pv);
        assert(pb + b.take(0) =~= pb);
        assert(v.skip(0) =~= v);
        assert(b.skip(0) =~= b);
    } else {
        assert(product(pb) * b[0] <= u64::MAX) by {
            if pb.len() == 0 {
                assert(product(pb) == 1);
                assert(b[0] <= u32::MAX);
                let x = product(pb);
                assert(x * b[0] == b[0] as int) by (nonlinear_arith)
                    requires
                        x == 1,
                ;
            } else {
                assert(!flushes(pb, b[0]));
            }
        }
        assert(pb.push(b[0]).drop_last() =~= pb);
        lemma_emitted_chunk(pv.push(v[0]), pb.push(b[0]), v.skip(1), b.skip(1));
        let m = chunk_len(b.skip(1), product(pb.push(b[0])));
        assert(n == m + 1);
        assert(pv.push(v[0]) + v.skip(1).take(m as int) =~= pv + v.take(n as int));
        assert(pb.push(b[0]) + b.skip(1).take(m as int) =~= pb + b.take(n as int));
        assert(v.skip(1).skip(m as int) =~= v.skip(n as int));
        assert(b.skip(1).skip(m as int) =~= b.skip(n as int));
    }
}

/// Sub-bit round trip: values `v_i < b_i` packed under positive bounds `b_i` are read back
/// exactly by decoding under the same bounds, whatever stands before and after them.
pub proof fn lemma_packed_round_trip(pre: Seq<bool>, v: Seq<u32>, b: Seq<u32>, rest: Seq<bool>)
    requires
        in_bounds(v, b),
        forall|i: int| 0 <= i < b.len() ==> #[trigger] b[i] >= 1,
    ensures
        dec_packed(pre + packed(v, b) + rest, pre.len() as int, b) == Some(
            (v, (pre.len() + packed(v, b).len()) as int),
        ),
    decreases b.len(),
{
    if b.len() == 0 {
        assert(packed(v, b) == chunk_bits(Seq::empty(), Seq::empty()));
        assert(v =~= Seq::<u32>::empty());
        crate::bits::lemma_pow2_values();
    } else {
        let e = Seq::<u32>::empty();
        lemma_emitted_chunk(e, e, v, b);
        lemma_chunk_len_positive(b);
        let n = chunk_len(b, 1);
        assert(e + v.take(n as int) =~= v.take(n as int));
        assert(e + b.take(n as int) =~= b.take(n as int));
        let (cv, cb) = (v.take(n as int), b.take(n as int));
        assert(in_bounds(cv, cb)) by {
            assert forall|i: int| 0 <= i < cb.len() implies #[trigger] cv[i] < cb[i] by {
                assert(v[i] < b[i]);
            }
        }
        lemma_mixed_bound(cv, cb);
        lemma_product_pos(cb);
        lemma_bits_needed_bound(product(cb));
        let chunk = chunk_bits(cv, cb);
        let w = bits_needed(product(cb));
        let tail = if n < b.len() {
            packed(v.skip(n as int), b.skip(n as int))
        } else {
            Seq::empty()
        };
        assert(packed(v, b) == chunk + tail);
        assert(pre + packed(v, b) + rest =~= pre + chunk + (tail + rest));
        lemma_write_read(pre, mixed(cv, cb), w, tail + rest);
        lemma_unmix_mixed(cv, cb);
        let s = pre + packed(v, b) + rest;
        assert(s =~= (pre + chunk) + tail + rest);
        assert(chunk.len() == w);
        assert(fits(s, pre.len() as int, w));
        assert(field(s, pre.len() as int, w) == mixed(cv, cb));
        assert(unmix(field(s, pre.len() as int, w), cb) == cv);
        if n < b.len() {
            let (rv, rb) = (v.skip(n as int), b.skip(n as int));
            assert(in_bounds(rv, rb)) by {
                assert forall|i: int| 0 <= i < rb.len() implies #[trigger] rv[i] < rb[i] by {
                    assert(v[i + n] < b[i + n]);
                }
            }
            assert forall|i: int| 0 <= i < rb.len() implies #[trigger] rb[i] >= 1 by {
                assert(b[i + n] >= 1);
            }
            lemma_packed_round_trip(pre + chunk, rv, rb, rest);
            assert(cv + rv =~= v);
            assert(tail == packed(rv, rb));
            assert((pre + chunk).len() == pre.len() + w);
            assert(dec_packed(s, (pre.len() + w) as int, rb) == Some((rv, (pre.len() + w + tail.len()) as int)));
        } else {
            assert(b.skip(n as int) =~= Seq::<u32>::empty());
            assert(cv =~= v);
            assert(cv + Seq::<u32>::empty() =~= v);
            assert(tail.len() == 0);
            assert(dec_packed(s, (pre.len() + w) as int, b.skip(n as int)) == Some((Seq::<u32>::empty(), (pre.len() + w) as int)));
        }
    }
}

/// The bits that the bounds need one by one.
pub open spec fn bits_one_by_one(b: Seq<u32>) -> nat
    decreases b.len(),
{
    if b.len() == 0 {
        0
    } else {
        bits_one_by_one(b.drop_last()) + bits_needed(b.last() as nat)
    }
}

/// A count of at most `2^e` values needs at most `e` bits.
proof fn lemma_bits_needed_le(c: nat, e: nat)
    requires
        c <= pow2(e),
    ensures
        bits_needed(c) <= e,
{
    crate::bits::lemma_bits_needed_mono(c, pow2(e));
    crate::bits::lemma_bits_needed_pow2(e);
}

/// The bits a product needs are at most the bits its factors need.
proof fn lemma_bits_needed_mul(x: nat, y: nat)
    ensures
        bits_needed(x * y) <= bits_needed(x) + bits_needed(y),
{
    lemma_bits_needed_bound(x);
    lemma_bits_needed_bound(y);
    vstd::arithmetic::power2::lemma_pow2_adds(bits_needed(x), bits_needed(y));
    let (px, py) = (pow2(bits_needed(x)), pow2(bits_needed(y)));
    assert(x * y <= px * py) by (nonlinear_arith)
        requires
            x <= px,
            y <= py,
    ;
    lemma_bits_needed_le(x * y, bits_needed(x) + bits_needed(y));
}

proof fn lemma_product_concat(a: Seq<u32>, b: Seq<u32>)
    ensures
        product(a + b) == product(a) * product(b),
        bits_one_by_one(a + b) == bits_one_by_one(a) + bits_one_by_one(b),
    decreases b.len(),
{
    if b.len() == 0 {
        assert(a + b =~= a);
        assert(product(b) == 1);
    } else {
        assert((a + b).drop_last() =~= a + b.drop_last());
        assert((a + b).last() == b.last());
        lemma_product_concat(a, b.drop_last());
        let (pa, pb, c) = (product(a), product(b.drop_last()), b.last() as nat);
        assert(product(a + b) == product(a + b.drop_last()) * c);
        assert(product(b) == pb * c);
        assert(pa * pb * c == pa * (pb * c)) by (nonlinear_arith);
    }
}

/// A chunk's product needs no more bits than its bounds one by one.
proof fn lemma_chunk_bits_le(b: Seq<u32>)
    ensures
        bits_needed(product(b)) <= bits_one_by_one(b),
    decreases b.len(),
{
    if b.len() > 0 {
        lemma_chunk_bits_le(b.drop_last());
        lemma_bits_needed_mul(product(b.drop_last()), b.last() as nat);
    } else {
        assert(bits_needed(1) == 0);
    }
}

/// Sub-bit size: packed values take no more bits than their bounds need one by one, and at
/// least the bits that the product of all bounds needs.
pub proof fn lemma_packed_size(v: Seq<u32>, b: Seq<u32>)
    requires
        in_bounds(v, b),
        forall|i: int| 0 <= i < b.len() ==> #[trigger] b[i] >= 1,
    ensures
        packed(v, b).len() <= bits_one_by_one(b),
        bits_needed(product(b)) <= packed(v, b).len(),
    decreases b.len(),
{
    if b.len() == 0 {
        assert(packed(v, b) == chunk_bits(Seq::empty(), Seq::empty()));
        assert(bits_needed(1) == 0);
    } else {
        let e = Seq::<u32>::empty();
        lemma_emitted_chunk(e, e, v, b);
        lemma_chunk_len_positive(b);
        let n = chunk_len(b, 1);
        assert(e + v.take(n as int) =~= v.take(n as int));
        assert(e + b.take(n as int) =~= b.take(n as int));
        let (cb, rb) = (b.take(n as int), b.skip(n as int));
        assert(cb + rb =~= b);
        lemma_product_concat(cb, rb);
        lemma_chunk_bits_le(cb);
        if n < b.len() {
            let rv = v.skip(n as int);
            assert(in_bounds(rv, rb)) by {
                assert forall|i: int| 0 <= i < rb.len() implies #[trigger] rv[i] < rb[i] by {
                    assert(v[i + n] < b[i + n]);
                }
            }
            assert forall|i: int| 0 <= i < rb.len() implies #[trigger] rb[i] >= 1 by {
                assert(b[i + n] >= 1);
            }
            lemma_packed_size(rv, rb);
            lemma_bits_needed_mul(product(cb), product(rb));
        } else {
            assert(rb =~= Seq::<u32>::empty());
            assert(product(rb) == 1);
            assert(bits_one_by_one(rb) == 0);
        }
    }
}

/// Packs `values` under `bounds` and writes them out: exactly `packed(values, bounds)`.
pub fn encode_packed(buf: &mut BitBuf, values: &Vec<u32>, bounds: &Vec<u32>)
    requires
        old(buf).wf(),
        in_bounds(values@, bounds@),
        old(buf).pos + 64 * (bounds@.len() + 1) <= u32::MAX,
    ensures
        final(buf).wf(),
        final(buf)@ == old(buf)@ + packed(values@, bounds@),
        final(buf).pos <= old(buf).pos + 64 * (bounds@.len() + 1),
{
    let ghost (v, b) = (values@, bounds@);
    let mut coder = SubBitEncoder::new();
    let mut i: usize = 0;
    proof {
        assert(v.skip(0) =~= v);
        assert(b.skip(0) =~= b);
        assert(old(buf)@ + packed(v, b) =~= buf@ + emitted(coder.pending@, coder.bounds@, v.skip(0), b.skip(0)));
    }
    while i < values.len()
        invariant
            buf.wf(),
            coder.wf(),
            v == values@,
            b == bounds@,
            in_bounds(v, b),
            i <= v.len(),
            old(buf).pos + 64 * (b.len() + 1) <= u32::MAX,
            buf.pos <= old(buf).pos + 64 * i,
            old(buf)@ + packed(v, b) == buf@ + emitted(coder.pending@, coder.bounds@, v.skip(i as int), b.skip(i as int)),
        decreases v.len() - i,
    {
        let ghost (pv, pb, before) = (coder.pending@, coder.bounds@, buf@);
        assert(v[i as int] < b[i as int]);
        coder.encode(buf, values[i], bounds[i]);
        proof {
            let (vs, bs) = (v.skip(i as int), b.skip(i as int));
            assert(vs[0] == v[i as int] && bs[0] == b[i as int]);
            assert(vs.skip(1) =~= v.skip(i + 1));
            assert(bs.skip(1) =~= b.skip(i + 1));
            assert(vs.len() > 0 && bs.len() > 0);
            if flushes(pb, b[i as int]) {
                assert(emitted(pv, pb, vs, bs) == chunk_bits(pv, pb) + emitted(Seq::empty(), Seq::empty(), vs, bs));
                assert(emitted(Seq::empty(), Seq::empty(), vs, bs) == emitted(seq![v[i as int]], seq![b[i as int]], vs.skip(1), bs.skip(1))) by {
                    assert(Seq::<u32>::empty().push(v[i as int]) =~= seq![v[i as int]]);
                    assert(Seq::<u32>::empty().push(b[i as int]) =~= seq![b[i as int]]);
                }
                assert(before + emitted(pv, pb, vs, bs) =~= buf@ + emitted(coder.pending@, coder.bounds@, v.skip(i + 1), b.skip(i + 1)));
            } else {
                assert(emitted(pv, pb, vs, bs) == emitted(pv.push(vs[0]), pb.push(bs[0]), vs.skip(1), bs.skip(1)));
            }
        }
        i = i + 1;
    }
    proof {
        assert(v.skip(i as int) =~= Seq::<u32>::empty());
        assert(b.skip(i as int) =~= Seq::<u32>::empty());
    }
    coder.flush(buf);
}

/// Sub-bit round trip over the calls: where `encode_packed(values, bounds)` appended to what
/// stood before, `decode_sub_bit_stream` with the same bounds at that place of the buffer's
/// bytes returns the values.
pub proof fn lemma_buffer_packed_round_trip(w: BitBuf, pre: Seq<bool>, v: Seq<u32>, b: Seq<u32>)
    requires
        w.wf(),
        w@ == pre + packed(v, b),
        in_bounds(v, b),
    ensures
        dec_packed(crate::bits::stream_of(w.buf@), pre.len() as int, b) == Some((v, (pre.len() + packed(v, b).len()) as int)),
        pre.len() + packed(v, b).len() == w.pos,
{
    w.lemma_stream();
    assert forall|i: int| 0 <= i < b.len() implies #[trigger] b[i] >= 1 by {
        assert(v[i] < b[i]);
    }
    lemma_packed_round_trip(pre, v, b, crate::bits::zeros((crate::bits::stream_of(w.buf@).len() - w.pos) as nat));
}

} // verus!
