//! A multi-tap delay line: a fixed-capacity circular sample history, an
//! ordered registry of read heads, per-head interpolation, and output mixing.
//!
//! Samples and gains are Q16.16 fixed point (`65536` stands for `1.0`), head
//! offsets are Q16.16 fractional sample distances, and every rescaling step
//! rounds toward negative infinity.

use vstd::prelude::*;
use vstd::arithmetic::div_mod::lemma_div_is_ordered;
use vstd::arithmetic::div_mod::lemma_div_multiples_vanish;
use vstd::arithmetic::div_mod::lemma_div_of0;
use vstd::arithmetic::div_mod::lemma_div_pos_is_pos;
use vstd::arithmetic::div_mod::lemma_multiply_divide_lt;
use crate::math::div_floor_i128;
use crate::math::isqrt;
use crate::math::sqrt_floor;
use crate::math::x_fade;
use crate::math::xfade;

verus! {

/// Largest sample magnitude the delay buffer stores (2^32 fixed-point steps,
/// an amplitude of 65536.0).
pub const SAMPLE_LIMIT: i64 = 0x1_0000_0000;

/// Largest gain magnitude a read head carries (2^24 fixed-point steps, a
/// gain of 256.0).
pub const GAIN_LIMIT: i64 = 0x100_0000;

/// Largest magnitude of a single head's contribution before mixing.
pub const HEAD_LIMIT: i64 = 0x1_0000_0000_0000;

/// Most read heads one delay line can carry at a time.
pub const MAX_HEADS: usize = 1024;

/// Largest buffer capacity, in samples.
pub const MAX_CAPACITY: usize = 0x7fff_ffff;

/// Fixed-capacity circular sample history with a write cursor. The newest
/// sample sits at the cursor; older samples follow it upward, wrapping.
pub struct DelayBuffer {
    samples: Vec<i64>,
    cursor: usize,
}

impl DelayBuffer {
    /// Number of samples of history the buffer holds; fixed at construction.
    pub closed spec fn cap(&self) -> int {
        self.samples@.len() as int
    }

    /// The stored history as a sequence, newest write first.
    pub closed spec fn hist(&self) -> Seq<int> {
        Seq::new(
            self.samples@.len(),
            |j: int|
                if self.cursor + j < self.cap() {
                    self.samples@[self.cursor + j] as int
                } else {
                    self.samples@[self.cursor + j - self.cap()] as int
                },
        )
    }

    /// The cursor stays inside the buffer and every stored sample stays
    /// inside the sample range.
    pub closed spec fn wf(&self) -> bool {
        &&& 1 <= self.cap() <= MAX_CAPACITY as int
        &&& (self.cursor as int) < self.cap()
        &&& forall|j: int|
            0 <= j < self.cap() ==> -SAMPLE_LIMIT <= #[trigger] self.samples@[j] <= SAMPLE_LIMIT
    }

    /// Builds an all-zero history of `capacity` samples.
    pub fn construct(capacity: usize) -> (r: DelayBuffer)
        requires
            1 <= capacity <= MAX_CAPACITY,
        ensures
            r.wf(),
            r.cap() == capacity,
            forall|j: int| 0 <= j < capacity ==> r.hist()[j] == 0,
    {
        let mut samples: Vec<i64> = Vec::new();
        let mut i: usize = 0;
        while i < capacity
            invariant
                i <= capacity,
                samples@.len() == i,
                forall|j: int| 0 <= j < i ==> samples@[j] == 0,
            decreases capacity - i,
        {
            samples.push(0);
            i = i + 1;
        }
        DelayBuffer { samples, cursor: 0 }
    }

    /// The sample written `index` ticks before the newest write.
    pub fn read_at(&self, index: usize) -> (r: i64)
        requires
            self.wf(),
            (index as int) < self.cap(),
        ensures
            r == self.hist()[index as int],
            -SAMPLE_LIMIT <= r <= SAMPLE_LIMIT,
    {
        let cap = self.samples.len();
        let i = if index < cap - self.cursor {
            self.cursor + index
        } else {
            index - (cap - self.cursor)
        };
        self.samples[i]
    }

    /// Inserts `sample` as the newest entry and evicts the oldest.
    pub fn write_and_advance(&mut self, sample: i64)
        requires
            old(self).wf(),
            -SAMPLE_LIMIT <= sample <= SAMPLE_LIMIT,
        ensures
            final(self).wf(),
            final(self).cap() == old(self).cap(),
            final(self).hist() == seq![sample as int] + old(self).hist().take(old(self).cap() - 1),
    {
        let cap = self.samples.len();
        let new_cursor = if self.cursor == 0 {
            cap - 1
        } else {
            self.cursor - 1
        };
        self.samples.set(new_cursor, sample);
        self.cursor = new_cursor;
        proof {
            let target = seq![sample as int] + old(self).hist().take(old(self).cap() - 1);
            assert forall|j: int| 0 <= j < self.cap() implies self.hist()[j] == target[j] by {
                if j > 0 {
                    assert(target[j] == old(self).hist()[j - 1]);
                }
            }
            assert(self.hist() =~= target);
        }
    }
}

/// Interpolation policy: how a value is reconstructed at a fractional
/// buffer offset.
#[derive(Clone, Copy)]
pub enum InterpMethod {
    Truncate,
    NearestNeighbor,
    Linear,
}

/// Mixing policy: the normalization divisor applied to the summed head
/// outputs.
#[derive(Clone, Copy)]
pub enum MixMethod {
    Sum,
    Sqrt,
    Average,
}

/// One tap into the delay buffer: a fractional sample offset and a playback
/// gain, both Q16.16.
#[derive(Clone, Copy)]
pub struct ReadHead {
    pub offset: u64,
    pub gain: i64,
}

/// A time offset in Q16.16 milliseconds converted to Q16.16 samples at
/// `sr` hertz.
pub open spec fn ms_to_samples(ms: int, sr: int) -> int {
    ms * sr / 1000
}

/// The buffer capacity implied by a duration and a sample rate: the whole
/// number of delayed samples the duration covers, plus one slot for the
/// newest write.
pub open spec fn capacity_for(size_ms: int, sr: int) -> int {
    size_ms * sr / 1000 / 65536 + 1
}

/// The value one head contributes before mixing: the history `h` (newest
/// first) reconstructed at the head's offset under `interp`, scaled by the
/// head's gain.
pub open spec fn head_value(h: Seq<int>, head: ReadHead, interp: InterpMethod) -> int {
    match interp {
        InterpMethod::Truncate => h[head.offset as int / 65536] * head.gain / 65536,
        InterpMethod::NearestNeighbor => h[(head.offset as int + 32768) / 65536] * head.gain
            / 65536,
        InterpMethod::Linear => {
            let i = head.offset as int / 65536;
            let t = head.offset as int % 65536;
            xfade(h[i], t, h[i + 1]) * head.gain / 65536
        },
    }
}

/// The sum of the contributions of the first `n` heads.
pub open spec fn heads_sum(h: Seq<int>, heads: Seq<ReadHead>, interp: InterpMethod, n: int) -> int
    decreases n,
{
    if n <= 0 {
        0
    } else {
        heads_sum(h, heads, interp, n - 1) + head_value(h, heads[n - 1], interp)
    }
}

/// The mixed output for a head sum over `n` active heads: the sum divided
/// by the policy's normalization divisor, and zero when no head is active.
pub open spec fn mixed(sum: int, n: int, mix: MixMethod) -> int {
    if n <= 0 {
        0
    } else {
        match mix {
            MixMethod::Sum => sum,
            MixMethod::Sqrt => sum * 65536 / (sqrt_floor((n * 0x1_0000_0000) as nat) as int),
            MixMethod::Average => sum / n,
        }
    }
}

/// Scales a value by a Q16.16 gain, rescaling with a floor division.
fn scale_q16(v: i64, g: i64) -> (r: i64)
    requires
        -0x100_0000_0000 <= v <= 0x100_0000_0000,
        -GAIN_LIMIT <= g <= GAIN_LIMIT,
    ensures
        r == v as int * g as int / 65536,
        -HEAD_LIMIT <= r <= HEAD_LIMIT,
{
    proof {
        assert((-0x1_0000_0000_0000) * 65536int <= v as int * g as int <= 0x1_0000_0000_0000
            * 65536int) by (nonlinear_arith)
            requires
                -0x100_0000_0000 <= v as int <= 0x100_0000_0000,
                -0x100_0000 <= g as int <= 0x100_0000,
        ;
    }
    let p: i128 = (v as i128) * (g as i128);
    let q: i128 = div_floor_i128(p, 65536);
    proof {
        lemma_div_is_ordered((-0x1_0000_0000_0000) * 65536int, p as int, 65536);
        lemma_div_is_ordered(p as int, 0x1_0000_0000_0000 * 65536int, 65536);
        lemma_div_multiples_vanish(-0x1_0000_0000_0000, 65536);
        lemma_div_multiples_vanish(0x1_0000_0000_0000, 65536);
    }
    q as i64
}

/// Reads one head from the buffer under `interp` and applies its gain.
fn sample_head(buffer: &DelayBuffer, head: ReadHead, interp: InterpMethod) -> (r: i64)
    requires
        buffer.wf(),
        (head.offset as int) < (buffer.cap() - 1) * 65536,
        -GAIN_LIMIT <= head.gain <= GAIN_LIMIT,
    ensures
        r == head_value(buffer.hist(), head, interp),
        -HEAD_LIMIT <= r <= HEAD_LIMIT,
{
    match interp {
        InterpMethod::Truncate => {
            proof {
                lemma_multiply_divide_lt(head.offset as int, 65536, buffer.cap());
            }
            let idx = (head.offset / 65536) as usize;
            let v = buffer.read_at(idx);
            scale_q16(v, head.gain)
        },
        InterpMethod::NearestNeighbor => {
            proof {
                lemma_multiply_divide_lt(head.offset as int + 32768, 65536, buffer.cap());
            }
            let idx = ((head.offset + 32768) / 65536) as usize;
            let v = buffer.read_at(idx);
            scale_q16(v, head.gain)
        },
        InterpMethod::Linear => {
            proof {
                lemma_multiply_divide_lt(head.offset as int, 65536, buffer.cap() - 1);
            }
            let idx = (head.offset / 65536) as usize;
            let t = (head.offset % 65536) as i64;
            let lo = buffer.read_at(idx);
            let hi = buffer.read_at(idx + 1);
            let xf = x_fade(lo, t, hi);
            scale_q16(xf, head.gain)
        },
    }
}

/// A multi-tap delay line: one circular buffer, an ordered head registry,
/// and the interpolation and mixing policies fixed at construction.
pub struct DelayLine {
    buffer: DelayBuffer,
    sample_rate: u32,
    heads: Vec<ReadHead>,
    interp_mode: InterpMethod,
    mix_mode: MixMethod,
}

impl DelayLine {
    /// The buffer capacity in samples.
    pub closed spec fn cap(&self) -> int {
        self.buffer.cap()
    }

    /// The stored history, newest write first.
    pub closed spec fn hist(&self) -> Seq<int> {
        self.buffer.hist()
    }

    /// The registry of read heads, in positional order.
    pub closed spec fn heads(&self) -> Seq<ReadHead> {
        self.heads@
    }

    /// The sample rate in hertz.
    pub closed spec fn sr(&self) -> int {
        self.sample_rate as int
    }

    /// The interpolation policy.
    pub closed spec fn interp(&self) -> InterpMethod {
        self.interp_mode
    }

    /// The mixing policy.
    pub closed spec fn mix(&self) -> MixMethod {
        self.mix_mode
    }

    /// A head is in range for this line: its offset stays strictly below
    /// `cap - 1` samples, so that interpolation never reads past the oldest
    /// stored sample, and its gain stays inside the gain range.
    pub open spec fn head_ok(&self, head: ReadHead) -> bool {
        &&& (head.offset as int) < (self.cap() - 1) * 65536
        &&& -GAIN_LIMIT <= head.gain <= GAIN_LIMIT
    }

    /// Well-formedness: the buffer is well-formed, the rate is nonzero, and
    /// every registered head is in range.
    pub closed spec fn wf(&self) -> bool {
        &&& self.buffer.wf()
        &&& self.sample_rate >= 1
        &&& self.heads@.len() <= MAX_HEADS
        &&& forall|k: int| 0 <= k < self.heads@.len() ==> self.head_ok(#[trigger] self.heads@[k])
    }

    /// Creates a delay line able to hold `size_ms` (Q16.16 milliseconds) of
    /// history at `sample_rate` hertz, with no heads and an all-zero buffer.
    pub fn new(size_ms: u64, sample_rate: u32, interp: InterpMethod, mix: MixMethod) -> (r:
        DelayLine)
        requires
            1 <= size_ms <= 0xffff_ffff,
            1 <= sample_rate,
            capacity_for(size_ms as int, sample_rate as int) <= MAX_CAPACITY as int,
        ensures
            r.wf(),
            r.cap() == capacity_for(size_ms as int, sample_rate as int),
            r.sr() == sample_rate as int,
            r.heads() == Seq::<ReadHead>::empty(),
            r.interp() == interp,
            r.mix() == mix,
            forall|j: int| 0 <= j < r.cap() ==> r.hist()[j] == 0,
    {
        proof {
            assert(size_ms as int * sample_rate as int <= 0xffff_ffff * 0xffff_ffffint)
                by (nonlinear_arith)
                requires
                    1 <= size_ms as int <= 0xffff_ffff,
                    1 <= sample_rate as int <= 0xffff_ffff,
            ;
        }
        let prod: u64 = size_ms * (sample_rate as u64);
        let cap64: u64 = prod / 1000 / 65536 + 1;
        let buffer = DelayBuffer::construct(cap64 as usize);
        DelayLine {
            buffer,
            sample_rate,
            heads: Vec::new(),
            interp_mode: interp,
            mix_mode: mix,
        }
    }

    /// Number of samples of history the line holds.
    pub fn capacity(&self) -> (n: usize)
        ensures
            n == self.cap(),
    {
        self.buffer.samples.len()
    }

    /// The sample rate the line was built with.
    pub fn sample_rate(&self) -> (sr: u32)
        ensures
            sr == self.sr(),
    {
        self.sample_rate
    }

    /// Number of active read heads.
    pub fn head_count(&self) -> (n: usize)
        ensures
            n == self.heads().len(),
    {
        self.heads.len()
    }

    /// Appends a read head reading `offset_ms` (Q16.16 milliseconds) behind
    /// the newest write at gain `gain`, and returns its positional index.
    pub fn add_head(&mut self, offset_ms: u64, gain: i64) -> (idx: usize)
        requires
            old(self).wf(),
            old(self).heads().len() < MAX_HEADS,
            ms_to_samples(offset_ms as int, old(self).sr()) < (old(self).cap() - 1) * 65536,
            -GAIN_LIMIT <= gain <= GAIN_LIMIT,
        ensures
            final(self).wf(),
            idx == old(self).heads().len(),
            final(self).heads() == old(self).heads().push(
                (ReadHead {
                    offset: ms_to_samples(offset_ms as int, old(self).sr()) as u64,
                    gain: gain,
                }),
            ),
            final(self).hist() == old(self).hist(),
            final(self).cap() == old(self).cap(),
            final(self).sr() == old(self).sr(),
            final(self).interp() == old(self).interp(),
            final(self).mix() == old(self).mix(),
    {
        proof {
            assert(offset_ms as int * (self.sample_rate as int) <= 0xffff_ffff_ffff_ffff
                * 0xffff_ffffint) by (nonlinear_arith)
                requires
                    0 <= offset_ms as int <= 0xffff_ffff_ffff_ffff,
                    0 <= self.sample_rate as int <= 0xffff_ffff,
            ;
        }
        let off128: u128 = (offset_ms as u128) * (self.sample_rate as u128) / 1000;
        let offset = off128 as u64;
        self.heads.push(ReadHead { offset, gain });
        self.heads.len() - 1
    }

    /// Removes the head at `index`; every later head shifts down one
    /// position. Returns whether the head existed; an out-of-range index
    /// changes nothing.
    pub fn remove_head(&mut self, index: usize) -> (existed: bool)
        requires
            old(self).wf(),
        ensures
            final(self).wf(),
            existed == (index < old(self).heads().len()),
            index < old(self).heads().len() ==> final(self).heads() == old(self).heads().remove(
                index as int,
            ),
            index >= old(self).heads().len() ==> *final(self) == *old(self),
            final(self).hist() == old(self).hist(),
            final(self).cap() == old(self).cap(),
            final(self).sr() == old(self).sr(),
            final(self).interp() == old(self).interp(),
            final(self).mix() == old(self).mix(),
    {
        if index < self.heads.len() {
            self.heads.remove(index);
            true
        } else {
            false
        }
    }

    /// Retunes the head at `index` to read `offset_ms` (Q16.16 milliseconds)
    /// behind the newest write; positions do not shift. Returns whether the
    /// head existed; an out-of-range index changes nothing.
    pub fn set_offset(&mut self, index: usize, offset_ms: u64) -> (existed: bool)
        requires
            old(self).wf(),
            ms_to_samples(offset_ms as int, old(self).sr()) < (old(self).cap() - 1) * 65536,
        ensures
            final(self).wf(),
            existed == (index < old(self).heads().len()),
            index < old(self).heads().len() ==> final(self).heads() == old(self).heads().update(
                index as int,
                (ReadHead {
                    offset: ms_to_samples(offset_ms as int, old(self).sr()) as u64,
                    gain: old(self).heads()[index as int].gain,
                }),
            ),
            index >= old(self).heads().len() ==> *final(self) == *old(self),
            final(self).hist() == old(self).hist(),
            final(self).cap() == old(self).cap(),
            final(self).sr() == old(self).sr(),
            final(self).interp() == old(self).interp(),
            final(self).mix() == old(self).mix(),
    {
        if index < self.heads.len() {
            let gain = self.heads[index].gain;
            proof {
                assert(offset_ms as int * (self.sample_rate as int) <= 0xffff_ffff_ffff_ffff
                    * 0xffff_ffffint) by (nonlinear_arith)
                    requires
                        0 <= offset_ms as int <= 0xffff_ffff_ffff_ffff,
                        0 <= self.sample_rate as int <= 0xffff_ffff,
                ;
            }
            let off128: u128 = (offset_ms as u128) * (self.sample_rate as u128) / 1000;
            let offset = off128 as u64;
            self.heads.set(index, ReadHead { offset, gain });
            true
        } else {
            false
        }
    }

    /// One sample tick: every head reads the pre-write history, the head
    /// outputs are mixed, the buffer advances with `write`, and the mixed
    /// value is returned. A head at offset zero therefore observes the
    /// previous tick's sample, never `write` itself.
    pub fn read_write(&mut self, write: i64) -> (r: i64)
        requires
            old(self).wf(),
            -SAMPLE_LIMIT <= write <= SAMPLE_LIMIT,
        ensures
            final(self).wf(),
            r == mixed(
                heads_sum(
                    old(self).hist(),
                    old(self).heads(),
                    old(self).interp(),
                    old(self).heads().len() as int,
                ),
                old(self).heads().len() as int,
                old(self).mix(),
            ),
            old(self).heads().len() == 0 ==> r == 0,
            final(self).hist() == seq![write as int] + old(self).hist().take(old(self).cap() - 1),
            final(self).heads() == old(self).heads(),
            final(self).cap() == old(self).cap(),
            final(self).sr() == old(self).sr(),
            final(self).interp() == old(self).interp(),
            final(self).mix() == old(self).mix(),
    {
        let ghost h = self.hist();
        let n = self.heads.len();
        let mut acc: i128 = 0;
        let mut k: usize = 0;
        while k < n
            invariant
                *self == *old(self),
                self.wf(),
                n == self.heads@.len(),
                k <= n,
                h == self.hist(),
                acc == heads_sum(h, self.heads@, self.interp_mode, k as int),
                -(k as int) * (HEAD_LIMIT as int) <= acc <= (k as int) * (HEAD_LIMIT as int),
            decreases n - k,
        {
            let head = self.heads[k];
            let v = sample_head(&self.buffer, head, self.interp_mode);
            acc = acc + (v as i128);
            k = k + 1;
        }
        let out: i64;
        if n == 0 {
            out = 0;
        } else {
            proof {
                assert(-(n as int) * (HEAD_LIMIT as int) >= (-0x400) * 0x1_0000_0000_0000int);
                assert((n as int) * (HEAD_LIMIT as int) <= 0x400 * 0x1_0000_0000_0000int);
            }
            match self.mix_mode {
                MixMethod::Sum => {
                    out = acc as i64;
                },
                MixMethod::Sqrt => {
                    let d: u64 = isqrt((n as u64) * 0x1_0000_0000);
                    proof {
                        if d < 65536 {
                            assert((d + 1) * (d + 1) <= 65536 * 65536int) by (nonlinear_arith)
                                requires
                                    d + 1 <= 65536,
                            ;
                        }
                        assert(d >= 65536);
                    }
                    let num: i128 = acc * 65536;
                    let q: i128 = div_floor_i128(num, d);
                    proof {
                        let m: int = 0x400 * 0x1_0000_0000_0000int;
                        assert(num as int >= (-m) * (d as int)) by (nonlinear_arith)
                            requires
                                num as int == acc as int * 65536,
                                -m <= acc as int,
                                65536 <= d as int,
                                m == 0x400 * 0x1_0000_0000_0000int,
                        ;
                        assert(num as int <= m * (d as int)) by (nonlinear_arith)
                            requires
                                num as int == acc as int * 65536,
                                acc as int <= m,
                                65536 <= d as int,
                                m == 0x400 * 0x1_0000_0000_0000int,
                        ;
                        lemma_div_is_ordered((-m) * (d as int), num as int, d as int);
                        lemma_div_is_ordered(num as int, m * (d as int), d as int);
                        lemma_div_multiples_vanish(-m, d as int);
                        lemma_div_multiples_vanish(m, d as int);
                        assert((-m) * (d as int) == (d as int) * (-m)) by (nonlinear_arith);
                        assert(m * (d as int) == (d as int) * m) by (nonlinear_arith);
                    }
                    out = q as i64;
                },
                MixMethod::Average => {
                    let q: i128 = div_floor_i128(acc, n as u64);
                    proof {
                        let m: int = 0x400 * 0x1_0000_0000_0000int;
                        assert(acc as int >= (-m) * (n as int)) by (nonlinear_arith)
                            requires
                                -(n as int) * (HEAD_LIMIT as int) <= acc as int,
                                1 <= n as int <= 0x400,
                                HEAD_LIMIT as int == 0x1_0000_0000_0000,
                                m == 0x400 * 0x1_0000_0000_0000int,
                        ;
                        assert(acc as int <= m * (n as int)) by (nonlinear_arith)
                            requires
                                acc as int <= (n as int) * (HEAD_LIMIT as int),
                                1 <= n as int <= 0x400,
                                HEAD_LIMIT as int == 0x1_0000_0000_0000,
                                m == 0x400 * 0x1_0000_0000_0000int,
                        ;
                        lemma_div_is_ordered((-m) * (n as int), acc as int, n as int);
                        lemma_div_is_ordered(acc as int, m * (n as int), n as int);
                        lemma_div_multiples_vanish(-m, n as int);
                        lemma_div_multiples_vanish(m, n as int);
                        assert((-m) * (n as int) == (n as int) * (-m)) by (nonlinear_arith);
                        assert(m * (n as int) == (n as int) * m) by (nonlinear_arith);
                    }
                    out = q as i64;
                },
            }
        }
        self.buffer.write_and_advance(write);
        out
    }
}

/// Latency law: one head at offset zero with unit gain, read under Truncate
/// interpolation, mixes — under every policy — to exactly the newest sample
/// already stored. Together with the history update of `read_write`, the
/// line's output is the sample written on the previous tick, never the one
/// being written.
pub proof fn lemma_latency_one_head(h: Seq<int>, mix: MixMethod)
    requires
        h.len() >= 1,
    ensures
        mixed(
            heads_sum(h, seq![(ReadHead { offset: 0, gain: 65536 })], InterpMethod::Truncate, 1),
            1,
            mix,
        ) == h[0],
{
    let head = ReadHead { offset: 0, gain: 65536 };
    assert(head_value(h, head, InterpMethod::Truncate) == h[0] * 65536 / 65536);
    assert(h[0] * 65536 == 65536 * h[0]);
    lemma_div_multiples_vanish(h[0], 65536);
    let s = heads_sum(h, seq![head], InterpMethod::Truncate, 1);
    assert(heads_sum(h, seq![head], InterpMethod::Truncate, 0) == 0);
    assert(s == h[0]);
    match mix {
        MixMethod::Sum => {
        },
        MixMethod::Sqrt => {
            assert(65536 * 65536nat == 0x1_0000_0000nat) by (nonlinear_arith);
            assert(65537 * 65537nat > 0x1_0000_0000nat) by (nonlinear_arith);
            crate::math::lemma_sqrt_floor_unique(0x1_0000_0000nat, 65536nat);
            assert(s * 65536 == 65536 * s);
            lemma_div_multiples_vanish(s, 65536);
        },
        MixMethod::Average => {
            assert(s == 1 * s);
            lemma_div_multiples_vanish(s, 1);
        },
    }
}

/// Renumbering law: after the head at position `i` is removed, a head that
/// stood at a later position `j` stands at `j - 1`.
pub proof fn lemma_remove_renumbers(heads: Seq<ReadHead>, i: int, j: int)
    requires
        0 <= i < j < heads.len(),
    ensures
        heads.remove(i)[j - 1] == heads[j],
{
}

/// Every head contributing the same value `v` makes the head sum `n * v`.
pub proof fn lemma_identical_heads_sum(
    h: Seq<int>,
    heads: Seq<ReadHead>,
    interp: InterpMethod,
    v: int,
    n: int,
)
    requires
        0 <= n <= heads.len(),
        forall|k: int| 0 <= k < heads.len() ==> head_value(h, #[trigger] heads[k], interp) == v,
    ensures
        heads_sum(h, heads, interp, n) == n * v,
    decreases n,
{
    if n <= 0 {
        assert(n * v == 0) by (nonlinear_arith)
            requires
                n == 0,
        ;
    } else {
        lemma_identical_heads_sum(h, heads, interp, v, n - 1);
        assert((n - 1) * v + v == n * v) by (nonlinear_arith);
    }
}

/// Mixer normalization law for Sum and Average: `n` identical heads each
/// contributing `v` mix to `n * v` under Sum and to `v` itself under
/// Average.
pub proof fn lemma_mixer_normalization(
    h: Seq<int>,
    heads: Seq<ReadHead>,
    interp: InterpMethod,
    v: int,
)
    requires
        heads.len() >= 1,
        forall|k: int| 0 <= k < heads.len() ==> head_value(h, #[trigger] heads[k], interp) == v,
    ensures
        mixed(
            heads_sum(h, heads, interp, heads.len() as int),
            heads.len() as int,
            MixMethod::Sum,
        ) == heads.len() * v,
        mixed(
            heads_sum(h, heads, interp, heads.len() as int),
            heads.len() as int,
            MixMethod::Average,
        ) == v,
{
    let n = heads.len() as int;
    lemma_identical_heads_sum(h, heads, interp, v, n);
    lemma_div_multiples_vanish(v, n);
}

/// Mixer normalization law for Sqrt on a perfect-square head count:
/// `k * k` identical heads each contributing `v` mix to `k * v`, the exact
/// fixed-point image of `v` times the square root of the head count.
pub proof fn lemma_mixer_sqrt_normalization(
    h: Seq<int>,
    heads: Seq<ReadHead>,
    interp: InterpMethod,
    v: int,
    k: int,
)
    requires
        1 <= k,
        heads.len() == k * k,
        forall|j: int| 0 <= j < heads.len() ==> head_value(h, #[trigger] heads[j], interp) == v,
    ensures
        mixed(
            heads_sum(h, heads, interp, heads.len() as int),
            heads.len() as int,
            MixMethod::Sqrt,
        ) == k * v,
{
    let n = heads.len() as int;
    lemma_identical_heads_sum(h, heads, interp, v, n);
    let d = k * 65536;
    assert(d * d == n * 0x1_0000_0000) by (nonlinear_arith)
        requires
            n == k * k,
            d == k * 65536,
    ;
    assert((d + 1) * (d + 1) > n * 0x1_0000_0000) by (nonlinear_arith)
        requires
            n == k * k,
            d == k * 65536,
            k >= 1,
    ;
    crate::math::lemma_sqrt_floor_unique((n * 0x1_0000_0000) as nat, d as nat);
    assert((n * v) * 65536 == d * (k * v)) by (nonlinear_arith)
        requires
            n == k * k,
            d == k * 65536,
    ;
    lemma_div_multiples_vanish(k * v, d);
}

/// With unit gain, a Linear head's contribution is exactly the crossfade of
/// the two samples around its offset, weighted by the offset's fractional
/// part; how that crossfade varies linearly in the fraction is stated by
/// the crossfade laws of the scalar-math module.
pub proof fn lemma_linear_head_crossfades(h: Seq<int>, head: ReadHead)
    requires
        head.gain == 65536,
    ensures
        head_value(h, head, InterpMethod::Linear) == xfade(
            h[head.offset as int / 65536],
            head.offset as int % 65536,
            h[head.offset as int / 65536 + 1],
        ),
{
    let xf = xfade(
        h[head.offset as int / 65536],
        head.offset as int % 65536,
        h[head.offset as int / 65536 + 1],
    );
    assert(xf * 65536 == 65536 * xf);
    lemma_div_multiples_vanish(xf, 65536);
}

/// Silence law: over an all-zero history every in-range head contributes
/// zero, and every mixing policy returns zero. With the history update of
/// `read_write`, a silent line fed zeroes stays silent forever.
pub proof fn lemma_silence(h: Seq<int>, heads: Seq<ReadHead>, interp: InterpMethod, mix: MixMethod)
    requires
        h.len() >= 1,
        forall|j: int| 0 <= j < h.len() ==> h[j] == 0,
        forall|k: int|
            0 <= k < heads.len() ==> (#[trigger] heads[k].offset as int) < (h.len() - 1) * 65536,
    ensures
        heads_sum(h, heads, interp, heads.len() as int) == 0,
        mixed(heads_sum(h, heads, interp, heads.len() as int), heads.len() as int, mix) == 0,
{
    let n = heads.len() as int;
    assert forall|k: int| 0 <= k < n implies head_value(h, #[trigger] heads[k], interp) == 0 by {
        let off = heads[k].offset as int;
        lemma_div_pos_is_pos(off, 65536);
        lemma_div_pos_is_pos(off + 32768, 65536);
        lemma_multiply_divide_lt(off, 65536, h.len() - 1);
        lemma_multiply_divide_lt(off + 32768, 65536, h.len() as int);
        match interp {
            InterpMethod::Truncate => {
                assert(h[off / 65536] == 0);
                lemma_div_of0(65536);
            },
            InterpMethod::NearestNeighbor => {
                assert(h[(off + 32768) / 65536] == 0);
                lemma_div_of0(65536);
            },
            InterpMethod::Linear => {
                let i = off / 65536;
                let t = off % 65536;
                assert(h[i] == 0 && h[i + 1] == 0);
                assert(xfade(0, t, 0) == 0) by {
                    lemma_div_of0(65536);
                }
                lemma_div_of0(65536);
            },
        }
    }
    lemma_identical_heads_sum(h, heads, interp, 0, n);
    assert(n * 0 == 0) by (nonlinear_arith);
    if n >= 1 {
        match mix {
            MixMethod::Sum => {
            },
            MixMethod::Sqrt => {
                crate::math::lemma_sqrt_floor_bracket((n * 0x1_0000_0000) as nat);
                let d = crate::math::sqrt_floor((n * 0x1_0000_0000) as nat) as int;
                if d < 1 {
                    assert((d + 1) * (d + 1) <= 1) by (nonlinear_arith)
                        requires
                            0 <= d < 1,
                    ;
                    assert(n * 0x1_0000_0000 >= 0x1_0000_0000);
                    assert(false);
                }
                lemma_div_of0(d);
            },
            MixMethod::Average => {
                lemma_div_of0(n);
            },
        }
    }
}

} // verus!
