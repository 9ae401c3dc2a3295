//! V.21 continuous-phase FSK in fixed-point arithmetic.
//!
//! Phase is held as a 32-bit binary angle (a full turn is `2^32`), so the
//! wrap-around that keeps the accumulator bounded is exact modular
//! arithmetic and no precision is lost however long the stream runs.
//! Audio amplitudes are Q15 fixed point: a full-scale tone spans
//! -32767..=32767.
//!
//! `V21TX` turns bit-samples into such a tone, advancing one phase
//! accumulator by the mark or space increment each sample and never
//! resetting it, which is exactly the continuous-phase property.  `V21RX`
//! recovers one hard bit decision per sample with a bank of four sliding
//! correlators (sine and cosine of each tone over the last symbol), a
//! short moving average of the envelope-power difference of the two
//! tones, and a slicer that leans ambiguous samples toward space so that
//! start bits never come out too short for the deframer to confirm.

use vstd::prelude::*;

verus! {

/// A quarter wave of the sine approximation: `sin((pi/2) * (t / 32768))`
/// in Q15, for `t` in `0..=32767`, by an odd fifth-order polynomial,
/// clamped into `0..=32767`.
pub open spec fn sin_quarter(t: int) -> int {
    let t2 = (t * t) / 32768;
    let u = (t2 * 2611) / 32768;
    let w = (t2 * (21167 - u)) / 32768;
    let p = ((51472 - w) * t) / 32768;
    if p > 32767 {
        32767
    } else if p < 0 {
        0
    } else {
        p
    }
}

/// Q15 sine of a 32-bit binary angle, by quarter-wave symmetry around
/// `sin_quarter`.
pub open spec fn sin_bam(bam: int) -> int {
    let quad = bam / 1073741824;
    let t = (bam % 1073741824) / 32768;
    let tq = if quad == 1 || quad == 3 {
        32767 - t
    } else {
        t
    };
    let mag = sin_quarter(tq);
    if quad == 2 || quad == 3 {
        -mag
    } else {
        mag
    }
}

/// Q15 sine of a 32-bit binary angle.
fn sin_q15(bam: u32) -> (r: i32)
    ensures
        r as int == sin_bam(bam as int),
        -32767 <= r <= 32767,
{
    let quad = bam / 1073741824;
    let t64: u64 = ((bam % 1073741824) / 32768) as u64;
    let tq: u64 = if quad == 1 || quad == 3 {
        32767 - t64
    } else {
        t64
    };
    proof {
        assert(tq * tq <= 32767 * 32767) by (nonlinear_arith)
            requires
                0 <= tq <= 32767,
        ;
    }
    let t2 = (tq * tq) / 32768;
    proof {
        vstd::arithmetic::div_mod::lemma_div_is_ordered((tq * tq) as int, 32767int * 32767, 32768);
        assert(t2 * 2611 <= 32766 * 2611) by (nonlinear_arith)
            requires
                0 <= t2 <= 32766,
        ;
    }
    let u = (t2 * 2611) / 32768;
    proof {
        vstd::arithmetic::div_mod::lemma_div_is_ordered((t2 * 2611) as int, 32766int * 2611, 32768);
        assert(t2 * (21167 - u) <= 32766 * 21167) by (nonlinear_arith)
            requires
                0 <= t2 <= 32766,
                0 <= 21167 - u <= 21167,
        ;
    }
    let w = (t2 * (21167 - u)) / 32768;
    proof {
        vstd::arithmetic::div_mod::lemma_div_is_ordered(
            (t2 * (21167 - u)) as int,
            32766int * 21167,
            32768,
        );
        assert((51472 - w) * tq <= 51472 * 32767) by (nonlinear_arith)
            requires
                0 <= 51472 - w <= 51472,
                0 <= tq <= 32767,
        ;
    }
    let p = ((51472 - w) * tq) / 32768;
    proof {
        vstd::arithmetic::div_mod::lemma_div_is_ordered(
            ((51472 - w) * tq) as int,
            51472int * 32767,
            32768,
        );
    }
    let mag: u64 = if p > 32767 {
        32767
    } else {
        p
    };
    if quad == 2 || quad == 3 {
        -(mag as i32)
    } else {
        mag as i32
    }
}

/// The phase (as a 32-bit binary angle) after `i` samples, starting from
/// `p0` and advancing by the space increment on a 0 bit-sample and the
/// mark increment otherwise.
pub open spec fn tx_phase(p0: int, dmark: int, dspace: int, bits: Seq<u8>, i: int) -> int
    decreases i,
{
    if i <= 0 {
        p0
    } else {
        (tx_phase(p0, dmark, dspace, bits, i - 1) + (if bits[i - 1] == 0 {
            dspace
        } else {
            dmark
        })) % 4294967296
    }
}

/// Continuous-phase FSK modulator: one phase accumulator, advanced per
/// sample by the increment of the commanded tone, never reset.
pub struct V21TX {
    dphi_mark: u64,
    dphi_space: u64,
    phase: u64,
}

impl V21TX {
    /// The per-sample phase increment of the mark tone.
    pub closed spec fn dmark(&self) -> int {
        self.dphi_mark as int
    }

    /// The per-sample phase increment of the space tone.
    pub closed spec fn dspace(&self) -> int {
        self.dphi_space as int
    }

    /// The current phase, a 32-bit binary angle.
    pub closed spec fn phase(&self) -> int {
        self.phase as int
    }

    /// Phase and increments stay inside one turn.
    pub closed spec fn wf(&self) -> bool {
        &&& self.dphi_mark < 4294967296
        &&& self.dphi_space < 4294967296
        &&& self.phase < 4294967296
    }

    /// A modulator for the given sample rate and tone pair, starting at
    /// phase zero.  Each increment is the tone's exact fraction of a turn
    /// per sample, rounded down to the 32-bit angle grid.
    pub fn new(srate: u32, freq_mark: u32, freq_space: u32) -> (r: Self)
        requires
            srate >= 1,
            freq_mark < srate,
            freq_space < srate,
        ensures
            r.wf(),
            r.phase() == 0,
            r.dmark() == (freq_mark * 4294967296) / (srate as int),
            r.dspace() == (freq_space * 4294967296) / (srate as int),
    {
        let dphi_mark = bam_increment(srate, freq_mark);
        let dphi_space = bam_increment(srate, freq_space);
        V21TX { dphi_mark, dphi_space, phase: 0 }
    }

    /// Modulate one buffer: `out_samples[i]` is the Q15 sine of the phase
    /// reached after `i` input samples, and the phase advances by exactly
    /// one increment per sample, carried across calls.
    pub fn modulate(&mut self, in_samples: &[u8], out_samples: &mut Vec<i32>)
        requires
            old(self).wf(),
            in_samples@.len() == old(out_samples)@.len(),
        ensures
            final(self).wf(),
            final(self).dmark() == old(self).dmark(),
            final(self).dspace() == old(self).dspace(),
            final(out_samples)@.len() == old(out_samples)@.len(),
            forall|i: int|
                0 <= i < in_samples@.len() ==> #[trigger] final(out_samples)@[i] as int == sin_bam(
                    tx_phase(
                        old(self).phase(),
                        old(self).dmark(),
                        old(self).dspace(),
                        in_samples@,
                        i,
                    ),
                ),
            final(self).phase() == tx_phase(
                old(self).phase(),
                old(self).dmark(),
                old(self).dspace(),
                in_samples@,
                in_samples@.len() as int,
            ),
    {
        let ghost p0 = old(self).phase();
        let ghost dm = old(self).dmark();
        let ghost ds = old(self).dspace();
        let len = in_samples.len();
        for i in 0..len
            invariant
                self.wf(),
                self.dphi_mark == old(self).dphi_mark,
                self.dphi_space == old(self).dphi_space,
                in_samples@.len() == len,
                out_samples@.len() == len,
                p0 == old(self).phase(),
                dm == old(self).dmark(),
                ds == old(self).dspace(),
                self.phase as int == tx_phase(p0, dm, ds, in_samples@, i as int),
                forall|j: int|
                    0 <= j < i ==> #[trigger] out_samples@[j] as int == sin_bam(
                        tx_phase(p0, dm, ds, in_samples@, j),
                    ),
        {
            let s = sin_q15(self.phase as u32);
            out_samples.set(i, s);
            let d = if in_samples[i] == 0 {
                self.dphi_space
            } else {
                self.dphi_mark
            };
            self.phase = (self.phase + d) % 4294967296u64;
        }
    }
}

/// The exact per-sample binary-angle increment of a tone: the tone's
/// fraction of a turn per sample on the 32-bit grid.
fn bam_increment(srate: u32, freq: u32) -> (r: u64)
    requires
        srate >= 1,
        freq < srate,
    ensures
        r as int == (freq * 4294967296) / (srate as int),
        r < 4294967296,
{
    let r = ((freq as u64) * 4294967296u64) / (srate as u64);
    proof {
        assert((freq as int) * 4294967296 < (srate as int) * 4294967296) by (nonlinear_arith)
            requires
                (freq as int) < (srate as int),
        ;
        vstd::arithmetic::div_mod::lemma_multiply_divide_lt(
            (freq as int) * 4294967296,
            srate as int,
            4294967296,
        );
    }
    r
}

/// The sum of a sequence of integers.
pub open spec fn sum_int(s: Seq<int>) -> int
    decreases s.len(),
{
    if s.len() == 0 {
        0
    } else {
        sum_int(s.drop_last()) + s.last()
    }
}

/// A nonempty sum splits off its first element.
proof fn lemma_sum_first(s: Seq<int>)
    requires
        s.len() >= 1,
    ensures
        sum_int(s) == s[0] + sum_int(s.skip(1)),
    decreases s.len(),
{
    if s.len() == 1 {
        assert(s.skip(1) =~= Seq::<int>::empty());
        assert(s.drop_last() =~= Seq::<int>::empty());
    } else {
        let dl = s.drop_last();
        lemma_sum_first(dl);
        assert(s.skip(1).drop_last() =~= dl.skip(1));
        assert(s.skip(1).last() == s.last());
    }
}

/// Appending an element adds it to the sum.
proof fn lemma_sum_push(s: Seq<int>, v: int)
    ensures
        sum_int(s.push(v)) == sum_int(s) + v,
{
    assert(s.push(v).drop_last() =~= s);
    assert(s.push(v).last() == v);
}

/// Sliding a window: dropping the first element and appending a new one
/// changes the sum by their difference.
proof fn lemma_sum_slide(s: Seq<int>, v: int)
    requires
        s.len() >= 1,
    ensures
        sum_int(s.skip(1).push(v)) == sum_int(s) - s[0] + v,
{
    lemma_sum_first(s);
    lemma_sum_push(s.skip(1), v);
}

/// A sum of elements bounded in magnitude is bounded by the count times
/// the bound.
proof fn lemma_sum_bound(s: Seq<int>, b: int)
    requires
        0 <= b,
        forall|j: int| 0 <= j < s.len() ==> -b <= #[trigger] s[j] <= b,
    ensures
        -(s.len() * b) <= sum_int(s) <= s.len() * b,
    decreases s.len(),
{
    if s.len() == 0 {
    } else {
        let dl = s.drop_last();
        assert(forall|j: int| 0 <= j < dl.len() ==> -b <= #[trigger] dl[j] <= b);
        lemma_sum_bound(dl, b);
        assert(s.len() * b == dl.len() * b + b) by (nonlinear_arith)
            requires
                s.len() == dl.len() + 1,
        ;
    }
}

/// A sum of zeros is zero.
proof fn lemma_sum_zero(s: Seq<int>)
    requires
        forall|j: int| 0 <= j < s.len() ==> #[trigger] s[j] == 0,
    ensures
        sum_int(s) == 0,
    decreases s.len(),
{
    if s.len() > 0 {
        lemma_sum_zero(s.drop_last());
    }
}

/// `a % n` for `a` within the first two periods: the wrap is a single
/// subtraction.
proof fn lemma_mod_wrap(a: int, n: int)
    requires
        0 < n,
        0 <= a < 2 * n,
    ensures
        a % n == if a < n {
            a
        } else {
            a - n
        },
{
    if a < n {
        vstd::arithmetic::div_mod::lemma_small_mod(a as nat, n as nat);
    } else {
        vstd::arithmetic::div_mod::lemma_fundamental_div_mod_converse(a, n, 1, a - n);
    }
}

/// A fixed-size ring of `i64` values with a running total: a sliding
/// window sum in constant time per sample.
struct SlideSum {
    ring: Vec<i64>,
    head: usize,
    total: i64,
}

impl SlideSum {
    /// The window contents, oldest first.
    spec fn contents(&self) -> Seq<int> {
        Seq::new(
            self.ring@.len(),
            |j: int| self.ring@[(self.head + j) % (self.ring@.len() as int)] as int,
        )
    }

    /// The window length.
    spec fn size(&self) -> nat {
        self.ring@.len()
    }

    /// The head is in range and the total is the window sum.
    spec fn wf(&self) -> bool {
        &&& self.ring@.len() >= 1
        &&& self.head < self.ring@.len()
        &&& self.total as int == sum_int(self.contents())
    }

    /// A window of `n` zeros.
    fn new_zeros(n: usize) -> (r: Self)
        requires
            n >= 1,
        ensures
            r.wf(),
            r.size() == n,
            forall|j: int| 0 <= j < n ==> #[trigger] r.contents()[j] == 0,
    {
        let mut ring: Vec<i64> = Vec::new();
        for i in 0..n
            invariant
                ring@.len() == i,
                forall|j: int| 0 <= j < i ==> #[trigger] ring@[j] == 0i64,
        {
            ring.push(0);
        }
        let r = SlideSum { ring, head: 0, total: 0 };
        proof {
            assert(forall|j: int| 0 <= j < n ==> #[trigger] r.contents()[j] == 0);
            lemma_sum_zero(r.contents());
        }
        r
    }

    /// Push a new value: the oldest leaves the window, the new one enters,
    /// and the total moves by their difference.
    fn push(&mut self, x: i64)
        requires
            old(self).wf(),
            -4611686018427387903 <= old(self).total as int - old(self).contents()[0]
                <= 4611686018427387903,
            -4611686018427387903 <= old(self).total as int - old(self).contents()[0] + x
                <= 4611686018427387903,
        ensures
            final(self).wf(),
            final(self).size() == old(self).size(),
            final(self).contents() == old(self).contents().skip(1).push(x as int),
            final(self).total as int == old(self).total as int - old(self).contents()[0] + x,
    {
        let n = self.ring.len();
        let ghost h = self.head as int;
        let ghost ni = n as int;
        let ghost c0 = old(self).contents();
        let evict = self.ring[self.head];
        proof {
            lemma_mod_wrap(h, ni);
            assert(c0[0] == evict as int);
        }
        self.ring.set(self.head, x);
        self.total = self.total - evict + x;
        self.head = if self.head + 1 == n {
            0
        } else {
            self.head + 1
        };
        proof {
            let h2 = self.head as int;
            lemma_mod_wrap(h + 1, ni);
            assert(h2 == (h + 1) % ni);
            assert forall|j: int| 0 <= j < ni implies #[trigger] self.contents()[j] == c0.skip(
                1,
            ).push(x as int)[j] by {
                vstd::arithmetic::div_mod::lemma_add_mod_noop(h + 1, j, ni);
                lemma_mod_wrap(j, ni);
                assert((h2 + j) % ni == (h + 1 + j) % ni);
                if j < ni - 1 {
                    lemma_mod_wrap(h + 1 + j, ni);
                    lemma_mod_wrap(h + (j + 1), ni);
                    assert((h + 1 + j) % ni != h % ni);
                    assert(self.contents()[j] == c0[j + 1]);
                } else {
                    lemma_mod_wrap(h + ni, ni);
                    assert((h + 1 + j) % ni == h);
                    assert(self.contents()[j] == x as int);
                }
            };
            assert(self.contents() =~= c0.skip(1).push(x as int));
            lemma_sum_slide(c0, x as int);
        }
    }
}

/// Phase continuity: from one output sample to the next the phase moves
/// by exactly the commanded increment (reduced modulo one turn) and is
/// never reset, within a buffer, across buffer boundaries, and across bit
/// transitions alike.  The step never exceeds the larger of the two tone
/// increments.
pub proof fn lemma_tx_phase_continuity(p0: int, dmark: int, dspace: int, bits: Seq<u8>, i: int)
    requires
        0 <= i < bits.len(),
        0 <= dmark,
        0 <= dspace,
    ensures
        tx_phase(p0, dmark, dspace, bits, i + 1) == (tx_phase(p0, dmark, dspace, bits, i) + (
        if bits[i] == 0 {
            dspace
        } else {
            dmark
        })) % 4294967296,
        (if bits[i] == 0 {
            dspace
        } else {
            dmark
        }) <= (if dmark >= dspace {
            dmark
        } else {
            dspace
        }),
{
}

/// The demodulator's Q15 reference wave for a tone with per-sample
/// increment `d`, at sample index `k`, shifted by the binary angle `off`
/// (0 for the sine branch, a quarter turn for the cosine branch).
pub open spec fn ref_wave(d: int, off: int, k: int) -> int {
    sin_bam(((k * d) % 4294967296 + off) % 4294967296)
}

/// The contribution of history sample `k` to a correlator: the sample
/// times the reference, zero outside the history received so far.
pub open spec fn prod_at(h: Seq<i32>, d: int, off: int, k: int) -> int {
    if 0 <= k < h.len() {
        (h[k] as int) * ref_wave(d, off, k)
    } else {
        0
    }
}

/// The last `n` correlator contributions before time `m` (the window
/// `[m - n, m)`), oldest first.
pub open spec fn win_seq(h: Seq<i32>, d: int, off: int, n: nat, m: int) -> Seq<int> {
    Seq::new(n, |j: int| prod_at(h, d, off, m - (n as int) + j))
}

/// A sliding correlator: the sum of the window `[m - n, m)`.
pub open spec fn corr_of(h: Seq<i32>, d: int, off: int, n: nat, m: int) -> int {
    sum_int(win_seq(h, d, off, n, m))
}

/// Scaling before squaring: divide by `2^22`, rounding toward zero.
pub open spec fn scale_spec(v: int) -> int {
    if v >= 0 {
        v / 4194304
    } else {
        -((-v) / 4194304)
    }
}

/// The envelope-power difference after `m` samples: mark power minus
/// space power, each from the scaled sine and cosine correlators.
#[verifier::opaque]
pub open spec fn dval(h: Seq<i32>, dmark: int, dspace: int, n: nat, m: int) -> int {
    let sm = scale_spec(corr_of(h, dmark, 0, n, m));
    let cm = scale_spec(corr_of(h, dmark, 1073741824, n, m));
    let ss = scale_spec(corr_of(h, dspace, 0, n, m));
    let cs = scale_spec(corr_of(h, dspace, 1073741824, n, m));
    sm * sm + cm * cm - ss * ss - cs * cs
}

/// The length of the moving-average low-pass over the envelope-power
/// difference: a quarter symbol, a balance found against the noise and
/// clock-offset conditions the receiver must survive.  A longer average
/// smooths more of the residual noise of the power difference, but it
/// also smears each decision into its neighbours, which costs margin
/// once the two ends' clocks disagree.
pub open spec fn lp_len(n: nat) -> nat {
    if n / 4 >= 1 {
        n / 4
    } else {
        1
    }
}

/// The envelope-power difference, zero before any sample has arrived.
pub open spec fn dpad(h: Seq<i32>, dmark: int, dspace: int, n: nat, t: int) -> int {
    if t >= 1 {
        dval(h, dmark, dspace, n, t)
    } else {
        0
    }
}

/// The last `lp_len(n)` envelope-power differences up to and including
/// time `m`, oldest first.
pub open spec fn dwin_seq(h: Seq<i32>, dmark: int, dspace: int, n: nat, m: int) -> Seq<int> {
    Seq::new(lp_len(n), |j: int| dpad(h, dmark, dspace, n, m - (lp_len(n) as int) + 1 + j))
}

/// The low-passed envelope-power difference after `m` samples (scaled by
/// the window length).
pub open spec fn yval(h: Seq<i32>, dmark: int, dspace: int, n: nat, m: int) -> int {
    sum_int(dwin_seq(h, dmark, dspace, n, m))
}

/// How many of the latest low-passed envelope differences, up to and
/// including time `m`, are non-negative in an unbroken run.
#[verifier::opaque]
pub open spec fn trail_nonneg(h: Seq<i32>, dmark: int, dspace: int, n: nat, m: int) -> int
    decreases m,
{
    if m <= 0 {
        0
    } else if yval(h, dmark, dspace, n, m) < 0 {
        0
    } else {
        1 + trail_nonneg(h, dmark, dspace, n, m - 1)
    }
}

/// How long the envelope difference must have favoured mark before mark
/// is emitted: half the low-pass length.
pub open spec fn erode_len(n: nat) -> nat {
    if lp_len(n) / 2 >= 1 {
        lp_len(n) / 2
    } else {
        1
    }
}

/// The hard bit decision emitted for input sample `i` of the history:
/// mark (1) during the first `n` warm-up samples, then mark only when the
/// low-passed envelope-power difference has favoured mark for more than
/// `erode_len(n)` consecutive samples, space otherwise.  Leaning the
/// ambiguous samples toward space restores the width of a space bit's
/// dip, which the low-pass narrows: the deframer confirms a start bit
/// half a symbol after its falling edge, so a start bit whose dip came
/// out too short would cost a whole byte.
pub open spec fn demod_bit(h: Seq<i32>, dmark: int, dspace: int, n: nat, i: int) -> u8 {
    if i < n {
        1
    } else if trail_nonneg(h, dmark, dspace, n, i + 1) > erode_len(n) {
        1
    } else {
        0
    }
}

/// Consuming one more sample steps the trailing run count: reset on a
/// negative low-passed difference, extended otherwise.
proof fn lemma_trail_step(h: Seq<i32>, x: i32, dmark: int, dspace: int, n: nat)
    ensures
        trail_nonneg(h.push(x), dmark, dspace, n, h.len() as int + 1) == (if yval(
            h.push(x),
            dmark,
            dspace,
            n,
            h.len() as int + 1,
        ) < 0 {
            0int
        } else {
            1 + trail_nonneg(h, dmark, dspace, n, h.len() as int)
        }),
{
    reveal(trail_nonneg);
    let h2 = h.push(x);
    let m = h.len() as int;
    assert(forall|j: int| 0 <= j < h.len() ==> #[trigger] h[j] == h2[j]);
    lemma_trail_prefix(h, h2, dmark, dspace, n, m);
    assert(trail_nonneg(h2, dmark, dspace, n, m + 1) == (if yval(h2, dmark, dspace, n, m + 1) < 0 {
        0int
    } else {
        1 + trail_nonneg(h2, dmark, dspace, n, m)
    }));
}

/// The trailing run count at a time inside the shorter history is the
/// same over both histories.
proof fn lemma_trail_prefix(ha: Seq<i32>, hb: Seq<i32>, dmark: int, dspace: int, n: nat, m: int)
    requires
        ha.len() <= hb.len(),
        forall|j: int| 0 <= j < ha.len() ==> #[trigger] ha[j] == hb[j],
        m <= ha.len(),
    ensures
        trail_nonneg(ha, dmark, dspace, n, m) == trail_nonneg(hb, dmark, dspace, n, m),
    decreases m,
{
    reveal(trail_nonneg);
    if m > 0 {
        lemma_dwin_prefix(ha, hb, dmark, dspace, n, m);
        lemma_trail_prefix(ha, hb, dmark, dspace, n, m - 1);
    }
}

/// Each entry of the low-pass window is a bounded envelope difference.
proof fn lemma_dwin_bound(h: Seq<i32>, dmark: int, dspace: int, n: nat, m: int)
    requires
        forall|k: int| 0 <= k < h.len() ==> -1048576 <= #[trigger] h[k] <= 1048576,
        n <= 2048,
    ensures
        forall|j: int|
            0 <= j < lp_len(n) ==> -562949953421312 <= #[trigger] dwin_seq(h, dmark, dspace, n, m)[j]
                <= 562949953421312,
{
    assert forall|j: int| 0 <= j < lp_len(n) implies -562949953421312 <= #[trigger] dwin_seq(
        h,
        dmark,
        dspace,
        n,
        m,
    )[j] <= 562949953421312 by {
        let t = m - (lp_len(n) as int) + 1 + j;
        if t >= 1 {
            lemma_dval_bound(h, dmark, dspace, n, t);
        }
    };
}

/// The sine approximation stays within Q15 full scale.
proof fn lemma_sin_bam_bound(bam: int)
    ensures
        -32767 <= sin_bam(bam) <= 32767,
{
}

/// Each correlator contribution is bounded by full-scale sample times
/// full-scale reference.
proof fn lemma_win_bound(h: Seq<i32>, d: int, off: int, n: nat, m: int)
    requires
        forall|k: int| 0 <= k < h.len() ==> -1048576 <= #[trigger] h[k] <= 1048576,
    ensures
        forall|j: int|
            0 <= j < n ==> -34359345152 <= #[trigger] win_seq(h, d, off, n, m)[j] <= 34359345152,
{
    assert forall|j: int| 0 <= j < n implies -34359345152 <= #[trigger] win_seq(h, d, off, n, m)[j]
        <= 34359345152 by {
        let k = m - (n as int) + j;
        if 0 <= k < h.len() {
            lemma_sin_bam_bound(((k * d) % 4294967296 + off) % 4294967296);
            assert(-34359345152 <= (h[k] as int) * ref_wave(d, off, k) <= 34359345152)
                by (nonlinear_arith)
                requires
                    -1048576 <= h[k] as int <= 1048576,
                    -32767 <= ref_wave(d, off, k) <= 32767,
            ;
        }
    };
}

/// A correlator over a bounded history is bounded by the window length
/// times the per-sample bound.
proof fn lemma_corr_bound(h: Seq<i32>, d: int, off: int, n: nat, m: int)
    requires
        forall|k: int| 0 <= k < h.len() ==> -1048576 <= #[trigger] h[k] <= 1048576,
        n <= 2048,
    ensures
        -70367938871296 <= corr_of(h, d, off, n, m) <= 70367938871296,
{
    lemma_win_bound(h, d, off, n, m);
    lemma_sum_bound(win_seq(h, d, off, n, m), 34359345152);
    assert((n as int) * 34359345152 <= 2048int * 34359345152) by (nonlinear_arith)
        requires
            n as int <= 2048,
    ;
}

/// Scaling keeps magnitudes within the scaled bound.
proof fn lemma_scale_bound(v: int, b: int)
    requires
        0 <= b,
        -b <= v <= b,
    ensures
        -(b / 4194304) <= scale_spec(v) <= b / 4194304,
{
    if v >= 0 {
        vstd::arithmetic::div_mod::lemma_div_is_ordered(v, b, 4194304);
        vstd::arithmetic::div_mod::lemma_div_pos_is_pos(v, 4194304);
    } else {
        vstd::arithmetic::div_mod::lemma_div_is_ordered(-v, b, 4194304);
        vstd::arithmetic::div_mod::lemma_div_pos_is_pos(-v, 4194304);
    }
}

/// The envelope-power difference over a bounded history is bounded.
proof fn lemma_dval_bound(h: Seq<i32>, dmark: int, dspace: int, n: nat, t: int)
    requires
        forall|k: int| 0 <= k < h.len() ==> -1048576 <= #[trigger] h[k] <= 1048576,
        n <= 2048,
    ensures
        -562949953421312 <= dval(h, dmark, dspace, n, t) <= 562949953421312,
{
    reveal(dval);
    lemma_corr_bound(h, dmark, 0, n, t);
    lemma_corr_bound(h, dmark, 1073741824, n, t);
    lemma_corr_bound(h, dspace, 0, n, t);
    lemma_corr_bound(h, dspace, 1073741824, n, t);
    lemma_scale_bound(corr_of(h, dmark, 0, n, t), 70367938871296);
    lemma_scale_bound(corr_of(h, dmark, 1073741824, n, t), 70367938871296);
    lemma_scale_bound(corr_of(h, dspace, 0, n, t), 70367938871296);
    lemma_scale_bound(corr_of(h, dspace, 1073741824, n, t), 70367938871296);
    assert(70367938871296int / 4194304 <= 16777216);
    let sm = scale_spec(corr_of(h, dmark, 0, n, t));
    let cm = scale_spec(corr_of(h, dmark, 1073741824, n, t));
    let ss = scale_spec(corr_of(h, dspace, 0, n, t));
    let cs = scale_spec(corr_of(h, dspace, 1073741824, n, t));
    assert(0 <= sm * sm <= 281474976710656) by (nonlinear_arith)
        requires
            -16777216 <= sm <= 16777216,
    ;
    assert(0 <= cm * cm <= 281474976710656) by (nonlinear_arith)
        requires
            -16777216 <= cm <= 16777216,
    ;
    assert(0 <= ss * ss <= 281474976710656) by (nonlinear_arith)
        requires
            -16777216 <= ss <= 16777216,
    ;
    assert(0 <= cs * cs <= 281474976710656) by (nonlinear_arith)
        requires
            -16777216 <= cs <= 16777216,
    ;
}

/// A correlator contribution depends only on samples already in the
/// shorter history.
proof fn lemma_prod_prefix(ha: Seq<i32>, hb: Seq<i32>, d: int, off: int, k: int)
    requires
        ha.len() <= hb.len(),
        forall|j: int| 0 <= j < ha.len() ==> #[trigger] ha[j] == hb[j],
        k < ha.len(),
    ensures
        prod_at(ha, d, off, k) == prod_at(hb, d, off, k),
{
}

/// A correlator window ending inside the shorter history is the same over
/// both histories.
proof fn lemma_win_prefix(ha: Seq<i32>, hb: Seq<i32>, d: int, off: int, n: nat, m: int)
    requires
        ha.len() <= hb.len(),
        forall|j: int| 0 <= j < ha.len() ==> #[trigger] ha[j] == hb[j],
        m <= ha.len(),
    ensures
        win_seq(ha, d, off, n, m) == win_seq(hb, d, off, n, m),
{
    assert forall|j: int| 0 <= j < n implies #[trigger] win_seq(ha, d, off, n, m)[j] == win_seq(
        hb,
        d,
        off,
        n,
        m,
    )[j] by {
        lemma_prod_prefix(ha, hb, d, off, m - (n as int) + j);
    };
    assert(win_seq(ha, d, off, n, m) =~= win_seq(hb, d, off, n, m));
}

/// The envelope difference at a time inside the shorter history is the
/// same over both histories.
proof fn lemma_dval_prefix(ha: Seq<i32>, hb: Seq<i32>, dmark: int, dspace: int, n: nat, t: int)
    requires
        ha.len() <= hb.len(),
        forall|j: int| 0 <= j < ha.len() ==> #[trigger] ha[j] == hb[j],
        t <= ha.len(),
    ensures
        dval(ha, dmark, dspace, n, t) == dval(hb, dmark, dspace, n, t),
{
    reveal(dval);
    lemma_win_prefix(ha, hb, dmark, 0, n, t);
    lemma_win_prefix(ha, hb, dmark, 1073741824, n, t);
    lemma_win_prefix(ha, hb, dspace, 0, n, t);
    lemma_win_prefix(ha, hb, dspace, 1073741824, n, t);
}

/// Determinism: the decision for a sample depends only on the samples up
/// to it (and the configuration), never on how the stream was cut into
/// buffers or on anything that came later.
pub proof fn lemma_demod_prefix(
    ha: Seq<i32>,
    hb: Seq<i32>,
    dmark: int,
    dspace: int,
    n: nat,
    i: int,
)
    requires
        ha.len() <= hb.len(),
        forall|j: int| 0 <= j < ha.len() ==> #[trigger] ha[j] == hb[j],
        0 <= i,
        i + 1 <= ha.len(),
    ensures
        demod_bit(ha, dmark, dspace, n, i) == demod_bit(hb, dmark, dspace, n, i),
{
    if i >= n {
        lemma_trail_prefix(ha, hb, dmark, dspace, n, i + 1);
    }
}

/// The low-pass window ending inside the shorter history is the same over
/// both histories.
proof fn lemma_dwin_prefix(ha: Seq<i32>, hb: Seq<i32>, dmark: int, dspace: int, n: nat, m: int)
    requires
        ha.len() <= hb.len(),
        forall|j: int| 0 <= j < ha.len() ==> #[trigger] ha[j] == hb[j],
        m <= ha.len(),
    ensures
        dwin_seq(ha, dmark, dspace, n, m) == dwin_seq(hb, dmark, dspace, n, m),
{
    assert forall|j: int| 0 <= j < lp_len(n) implies #[trigger] dwin_seq(ha, dmark, dspace, n, m)[j]
        == dwin_seq(hb, dmark, dspace, n, m)[j] by {
        let t = m - (lp_len(n) as int) + 1 + j;
        if t >= 1 {
            lemma_dval_prefix(ha, hb, dmark, dspace, n, t);
        }
    };
    assert(dwin_seq(ha, dmark, dspace, n, m) =~= dwin_seq(hb, dmark, dspace, n, m));
}

/// Pushing a sample slides every correlator window by one.
proof fn lemma_win_shift(h: Seq<i32>, x: i32, d: int, off: int, n: nat)
    requires
        n >= 1,
    ensures
        win_seq(h.push(x), d, off, n, h.len() as int + 1) == win_seq(
            h,
            d,
            off,
            n,
            h.len() as int,
        ).skip(1).push(prod_at(h.push(x), d, off, h.len() as int)),
    decreases n,
{
    let m = h.len() as int;
    let h2 = h.push(x);
    let lhs = win_seq(h2, d, off, n, m + 1);
    let rhs = win_seq(h, d, off, n, m).skip(1).push(prod_at(h2, d, off, m));
    assert forall|j: int| 0 <= j < n implies lhs[j] == rhs[j] by {
        let k = m + 1 - (n as int) + j;
        if j < n - 1 {
            lemma_prod_prefix(h, h2, d, off, k);
            assert(rhs[j] == win_seq(h, d, off, n, m)[j + 1]);
        } else {
            assert(k == m);
            assert(rhs[j] == prod_at(h2, d, off, m));
        }
    };
    assert(lhs =~= rhs);
}

/// Pushing a sample slides the low-pass window by one.
proof fn lemma_dwin_shift(h: Seq<i32>, x: i32, dmark: int, dspace: int, n: nat)
    requires
        n >= 1,
    ensures
        dwin_seq(h.push(x), dmark, dspace, n, h.len() as int + 1) == dwin_seq(
            h,
            dmark,
            dspace,
            n,
            h.len() as int,
        ).skip(1).push(dpad(h.push(x), dmark, dspace, n, h.len() as int + 1)),
{
    let m = h.len() as int;
    let h2 = h.push(x);
    let nd = lp_len(n);
    let lhs = dwin_seq(h2, dmark, dspace, n, m + 1);
    let rhs = dwin_seq(h, dmark, dspace, n, m).skip(1).push(dpad(h2, dmark, dspace, n, m + 1));
    assert forall|j: int| 0 <= j < nd implies lhs[j] == rhs[j] by {
        let t = m + 1 - (nd as int) + 1 + j;
        if j < nd - 1 {
            if t >= 1 {
                lemma_dval_prefix(h, h2, dmark, dspace, n, t);
            }
            assert(rhs[j] == dwin_seq(h, dmark, dspace, n, m)[j + 1]);
        } else {
            assert(t == m + 1);
            assert(rhs[j] == dpad(h2, dmark, dspace, n, m + 1));
        }
    };
    assert(lhs =~= rhs);
}

/// Advancing a phase accumulator one increment keeps it on the sample
/// grid: the accumulator after `m + 1` samples.
proof fn lemma_phase_step(m: int, d: int)
    requires
        0 <= m,
        0 <= d < 4294967296,
    ensures
        ((m * d) % 4294967296 + d) % 4294967296 == ((m + 1) * d) % 4294967296,
{
    vstd::arithmetic::div_mod::lemma_small_mod(d as nat, 4294967296nat);
    vstd::arithmetic::div_mod::lemma_add_mod_noop(m * d, d, 4294967296);
    assert((m + 1) * d == m * d + d) by (nonlinear_arith);
}

/// Division by the scaling constant, rounding toward zero.
fn scale_i64(v: i64) -> (r: i64)
    requires
        -4611686018427387903 <= v <= 4611686018427387903,
    ensures
        r as int == scale_spec(v as int),
{
    if v >= 0 {
        let q = (v as u64) / 4194304u64;
        proof {
            vstd::arithmetic::div_mod::lemma_div_nonincreasing(v as int, 4194304);
            vstd::arithmetic::div_mod::lemma_div_pos_is_pos(v as int, 4194304);
        }
        q as i64
    } else {
        let q = ((-v) as u64) / 4194304u64;
        proof {
            vstd::arithmetic::div_mod::lemma_div_nonincreasing(-(v as int), 4194304);
            vstd::arithmetic::div_mod::lemma_div_pos_is_pos(-(v as int), 4194304);
        }
        -(q as i64)
    }
}

/// Non-coherent FSK demodulator: four sliding correlators (sine and
/// cosine of each tone over one symbol), an envelope-power difference,
/// a short moving-average low-pass, and a thresholded decision per
/// sample.  All state persists across calls, so the stream may be cut
/// into buffers at any point.
pub struct V21RX {
    samples_per_symbol: usize,
    dphi_mark: u64,
    dphi_space: u64,
    ph_mark: u64,
    ph_space: u64,
    warm: usize,
    agree: usize,
    sm: SlideSum,
    cm: SlideSum,
    ss: SlideSum,
    cs: SlideSum,
    dw: SlideSum,
    hist: Ghost<Seq<i32>>,
}

impl V21RX {
    /// The samples-per-symbol parameter this demodulator was built with.
    pub closed spec fn spsym(&self) -> nat {
        self.samples_per_symbol as nat
    }

    /// The per-sample phase increment of the mark tone.
    pub closed spec fn dmark(&self) -> int {
        self.dphi_mark as int
    }

    /// The per-sample phase increment of the space tone.
    pub closed spec fn dspace(&self) -> int {
        self.dphi_space as int
    }

    /// Every input sample ever consumed, in order.
    pub closed spec fn history(&self) -> Seq<i32> {
        self.hist@
    }

    /// The correlator bank agrees with the history `h`: the two phase
    /// accumulators sit on the sample grid and the four sliding windows
    /// hold the correlator contributions of the last symbol.
    #[verifier::opaque]
    closed spec fn bank_ok(&self, h: Seq<i32>) -> bool {
        let n = self.spsym();
        let m = h.len() as int;
        &&& self.ph_mark as int == (m * self.dmark()) % 4294967296
        &&& self.ph_space as int == (m * self.dspace()) % 4294967296
        &&& self.sm.wf() && self.sm.size() == n && self.sm.contents() == win_seq(
            h,
            self.dmark(),
            0,
            n,
            m,
        )
        &&& self.cm.wf() && self.cm.size() == n && self.cm.contents() == win_seq(
            h,
            self.dmark(),
            1073741824,
            n,
            m,
        )
        &&& self.ss.wf() && self.ss.size() == n && self.ss.contents() == win_seq(
            h,
            self.dspace(),
            0,
            n,
            m,
        )
        &&& self.cs.wf() && self.cs.size() == n && self.cs.contents() == win_seq(
            h,
            self.dspace(),
            1073741824,
            n,
            m,
        )
    }

    /// The low-pass window and the decision counters agree with the
    /// history `h`.
    #[verifier::opaque]
    closed spec fn lowpass_ok(&self, h: Seq<i32>) -> bool {
        let n = self.spsym();
        let m = h.len() as int;
        &&& self.warm as int == (if m < n { m } else { n as int })
        &&& self.agree as int == (if trail_nonneg(h, self.dmark(), self.dspace(), n, m)
            < erode_len(n) + 1int {
            trail_nonneg(h, self.dmark(), self.dspace(), n, m)
        } else {
            erode_len(n) + 1int
        })
        &&& self.dw.wf() && self.dw.size() == lp_len(n) && self.dw.contents() == dwin_seq(
            h,
            self.dmark(),
            self.dspace(),
            n,
            m,
        )
    }

    /// Internal consistency: the phase accumulators, warm-up counter,
    /// decision counter and all five sliding windows agree with the
    /// consumed history.
    pub closed spec fn wf(&self) -> bool {
        &&& 2 <= self.samples_per_symbol <= 2048
        &&& self.dphi_mark < 4294967296
        &&& self.dphi_space < 4294967296
        &&& forall|k: int|
            0 <= k < self.history().len() ==> -1048576 <= #[trigger] self.history()[k] <= 1048576
        &&& self.bank_ok(self.history())
        &&& self.lowpass_ok(self.history())
    }

    /// A demodulator for the given sample rate, symbol length and tone
    /// pair, with an empty history.
    pub fn new(srate: u32, samples_per_symbol: usize, freq_mark: u32, freq_space: u32) -> (r:
        Self)
        requires
            srate >= 1,
            freq_mark < srate,
            freq_space < srate,
            2 <= samples_per_symbol <= 2048,
        ensures
            r.wf(),
            r.spsym() == samples_per_symbol,
            r.history() == Seq::<i32>::empty(),
            r.dmark() == (freq_mark * 4294967296) / (srate as int),
            r.dspace() == (freq_space * 4294967296) / (srate as int),
    {
        let dphi_mark = bam_increment(srate, freq_mark);
        let dphi_space = bam_increment(srate, freq_space);
        let r = V21RX {
            samples_per_symbol,
            dphi_mark,
            dphi_space,
            ph_mark: 0,
            ph_space: 0,
            warm: 0,
            agree: 0,
            sm: SlideSum::new_zeros(samples_per_symbol),
            cm: SlideSum::new_zeros(samples_per_symbol),
            ss: SlideSum::new_zeros(samples_per_symbol),
            cs: SlideSum::new_zeros(samples_per_symbol),
            dw: SlideSum::new_zeros(
                if samples_per_symbol / 4 >= 1 {
                    samples_per_symbol / 4
                } else {
                    1
                },
            ),
            hist: Ghost(Seq::empty()),
        };
        proof {
            let n = r.spsym();
            let h = r.history();
            reveal(V21RX::bank_ok);
            reveal(V21RX::lowpass_ok);
            reveal(trail_nonneg);
            vstd::arithmetic::div_mod::lemma_small_mod(0nat, 4294967296nat);
            assert(r.sm.contents() =~= win_seq(h, r.dmark(), 0, n, 0));
            assert(r.cm.contents() =~= win_seq(h, r.dmark(), 1073741824, n, 0));
            assert(r.ss.contents() =~= win_seq(h, r.dspace(), 0, n, 0));
            assert(r.cs.contents() =~= win_seq(h, r.dspace(), 1073741824, n, 0));
            assert(r.dw.contents() =~= dwin_seq(h, r.dmark(), r.dspace(), n, 0));
            assert(trail_nonneg(h, r.dmark(), r.dspace(), n, 0) == 0);
        }
        r
    }

    /// Demodulate one buffer: `out_samples[i]` becomes the hard decision
    /// for input sample `i`, a pure function of the configuration and the
    /// history up to that sample.
    pub fn demodulate(&mut self, in_samples: &[i32], out_samples: &mut Vec<u8>)
        requires
            old(self).wf(),
            in_samples@.len() == old(out_samples)@.len(),
            forall|i: int|
                0 <= i < in_samples@.len() ==> -1048576 <= #[trigger] in_samples@[i] <= 1048576,
        ensures
            final(self).wf(),
            final(self).spsym() == old(self).spsym(),
            final(self).dmark() == old(self).dmark(),
            final(self).dspace() == old(self).dspace(),
            final(self).history() == old(self).history() + in_samples@,
            final(out_samples)@.len() == old(out_samples)@.len(),
            forall|i: int|
                0 <= i < in_samples@.len() ==> #[trigger] final(out_samples)@[i] == demod_bit(
                    old(self).history() + in_samples@,
                    old(self).dmark(),
                    old(self).dspace(),
                    old(self).spsym(),
                    old(self).history().len() + i,
                ),
    {
        let ghost h0 = old(self).history();
        let ghost hfull = h0 + in_samples@;
        let ghost dm = old(self).dmark();
        let ghost ds = old(self).dspace();
        let ghost nn = old(self).spsym();
        let len = in_samples.len();
        proof {
            assert(h0 + in_samples@.take(0) =~= h0);
        }
        for i in 0..len
            invariant
                self.wf(),
                nn == self.spsym(),
                dm == self.dmark(),
                ds == self.dspace(),
                in_samples@.len() == len,
                out_samples@.len() == len,
                h0 == old(self).history(),
                hfull == h0 + in_samples@,
                self.history() == h0 + in_samples@.take(i as int),
                forall|q: int|
                    0 <= q < in_samples@.len() ==> -1048576 <= #[trigger] in_samples@[q]
                        <= 1048576,
                forall|j: int|
                    0 <= j < i ==> #[trigger] out_samples@[j] == demod_bit(
                        hfull,
                        dm,
                        ds,
                        nn,
                        h0.len() + j,
                    ),
        {
            let x = in_samples[i];
            let ghost h = self.history();
            let ghost m = h.len() as int;
            let bit = self.step_sample(x);
            out_samples.set(i, bit);
            proof {
                let h2 = h.push(x);
                assert(h2 =~= h0 + in_samples@.take(i + 1));
                assert forall|j: int| 0 <= j < h2.len() implies #[trigger] h2[j] == hfull[j] by {
                    assert(hfull[j] == (h0 + in_samples@)[j]);
                };
                lemma_demod_prefix(h2, hfull, dm, ds, nn, m);
                assert(out_samples@[i as int] == demod_bit(hfull, dm, ds, nn, h0.len() + i));
            }
        }
        proof {
            assert(in_samples@.take(len as int) =~= in_samples@);
        }
    }

    /// Consume one sample: slide the correlator bank, then the low-pass,
    /// and return the hard decision for this sample.
    fn step_sample(&mut self, x: i32) -> (bit: u8)
        requires
            old(self).wf(),
            -1048576 <= x <= 1048576,
        ensures
            final(self).wf(),
            final(self).spsym() == old(self).spsym(),
            final(self).dmark() == old(self).dmark(),
            final(self).dspace() == old(self).dspace(),
            final(self).history() == old(self).history().push(x),
            bit == demod_bit(
                old(self).history().push(x),
                old(self).dmark(),
                old(self).dspace(),
                old(self).spsym(),
                old(self).history().len() as int,
            ),
    {
        let ghost dm = old(self).dmark();
        let ghost ds = old(self).dspace();
        let ghost nn = old(self).spsym();
        let n = self.samples_per_symbol;
        let ghost h = self.history();
        let ghost m = h.len() as int;
        let ghost h2 = h.push(x);
        let dv = self.bank_step(x);
        proof {
            reveal(V21RX::lowpass_ok);
            // Bounds on the low-pass window, to slide it.
            lemma_dwin_bound(h, dm, ds, nn, m);
            lemma_sum_bound(self.dw.contents(), 562949953421312);
            assert((lp_len(nn) as int) * 562949953421312 <= 2048int * 562949953421312)
                by (nonlinear_arith)
                requires
                    lp_len(nn) as int <= 2048,
            ;
        }
        self.dw.push(dv);
        let cap = if (n / 4) / 2 >= 1 {
            (n / 4) / 2 + 1
        } else {
            2
        };
        if self.dw.total < 0 {
            self.agree = 0;
        } else if self.agree < cap {
            self.agree = self.agree + 1;
        }
        proof {
            reveal(V21RX::lowpass_ok);
            lemma_dwin_shift(h, x, dm, ds, nn);
            assert(self.dw.contents() == dwin_seq(h2, dm, ds, nn, m + 1));
            assert(self.dw.total as int == yval(h2, dm, ds, nn, m + 1));
            lemma_trail_step(h, x, dm, ds, nn);
            assert(cap as int == erode_len(nn) + 1);
            let tprev = trail_nonneg(h, dm, ds, nn, m);
            let tnew = trail_nonneg(h2, dm, ds, nn, m + 1);
            if self.dw.total < 0 {
                assert(tnew == 0);
                assert(self.agree == 0);
            } else {
                assert(tnew == 1 + tprev);
                if old(self).agree < cap {
                    assert(old(self).agree as int == tprev);
                    assert(self.agree as int == tnew);
                } else {
                    assert(tprev >= cap);
                    assert(self.agree as int == cap);
                }
            }
            assert(self.agree as int == (if tnew < erode_len(nn) + 1int {
                tnew
            } else {
                erode_len(nn) + 1int
            }));
        }
        // The hard decision for this sample.
        let bit: u8 = if self.warm < n {
            1
        } else if self.agree >= cap {
            1
        } else {
            0
        };
        if self.warm < n {
            self.warm = self.warm + 1;
        }
        proof {
            self.hist@ = h2;
            reveal(V21RX::lowpass_ok);
            assert(bit == demod_bit(h2, dm, ds, nn, m));
            assert(self.lowpass_ok(h2));
            reveal(V21RX::bank_ok);
            assert(self.bank_ok(h2));
            assert forall|k: int| 0 <= k < h2.len() implies -1048576 <= #[trigger] h2[k]
                <= 1048576 by {
                if k < h.len() {
                    assert(h2[k] == h[k]);
                }
            };
        }
        bit
    }

    /// Slide the four correlators by one input sample, advance the phase
    /// accumulators, and return the envelope-power difference for the
    /// window ending at this sample.
    fn bank_step(&mut self, x: i32) -> (dv: i64)
        requires
            2 <= old(self).samples_per_symbol <= 2048,
            old(self).dphi_mark < 4294967296,
            old(self).dphi_space < 4294967296,
            old(self).bank_ok(old(self).history()),
            forall|k: int|
                0 <= k < old(self).history().len() ==> -1048576 <= #[trigger] old(
                    self,
                ).history()[k] <= 1048576,
            -1048576 <= x <= 1048576,
        ensures
            final(self).samples_per_symbol == old(self).samples_per_symbol,
            final(self).dphi_mark == old(self).dphi_mark,
            final(self).dphi_space == old(self).dphi_space,
            final(self).warm == old(self).warm,
            final(self).agree == old(self).agree,
            final(self).dw == old(self).dw,
            final(self).hist == old(self).hist,
            final(self).bank_ok(old(self).history().push(x)),
            dv as int == dval(
                old(self).history().push(x),
                old(self).dmark(),
                old(self).dspace(),
                old(self).spsym(),
                old(self).history().len() as int + 1,
            ),
            -562949953421312 <= dv <= 562949953421312,
    {
        proof {
            reveal(V21RX::bank_ok);
        }
        let ghost dm = old(self).dmark();
        let ghost ds = old(self).dspace();
        let ghost nn = old(self).spsym();
        let ghost h = self.history();
        let ghost m = h.len() as int;
        let ghost h2 = h.push(x);
        // Reference values for this sample index, from the phase
        // accumulators.
        let rm_s = sin_q15(self.ph_mark as u32);
        let rm_c = sin_q15(((self.ph_mark + 1073741824) % 4294967296u64) as u32);
        let rs_s = sin_q15(self.ph_space as u32);
        let rs_c = sin_q15(((self.ph_space + 1073741824) % 4294967296u64) as u32);
        proof {
            vstd::arithmetic::div_mod::lemma_small_mod((self.ph_mark as int) as nat, 4294967296nat);
            vstd::arithmetic::div_mod::lemma_small_mod(
                (self.ph_space as int) as nat,
                4294967296nat,
            );
            assert(rm_s as int == ref_wave(dm, 0, m));
            assert(rm_c as int == ref_wave(dm, 1073741824, m));
            assert(rs_s as int == ref_wave(ds, 0, m));
            assert(rs_c as int == ref_wave(ds, 1073741824, m));
        }
        // The four new correlator contributions.
        proof {
            assert(-34359345152 <= (x as int) * (rm_s as int) <= 34359345152) by (nonlinear_arith)
                requires
                    -1048576 <= x as int <= 1048576,
                    -32767 <= rm_s as int <= 32767,
            ;
            assert(-34359345152 <= (x as int) * (rm_c as int) <= 34359345152) by (nonlinear_arith)
                requires
                    -1048576 <= x as int <= 1048576,
                    -32767 <= rm_c as int <= 32767,
            ;
            assert(-34359345152 <= (x as int) * (rs_s as int) <= 34359345152) by (nonlinear_arith)
                requires
                    -1048576 <= x as int <= 1048576,
                    -32767 <= rs_s as int <= 32767,
            ;
            assert(-34359345152 <= (x as int) * (rs_c as int) <= 34359345152) by (nonlinear_arith)
                requires
                    -1048576 <= x as int <= 1048576,
                    -32767 <= rs_c as int <= 32767,
            ;
        }
        let pm_s = (x as i64) * (rm_s as i64);
        let pm_c = (x as i64) * (rm_c as i64);
        let ps_s = (x as i64) * (rs_s as i64);
        let ps_c = (x as i64) * (rs_c as i64);
        proof {
            // Bounds on the running totals, to slide the windows.
            lemma_win_bound(h, dm, 0, nn, m);
            lemma_win_bound(h, dm, 1073741824, nn, m);
            lemma_win_bound(h, ds, 0, nn, m);
            lemma_win_bound(h, ds, 1073741824, nn, m);
            lemma_sum_bound(self.sm.contents(), 34359345152);
            lemma_sum_bound(self.cm.contents(), 34359345152);
            lemma_sum_bound(self.ss.contents(), 34359345152);
            lemma_sum_bound(self.cs.contents(), 34359345152);
            assert((nn as int) * 34359345152 <= 2048int * 34359345152) by (nonlinear_arith)
                requires
                    nn as int <= 2048,
            ;
            assert(pm_s as int == prod_at(h2, dm, 0, m));
            assert(pm_c as int == prod_at(h2, dm, 1073741824, m));
            assert(ps_s as int == prod_at(h2, ds, 0, m));
            assert(ps_c as int == prod_at(h2, ds, 1073741824, m));
        }
        self.sm.push(pm_s);
        self.cm.push(pm_c);
        self.ss.push(ps_s);
        self.cs.push(ps_c);
        proof {
            lemma_win_shift(h, x, dm, 0, nn);
            lemma_win_shift(h, x, dm, 1073741824, nn);
            lemma_win_shift(h, x, ds, 0, nn);
            lemma_win_shift(h, x, ds, 1073741824, nn);
            assert(self.sm.contents() == win_seq(h2, dm, 0, nn, m + 1));
            assert(self.cm.contents() == win_seq(h2, dm, 1073741824, nn, m + 1));
            assert(self.ss.contents() == win_seq(h2, ds, 0, nn, m + 1));
            assert(self.cs.contents() == win_seq(h2, ds, 1073741824, nn, m + 1));
            // Bounds for the scaled correlators.
            assert(forall|k: int| 0 <= k < h2.len() ==> -1048576 <= #[trigger] h2[k] <= 1048576);
            lemma_corr_bound(h2, dm, 0, nn, m + 1);
            lemma_corr_bound(h2, dm, 1073741824, nn, m + 1);
            lemma_corr_bound(h2, ds, 0, nn, m + 1);
            lemma_corr_bound(h2, ds, 1073741824, nn, m + 1);
        }
        let sm_v = scale_i64(self.sm.total);
        let cm_v = scale_i64(self.cm.total);
        let ss_v = scale_i64(self.ss.total);
        let cs_v = scale_i64(self.cs.total);
        proof {
            lemma_scale_bound(self.sm.total as int, 70367938871296);
            lemma_scale_bound(self.cm.total as int, 70367938871296);
            lemma_scale_bound(self.ss.total as int, 70367938871296);
            lemma_scale_bound(self.cs.total as int, 70367938871296);
            assert(70367938871296int / 4194304 <= 16777216);
            assert(0 <= sm_v * sm_v <= 281474976710656) by (nonlinear_arith)
                requires
                    -16777216 <= sm_v <= 16777216,
            ;
            assert(0 <= cm_v * cm_v <= 281474976710656) by (nonlinear_arith)
                requires
                    -16777216 <= cm_v <= 16777216,
            ;
            assert(0 <= ss_v * ss_v <= 281474976710656) by (nonlinear_arith)
                requires
                    -16777216 <= ss_v <= 16777216,
            ;
            assert(0 <= cs_v * cs_v <= 281474976710656) by (nonlinear_arith)
                requires
                    -16777216 <= cs_v <= 16777216,
            ;
        }
        let dv = sm_v * sm_v + cm_v * cm_v - ss_v * ss_v - cs_v * cs_v;
        proof {
            assert(dv as int == dval(h2, dm, ds, nn, m + 1)) by {
                reveal(dval);
            };
        }
        // Advance the phase accumulators.
        self.ph_mark = (self.ph_mark + self.dphi_mark) % 4294967296u64;
        self.ph_space = (self.ph_space + self.dphi_space) % 4294967296u64;
        proof {
            lemma_phase_step(m, dm);
            lemma_phase_step(m, ds);
        }
        dv
    }
}


} // verus!
