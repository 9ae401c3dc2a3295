//! UART framing at one bit-sample per audio frame: `UartTx` turns bytes into
//! a stream of samples in {0, 1}.  A byte becomes one start bit (0), eight
//! data bits sent LSB-first, and one stop bit (1), each held for `n`
//! consecutive samples, where `n` is the number of audio frames per symbol
//! (sample rate divided by the baud rate).  An idle line is all mark (1).

use vstd::arithmetic::div_mod::lemma_fundamental_div_mod_converse;
use vstd::prelude::*;

verus! {

/// 2 to the power `k` (1 for negative `k`), used to address the bits of a
/// byte arithmetically.
pub open spec fn two_pow(k: int) -> int
    decreases k,
{
    if k <= 0 {
        1
    } else {
        2 * two_pow(k - 1)
    }
}

/// Bit `i` of `byte`, LSB-first.
pub open spec fn byte_bit(byte: u8, i: int) -> u8 {
    (((byte as int) / two_pow(i)) % 2) as u8
}

/// The level held during the `t`-th symbol of a frame: start bit, then the
/// eight data bits LSB-first, then the stop bit.
pub open spec fn frame_symbol(byte: u8, t: int) -> u8 {
    if t <= 0 {
        0
    } else if t <= 8 {
        byte_bit(byte, t - 1)
    } else {
        1
    }
}

/// The whole frame of a byte as bit-samples: 10 runs of `n` samples each,
/// one run per symbol.
pub open spec fn uart_frame(byte: u8, n: nat) -> Seq<u8> {
    Seq::new(10 * n, |i: int| frame_symbol(byte, i / (n as int)))
}

/// What a call that drains `len` samples from a pending queue emits: the
/// queued samples first, then mark (1) once the queue is exhausted.
pub open spec fn tx_output(pending: Seq<u8>, len: nat) -> Seq<u8> {
    Seq::new(len, |i: int| if i < pending.len() { pending[i] } else { 1 })
}

/// Byte-to-bitstream framer.  Bytes are queued as framed bit-samples;
/// `get_samples` drains the queue and pads with mark (idle).
pub struct UartTx {
    samples_per_symbol: usize,
    queue: Vec<u8>,
    head: usize,
}

impl UartTx {
    /// The samples-per-symbol parameter this framer was built with.
    pub closed spec fn spsym(&self) -> nat {
        self.samples_per_symbol as nat
    }

    /// The bit-samples queued and not yet drained, oldest first.
    pub closed spec fn pending(&self) -> Seq<u8> {
        self.queue@.skip(self.head as int)
    }

    /// Internal consistency: the read position lies within the queue and
    /// every queued sample is a bit.
    pub closed spec fn wf(&self) -> bool {
        &&& self.samples_per_symbol >= 1
        &&& self.head <= self.queue.len()
        &&& forall|i: int| 0 <= i < self.queue@.len() ==> #[trigger] self.queue@[i] <= 1
    }

    /// A fresh framer with an empty queue: the line idles at mark.
    pub fn new(samples_per_symbol: usize) -> (r: Self)
        requires
            samples_per_symbol >= 1,
        ensures
            r.wf(),
            r.spsym() == samples_per_symbol,
            r.pending() == Seq::<u8>::empty(),
    {
        let r = UartTx { samples_per_symbol, queue: Vec::new(), head: 0 };
        proof {
            assert(r.pending() =~= Seq::<u8>::empty());
        }
        r
    }

    /// Append one symbol: `bit` held for a whole symbol period.
    fn put_bit(&mut self, bit: u8)
        requires
            old(self).wf(),
            bit <= 1,
        ensures
            final(self).wf(),
            final(self).spsym() == old(self).spsym(),
            final(self).pending() == old(self).pending() + Seq::new(
                old(self).spsym(),
                |i: int| bit,
            ),
    {
        let n = self.samples_per_symbol;
        let ghost q0 = self.queue@;
        for j in 0..n
            invariant
                self.samples_per_symbol == old(self).samples_per_symbol,
                self.head == old(self).head,
                self.queue@ == q0 + Seq::new(j as nat, |i: int| bit),
                old(self).wf(),
                bit <= 1,
                q0 == old(self).queue@,
        {
            self.queue.push(bit);
            proof {
                assert(self.queue@ =~= q0 + Seq::new((j + 1) as nat, |i: int| bit));
            }
        }
        proof {
            assert(self.pending() =~= old(self).pending() + Seq::new(
                old(self).spsym(),
                |i: int| bit,
            ));
        }
    }

    /// Queue one byte as a complete frame: start bit, the byte's bits
    /// LSB-first, stop bit, each held for one symbol period.
    pub fn put_byte(&mut self, byte: u8)
        requires
            old(self).wf(),
        ensures
            final(self).wf(),
            final(self).spsym() == old(self).spsym(),
            final(self).pending() == old(self).pending() + uart_frame(byte, old(self).spsym()),
    {
        let ghost p0 = old(self).pending();
        let ghost n = old(self).spsym() as int;
        self.put_bit(0);
        proof {
            lemma_frame_extend(p0, byte, old(self).spsym(), 0, 0);
        }
        let mut rest = byte;
        for k in 0..8u8
            invariant
                self.wf(),
                self.spsym() == old(self).spsym(),
                rest as int == (byte as int) / two_pow(k as int),
                self.pending() == p0 + Seq::new(((k + 1) * n) as nat, |i: int| frame_symbol(byte, i / n)),
                n == old(self).spsym(),
                n >= 1,
        {
            let bit = rest % 2;
            proof {
                lemma_bit_shift(byte, k as int);
                assert(bit == frame_symbol(byte, k + 1));
            }
            self.put_bit(bit);
            rest = rest / 2;
            proof {
                lemma_frame_extend(p0, byte, old(self).spsym(), k as int + 1, bit);
            }
        }
        self.put_bit(1);
        proof {
            lemma_frame_extend(p0, byte, old(self).spsym(), 9, 1);
            assert(self.pending() =~= p0 + uart_frame(byte, old(self).spsym()));
        }
    }

    /// Overwrite every slot of `buffer` with the next bit-samples of the
    /// stream: queued samples while there are any, mark (1) after that.
    pub fn get_samples(&mut self, buffer: &mut Vec<u8>)
        requires
            old(self).wf(),
        ensures
            final(self).wf(),
            final(self).spsym() == old(self).spsym(),
            final(buffer)@ == tx_output(old(self).pending(), old(buffer)@.len() as nat),
            final(self).pending() == old(self).pending().skip(
                if old(buffer)@.len() <= old(self).pending().len() {
                    old(buffer)@.len() as int
                } else {
                    old(self).pending().len() as int
                },
            ),
    {
        let len = buffer.len();
        let ghost p0 = old(self).pending();
        proof {
            assert(p0.skip(0) =~= p0);
        }
        for i in 0..len
            invariant
                self.wf(),
                self.samples_per_symbol == old(self).samples_per_symbol,
                buffer@.len() == len,
                p0 == old(self).pending(),
                self.pending() == p0.skip(if i <= p0.len() { i as int } else { p0.len() as int }),
                forall|j: int| 0 <= j < i ==> #[trigger] buffer@[j] == tx_output(p0, len as nat)[j],
        {
            if self.head < self.queue.len() {
                proof {
                    assert(self.pending().len() > 0);
                    assert(i < p0.len());
                    assert(self.queue@[self.head as int] == self.pending()[0]);
                    assert(self.pending()[0] == p0.skip(i as int)[0]);
                }
                let s = self.queue[self.head];
                let ghost q = self.queue@;
                let ghost h = self.head as int;
                buffer.set(i, s);
                self.head = self.head + 1;
                proof {
                    assert forall|j: int| 0 <= j < q.len() - (h + 1) implies #[trigger] q.skip(
                        h + 1,
                    )[j] == p0.skip(i + 1)[j] by {
                        assert(q.skip(h)[j + 1] == p0.skip(i as int)[j + 1]);
                    };
                    assert(self.pending() =~= p0.skip(i + 1));
                }
            } else {
                proof {
                    assert(self.pending().len() == 0);
                    assert(i >= p0.len());
                }
                buffer.set(i, 1);
                proof {
                    assert(self.pending() =~= p0.skip(p0.len() as int));
                }
            }
        }
        if self.head == self.queue.len() {
            // The queue is fully drained: drop the consumed prefix so it
            // does not grow without bound.
            self.queue.clear();
            self.head = 0;
            proof {
                assert(self.pending() =~= p0.skip(
                    if len <= p0.len() { len as int } else { p0.len() as int },
                ));
            }
        }
        proof {
            assert(buffer@ =~= tx_output(p0, len as nat));
        }
    }
}

/// Dividing the byte's remaining bits once more steps the shift count:
/// bits are peeled off LSB-first.
proof fn lemma_bit_shift(byte: u8, k: int)
    requires
        0 <= k,
    ensures
        ((byte as int) / two_pow(k)) / 2 == (byte as int) / two_pow(k + 1),
        two_pow(k) >= 1,
{
    lemma_two_pow_pos(k);
    lemma_two_pow_pos(k + 1);
    vstd::arithmetic::div_mod::lemma_div_denominator(byte as int, two_pow(k), 2);
}

/// `two_pow` is positive.
proof fn lemma_two_pow_pos(k: int)
    ensures
        two_pow(k) >= 1,
    decreases k,
{
    if k > 0 {
        lemma_two_pow_pos(k - 1);
    }
}

/// Appending the run of symbol `t` to the first `t` runs of a frame gives
/// the first `t + 1` runs.
proof fn lemma_frame_extend(p0: Seq<u8>, byte: u8, n: nat, t: int, bit: u8)
    requires
        n >= 1,
        0 <= t <= 9,
        bit == frame_symbol(byte, t),
    ensures
        (p0 + Seq::new((t * n) as nat, |i: int| frame_symbol(byte, i / (n as int)))) + Seq::new(
            n,
            |i: int| bit,
        ) == p0 + Seq::new(((t + 1) * n) as nat, |i: int| frame_symbol(byte, i / (n as int))),
{
    let ni = n as int;
    let lhs = (p0 + Seq::new((t * n) as nat, |i: int| frame_symbol(byte, i / ni))) + Seq::new(
        n,
        |i: int| bit,
    );
    let rhs = p0 + Seq::new(((t + 1) * n) as nat, |i: int| frame_symbol(byte, i / ni));
    assert((t + 1) * ni == t * ni + ni) by (nonlinear_arith);
    assert(t * ni >= 0) by (nonlinear_arith)
        requires
            t >= 0,
            ni >= 1,
    ;
    assert(lhs.len() == rhs.len());
    assert forall|j: int| 0 <= j < rhs.len() implies lhs[j] == rhs[j] by {
        if j < p0.len() {
        } else {
            let i = j - p0.len();
            if i < t * ni {
            } else {
                // i lies in run t: i / n == t.
                lemma_fundamental_div_mod_converse(i, ni, t, i - t * ni);
            }
        }
    };
    assert(lhs =~= rhs);
}

/// The deframer's position in the frame it is currently receiving.
///
/// `Idle` waits for a falling edge (a 0 sample).  `Start` counts half a
/// symbol into the start bit and then confirms it.  `Data` counts one
/// symbol per data bit and samples each at its center, accumulating the
/// byte LSB-first in `acc`.  `Stop` counts out the stop bit and then emits
/// the byte, valid stop bit or not, so that a corrupted stop bit costs no
/// byte and the machine resynchronizes on the next start edge.
#[derive(Clone, Copy)]
pub enum RxState {
    /// Waiting for a start bit's falling edge.
    Idle,
    /// Counting `c` samples into a suspected start bit.
    Start { c: usize },
    /// Receiving data bit `k`, `c` samples into it, byte so far in `acc`.
    Data { k: u8, c: usize, acc: u8 },
    /// Counting out the stop bit of a byte held in `acc`.
    Stop { c: usize, acc: u8 },
}

/// The counters stay inside their symbol and the accumulator only holds
/// bits already shifted in.
pub open spec fn rx_state_wf(n: nat, s: RxState) -> bool {
    match s {
        RxState::Idle => true,
        RxState::Start { c } => 1 <= c <= n / 2,
        RxState::Data { k, c, acc } => k <= 7 && c <= n && (acc as int) < two_pow(k as int),
        RxState::Stop { c, acc } => c <= n,
    }
}

/// The byte a step emits, as a sequence (empty or a single byte).
pub open spec fn emitted(o: Option<u8>) -> Seq<u8> {
    match o {
        Option::None => Seq::empty(),
        Option::Some(b) => seq![b],
    }
}

/// One step of the deframer on one bit-sample.
pub open spec fn rx_step(n: nat, s: RxState, sample: u8) -> (RxState, Option<u8>) {
    match s {
        RxState::Idle => {
            if sample == 0 {
                (RxState::Start { c: 1 }, None)
            } else {
                (RxState::Idle, None)
            }
        },
        RxState::Start { c } => {
            if c < n / 2 {
                (RxState::Start { c: (c + 1) as usize }, None)
            } else if sample == 0 {
                (RxState::Data { k: 0, c: 0, acc: 0 }, None)
            } else {
                (RxState::Idle, None)
            }
        },
        RxState::Data { k, c, acc } => {
            if c < n {
                (RxState::Data { k, c: (c + 1) as usize, acc }, None)
            } else {
                let acc2 = (acc + sample * two_pow(k as int)) as u8;
                if k < 7 {
                    (RxState::Data { k: (k + 1) as u8, c: 0, acc: acc2 }, None)
                } else {
                    (RxState::Stop { c: 0, acc: acc2 }, None)
                }
            }
        },
        RxState::Stop { c, acc } => {
            if c < n {
                (RxState::Stop { c: (c + 1) as usize, acc }, None)
            } else {
                (RxState::Idle, Some(acc))
            }
        },
    }
}

/// The deframer run over a whole sample sequence: final state and the
/// bytes emitted, in order.
pub open spec fn rx_process(n: nat, s: RxState, samples: Seq<u8>) -> (RxState, Seq<u8>)
    decreases samples.len(),
{
    if samples.len() == 0 {
        (s, Seq::empty())
    } else {
        let first = rx_step(n, s, samples[0]);
        let rest = rx_process(n, first.0, samples.skip(1));
        (rest.0, emitted(first.1) + rest.1)
    }
}

/// One step keeps the state well formed.
proof fn lemma_rx_step_wf(n: nat, s: RxState, sample: u8)
    requires
        n >= 2,
        n <= usize::MAX,
        rx_state_wf(n, s),
        sample <= 1,
    ensures
        rx_state_wf(n, rx_step(n, s, sample).0),
{
    match s {
        RxState::Idle => {},
        RxState::Start { c } => {},
        RxState::Data { k, c, acc } => {
            if c < n {
            } else {
                lemma_two_pow_pos(k as int);
                lemma_two_pow_le_128(k as int);
                if sample == 0 {
                    assert(sample * two_pow(k as int) == 0) by (nonlinear_arith)
                        requires
                            sample == 0,
                    ;
                } else {
                    assert(sample * two_pow(k as int) == two_pow(k as int)) by (nonlinear_arith)
                        requires
                            sample == 1,
                    ;
                }
                assert(two_pow(k as int + 1) == 2 * two_pow(k as int));
            }
        },
        RxState::Stop { c, acc } => {},
    }
}

/// `two_pow` of a bit index of a byte is at most 128.
proof fn lemma_two_pow_le_128(k: int)
    requires
        k <= 7,
    ensures
        two_pow(k) <= 128,
    decreases 8 - k,
{
    if k < 7 {
        lemma_two_pow_le_128(k + 1);
    } else {
        reveal_with_fuel(two_pow, 9);
    }
}

/// Running the deframer over a concatenation equals running it over the
/// parts in order: the deframer cannot tell where a buffer was cut.
pub proof fn lemma_rx_process_concat(n: nat, s: RxState, a: Seq<u8>, b: Seq<u8>)
    ensures
        rx_process(n, s, a + b).0 == rx_process(n, rx_process(n, s, a).0, b).0,
        rx_process(n, s, a + b).1 == rx_process(n, s, a).1 + rx_process(
            n,
            rx_process(n, s, a).0,
            b,
        ).1,
    decreases a.len(),
{
    if a.len() == 0 {
        assert(a + b =~= b);
        assert(rx_process(n, s, a).1 + rx_process(n, rx_process(n, s, a).0, b).1 =~= rx_process(
            n,
            s,
            b,
        ).1);
    } else {
        let first = rx_step(n, s, a[0]);
        assert((a + b)[0] == a[0]);
        assert((a + b).skip(1) =~= a.skip(1) + b);
        lemma_rx_process_concat(n, first.0, a.skip(1), b);
        assert(emitted(first.1) + (rx_process(n, first.0, a.skip(1)).1 + rx_process(
            n,
            rx_process(n, first.0, a.skip(1)).0,
            b,
        ).1) =~= (emitted(first.1) + rx_process(n, first.0, a.skip(1)).1) + rx_process(
            n,
            rx_process(n, first.0, a.skip(1)).0,
            b,
        ).1);
    }
}

/// Processing one more sample appends that step's output.
proof fn lemma_rx_process_snoc(n: nat, s: RxState, a: Seq<u8>, x: u8)
    ensures
        rx_process(n, s, a.push(x)).0 == rx_step(n, rx_process(n, s, a).0, x).0,
        rx_process(n, s, a.push(x)).1 == rx_process(n, s, a).1 + emitted(
            rx_step(n, rx_process(n, s, a).0, x).1,
        ),
{
    let single = seq![x];
    assert(a.push(x) =~= a + single);
    lemma_rx_process_concat(n, s, a, single);
    let s1 = rx_process(n, s, a).0;
    assert(single.len() == 1);
    assert(single[0] == x);
    assert(single.skip(1) =~= Seq::<u8>::empty());
    let first = rx_step(n, s1, x);
    assert(rx_process(n, first.0, single.skip(1)).0 == first.0);
    assert(rx_process(n, first.0, single.skip(1)).1 == Seq::<u8>::empty());
    assert(rx_process(n, s1, single).0 == first.0);
    assert(rx_process(n, s1, single).1 =~= emitted(first.1));
}

/// Bitstream-to-byte deframer: finds start bits, samples each data bit at
/// its center, and emits one byte per frame received.
pub struct UartRx {
    samples_per_symbol: usize,
    state: RxState,
}

impl UartRx {
    /// The samples-per-symbol parameter this deframer was built with.
    pub closed spec fn spsym(&self) -> nat {
        self.samples_per_symbol as nat
    }

    /// The deframer's current position in the frame being received.
    pub closed spec fn state(&self) -> RxState {
        self.state
    }

    /// Internal consistency: counters stay inside their symbol.
    pub closed spec fn wf(&self) -> bool {
        &&& self.samples_per_symbol >= 2
        &&& rx_state_wf(self.spsym(), self.state)
    }

    /// A fresh deframer, idle until a start bit arrives.
    pub fn new(samples_per_symbol: usize) -> (r: Self)
        requires
            samples_per_symbol >= 2,
        ensures
            r.wf(),
            r.spsym() == samples_per_symbol,
            r.state() == RxState::Idle,
    {
        UartRx { samples_per_symbol, state: RxState::Idle }
    }

    /// Consume a buffer of bit-samples and return the bytes whose frames
    /// completed during it, in order.  State persists across calls, so the
    /// stream may be cut into buffers at any point.
    pub fn put_samples(&mut self, buffer: &[u8]) -> (out: Vec<u8>)
        requires
            old(self).wf(),
            forall|i: int| 0 <= i < buffer@.len() ==> #[trigger] buffer@[i] <= 1,
        ensures
            final(self).wf(),
            final(self).spsym() == old(self).spsym(),
            final(self).state() == rx_process(old(self).spsym(), old(self).state(), buffer@).0,
            out@ == rx_process(old(self).spsym(), old(self).state(), buffer@).1,
    {
        let n = self.samples_per_symbol;
        let ghost s0 = self.state;
        let mut out: Vec<u8> = Vec::new();
        proof {
            assert(buffer@.take(0) =~= Seq::<u8>::empty());
        }
        for i in 0..buffer.len()
            invariant
                self.samples_per_symbol == n,
                n >= 2,
                self.wf(),
                s0 == old(self).state(),
                forall|j: int| 0 <= j < buffer@.len() ==> #[trigger] buffer@[j] <= 1,
                self.state == rx_process(n as nat, s0, buffer@.take(i as int)).0,
                out@ == rx_process(n as nat, s0, buffer@.take(i as int)).1,
        {
            let sample = buffer[i];
            let st = self.state;
            proof {
                lemma_rx_step_wf(n as nat, st, sample);
                lemma_rx_process_snoc(n as nat, s0, buffer@.take(i as int), sample);
                assert(buffer@.take(i + 1) =~= buffer@.take(i as int).push(sample));
            }
            match st {
                RxState::Idle => {
                    if sample == 0 {
                        self.state = RxState::Start { c: 1 };
                    }
                },
                RxState::Start { c } => {
                    if c < n / 2 {
                        self.state = RxState::Start { c: c + 1 };
                    } else if sample == 0 {
                        self.state = RxState::Data { k: 0, c: 0, acc: 0 };
                    } else {
                        self.state = RxState::Idle;
                    }
                },
                RxState::Data { k, c, acc } => {
                    if c < n {
                        self.state = RxState::Data { k, c: c + 1, acc };
                    } else {
                        proof {
                            lemma_two_pow_pos(k as int);
                            lemma_two_pow_le_128(k as int);
                        }
                        let p = pow2_exec(k);
                        let acc2 = if sample == 0 {
                            acc
                        } else {
                            acc + p
                        };
                        proof {
                            if sample == 0 {
                                assert(sample * two_pow(k as int) == 0) by (nonlinear_arith)
                                    requires
                                        sample == 0,
                                ;
                            } else {
                                assert(sample * two_pow(k as int) == two_pow(k as int))
                                    by (nonlinear_arith)
                                    requires
                                        sample == 1,
                                ;
                            }
                            assert(acc2 == (acc + sample * two_pow(k as int)) as u8);
                        }
                        if k < 7 {
                            self.state = RxState::Data { k: k + 1, c: 0, acc: acc2 };
                        } else {
                            self.state = RxState::Stop { c: 0, acc: acc2 };
                        }
                    }
                },
                RxState::Stop { c, acc } => {
                    if c < n {
                        self.state = RxState::Stop { c: c + 1, acc };
                    } else {
                        self.state = RxState::Idle;
                        out.push(acc);
                    }
                },
            }
        }
        proof {
            assert(buffer@.take(buffer@.len() as int) =~= buffer@);
        }
        out
    }
}

/// 2 to the power `k` as a byte, for bit positions of a byte.
fn pow2_exec(k: u8) -> (r: u8)
    requires
        k <= 7,
    ensures
        r as int == two_pow(k as int),
{
    let mut r: u8 = 1;
    let mut j: u8 = 0;
    while j < k
        invariant
            j <= k,
            k <= 7,
            r as int == two_pow(j as int),
        decreases k - j,
    {
        proof {
            lemma_two_pow_le_128(j as int + 1);
            lemma_two_pow_pos(j as int);
        }
        r = r * 2;
        j = j + 1;
    }
    r
}

/// Processing a single sample is one step of the machine.
proof fn lemma_rx_process_one(n: nat, s: RxState, x: u8)
    ensures
        rx_process(n, s, seq![x]).0 == rx_step(n, s, x).0,
        rx_process(n, s, seq![x]).1 == emitted(rx_step(n, s, x).1),
{
    let single = seq![x];
    assert(single.len() == 1);
    assert(single[0] == x);
    assert(single.skip(1) =~= Seq::<u8>::empty());
    let first = rx_step(n, s, x);
    assert(rx_process(n, first.0, single.skip(1)).0 == first.0);
    assert(rx_process(n, first.0, single.skip(1)).1 == Seq::<u8>::empty());
    assert(rx_process(n, s, single).1 =~= emitted(first.1));
}

/// Running a prefix and then the piece after it is running the longer
/// prefix.
proof fn lemma_rx_chain(n: nat, s0: RxState, whole: Seq<u8>, m1: int, m2: int)
    requires
        0 <= m1 <= m2 <= whole.len(),
    ensures
        rx_process(n, s0, whole.take(m2)).0 == rx_process(
            n,
            rx_process(n, s0, whole.take(m1)).0,
            whole.subrange(m1, m2),
        ).0,
        rx_process(n, s0, whole.take(m2)).1 == rx_process(n, s0, whole.take(m1)).1 + rx_process(
            n,
            rx_process(n, s0, whole.take(m1)).0,
            whole.subrange(m1, m2),
        ).1,
{
    assert(whole.take(m2) =~= whole.take(m1) + whole.subrange(m1, m2));
    lemma_rx_process_concat(n, s0, whole.take(m1), whole.subrange(m1, m2));
}

/// While the machine is counting into the start bit, samples are ignored.
proof fn lemma_rx_run_start(n: nat, c: usize, xs: Seq<u8>)
    requires
        1 <= c,
        c + xs.len() <= n / 2,
        n <= usize::MAX,
    ensures
        rx_process(n, RxState::Start { c }, xs).0 == (RxState::Start {
            c: (c + xs.len()) as usize,
        }),
        rx_process(n, RxState::Start { c }, xs).1 == Seq::<u8>::empty(),
    decreases xs.len(),
{
    if xs.len() == 0 {
    } else {
        let s1 = rx_step(n, RxState::Start { c }, xs[0]).0;
        assert(s1 == (RxState::Start { c: (c + 1) as usize }));
        lemma_rx_run_start(n, (c + 1) as usize, xs.skip(1));
    }
}

/// While the machine is counting through a data bit, samples are ignored.
proof fn lemma_rx_run_data(n: nat, k: u8, c: usize, acc: u8, xs: Seq<u8>)
    requires
        c + xs.len() <= n,
        n <= usize::MAX,
    ensures
        rx_process(n, RxState::Data { k, c, acc }, xs).0 == (RxState::Data {
            k,
            c: (c + xs.len()) as usize,
            acc,
        }),
        rx_process(n, RxState::Data { k, c, acc }, xs).1 == Seq::<u8>::empty(),
    decreases xs.len(),
{
    if xs.len() == 0 {
    } else {
        lemma_rx_run_data(n, k, (c + 1) as usize, acc, xs.skip(1));
    }
}

/// While the machine is counting through the stop bit, samples are ignored.
proof fn lemma_rx_run_stop(n: nat, c: usize, acc: u8, xs: Seq<u8>)
    requires
        c + xs.len() <= n,
        n <= usize::MAX,
    ensures
        rx_process(n, RxState::Stop { c, acc }, xs).0 == (RxState::Stop {
            c: (c + xs.len()) as usize,
            acc,
        }),
        rx_process(n, RxState::Stop { c, acc }, xs).1 == Seq::<u8>::empty(),
    decreases xs.len(),
{
    if xs.len() == 0 {
    } else {
        lemma_rx_run_stop(n, (c + 1) as usize, acc, xs.skip(1));
    }
}

/// An idle machine fed only mark stays idle and emits nothing.
pub proof fn lemma_rx_idle_ones(n: nat, xs: Seq<u8>)
    requires
        forall|i: int| 0 <= i < xs.len() ==> #[trigger] xs[i] == 1,
    ensures
        rx_process(n, RxState::Idle, xs).0 == RxState::Idle,
        rx_process(n, RxState::Idle, xs).1 == Seq::<u8>::empty(),
    decreases xs.len(),
{
    if xs.len() == 0 {
    } else {
        assert(xs[0] == 1);
        lemma_rx_idle_ones(n, xs.skip(1));
    }
}

/// After the start bit and `k` data bits of the frame of `b`, the machine
/// has consumed `n/2 + 1 + k*(n+1)` samples, holds the low `k` bits of `b`,
/// and has emitted nothing.
proof fn lemma_rx_frame_data_phase(n: nat, b: u8, k: u8)
    requires
        20 <= n,
        n <= usize::MAX,
        k <= 8,
    ensures
        rx_process(
            n,
            RxState::Idle,
            uart_frame(b, n).take((n as int) / 2 + 1 + (k as int) * ((n as int) + 1)),
        ).0 == (if k < 8 {
            RxState::Data { k, c: 0, acc: ((b as int) % two_pow(k as int)) as u8 }
        } else {
            RxState::Stop { c: 0, acc: b }
        }),
        rx_process(
            n,
            RxState::Idle,
            uart_frame(b, n).take((n as int) / 2 + 1 + (k as int) * ((n as int) + 1)),
        ).1 == Seq::<u8>::empty(),
    decreases k,
{
    let f = uart_frame(b, n);
    let ni = n as int;
    let n2 = ni / 2;
    if k == 0 {
        // The falling edge, half a symbol of counting, and the confirmed
        // start bit.
        assert(f.take(1) =~= seq![f[0]]);
        lemma_fundamental_div_mod_converse(0, ni, 0, 0);
        assert(f[0] == 0);
        lemma_rx_process_one(n, RxState::Idle, f[0]);
        assert(rx_process(n, RxState::Idle, f.take(1)).0 == (RxState::Start { c: 1 }));
        lemma_rx_chain(n, RxState::Idle, f, 1, n2);
        lemma_rx_run_start(n, 1, f.subrange(1, n2));
        assert(rx_process(n, RxState::Idle, f.take(n2)).0 == (RxState::Start {
            c: n2 as usize,
        }));
        lemma_rx_chain(n, RxState::Idle, f, n2, n2 + 1);
        assert(f.subrange(n2, n2 + 1) =~= seq![f[n2]]);
        lemma_fundamental_div_mod_converse(n2, ni, 0, n2);
        assert(f[n2] == 0);
        lemma_rx_process_one(n, RxState::Start { c: n2 as usize }, f[n2]);
        assert(rx_process(n, RxState::Idle, f.take(n2 + 1)).0 == (RxState::Data {
            k: 0,
            c: 0,
            acc: 0,
        }));
        assert((b as int) % two_pow(0) == 0);
        assert(rx_process(n, RxState::Idle, f.take(n2 + 1)).1 =~= Seq::<u8>::empty());
    } else {
        lemma_rx_frame_data_phase(n, b, (k - 1) as u8);
        let km1 = (k - 1) as int;
        lemma_two_pow_pos(km1);
        lemma_two_pow_le_128(km1);
        let m_prev = n2 + 1 + km1 * (ni + 1);
        let acc_prev = ((b as int) % two_pow(km1)) as u8;
        let s_prev = RxState::Data { k: (k - 1) as u8, c: 0, acc: acc_prev };
        assert(rx_process(n, RxState::Idle, f.take(m_prev)).0 == s_prev);
        // One whole symbol of counting inside data bit k-1.
        assert(m_prev + ni + 1 <= 10 * ni) by (nonlinear_arith)
            requires
                m_prev == n2 + 1 + km1 * (ni + 1),
                0 <= km1 <= 7,
                n2 == ni / 2,
                20 <= ni,
        ;
        lemma_rx_chain(n, RxState::Idle, f, m_prev, m_prev + ni);
        lemma_rx_run_data(n, (k - 1) as u8, 0, acc_prev, f.subrange(m_prev, m_prev + ni));
        assert(rx_process(n, RxState::Idle, f.take(m_prev + ni)).0 == (RxState::Data {
            k: (k - 1) as u8,
            c: n as usize,
            acc: acc_prev,
        }));
        // The decision sample at the center of data bit k-1.
        let idx = m_prev + ni;
        assert(idx == (k as int) * ni + (n2 + k)) by (nonlinear_arith)
            requires
                idx == n2 + 1 + km1 * (ni + 1) + ni,
                km1 == k - 1,
                1 <= k <= 8,
        ;
        lemma_fundamental_div_mod_converse(idx, ni, k as int, n2 + k);
        assert(f[idx] == frame_symbol(b, k as int));
        assert(f[idx] == byte_bit(b, km1));
        lemma_rx_chain(n, RxState::Idle, f, idx, idx + 1);
        assert(f.subrange(idx, idx + 1) =~= seq![f[idx]]);
        lemma_rx_process_one(
            n,
            RxState::Data { k: (k - 1) as u8, c: n as usize, acc: acc_prev },
            f[idx],
        );
        // The shifted-in bit extends the reconstructed low bits of b.
        let bit = byte_bit(b, km1);
        lemma_bit_extend(b, km1);
        assert((b as int) % two_pow(km1) + bit * two_pow(km1) == (b as int) % two_pow(km1 + 1));
        assert((acc_prev + bit * two_pow(km1)) as u8 == ((b as int) % two_pow(k as int)) as u8);
        if k < 8 {
            assert(rx_process(n, RxState::Idle, f.take(idx + 1)).0 == (RxState::Data {
                k,
                c: 0,
                acc: ((b as int) % two_pow(k as int)) as u8,
            }));
        } else {
            lemma_mod_256(b);
            assert(rx_process(n, RxState::Idle, f.take(idx + 1)).0 == (RxState::Stop {
                c: 0,
                acc: b,
            }));
        }
        assert(rx_process(n, RxState::Idle, f.take(idx + 1)).1 =~= Seq::<u8>::empty());
        assert(idx + 1 == n2 + 1 + (k as int) * (ni + 1)) by (nonlinear_arith)
            requires
                idx == n2 + 1 + km1 * (ni + 1) + ni,
                km1 == k - 1,
        ;
    }
}

/// The low `k + 1` bits of a byte are its low `k` bits plus bit `k` in
/// place.
proof fn lemma_bit_extend(b: u8, k: int)
    requires
        0 <= k <= 7,
    ensures
        (b as int) % two_pow(k) + byte_bit(b, k) * two_pow(k) == (b as int) % two_pow(k + 1),
{
    lemma_two_pow_pos(k);
    let y = two_pow(k);
    let bitv = ((b as int) / y) % 2;
    vstd::arithmetic::div_mod::lemma_breakdown(b as int, y, 2);
    assert((b as int) % (y * 2) == y * bitv + (b as int) % y);
    assert(two_pow(k + 1) == y * 2);
    assert(byte_bit(b, k) as int == bitv);
    assert(byte_bit(b, k) * y == y * bitv) by (nonlinear_arith)
        requires
            byte_bit(b, k) as int == bitv,
    ;
}

/// A byte is its own low eight bits.
proof fn lemma_mod_256(b: u8)
    ensures
        (b as int) % two_pow(8) == b as int,
{
    reveal_with_fuel(two_pow, 9);
    assert((b as int) % 256 == b as int);
}

/// Feeding one complete frame to an idle deframer emits exactly the framed
/// byte and returns to idle: the deframer inverts the framer.
pub proof fn lemma_rx_frame(n: nat, b: u8)
    requires
        20 <= n,
        n <= usize::MAX,
    ensures
        rx_process(n, RxState::Idle, uart_frame(b, n)).0 == RxState::Idle,
        rx_process(n, RxState::Idle, uart_frame(b, n)).1 == seq![b],
{
    let f = uart_frame(b, n);
    let ni = n as int;
    let n2 = ni / 2;
    lemma_rx_frame_data_phase(n, b, 8);
    let m8 = n2 + 1 + 8 * (ni + 1);
    assert(rx_process(n, RxState::Idle, f.take(m8)).0 == (RxState::Stop { c: 0, acc: b }));
    // The stop bit is counted out ...
    lemma_rx_chain(n, RxState::Idle, f, m8, m8 + ni);
    lemma_rx_run_stop(n, 0, b, f.subrange(m8, m8 + ni));
    assert(rx_process(n, RxState::Idle, f.take(m8 + ni)).0 == (RxState::Stop {
        c: n as usize,
        acc: b,
    }));
    // ... and on its expiry the byte is emitted, whatever the sample.
    let idx = m8 + ni;
    lemma_rx_chain(n, RxState::Idle, f, idx, idx + 1);
    assert(f.subrange(idx, idx + 1) =~= seq![f[idx]]);
    lemma_rx_process_one(n, RxState::Stop { c: n as usize, acc: b }, f[idx]);
    assert(rx_process(n, RxState::Idle, f.take(idx + 1)).0 == RxState::Idle);
    assert(rx_process(n, RxState::Idle, f.take(idx + 1)).1 =~= seq![b]);
    // The rest of the stop bit is mark; the machine stays idle.
    let m9 = idx + 1;
    assert(m9 == n2 + 9 * ni + 10);
    lemma_rx_chain(n, RxState::Idle, f, m9, 10 * ni);
    let tail = f.subrange(m9, 10 * ni);
    assert forall|j: int| 0 <= j < tail.len() implies #[trigger] tail[j] == 1 by {
        let at = m9 + j;
        lemma_fundamental_div_mod_converse(at, ni, 9, at - 9 * ni);
        assert(f[at] == frame_symbol(b, 9));
    };
    lemma_rx_idle_ones(n, tail);
    assert(f.take(10 * ni) =~= f);
    assert(rx_process(n, RxState::Idle, f).1 =~= seq![b]);
}

/// The frames of a byte sequence, back to back.
pub open spec fn uart_frames(bytes: Seq<u8>, n: nat) -> Seq<u8>
    decreases bytes.len(),
{
    if bytes.len() == 0 {
        Seq::empty()
    } else {
        uart_frame(bytes[0], n) + uart_frames(bytes.skip(1), n)
    }
}

/// Back-to-back frames are deframed to exactly their bytes, in order.
pub proof fn lemma_rx_frames(n: nat, bytes: Seq<u8>)
    requires
        20 <= n,
        n <= usize::MAX,
    ensures
        rx_process(n, RxState::Idle, uart_frames(bytes, n)).0 == RxState::Idle,
        rx_process(n, RxState::Idle, uart_frames(bytes, n)).1 == bytes,
    decreases bytes.len(),
{
    if bytes.len() == 0 {
        assert(rx_process(n, RxState::Idle, uart_frames(bytes, n)).1 =~= bytes);
    } else {
        lemma_rx_process_concat(
            n,
            RxState::Idle,
            uart_frame(bytes[0], n),
            uart_frames(bytes.skip(1), n),
        );
        lemma_rx_frame(n, bytes[0]);
        lemma_rx_frames(n, bytes.skip(1));
        assert(seq![bytes[0]] + bytes.skip(1) =~= bytes);
    }
}

/// Round trip at zero noise and zero timing offset: an idle-mark prefix,
/// the framed bytes, and an idle-mark suffix are deframed to exactly the
/// framed bytes, and the machine ends idle.  Together with
/// `lemma_rx_process_concat` this holds however the stream is cut into
/// buffers.
pub proof fn lemma_uart_round_trip(n: nat, bytes: Seq<u8>, pre: Seq<u8>, post: Seq<u8>)
    requires
        20 <= n,
        n <= usize::MAX,
        forall|i: int| 0 <= i < pre.len() ==> #[trigger] pre[i] == 1,
        forall|i: int| 0 <= i < post.len() ==> #[trigger] post[i] == 1,
    ensures
        rx_process(n, RxState::Idle, pre + uart_frames(bytes, n) + post).0 == RxState::Idle,
        rx_process(n, RxState::Idle, pre + uart_frames(bytes, n) + post).1 == bytes,
{
    let mid = uart_frames(bytes, n);
    lemma_rx_process_concat(n, RxState::Idle, pre + mid, post);
    lemma_rx_process_concat(n, RxState::Idle, pre, mid);
    lemma_rx_idle_ones(n, pre);
    lemma_rx_frames(n, bytes);
    lemma_rx_idle_ones(n, post);
    assert(rx_process(n, RxState::Idle, pre + mid + post).1 =~= bytes);
}

/// Framing invariant: the frame of a byte is ten runs of `n` samples, one
/// per symbol: the start bit 0, the eight data bits LSB-first, the stop
/// bit 1.  Drained from an empty queue, these are exactly the next `10 * n`
/// samples produced.
pub proof fn lemma_uart_tx_framing(byte: u8, n: nat)
    requires
        n >= 1,
    ensures
        uart_frame(byte, n).len() == 10 * n,
        forall|t: int, j: int|
            0 <= t < 10 && 0 <= j < n ==> #[trigger] uart_frame(byte, n)[t * (n as int) + j]
                == frame_symbol(byte, t),
        frame_symbol(byte, 0) == 0,
        forall|t: int| 1 <= t <= 8 ==> #[trigger] frame_symbol(byte, t) == byte_bit(byte, t - 1),
        frame_symbol(byte, 9) == 1,
        tx_output(uart_frame(byte, n), 10 * n) == uart_frame(byte, n),
{
    let ni = n as int;
    assert forall|t: int, j: int| 0 <= t < 10 && 0 <= j < n implies #[trigger] uart_frame(
        byte,
        n,
    )[t * ni + j] == frame_symbol(byte, t) by {
        assert(0 <= t * ni + j < 10 * ni) by (nonlinear_arith)
            requires
                0 <= t < 10,
                0 <= j < ni,
        ;
        lemma_fundamental_div_mod_converse(t * ni + j, ni, t, j);
    };
    assert(tx_output(uart_frame(byte, n), 10 * n) =~= uart_frame(byte, n));
}

/// Idle invariant: with nothing pending, every sample produced is mark.
pub proof fn lemma_uart_tx_idle(pending: Seq<u8>, len: nat)
    requires
        pending.len() == 0,
    ensures
        forall|i: int| 0 <= i < len ==> #[trigger] tx_output(pending, len)[i] == 1,
{
}

} // verus!
