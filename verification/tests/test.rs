use modem::uart::{UartRx, UartTx};
use modem::v21::{V21RX, V21TX};
use rand::{Rng, SeedableRng};
use rand_distr::{Distribution, Normal, Uniform};

const BAUD_RATE: usize = 300;

#[test]
fn uart_trivial_48000() {
    test_uart(48000, false, false)
}

#[test]
fn uart_trivial_44100() {
    test_uart(44100, false, false)
}

#[test]
fn uart_unsync_48000() {
    test_uart(48000, false, true)
}

#[test]
fn uart_unsync_44100() {
    test_uart(44100, false, true)
}

#[test]
fn uart_noisy_48000() {
    test_uart(48000, true, false)
}

#[test]
fn uart_noisy_44100() {
    test_uart(44100, true, false)
}

#[test]
fn uart_noisy_unsync_48000() {
    test_uart(48000, true, true)
}

#[test]
fn uart_noisy_unsync_44100() {
    test_uart(44100, true, true)
}

#[test]
fn v21_sync_48000() {
    test_v21(48000, false)
}

#[test]
fn v21_sync_44100() {
    test_v21(44100, false)
}

#[test]
fn v21_unsync_48000() {
    test_v21(48000, true)
}

#[test]
fn v21_unsync_44100() {
    test_v21(44100, true)
}

fn test_uart(srate: usize, add_noise: bool, add_timing_offset: bool) {
    let samples_per_symbol = srate / BAUD_RATE;

    let mut uart_tx = UartTx::new(samples_per_symbol);
    let mut uart_rx = UartRx::new(samples_per_symbol);

    let mut gen = rand_pcg::Pcg32::seed_from_u64(42);
    let d_idle_samples = Uniform::new(0, samples_per_symbol);
    let d_msg_bytes = Uniform::new(1, 100);
    let d_byte = Uniform::new(0, 255);
    let d_timing_offset = Uniform::new(0.98, 1.02);

    for iteration in 0..50 {
        let idle_samples = d_idle_samples.sample(&mut gen);
        let msg_bytes = d_msg_bytes.sample(&mut gen);
        let msg_samples = 10 * samples_per_symbol * msg_bytes;

        let mut transmitted_samples = vec![0u8; idle_samples];
        uart_tx.get_samples(&mut transmitted_samples);

        let orig_msg: Vec<u8> = d_byte.sample_iter(&mut gen).take(msg_bytes).collect();
        for b in &orig_msg {
            uart_tx.put_byte(*b);
        }
        let mut msg_part = vec![0u8; msg_samples];
        uart_tx.get_samples(&mut msg_part);
        transmitted_samples.extend_from_slice(&msg_part);

        let timing_offset = if add_timing_offset {
            d_timing_offset.sample(&mut gen)
        } else {
            1.0
        };

        let received_samples = bs_transition_channel(
            &mut gen,
            if add_noise { 0.5 } else { 0.0 },
            if add_noise { samples_per_symbol / 4 } else { 0 },
            timing_offset,
            &transmitted_samples,
        );

        let d_cut = Uniform::new(1, received_samples.len() - 1);
        let cut = d_cut.sample(&mut gen);
        let mut received_msg = uart_rx.put_samples(&received_samples[..cut]);
        received_msg.extend(uart_rx.put_samples(&received_samples[cut..]));

        assert_eq!(
            received_msg, orig_msg,
            "wrong contents on iteration {}",
            iteration,
        );
    }
}

fn test_v21(srate: usize, add_timing_offset: bool) {
    for (ebn0_db, max_ber) in [(10, 1e-1f32), (12, 1e-2), (16, 1e-3), (19, 1e-5)] {
        let ber = compute_v21_ber(srate, ebn0_db as f32, add_timing_offset);
        println!("EbN0 = {} dB, BER = {}", ebn0_db, ber);
        assert!(
            ber <= max_ber,
            "BER {} above {} at EbN0 = {} dB",
            ber,
            max_ber,
            ebn0_db
        );
    }
}

fn compute_v21_ber(srate: usize, ebn0_db: f32, add_timing_offset: bool) -> f32 {
    0.5 * (compute_v21_ber_on_direction(srate, true, ebn0_db, add_timing_offset)
        + compute_v21_ber_on_direction(srate, false, ebn0_db, add_timing_offset))
}

fn compute_v21_ber_on_direction(
    srate: usize,
    tx_call: bool,
    ebn0_db: f32,
    add_timing_offset: bool,
) -> f32 {
    let samples_per_symbol = srate / BAUD_RATE;

    let center_freq: u32 = if tx_call { 1080 } else { 1750 };
    let freq_mark = center_freq - 100;
    let freq_space = center_freq + 100;

    let mut gen = rand_pcg::Pcg32::seed_from_u64(42);
    let d_idle_samples = Uniform::new(2 * samples_per_symbol, 4 * samples_per_symbol);
    let d_msg_bytes = Uniform::new(1, 100);
    let d_byte = Uniform::new(0, 255);
    let d_timing_offset = Uniform::new(0.98, 1.02);

    let mut mean_ber = 0.;
    const NUM_ITERATIONS: usize = 50;

    for _ in 0..NUM_ITERATIONS {
        let mut uart_tx = UartTx::new(samples_per_symbol);
        let mut uart_rx = UartRx::new(samples_per_symbol);
        let mut v21_tx = V21TX::new(srate as u32, freq_mark, freq_space);
        let mut v21_rx = V21RX::new(srate as u32, samples_per_symbol, freq_mark, freq_space);

        let idle_samples = d_idle_samples.sample(&mut gen);
        let idle_end = 2 * samples_per_symbol;
        let msg_bytes = d_msg_bytes.sample(&mut gen);
        let msg_samples = 10 * samples_per_symbol * msg_bytes;
        let n = idle_samples + msg_samples + idle_end;

        let mut uart_out = vec![0u8; idle_samples];
        uart_tx.get_samples(&mut uart_out);

        let orig_msg: Vec<u8> = d_byte.sample_iter(&mut gen).take(msg_bytes).collect();
        for b in &orig_msg {
            uart_tx.put_byte(*b);
        }
        let mut uart_tail = vec![0u8; n - idle_samples];
        uart_tx.get_samples(&mut uart_tail);
        uart_out.extend_from_slice(&uart_tail);

        let mut tx_fixed = vec![0i32; n];
        v21_tx.modulate(&uart_out, &mut tx_fixed);
        let transmitted_samples: Vec<f32> =
            tx_fixed.iter().map(|&v| v as f32 / 32768.0).collect();

        let timing_offset = if add_timing_offset {
            d_timing_offset.sample(&mut gen)
        } else {
            1.0
        };

        let received_samples = awgn_channel_ebn0_db(
            &mut gen,
            samples_per_symbol,
            ebn0_db,
            timing_offset,
            &transmitted_samples,
        );
        let received_fixed: Vec<i32> = received_samples
            .iter()
            .map(|&v| {
                let s = (v * 32768.0).round();
                s.clamp(-1048576.0, 1048576.0) as i32
            })
            .collect();

        let d_cut = Uniform::new(1, received_fixed.len() - 1);
        let cut = d_cut.sample(&mut gen);

        let mut received_msg = Vec::new();
        let mut uart_in = vec![0u8; cut];
        v21_rx.demodulate(&received_fixed[..cut], &mut uart_in);
        received_msg.extend(uart_rx.put_samples(&uart_in));

        let mut uart_in = vec![0u8; received_fixed.len() - cut];
        v21_rx.demodulate(&received_fixed[cut..], &mut uart_in);
        received_msg.extend(uart_rx.put_samples(&uart_in));

        let mut bit_errors = 0;
        let max_size = received_msg.len().max(msg_bytes);
        for i in 0..max_size {
            let a = received_msg.get(i).copied().unwrap_or(0);
            let b = if i < msg_bytes { orig_msg[i] } else { 0 };
            bit_errors += (a ^ b).count_ones();
        }

        let ber = bit_errors as f32 / (8. * max_size as f32);
        mean_ber += ber / NUM_ITERATIONS as f32;
    }

    mean_ber
}

fn awgn_channel_ebn0_db<R: Rng + ?Sized>(
    gen: &mut R,
    samples_per_symbol: usize,
    ebn0_db: f32,
    timing_offset: f32,
    samples: &[f32],
) -> Vec<f32> {
    // With one bit per symbol, Eb equals Es, so the SNR over the symbol
    // bandwidth follows from Eb/N0 and the oversampling factor.
    let snr_db = ebn0_db - 10. * (0.5 * samples_per_symbol as f32).log10();

    let s_db = 10. * signal_avg_power(samples).log10();
    let n_db = s_db - snr_db;
    let n = 10.0_f32.powf(n_db / 10.0);

    awgn_channel(gen, n.sqrt(), timing_offset, samples)
}

fn awgn_channel<R: Rng + ?Sized>(
    gen: &mut R,
    noise_amplitude: f32,
    timing_offset: f32,
    samples: &[f32],
) -> Vec<f32> {
    let d = Normal::new(0., noise_amplitude).unwrap();
    let yd = samples
        .iter()
        .map(|sample| sample + d.sample(gen))
        .collect::<Vec<f32>>();
    apply_timing_offset(timing_offset, &yd)
}

fn bs_transition_channel<R: Rng + ?Sized>(
    gen: &mut R,
    flip_probability: f32,
    samples_affected_on_transition: usize,
    timing_offset: f32,
    samples: &[u8],
) -> Vec<u8> {
    let nxd = samples.len();
    let mut yd = vec![0.0; nxd];

    let d = Uniform::new(0.0, 1.0);
    let mut previous_sample = samples[0];

    let mut i = 0;
    while i < nxd {
        yd[i] = samples[i] as f32;
        if samples[i] != previous_sample && samples_affected_on_transition > 0 {
            // A transition: push the nearby samples through the binary
            // symmetric channel.
            let e = (i + samples_affected_on_transition).min(nxd);
            for j in i..e {
                if d.sample(gen) < flip_probability {
                    yd[j] = if samples[j] == 0 { 1.0 } else { 0.0 };
                } else {
                    yd[j] = if samples[j] == 0 { 0.0 } else { 1.0 };
                }
            }
            i = e - 1;
        }
        previous_sample = samples[i];
        i += 1;
    }

    let yi = apply_timing_offset(timing_offset, &yd);
    yi.iter()
        .map(|value| if *value > 0.5 { 1 } else { 0 })
        .collect::<Vec<u8>>()
}

fn signal_avg_power(samples: &[f32]) -> f32 {
    let n = samples.len();
    samples
        .iter()
        .map(|sample| sample * sample / n as f32)
        .sum()
}

/// Resample by linear interpolation on the uniform grid, stretching or
/// compressing the stream by `timing_offset` to model a clock mismatch
/// between the two ends.
fn apply_timing_offset(timing_offset: f32, yd: &[f32]) -> Vec<f32> {
    let nxd = yd.len();
    let ni = ((nxd as f32 - 1.0) / timing_offset) as usize + 1;
    (0..ni)
        .map(|i| {
            let x = timing_offset * i as f32;
            let k = (x.floor() as usize).min(nxd - 2);
            let frac = x - k as f32;
            yd[k] + (yd[k + 1] - yd[k]) * frac
        })
        .collect::<Vec<f32>>()
}

#[test]
fn uart_tx_framing_exact() {
    // One byte, 4 samples per symbol: start bit, LSB-first data, stop bit.
    let n = 4usize;
    let mut tx = UartTx::new(n);
    tx.put_byte(0x4D); // 0b01001101, LSB-first: 1,0,1,1,0,0,1,0
    let mut out = vec![9u8; 10 * n];
    tx.get_samples(&mut out);
    let mut expected = Vec::new();
    for bit in [0u8, 1, 0, 1, 1, 0, 0, 1, 0, 1] {
        for _ in 0..n {
            expected.push(bit);
        }
    }
    assert_eq!(out, expected);
}

#[test]
fn uart_tx_idle_is_mark() {
    // With nothing pending, every sample produced is 1.
    let mut tx = UartTx::new(160);
    let mut out = vec![0u8; 500];
    tx.get_samples(&mut out);
    assert!(out.iter().all(|&s| s == 1));
}

#[test]
fn uart_tx_drain_in_pieces() {
    // Draining in two buffers yields the same stream as in one.
    let n = 7usize;
    let mut tx1 = UartTx::new(n);
    let mut tx2 = UartTx::new(n);
    tx1.put_byte(0xC3);
    tx2.put_byte(0xC3);
    let mut whole = vec![0u8; 10 * n + 5];
    tx1.get_samples(&mut whole);
    let mut first = vec![0u8; 13];
    let mut second = vec![0u8; 10 * n + 5 - 13];
    tx2.get_samples(&mut first);
    tx2.get_samples(&mut second);
    first.extend_from_slice(&second);
    assert_eq!(whole, first);
}

#[test]
fn uart_round_trip_smallest_symbol() {
    // Clean round trip at the smallest symbol length the deframer's
    // mid-bit sampling supports.
    let n = 20usize;
    let mut tx = UartTx::new(n);
    let mut rx = UartRx::new(n);
    let msg = [0x00u8, 0xFF, 0xA5, 0x5A, 0x01, 0x80];
    let mut stream = vec![1u8; 3 * n];
    for b in &msg {
        tx.put_byte(*b);
    }
    let mut frames = vec![0u8; 10 * n * msg.len()];
    tx.get_samples(&mut frames);
    stream.extend_from_slice(&frames);
    stream.extend_from_slice(&vec![1u8; 2 * n]);
    let cut = 3 * n + 7;
    let mut got = rx.put_samples(&stream[..cut]);
    got.extend(rx.put_samples(&stream[cut..]));
    assert_eq!(got, msg);
}

#[test]
fn uart_rx_emits_on_bad_stop_and_resyncs() {
    // A corrupted stop bit does not cost the byte: it is emitted when the
    // stop bit expires, and the machine resynchronizes on the next start.
    let n = 20usize;
    let mut tx = UartTx::new(n);
    let mut rx = UartRx::new(n);
    tx.put_byte(0x3C);
    tx.put_byte(0x77);
    let mut stream = vec![0u8; 20 * n];
    tx.get_samples(&mut stream);
    // Corrupt the whole stop bit of the first frame.
    for i in 9 * n..10 * n {
        stream[i] = 0;
    }
    let mut padded = stream.clone();
    padded.extend_from_slice(&vec![1u8; n]);
    let got = rx.put_samples(&padded);
    assert_eq!(got, vec![0x3C, 0x77]);
}

#[test]
fn v21_tx_exact_first_samples() {
    // The first output sample is the sine of phase zero; the second is
    // the Q15 sine of one mark increment at 48 kHz.
    let mut tx = V21TX::new(48000, 980, 1180);
    let input = vec![1u8, 1];
    let mut out = vec![0i32; 2];
    tx.modulate(&input, &mut out);
    assert_eq!(out[0], 0);
    assert_eq!(out[1], 4192);
}

#[test]
fn v21_tx_phase_continuous_across_buffers() {
    // Modulating one buffer or the same samples split in two gives the
    // identical waveform: the phase accumulator is never reset.
    let bits: Vec<u8> = (0..2000).map(|i| ((i / 160) % 2) as u8).collect();
    let mut tx1 = V21TX::new(48000, 980, 1180);
    let mut whole = vec![0i32; bits.len()];
    tx1.modulate(&bits, &mut whole);
    let mut tx2 = V21TX::new(48000, 980, 1180);
    let cut = 333;
    let mut a = vec![0i32; cut];
    let mut b = vec![0i32; bits.len() - cut];
    tx2.modulate(&bits[..cut], &mut a);
    tx2.modulate(&bits[cut..], &mut b);
    a.extend_from_slice(&b);
    assert_eq!(whole, a);
}

#[test]
fn v21_rx_deterministic_under_splits() {
    // Identical input samples give identical hard decisions however the
    // stream is cut into buffers.
    let n = 160usize;
    let mut tx = UartTx::new(n);
    for b in [0x12u8, 0xEF, 0x55] {
        tx.put_byte(b);
    }
    let mut bits = vec![1u8; 4 * n];
    let mut frames = vec![0u8; 30 * n + 2 * n];
    let mut tx_bits = vec![0u8; 4 * n];
    tx.get_samples(&mut tx_bits);
    bits.copy_from_slice(&tx_bits);
    tx.get_samples(&mut frames);
    bits.extend_from_slice(&frames);
    let mut mtx = V21TX::new(48000, 980, 1180);
    let mut audio = vec![0i32; bits.len()];
    mtx.modulate(&bits, &mut audio);

    let mut rx1 = V21RX::new(48000, n, 980, 1180);
    let mut whole = vec![0u8; audio.len()];
    rx1.demodulate(&audio, &mut whole);

    let mut rx2 = V21RX::new(48000, n, 980, 1180);
    let cut = 1234;
    let mut a = vec![0u8; cut];
    let mut b = vec![0u8; audio.len() - cut];
    rx2.demodulate(&audio[..cut], &mut a);
    rx2.demodulate(&audio[cut..], &mut b);
    a.extend_from_slice(&b);
    assert_eq!(whole, a);
}

#[test]
fn v21_rx_warmup_is_mark() {
    // Before a full symbol of input has arrived, every decision is mark,
    // so the deframer cannot see a phantom start bit.
    let n = 147usize;
    let mut rx = V21RX::new(44100, n, 980, 1180);
    let silence = vec![0i32; n];
    let mut out = vec![0u8; n];
    rx.demodulate(&silence, &mut out);
    assert!(out.iter().all(|&b| b == 1));
}
