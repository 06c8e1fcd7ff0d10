use xbox_adpcm::search::{calculate_minimum_error, encode_sample, first_guess, squared_error};
use xbox_adpcm::util::{
    advance_index, calculate_delta, clamp_sample, ADPCMChannel, INDEX_TABLE, STEP_TABLE,
};

/// The search without its shortcut: every code is followed to the end.
fn exhaustive(index: usize, pcmdata: i32, sample: i16, samples: &[i16], lookahead: u8) -> (u64, u8) {
    let step = STEP_TABLE[index];
    let total = |code: u8| -> u64 {
        let next = clamp_sample(pcmdata + calculate_delta(step, code));
        let own = squared_error(next, sample);
        if lookahead == 0 {
            own
        } else {
            own + exhaustive(advance_index(index, code), next, samples[0], &samples[1..], lookahead - 1).0
        }
    };
    let guess = first_guess(index, pcmdata, sample);
    let mut best = (total(guess), guess);
    if lookahead > 0 {
        for code in 0..16u8 {
            if code != guess && total(code) < best.0 {
                best = (total(code), code);
            }
        }
    }
    best
}

#[test]
fn squared_error_is_the_square_of_the_distance() {
    assert_eq!(squared_error(0, 0), 0);
    assert_eq!(squared_error(3, -4), 49);
    assert_eq!(squared_error(-4, 3), 49);
    assert_eq!(squared_error(32767, -32768), 4294836225);
    assert_eq!(squared_error(-32768, 32767), 4294836225);
}

#[test]
fn first_guess_counts_quarters_of_the_step() {
    // step 7
    assert_eq!(first_guess(0, 0, 0), 0);
    assert_eq!(first_guess(0, 0, 1), 0);
    assert_eq!(first_guess(0, 0, 2), 1);
    assert_eq!(first_guess(0, 0, 7), 4);
    assert_eq!(first_guess(0, 0, 13), 7);
    assert_eq!(first_guess(0, 0, 14), 7);
    assert_eq!(first_guess(0, 0, 32767), 7);
    assert_eq!(first_guess(0, 0, -1), 8);
    assert_eq!(first_guess(0, 0, -2), 9);
    assert_eq!(first_guess(0, 0, -32768), 15);
    // step 32767
    assert_eq!(first_guess(88, 0, 8191), 0);
    assert_eq!(first_guess(88, 0, 8192), 1);
    assert_eq!(first_guess(88, -32768, 32767), 7);
    assert_eq!(first_guess(88, 32767, -32768), 15);
    // the predicted sample counts
    assert_eq!(first_guess(8, 100, 104), 1);
    assert_eq!(first_guess(8, 100, 96), 9);
}

#[test]
fn index_table_ignores_the_sign_bit() {
    for code in 0..8usize {
        assert_eq!(INDEX_TABLE[code], INDEX_TABLE[code + 8]);
    }
    assert_eq!(advance_index(0, 0), 0);
    assert_eq!(advance_index(0, 4), 2);
    assert_eq!(advance_index(10, 3), 9);
    assert_eq!(advance_index(10, 15), 18);
    assert_eq!(advance_index(88, 7), 88);
    assert_eq!(advance_index(85, 5), 88);
}

#[test]
fn step_table_rises() {
    assert_eq!(STEP_TABLE.len(), 89);
    assert_eq!(STEP_TABLE[0], 7);
    assert_eq!(STEP_TABLE[88], 32767);
    for i in 0..88 {
        assert!(STEP_TABLE[i] < STEP_TABLE[i + 1]);
    }
}

#[test]
fn minimum_error_has_the_expected_values() {
    let cases: [(usize, i32, i16, &[i16], u8, u64, u8); 15] = [
        (0, 0, 0, &[], 0, 0, 0),
        (0, 0, 100, &[], 0, 7921, 7),
        (10, 50, -70, &[], 0, 7396, 15),
        (88, 0, -32768, &[], 0, 0, 12),
        (20, -32768, 32767, &[], 0, 4282655364, 7),
        (0, 32767, -32768, &[], 0, 4293394576, 15),
        (5, 0, 10, &[20], 1, 4, 3),
        (5, 0, 10, &[20, -5, 40], 3, 10, 2),
        (30, 100, 90, &[300, 200], 2, 152, 8),
        (0, 0, 3, &[3, 3], 2, 0, 2),
        (40, -500, 700, &[-900, 800, 0, 35], 4, 361095, 7),
        (12, 0, 20, &[0, 0], 2, 6, 3),
        (12, 0, 20, &[0, 0], 1, 5, 3),
        (12, 0, 20, &[0, 0], 0, 4, 3),
        (60, -3000, 2500, &[2600, 2400, 2000, 1500, 900], 5, 1862323, 7),
    ];
    for (index, pcmdata, sample, samples, lookahead, error, code) in cases.iter() {
        let mut best = 0xFFu8;
        let found = calculate_minimum_error(*index, *pcmdata, *sample, samples, *lookahead, &mut best);
        assert_eq!((found, best), (*error, *code));
    }
}

#[test]
fn the_shortcut_does_not_change_the_choice() {
    let mut seed: u32 = 12345;
    let mut next = move || {
        seed = seed.wrapping_mul(1664525).wrapping_add(1013904223);
        (seed >> 8) as i32
    };
    for _ in 0..300 {
        let index = (next() % 89) as usize;
        let pcmdata = next() % 65536 - 32768;
        let spread = 1 + next() % 3000;
        let around = pcmdata + next() % 2000 - 1000;
        let samples: Vec<i16> =
            (0..4).map(|_| (around + next() % spread - spread / 2).clamp(-32768, 32767) as i16).collect();
        for lookahead in 0..3u8 {
            let mut best = 0u8;
            let found =
                calculate_minimum_error(index, pcmdata, samples[0], &samples[1..], lookahead, &mut best);
            assert_eq!((found, best), exhaustive(index, pcmdata, samples[0], &samples[1..], lookahead));
        }
    }
}

#[test]
fn encode_sample_moves_the_channel_on() {
    let mut channel = ADPCMChannel { pcmdata: 0, index: 0 };
    let code = encode_sample(&mut channel, 0, &[100]);
    assert_eq!(code, 7);
    assert_eq!(channel.pcmdata, 11);
    assert_eq!(channel.index, 8);
    let code = encode_sample(&mut channel, 0, &[0, 50]);
    // 11 down to 0 at step 16: two quarters, sign bit set
    assert_eq!(code, 10);
    assert_eq!(channel.pcmdata, 11 - 10);
    assert_eq!(channel.index, 7);
}

#[test]
fn encode_sample_looks_no_further_than_the_samples_go() {
    let mut short = ADPCMChannel { pcmdata: 0, index: 12 };
    let mut long = ADPCMChannel { pcmdata: 0, index: 12 };
    assert_eq!(encode_sample(&mut short, 1, &[20, 0]), encode_sample(&mut long, 200, &[20, 0]));
    assert_eq!(short.pcmdata, long.pcmdata);
    let mut alone = ADPCMChannel { pcmdata: 0, index: 12 };
    let mut blind = ADPCMChannel { pcmdata: 0, index: 12 };
    assert_eq!(encode_sample(&mut alone, 9, &[20]), encode_sample(&mut blind, 0, &[20, 0, 0]));
}

#[test]
fn first_guess_comes_within_an_eighth_of_the_step() {
    for index in [0usize, 1, 7, 20, 45, 70, 88] {
        let step = STEP_TABLE[index] as i32;
        for pcmdata in [-32768i32, -20000, -1, 0, 5, 12345, 32767] {
            for offset in -300i32..300 {
                let target = (pcmdata + offset * (step / 64 + 1)).clamp(-32768, 32767);
                let code = first_guess(index, pcmdata, target as i16);
                let next = clamp_sample(pcmdata + calculate_delta(STEP_TABLE[index], code));
                let distance = (target - pcmdata).abs();
                let error = (next - target).abs();
                if distance < 2 * step {
                    assert!(error <= step / 8 + 2, "{} {} {}", index, pcmdata, target);
                } else {
                    assert!(error <= distance - calculate_delta(STEP_TABLE[index], 7));
                }
            }
        }
    }
}

#[test]
fn with_lookahead_no_code_does_better_than_the_one_found() {
    let samples: [i16; 4] = [40, -35, 90, 10];
    for index in [0usize, 10, 30] {
        let mut best = 0u8;
        let found = calculate_minimum_error(index, 0, samples[0], &samples[1..], 2, &mut best);
        for code in 0..16u8 {
            let next = clamp_sample(calculate_delta(STEP_TABLE[index], code));
            let mut unused = 0u8;
            let total = squared_error(next, samples[0])
                + calculate_minimum_error(
                    advance_index(index, code),
                    next,
                    samples[1],
                    &samples[2..],
                    1,
                    &mut unused,
                );
            assert!(found <= total);
            if code == best {
                assert_eq!(found, total);
            }
        }
    }
}
