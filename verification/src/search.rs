//! The choice of a code for one sample: the code whose reconstruction error,
//! summed over the sample itself and a bounded number of samples after it, is
//! least.
//!
//! Errors are squares of differences of 16-bit values, summed over at most
//! 256 samples, so they are held exactly in a `u64`.

use vstd::arithmetic::div_mod::{lemma_fundamental_div_mod, lemma_mod_bound};
use vstd::prelude::*;
use crate::util::{
    advance_index, calculate_delta, clamp_sample, spec_calculate_delta, ADPCMChannel, STEP_TABLE,
};

verus! {

/// The largest squared error of one sample: both values lie in the 16-bit
/// range.
pub const MAX_SQUARED_ERROR: u64 = 4294836225;

/// The square of the distance between a reconstructed sample and its target.
pub open spec fn spec_squared_error(reconstructed: int, target: int) -> int {
    (reconstructed - target) * (reconstructed - target)
}

/// The code tried first: the distance to the target in quarters of the step,
/// rounded down and cut off at 7, with the sign bit set where the target lies
/// below the predicted sample.
pub open spec fn spec_first_guess(channel: ADPCMChannel, sample: i16) -> u8 {
    let delta = sample - channel.pcmdata;
    let step = STEP_TABLE[channel.index as int] as int;
    if delta < 0 {
        let quarters = (-delta * 4) / step;
        (if quarters < 7 {
            quarters + 8
        } else {
            15
        }) as u8
    } else {
        let quarters = (delta * 4) / step;
        (if quarters < 7 {
            quarters
        } else {
            7
        }) as u8
    }
}

/// The squared error that `code` leaves on `sample` itself.
pub open spec fn spec_immediate_error(channel: ADPCMChannel, code: u8, sample: i16) -> int {
    spec_squared_error(channel.advance(code).pcmdata as int, sample as int)
}

/// The error of choosing `code` for `sample`: its own squared error and, while
/// lookahead is left, the least error that can then be had on the samples of
/// `future`.
pub open spec fn spec_total_error(
    channel: ADPCMChannel,
    code: u8,
    sample: i16,
    future: Seq<i16>,
    lookahead: nat,
) -> int
    decreases lookahead, 0nat,
{
    spec_immediate_error(channel, code, sample) + if lookahead == 0 {
        0
    } else {
        spec_best_among(
            channel.advance(code),
            future[0],
            future.skip(1),
            (lookahead - 1) as nat,
            16,
        ).0
    }
}

/// The least total error and the code that has it, among the first guess and
/// the codes below `limit`. The first guess stands unless another code is
/// strictly better, and of two codes that are equally good the lower one
/// stands. Without lookahead the first guess is the only code looked at.
pub open spec fn spec_best_among(
    channel: ADPCMChannel,
    sample: i16,
    future: Seq<i16>,
    lookahead: nat,
    limit: nat,
) -> (int, u8)
    decreases lookahead, 1 + limit,
{
    let guess = spec_first_guess(channel, sample);
    if limit == 0 || lookahead == 0 {
        (spec_total_error(channel, guess, sample, future, lookahead), guess)
    } else {
        let best = spec_best_among(channel, sample, future, lookahead, (limit - 1) as nat);
        let code = (limit - 1) as u8;
        let total = spec_total_error(channel, code, sample, future, lookahead);
        if code != guess && total < best.0 {
            (total, code)
        } else {
            best
        }
    }
}

/// The least cumulative error for `sample`, and the code chosen for it, when
/// `lookahead` of the samples in `future` are taken into account.
pub open spec fn spec_minimum_error(
    channel: ADPCMChannel,
    sample: i16,
    future: Seq<i16>,
    lookahead: nat,
) -> (int, u8) {
    spec_best_among(channel, sample, future, lookahead, 16)
}

/// The code that the encoder emits for the first sample of `samples`. The
/// samples after it serve as lookahead, as far as there are any.
pub open spec fn spec_encode_sample(channel: ADPCMChannel, samples: Seq<i16>, lookahead: u8) -> u8 {
    let depth = if lookahead < samples.len() - 1 {
        lookahead as nat
    } else {
        (samples.len() - 1) as nat
    };
    spec_minimum_error(channel, samples[0], samples.skip(1), depth).1
}

/// The index that follows `index` after `code`, as a value of its own type.
pub open spec fn advance_index_value(index: usize, code: u8) -> usize {
    (ADPCMChannel { pcmdata: 0, index }).advance(code).index
}

/// The first guess is a code of four bits.
pub proof fn lemma_first_guess_is_code(channel: ADPCMChannel, sample: i16)
    requires
        channel.wf(),
    ensures
        spec_first_guess(channel, sample) < 16,
{
    let delta = sample - channel.pcmdata;
    let step = STEP_TABLE[channel.index as int] as int;
    assert(step >= 7);
    if delta < 0 {
        assert((-delta * 4) / step >= 0) by (nonlinear_arith)
            requires
                -delta * 4 >= 0,
                step > 0,
        ;
    } else {
        assert((delta * 4) / step >= 0) by (nonlinear_arith)
            requires
                delta * 4 >= 0,
                step > 0,
        ;
    }
}

/// The squared error of one sample is at most `MAX_SQUARED_ERROR`.
pub proof fn lemma_immediate_error_bounds(channel: ADPCMChannel, code: u8, sample: i16)
    requires
        channel.wf(),
    ensures
        0 <= spec_immediate_error(channel, code, sample) <= MAX_SQUARED_ERROR,
{
    let d = channel.advance(code).pcmdata as int - sample as int;
    assert(0 <= d * d <= 4294836225) by (nonlinear_arith)
        requires
            -65535 <= d <= 65535,
    ;
}

/// A total error over `lookahead` further samples is at most `lookahead + 1`
/// times the largest squared error.
pub proof fn lemma_total_error_bounds(
    channel: ADPCMChannel,
    code: u8,
    sample: i16,
    future: Seq<i16>,
    lookahead: nat,
)
    requires
        channel.wf(),
    ensures
        0 <= spec_total_error(channel, code, sample, future, lookahead) <= (lookahead + 1)
            * MAX_SQUARED_ERROR,
    decreases lookahead, 0nat,
{
    lemma_immediate_error_bounds(channel, code, sample);
    if lookahead > 0 {
        lemma_best_among_bounds(
            channel.advance(code),
            future[0],
            future.skip(1),
            (lookahead - 1) as nat,
            16,
        );
    }
    assert((lookahead + 1) * MAX_SQUARED_ERROR == lookahead * MAX_SQUARED_ERROR
        + MAX_SQUARED_ERROR) by (nonlinear_arith);
}

/// The least error found is at most `lookahead + 1` times the largest squared
/// error, and the code found has four bits.
pub proof fn lemma_best_among_bounds(
    channel: ADPCMChannel,
    sample: i16,
    future: Seq<i16>,
    lookahead: nat,
    limit: nat,
)
    requires
        channel.wf(),
        limit <= 16,
    ensures
        0 <= spec_best_among(channel, sample, future, lookahead, limit).0 <= (lookahead + 1)
            * MAX_SQUARED_ERROR,
        spec_best_among(channel, sample, future, lookahead, limit).1 < 16,
    decreases lookahead, 1 + limit,
{
    let guess = spec_first_guess(channel, sample);
    lemma_first_guess_is_code(channel, sample);
    if limit == 0 || lookahead == 0 {
        lemma_total_error_bounds(channel, guess, sample, future, lookahead);
    } else {
        lemma_best_among_bounds(channel, sample, future, lookahead, (limit - 1) as nat);
        lemma_total_error_bounds(channel, (limit - 1) as u8, sample, future, lookahead);
    }
}

/// With lookahead, no code of four bits has a smaller total error than the one
/// that the search returns, and the code it returns has exactly that error.
pub proof fn lemma_minimum_error_is_least(
    channel: ADPCMChannel,
    sample: i16,
    future: Seq<i16>,
    lookahead: nat,
    code: u8,
)
    requires
        channel.wf(),
        lookahead > 0,
        code < 16,
    ensures
        spec_minimum_error(channel, sample, future, lookahead).0 <= spec_total_error(
            channel,
            code,
            sample,
            future,
            lookahead,
        ),
        spec_minimum_error(channel, sample, future, lookahead).0 == spec_total_error(
            channel,
            spec_minimum_error(channel, sample, future, lookahead).1,
            sample,
            future,
            lookahead,
        ),
{
    lemma_best_among_is_least(channel, sample, future, lookahead, 16, code);
}

/// What `lemma_minimum_error_is_least` says, for the codes below `limit` and
/// the first guess.
pub proof fn lemma_best_among_is_least(
    channel: ADPCMChannel,
    sample: i16,
    future: Seq<i16>,
    lookahead: nat,
    limit: nat,
    code: u8,
)
    requires
        channel.wf(),
        lookahead > 0,
        limit <= 16,
        code < limit || code == spec_first_guess(channel, sample),
    ensures
        spec_best_among(channel, sample, future, lookahead, limit).0 <= spec_total_error(
            channel,
            code,
            sample,
            future,
            lookahead,
        ),
        spec_best_among(channel, sample, future, lookahead, limit).0 == spec_total_error(
            channel,
            spec_best_among(channel, sample, future, lookahead, limit).1,
            sample,
            future,
            lookahead,
        ),
    decreases limit,
{
    if limit > 0 {
        let guess = spec_first_guess(channel, sample);
        lemma_best_among_is_least(channel, sample, future, lookahead, (limit - 1) as nat, guess);
        if code < limit - 1 || code == guess {
            lemma_best_among_is_least(
                channel,
                sample,
                future,
                lookahead,
                (limit - 1) as nat,
                code,
            );
        }
    }
}

/// The distance between two values.
pub open spec fn spec_distance(a: int, b: int) -> int {
    if a >= b {
        a - b
    } else {
        b - a
    }
}

/// How near the first guess comes to its target.
///
/// Where the target lies less than twice the step from the predicted sample,
/// the sample reconstructed from the first guess misses it by at most an
/// eighth of the step and 2. Where it lies further off, the largest code is
/// chosen, and the sample misses the target by no more than that code falls
/// short of the distance.
pub proof fn lemma_first_guess_error(channel: ADPCMChannel, sample: i16)
    requires
        channel.wf(),
    ensures
        ({
            let step = STEP_TABLE[channel.index as int];
            let distance = spec_distance(sample as int, channel.pcmdata as int);
            let error = spec_distance(
                channel.advance(spec_first_guess(channel, sample)).pcmdata as int,
                sample as int,
            );
            &&& distance < 2 * step ==> error <= step / 8 + 2
            &&& distance >= 2 * step ==> error <= distance - spec_calculate_delta(step, 7)
        }),
{
    let step = STEP_TABLE[channel.index as int] as int;
    let distance = spec_distance(sample as int, channel.pcmdata as int);
    let quarters = (distance * 4) / step;
    assert(step >= 7);
    lemma_fundamental_div_mod(distance * 4, step);
    lemma_mod_bound(distance * 4, step);
    assert(quarters * step <= distance * 4 < quarters * step + step) by (nonlinear_arith)
        requires
            distance * 4 == step * quarters + (distance * 4) % step,
            0 <= (distance * 4) % step < step,
    ;
    assert(quarters >= 0) by (nonlinear_arith)
        requires
            distance * 4 < quarters * step + step,
            distance >= 0,
            step > 0,
    ;
    if quarters == 0 {
        assert(quarters * step == 0) by (nonlinear_arith)
            requires
                quarters == 0,
        ;
    } else if quarters == 1 {
        assert(quarters * step == step) by (nonlinear_arith)
            requires
                quarters == 1,
        ;
    } else if quarters == 2 {
        assert(quarters * step == 2 * step);
    } else if quarters == 3 {
        assert(quarters * step == 3 * step);
    } else if quarters == 4 {
        assert(quarters * step == 4 * step);
    } else if quarters == 5 {
        assert(quarters * step == 5 * step);
    } else if quarters == 6 {
        assert(quarters * step == 6 * step);
    } else if quarters == 7 {
        assert(quarters * step == 7 * step);
    } else {
        assert(quarters * step >= 8 * step) by (nonlinear_arith)
            requires
                quarters >= 8,
                step > 0,
        ;
    }
}

/// The square of the distance between two samples.
pub fn squared_error(reconstructed: i32, target: i16) -> (error: u64)
    requires
        -32768 <= reconstructed <= 32767,
    ensures
        error == spec_squared_error(reconstructed as int, target as int),
        error <= MAX_SQUARED_ERROR,
{
    let target = target as i32;
    let distance: u64 = if reconstructed >= target {
        (reconstructed - target) as u64
    } else {
        (target - reconstructed) as u64
    };
    assert(distance * distance <= 4294836225 && distance * distance == (reconstructed - target)
        * (reconstructed - target)) by (nonlinear_arith)
        requires
            0 <= distance <= 65535,
            distance == reconstructed - target || distance == target - reconstructed,
    ;
    distance * distance
}

/// The code tried first for `sample`, from the distance to the predicted
/// sample in quarters of the current step.
pub fn first_guess(index: usize, pcmdata: i32, sample: i16) -> (nibble: u8)
    requires
        index < 89,
        -32768 <= pcmdata <= 32767,
    ensures
        nibble == spec_first_guess(ADPCMChannel { pcmdata, index }, sample),
        nibble < 16,
{
    let delta = sample as i32 - pcmdata;
    let step = STEP_TABLE[index] as u32;
    assert(step >= 7);
    if delta < 0 {
        let scaled = (-delta * 4) as u32;
        let quarters = scaled / step;
        if quarters < 7 {
            quarters as u8 + 8
        } else {
            15
        }
    } else {
        let scaled = (delta * 4) as u32;
        let quarters = scaled / step;
        if quarters < 7 {
            quarters as u8
        } else {
            7
        }
    }
}

/// Calculate minimum error recursively.
///
/// Returns the least cumulative error that can be had for `sample` and the
/// first `lookahead` samples of `samples`, and stores the code that has it in
/// `best_nibble`. A code whose own error already reaches the best total found
/// so far is passed over without looking further ahead: it cannot win.
pub fn calculate_minimum_error(
    index: usize,
    pcmdata: i32,
    sample: i16,
    samples: &[i16],
    lookahead: u8,
    best_nibble: &mut u8,
) -> (min_error: u64)
    requires
        index < 89,
        -32768 <= pcmdata <= 32767,
        lookahead <= samples.len(),
    ensures
        (min_error as int, *final(best_nibble)) == spec_minimum_error(
            ADPCMChannel { pcmdata, index },
            sample,
            samples@,
            lookahead as nat,
        ),
        *final(best_nibble) < 16,
        min_error <= (lookahead + 1) * MAX_SQUARED_ERROR,
    decreases lookahead,
{
    let ghost channel = ADPCMChannel { pcmdata, index };
    let ghost depth = lookahead as nat;
    proof {
        lemma_best_among_bounds(channel, sample, samples@, depth, 16);
    }
    let step = STEP_TABLE[index];

    // Encode our nibble
    let nibble = first_guess(index, pcmdata, sample);
    *best_nibble = nibble;

    // Calculate the minimum error. Return if base case.
    let pcmdata_a = clamp_sample(pcmdata + calculate_delta(step, nibble));
    let mut min_error = squared_error(pcmdata_a, sample);
    if lookahead == 0 {
        assert(channel.advance(nibble).pcmdata == pcmdata_a);
        assert(spec_immediate_error(channel, nibble, sample) == min_error);
        assert(spec_total_error(channel, nibble, sample, samples@, 0) == min_error);
        assert(spec_best_among(channel, sample, samples@, 0, 16) == (min_error as int, nibble));
        return min_error;
    }
    let rest = &samples[1..samples.len()];
    assert(rest@ == samples@.skip(1));
    let mut unused: u8 = 0;
    let next_a = calculate_minimum_error(
        advance_index(index, nibble),
        pcmdata_a,
        samples[0],
        rest,
        lookahead - 1,
        &mut unused,
    );
    proof {
        lemma_total_error_bounds(channel, nibble, sample, samples@, depth);
        assert(channel.advance(nibble) == ADPCMChannel {
            pcmdata: pcmdata_a,
            index: advance_index_value(index, nibble),
        });
    }
    min_error += next_a;
    assert(spec_best_among(channel, sample, samples@, depth, 0) == (min_error as int, nibble));

    // Calculate all other possible nibbles
    let mut nibble2: u8 = 0;
    while nibble2 < 16
        invariant
            nibble2 <= 16,
            index < 89,
            -32768 <= pcmdata <= 32767,
            0 < lookahead <= samples.len(),
            depth == lookahead,
            channel == (ADPCMChannel { pcmdata, index }),
            step == STEP_TABLE[index as int],
            nibble == spec_first_guess(channel, sample),
            rest@ == samples@.skip(1),
            (min_error as int, *best_nibble) == spec_best_among(
                channel,
                sample,
                samples@,
                depth,
                nibble2 as nat,
            ),
        decreases 16 - nibble2,
    {
        proof {
            lemma_best_among_bounds(channel, sample, samples@, depth, nibble2 as nat);
            lemma_total_error_bounds(channel, nibble2, sample, samples@, depth);
            lemma_immediate_error_bounds(channel, nibble2, sample);
        }
        if nibble2 != nibble {
            let pcmdata_b = clamp_sample(pcmdata + calculate_delta(step, nibble2));
            let error = squared_error(pcmdata_b, sample);

            // If the error is already too high, skip so we don't do any (possibly) slow recursion
            if error < min_error {
                let next_b = calculate_minimum_error(
                    advance_index(index, nibble2),
                    pcmdata_b,
                    samples[0],
                    rest,
                    lookahead - 1,
                    &mut unused,
                );
                proof {
                    assert(channel.advance(nibble2) == ADPCMChannel {
                        pcmdata: pcmdata_b,
                        index: advance_index_value(index, nibble2),
                    });
                }
                let error = error + next_b;
                if error < min_error {
                    *best_nibble = nibble2;
                    min_error = error;
                }
            } else {
                proof {
                    lemma_best_among_bounds(
                        channel.advance(nibble2),
                        samples@[0],
                        samples@.skip(1),
                        (depth - 1) as nat,
                        16,
                    );
                }
            }
        }
        nibble2 += 1;
    }
    min_error
}

/// Encode the samples.
///
/// Chooses the code for the first sample of `samples`, with the samples after
/// it as lookahead, and moves the channel's state on by that code.
pub fn encode_sample(pchan: &mut ADPCMChannel, lookahead: u8, samples: &[i16]) -> (nibble: u8)
    requires
        old(pchan).wf(),
        samples.len() >= 1,
    ensures
        nibble == spec_encode_sample(*old(pchan), samples@, lookahead),
        nibble < 16,
        *final(pchan) == old(pchan).advance(nibble),
        final(pchan).wf(),
{
    let current_sample = samples[0];
    let next_samples = &samples[1..samples.len()];
    assert(next_samples@ == samples@.skip(1));
    let step = STEP_TABLE[pchan.index];
    let depth: u8 = if (lookahead as usize) < next_samples.len() {
        lookahead
    } else {
        next_samples.len() as u8
    };

    let mut nibble: u8 = 0;
    calculate_minimum_error(
        pchan.index,
        pchan.pcmdata,
        current_sample,
        next_samples,
        depth,
        &mut nibble,
    );
    pchan.index = advance_index(pchan.index, nibble);
    pchan.pcmdata = clamp_sample(pchan.pcmdata + calculate_delta(step, nibble));

    nibble
}

} // verus!
