//! What the decoder makes of a block that the encoder has packed.
//!
//! The format loses information: the samples that come back are not the ones
//! that went in. They are the ones that the encoder itself arrived at while it
//! chose the codes, so that the error of each sample is the one that the
//! search had before it when it made its choice.

use vstd::prelude::*;
use crate::decoder::{lemma_decode_stream_len, spec_decode_stream};
use crate::encoder::{
    lemma_body_byte, lemma_pack_state_wf, lemma_whole_blocks_size, spec_count, spec_encode_block,
    spec_encode_stream, spec_encoded_byte, spec_even, spec_finish, spec_fresh_state,
    spec_pack_code, spec_pack_start, spec_pack_state,
};
use crate::format::{
    lemma_header_sample_round_trip, spec_block_code, spec_block_start, spec_block_state,
    spec_code_offset, spec_decode_channel,
};
use crate::search::{lemma_first_guess_error, spec_distance, spec_first_guess};
use crate::util::{ADPCMChannel, STEP_TABLE};

verus! {

/// There are between 1 and 8 windows of 66 samples, and as many channel
/// states, each within its ranges.
pub open spec fn spec_block_input(windows: Seq<Seq<i16>>, predictors: Seq<ADPCMChannel>) -> bool {
    &&& 0 < windows.len() <= 8
    &&& predictors.len() == windows.len()
    &&& forall|ch: int|
        0 <= ch < windows.len() ==> (#[trigger] windows[ch]).len() == 66 && predictors[ch].wf()
}

/// The decoder finds in a packed block the codes that the encoder chose.
pub proof fn lemma_block_code_round_trip(
    windows: Seq<Seq<i16>>,
    predictors: Seq<ADPCMChannel>,
    lookahead: u8,
    ch: int,
    k: nat,
)
    requires
        spec_block_input(windows, predictors),
        0 <= ch < windows.len(),
        k < 64,
    ensures
        spec_block_code(
            spec_encode_block(windows, predictors, lookahead),
            windows.len() as int,
            ch,
            k as int,
        ) == spec_pack_code(
            spec_pack_start(windows[ch], predictors[ch]),
            windows[ch],
            lookahead,
            k,
        ),
{
    let channels = windows.len() as int;
    let chunk = k as int / 8;
    let b = (k as int % 8) / 2;
    let start = spec_pack_start(windows[ch], predictors[ch]);
    let even = (8 * chunk + 2 * b) as nat;
    lemma_body_byte(windows, predictors, lookahead, chunk, ch, b);
    lemma_pack_state_wf(start, windows[ch], lookahead, even);
    lemma_pack_state_wf(start, windows[ch], lookahead, even + 1);
    assert(spec_code_offset(channels, ch, k as int) == 4 * channels + chunk * (4 * channels) + 4
        * ch + b);
    assert(k == even || k == even + 1);
}

/// While it decodes a packed block, the decoder goes through the states that
/// the encoder went through while it packed it.
pub proof fn lemma_block_state_round_trip(
    windows: Seq<Seq<i16>>,
    predictors: Seq<ADPCMChannel>,
    lookahead: u8,
    ch: int,
    k: nat,
)
    requires
        spec_block_input(windows, predictors),
        0 <= ch < windows.len(),
        k <= 64,
    ensures
        spec_block_state(
            spec_encode_block(windows, predictors, lookahead),
            windows.len() as int,
            ch,
            k,
        ) == spec_pack_state(
            spec_pack_start(windows[ch], predictors[ch]),
            windows[ch],
            lookahead,
            k,
        ),
    decreases k,
{
    let channels = windows.len() as int;
    let block = spec_encode_block(windows, predictors, lookahead);
    if k == 0 {
        assert(block[4 * ch] == spec_encoded_byte(windows, predictors, lookahead, 4 * ch));
        assert(block[4 * ch + 1] == spec_encoded_byte(windows, predictors, lookahead, 4 * ch + 1));
        assert(block[4 * ch + 2] == spec_encoded_byte(windows, predictors, lookahead, 4 * ch + 2));
        assert(predictors[ch].wf());
        lemma_header_sample_round_trip(windows[ch][0]);
        assert(spec_block_start(block, ch) == spec_pack_start(windows[ch], predictors[ch]));
    } else {
        lemma_block_state_round_trip(windows, predictors, lookahead, ch, (k - 1) as nat);
        lemma_block_code_round_trip(windows, predictors, lookahead, ch, (k - 1) as nat);
    }
}

/// Sample `k` that the decoder gives for a channel of a packed block is the
/// sample that the encoder had reconstructed once it had chosen code `k`.
pub proof fn lemma_block_round_trip(
    windows: Seq<Seq<i16>>,
    predictors: Seq<ADPCMChannel>,
    lookahead: u8,
    ch: int,
    k: int,
)
    requires
        spec_block_input(windows, predictors),
        0 <= ch < windows.len(),
        0 <= k < 64,
    ensures
        spec_decode_channel(
            spec_encode_block(windows, predictors, lookahead),
            windows.len() as int,
            ch,
        )[k] == spec_pack_state(
            spec_pack_start(windows[ch], predictors[ch]),
            windows[ch],
            lookahead,
            (k + 1) as nat,
        ).pcmdata,
{
    lemma_block_state_round_trip(windows, predictors, lookahead, ch, (k + 1) as nat);
    lemma_pack_state_wf(
        spec_pack_start(windows[ch], predictors[ch]),
        windows[ch],
        lookahead,
        (k + 1) as nat,
    );
}

/// Without lookahead, a sample that comes back from a packed block lies
/// within an eighth of the step then in use, and 2, of the sample that went
/// in, wherever that sample lay less than twice the step from the sample
/// reconstructed before it.
pub proof fn lemma_block_error_without_lookahead(
    windows: Seq<Seq<i16>>,
    predictors: Seq<ADPCMChannel>,
    ch: int,
    k: int,
)
    requires
        spec_block_input(windows, predictors),
        0 <= ch < windows.len(),
        0 <= k < 64,
    ensures
        ({
            let start = spec_pack_start(windows[ch], predictors[ch]);
            let state = spec_pack_state(start, windows[ch], 0, k as nat);
            let step = STEP_TABLE[state.index as int];
            let target = windows[ch][k + 1];
            let decoded = spec_decode_channel(
                spec_encode_block(windows, predictors, 0),
                windows.len() as int,
                ch,
            )[k];
            spec_distance(target as int, state.pcmdata as int) < 2 * step ==> spec_distance(
                decoded as int,
                target as int,
            ) <= step / 8 + 2
        }),
{
    let start = spec_pack_start(windows[ch], predictors[ch]);
    let state = spec_pack_state(start, windows[ch], 0, k as nat);
    let target = windows[ch][k + 1];
    lemma_block_round_trip(windows, predictors, 0, ch, k);
    lemma_pack_state_wf(start, windows[ch], 0, k as nat);
    lemma_pack_state_wf(start, windows[ch], 0, (k + 1) as nat);
    lemma_first_guess_error(state, target);
    assert(spec_pack_code(start, windows[ch], 0, k as nat) == spec_first_guess(state, target));
}

/// A session of whole blocks, finished and decoded, gives back as many samples
/// on each channel as went in.
pub proof fn lemma_round_trip_len(
    input: Seq<Seq<i16>>,
    lookahead: u8,
    channels: int,
    blocks: nat,
    ch: int,
)
    requires
        spec_even(input, channels),
        spec_count(input) == blocks * 64,
        0 <= ch < 8,
    ensures
        ({
            let encoded = spec_encode_stream(spec_fresh_state(channels), input, lookahead);
            let bytes = encoded.1 + spec_finish(encoded.0, lookahead);
            spec_decode_stream(Seq::empty(), bytes, channels).1[ch].len() == spec_count(input)
        }),
{
    let encoded = spec_encode_stream(spec_fresh_state(channels), input, lookahead);
    let bytes = encoded.1 + spec_finish(encoded.0, lookahead);
    lemma_whole_blocks_size(input, lookahead, channels, blocks);
    assert(blocks * channels * 36 == blocks * (36 * channels)) by (nonlinear_arith);
    lemma_decode_stream_len(bytes, channels, blocks, ch);
}

} // verus!
