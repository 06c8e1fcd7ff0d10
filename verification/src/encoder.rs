//! The encoder: samples come in, in pieces of any size; whenever a window of
//! one block and two samples more has come together, a block is packed and
//! its bytes go to the sink.

use vstd::arithmetic::div_mod::lemma_fundamental_div_mod_converse;
use vstd::prelude::*;
use crate::format::{
    spec_join_channels, spec_reserved_after, spec_sample_high, spec_sample_low,
};
use crate::search::{encode_sample, lemma_best_among_bounds, spec_encode_sample};
use crate::util::{
    ADPCMChannel, ADPCM_BLOCK_SIZE, ADPCM_BUFFER_SIZE, CHUNKS_PER_BLOCK, MAX_AUDIO_CHANNEL_COUNT,
    STEP_TABLE,
};

verus! {

/// Writer outputting ADPCM blocks.
///
/// This is implemented for [`Vec<u8>`](std::vec::Vec), which takes whatever
/// it is handed, and for a mutable reference to any sink, which does what
/// that sink does.
pub trait XboxADPCMEncodeSink {
    type Error;

    /// The bytes written so far.
    ///
    /// A sink says for itself what it holds. One that does not is taken to
    /// hold nothing, and can then not be shown to keep what is written.
    open spec fn written(&self) -> Seq<u8> {
        Seq::empty()
    }

    /// Whether the sink takes whatever it is handed. A sink that says so owes
    /// success, now and after every call. One that does not say so may fail.
    open spec fn infallible(&self) -> bool {
        false
    }

    /// Reserve an amount of bytes at the end of the output.
    ///
    /// Implementing this is optional, but it can be used to hint the amount of bytes to be written for allocations such as for memory-based buffers.
    #[allow(unused_variables)]
    fn reserve(&mut self, bytes_amount: usize) -> (r: Result<(), Self::Error>)
        ensures
            final(self).written() == old(self).written(),
            old(self).infallible() ==> r is Ok && final(self).infallible(),
    {
        Ok(())
    }

    /// Write the bytes to the end of the output.
    ///
    /// Implementing this is **required**.
    fn write(&mut self, bytes: &[u8]) -> (r: Result<(), Self::Error>)
        ensures
            r is Ok ==> final(self).written() == old(self).written() + bytes@,
            old(self).infallible() ==> r is Ok && final(self).infallible(),
    ;
}

impl XboxADPCMEncodeSink for Vec<u8> {
    type Error = ();

    open spec fn written(&self) -> Seq<u8> {
        self@
    }

    open spec fn infallible(&self) -> bool {
        true
    }

    fn reserve(&mut self, bytes_amount: usize) -> (r: Result<(), Self::Error>) {
        Vec::reserve(self, bytes_amount);
        Ok(())
    }

    fn write(&mut self, bytes: &[u8]) -> (r: Result<(), Self::Error>) {
        self.extend_from_slice(bytes);
        assert(self@ =~= old(self)@ + bytes@);
        Ok(())
    }
}

impl<'a, S: XboxADPCMEncodeSink> XboxADPCMEncodeSink for &'a mut S {
    type Error = S::Error;

    open spec fn written(&self) -> Seq<u8> {
        (**self).written()
    }

    open spec fn infallible(&self) -> bool {
        (**self).infallible()
    }

    fn reserve(&mut self, bytes_amount: usize) -> (r: Result<(), Self::Error>) {
        (**self).reserve(bytes_amount)
    }

    fn write(&mut self, bytes: &[u8]) -> (r: Result<(), Self::Error>) {
        (**self).write(bytes)
    }
}

/// Samples that the window holds beyond one block, so that the search can
/// look past the block's end.
pub const PCM_BUFFER_EXTRA: usize = 2;

/// Samples that the window holds when it is full.
pub const PCM_BUFFER_CAPACITY: usize = 66;

/// A division by 8 that rounds towards zero.
pub open spec fn spec_divide_by_eight(x: int) -> int {
    if x >= 0 {
        x / 8
    } else {
        -((-x) / 8)
    }
}

/// The decaying average of the steps from sample to sample over the first
/// `upto + 1` samples of a window: each step is added to the average so far
/// and the sum divided by 8, rounding towards zero.
pub open spec fn spec_decaying_average(window: Seq<i16>, upto: nat) -> int
    decreases upto,
{
    if upto == 0 {
        0
    } else {
        spec_divide_by_eight(
            spec_decaying_average(window, (upto - 1) as nat) + (window[upto as int] - window[upto
                - 1]),
        )
    }
}

/// The value halfway between two neighbours of the step table, rounded down.
pub open spec fn spec_step_midpoint(index: int) -> int {
    (STEP_TABLE[index] + STEP_TABLE[index + 1]) / 2
}

/// The first step index from `from` on whose midpoint lies above `average`,
/// or the last index of the table where there is none.
pub open spec fn spec_seed_index_from(average: int, from: nat) -> nat
    decreases 88 - from,
{
    if from >= 88 {
        88
    } else if average < spec_step_midpoint(from as int) {
        from
    } else {
        spec_seed_index_from(average, from + 1)
    }
}

/// The step index found for an average is the first whose midpoint lies above
/// the average, and the last of the table where no midpoint does.
pub proof fn lemma_seed_index_is_first(average: int, from: nat, below: int)
    requires
        from <= below < spec_seed_index_from(average, from),
    ensures
        spec_seed_index_from(average, from) <= 88,
        average >= spec_step_midpoint(below),
        spec_seed_index_from(average, from) < 88 ==> average < spec_step_midpoint(
            spec_seed_index_from(average, from) as int,
        ),
    decreases 88 - from,
{
    if from < 88 && average >= spec_step_midpoint(from as int) {
        if below > from {
            lemma_seed_index_is_first(average, from + 1, below);
        } else {
            lemma_seed_index_found(average, from + 1);
        }
    }
}

/// The step index found for an average lies in the table, from `from` on, and
/// unless it is the last one its midpoint lies above the average.
pub proof fn lemma_seed_index_found(average: int, from: nat)
    requires
        from <= 88,
    ensures
        from <= spec_seed_index_from(average, from) <= 88,
        spec_seed_index_from(average, from) < 88 ==> average < spec_step_midpoint(
            spec_seed_index_from(average, from) as int,
        ),
    decreases 88 - from,
{
    if from < 88 && average >= spec_step_midpoint(from as int) {
        lemma_seed_index_found(average, from + 1);
    }
}

/// The state that a channel is given before its first block: no sample, and
/// the step index that fits the decaying average of the first window.
pub open spec fn spec_initial_channel(window: Seq<i16>) -> ADPCMChannel {
    ADPCMChannel {
        pcmdata: 0,
        index: spec_seed_index_from(
            spec_decaying_average(window, (window.len() - 1) as nat),
            0,
        ) as usize,
    }
}

/// The channels' states with which a block is packed: those at hand, or
/// those that the windows give where there are none yet.
pub open spec fn spec_seeds(windows: Seq<Seq<i16>>, predictors: Option<Seq<ADPCMChannel>>) -> Seq<
    ADPCMChannel,
> {
    match predictors {
        Some(given) => given,
        None => Seq::new(windows.len(), |ch: int| spec_initial_channel(windows[ch])),
    }
}

/// The state in which a channel starts a block: the first sample of the
/// window is the reference sample, the step index is the one at hand.
pub open spec fn spec_pack_start(window: Seq<i16>, predictor: ADPCMChannel) -> ADPCMChannel {
    ADPCMChannel { pcmdata: window[0] as i32, index: predictor.index }
}

/// The state of a channel once the first `k` samples after the reference
/// sample have been given their codes.
pub open spec fn spec_pack_state(
    start: ADPCMChannel,
    window: Seq<i16>,
    lookahead: u8,
    k: nat,
) -> ADPCMChannel
    decreases k, 0nat,
{
    if k == 0 {
        start
    } else {
        spec_pack_state(start, window, lookahead, (k - 1) as nat).advance(
            spec_pack_code(start, window, lookahead, (k - 1) as nat),
        )
    }
}

/// Code `k` of a channel's block: the one chosen for sample `k + 1` of the
/// window, with the samples behind it as lookahead.
pub open spec fn spec_pack_code(start: ADPCMChannel, window: Seq<i16>, lookahead: u8, k: nat) -> u8
    decreases k, 1nat,
{
    spec_encode_sample(
        spec_pack_state(start, window, lookahead, k),
        window.subrange(k as int + 1, window.len() as int),
        lookahead,
    )
}

/// Byte `i` of the block that is packed from full windows.
pub open spec fn spec_encoded_byte(
    windows: Seq<Seq<i16>>,
    predictors: Seq<ADPCMChannel>,
    lookahead: u8,
    i: int,
) -> u8 {
    let channels = windows.len() as int;
    if i < 4 * channels {
        let ch = i / 4;
        if i % 4 == 0 {
            spec_sample_low(windows[ch][0])
        } else if i % 4 == 1 {
            spec_sample_high(windows[ch][0])
        } else if i % 4 == 2 {
            predictors[ch].index as u8
        } else {
            0
        }
    } else {
        let body = i - 4 * channels;
        let chunk = body / (4 * channels);
        let ch = (body % (4 * channels)) / 4;
        let k = (8 * chunk + 2 * (body % 4)) as nat;
        let start = spec_pack_start(windows[ch], predictors[ch]);
        (spec_pack_code(start, windows[ch], lookahead, k) + 16 * spec_pack_code(
            start,
            windows[ch],
            lookahead,
            k + 1,
        )) as u8
    }
}

/// The block that is packed from full windows, one window of 66 samples per
/// channel, with the channels' states `predictors`.
pub open spec fn spec_encode_block(
    windows: Seq<Seq<i16>>,
    predictors: Seq<ADPCMChannel>,
    lookahead: u8,
) -> Seq<u8> {
    Seq::new(
        36 * windows.len(),
        |i: int| spec_encoded_byte(windows, predictors, lookahead, i),
    )
}

/// The channels' states after a block has been packed.
pub open spec fn spec_predictors_after(
    windows: Seq<Seq<i16>>,
    predictors: Seq<ADPCMChannel>,
    lookahead: u8,
) -> Seq<ADPCMChannel> {
    Seq::new(
        windows.len(),
        |ch: int|
            spec_pack_state(
                spec_pack_start(windows[ch], predictors[ch]),
                windows[ch],
                lookahead,
                64,
            ),
    )
}

/// The last two samples of each window: they open the next one.
pub open spec fn spec_carried(windows: Seq<Seq<i16>>) -> Seq<Seq<i16>> {
    Seq::new(windows.len(), |ch: int| windows[ch].subrange(64, 66))
}

/// What packing a block makes of full windows: the state that the encoder is
/// left in, and the bytes of the block.
pub open spec fn spec_pack(
    windows: Seq<Seq<i16>>,
    predictors: Option<Seq<ADPCMChannel>>,
    lookahead: u8,
) -> (EncoderState, Seq<u8>) {
    let seeds = spec_seeds(windows, predictors);
    (
        EncoderState {
            window: spec_carried(windows),
            predictors: Some(spec_predictors_after(windows, seeds, lookahead)),
        },
        spec_encode_block(windows, seeds, lookahead),
    )
}

/// The state of a channel stays within its ranges while a block is packed,
/// and every code has four bits.
pub proof fn lemma_pack_state_wf(start: ADPCMChannel, window: Seq<i16>, lookahead: u8, k: nat)
    requires
        start.wf(),
    ensures
        spec_pack_state(start, window, lookahead, k).wf(),
        spec_pack_code(start, window, lookahead, k) < 16,
    decreases k,
{
    if k > 0 {
        lemma_pack_state_wf(start, window, lookahead, (k - 1) as nat);
    }
    let state = spec_pack_state(start, window, lookahead, k);
    let samples = window.subrange(k as int + 1, window.len() as int);
    let depth = if lookahead < samples.len() - 1 {
        lookahead as nat
    } else {
        (samples.len() - 1) as nat
    };
    lemma_best_among_bounds(state, samples[0], samples.skip(1), depth, 16);
}

/// A place in the body of a block, counted from the end of the headers,
/// gives back its chunk, its channel and its place in the chunk.
proof fn lemma_body_place(channels: int, chunk: int, ch: int, b: int)
    requires
        0 <= chunk < 8,
        0 <= ch < channels,
        0 <= b < 4,
    ensures
        ({
            let body = chunk * (4 * channels) + 4 * ch + b;
            &&& 0 <= body < 32 * channels
            &&& body / (4 * channels) == chunk
            &&& body % (4 * channels) == 4 * ch + b
            &&& body % 4 == b
        }),
{
    let body = chunk * (4 * channels) + 4 * ch + b;
    lemma_fundamental_div_mod_converse(body, 4 * channels, chunk, 4 * ch + b);
    assert(0 <= chunk * (4 * channels) <= 7 * (4 * channels)) by (nonlinear_arith)
        requires
            0 <= chunk <= 7,
            channels > 0,
    ;
    assert(chunk * (4 * channels) == 4 * (chunk * channels)) by (nonlinear_arith);
}

/// Where the byte of a chunk, a channel and a place in the chunk stands in a
/// block, and which two codes it holds.
pub proof fn lemma_body_byte(
    windows: Seq<Seq<i16>>,
    predictors: Seq<ADPCMChannel>,
    lookahead: u8,
    chunk: int,
    ch: int,
    b: int,
)
    requires
        0 <= chunk < 8,
        0 <= ch < windows.len(),
        0 <= b < 4,
    ensures
        ({
            let channels = windows.len() as int;
            let start = spec_pack_start(windows[ch], predictors[ch]);
            let k = (8 * chunk + 2 * b) as nat;
            &&& 4 * channels <= 4 * channels + chunk * (4 * channels) + 4 * ch + b < 36 * channels
            &&& spec_encoded_byte(
                windows,
                predictors,
                lookahead,
                4 * channels + chunk * (4 * channels) + 4 * ch + b,
            ) == (spec_pack_code(start, windows[ch], lookahead, k) + 16 * spec_pack_code(
                start,
                windows[ch],
                lookahead,
                k + 1,
            )) as u8
        }),
{
    lemma_body_place(windows.len() as int, chunk, ch, b);
}

/// The first `channels` rows of a buffer.
pub open spec fn spec_rows(buffer: Seq<[i16; PCM_BUFFER_CAPACITY]>, channels: nat) -> Seq<Seq<i16>> {
    Seq::new(channels, |ch: int| buffer[ch]@)
}

/// A byte of a block's body depends on a channel's state only through the
/// state in which the channel starts the block.
pub proof fn lemma_encoded_byte_from_starts(
    windows: Seq<Seq<i16>>,
    predictors: Seq<ADPCMChannel>,
    starts: Seq<ADPCMChannel>,
    lookahead: u8,
    i: int,
)
    requires
        4 * windows.len() <= i < 36 * windows.len(),
        forall|ch: int|
            0 <= ch < windows.len() ==> #[trigger] starts[ch] == spec_pack_start(
                windows[ch],
                predictors[ch],
            ),
    ensures
        spec_encoded_byte(windows, starts, lookahead, i) == spec_encoded_byte(
            windows,
            predictors,
            lookahead,
            i,
        ),
{
    let channels = windows.len() as int;
    let body = i - 4 * channels;
    let ch = (body % (4 * channels)) / 4;
    assert(0 <= body % (4 * channels) < 4 * channels);
    assert(starts[ch] == spec_pack_start(windows[ch], predictors[ch]));
}

/// Moves the last two samples of each channel's window to its front.
fn carry_over(buffer: &mut [[i16; PCM_BUFFER_CAPACITY]; MAX_AUDIO_CHANNEL_COUNT], num_channels: usize)
    requires
        num_channels <= 8,
    ensures
        forall|ch: int|
            0 <= ch < num_channels ==> #[trigger] final(buffer)@[ch]@.subrange(0, 2) == old(
                buffer,
            )@[ch]@.subrange(64, 66),
{
    let mut ch: usize = 0;
    while ch < num_channels
        invariant
            ch <= num_channels <= 8,
            forall|d: int|
                0 <= d < ch ==> #[trigger] buffer@[d]@.subrange(0, 2) == old(
                    buffer,
                )@[d]@.subrange(64, 66),
            forall|d: int| ch <= d < 8 ==> #[trigger] buffer@[d] == old(buffer)@[d],
        decreases num_channels - ch,
    {
        let ghost row = buffer@[ch as int]@;
        let mut b: usize = 0;
        while b < PCM_BUFFER_EXTRA
            invariant
                b <= 2,
                ch < num_channels <= 8,
                row.len() == 66,
                forall|j: int| 0 <= j < b ==> #[trigger] buffer@[ch as int]@[j] == row[64 + j],
                forall|j: int| 2 <= j < 66 ==> #[trigger] buffer@[ch as int]@[j] == row[j],
                forall|d: int|
                    0 <= d < ch ==> #[trigger] buffer@[d]@.subrange(0, 2) == old(
                        buffer,
                    )@[d]@.subrange(64, 66),
                forall|d: int| ch < d < 8 ==> #[trigger] buffer@[d] == old(buffer)@[d],
            decreases 2 - b,
        {
            buffer[ch][b] = buffer[ch][PCM_BUFFER_CAPACITY - PCM_BUFFER_EXTRA + b];  // copy the last samples back to the beginning
            b += 1;
        }
        assert(buffer@[ch as int]@.subrange(0, 2) =~= row.subrange(64, 66));
        ch += 1;
    }
}

/// What an encoder holds between two calls.
pub struct EncoderState {
    /// The samples that wait to be packed, channel by channel: the same
    /// number on each channel, and fewer than a full window.
    pub window: Seq<Seq<i16>>,
    /// The state of each channel, once the first window has filled.
    pub predictors: Option<Seq<ADPCMChannel>>,
}

/// The samples of each channel of an input, as sequences.
pub open spec fn spec_input_view(input: Seq<&[i16]>) -> Seq<Seq<i16>> {
    Seq::new(input.len(), |ch: int| input[ch]@)
}

/// The samples from `from` up to `to` of each channel.
pub open spec fn spec_take_each(input: Seq<Seq<i16>>, from: int, to: int) -> Seq<Seq<i16>> {
    Seq::new(input.len(), |ch: int| input[ch].subrange(from, to))
}

/// The number of samples that each channel holds.
pub open spec fn spec_count(input: Seq<Seq<i16>>) -> nat {
    if input.len() == 0 {
        0
    } else {
        input[0].len()
    }
}

/// There are `channels` channels, at least one, each with the same number of
/// samples.
pub open spec fn spec_even(input: Seq<Seq<i16>>, channels: int) -> bool {
    &&& channels > 0
    &&& input.len() == channels
    &&& forall|ch: int| 0 <= ch < input.len() ==> (#[trigger] input[ch]).len() == input[0].len()
}

/// What becomes of a stream of samples: the state that the encoder is left
/// in, and the bytes of the blocks that have been packed on the way.
///
/// The samples first fill up the window that `state` holds. Each time the
/// window holds 66 samples per channel a block is packed, and the last two
/// samples of the window open the next one.
pub open spec fn spec_encode_stream(state: EncoderState, input: Seq<Seq<i16>>, lookahead: u8) -> (
    EncoderState,
    Seq<u8>,
)
    decreases spec_count(input),
{
    let held = spec_count(state.window);
    let count = spec_count(input);
    if held >= 66 || count == 0 {
        (state, Seq::empty())
    } else if held + count < 66 {
        (
            EncoderState {
                window: spec_join_channels(state.window, input),
                predictors: state.predictors,
            },
            Seq::empty(),
        )
    } else {
        let take = 66 - held;
        let packed = spec_pack(
            spec_join_channels(state.window, spec_take_each(input, 0, take)),
            state.predictors,
            lookahead,
        );
        let rest = spec_encode_stream(
            packed.0,
            spec_take_each(input, take, count as int),
            lookahead,
        );
        (rest.0, packed.1 + rest.1)
    }
}

/// Windows filled up with silence to 66 samples per channel.
pub open spec fn spec_pad(window: Seq<Seq<i16>>) -> Seq<Seq<i16>> {
    Seq::new(
        window.len(),
        |ch: int| window[ch] + Seq::new((66 - window[ch].len()) as nat, |i: int| 0i16),
    )
}

/// The bytes that finishing writes: none where no sample is held, else the
/// block that is packed from the window, filled up with silence.
pub open spec fn spec_finish(state: EncoderState, lookahead: u8) -> Seq<u8> {
    if spec_count(state.window) == 0 {
        Seq::empty()
    } else {
        spec_pack(spec_pad(state.window), state.predictors, lookahead).1
    }
}

/// The number of blocks that are packed when `count` samples per channel
/// come to a window that holds `held`.
pub open spec fn spec_blocks_packed(held: int, count: int) -> int {
    if held + count < 66 {
        0
    } else {
        (held + count - 66) / 64 + 1
    }
}

/// The number of bytes for which the encoder asks the sink to make room:
/// those of every block that is begun once `incoming` samples per channel
/// have joined the `buffered` ones, or the largest number that there is.
pub open spec fn spec_encode_reserve(buffered: int, incoming: int, channels: int) -> int {
    let bytes = (buffered + incoming + 63) / 64 * 36 * channels;
    if bytes > usize::MAX {
        usize::MAX as int
    } else {
        bytes
    }
}

/// Calculates how many bytes to reserve before `incoming` samples per
/// channel are encoded.
pub fn encode_reserve_amount(buffered: usize, incoming: usize, num_channels: usize) -> (amount:
    usize)
    requires
        0 < num_channels <= MAX_AUDIO_CHANNEL_COUNT,
    ensures
        amount == spec_encode_reserve(buffered as int, incoming as int, num_channels as int),
{
    let total_samples_after_this = incoming as u128 + buffered as u128;
    let blocks = (total_samples_after_this + 63) / 64;
    let block_size = 36 * (num_channels as u128);
    assert(blocks * block_size <= 0x1_0000_0000_0000_0000 * 288 && blocks * block_size == blocks
        * 36 * num_channels) by (nonlinear_arith)
        requires
            0 <= blocks <= 0x1_0000_0000_0000_0000,
            block_size == 36 * num_channels,
            0 < num_channels <= 8,
    ;
    let bytes = blocks * block_size;
    if bytes > usize::MAX as u128 {
        usize::MAX
    } else {
        bytes as usize
    }
}

/// Copies `amount` samples of each channel of the input, from sample `from`
/// on, behind the `held` samples of the channel's window.
fn load_samples(
    buffer: &mut [[i16; PCM_BUFFER_CAPACITY]; MAX_AUDIO_CHANNEL_COUNT],
    held: usize,
    input: &[&[i16]],
    from: usize,
    amount: usize,
)
    requires
        input@.len() <= 8,
        held + amount <= 66,
        from + amount <= usize::MAX,
        forall|ch: int| 0 <= ch < input@.len() ==> from + amount <= (#[trigger] input@[ch])@.len(),
    ensures
        forall|ch: int|
            0 <= ch < input@.len() ==> #[trigger] final(buffer)@[ch]@.subrange(0, held + amount)
                == old(buffer)@[ch]@.subrange(0, held as int) + input@[ch]@.subrange(
                from as int,
                from + amount,
            ),
{
    let mut c: usize = 0;
    while c < input.len()
        invariant
            c <= input@.len() <= 8,
            held + amount <= 66,
            from + amount <= usize::MAX,
            forall|ch: int|
                0 <= ch < input@.len() ==> from + amount <= (#[trigger] input@[ch])@.len(),
            forall|ch: int|
                0 <= ch < c ==> #[trigger] buffer@[ch]@.subrange(0, held + amount) == old(
                    buffer,
                )@[ch]@.subrange(0, held as int) + input@[ch]@.subrange(
                    from as int,
                    from + amount,
                ),
            forall|ch: int| c <= ch < 8 ==> #[trigger] buffer@[ch] == old(buffer)@[ch],
        decreases input@.len() - c,
    {
        let input_samples = input[c];
        let ghost row = buffer@[c as int]@;
        let mut i: usize = 0;
        while i < amount
            invariant
                i <= amount,
                c < input@.len() <= 8,
                held + amount <= 66,
                from + amount <= usize::MAX,
                input_samples@ == input@[c as int]@,
                from + amount <= input_samples@.len(),
                row.len() == 66,
                buffer@[c as int]@.subrange(0, held + i) == row.subrange(0, held as int)
                    + input_samples@.subrange(from as int, from + i),
                forall|ch: int|
                    0 <= ch < c ==> #[trigger] buffer@[ch]@.subrange(0, held + amount) == old(
                        buffer,
                    )@[ch]@.subrange(0, held as int) + input@[ch]@.subrange(
                        from as int,
                        from + amount,
                    ),
                forall|ch: int| c < ch < 8 ==> #[trigger] buffer@[ch] == old(buffer)@[ch],
            decreases amount - i,
        {
            let ghost before = buffer@[c as int]@;
            buffer[c][held + i] = input_samples[from + i];
            assert(buffer@[c as int]@.subrange(0, held + i + 1) =~= before.subrange(0, held + i).push(
                input_samples@[from + i],
            ));
            assert(input_samples@.subrange(from as int, from + i + 1) =~= input_samples@.subrange(
                from as int,
                from + i,
            ).push(input_samples@[from + i]));
            i += 1;
        }
        c += 1;
    }
}

/// Fills each channel's window with silence from sample `held` on.
fn pad_with_silence(buffer: &mut [[i16; PCM_BUFFER_CAPACITY]; MAX_AUDIO_CHANNEL_COUNT], num_channels: usize, held: usize)
    requires
        num_channels <= 8,
        held <= 66,
    ensures
        forall|ch: int|
            0 <= ch < num_channels ==> #[trigger] final(buffer)@[ch]@ == old(
                buffer,
            )@[ch]@.subrange(0, held as int) + Seq::new((66 - held) as nat, |i: int| 0i16),
{
    let mut c: usize = 0;
    while c < num_channels
        invariant
            c <= num_channels <= 8,
            held <= 66,
            forall|ch: int|
                0 <= ch < c ==> #[trigger] buffer@[ch]@ == old(buffer)@[ch]@.subrange(
                    0,
                    held as int,
                ) + Seq::new((66 - held) as nat, |i: int| 0i16),
            forall|ch: int| c <= ch < 8 ==> #[trigger] buffer@[ch] == old(buffer)@[ch],
        decreases num_channels - c,
    {
        let ghost row = buffer@[c as int]@;
        let mut b: usize = held;
        while b < PCM_BUFFER_CAPACITY
            invariant
                held <= b <= 66,
                c < num_channels <= 8,
                row.len() == 66,
                forall|j: int| 0 <= j < held ==> #[trigger] buffer@[c as int]@[j] == row[j],
                forall|j: int| held <= j < b ==> #[trigger] buffer@[c as int]@[j] == 0,
                forall|ch: int|
                    0 <= ch < c ==> #[trigger] buffer@[ch]@ == old(buffer)@[ch]@.subrange(
                        0,
                        held as int,
                    ) + Seq::new((66 - held) as nat, |i: int| 0i16),
                forall|ch: int| c < ch < 8 ==> #[trigger] buffer@[ch] == old(buffer)@[ch],
            decreases 66 - b,
        {
            buffer[c][b] = 0;
            b += 1;
        }
        assert(buffer@[c as int]@ =~= row.subrange(0, held as int) + Seq::new(
            (66 - held) as nat,
            |i: int| 0i16,
        ));
        c += 1;
    }
}

/// The window of `state` holds the same number of samples, fewer than 66, on
/// each of `channels` channels.
pub open spec fn spec_state_ok(state: EncoderState, channels: int) -> bool {
    spec_even(state.window, channels) && spec_count(state.window) < 66
}

/// Encoding a stream in two pieces gives the state and the bytes that
/// encoding it in one piece gives, wherever it is cut.
#[verifier::rlimit(50)]
pub proof fn lemma_encode_stream_split(
    state: EncoderState,
    first: Seq<Seq<i16>>,
    second: Seq<Seq<i16>>,
    lookahead: u8,
    channels: int,
)
    requires
        spec_state_ok(state, channels),
        spec_even(first, channels),
        spec_even(second, channels),
    ensures
        ({
            let whole = spec_encode_stream(state, spec_join_channels(first, second), lookahead);
            let begun = spec_encode_stream(state, first, lookahead);
            let ended = spec_encode_stream(begun.0, second, lookahead);
            &&& whole.0 == ended.0
            &&& whole.1 == begun.1 + ended.1
            &&& spec_state_ok(begun.0, channels)
        }),
    decreases spec_count(first),
{
    let held = spec_count(state.window) as int;
    let c1 = spec_count(first) as int;
    let c2 = spec_count(second) as int;
    let both = spec_join_channels(first, second);
    let whole = spec_encode_stream(state, both, lookahead);
    let begun = spec_encode_stream(state, first, lookahead);
    let ended = spec_encode_stream(begun.0, second, lookahead);
    assert(spec_count(both) == c1 + c2);
    assert(spec_even(both, channels));
    if c1 == 0 {
        assert(both =~~= second);
        assert(begun.1 + ended.1 =~= ended.1);
    } else if held + c1 < 66 {
        let joined = spec_join_channels(state.window, first);
        assert(spec_count(joined) == held + c1);
        assert(begun.1 + ended.1 =~= ended.1);
        if c2 == 0 {
            assert(spec_join_channels(state.window, both) =~~= joined);
        } else if held + c1 + c2 < 66 {
            assert(spec_join_channels(state.window, both) =~~= spec_join_channels(
                joined,
                second,
            ));
        } else {
            let take = 66 - held;
            let take2 = 66 - held - c1;
            assert(spec_join_channels(state.window, spec_take_each(both, 0, take))
                =~~= spec_join_channels(joined, spec_take_each(second, 0, take2)));
            assert(spec_take_each(both, take, c1 + c2) =~~= spec_take_each(second, take2, c2));
        }
    } else {
        let take = 66 - held;
        let full = spec_join_channels(state.window, spec_take_each(first, 0, take));
        assert(spec_join_channels(state.window, spec_take_each(both, 0, take)) =~~= full);
        let packed = spec_pack(full, state.predictors, lookahead);
        let rest1 = spec_take_each(first, take, c1);
        assert(spec_take_each(both, take, c1 + c2) =~~= spec_join_channels(rest1, second));
        assert(spec_state_ok(packed.0, channels));
        assert(spec_even(rest1, channels));
        lemma_encode_stream_split(packed.0, rest1, second, lookahead, channels);
        let rest_begun = spec_encode_stream(packed.0, rest1, lookahead);
        assert(packed.1 + (rest_begun.1 + ended.1) =~= (packed.1 + rest_begun.1) + ended.1);
    }
}

/// The state in which a failed call may leave an encoder: the one it reaches
/// by encoding the first samples of the input, up to some point. The block
/// that the sink has refused is spent.
pub open spec fn spec_encode_failed(
    before: EncoderState,
    input: Seq<Seq<i16>>,
    lookahead: u8,
    after: EncoderState,
) -> bool {
    exists|taken: int|
        0 <= taken <= spec_count(input) && after == spec_encode_stream(
            before,
            #[trigger] spec_take_each(input, 0, taken),
            lookahead,
        ).0
}

/// A stream leaves behind what it brought, less 64 samples per channel for
/// each block, and each block has 36 bytes per channel.
pub proof fn lemma_encode_stream_len(
    state: EncoderState,
    input: Seq<Seq<i16>>,
    lookahead: u8,
    channels: int,
)
    requires
        spec_state_ok(state, channels),
        spec_even(input, channels),
    ensures
        ({
            let blocks = spec_blocks_packed(
                spec_count(state.window) as int,
                spec_count(input) as int,
            );
            let encoded = spec_encode_stream(state, input, lookahead);
            &&& encoded.1.len() == blocks * (36 * channels)
            &&& spec_state_ok(encoded.0, channels)
            &&& spec_count(encoded.0.window) == spec_count(state.window) + spec_count(input) - 64
                * blocks
        }),
    decreases spec_count(input),
{
    let held = spec_count(state.window) as int;
    let count = spec_count(input) as int;
    if count == 0 {
    } else if held + count < 66 {
    } else {
        let take = 66 - held;
        let full = spec_join_channels(state.window, spec_take_each(input, 0, take));
        let packed = spec_pack(full, state.predictors, lookahead);
        let later = spec_take_each(input, take, count);
        assert(spec_state_ok(packed.0, channels));
        assert(spec_even(later, channels));
        lemma_encode_stream_len(packed.0, later, lookahead, channels);
        let blocks = spec_blocks_packed(held, count);
        let after = spec_blocks_packed(2, count - take);
        assert(blocks == after + 1);
        assert((after + 1) * (36 * channels) == after * (36 * channels) + 36 * channels)
            by (nonlinear_arith);
    }
}

/// A session of `blocks` times 64 samples per channel, finished, comes to
/// `blocks` blocks of 36 bytes per channel.
pub proof fn lemma_whole_blocks_size(
    input: Seq<Seq<i16>>,
    lookahead: u8,
    channels: int,
    blocks: nat,
)
    requires
        spec_even(input, channels),
        spec_count(input) == blocks * 64,
    ensures
        ({
            let encoded = spec_encode_stream(spec_fresh_state(channels), input, lookahead);
            encoded.1.len() + spec_finish(encoded.0, lookahead).len() == blocks * channels * 36
        }),
{
    let fresh = spec_fresh_state(channels);
    lemma_encode_stream_len(fresh, input, lookahead, channels);
    let encoded = spec_encode_stream(fresh, input, lookahead);
    let packed = spec_blocks_packed(0, (blocks * 64) as int);
    if blocks > 0 {
        assert(packed == blocks - 1);
        assert(spec_count(encoded.0.window) == 64);
        lemma_finish_len(encoded.0, lookahead, channels);
        assert((blocks - 1) * (36 * channels) + 36 * channels == blocks * channels * 36)
            by (nonlinear_arith);
    } else {
        assert(0 * (36 * channels) == 0 && 0 * channels * 36 == 0) by (nonlinear_arith);
    }
}

/// Finishing writes one block where samples are held, however few, and
/// nothing where none are.
pub proof fn lemma_finish_len(state: EncoderState, lookahead: u8, channels: int)
    requires
        spec_state_ok(state, channels),
    ensures
        spec_finish(state, lookahead).len() == (if spec_count(state.window) == 0 {
            0
        } else {
            36 * channels
        }),
{
}

/// Equal states, equal samples and equal lookahead give equal states and
/// equal bytes: nothing else enters into encoding.
pub proof fn lemma_encoding_is_deterministic(
    first: EncoderState,
    second: EncoderState,
    first_input: Seq<Seq<i16>>,
    second_input: Seq<Seq<i16>>,
    lookahead: u8,
)
    requires
        first.window.len() == second.window.len(),
        forall|ch: int|
            0 <= ch < first.window.len() ==> (#[trigger] first.window[ch]).len()
                == second.window[ch].len(),
        forall|ch: int, i: int|
            0 <= ch < first.window.len() && 0 <= i < first.window[ch].len()
                ==> first.window[ch][i] == second.window[ch][i],
        first.predictors == second.predictors,
        first_input.len() == second_input.len(),
        forall|ch: int|
            0 <= ch < first_input.len() ==> (#[trigger] first_input[ch]).len()
                == second_input[ch].len(),
        forall|ch: int, i: int|
            0 <= ch < first_input.len() && 0 <= i < first_input[ch].len() ==> first_input[ch][i]
                == second_input[ch][i],
    ensures
        spec_encode_stream(first, first_input, lookahead) == spec_encode_stream(
            second,
            second_input,
            lookahead,
        ),
        spec_finish(first, lookahead) == spec_finish(second, lookahead),
{
    assert(first.window =~~= second.window);
    assert(first_input =~~= second_input);
}

/// XboxADPCM encoder implementation.
pub struct XboxADPCMEncoder<S: XboxADPCMEncodeSink> {
    /// Channel data
    channels: [ADPCMChannel; MAX_AUDIO_CHANNEL_COUNT],
    /// Number of channels
    num_channels: usize,
    /// Lookahead value
    lookahead: u8,
    /// Buffer containing the next samples to be processed
    buffer: [[i16; PCM_BUFFER_CAPACITY]; MAX_AUDIO_CHANNEL_COUNT],
    /// Current size of the buffer
    buffer_size: usize,
    /// Did we initialize the predictors?
    predictors_initialized: bool,
    /// Output buffer
    sink: S,
    /// The amounts for which the sink has been asked to make room
    hints: Ghost<Seq<usize>>,
}

/// The state of an encoder on `channels` channels that holds no sample.
pub open spec fn spec_fresh_state(channels: int) -> EncoderState {
    EncoderState {
        window: Seq::new(channels as nat, |ch: int| Seq::<i16>::empty()),
        predictors: None,
    }
}

impl<S: XboxADPCMEncodeSink> XboxADPCMEncoder<S> {
    /// The channel count lies between 1 and 8, the window is not full, and
    /// the channels' states, once set, lie within their ranges.
    pub closed spec fn wf(&self) -> bool {
        &&& 0 < self.num_channels <= 8
        &&& self.buffer_size < 66
        &&& self.predictors_initialized ==> forall|ch: int|
            0 <= ch < self.num_channels ==> (#[trigger] self.channels@[ch]).wf()
    }

    /// The channel count that the encoder was made for.
    pub closed spec fn spec_num_channels(&self) -> int {
        self.num_channels as int
    }

    /// The number of samples after the current one that the search takes
    /// into account.
    pub closed spec fn spec_lookahead(&self) -> u8 {
        self.lookahead
    }

    /// The samples and the channels' states that the encoder holds.
    pub closed spec fn state(&self) -> EncoderState {
        EncoderState {
            window: Seq::new(
                self.num_channels as nat,
                |ch: int| self.buffer@[ch]@.subrange(0, self.buffer_size as int),
            ),
            predictors: if self.predictors_initialized {
                Some(Seq::new(self.num_channels as nat, |ch: int| self.channels@[ch]))
            } else {
                None
            },
        }
    }

    /// The sink, with what has been written to it.
    pub closed spec fn spec_sink(&self) -> S {
        self.sink
    }

    /// The numbers of bytes for which the encoder has asked the sink to make
    /// room, in the order of the calls.
    pub closed spec fn reserved(&self) -> Seq<usize> {
        self.hints@
    }

    /// What an encoder that is well formed holds: a channel count between 1
    /// and 8, fewer than 66 samples on each channel, the same number on each,
    /// and channel states within their ranges.
    pub proof fn lemma_wf(&self)
        requires
            self.wf(),
        ensures
            0 < self.spec_num_channels() <= 8,
            spec_state_ok(self.state(), self.spec_num_channels()),
            self.state().predictors matches Some(predictors) ==> predictors.len()
                == self.spec_num_channels() && forall|ch: int|
                0 <= ch < predictors.len() ==> (#[trigger] predictors[ch]).wf(),
    {
    }

    /// Initialize an encoder with the given channel count, and lookahead for the given sink.
    ///
    /// Higher lookahead may slightly reduce noise, but it will also exponentially increase encoding time.
    ///
    /// `num_channels` must be between 1 and 8.
    pub fn new(num_channels: usize, lookahead: u8, sink: S) -> (encoder: XboxADPCMEncoder<S>)
        requires
            0 < num_channels <= MAX_AUDIO_CHANNEL_COUNT,
        ensures
            encoder.wf(),
            encoder.spec_num_channels() == num_channels,
            encoder.spec_lookahead() == lookahead,
            encoder.state() == spec_fresh_state(num_channels as int),
            encoder.spec_sink() == sink,
            encoder.reserved() == Seq::<usize>::empty(),
    {
        let encoder = XboxADPCMEncoder {
            channels: [ADPCMChannel { pcmdata: 0, index: 0 };MAX_AUDIO_CHANNEL_COUNT],
            num_channels,
            lookahead,
            buffer_size: 0,
            buffer: [[0i16;PCM_BUFFER_CAPACITY];MAX_AUDIO_CHANNEL_COUNT],
            predictors_initialized: false,
            sink,
            hints: Ghost(Seq::empty()),
        };
        assert(encoder.state().window =~~= spec_fresh_state(num_channels as int).window);
        encoder
    }

    /// The sink, as it stands.
    pub fn sink(&self) -> (sink: &S)
        ensures
            *sink == self.spec_sink(),
    {
        &self.sink
    }

    /// Gives up the encoder for its sink. Samples that have not been packed
    /// are dropped.
    pub fn into_sink(self) -> (sink: S)
        ensures
            sink == self.spec_sink(),
    {
        self.sink
    }

    /// Encode with the given samples using some samples.
    ///
    /// `input` holds one slice of samples per channel, all of one length.
    ///
    /// Note that this may not always encode all samples passed and may store some in a buffer. To flush the buffer, run [`XboxADPCMEncoder::finish`].
    ///
    /// An error of the sink is returned at once. The block that the sink has
    /// refused is spent, and the samples of the input behind it are not
    /// taken in. Nothing else makes encoding fail.
    #[verifier::rlimit(50)]
    pub fn encode(&mut self, input: &[&[i16]]) -> (r: Result<(), S::Error>)
        requires
            old(self).wf(),
            spec_even(spec_input_view(input@), old(self).spec_num_channels()),
        ensures
            final(self).wf(),
            final(self).spec_num_channels() == old(self).spec_num_channels(),
            final(self).spec_lookahead() == old(self).spec_lookahead(),
            final(self).reserved() == spec_reserved_after(
                old(self).reserved(),
                spec_encode_reserve(
                    spec_count(old(self).state().window) as int,
                    spec_count(spec_input_view(input@)) as int,
                    old(self).spec_num_channels(),
                ),
            ),
            r is Ok ==> final(self).state() == spec_encode_stream(
                old(self).state(),
                spec_input_view(input@),
                old(self).spec_lookahead(),
            ).0,
            r is Ok ==> final(self).spec_sink().written() == old(self).spec_sink().written()
                + spec_encode_stream(
                old(self).state(),
                spec_input_view(input@),
                old(self).spec_lookahead(),
            ).1,
            r is Err ==> spec_encode_failed(
                old(self).state(),
                spec_input_view(input@),
                old(self).spec_lookahead(),
                final(self).state(),
            ),
            old(self).spec_sink().infallible() ==> r is Ok && final(self).spec_sink().infallible(),
    {
        let ghost view = spec_input_view(input@);
        let ghost before = self.state();
        let ghost written = self.sink.written();
        let ghost channels = self.num_channels as int;
        assert(view[0] == input@[0]@);
        let sample_count = input[0].len();
        proof {
            assert(spec_encode_stream(before, spec_take_each(view, 0, 0), self.lookahead) == (
                before,
                Seq::<u8>::empty(),
            ));
        }

        // Predict how many bytes we will need to reserve, always rounding up to the next block.
        //
        // If we have any samples, we need at least one block even if we may not immediately encode them yet.
        let bytes_to_reserve = encode_reserve_amount(
            self.buffer_size,
            sample_count,
            self.num_channels,
        );
        let ghost asked = spec_reserved_after(self.hints@, bytes_to_reserve as int);
        if bytes_to_reserve != 0 {
            self.hints = Ghost(asked);
            self.sink.reserve(bytes_to_reserve)?;
        }
        // Process all samples.

        let mut samples_loaded: usize = 0;
        assert(self.sink.written() =~= written + Seq::<u8>::empty());
        while samples_loaded != sample_count
            invariant
                self.wf(),
                self.num_channels == channels,
                channels == old(self).spec_num_channels(),
                self.lookahead == old(self).spec_lookahead(),
                old(self).spec_sink().infallible() ==> self.sink.infallible(),
                self.hints@ == asked,
                asked == spec_reserved_after(
                    old(self).reserved(),
                    spec_encode_reserve(
                        spec_count(old(self).state().window) as int,
                        spec_count(spec_input_view(input@)) as int,
                        old(self).spec_num_channels(),
                    ),
                ),
                samples_loaded <= sample_count,
                sample_count == spec_count(view),
                view == spec_input_view(input@),
                spec_even(view, channels),
                before == old(self).state(),
                spec_state_ok(before, channels),
                written == old(self).spec_sink().written(),
                self.state() == spec_encode_stream(
                    before,
                    spec_take_each(view, 0, samples_loaded as int),
                    self.lookahead,
                ).0,
                self.sink.written() == written + spec_encode_stream(
                    before,
                    spec_take_each(view, 0, samples_loaded as int),
                    self.lookahead,
                ).1,
            decreases sample_count - samples_loaded,
        {
            let samples_left_to_load = sample_count - samples_loaded;
            let samples_free = PCM_BUFFER_CAPACITY - self.buffer_size;
            let samples_that_can_be_loaded = samples_free.min(samples_left_to_load);
            let ghost prefix = spec_take_each(view, 0, samples_loaded as int);
            let ghost chunk = spec_take_each(
                view,
                samples_loaded as int,
                samples_loaded + samples_that_can_be_loaded,
            );
            let ghost held = self.state();
            let ghost emitted = spec_encode_stream(before, prefix, self.lookahead).1;
            assert forall|ch: int| 0 <= ch < input@.len() implies samples_loaded
                + samples_that_can_be_loaded <= (#[trigger] input@[ch])@.len() by {
                assert(view[ch] == input@[ch]@);
            }
            load_samples(
                &mut self.buffer,
                self.buffer_size,
                input,
                samples_loaded,
                samples_that_can_be_loaded,
            );

            samples_loaded += samples_that_can_be_loaded;
            self.buffer_size += samples_that_can_be_loaded;
            proof {
                lemma_encode_stream_split(before, prefix, chunk, self.lookahead, channels);
                assert(spec_join_channels(prefix, chunk) =~~= spec_take_each(
                    view,
                    0,
                    samples_loaded as int,
                ));
                assert(spec_count(chunk) == samples_that_can_be_loaded);
                assert(spec_count(held.window) + samples_that_can_be_loaded == self.buffer_size);
                assert forall|ch: int| 0 <= ch < channels implies #[trigger] self.buffer@[ch]@.subrange(
                    0,
                    self.buffer_size as int,
                ) == spec_join_channels(held.window, chunk)[ch] by {
                    assert(view[ch] == input@[ch]@);
                }
            }

            if self.buffer_size == PCM_BUFFER_CAPACITY {
                proof {
                    assert forall|ch: int| 0 <= ch < channels implies #[trigger] self.rows()[ch]
                        == spec_join_channels(held.window, chunk)[ch] by {
                        assert(self.buffer@[ch]@.subrange(0, 66) =~= self.buffer@[ch]@);
                    }
                    assert(self.rows() =~= spec_join_channels(held.window, chunk));
                    assert(spec_take_each(chunk, 0, samples_that_can_be_loaded as int)
                        =~~= chunk);
                    let packed = spec_pack(self.rows(), held.predictors, self.lookahead);
                    assert(spec_encode_stream(
                        packed.0,
                        spec_take_each(
                            chunk,
                            samples_that_can_be_loaded as int,
                            samples_that_can_be_loaded as int,
                        ),
                        self.lookahead,
                    ) == (packed.0, Seq::<u8>::empty()));
                    assert(spec_encode_stream(held, chunk, self.lookahead) == (
                        packed.0,
                        packed.1 + Seq::<u8>::empty(),
                    ));
                    assert(packed.1 + Seq::<u8>::empty() =~= packed.1);
                    assert(written + (emitted + packed.1) =~= (written + emitted) + packed.1);
                }
                self.initialize_predictors();
                match self.encode_block() {
                    Ok(()) => {},
                    Err(e) => {
                        return Err(e);
                    },
                }
            } else {
                proof {
                    assert(self.state().window =~~= spec_join_channels(held.window, chunk));
                    assert(emitted + Seq::<u8>::empty() =~= emitted);
                }
            }
        }
        assert(spec_take_each(view, 0, samples_loaded as int) =~~= view);
        Ok(())
    }

    /// Finish encoding and then resets the encoder.
    ///
    /// This will encode all remaining samples, filling any unused samples with silence. If a simple reset is desired without any further writes, call [`XboxADPCMEncoder::reset`] instead.
    ///
    /// The window is filled up with silence first. Where no block has been
    /// packed yet, the channels' states are then set from the window as it
    /// stands, silence included. If the sink fails, the encoder is not reset.
    pub fn finish(&mut self) -> (r: Result<(), S::Error>)
        requires
            old(self).wf(),
        ensures
            final(self).wf(),
            final(self).spec_num_channels() == old(self).spec_num_channels(),
            final(self).spec_lookahead() == old(self).spec_lookahead(),
            final(self).reserved() == old(self).reserved(),
            r is Ok ==> final(self).state() == spec_fresh_state(old(self).spec_num_channels()),
            r is Ok ==> final(self).spec_sink().written() == old(self).spec_sink().written()
                + spec_finish(old(self).state(), old(self).spec_lookahead()),
            r is Err ==> spec_count(old(self).state().window) > 0 && final(self).state()
                == spec_pack(
                spec_pad(old(self).state().window),
                old(self).state().predictors,
                old(self).spec_lookahead(),
            ).0,
            old(self).spec_sink().infallible() ==> r is Ok && final(self).spec_sink().infallible(),
    {
        let ghost held = self.state();
        if self.buffer_size != 0 {
            // Zero-out everything at the end and set our buffer size.
            pad_with_silence(&mut self.buffer, self.num_channels, self.buffer_size);
            self.buffer_size = PCM_BUFFER_CAPACITY;
            assert(self.rows() =~~= spec_pad(held.window));

            // Init predictors
            self.initialize_predictors();

            // Encode what is left
            self.encode_block()?;
        } else {
            assert(self.sink.written() =~= self.sink.written() + Seq::<u8>::empty());
        }
        self.reset();
        Ok(())
    }

    /// Reset the encoder immediately without writing any more samples.
    ///
    /// Any samples yet to be encoded will be dropped. If this is not desired, call [`XboxADPCMEncoder::finish`] instead.
    pub fn reset(&mut self)
        requires
            old(self).wf(),
        ensures
            final(self).wf(),
            final(self).spec_num_channels() == old(self).spec_num_channels(),
            final(self).spec_lookahead() == old(self).spec_lookahead(),
            final(self).state() == spec_fresh_state(old(self).spec_num_channels()),
            final(self).spec_sink() == old(self).spec_sink(),
            final(self).reserved() == old(self).reserved(),
    {
        self.predictors_initialized = false;
        self.buffer_size = 0;
        assert(self.state().window =~~= spec_fresh_state(self.num_channels as int).window);
    }

    /// The whole rows of the buffer, one per channel.
    spec fn rows(&self) -> Seq<Seq<i16>> {
        Seq::new(self.num_channels as nat, |ch: int| self.buffer@[ch]@)
    }

    /// The channels' states, whether they have been set or not.
    spec fn predictors(&self) -> Seq<ADPCMChannel> {
        Seq::new(self.num_channels as nat, |ch: int| self.channels@[ch])
    }

    /// The window is full, and the channels' states, once set, lie within
    /// their ranges.
    spec fn full(&self) -> bool {
        &&& 0 < self.num_channels <= 8
        &&& self.buffer_size == 66
        &&& self.predictors_initialized ==> forall|ch: int|
            0 <= ch < self.num_channels ==> (#[trigger] self.channels@[ch]).wf()
    }

    /// Initialize predictors with the contents of the buffer.
    ///
    /// This should be called whenever a block is encoded. It takes effect
    /// once: while the states are set, it leaves them as they are.
    fn initialize_predictors(&mut self)
        requires
            old(self).full(),
        ensures
            final(self).full(),
            final(self).predictors_initialized,
            final(self).num_channels == old(self).num_channels,
            final(self).lookahead == old(self).lookahead,
            final(self).hints == old(self).hints,
            final(self).buffer == old(self).buffer,
            final(self).sink == old(self).sink,
            final(self).predictors() == spec_seeds(old(self).rows(), old(self).state().predictors),
    {
        if self.predictors_initialized {
            assert(self.predictors() =~= spec_seeds(self.rows(), self.state().predictors));
            return ;
        }
        let mut c: usize = 0;
        while c < self.num_channels
            invariant
                c <= self.num_channels <= 8,
                self.buffer_size == 66,
                self.num_channels == old(self).num_channels,
                self.lookahead == old(self).lookahead,
                self.hints == old(self).hints,
                self.buffer == old(self).buffer,
                self.sink == old(self).sink,
                forall|d: int|
                    0 <= d < c ==> (#[trigger] self.channels@[d]).wf() && self.channels@[d]
                        == spec_initial_channel(self.buffer@[d]@),
            decreases self.num_channels - c,
        {
            // Calculate initial ADPCM predictors using decaying average
            let mut avg: i32 = 0;
            let mut i: usize = 1;
            while i < self.buffer_size
                invariant
                    c < self.num_channels <= 8,
                    self.buffer_size == 66,
                    1 <= i <= 66,
                    -65535 <= avg <= 65535,
                    avg == spec_decaying_average(self.buffer@[c as int]@, (i - 1) as nat),
                decreases 66 - i,
            {
                let this_sample = self.buffer[c][i] as i32;
                let prev_sample = self.buffer[c][i - 1] as i32;
                avg = (avg + (this_sample - prev_sample)) / 8;
                i += 1;
            }

            // Set our initial step index to this
            let mut initial_index: usize = 88;
            let mut i: usize = 0;
            while i < 88
                invariant_except_break
                    i <= 88,
                    initial_index == 88,
                    spec_seed_index_from(avg as int, 0) == spec_seed_index_from(
                        avg as int,
                        i as nat,
                    ),
                ensures
                    initial_index <= 88,
                    initial_index == spec_seed_index_from(avg as int, 0),
                decreases 88 - i,
            {
                let table_val = STEP_TABLE[i];
                let table_val_next = STEP_TABLE[i + 1];
                let table_avg = ((table_val as i32) + (table_val_next as i32)) / 2;
                if avg < table_avg {
                    initial_index = i;
                    break ;
                }
                i += 1;
            }

            self.channels[c] = ADPCMChannel { pcmdata: 0, index: initial_index };
            c += 1;
        }
        self.predictors_initialized = true;
        assert(self.predictors() =~= spec_seeds(old(self).rows(), old(self).state().predictors));
    }

    /// Encode all chunks
    ///
    /// Fills the body of a block, behind the headers: for each chunk and each
    /// channel four bytes, two codes to the byte.
    #[verifier::rlimit(50)]
    fn encode_chunks(
        channels: &mut [ADPCMChannel; MAX_AUDIO_CHANNEL_COUNT],
        buffer: &[[i16; PCM_BUFFER_CAPACITY]; MAX_AUDIO_CHANNEL_COUNT],
        num_channels: usize,
        lookahead: u8,
        output: &mut [u8; ADPCM_BUFFER_SIZE],
    )
        requires
            0 < num_channels <= 8,
            forall|ch: int|
                0 <= ch < num_channels ==> (#[trigger] old(channels)@[ch]).wf() && old(
                    channels,
                )@[ch].pcmdata == buffer@[ch]@[0],
        ensures
            forall|i: int|
                4 * num_channels <= i < 36 * num_channels ==> #[trigger] final(output)@[i]
                    == spec_encoded_byte(
                    spec_rows(buffer@, num_channels as nat),
                    old(channels)@,
                    lookahead,
                    i,
                ),
            forall|i: int|
                0 <= i < 4 * num_channels ==> #[trigger] final(output)@[i] == old(output)@[i],
            forall|ch: int|
                0 <= ch < num_channels ==> #[trigger] final(channels)@[ch] == spec_pack_state(
                    old(channels)@[ch],
                    buffer@[ch]@,
                    lookahead,
                    64,
                ),
    {
        let output_channel_stride = num_channels * 4;
        let ghost windows = spec_rows(buffer@, num_channels as nat);
        let ghost starts = channels@;

        let mut chunk: usize = 0;
        while chunk < CHUNKS_PER_BLOCK
            invariant
                chunk <= 8,
                0 < num_channels <= 8,
                output_channel_stride == 4 * num_channels,
                windows == spec_rows(buffer@, num_channels as nat),
                starts == old(channels)@,
                forall|ch: int|
                    0 <= ch < num_channels ==> (#[trigger] starts[ch]).wf() && starts[ch].pcmdata
                        == buffer@[ch]@[0],
                forall|i: int|
                    4 * num_channels <= i < 4 * num_channels + chunk * (4 * num_channels)
                        ==> #[trigger] output@[i] == spec_encoded_byte(
                        windows,
                        starts,
                        lookahead,
                        i,
                    ),
                forall|i: int| 0 <= i < 4 * num_channels ==> #[trigger] output@[i] == old(output)@[i],
                forall|ch: int|
                    0 <= ch < num_channels ==> #[trigger] channels@[ch] == spec_pack_state(
                        starts[ch],
                        buffer@[ch]@,
                        lookahead,
                        (8 * chunk) as nat,
                    ),
            decreases 8 - chunk,
        {
            assert(chunk * (4 * num_channels) <= 7 * (4 * num_channels)) by (nonlinear_arith)
                requires
                    chunk <= 7,
                    num_channels > 0,
            ;
            assert(output_channel_stride * chunk == chunk * (4 * num_channels))
                by (nonlinear_arith)
                requires
                    output_channel_stride == 4 * num_channels,
            ;
            let output_offset = output_channel_stride + output_channel_stride * chunk;
            let mut channel: usize = 0;
            while channel < num_channels
                invariant
                    chunk < 8,
                    channel <= num_channels <= 8,
                    output_offset == 4 * num_channels + chunk * (4 * num_channels),
                    output_offset + 4 * num_channels <= 36 * num_channels,
                    windows == spec_rows(buffer@, num_channels as nat),
                    starts == old(channels)@,
                    forall|ch: int|
                        0 <= ch < num_channels ==> (#[trigger] starts[ch]).wf()
                            && starts[ch].pcmdata == buffer@[ch]@[0],
                    forall|i: int|
                        4 * num_channels <= i < output_offset + 4 * channel
                            ==> #[trigger] output@[i] == spec_encoded_byte(
                            windows,
                            starts,
                            lookahead,
                            i,
                        ),
                    forall|i: int|
                        0 <= i < 4 * num_channels ==> #[trigger] output@[i] == old(output)@[i],
                    forall|ch: int|
                        0 <= ch < num_channels ==> #[trigger] channels@[ch] == spec_pack_state(
                            starts[ch],
                            buffer@[ch]@,
                            lookahead,
                            (if ch < channel {
                                8 * chunk + 8
                            } else {
                                8 * chunk
                            }) as nat,
                        ),
                decreases num_channels - channel,
            {
                let channel_offset = output_offset + channel * 4;
                let row = buffer[channel].as_slice();
                let mut pchan = channels[channel];
                let ghost start = starts[channel as int];
                let ghost window = buffer@[channel as int]@;
                let mut i: usize = 0;
                while i < 4
                    invariant
                        i <= 4,
                        chunk < 8,
                        channel < num_channels <= 8,
                        channel_offset == output_offset + 4 * channel,
                        output_offset == 4 * num_channels + chunk * (4 * num_channels),
                        output_offset + 4 * num_channels <= 36 * num_channels,
                        windows == spec_rows(buffer@, num_channels as nat),
                        start == starts[channel as int],
                        start.wf(),
                        start.pcmdata == buffer@[channel as int]@[0],
                        window == buffer@[channel as int]@,
                        row@ == window,
                        pchan == spec_pack_state(
                            start,
                            window,
                            lookahead,
                            (8 * chunk + 2 * i) as nat,
                        ),
                        forall|j: int|
                            4 * num_channels <= j < channel_offset + i ==> #[trigger] output@[j]
                                == spec_encoded_byte(windows, starts, lookahead, j),
                        forall|j: int|
                            0 <= j < 4 * num_channels ==> #[trigger] output@[j] == old(
                                output,
                            )@[j],
                    decreases 4 - i,
                {
                    let k = chunk * 8 + i * 2;
                    proof {
                        lemma_pack_state_wf(start, window, lookahead, k as nat);
                        lemma_pack_state_wf(start, window, lookahead, (k + 1) as nat);
                        lemma_body_byte(
                            windows,
                            starts,
                            lookahead,
                            chunk as int,
                            channel as int,
                            i as int,
                        );
                    }
                    let low = encode_sample(&mut pchan, lookahead, &row[k + 1..66]);
                    let high = encode_sample(&mut pchan, lookahead, &row[k + 2..66]);
                    assert(low | (high << 4) == low + 16 * high) by (bit_vector)
                        requires
                            low < 16,
                            high < 16,
                    ;
                    output[channel_offset + i] = low | (high << 4);
                    i += 1;
                }
                channels[channel] = pchan;
                channel += 1;
            }
            chunk += 1;
            assert(4 * num_channels + (chunk - 1) * (4 * num_channels) + 4 * num_channels == 4
                * num_channels + chunk * (4 * num_channels)) by (nonlinear_arith);
        }
    }

    /// Encode the contents of the buffer.
    ///
    /// Packs the full window into one block, keeps the last two samples of
    /// the window as the first two of the next one, and writes the block.
    #[verifier::rlimit(50)]
    fn encode_block(&mut self) -> (r: Result<(), S::Error>)
        requires
            old(self).full(),
            old(self).predictors_initialized,
        ensures
            final(self).wf(),
            final(self).num_channels == old(self).num_channels,
            final(self).lookahead == old(self).lookahead,
            final(self).hints == old(self).hints,
            final(self).state() == spec_pack(
                old(self).rows(),
                Some(old(self).predictors()),
                old(self).lookahead,
            ).0,
            r is Ok ==> final(self).sink.written() == old(self).sink.written() + spec_pack(
                old(self).rows(),
                Some(old(self).predictors()),
                old(self).lookahead,
            ).1,
            old(self).sink.infallible() ==> r is Ok && final(self).sink.infallible(),
    {
        let mut bytes_to_write = [0u8;ADPCM_BUFFER_SIZE];
        let total_bytes_to_write = ADPCM_BLOCK_SIZE * self.num_channels;
        let ghost windows = self.rows();
        let ghost seeds = self.predictors();

        // Write the header
        let mut ch: usize = 0;
        while ch < self.num_channels
            invariant
                ch <= self.num_channels <= 8,
                self.buffer_size == 66,
                self.predictors_initialized,
                self.num_channels == old(self).num_channels,
                self.lookahead == old(self).lookahead,
                self.hints == old(self).hints,
                self.buffer == old(self).buffer,
                self.sink == old(self).sink,
                windows == self.rows(),
                seeds == old(self).predictors(),
                forall|d: int|
                    0 <= d < self.num_channels ==> (#[trigger] self.channels@[d]).wf()
                        && self.channels@[d].index == seeds[d].index,
                forall|d: int|
                    0 <= d < ch ==> (#[trigger] self.channels@[d]).pcmdata
                        == self.buffer@[d]@[0],
                forall|i: int|
                    0 <= i < 4 * ch ==> #[trigger] bytes_to_write@[i] == spec_encoded_byte(
                        windows,
                        seeds,
                        self.lookahead,
                        i,
                    ),
                forall|i: int| 4 * ch <= i < 288 ==> #[trigger] bytes_to_write@[i] == 0,
            decreases self.num_channels - ch,
        {
            // Get our first sample and set it since it's uncompressed.
            let s = self.buffer[ch][0];
            let unsigned = #[verifier::truncate]
            (s as u16);
            assert(unsigned & 0xFF == spec_sample_low(s) && unsigned >> 8 == spec_sample_high(s))
                by (bit_vector)
                requires
                    unsigned == s as u16,
            ;
            bytes_to_write[ch * 4] = (unsigned & 0xFF) as u8;  // write the first sample uncompressed
            bytes_to_write[1 + ch * 4] = (unsigned >> 8) as u8;
            bytes_to_write[2 + ch * 4] = self.channels[ch].index as u8;
            self.channels[ch].pcmdata = s as i32;
            assert forall|i: int| 0 <= i < 4 * (ch + 1) implies #[trigger] bytes_to_write@[i]
                == spec_encoded_byte(windows, seeds, self.lookahead, i) by {
                if i >= 4 * ch {
                    assert(i / 4 == ch);
                    assert(windows[ch as int][0] == s);
                }
            }
            ch += 1;
        }

        // Write the chunks
        let ghost starts = self.channels@;
        let ghost headers = bytes_to_write@;
        Self::encode_chunks(
            &mut self.channels,
            &self.buffer,
            self.num_channels,
            self.lookahead,
            &mut bytes_to_write,
        );
        proof {
            assert forall|i: int| 0 <= i < 36 * self.num_channels implies bytes_to_write@[i]
                == spec_encoded_byte(windows, seeds, self.lookahead, i) by {
                if i >= 4 * self.num_channels {
                    lemma_encoded_byte_from_starts(windows, seeds, starts, self.lookahead, i);
                }
            }
            assert forall|d: int| 0 <= d < self.num_channels implies (
            #[trigger] self.channels@[d]).wf() && self.channels@[d] == spec_pack_state(
                spec_pack_start(windows[d], seeds[d]),
                windows[d],
                self.lookahead,
                64,
            ) by {
                lemma_pack_state_wf(starts[d], windows[d], self.lookahead, 64);
            }
        }
        carry_over(&mut self.buffer, self.num_channels);
        self.buffer_size = PCM_BUFFER_EXTRA;
        proof {
            let packed = spec_pack(windows, Some(seeds), self.lookahead);
            assert(self.state().window =~~= packed.0.window);
            assert(self.state().predictors->0 =~= packed.0.predictors->0);
        }

        // Write all of it
        let block = bytes_to_write.as_slice();
        assert(block@.subrange(0, total_bytes_to_write as int) =~= spec_encode_block(
            windows,
            seeds,
            self.lookahead,
        ));
        self.sink.write(&block[0..total_bytes_to_write])
    }
}

} // verus!
