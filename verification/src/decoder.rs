//! The decoder: bytes come in, in pieces of any size; whenever a whole block
//! has come together it is decoded and its samples go to the sink.

use vstd::prelude::*;
use crate::format::{
    lemma_block_state_wf, spec_block_code, spec_block_len, spec_block_start, spec_block_state,
    spec_block_view, spec_code_offset, spec_decode_block, spec_decode_channel,
    spec_join_channels, spec_no_samples, spec_reserved_after,
};
use crate::util::{
    advance_index, calculate_delta, clamp_sample, clamp_table_index, ADPCMChannel,
    ADPCM_BLOCK_SIZE, ADPCM_BUFFER_SIZE, CHUNKS_PER_BLOCK, MAX_AUDIO_CHANNEL_COUNT,
    SAMPLES_PER_ADPCM_BLOCK, SAMPLES_PER_CHUNK, STEP_TABLE,
};

verus! {

/// Code `s` of the eight codes that a word holds: the codes run from the
/// lowest four bits upwards.
pub open spec fn spec_word_code(word: u32, s: u32) -> u8 {
    ((word >> (4 * s)) & 0xF) as u8
}

/// The codes of a word of four bytes, the first byte lowest, are the halves of
/// its bytes in their order, the low half of a byte before the high one.
proof fn lemma_word_codes(b0: u8, b1: u8, b2: u8, b3: u8, s: u32)
    by (bit_vector)
    requires
        s < 8,
    ensures
        ({
            let word = (b0 as u32) | ((b1 as u32) << 8) | ((b2 as u32) << 16) | ((b3 as u32)
                << 24);
            let byte = if s / 2 == 0 {
                b0
            } else if s / 2 == 1 {
                b1
            } else if s / 2 == 2 {
                b2
            } else {
                b3
            };
            ((word >> (4 * s)) & 0xF) as u8 == (if s % 2 == 0 {
                byte % 16
            } else {
                byte / 16
            })
        }),
{
}

/// Decodes the eight codes of one word for one channel, from sample `offset`
/// of the block on.
fn decode_chunk(
    word: u32,
    channel: &mut ADPCMChannel,
    output: &mut [i16; SAMPLES_PER_ADPCM_BLOCK],
    offset: usize,
    Ghost(block): Ghost<Seq<u8>>,
    Ghost(channels): Ghost<int>,
    Ghost(ch): Ghost<int>,
)
    requires
        offset + 8 <= 64,
        *old(channel) == spec_block_state(block, channels, ch, offset as nat),
        forall|s: u32|
            s < 8 ==> #[trigger] spec_word_code(word, s) == spec_block_code(
                block,
                channels,
                ch,
                offset + s,
            ),
        forall|k: int|
            0 <= k < offset ==> old(output)@[k] == spec_decode_channel(block, channels, ch)[k],
    ensures
        *final(channel) == spec_block_state(block, channels, ch, (offset + 8) as nat),
        forall|k: int|
            0 <= k < offset + 8 ==> final(output)@[k] == spec_decode_channel(
                block,
                channels,
                ch,
            )[k],
        forall|k: int| offset + 8 <= k < 64 ==> final(output)@[k] == old(output)@[k],
{
    let mut data = word;
    let mut s: usize = 0;
    assert(word >> 0u32 == word) by (bit_vector);
    while s < SAMPLES_PER_CHUNK
        invariant
            s <= 8,
            offset + 8 <= 64,
            data == word >> (4 * s as u32),
            *channel == spec_block_state(block, channels, ch, (offset + s) as nat),
            forall|t: u32|
                t < 8 ==> #[trigger] spec_word_code(word, t) == spec_block_code(
                    block,
                    channels,
                    ch,
                    offset + t,
                ),
            forall|k: int|
                0 <= k < offset + s ==> output@[k] == spec_decode_channel(block, channels, ch)[k],
            forall|k: int| offset + 8 <= k < 64 ==> output@[k] == old(output)@[k],
        decreases 8 - s,
    {
        proof {
            lemma_block_state_wf(block, channels, ch, (offset + s) as nat);
            lemma_block_state_wf(block, channels, ch, (offset + s + 1) as nat);
        }
        let ghost shift = s as u32;
        assert(data & 0xF < 16) by (bit_vector);
        let nibble = (data & 0xF) as u8;
        assert(nibble == spec_block_code(block, channels, ch, offset + s)) by {
            assert(spec_word_code(word, shift) == spec_block_code(
                block,
                channels,
                ch,
                offset + shift,
            ));
        }
        let new_sample = clamp_sample(
            channel.pcmdata + calculate_delta(STEP_TABLE[channel.index], nibble),
        );
        channel.index = advance_index(channel.index, nibble);
        channel.pcmdata = new_sample;
        output[offset + s] = new_sample as i16;

        assert((word >> (4 * shift)) >> 4 == word >> (4 * (shift + 1) as u32)) by (bit_vector)
            requires
                shift < 8,
        ;
        data = data >> 4;  // right shift to get the next four bits
        s += 1;
    }
}

/// Decodes one whole block: 64 samples for each channel that the block has,
/// and silence for the others.
#[verifier::rlimit(50)]
pub fn decode_block_samples(block: &[u8], num_channels: usize) -> (samples: [[i16;
    SAMPLES_PER_ADPCM_BLOCK]; MAX_AUDIO_CHANNEL_COUNT])
    requires
        0 < num_channels <= MAX_AUDIO_CHANNEL_COUNT,
        block.len() == ADPCM_BLOCK_SIZE * num_channels,
    ensures
        spec_block_view(samples@) == spec_decode_block(block@, num_channels as int),
{
    let mut samples_to_output = [[0i16; SAMPLES_PER_ADPCM_BLOCK]; MAX_AUDIO_CHANNEL_COUNT];
    let mut states = [ADPCMChannel { pcmdata: 0, index: 0 }; MAX_AUDIO_CHANNEL_COUNT];

    // Initialize with the header
    let mut input_offset: usize = 0;
    let mut ch: usize = 0;
    while ch < num_channels
        invariant
            ch <= num_channels <= 8,
            block.len() == 36 * num_channels,
            input_offset == 4 * ch,
            forall|d: int| 0 <= d < ch ==> states@[d] == spec_block_start(block@, d),
            forall|d: int, k: int| 0 <= d < 8 && 0 <= k < 64 ==> samples_to_output@[d]@[k] == 0,
        decreases num_channels - ch,
    {
        let low = block[input_offset] as u16;
        let high = block[input_offset + 1] as u16;
        let sample = #[verifier::truncate]
        ((low | (high << 8)) as i16);
        assert(sample as int == (if low + 256 * high < 32768 {
            low + 256 * high
        } else {
            low + 256 * high - 65536
        })) by (bit_vector)
            requires
                low < 256,
                high < 256,
                sample == (low | (high << 8)) as i16,
        ;
        states[ch] = ADPCMChannel {
            pcmdata: sample as i32,
            index: clamp_table_index(block[input_offset + 2] as isize),
        };
        input_offset += 4;
        ch += 1;
    }

    // Decode it
    let mut c: usize = 0;
    while c < CHUNKS_PER_BLOCK
        invariant
            c <= 8,
            0 < num_channels <= 8,
            block.len() == 36 * num_channels,
            input_offset == 4 * num_channels + c * (4 * num_channels),
            forall|d: int|
                0 <= d < num_channels ==> states@[d] == spec_block_state(
                    block@,
                    num_channels as int,
                    d,
                    (8 * c) as nat,
                ),
            forall|d: int, k: int|
                0 <= d < num_channels && 0 <= k < 8 * c ==> samples_to_output@[d]@[k]
                    == spec_decode_channel(block@, num_channels as int, d)[k],
            forall|d: int, k: int|
                0 <= d < 8 && 0 <= k < 64 && (d >= num_channels || k >= 8 * c)
                    ==> samples_to_output@[d]@[k] == 0,
        decreases 8 - c,
    {
        let output_offset = c * SAMPLES_PER_CHUNK;
        let mut ch: usize = 0;
        while ch < num_channels
            invariant
                c < 8,
                output_offset == 8 * c,
                ch <= num_channels <= 8,
                block.len() == 36 * num_channels,
                input_offset == 4 * num_channels + c * (4 * num_channels) + 4 * ch,
                forall|d: int|
                    0 <= d < num_channels ==> states@[d] == spec_block_state(
                        block@,
                        num_channels as int,
                        d,
                        (if d < ch {
                            8 * c + 8
                        } else {
                            8 * c
                        }) as nat,
                    ),
                forall|d: int, k: int|
                    0 <= d < num_channels && 0 <= k < (if d < ch {
                        8 * c + 8
                    } else {
                        8 * c
                    }) ==> samples_to_output@[d]@[k] == spec_decode_channel(
                        block@,
                        num_channels as int,
                        d,
                    )[k],
                forall|d: int, k: int|
                    0 <= d < 8 && 0 <= k < 64 && (d >= num_channels || k >= (if d < ch {
                        8 * c + 8
                    } else {
                        8 * c
                    })) ==> samples_to_output@[d]@[k] == 0,
            decreases num_channels - ch,
        {
            assert(c * (4 * num_channels) <= 7 * (4 * num_channels)) by (nonlinear_arith)
                requires
                    c <= 7,
                    num_channels > 0,
            ;
            let b0 = block[input_offset];
            let b1 = block[input_offset + 1];
            let b2 = block[input_offset + 2];
            let b3 = block[input_offset + 3];
            let data = (b0 as u32) | ((b1 as u32) << 8) | ((b2 as u32) << 16) | ((b3 as u32)
                << 24);
            assert forall|s: u32| s < 8 implies #[trigger] spec_word_code(data, s)
                == spec_block_code(block@, num_channels as int, ch as int, output_offset + s) by {
                lemma_word_codes(b0, b1, b2, b3, s);
                let k = output_offset + s;
                assert(k / 8 == c && k % 8 == s);
                assert(spec_code_offset(num_channels as int, ch as int, k) == input_offset + s
                    / 2);
            }
            let ghost before = samples_to_output;
            decode_chunk(
                data,
                &mut states[ch],
                &mut samples_to_output[ch],
                output_offset,
                Ghost(block@),
                Ghost(num_channels as int),
                Ghost(ch as int),
            );
            assert(forall|d: int| 0 <= d < 8 && d != ch ==> samples_to_output@[d] == before@[d]);
            input_offset += 4;
            ch += 1;
        }
        assert(4 * num_channels + c * (4 * num_channels) + 4 * num_channels == 4 * num_channels
            + (c + 1) * (4 * num_channels)) by (nonlinear_arith);
        c += 1;
    }

    assert(spec_block_view(samples_to_output@) =~~= spec_decode_block(
        block@,
        num_channels as int,
    ));
    samples_to_output
}

/// The samples that a sink holds once `added` has been written to it: each
/// channel of the sink gets the samples of the channel of the same number, as
/// far as `added` has one.
pub open spec fn spec_append_channels(before: Seq<Seq<i16>>, added: Seq<Seq<i16>>) -> Seq<
    Seq<i16>,
> {
    Seq::new(
        before.len(),
        |ch: int|
            if ch < added.len() {
                before[ch] + added[ch]
            } else {
                before[ch]
            },
    )
}

/// Writer for outputting PCM samples.
///
/// This is implemented for arrays of [`Vec<i16>`](std::vec::Vec), one vector
/// per channel, which take whatever they are handed, and for a mutable
/// reference to any sink, which does what that sink does.
pub trait XboxADPCMDecodeSink {
    type Error;

    /// The samples written so far, channel by channel.
    ///
    /// A sink says for itself what it holds. One that does not is taken to
    /// have no channel.
    open spec fn channels(&self) -> Seq<Seq<i16>> {
        Seq::empty()
    }

    /// Whether the sink takes whatever it is handed. A sink that says so owes
    /// success, now and after every call. One that does not say so may fail.
    open spec fn infallible(&self) -> bool {
        false
    }

    /// Reserve an amount of samples for all channels.
    ///
    /// Implementing this is optional, but it can be used to hint the amount of samples to be written for allocations such as for memory-based buffers.
    #[allow(unused_variables)]
    fn reserve(&mut self, samples_amount: usize) -> (r: Result<(), Self::Error>)
        ensures
            final(self).channels() == old(self).channels(),
            old(self).infallible() ==> r is Ok && final(self).infallible(),
    {
        Ok(())
    }

    /// Write the samples to the end of the output for each channel.
    ///
    /// The decoder always hands over eight channels of one block, silence on
    /// those that the stream does not have.
    ///
    /// Implementing this is **required**.
    fn write(&mut self, samples: &[[i16; SAMPLES_PER_ADPCM_BLOCK]]) -> (r: Result<
        (),
        Self::Error,
    >)
        requires
            samples@.len() == MAX_AUDIO_CHANNEL_COUNT,
        ensures
            r is Ok ==> final(self).channels() == spec_append_channels(
                old(self).channels(),
                spec_block_view(samples@),
            ),
            old(self).infallible() ==> r is Ok && final(self).infallible(),
    ;
}

/// The contents of some vectors, one after the other.
pub open spec fn spec_vec_channels(outputs: Seq<Vec<i16>>) -> Seq<Seq<i16>> {
    Seq::new(outputs.len(), |ch: int| outputs[ch]@)
}

impl<const N: usize> XboxADPCMDecodeSink for [Vec<i16>; N] {
    type Error = ();

    open spec fn channels(&self) -> Seq<Seq<i16>> {
        spec_vec_channels(self@)
    }

    open spec fn infallible(&self) -> bool {
        true
    }

    fn reserve(&mut self, samples_amount: usize) -> (r: Result<(), Self::Error>) {
        let mut i: usize = 0;
        while i < N
            invariant
                i <= N,
                spec_vec_channels(self@) == spec_vec_channels(old(self)@),
            decreases N - i,
        {
            let ghost before = self@;
            self[i].reserve(samples_amount);
            assert(spec_vec_channels(self@) =~= spec_vec_channels(before));
            i += 1;
        }
        Ok(())
    }

    fn write(&mut self, samples: &[[i16; SAMPLES_PER_ADPCM_BLOCK]]) -> (r: Result<
        (),
        Self::Error,
    >) {
        let mut i: usize = 0;
        while i < N && i < samples.len()
            invariant
                i <= N,
                i <= samples.len(),
                forall|k: int| 0 <= k < i ==> #[trigger] self@[k]@ == old(self)@[k]@ + samples@[k]@,
                forall|k: int| i <= k < N ==> #[trigger] self@[k]@ == old(self)@[k]@,
            decreases N - i,
        {
            self[i].extend_from_slice(samples[i].as_slice());
            i += 1;
        }
        assert(spec_vec_channels(self@) =~= spec_append_channels(
            spec_vec_channels(old(self)@),
            spec_block_view(samples@),
        ));
        Ok(())
    }
}

impl<'a, S: XboxADPCMDecodeSink> XboxADPCMDecodeSink for &'a mut S {
    type Error = S::Error;

    open spec fn channels(&self) -> Seq<Seq<i16>> {
        (**self).channels()
    }

    open spec fn infallible(&self) -> bool {
        (**self).infallible()
    }

    fn reserve(&mut self, samples_amount: usize) -> (r: Result<(), Self::Error>) {
        (**self).reserve(samples_amount)
    }

    fn write(&mut self, samples: &[[i16; SAMPLES_PER_ADPCM_BLOCK]]) -> (r: Result<
        (),
        Self::Error,
    >) {
        (**self).write(samples)
    }
}

/// What becomes of a stream of bytes: the bytes that are left over, short of a
/// whole block, and the samples of the whole blocks, channel by channel.
///
/// `pending` holds the bytes that came before `input` and have not been
/// decoded. Together with the first bytes of `input` they make up the first
/// block. Without input nothing is decoded.
pub open spec fn spec_decode_stream(pending: Seq<u8>, input: Seq<u8>, channels: int) -> (
    Seq<u8>,
    Seq<Seq<i16>>,
)
    decreases input.len(), pending.len(),
{
    let block_len = spec_block_len(channels);
    if input.len() == 0 || channels <= 0 || pending.len() > block_len {
        (pending, spec_no_samples())
    } else if pending.len() + input.len() < block_len {
        (pending + input, spec_no_samples())
    } else {
        let take = block_len - pending.len();
        let rest = spec_decode_stream(
            Seq::empty(),
            input.subrange(take, input.len() as int),
            channels,
        );
        (
            rest.0,
            spec_join_channels(
                spec_decode_block(pending + input.subrange(0, take), channels),
                rest.1,
            ),
        )
    }
}

/// The bytes that a decoder may hold after a call that has failed: either
/// those that it held before, or a whole block, made of the last bytes that
/// it has taken in.
pub open spec fn spec_decode_failed(
    before: Seq<u8>,
    input: Seq<u8>,
    channels: int,
    held: Seq<u8>,
) -> bool {
    held == before || (held.len() == spec_block_len(channels) && exists|taken: int, dropped: int|
        0 <= taken <= input.len() && 0 <= dropped <= before.len() + taken && held == (before
            + input.subrange(0, taken)).skip(dropped))
}

/// The number of samples per channel for which the decoder asks the sink to
/// make room: those of every block that is begun once `incoming` bytes have
/// joined the `buffered` ones, or the largest number that there is.
pub open spec fn spec_decode_reserve(buffered: int, incoming: int, channels: int) -> int {
    let blocks = (buffered + incoming + (36 * channels - 1)) / (36 * channels);
    if blocks * 64 > usize::MAX {
        usize::MAX as int
    } else {
        blocks * 64
    }
}

/// Calculates how many samples per channel to reserve before `incoming` bytes
/// are decoded.
pub fn decode_reserve_amount(buffered: usize, incoming: usize, num_channels: usize) -> (amount:
    usize)
    requires
        0 < num_channels <= MAX_AUDIO_CHANNEL_COUNT,
    ensures
        amount == spec_decode_reserve(buffered as int, incoming as int, num_channels as int),
{
    let max_buffer_size = (ADPCM_BLOCK_SIZE * num_channels) as u128;
    let total_bytes_after_this = incoming as u128 + buffered as u128;
    let blocks_to_reserve = (total_bytes_after_this + (max_buffer_size - 1)) / max_buffer_size;
    assert(blocks_to_reserve <= total_bytes_after_this + (max_buffer_size - 1)) by (nonlinear_arith)
        requires
            blocks_to_reserve == (total_bytes_after_this + (max_buffer_size - 1))
                / max_buffer_size as int,
            max_buffer_size >= 1,
            total_bytes_after_this >= 0,
    ;
    let samples = blocks_to_reserve * 64;
    if samples > usize::MAX as u128 {
        usize::MAX
    } else {
        samples as usize
    }
}

/// Xbox ADPCM decoder implementation.
pub struct XboxADPCMDecoder<S: XboxADPCMDecodeSink> {
    /// Number of channels
    num_channels: usize,
    /// Buffer to write
    buffer: [u8; ADPCM_BUFFER_SIZE],
    /// Number of bytes used
    buffer_size: usize,
    /// Sink
    sink: S,
    /// The amounts for which the sink has been asked to make room
    hints: Ghost<Seq<usize>>,
}

impl<S: XboxADPCMDecodeSink> XboxADPCMDecoder<S> {
    /// The channel count lies between 1 and 8, and the bytes held are at most
    /// one block.
    pub closed spec fn wf(&self) -> bool {
        0 < self.num_channels <= 8 && self.buffer_size <= 36 * self.num_channels
    }

    /// The channel count that the decoder was made for.
    pub closed spec fn spec_num_channels(&self) -> int {
        self.num_channels as int
    }

    /// The bytes that have come in and have not been decoded.
    pub closed spec fn pending(&self) -> Seq<u8> {
        self.buffer@.subrange(0, self.buffer_size as int)
    }

    /// The sink, with what has been written to it.
    pub closed spec fn spec_sink(&self) -> S {
        self.sink
    }

    /// The numbers of samples per channel for which the decoder has asked
    /// the sink to make room, in the order of the calls.
    pub closed spec fn reserved(&self) -> Seq<usize> {
        self.hints@
    }

    /// What a decoder that is well formed holds: a channel count between 1
    /// and 8, and no more bytes than one block has.
    pub proof fn lemma_wf(&self)
        requires
            self.wf(),
        ensures
            0 < self.spec_num_channels() <= 8,
            self.pending().len() <= spec_block_len(self.spec_num_channels()),
    {
    }

    /// Initialize an Xbox ADPCM decoder with the given channel count and the output.
    ///
    /// `num_channels` must be between 1 and 8.
    pub fn new(num_channels: usize, sink: S) -> (decoder: XboxADPCMDecoder<S>)
        requires
            0 < num_channels <= MAX_AUDIO_CHANNEL_COUNT,
        ensures
            decoder.wf(),
            decoder.spec_num_channels() == num_channels,
            decoder.pending() == Seq::<u8>::empty(),
            decoder.spec_sink() == sink,
            decoder.reserved() == Seq::<usize>::empty(),
    {
        XboxADPCMDecoder {
            num_channels,
            buffer: [0u8; ADPCM_BUFFER_SIZE],
            buffer_size: 0,
            sink,
            hints: Ghost(Seq::empty()),
        }
    }

    /// The sink, as it stands.
    pub fn sink(&self) -> (sink: &S)
        ensures
            *sink == self.spec_sink(),
    {
        &self.sink
    }

    /// Gives up the decoder for its sink. Bytes short of a whole block are
    /// dropped.
    pub fn into_sink(self) -> (sink: S)
        ensures
            sink == self.spec_sink(),
    {
        self.sink
    }

    /// Decode the given byte array of Xbox ADPCM blocks.
    ///
    /// The bytes may come in pieces of any size: a block is decoded, and its
    /// samples written to the sink, as soon as its last byte is there. Before
    /// that the sink is asked to make room for the samples of every block
    /// that is begun.
    ///
    /// An error of the sink is returned at once. The block whose samples the
    /// sink has refused stays in the decoder, and the bytes of the input
    /// behind it are not taken in. Nothing else makes decoding fail.
    #[verifier::rlimit(50)]
    pub fn decode(&mut self, input: &[u8]) -> (r: Result<(), S::Error>)
        requires
            old(self).wf(),
        ensures
            final(self).wf(),
            final(self).spec_num_channels() == old(self).spec_num_channels(),
            final(self).reserved() == spec_reserved_after(
                old(self).reserved(),
                spec_decode_reserve(
                    old(self).pending().len() as int,
                    input@.len() as int,
                    old(self).spec_num_channels(),
                ),
            ),
            r is Ok ==> final(self).pending() == spec_decode_stream(
                old(self).pending(),
                input@,
                old(self).spec_num_channels(),
            ).0,
            r is Ok ==> final(self).spec_sink().channels() == spec_append_channels(
                old(self).spec_sink().channels(),
                spec_decode_stream(old(self).pending(), input@, old(self).spec_num_channels()).1,
            ),
            r is Err ==> spec_decode_failed(
                old(self).pending(),
                input@,
                old(self).spec_num_channels(),
                final(self).pending(),
            ),
            old(self).spec_sink().infallible() ==> r is Ok && final(self).spec_sink().infallible(),
    {
        let input_len = input.len();
        let max_buffer_size = ADPCM_BLOCK_SIZE * self.num_channels;
        let ghost channels = self.num_channels as int;
        let ghost before = self.pending();
        let ghost written = self.sink.channels();

        // Calculate how many samples to reserve, even if we may not include everything
        let samples_to_reserve = decode_reserve_amount(
            self.buffer_size,
            input_len,
            self.num_channels,
        );
        let ghost asked = spec_reserved_after(self.hints@, samples_to_reserve as int);
        if samples_to_reserve > 0 {
            self.hints = Ghost(asked);
            self.sink.reserve(samples_to_reserve)?;
        }
        // Load the bytes

        let mut bytes_loaded: usize = 0;
        let ghost mut emitted = spec_no_samples();
        let ghost mut dropped: int = 0;
        assert(self.sink.channels() =~~= spec_append_channels(written, emitted));
        assert(before =~= (before + input@.subrange(0, 0)).skip(0));
        assert(input@.subrange(0, input_len as int) == input@);
        assert(spec_join_channels(emitted, spec_decode_stream(before, input@, channels).1)
            =~~= spec_decode_stream(before, input@, channels).1) by {
            lemma_decode_stream_channels(before, input@, channels);
        }
        while bytes_loaded != input_len
            invariant
                self.wf(),
                self.num_channels == channels,
                channels == old(self).spec_num_channels(),
                before == old(self).pending(),
                old(self).spec_sink().infallible() ==> self.sink.infallible(),
                self.hints@ == asked,
                asked == spec_reserved_after(
                    old(self).reserved(),
                    spec_decode_reserve(
                        old(self).pending().len() as int,
                        input@.len() as int,
                        old(self).spec_num_channels(),
                    ),
                ),
                max_buffer_size == 36 * channels,
                input_len == input@.len(),
                bytes_loaded <= input_len,
                emitted.len() == 8,
                self.sink.channels() == spec_append_channels(written, emitted),
                0 <= dropped <= before.len() + bytes_loaded,
                self.pending() == (before + input@.subrange(0, bytes_loaded as int)).skip(dropped),
                spec_decode_stream(before, input@, channels).0 == spec_decode_stream(
                    self.pending(),
                    input@.subrange(bytes_loaded as int, input_len as int),
                    channels,
                ).0,
                spec_decode_stream(before, input@, channels).1 == spec_join_channels(
                    emitted,
                    spec_decode_stream(
                        self.pending(),
                        input@.subrange(bytes_loaded as int, input_len as int),
                        channels,
                    ).1,
                ),
            decreases input_len - bytes_loaded, self.buffer_size,
        {
            let ghost held = self.pending();
            let ghost rest = input@.subrange(bytes_loaded as int, input_len as int);
            let ghost size_before = self.buffer_size;
            let bytes_free = max_buffer_size - self.buffer_size;
            let bytes_that_can_be_loaded = bytes_free.min(input_len - bytes_loaded);
            let mut b: usize = 0;
            while b < bytes_that_can_be_loaded
                invariant
                    b <= bytes_that_can_be_loaded,
                    self.num_channels == channels,
                    0 < channels <= 8,
                    old(self).spec_sink().infallible() ==> self.sink.infallible(),
                    self.hints@ == asked,
                    self.buffer_size == size_before,
                    self.buffer_size + bytes_that_can_be_loaded <= 36 * channels,
                    bytes_loaded + bytes_that_can_be_loaded <= input_len,
                    input_len == input@.len(),
                    self.sink.channels() == spec_append_channels(written, emitted),
                    rest == input@.subrange(bytes_loaded as int, input_len as int),
                    held.len() == size_before,
                    self.buffer@.subrange(0, self.buffer_size + b) == held + rest.subrange(
                        0,
                        b as int,
                    ),
                decreases bytes_that_can_be_loaded - b,
            {
                let ghost filled = self.buffer@.subrange(0, self.buffer_size + b);
                self.buffer[self.buffer_size + b] = input[bytes_loaded + b];
                assert(self.buffer@.subrange(0, self.buffer_size + b + 1) =~= filled.push(
                    input@[bytes_loaded + b],
                ));
                assert(rest.subrange(0, b + 1) =~= rest.subrange(0, b as int).push(
                    input@[bytes_loaded + b],
                ));
                b += 1;
            }
            self.buffer_size += bytes_that_can_be_loaded;
            bytes_loaded += bytes_that_can_be_loaded;
            let ghost taken = rest.subrange(0, bytes_that_can_be_loaded as int);
            let ghost later = input@.subrange(bytes_loaded as int, input_len as int);
            assert(self.pending() == held + taken);
            assert(later =~= rest.subrange(bytes_that_can_be_loaded as int, rest.len() as int));
            assert(held + taken =~= (before + input@.subrange(0, bytes_loaded as int)).skip(
                dropped,
            ));
            if self.buffer_size == max_buffer_size {
                let ghost block = self.pending();
                let ghost after = spec_decode_stream(Seq::empty(), later, channels);
                assert(spec_decode_stream(held, rest, channels) == (
                    after.0,
                    spec_join_channels(spec_decode_block(block, channels), after.1),
                ));
                match self.decode_block() {
                    Ok(()) => {},
                    Err(e) => {
                        assert(self.pending() == block);
                        assert(0 <= bytes_loaded <= input@.len() && 0 <= dropped <= before.len()
                            + bytes_loaded && block == (before + input@.subrange(
                            0,
                            bytes_loaded as int,
                        )).skip(dropped));
                        return Err(e);
                    },
                }
                proof {
                    lemma_decode_stream_channels(Seq::empty(), later, channels);
                    let decoded = spec_decode_block(block, channels);
                    assert(self.sink.channels() =~~= spec_append_channels(
                        written,
                        spec_join_channels(emitted, decoded),
                    ));
                    assert(spec_join_channels(emitted, spec_join_channels(decoded, after.1))
                        =~~= spec_join_channels(spec_join_channels(emitted, decoded), after.1));
                    emitted = spec_join_channels(emitted, decoded);
                    dropped = before.len() + bytes_loaded;
                    assert(self.pending() =~= (before + input@.subrange(
                        0,
                        bytes_loaded as int,
                    )).skip(dropped));
                }
            } else {
                assert(later.len() == 0);
                assert(rest =~= taken);
                assert(spec_decode_stream(held, rest, channels) == (
                    held + rest,
                    spec_no_samples(),
                ));
                assert(spec_decode_stream(self.pending(), later, channels) == (
                    self.pending(),
                    spec_no_samples(),
                ));
            }
        }
        proof {
            let last = input@.subrange(bytes_loaded as int, input_len as int);
            assert(last.len() == 0);
            assert(spec_join_channels(emitted, spec_no_samples()) =~~= emitted);
        }
        Ok(())
    }

    /// Decode bytes from the buffer.
    ///
    /// Decodes the block that the buffer holds and writes its samples to the
    /// sink. The buffer is emptied once the sink has taken them: it stays
    /// full where the sink fails, and only the sink can make this fail.
    fn decode_block(&mut self) -> (r: Result<(), S::Error>)
        requires
            old(self).wf(),
            old(self).buffer_size == 36 * old(self).num_channels,
        ensures
            final(self).wf(),
            final(self).num_channels == old(self).num_channels,
            final(self).buffer == old(self).buffer,
            final(self).hints == old(self).hints,
            r is Ok ==> final(self).buffer_size == 0,
            r is Ok ==> final(self).sink.channels() == spec_append_channels(
                old(self).sink.channels(),
                spec_decode_block(old(self).pending(), old(self).num_channels as int),
            ),
            r is Err ==> final(self).buffer_size == old(self).buffer_size,
            old(self).sink.infallible() ==> r is Ok && final(self).sink.infallible(),
    {
        let block = self.buffer.as_slice();
        let samples_to_output = decode_block_samples(
            &block[0..ADPCM_BLOCK_SIZE * self.num_channels],
            self.num_channels,
        );

        // Write it
        self.sink.write(samples_to_output.as_slice())?;
        self.buffer_size = 0;
        Ok(())
    }
}

/// A stream decodes to eight channels.
pub proof fn lemma_decode_stream_channels(pending: Seq<u8>, input: Seq<u8>, channels: int)
    ensures
        spec_decode_stream(pending, input, channels).1.len() == 8,
    decreases input.len(), pending.len(),
{
    let block_len = spec_block_len(channels);
    if input.len() == 0 || channels <= 0 || pending.len() > block_len {
    } else if pending.len() + input.len() < block_len {
    } else {
        let take = block_len - pending.len();
        lemma_decode_stream_channels(
            Seq::empty(),
            input.subrange(take, input.len() as int),
            channels,
        );
    }
}

/// Decoding a stream in two pieces leaves the bytes and gives the samples that
/// decoding it in one piece does, wherever it is cut.
#[verifier::rlimit(50)]
pub proof fn lemma_decode_stream_split(
    pending: Seq<u8>,
    first: Seq<u8>,
    second: Seq<u8>,
    channels: int,
)
    requires
        channels > 0,
        pending.len() <= spec_block_len(channels),
    ensures
        ({
            let whole = spec_decode_stream(pending, first + second, channels);
            let begun = spec_decode_stream(pending, first, channels);
            let ended = spec_decode_stream(begun.0, second, channels);
            &&& whole.0 == ended.0
            &&& whole.1 == spec_join_channels(begun.1, ended.1)
            &&& begun.0.len() <= spec_block_len(channels)
        }),
    decreases first.len(), pending.len(),
{
    let block_len = spec_block_len(channels);
    let whole = spec_decode_stream(pending, first + second, channels);
    let begun = spec_decode_stream(pending, first, channels);
    let ended = spec_decode_stream(begun.0, second, channels);
    lemma_decode_stream_channels(begun.0, second, channels);
    lemma_decode_stream_channels(pending, first, channels);
    if first.len() == 0 {
        assert(first + second =~= second);
        assert(spec_join_channels(begun.1, ended.1) =~~= ended.1);
    } else if pending.len() + first.len() < block_len {
        assert(spec_join_channels(begun.1, ended.1) =~~= ended.1);
        if second.len() == 0 {
            assert(first + second =~= first);
        } else if pending.len() + first.len() + second.len() < block_len {
            assert(pending + (first + second) =~= (pending + first) + second);
        } else {
            let take = block_len - pending.len();
            let take2 = take - first.len();
            assert(pending + (first + second).subrange(0, take) =~= (pending + first)
                + second.subrange(0, take2));
            assert((first + second).subrange(take, (first + second).len() as int)
                =~= second.subrange(take2, second.len() as int));
        }
    } else {
        let take = block_len - pending.len();
        let later = first.subrange(take, first.len() as int);
        assert(pending + (first + second).subrange(0, take) =~= pending + first.subrange(
            0,
            take,
        ));
        assert((first + second).subrange(take, (first + second).len() as int) =~= later
            + second);
        lemma_decode_stream_split(Seq::empty(), later, second, channels);
        let decoded = spec_decode_block(pending + first.subrange(0, take), channels);
        let rest = spec_decode_stream(Seq::empty(), later, channels);
        lemma_decode_stream_channels(Seq::empty(), later, channels);
        assert(spec_join_channels(decoded, spec_join_channels(rest.1, ended.1))
            =~~= spec_join_channels(spec_join_channels(decoded, rest.1), ended.1));
    }
}

/// A stream of `blocks` whole blocks decodes to 64 samples per block on each
/// channel, and leaves no byte over.
pub proof fn lemma_decode_stream_len(input: Seq<u8>, channels: int, blocks: nat, ch: int)
    requires
        channels > 0,
        input.len() == blocks * spec_block_len(channels),
        0 <= ch < 8,
    ensures
        spec_decode_stream(Seq::empty(), input, channels).0.len() == 0,
        spec_decode_stream(Seq::empty(), input, channels).1[ch].len() == blocks * 64,
    decreases blocks,
{
    let block_len = spec_block_len(channels);
    if blocks == 0 {
        assert(blocks * block_len == 0) by (nonlinear_arith)
            requires
                blocks == 0,
        ;
    } else {
        assert(blocks * block_len == (blocks - 1) * block_len + block_len) by (nonlinear_arith);
        assert((blocks - 1) * block_len >= 0) by (nonlinear_arith)
            requires
                blocks >= 1,
                block_len > 0,
        ;
        let later = input.subrange(block_len, input.len() as int);
        lemma_decode_stream_len(later, channels, (blocks - 1) as nat, ch);
        let decoded = spec_decode_block(Seq::<u8>::empty() + input.subrange(0, block_len), channels);
        let rest = spec_decode_stream(Seq::empty(), later, channels);
        assert(spec_decode_stream(Seq::empty(), input, channels) == (
            rest.0,
            spec_join_channels(decoded, rest.1),
        ));
        assert(decoded[ch].len() == 64);
    }
}

} // verus!
