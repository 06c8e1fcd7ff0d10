//! The layout of a block, as functions on its bytes.
//!
//! A block on `channels` channels starts with one header of four bytes per
//! channel: the reference sample as 16 bits, low byte first, then the step
//! index, then a byte that is not used. Eight chunks follow. A chunk holds four
//! bytes per channel, channel after channel, and each byte holds two codes,
//! the earlier one in its low half.

use vstd::prelude::*;
use crate::util::{spec_clamp_table_index, ADPCMChannel, SAMPLES_PER_ADPCM_BLOCK};

verus! {

/// The number of bytes of one block on `channels` channels.
pub open spec fn spec_block_len(channels: int) -> int {
    36 * channels
}

/// The sample that the two bytes of a header stand for: 16 bits, low byte
/// first, in two's complement.
pub open spec fn spec_header_sample(low: u8, high: u8) -> i16 {
    let unsigned = low + 256 * high;
    (if unsigned < 32768 {
        unsigned
    } else {
        unsigned - 65536
    }) as i16
}

/// The low byte of a sample in a header.
pub open spec fn spec_sample_low(sample: i16) -> u8 {
    ((if sample < 0 {
        sample + 65536
    } else {
        sample as int
    }) % 256) as u8
}

/// The high byte of a sample in a header.
pub open spec fn spec_sample_high(sample: i16) -> u8 {
    ((if sample < 0 {
        sample + 65536
    } else {
        sample as int
    }) / 256) as u8
}

/// The place in a block of the byte that holds code `k` of channel `ch`.
pub open spec fn spec_code_offset(channels: int, ch: int, k: int) -> int {
    4 * channels + (k / 8) * (4 * channels) + 4 * ch + (k % 8) / 2
}

/// Code `k` of channel `ch` in a block: the low half of its byte where `k` is
/// even, the high half where it is odd.
pub open spec fn spec_block_code(block: Seq<u8>, channels: int, ch: int, k: int) -> u8 {
    let byte = block[spec_code_offset(channels, ch, k)];
    if k % 2 == 0 {
        byte % 16
    } else {
        byte / 16
    }
}

/// The state in which channel `ch` starts a block: the reference sample of its
/// header, and the header's step index, brought into the table.
pub open spec fn spec_block_start(block: Seq<u8>, ch: int) -> ADPCMChannel {
    ADPCMChannel {
        pcmdata: spec_header_sample(block[4 * ch], block[4 * ch + 1]) as i32,
        index: spec_clamp_table_index(block[4 * ch + 2] as int) as usize,
    }
}

/// The state of channel `ch` once the first `k` codes of a block have been
/// applied.
pub open spec fn spec_block_state(block: Seq<u8>, channels: int, ch: int, k: nat) -> ADPCMChannel
    decreases k,
{
    if k == 0 {
        spec_block_start(block, ch)
    } else {
        spec_block_state(block, channels, ch, (k - 1) as nat).advance(
            spec_block_code(block, channels, ch, k - 1),
        )
    }
}

/// The 64 samples that a block holds for channel `ch`: sample `k` is the one
/// reached after code `k`. The reference sample itself is not among them.
pub open spec fn spec_decode_channel(block: Seq<u8>, channels: int, ch: int) -> Seq<i16> {
    Seq::new(64, |k: int| spec_block_state(block, channels, ch, (k + 1) as nat).pcmdata as i16)
}

/// What a block decodes to: 64 samples for each of eight channels, silence on
/// the channels that the block does not have.
pub open spec fn spec_decode_block(block: Seq<u8>, channels: int) -> Seq<Seq<i16>> {
    Seq::new(
        8,
        |ch: int|
            if ch < channels {
                spec_decode_channel(block, channels, ch)
            } else {
                Seq::new(64, |k: int| 0i16)
            },
    )
}

/// Channel by channel, the samples of `first` followed by those of `second`.
pub open spec fn spec_join_channels(first: Seq<Seq<i16>>, second: Seq<Seq<i16>>) -> Seq<Seq<i16>> {
    Seq::new(first.len(), |ch: int| first[ch] + second[ch])
}

/// Eight channels without a sample.
pub open spec fn spec_no_samples() -> Seq<Seq<i16>> {
    Seq::new(8, |ch: int| Seq::<i16>::empty())
}

/// The amounts for which a sink has been asked to make room, once it has been
/// asked for `amount` more: nothing is asked for where the amount is 0.
pub open spec fn spec_reserved_after(before: Seq<usize>, amount: int) -> Seq<usize> {
    if amount > 0 {
        before.push(amount as usize)
    } else {
        before
    }
}

/// The samples of a block as the decoder hands them on, channel by channel.
pub open spec fn spec_block_view(samples: Seq<[i16; SAMPLES_PER_ADPCM_BLOCK]>) -> Seq<Seq<i16>> {
    Seq::new(samples.len(), |ch: int| samples[ch]@)
}

/// A header's two bytes give back the sample that they were made from.
pub proof fn lemma_header_sample_round_trip(sample: i16)
    ensures
        spec_header_sample(spec_sample_low(sample), spec_sample_high(sample)) == sample,
{
}

/// The state of a channel stays within its ranges all through a block.
pub proof fn lemma_block_state_wf(block: Seq<u8>, channels: int, ch: int, k: nat)
    ensures
        spec_block_state(block, channels, ch, k).wf(),
    decreases k,
{
    if k > 0 {
        lemma_block_state_wf(block, channels, ch, (k - 1) as nat);
    }
}

} // verus!
