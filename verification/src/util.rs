//! Block geometry, the two tables of the format, and the arithmetic that the
//! encoder and the decoder share.

use vstd::prelude::*;

verus! {

/// Number of samples per chunk
pub const SAMPLES_PER_CHUNK: usize = 8;

/// Number of chunks per block
pub const CHUNKS_PER_BLOCK: usize = 8;

/// Number of compressed samples that one channel holds in a block
pub const SAMPLES_PER_ADPCM_BLOCK: usize = 64;

/// Size in bytes of one channel's share of a block: a header of four bytes,
/// then four bits per sample
pub const ADPCM_BLOCK_SIZE: usize = 36;

/// Largest channel count that the encoder and the decoder take
pub const MAX_AUDIO_CHANNEL_COUNT: usize = 8;

/// Maximum block size for all channels assuming max channels.
pub const ADPCM_BUFFER_SIZE: usize = 288;

/// Step sizes, by step index.
pub const STEP_TABLE: [u16; 89] = [
    7, 8, 9, 10, 11, 12, 13, 14, 16, 17,
    19, 21, 23, 25, 28, 31, 34, 37, 41, 45,
    50, 55, 60, 66, 73, 80, 88, 97, 107, 118,
    130, 143, 157, 173, 190, 209, 230, 253, 279, 307,
    337, 371, 408, 449, 494, 544, 598, 658, 724, 796,
    876, 963, 1060, 1166, 1282, 1411, 1552, 1707, 1878, 2066,
    2272, 2499, 2749, 3024, 3327, 3660, 4026, 4428, 4871, 5358,
    5894, 6484, 7132, 7845, 8630, 9493, 10442, 11487, 12635, 13899,
    15289, 16818, 18500, 20350, 22385, 24623, 27086, 29794, 32767,
];

/// How far the step index moves after a code, by code.
pub const INDEX_TABLE: [isize; 16] = [
    -1, -1, -1, -1, 2, 4, 6, 8,
    -1, -1, -1, -1, 2, 4, 6, 8,
];

/// The running state of one channel: the last reconstructed sample and the
/// index of the step size in use.
#[derive(Copy, Clone)]
pub struct ADPCMChannel {
    pub pcmdata: i32,
    pub index: usize,
}

impl ADPCMChannel {
    /// The sample lies in the 16-bit range and the index in the step table.
    pub open spec fn wf(self) -> bool {
        -32768 <= self.pcmdata <= 32767 && self.index < 89
    }

    /// The state that follows `self` once `code` has been applied: the sample
    /// moves by the reconstructed delta, the index by the table's adjustment,
    /// both clamped.
    pub open spec fn advance(self, code: u8) -> ADPCMChannel {
        ADPCMChannel {
            pcmdata: spec_clamp_sample(
                self.pcmdata + spec_calculate_delta(STEP_TABLE[self.index as int], code),
            ) as i32,
            index: spec_clamp_table_index(self.index + spec_index_step(code)) as usize,
        }
    }
}

impl Default for ADPCMChannel {
    fn default() -> (r: Self)
        ensures
            r.pcmdata == 0,
            r.index == 0,
    {
        ADPCMChannel { pcmdata: 0, index: 0 }
    }
}

/// The value of the 16-bit range that lies nearest to `x`.
pub open spec fn spec_clamp_sample(x: int) -> int {
    if x < -32768 {
        -32768
    } else if x > 32767 {
        32767
    } else {
        x
    }
}

/// The index of the step table that lies nearest to `x`.
pub open spec fn spec_clamp_table_index(x: int) -> int {
    if x < 0 {
        0
    } else if x > 88 {
        88
    } else {
        x
    }
}

/// The change of the sample that `code` stands for at step size `step`: an
/// eighth of the step, a quarter more for bit 0, a half more for bit 1, the
/// whole step more for bit 2, each part rounded down by itself; negated for
/// bit 3.
pub open spec fn spec_calculate_delta(step: u16, code: u8) -> int {
    let magnitude = step / 8 + (if code % 2 == 1 {
        step / 4
    } else {
        0
    }) + (if (code / 2) % 2 == 1 {
        step / 2
    } else {
        0
    }) + (if (code / 4) % 2 == 1 {
        step as int
    } else {
        0
    });
    if (code / 8) % 2 == 1 {
        -magnitude
    } else {
        magnitude
    }
}

/// The table's adjustment of the step index for `code`. Only the three low
/// bits count: the sign bit leaves the adjustment as it is.
pub open spec fn spec_index_step(code: u8) -> int {
    INDEX_TABLE[(code % 8) as int] as int
}

/// Clamp the sample to a 16-bit width
pub fn clamp_sample(input: i32) -> (r: i32)
    ensures
        r == spec_clamp_sample(input as int),
        -32768 <= r <= 32767,
{
    if input < -32768 {
        -32768
    } else if input > 32767 {
        32767
    } else {
        input
    }
}

/// Clamp the table index to the step table length
pub fn clamp_table_index(index: isize) -> (r: usize)
    ensures
        r == spec_clamp_table_index(index as int),
        r <= 88,
{
    if index < 0 {
        0
    } else if index > 88 {
        88
    } else {
        index as usize
    }
}

/// Calculate sample delta to decode an ADPCM sample.
pub fn calculate_delta(step: u16, code: u8) -> (delta: i32)
    ensures
        delta == spec_calculate_delta(step, code),
{
    assert((code & 1 != 0) == (code % 2 == 1)) by (bit_vector);
    assert((code & 2 != 0) == ((code / 2) % 2 == 1)) by (bit_vector);
    assert((code & 4 != 0) == ((code / 4) % 2 == 1)) by (bit_vector);
    assert((code & 8 != 0) == ((code / 8) % 2 == 1)) by (bit_vector);
    let step = step as i32;
    assert(step >> 3 == step / 8 && step >> 2 == step / 4 && step >> 1 == step / 2)
        by (bit_vector)
        requires
            0 <= step < 65536,
    ;
    let mut delta = step >> 3;
    if (code & 1) != 0 {
        delta += step >> 2;
    }
    if (code & 2) != 0 {
        delta += step >> 1;
    }
    if (code & 4) != 0 {
        delta += step;
    }
    if (code & 8) != 0 {
        delta = -delta;
    }
    delta
}

/// Step the index of the step table by the adjustment that `code` asks for.
pub fn advance_index(index: usize, code: u8) -> (r: usize)
    requires
        index < 89,
    ensures
        r == spec_clamp_table_index(index + spec_index_step(code)),
        r < 89,
{
    assert(code & 7 == code % 8) by (bit_vector);
    clamp_table_index(index as isize + INDEX_TABLE[(code & 0x7) as usize])
}

/// The step sizes rise with the step index.
pub proof fn lemma_step_table_increasing(i: int, j: int)
    requires
        0 <= i < j < 89,
    ensures
        STEP_TABLE[i] < STEP_TABLE[j],
{
}

/// A code and the same code with its sign bit set move the step index alike,
/// so that the adjustment can be looked up by the whole code as well as by
/// its three low bits.
pub proof fn lemma_index_step_ignores_sign(code: u8)
    requires
        code < 8,
    ensures
        INDEX_TABLE[code as int] == INDEX_TABLE[code + 8],
        spec_index_step(code) == INDEX_TABLE[code as int],
        spec_index_step((code + 8) as u8) == INDEX_TABLE[code + 8],
{
}

} // verus!
