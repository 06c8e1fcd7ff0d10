use xbox_adpcm::decoder::decode_block_samples;
use xbox_adpcm::encoder::encode_reserve_amount;
use xbox_adpcm::{XboxADPCMDecoder, XboxADPCMEncodeSink, XboxADPCMEncoder};

/// A sink that keeps what it is handed and can be told to fail.
struct Recorder {
    reserved: Vec<usize>,
    writes: Vec<Vec<u8>>,
    fail_reserve: bool,
    fail_writes: bool,
}

impl Recorder {
    fn new() -> Recorder {
        Recorder { reserved: Vec::new(), writes: Vec::new(), fail_reserve: false, fail_writes: false }
    }
}

impl XboxADPCMEncodeSink for Recorder {
    type Error = &'static str;

    fn reserve(&mut self, bytes_amount: usize) -> Result<(), Self::Error> {
        if self.fail_reserve {
            return Err("no room");
        }
        self.reserved.push(bytes_amount);
        Ok(())
    }

    fn write(&mut self, bytes: &[u8]) -> Result<(), Self::Error> {
        if self.fail_writes {
            return Err("refused");
        }
        self.writes.push(bytes.to_vec());
        Ok(())
    }
}

/// A sink that only implements what it must.
struct Counter {
    bytes: usize,
}

impl XboxADPCMEncodeSink for Counter {
    type Error = ();

    fn write(&mut self, bytes: &[u8]) -> Result<(), Self::Error> {
        self.bytes += bytes.len();
        Ok(())
    }
}

fn signal(i: i64, k: i64) -> i16 {
    (((i * i * 37 * k + i * 1013) % 4001) - 2000) as i16
}

fn left(count: i64) -> Vec<i16> {
    (0..count).map(|i| signal(i, 1)).collect()
}

fn right(count: i64) -> Vec<i16> {
    (0..count).map(|i| signal(i, 3)).collect()
}

fn smooth() -> Vec<i16> {
    SMOOTH.to_vec()
}

fn encode_all(channels: &[&[i16]], lookahead: u8) -> Vec<u8> {
    let mut encoder = XboxADPCMEncoder::new(channels.len(), lookahead, Vec::new());
    encoder.encode(channels).unwrap();
    encoder.finish().unwrap();
    encoder.into_sink()
}

fn decode_mono(bytes: &[u8]) -> Vec<i16> {
    let mut decoder = XboxADPCMDecoder::new(1, [Vec::new()]);
    decoder.decode(bytes).unwrap();
    let [samples] = decoder.into_sink();
    samples
}

const MONO_LOOKAHEAD_0: [u8; 36] = [
    48, 248, 34, 0, 119, 199, 34, 45, 43, 195, 179, 180, 164, 75, 154, 148,
    90, 153, 88, 137, 152, 136, 120, 128, 128, 224, 0, 0, 16, 225, 1, 193,
    17, 43, 194, 194,
];

const MONO_LOOKAHEAD_1: [u8; 36] = [
    48, 248, 34, 0, 119, 199, 34, 45, 43, 195, 179, 180, 164, 91, 154, 147,
    106, 153, 72, 152, 152, 136, 112, 128, 128, 240, 0, 0, 0, 209, 1, 210,
    17, 43, 177, 194,
];

const MONO_LOOKAHEAD_3: [u8; 36] = [
    48, 248, 34, 0, 119, 199, 34, 45, 43, 195, 179, 179, 165, 91, 170, 148,
    73, 153, 105, 152, 136, 136, 120, 8, 8, 224, 0, 0, 16, 208, 1, 210,
    17, 43, 177, 194,
];

const STEREO_LOOKAHEAD_2: [u8; 216] = [
    48, 248, 34, 0, 48, 248, 0, 0, 119, 199, 34, 45, 119, 119, 119, 127,
    43, 195, 179, 180, 152, 152, 6, 12, 164, 91, 154, 147, 16, 177, 49, 187,
    106, 153, 89, 136, 164, 105, 136, 136, 137, 136, 120, 8, 0, 225, 17, 59,
    8, 224, 0, 0, 60, 74, 153, 137, 16, 208, 1, 210, 136, 1, 34, 245,
    17, 43, 177, 194, 178, 162, 164, 89, 122, 249, 60, 0, 79, 5, 63, 0,
    51, 60, 203, 164, 152, 128, 0, 241, 163, 91, 169, 149, 17, 43, 179, 90,
    73, 152, 137, 121, 153, 137, 7, 12, 136, 136, 128, 128, 16, 176, 50, 60,
    0, 16, 248, 0, 170, 150, 136, 136, 17, 225, 17, 28, 0, 33, 31, 178,
    177, 50, 45, 59, 179, 91, 153, 134, 60, 75, 75, 58, 8, 8, 29, 17,
    153, 6, 60, 0, 10, 7, 61, 0, 138, 8, 128, 8, 11, 128, 128, 128,
    128, 8, 128, 8, 128, 128, 128, 128, 128, 8, 128, 8, 8, 128, 128, 8,
    128, 128, 8, 128, 128, 8, 128, 8, 8, 8, 128, 8, 128, 8, 128, 8,
    128, 8, 128, 8, 128, 128, 128, 128, 8, 8, 8, 128, 128, 8, 8, 8,
    128, 128, 0, 0, 8, 8, 8, 0,
];

const STEREO_DECODED_LEFT: [i16; 192] = [
    -1645, -880, 762, -1350, 70, 1361, -1220, 497, -1688, -268, 1539, -573,
    1415, -392, 1720, -268, 2056, 495, -1493, 1347, -543, -1573, 612, -240,
    -1531, 1520, 274, -860, -1890, 1545, 1088, 673, -461, -804, -1116, -1400,
    -1658, 1862, 1359, 1816, 1401, 1779, 2122, -1938, -1385, -882, -425, -10,
    368, 1398, 1710, -1414, -168, 210, 1927, -1508, -136, 1110, -1536, 181,
    1117, -871, 420, -1692, 318, 2125, 13, 2001, 194, -1918, 638, -1079,
    1106, -314, -2121, 460, -570, -2131, 993, -253, -1387, 1705, 1290, 156,
    -874, -1186, -2038, 1835, 1282, 779, 322, -93, 285, -58, 254, -30,
    228, 462, 675, 1257, 1081, -1322, -979, -667, 185, 959, 1662, -1111,
    23, 1053, -1758, -624, 406, -1779, -359, 1448, -1133, 584, -1601, 387,
    -1937, 248, -1740, 584, -1601, 955, -762, 1423, 269, 11, -223, -10,
    184, 8, -152, -7, 125, 5, -104, -5, 85, 3, -71, -3,
    58, 2, -49, -3, 39, 1, -33, -2, 26, 0, 23, 2,
    -17, 0, 16, 2, -11, 1, -10, 0, 9, 1, -6, 0,
    6, 1, -4, 0, 4, 1, -2, 1, -1, 1, -1, 1,
    -1, 0, 1, 0, 1, 0, 1, 0, 0, 0, 0, 0,
];

const STEREO_DECODED_RIGHT: [i16; 192] = [
    -1989, -1959, -1896, -1760, -1467, -836, -2193, 717, 302, -832, -1175, -2111,
    1581, 2084, -2033, -1480, -977, 395, 1641, -1005, 25, 2210, 222, -1585,
    527, -893, -1667, 1384, 969, 591, 248, -64, 220, 478, 1181, -1592,
    -458, 572, -1613, 375, -1949, 236, -1184, 1140, 204, -648, -1422, -1656,
    -1869, -2063, -1535, -1375, -647, 15, 1338, -1306, 584, -1820, -259, -1679,
    645, -916, -1768, 1072, 981, -49, 263, -21, 237, 471, 1110, -1800,
    -554, 580, -1824, -263, 1725, -82, -1255, 1091, 155, -697, -1471, -1705,
    1494, 1951, -1791, -1288, -831, 415, 793, -1611, -50, 1938, -386, 1799,
    379, -912, 2139, 893, 515, 172, -140, -424, -166, 68, 707, 1677,
    -967, 167, 1884, -301, 1687, -120, -1762, 584, -352, -1204, 2153, 1696,
    1281, 1659, 1316, 1628, -1496, -250, 884, 1914, -383, -99, 159, -75,
    138, -56, 120, -40, 105, -27, 93, -16, 83, -7, 75, 1,
    -67, -6, 50, -1, 45, 3, -35, -1, 30, 2, -24, -1,
    20, 1, -16, 0, 14, 1, -11, 0, 10, 1, -7, 0,
    6, 0, 5, 0, 4, 0, 3, 0, 3, 1, -1, 1,
    -1, 1, 0, 1, 0, 1, 0, 1, 0, 0, 0, 0,
];

const RAMP_TAIL: [u8; 36] = [
    0, 0, 0, 0, 119, 119, 119, 119, 231, 8, 128, 8, 128, 8, 128, 8,
    128, 8, 128, 8, 128, 8, 128, 8, 128, 8, 128, 8, 128, 128, 8, 8,
    128, 8, 128, 128,
];

const RAMP_TAIL_DECODED: [i16; 64] = [
    11, 41, 104, 240, 533, 1164, 2521, 5431, 11667, 78, -1501, -66,
    1239, 53, -1025, -45, 846, 36, -700, -31, 577, 24, -479, -22,
    393, 15, -328, -16, 268, 10, -224, -11, 183, 7, -153, -8,
    124, 4, -105, -6, 84, 2, -72, -4, 57, 1, -50, -4,
    38, 0, 34, 3, -25, 1, -22, -1, 18, 1, -15, -1,
    12, 0, 11, 1,
];

const SMOOTH: [i16; 256] = [
    0, 887, 1763, 2617, 3439, 4219, 4946, 5613, 6210, 6731, 7169, 7518,
    7775, 7936, 7999, 7963, 7829, 7598, 7274, 6860, 6361, 5784, 5136, 4424,
    3658, 2846, 2000, 1128, 243, -644, -1524, -2385, -3217, -4010, -4753, -5437,
    -6054, -6596, -7058, -7432, -7714, -7901, -7991, -7982, -7875, -7671, -7372, -6982,
    -6506, -5950, -5320, -4625, -3873, -3073, -2235, -1369, -487, 401, 1284, 2152,
    2993, 3797, 4554, 5255, 5892, 6455, 6939, 7338, 7646, 7860, 7976, 7995,
    7914, 7736, 7463, 7098, 6645, 6110, 5500, 4822, 4084, 3296, 2468, 1609,
    730, -157, -1043, -1916, -2765, -3581, -4352, -5069, -5724, -6308, -6815, -7237,
    -7571, -7811, -7954, -7999, -7946, -7795, -7547, -7207, -6778, -6265, -5674, -5014,
    -4292, -3517, -2699, -1847, -972, -86, 801, 1678, 2535, 3361, 4145, 4878,
    5551, 6156, 6684, 7130, 7488, 7754, 7924, 7997, 7971, 7846, 7625, 7309,
    6904, 6413, 5844, 5202, 4496, 3734, 2927, 2083, 1214, 330, -558, -1439,
    -2303, -3138, -3935, -4683, -5373, -5997, -6547, -7016, -7399, -7691, -7887, -7987,
    -7988, -7890, -7695, -7405, -7024, -6556, -6007, -5385, -4695, -3948, -3152, -2318,
    -1454, -573, 314, 1199, 2068, 2912, 3721, 4483, 5190, 5833, 6404, 6896,
    7303, 7620, 7843, 7969, 7997, 7926, 7758, 7494, 7137, 6693, 6166, 5562,
    4891, 4158, 3375, 2550, 1694, 816, -70, -957, -1832, -2684, -3503, -4279,
    -5002, -5663, -6255, -6769, -7200, -7542, -7791, -7944, -7999, -7956, -7814, -7576,
    -7244, -6823, -6318, -5735, -5081, -4365, -3595, -2780, -1931, -1058, -173, 714,
    1593, 2453, 3282, 4071, 4809, 5488, 6100, 6636, 7091, 7458, 7732, 7912,
    7994, 7977, 7862, 7651, 7344, 6947, 6465, 5902, 5267, 4567, 3811, 3007,
    2167, 1299, 416, -471,
];

#[test]
fn silence_encodes_to_the_zero_block_and_back() {
    let silence = vec![0i16; 64];
    let bytes = encode_all(&[&silence], 0);
    assert_eq!(bytes.len(), 36);
    assert_eq!(&bytes[0..2], &[0u8, 0u8]);
    assert_eq!(bytes[2], 0);
    assert_eq!(bytes[3], 0);
    assert!(bytes[4..].iter().all(|b| *b == 0));
    let decoded = decode_mono(&bytes);
    assert_eq!(decoded, vec![0i16; 64]);
}

#[test]
fn silence_stays_silent_with_lookahead() {
    let silence = vec![0i16; 200];
    for lookahead in 0..4u8 {
        let bytes = encode_all(&[&silence], lookahead);
        assert_eq!(bytes.len(), 36 * 4);
        assert!(bytes.iter().all(|b| *b == 0));
        assert!(decode_mono(&bytes).iter().all(|s| *s == 0));
    }
}

#[test]
fn finish_packs_a_short_tail_as_one_whole_block() {
    let tail: Vec<i16> = (0..10).map(|i| 3000 * i).collect();
    let mut encoder = XboxADPCMEncoder::new(1, 0, Vec::new());
    encoder.encode(&[&tail]).unwrap();
    assert!(encoder.sink().is_empty());
    encoder.finish().unwrap();
    let bytes = encoder.into_sink();
    assert_eq!(bytes.len(), 36);
    assert_eq!(bytes, RAMP_TAIL.to_vec());
    let decoded = decode_mono(&bytes);
    assert_eq!(decoded.len(), 64);
    assert_eq!(decoded, RAMP_TAIL_DECODED.to_vec());
}

#[test]
fn finish_without_samples_writes_nothing() {
    let mut encoder = XboxADPCMEncoder::new(2, 1, Vec::new());
    encoder.finish().unwrap();
    encoder.encode(&[&[], &[]]).unwrap();
    encoder.finish().unwrap();
    assert!(encoder.into_sink().is_empty());
}

#[test]
fn a_full_window_gives_one_block() {
    let samples = left(66);
    let mut encoder = XboxADPCMEncoder::new(1, 0, Vec::new());
    encoder.encode(&[&samples[..65]]).unwrap();
    assert!(encoder.sink().is_empty());
    encoder.encode(&[&samples[65..]]).unwrap();
    assert_eq!(encoder.sink().as_slice(), &MONO_LOOKAHEAD_0[..]);
}

#[test]
fn lookahead_changes_the_codes_and_not_the_header() {
    let samples = left(66);
    let mut one = XboxADPCMEncoder::new(1, 1, Vec::new());
    one.encode(&[&samples]).unwrap();
    assert_eq!(one.into_sink(), MONO_LOOKAHEAD_1.to_vec());
    let mut three = XboxADPCMEncoder::new(1, 3, Vec::new());
    three.encode(&[&samples]).unwrap();
    assert_eq!(three.into_sink(), MONO_LOOKAHEAD_3.to_vec());
    assert_eq!(MONO_LOOKAHEAD_0[..4], MONO_LOOKAHEAD_3[..4]);
    assert_ne!(MONO_LOOKAHEAD_0[4..], MONO_LOOKAHEAD_3[4..]);
}

#[test]
fn two_channels_are_packed_chunk_by_chunk() {
    let bytes = encode_all(&[&left(130), &right(130)], 2);
    assert_eq!(bytes, STEREO_LOOKAHEAD_2.to_vec());
}

#[test]
fn decoding_gives_what_the_encoder_reconstructed() {
    let mut decoder = XboxADPCMDecoder::new(2, [Vec::new(), Vec::new()]);
    decoder.decode(&STEREO_LOOKAHEAD_2).unwrap();
    let [first, second] = decoder.into_sink();
    assert_eq!(first, STEREO_DECODED_LEFT.to_vec());
    assert_eq!(second, STEREO_DECODED_RIGHT.to_vec());
}

#[test]
fn encoding_twice_gives_the_same_bytes() {
    for lookahead in 0..3u8 {
        let first = encode_all(&[&left(300), &right(300)], lookahead);
        let second = encode_all(&[&left(300), &right(300)], lookahead);
        assert_eq!(first, second);
    }
}

#[test]
fn encoding_in_pieces_equals_encoding_at_once() {
    let first = left(300);
    let second = right(300);
    let whole = encode_all(&[&first, &second], 1);

    let mut single = XboxADPCMEncoder::new(2, 1, Vec::new());
    for i in 0..300 {
        single.encode(&[&first[i..i + 1], &second[i..i + 1]]).unwrap();
    }
    single.finish().unwrap();
    assert_eq!(single.into_sink(), whole);

    let mut uneven = XboxADPCMEncoder::new(2, 1, Vec::new());
    let cuts = [0usize, 1, 66, 67, 130, 131, 259, 300];
    for pair in cuts.windows(2) {
        uneven.encode(&[&first[pair[0]..pair[1]], &second[pair[0]..pair[1]]]).unwrap();
    }
    uneven.finish().unwrap();
    assert_eq!(uneven.into_sink(), whole);
}

#[test]
fn whole_blocks_have_their_size() {
    for channels in 1..=8usize {
        for blocks in 1..=3usize {
            let samples = vec![vec![0i16; 64 * blocks]; channels];
            let views: Vec<&[i16]> = samples.iter().map(|c| c.as_slice()).collect();
            let bytes = encode_all(&views, 0);
            assert_eq!(bytes.len(), blocks * channels * 36);
        }
    }
    let mut decoder = XboxADPCMDecoder::new(3, [Vec::new(), Vec::new(), Vec::new()]);
    decoder.decode(&vec![0u8; 5 * 3 * 36]).unwrap();
    for channel in decoder.into_sink().iter() {
        assert_eq!(channel.len(), 5 * 64);
    }
}

#[test]
fn a_smooth_signal_comes_back_close() {
    let samples = smooth();
    for lookahead in [0u8, 2u8] {
        let bytes = encode_all(&[&samples], lookahead);
        assert_eq!(bytes.len(), 4 * 36);
        let decoded = decode_mono(&bytes);
        assert_eq!(decoded.len(), 256);
        // sample j of the output stands for sample j + 1 of the input: the
        // first sample of a block is its reference sample and is not decoded
        for j in 8..255 {
            let distance = (decoded[j] as i32 - samples[j + 1] as i32).abs();
            assert!(distance <= 128, "sample {} is off by {}", j, distance);
        }
    }
}

#[test]
fn the_seed_follows_the_first_window() {
    let cases: [(fn(i32) -> i32, [u8; 4]); 7] = [
        (|i| 100 * i, [0, 0, 7, 0]),
        (|i| -100 * i, [0, 0, 0, 0]),
        (|_| 5, [5, 0, 0, 0]),
        (|i| 400 * i, [0, 0, 22, 0]),
        (|i| if i % 2 == 1 { 32767 } else { -32768 }, [0, 128, 72, 0]),
        (|i| if i < 65 { 0 } else { 32767 }, [0, 0, 66, 0]),
        (|i| if i < 64 { -32768 } else { 32767 }, [0, 128, 52, 0]),
    ];
    for (make, header) in cases.iter() {
        let samples: Vec<i16> = (0..66).map(|i| make(i).clamp(-32768, 32767) as i16).collect();
        let mut encoder = XboxADPCMEncoder::new(1, 0, Vec::new());
        encoder.encode(&[&samples]).unwrap();
        assert_eq!(&encoder.sink()[..4], header);
    }
}

#[test]
fn the_header_carries_the_step_index_on() {
    let samples = left(130);
    let mut encoder = XboxADPCMEncoder::new(1, 0, Vec::new());
    encoder.encode(&[&samples]).unwrap();
    let bytes = encoder.into_sink();
    assert_eq!(bytes.len(), 72);
    // the second block starts from sample 64, with the index that the first one ended on
    assert_eq!(bytes[36], (samples[64] as u16 & 0xFF) as u8);
    assert_eq!(bytes[37], (samples[64] as u16 >> 8) as u8);
    let first = decode_block_samples(&bytes[..36], 1);
    let second = decode_block_samples(&bytes[36..], 1);
    assert_ne!(bytes[38], bytes[2]);
    assert_ne!(first[0], second[0]);
}

#[test]
fn reset_drops_what_is_held() {
    let samples = left(66);
    let mut encoder = XboxADPCMEncoder::new(1, 0, Vec::new());
    encoder.encode(&[&samples[..40]]).unwrap();
    encoder.reset();
    encoder.finish().unwrap();
    assert!(encoder.sink().is_empty());
    encoder.encode(&[&samples]).unwrap();
    assert_eq!(encoder.into_sink(), MONO_LOOKAHEAD_0.to_vec());
}

#[test]
fn finish_starts_a_new_session() {
    let samples = left(66);
    let mut encoder = XboxADPCMEncoder::new(1, 0, Vec::new());
    encoder.encode(&[&samples]).unwrap();
    encoder.finish().unwrap();
    assert_eq!(encoder.sink().len(), 72);
    encoder.encode(&[&samples]).unwrap();
    let bytes = encoder.into_sink();
    assert_eq!(bytes.len(), 108);
    assert_eq!(&bytes[72..], &MONO_LOOKAHEAD_0[..]);
}

#[test]
fn encode_writes_one_block_at_a_time() {
    let mut encoder = XboxADPCMEncoder::new(2, 0, Recorder::new());
    encoder.encode(&[&left(200), &right(200)]).unwrap();
    assert_eq!(encoder.sink().writes.len(), 3);
    assert!(encoder.sink().writes.iter().all(|w| w.len() == 72));
    encoder.finish().unwrap();
    assert_eq!(encoder.sink().writes.len(), 4);
}

#[test]
fn encode_reserves_for_every_block_begun() {
    let mut encoder = XboxADPCMEncoder::new(2, 0, Recorder::new());
    encoder.encode(&[&[], &[]]).unwrap();
    assert!(encoder.sink().reserved.is_empty());
    encoder.encode(&[&[1], &[2]]).unwrap();
    assert_eq!(encoder.sink().reserved, vec![72]);
    encoder.encode(&[&left(64), &right(64)]).unwrap();
    assert_eq!(encoder.sink().reserved, vec![72, 144]);
}

#[test]
fn encode_reserve_amount_rounds_up_to_blocks() {
    assert_eq!(encode_reserve_amount(0, 0, 1), 0);
    assert_eq!(encode_reserve_amount(0, 1, 1), 36);
    assert_eq!(encode_reserve_amount(0, 64, 1), 36);
    assert_eq!(encode_reserve_amount(2, 63, 1), 72);
    assert_eq!(encode_reserve_amount(0, 65, 8), 576);
    assert_eq!(encode_reserve_amount(0, usize::MAX, 8), usize::MAX);
}

#[test]
fn encode_passes_on_the_error_of_the_sink() {
    let mut sink = Recorder::new();
    sink.fail_writes = true;
    let mut encoder = XboxADPCMEncoder::new(1, 0, sink);
    assert_eq!(encoder.encode(&[&left(65)]), Ok(()));
    assert_eq!(encoder.encode(&[&left(1)]), Err("refused"));
    assert!(encoder.sink().writes.is_empty());

    let mut sink = Recorder::new();
    sink.fail_reserve = true;
    let mut encoder = XboxADPCMEncoder::new(1, 0, sink);
    assert_eq!(encoder.encode(&[&left(1)]), Err("no room"));
    assert_eq!(encoder.encode(&[&[]]), Ok(()));
}

#[test]
fn finish_passes_on_the_error_of_the_sink() {
    let mut sink = Recorder::new();
    sink.fail_writes = true;
    let mut encoder = XboxADPCMEncoder::new(1, 0, sink);
    encoder.encode(&[&left(10)]).unwrap();
    assert_eq!(encoder.finish(), Err("refused"));
}

#[test]
fn encode_works_with_a_sink_that_does_not_reserve() {
    let mut encoder = XboxADPCMEncoder::new(1, 0, Counter { bytes: 0 });
    encoder.encode(&[&left(130)]).unwrap();
    encoder.finish().unwrap();
    assert_eq!(encoder.sink().bytes, 108);
}

#[test]
fn encode_into_a_borrowed_vector() {
    let mut output = Vec::new();
    let mut encoder = XboxADPCMEncoder::new(1, 0, &mut output);
    encoder.encode(&[&left(66)]).unwrap();
    assert_eq!(output, MONO_LOOKAHEAD_0.to_vec());
}
