//! Encoder and decoder for Xbox ADPCM: 16-bit PCM samples on one to eight
//! channels, packed four bits to the sample in blocks of fixed size.
//!
//! Both take their input in pieces of any size and hand whole blocks on to a
//! sink. What they compute is stated in their contracts and proved.
//!
//! # Decoding example
//!
//! Here is example code for decoding stereo audio.
//!
//! ```
//! use xbox_adpcm::XboxADPCMDecoder;
//!
//! let adpcm_data = vec![0u8; 72];
//! let mut output = [Vec::new(), Vec::new()];
//!
//! // Two channel
//! let mut decoder = XboxADPCMDecoder::new(2, &mut output);
//!
//! // Decode
//! decoder.decode(&adpcm_data).unwrap();
//!
//! assert_eq!(output[0].len(), 64);
//! ```
//!
//! # Encoding example
//!
//! Here is example code for encoding stereo audio.
//!
//! ```
//! use xbox_adpcm::XboxADPCMEncoder;
//!
//! let left_channel = vec![0i16; 5];
//! let right_channel = vec![0i16; 5];
//! let mut output = Vec::new();
//!
//! // Two channels with a lookahead of three samples
//! let mut encoder = XboxADPCMEncoder::new(2, 3, &mut output);
//!
//! // Encode
//! encoder.encode(&[&left_channel, &right_channel]).unwrap();
//!
//! // Finish encoding
//! encoder.finish().unwrap();
//!
//! assert_eq!(output.len(), 72);
//! ```

pub mod decoder;
pub mod encoder;
pub mod format;
pub mod roundtrip;
pub mod search;
pub mod util;

pub use crate::decoder::{XboxADPCMDecodeSink, XboxADPCMDecoder};
pub use crate::encoder::{XboxADPCMEncodeSink, XboxADPCMEncoder};
