//! The decisions around the Opus codec: the buffers it is handed, what an
//! encoding gives back after each outcome, the size a decoded frame must
//! have, and the length of a resampled block.
use vstd::prelude::*;

verus! {

/// What can go wrong with the encoder.
#[derive(Clone, Debug, PartialEq, Eq)]
pub enum EncoderErrors {
    /// The encoder could not be created.
    InitializationError(String),
    /// The bitrate could not be set.
    BitrateError(String),
    /// A frame could not be encoded.
    EncodingError(String),
}

/// What can go wrong with the decoder.
#[derive(Clone, Debug, PartialEq, Eq)]
pub enum DecoderErrors {
    /// The decoder could not be created.
    InitializationError(String),
    /// A packet or the decoded frame does not have the expected shape.
    PacketFormatError(String),
    /// A packet could not be decoded.
    DecodingError(String),
}

/// The length of an audio frame, in milliseconds.
pub const FRAME_SIZE_DURATION: u32 = 20;

/// The sample rate the codec works at.
pub const CODEC_SAMPLE_RATE: i32 = 48000;

/// The number of samples of a decoded frame: 48 samples per millisecond for
/// 20 milliseconds.
pub const DECODED_FRAME_SAMPLES: usize = 960;

/// The smallest buffer an encoding is written into.
pub const MIN_ENCODE_BUFFER: usize = 128;

/// How the codec's encode call went.
pub enum EncodeOutcome {
    /// The frame was encoded into the buffer.
    Encoded,
    /// The buffer was too small for the encoded frame.
    BufferTooSmall,
    /// Any other failure, with its message.
    Failed(String),
}

/// The number of bytes of the buffer that a frame of `n_samples` samples is
/// encoded into: as many as there are samples, and at least 128.
pub fn encode_buffer_len(n_samples: usize) -> (n: usize)
    ensures
        n == if n_samples > MIN_ENCODE_BUFFER {
            n_samples
        } else {
            MIN_ENCODE_BUFFER
        },
{
    if n_samples > MIN_ENCODE_BUFFER {
        n_samples
    } else {
        MIN_ENCODE_BUFFER
    }
}

/// What an encoding gives back: the whole buffer where the codec encoded
/// into it; the buffer doubled in length with zero bytes where it was too
/// small; the codec's message as an encoding error otherwise.
pub fn finish_encode(output: Vec<u8>, outcome: EncodeOutcome) -> (r: Result<Vec<u8>, EncoderErrors>)
    requires
        outcome is BufferTooSmall ==> 2 * output@.len() <= usize::MAX,
    ensures
        match outcome {
            EncodeOutcome::Encoded => r matches Ok(v) && v@ == output@,
            EncodeOutcome::BufferTooSmall => r matches Ok(v) && v@ == output@ + Seq::new(
                output@.len(),
                |i: int| 0u8,
            ),
            EncodeOutcome::Failed(m) => r == Err::<Vec<u8>, EncoderErrors>(
                EncoderErrors::EncodingError(m),
            ),
        },
{
    match outcome {
        EncodeOutcome::Encoded => Ok(output),
        EncodeOutcome::BufferTooSmall => {
            let mut output = output;
            let ghost before = output@;
            let len = output.len();
            let mut i: usize = 0;
            while i < len
                invariant
                    len == before.len(),
                    i <= len,
                    output@ == before + Seq::new(i as nat, |k: int| 0u8),
                decreases len - i,
            {
                output.push(0u8);
                i += 1;
                assert(output@ =~= before + Seq::new(i as nat, |k: int| 0u8));
            }
            Ok(output)
        },
        EncodeOutcome::Failed(message) => Err(EncoderErrors::EncodingError(message)),
    }
}

/// Accepts a decoded frame only where the codec decoded exactly one frame's
/// worth of samples.
pub fn check_decoded_len<T>(decoded: usize, samples: Vec<T>) -> (r: Result<Vec<T>, DecoderErrors>)
    ensures
        decoded == DECODED_FRAME_SAMPLES ==> (r matches Ok(v) && v@ == samples@),
        decoded != DECODED_FRAME_SAMPLES ==> (r matches Err(DecoderErrors::PacketFormatError(m))
            && m@ == "Invalid frame size"@),
{
    if decoded != DECODED_FRAME_SAMPLES {
        return Err(DecoderErrors::PacketFormatError("Invalid frame size".to_owned()));
    }
    Ok(samples)
}

/// The number of samples a block of `len` samples at `sample_rate` has once
/// resampled to `target_rate`, both rates taken as `usize` the way `as`
/// converts them.
pub fn resampled_len(len: usize, sample_rate: i32, target_rate: i32) -> (n: usize)
    requires
        sample_rate != 0,
        len * (target_rate as usize) <= usize::MAX,
    ensures
        n == len * (target_rate as usize) / (sample_rate as usize) as int,
{
    let product = len * (target_rate as usize);
    let divisor = sample_rate as usize;
    assert(divisor != 0) by (bit_vector)
        requires
            divisor == sample_rate as usize,
            sample_rate != 0,
    ;
    product / divisor
}

} // verus!
