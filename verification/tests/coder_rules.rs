use voip::coder::{
    check_decoded_len, encode_buffer_len, finish_encode, resampled_len, DecoderErrors,
    EncodeOutcome, EncoderErrors, DECODED_FRAME_SAMPLES, FRAME_SIZE_DURATION,
};

#[test]
fn encode_buffer_is_at_least_128_bytes() {
    assert_eq!(encode_buffer_len(0), 128);
    assert_eq!(encode_buffer_len(128), 128);
    assert_eq!(encode_buffer_len(960), 960);
}

#[test]
fn encode_outcomes() {
    assert_eq!(finish_encode(vec![1, 2, 3], EncodeOutcome::Encoded), Ok(vec![1, 2, 3]));
    assert_eq!(
        finish_encode(vec![1, 2, 3], EncodeOutcome::BufferTooSmall),
        Ok(vec![1, 2, 3, 0, 0, 0])
    );
    assert_eq!(
        finish_encode(vec![1], EncodeOutcome::Failed("bad".to_string())),
        Err(EncoderErrors::EncodingError("bad".to_string()))
    );
}

#[test]
fn decoded_frame_must_be_one_frame_long() {
    assert_eq!(DECODED_FRAME_SAMPLES, 48 * FRAME_SIZE_DURATION as usize);
    assert_eq!(check_decoded_len(960, vec![1u8, 2]), Ok(vec![1u8, 2]));
    assert_eq!(
        check_decoded_len(480, vec![1u8]),
        Err(DecoderErrors::PacketFormatError("Invalid frame size".to_string()))
    );
}

#[test]
fn resampled_lengths() {
    assert_eq!(resampled_len(882, 44100, 48000), 960);
    assert_eq!(resampled_len(960, 48000, 44100), 882);
    assert_eq!(resampled_len(3, 48000, 48000), 3);
    assert_eq!(resampled_len(0, 8000, 48000), 0);
}
