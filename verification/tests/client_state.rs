use voip::playback::{output_frame_count, playback_ring_capacity, spread_frames, PlaybackBuffer, FLUSH_FRAMES};
use voip::ptt::PushToTalk;
use voip::recorder::{FrameAssembler, RecorderAction, RecorderControl, RecorderEvent};

#[test]
fn push_to_talk_signals_on_changes_only() {
    let mut ptt = PushToTalk::new();
    assert!(!ptt.is_recording());
    let polls = [false, true, true, false, false, true, false];
    let signals: Vec<Option<bool>> = polls.iter().map(|&k| ptt.poll(k)).collect();
    assert_eq!(
        signals,
        vec![None, Some(true), None, Some(false), None, Some(true), Some(false)]
    );
    assert!(!ptt.is_recording());
}

#[test]
fn push_to_talk_signals_alternate() {
    let mut ptt = PushToTalk::new();
    let mut sent = Vec::new();
    for i in 0..100u32 {
        if let Some(s) = ptt.poll(i % 7 < 3 || i % 11 == 0) {
            sent.push(s);
        }
    }
    for (i, s) in sent.iter().enumerate() {
        assert_eq!(*s, i % 2 == 0);
    }
}

#[test]
fn recorder_opens_stream_once() {
    let mut rec = RecorderControl::new();
    assert!(!rec.has_stream());
    assert_eq!(rec.on_event(RecorderEvent::Signal(false)), RecorderAction::Ignore);
    assert_eq!(rec.on_event(RecorderEvent::Signal(true)), RecorderAction::StartStream);
    assert!(rec.has_stream());
    assert_eq!(rec.on_event(RecorderEvent::Signal(false)), RecorderAction::PauseStream);
    assert_eq!(rec.on_event(RecorderEvent::Signal(true)), RecorderAction::ResumeStream);
    assert_eq!(rec.on_event(RecorderEvent::Signal(true)), RecorderAction::ResumeStream);
    assert_eq!(rec.on_event(RecorderEvent::SignalsClosed), RecorderAction::Stop);
    assert_eq!(rec.on_event(RecorderEvent::Cancelled), RecorderAction::Stop);
}

#[test]
fn frames_take_first_channel() {
    let mut assembler: FrameAssembler<i16> = FrameAssembler::new(3);
    let frames = assembler.push_interleaved(&[1, 10, 2, 20, 3, 30, 4, 40, 5], 2);
    assert_eq!(frames, vec![vec![1, 2, 3]]);
    let frames = assembler.push_interleaved(&[6, 60, 7, 70, 8, 80, 9, 90], 2);
    assert_eq!(frames, vec![vec![4, 5, 6], vec![7, 8, 9]]);
    let frames = assembler.push_interleaved(&[], 2);
    assert!(frames.is_empty());
    assert_eq!(assembler.frame_len(), 3);
}

#[test]
fn frames_of_mono_and_many_channels() {
    let mut mono: FrameAssembler<u8> = FrameAssembler::new(2);
    assert_eq!(mono.push_interleaved(&[1, 2, 3, 4, 5], 1), vec![vec![1, 2], vec![3, 4]]);
    let mut six: FrameAssembler<u8> = FrameAssembler::new(1);
    assert_eq!(six.push_interleaved(&[1, 0, 0, 0, 0, 0, 2, 0], 6), vec![vec![1], vec![2]]);
}

#[test]
fn frame_length_zero_never_fills() {
    let mut assembler: FrameAssembler<u8> = FrameAssembler::new(0);
    assert!(assembler.push_interleaved(&[1, 2, 3, 4], 1).is_empty());
    assert!(assembler.push_interleaved(&[5], 1).is_empty());
}

#[test]
fn playback_flushes_every_five_frames() {
    let mut buf: PlaybackBuffer<i32> = PlaybackBuffer::new();
    assert_eq!(FLUSH_FRAMES, 5);
    for i in 0..4 {
        assert_eq!(buf.push_frame(vec![i, i]), None);
        assert_eq!(buf.len(), (i + 1) as usize);
    }
    assert_eq!(buf.push_frame(vec![9]), Some(vec![0, 0, 1, 1, 2, 2, 3, 3, 9]));
    assert_eq!(buf.len(), 0);
    assert_eq!(buf.push_frame(vec![]), None);
}

#[test]
fn playback_hands_on_every_sample_in_order() {
    let mut buf: PlaybackBuffer<u32> = PlaybackBuffer::new();
    let mut out = Vec::new();
    let mut all = Vec::new();
    for i in 0..23u32 {
        let frame: Vec<u32> = (0..(i % 4)).map(|k| i * 10 + k).collect();
        all.extend_from_slice(&frame);
        if let Some(s) = buf.push_frame(frame) {
            out.extend(s);
        }
    }
    assert_eq!(buf.len(), 3);
    assert_eq!(&all[..out.len()], out.as_slice());
}

#[test]
fn ring_capacity_is_three_times_sixty_ms() {
    assert_eq!(playback_ring_capacity(48000), 8640);
    assert_eq!(playback_ring_capacity(44100), 7920);
    assert_eq!(playback_ring_capacity(999), 0);
}

#[test]
fn output_frames_fan_out() {
    assert_eq!(output_frame_count(6, 2), 3);
    assert_eq!(output_frame_count(7, 2), 4);
    assert_eq!(output_frame_count(0, 3), 0);
    let mut out = [0i16; 7];
    spread_frames(&mut out, 2, &[1, 2, 3, 4]);
    assert_eq!(out, [1, 1, 2, 2, 3, 3, 4]);
}

#[test]
fn frames_over_many_callbacks_keep_every_sample() {
    let mut assembler: FrameAssembler<u16> = FrameAssembler::new(5);
    let mut sent: Vec<Vec<u16>> = Vec::new();
    let mut first_channel: Vec<u16> = Vec::new();
    let mut next = 0u16;
    for call in 0..40usize {
        let len = (call * 7) % 13;
        let block: Vec<u16> = (0..len as u16).map(|k| next + k).collect();
        next += len as u16;
        first_channel.extend(block.chunks(3).map(|c| c[0]));
        sent.extend(assembler.push_interleaved(&block, 3));
    }
    assert!(sent.iter().all(|f| f.len() == 5));
    let whole = 5 * (first_channel.len() / 5);
    let flat: Vec<u16> = sent.concat();
    assert_eq!(flat, first_channel[..whole].to_vec());
}
