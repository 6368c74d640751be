//! Playback: frames are held back until enough of them have arrived, then
//! handed on as one run of samples; each sample is then played on every
//! channel of the output device.
use vstd::prelude::*;

verus! {

/// How many frames playback holds back before it hands them on.
pub const FLUSH_FRAMES: usize = 5;

/// The frames that reached playback and were not handed on yet.
pub struct PlaybackBuffer<T> {
    frames: Vec<Vec<T>>,
}

/// The samples of each frame, frame by frame.
pub open spec fn frames_view<T>(frames: Seq<Vec<T>>) -> Seq<Seq<T>> {
    frames.map_values(|f: Vec<T>| f@)
}

/// One frame reaching playback: the frames held afterwards, and the samples
/// handed on, if any.
pub open spec fn playback_step<T>(held: Seq<Seq<T>>, frame: Seq<T>) -> (Seq<Seq<T>>, Option<Seq<T>>) {
    if held.len() + 1 >= FLUSH_FRAMES {
        (Seq::empty(), Some(held.push(frame).flatten()))
    } else {
        (held.push(frame), None)
    }
}

/// A run of frames reaching playback: the samples handed on, in order, and
/// the frames held at the end.
pub open spec fn playback_run<T>(held: Seq<Seq<T>>, frames: Seq<Seq<T>>) -> (Seq<T>, Seq<Seq<T>>)
    decreases frames.len(),
{
    if frames.len() == 0 {
        (Seq::empty(), held)
    } else {
        let (next, out) = playback_step(held, frames[0]);
        let (later, left) = playback_run(next, frames.drop_first());
        match out {
            Some(s) => (s + later, left),
            None => (later, left),
        }
    }
}

impl<T> PlaybackBuffer<T> {
    /// The frames held, in the order they came.
    pub closed spec fn held(&self) -> Seq<Seq<T>> {
        frames_view(self.frames@)
    }

    /// Fewer frames are held than make playback hand them on.
    pub closed spec fn wf(&self) -> bool {
        self.frames@.len() < FLUSH_FRAMES
    }

    /// No frame held.
    pub fn new() -> (b: Self)
        ensures
            b.wf(),
            b.held() == Seq::<Seq<T>>::empty(),
    {
        let b = PlaybackBuffer { frames: Vec::new() };
        assert(b.held() =~= Seq::<Seq<T>>::empty());
        b
    }

    /// The number of frames held.
    pub fn len(&self) -> (n: usize)
        ensures
            n == self.held().len(),
    {
        self.frames.len()
    }

    /// Takes a frame that reached playback; once enough frames are held, gives
    /// all their samples, in order, and holds none.
    pub fn push_frame(&mut self, frame: Vec<T>) -> (out: Option<Vec<T>>)
        where T: Copy,
        requires
            old(self).wf(),
        ensures
            final(self).wf(),
            ({
                let (held, samples) = playback_step(old(self).held(), frame@);
                &&& final(self).held() == held
                &&& match samples {
                    Some(s) => out matches Some(v) && v@ == s,
                    None => out is None,
                }
            }),
            out is Some <==> old(self).held().len() + 1 >= 5,
            out is None ==> final(self).held() == old(self).held().push(frame@),
            out matches Some(v) ==> v@ == old(self).held().push(frame@).flatten()
                && final(self).held().len() == 0,
    {
        let ghost before = self.held();
        self.frames.push(frame);
        assert(self.held() =~= before.push(frame@));
        if self.frames.len() >= FLUSH_FRAMES {
            let mut frames: Vec<Vec<T>> = Vec::new();
            std::mem::swap(&mut frames, &mut self.frames);
            let ghost all = frames_view(frames@);
            let mut samples: Vec<T> = Vec::new();
            let mut i: usize = 0;
            while i < frames.len()
                invariant
                    i <= frames@.len(),
                    all == frames_view(frames@),
                    samples@ == all.take(i as int).flatten(),
                decreases frames@.len() - i,
            {
                let mut j: usize = 0;
                let ghost start = samples@;
                while j < frames[i].len()
                    invariant
                        i < frames@.len(),
                        j <= frames@[i as int]@.len(),
                        samples@ == start + frames@[i as int]@.take(j as int),
                    decreases frames@[i as int]@.len() - j,
                {
                    samples.push(frames[i][j]);
                    j += 1;
                    assert(samples@ =~= start + frames@[i as int]@.take(j as int));
                }
                proof {
                    assert(frames@[i as int]@.take(j as int) =~= frames@[i as int]@);
                    assert(all.take(i + 1) =~= all.take(i as int).push(all[i as int]));
                    all.take(i as int).lemma_flatten_push(all[i as int]);
                }
                i += 1;
            }
            assert(all.take(i as int) =~= all);
            assert(self.held() =~= Seq::<Seq<T>>::empty());
            Some(samples)
        } else {
            None
        }
    }
}

/// Playback holds frames back until the fifth one arrives, whatever their
/// lengths: a frame is held where fewer than four were held before it, and
/// otherwise all held frames and it are handed on, their samples in order,
/// and none stays held.
pub proof fn lemma_playback_flushes_at_five<T>(held: Seq<Seq<T>>, frame: Seq<T>)
    ensures
        playback_step(held, frame).1 is Some <==> held.len() + 1 >= 5,
        held.len() + 1 < 5 ==> playback_step(held, frame) == (held.push(frame), None::<Seq<T>>),
        held.len() + 1 >= 5 ==> playback_step(held, frame) == (
            Seq::<Seq<T>>::empty(),
            Some(held.push(frame).flatten()),
        ),
{
}

/// Every sample that reaches playback is handed on, once and in order: the
/// samples handed on over a run, followed by those still held, are those
/// held before followed by those of the frames of the run.
pub proof fn lemma_playback_keeps_order<T>(held: Seq<Seq<T>>, frames: Seq<Seq<T>>)
    ensures
        ({
            let (out, left) = playback_run(held, frames);
            out + left.flatten() == held.flatten() + frames.flatten()
        }),
    decreases frames.len(),
{
    if frames.len() == 0 {
        assert(held.flatten() + Seq::<Seq<T>>::empty().flatten() =~= held.flatten());
        assert(Seq::<T>::empty() + held.flatten() =~= held.flatten());
    } else {
        let (next, out) = playback_step(held, frames[0]);
        lemma_playback_keeps_order(next, frames.drop_first());
        let (later, left) = playback_run(next, frames.drop_first());
        held.lemma_flatten_push(frames[0]);
        assert(frames.flatten() == frames[0] + frames.drop_first().flatten());
        match out {
            Some(s) => {
                assert(Seq::<Seq<T>>::empty().flatten() =~= Seq::<T>::empty());
                assert(s + later + left.flatten() =~= s + (later + left.flatten()));
                assert(held.flatten() + frames.flatten() =~= held.flatten() + frames[0]
                    + frames.drop_first().flatten());
                assert(s + frames.drop_first().flatten() =~= s + (Seq::<T>::empty()
                    + frames.drop_first().flatten()));
            },
            None => {
                assert(held.flatten() + frames.flatten() =~= held.flatten() + frames[0]
                    + frames.drop_first().flatten());
            },
        }
    }
}

/// The number of samples the playback ring buffer holds at a device sample
/// rate: three times 60 ms of audio, counted in whole milliseconds.
pub fn playback_ring_capacity(sample_rate: u32) -> (n: usize)
    ensures
        n == 3 * (60 * (sample_rate / 1000)),
{
    let per_ms = (sample_rate / 1000) as usize;
    3 * (60 * per_ms)
}

/// The number of frames of `channels` samples in an output block of `len`
/// samples; the last frame may be short.
pub open spec fn frame_count(len: nat, channels: nat) -> nat {
    if channels == 0 {
        0
    } else {
        ((len + channels - 1) / (channels as int)) as nat
    }
}

/// The frames of an output block cover it, the last one possibly short: one
/// frame fewer would leave samples over.
pub proof fn lemma_frame_count_covers(len: nat, channels: nat)
    requires
        channels > 0,
    ensures
        frame_count(len, channels) * channels >= len,
        frame_count(len, channels) > 0 ==> (frame_count(len, channels) - 1) * channels < len,
{
    let k = frame_count(len, channels);
    assert(k * channels >= len && (k > 0 ==> (k - 1) * channels < len)) by (nonlinear_arith)
        requires
            channels > 0,
            k == (len + channels - 1) / (channels as int),
    ;
}

/// The number of frames in an output block of `len` samples over `channels`
/// channels; the last frame may be short.
pub fn output_frame_count(len: usize, channels: usize) -> (n: usize)
    requires
        channels > 0,
    ensures
        n == frame_count(len as nat, channels as nat),
{
    let whole = len / channels;
    if len % channels == 0 {
        assert(whole == frame_count(len as nat, channels as nat)) by (nonlinear_arith)
            requires
                whole == len / channels,
                len % channels == 0,
                channels > 0,
        ;
        whole
    } else {
        assert(whole + 1 == frame_count(len as nat, channels as nat)) by (nonlinear_arith)
            requires
                whole == len / channels,
                len % channels != 0,
                channels > 0,
        ;
        assert(whole < len) by (nonlinear_arith)
            requires
                whole == len / channels,
                len % channels != 0,
                channels > 0,
        ;
        whole + 1
    }
}

/// Writes the value of each frame to every channel of that frame: sample `i`
/// of the output gets value `i / channels`.
pub fn spread_frames<T: Copy>(output: &mut [T], channels: usize, values: &[T])
    requires
        channels > 0,
        values@.len() == frame_count(old(output)@.len(), channels as nat),
    ensures
        final(output)@.len() == old(output)@.len(),
        forall|i: int|
            0 <= i < final(output)@.len() ==> #[trigger] final(output)@[i] == values@[i
                / channels as int],
{
    let len = output.len();
    let mut i: usize = 0;
    while i < len
        invariant
            channels > 0,
            len == output@.len(),
            values@.len() == frame_count(len as nat, channels as nat),
            values@.len() == (len + channels - 1) / (channels as int),
            i <= len,
            forall|k: int| 0 <= k < i ==> #[trigger] output@[k] == values@[k / channels as int],
        decreases len - i,
    {
        let f = i / channels;
        assert(f < values@.len()) by (nonlinear_arith)
            requires
                f == i / channels,
                i < len,
                channels > 0,
                values@.len() == (len + channels - 1) / (channels as int),
        ;
        output[i] = values[f];
        i += 1;
    }
}

} // verus!
