//! Recording: when to start, resume and pause the microphone stream, and how
//! its interleaved samples become fixed-length mono frames.
use vstd::prelude::*;

verus! {

/// What reaches the recording loop.
#[derive(Clone, Copy, Debug, PartialEq, Eq, Structural)]
pub enum RecorderEvent {
    /// A push-to-talk signal: start (`true`) or stop (`false`) recording.
    Signal(bool),
    /// The channel of push-to-talk signals has closed.
    SignalsClosed,
    /// The recording loop was cancelled.
    Cancelled,
}

/// What the recording loop does next.
#[derive(Clone, Copy, Debug, PartialEq, Eq, Structural)]
pub enum RecorderAction {
    /// Open the input stream and start it.
    StartStream,
    /// Start the stream that is open again.
    ResumeStream,
    /// Pause the stream that is open.
    PauseStream,
    /// Nothing to do.
    Ignore,
    /// Leave the loop.
    Stop,
}

/// Whether the input stream has been opened.
pub struct RecorderControl {
    has_stream: bool,
}

impl View for RecorderControl {
    type V = bool;

    closed spec fn view(&self) -> bool {
        self.has_stream
    }
}

/// One event of the recording loop: whether a stream is open afterwards and
/// what to do.
pub open spec fn recorder_step(has_stream: bool, event: RecorderEvent) -> (bool, RecorderAction) {
    match event {
        RecorderEvent::Signal(true) => if has_stream {
            (true, RecorderAction::ResumeStream)
        } else {
            (true, RecorderAction::StartStream)
        },
        RecorderEvent::Signal(false) => if has_stream {
            (true, RecorderAction::PauseStream)
        } else {
            (false, RecorderAction::Ignore)
        },
        RecorderEvent::SignalsClosed => (has_stream, RecorderAction::Stop),
        RecorderEvent::Cancelled => (has_stream, RecorderAction::Stop),
    }
}

/// The actions of a run of events, in order.
pub open spec fn recorder_run(has_stream: bool, events: Seq<RecorderEvent>) -> Seq<RecorderAction>
    decreases events.len(),
{
    if events.len() == 0 {
        Seq::empty()
    } else {
        let (next, action) = recorder_step(has_stream, events[0]);
        seq![action] + recorder_run(next, events.drop_first())
    }
}

impl RecorderControl {
    /// No stream is open yet.
    pub fn new() -> (r: RecorderControl)
        ensures
            r@ == false,
    {
        RecorderControl { has_stream: false }
    }

    /// Whether the input stream has been opened.
    pub fn has_stream(&self) -> (b: bool)
        ensures
            b == self@,
    {
        self.has_stream
    }

    /// Takes one event of the recording loop and says what to do.
    pub fn on_event(&mut self, event: RecorderEvent) -> (action: RecorderAction)
        ensures
            (final(self)@, action) == recorder_step(old(self)@, event),
            event == RecorderEvent::SignalsClosed ==> action == RecorderAction::Stop,
            event == RecorderEvent::Cancelled ==> action == RecorderAction::Stop,
            event == RecorderEvent::Signal(true) ==> final(self)@ && action == if old(self)@ {
                RecorderAction::ResumeStream
            } else {
                RecorderAction::StartStream
            },
            event == RecorderEvent::Signal(false) ==> final(self)@ == old(self)@ && action == if old(
                self,
            )@ {
                RecorderAction::PauseStream
            } else {
                RecorderAction::Ignore
            },
    {
        match event {
            RecorderEvent::Signal(true) => {
                if self.has_stream {
                    RecorderAction::ResumeStream
                } else {
                    self.has_stream = true;
                    RecorderAction::StartStream
                }
            },
            RecorderEvent::Signal(false) => {
                if self.has_stream {
                    RecorderAction::PauseStream
                } else {
                    RecorderAction::Ignore
                }
            },
            RecorderEvent::SignalsClosed => RecorderAction::Stop,
            RecorderEvent::Cancelled => RecorderAction::Stop,
        }
    }
}

/// What each event makes the recording loop do, whether or not a stream is
/// open: a closed signal channel or a cancellation always stops the loop; a
/// start signal opens the stream the first time and resumes it after, and a
/// stream is open afterwards; a stop signal pauses an open stream and does
/// nothing without one.
pub proof fn lemma_recorder_step_actions(has_stream: bool)
    ensures
        recorder_step(has_stream, RecorderEvent::SignalsClosed).1 == RecorderAction::Stop,
        recorder_step(has_stream, RecorderEvent::Cancelled).1 == RecorderAction::Stop,
        recorder_step(has_stream, RecorderEvent::Signal(true)) == (true, if has_stream {
            RecorderAction::ResumeStream
        } else {
            RecorderAction::StartStream
        }),
        recorder_step(has_stream, RecorderEvent::Signal(false)) == (has_stream, if has_stream {
            RecorderAction::PauseStream
        } else {
            RecorderAction::Ignore
        }),
{
}

/// In any run of events the loop stops exactly on the events that close the
/// signal channel or cancel it.
pub proof fn lemma_run_stops_on_close(has_stream: bool, events: Seq<RecorderEvent>)
    ensures
        recorder_run(has_stream, events).len() == events.len(),
        forall|i: int|
            0 <= i < events.len() ==> (#[trigger] recorder_run(has_stream, events)[i]
                == RecorderAction::Stop <==> (events[i] == RecorderEvent::SignalsClosed
                || events[i] == RecorderEvent::Cancelled)),
    decreases events.len(),
{
    if events.len() > 0 {
        let (next, action) = recorder_step(has_stream, events[0]);
        lemma_run_stops_on_close(next, events.drop_first());
        let rest = recorder_run(next, events.drop_first());
        let actions = recorder_run(has_stream, events);
        assert forall|i: int| 0 <= i < events.len() implies (#[trigger] actions[i]
            == RecorderAction::Stop <==> (events[i] == RecorderEvent::SignalsClosed || events[i]
            == RecorderEvent::Cancelled)) by {
            if i > 0 {
                assert(actions[i] == rest[i - 1]);
                assert(events[i] == events.drop_first()[i - 1]);
            }
        }
    }
}

/// A run of events gives one action for each.
pub proof fn lemma_recorder_run_len(has_stream: bool, events: Seq<RecorderEvent>)
    ensures
        recorder_run(has_stream, events).len() == events.len(),
    decreases events.len(),
{
    if events.len() > 0 {
        let (next, _) = recorder_step(has_stream, events[0]);
        lemma_recorder_run_len(next, events.drop_first());
    }
}

/// Once the input stream is open it is never opened again.
pub proof fn lemma_stream_open_stays(events: Seq<RecorderEvent>)
    ensures
        forall|j: int|
            0 <= j < recorder_run(true, events).len() ==> #[trigger] recorder_run(true, events)[j]
                != RecorderAction::StartStream,
    decreases events.len(),
{
    if events.len() > 0 {
        lemma_stream_open_stays(events.drop_first());
        let rest = recorder_run(true, events.drop_first());
        let actions = recorder_run(true, events);
        assert forall|j: int| 0 <= j < actions.len() implies #[trigger] actions[j]
            != RecorderAction::StartStream by {
            if j > 0 {
                assert(actions[j] == rest[j - 1]);
            }
        }
    }
}

/// The input stream is opened at most once in any run of events.
pub proof fn lemma_stream_opened_once(has_stream: bool, events: Seq<RecorderEvent>)
    ensures
        forall|i: int, j: int|
            0 <= i < j < recorder_run(has_stream, events).len() && #[trigger] recorder_run(
                has_stream,
                events,
            )[i] == RecorderAction::StartStream ==> #[trigger] recorder_run(has_stream, events)[j]
                != RecorderAction::StartStream,
    decreases events.len(),
{
    if events.len() > 0 {
        let (next, action) = recorder_step(has_stream, events[0]);
        let rest = recorder_run(next, events.drop_first());
        let actions = recorder_run(has_stream, events);
        lemma_stream_opened_once(next, events.drop_first());
        if action == RecorderAction::StartStream {
            lemma_stream_open_stays(events.drop_first());
        }
        assert forall|i: int, j: int|
            0 <= i < j < actions.len() && #[trigger] actions[i] == RecorderAction::StartStream
                implies #[trigger] actions[j] != RecorderAction::StartStream by {
            assert(actions[j] == rest[j - 1]);
            if i > 0 {
                assert(actions[i] == rest[i - 1]);
            }
        }
    }
}

/// Before the input stream is opened it is neither paused nor resumed.
pub proof fn lemma_no_pause_before_open(events: Seq<RecorderEvent>)
    ensures
        forall|j: int|
            0 <= j < recorder_run(false, events).len() && (#[trigger] recorder_run(false, events)[j]
                == RecorderAction::PauseStream || recorder_run(false, events)[j]
                == RecorderAction::ResumeStream) ==> exists|i: int|
                0 <= i < j && #[trigger] recorder_run(false, events)[i]
                    == RecorderAction::StartStream,
    decreases events.len(),
{
    if events.len() > 0 {
        let (next, action) = recorder_step(false, events[0]);
        let rest = recorder_run(next, events.drop_first());
        let actions = recorder_run(false, events);
        if !next {
            lemma_no_pause_before_open(events.drop_first());
        }
        assert forall|j: int|
            0 <= j < actions.len() && (#[trigger] actions[j] == RecorderAction::PauseStream
                || actions[j] == RecorderAction::ResumeStream) implies exists|i: int|
            0 <= i < j && #[trigger] actions[i] == RecorderAction::StartStream by {
            assert(actions[j] == rest[j - 1]);
            if next {
                assert(actions[0] == RecorderAction::StartStream);
            } else {
                let k = choose|k: int|
                    0 <= k < j - 1 && #[trigger] rest[k] == RecorderAction::StartStream;
                assert(actions[k + 1] == rest[k]);
            }
        }
    }
}

// ---------------------------------------------------------------------------
// Frames from interleaved samples.
/// The first sample of each group of `channels` samples of `s`; the last
/// group may be shorter.
pub open spec fn first_channel<T>(s: Seq<T>, channels: nat) -> Seq<T>
    decreases s.len(),
{
    if s.len() == 0 || channels == 0 {
        Seq::empty()
    } else if s.len() <= channels {
        seq![s[0]]
    } else {
        seq![s[0]] + first_channel(s.skip(channels as int), channels)
    }
}

/// `s` cut into the frames of `n` samples that it fills, and what is left
/// over; with `n` zero no frame is ever full.
pub open spec fn split_frames<T>(s: Seq<T>, n: nat) -> (Seq<Seq<T>>, Seq<T>)
    decreases s.len(),
{
    if n == 0 || s.len() < n {
        (Seq::empty(), s)
    } else {
        let (frames, rest) = split_frames(s.skip(n as int), n);
        (seq![s.take(n as int)] + frames, rest)
    }
}

/// Collects mono samples until a frame is full.
pub struct FrameAssembler<T> {
    samples: Vec<T>,
    frame_len: usize,
}

impl<T> FrameAssembler<T> {
    /// The samples of the frame being filled.
    pub closed spec fn pending(&self) -> Seq<T> {
        self.samples@
    }

    /// The number of samples of a frame.
    pub closed spec fn spec_frame_len(&self) -> nat {
        self.frame_len as nat
    }

    /// A frame is never left full.
    pub closed spec fn wf(&self) -> bool {
        self.frame_len == 0 || self.samples@.len() < self.frame_len
    }

    /// Frames of `frame_len` samples, none pending.
    pub fn new(frame_len: usize) -> (a: Self)
        ensures
            a.wf(),
            a.pending() == Seq::<T>::empty(),
            a.spec_frame_len() == frame_len,
    {
        FrameAssembler { samples: Vec::new(), frame_len }
    }

    /// The number of samples of a frame.
    pub fn frame_len(&self) -> (n: usize)
        ensures
            n == self.spec_frame_len(),
    {
        self.frame_len
    }

    /// Takes a block of samples interleaved over `channels` channels, keeps
    /// the first channel, and gives the frames that fill up, in order.
    pub fn push_interleaved(&mut self, input: &[T], channels: usize) -> (frames: Vec<Vec<T>>)
        where T: Copy,
        requires
            old(self).wf(),
            channels > 0,
        ensures
            final(self).wf(),
            final(self).spec_frame_len() == old(self).spec_frame_len(),
            ({
                let (full, rest) = split_frames(
                    old(self).pending() + first_channel(input@, channels as nat),
                    old(self).spec_frame_len(),
                );
                &&& frames@.len() == full.len()
                &&& forall|i: int| 0 <= i < full.len() ==> #[trigger] frames@[i]@ == full[i]
                &&& final(self).pending() == rest
            }),
    {
        let ghost n = self.frame_len as nat;
        let ghost total = self.samples@ + first_channel(input@, channels as nat);
        let mut frames: Vec<Vec<T>> = Vec::new();
        let mut pos: usize = 0;
        assert(input@.skip(0) =~= input@);
        while pos < input.len()
            invariant
                n == self.frame_len,
                channels > 0,
                pos <= input@.len(),
                n == 0 || self.samples@.len() < n,
                ({
                    let (full, rest) = split_frames(total, n);
                    let (later, left) = split_frames(
                        self.samples@ + first_channel(input@.skip(pos as int), channels as nat),
                        n,
                    );
                    &&& full.len() == frames@.len() + later.len()
                    &&& forall|i: int| 0 <= i < frames@.len() ==> #[trigger] frames@[i]@ == full[i]
                    &&& forall|i: int|
                        0 <= i < later.len() ==> #[trigger] full[frames@.len() + i] == later[i]
                    &&& rest == left
                }),
            decreases input@.len() - pos,
        {
            let x = input[pos];
            let next = if channels < input.len() - pos {
                pos + channels
            } else {
                input.len()
            };
            proof {
                lemma_first_channel_step(input@, pos as int, channels as nat);
            }
            let ghost tail = first_channel(input@.skip(next as int), channels as nat);
            let ghost old_samples = self.samples@;
            let ghost old_frames = frames@;
            assert(old_samples + first_channel(input@.skip(pos as int), channels as nat)
                =~= old_samples.push(x) + tail);
            self.samples.push(x);
            if self.samples.len() == self.frame_len {
                let mut frame: Vec<T> = Vec::new();
                std::mem::swap(&mut frame, &mut self.samples);
                proof {
                    let u = old_samples.push(x) + tail;
                    assert(u.take(n as int) =~= old_samples.push(x));
                    assert(u.skip(n as int) =~= tail);
                    assert(Seq::<T>::empty() + tail =~= tail);
                }
                frames.push(frame);
                proof {
                    let (full, rest) = split_frames(total, n);
                    let (later, left) = split_frames(tail, n);
                    let (later0, left0) = split_frames(old_samples.push(x) + tail, n);
                    assert(later0 == seq![old_samples.push(x)] + later);
                    assert(later0[0] == old_samples.push(x));
                    assert(full[old_frames.len() as int + 0] == later0[0]);
                    assert forall|i: int| 0 <= i < frames@.len() implies #[trigger] frames@[i]@
                        == full[i] by {
                        if i < old_frames.len() {
                            assert(frames@[i] == old_frames[i]);
                        } else {
                            assert(frames@[i]@ == old_samples.push(x));
                        }
                    }
                    assert forall|i: int| 0 <= i < later.len() implies #[trigger] full[frames@.len() + i]
                        == later[i] by {
                        assert(later0[i + 1] == later[i]);
                        assert(full[old_frames.len() as int + (i + 1)] == later0[i + 1]);
                    }
                }
            }
            pos = next;
        }
        assert(input@.skip(pos as int) =~= Seq::<T>::empty());
        assert(self.samples@ + Seq::<T>::empty() =~= self.samples@);
        frames
    }
}

/// Cutting samples into frames loses, adds and reorders none: the frames
/// followed by what is left over are the samples, every frame holds `n`
/// samples, and fewer than `n` are left over.
pub proof fn lemma_split_frames_partition<T>(s: Seq<T>, n: nat)
    requires
        n > 0,
    ensures
        ({
            let (frames, rest) = split_frames(s, n);
            &&& frames.flatten() + rest == s
            &&& forall|i: int| 0 <= i < frames.len() ==> (#[trigger] frames[i]).len() == n
            &&& rest.len() < n
        }),
    decreases s.len(),
{
    if s.len() >= n {
        lemma_split_frames_partition(s.skip(n as int), n);
        let (later, rest) = split_frames(s.skip(n as int), n);
        let frames = seq![s.take(n as int)] + later;
        assert(frames.drop_first() =~= later);
        assert(frames.flatten() == s.take(n as int) + later.flatten());
        assert(s.take(n as int) + later.flatten() + rest =~= s.take(n as int) + (later.flatten()
            + rest));
        assert(s.take(n as int) + s.skip(n as int) =~= s);
        assert forall|i: int| 0 <= i < frames.len() implies (#[trigger] frames[i]).len() == n by {
            if i > 0 {
                assert(frames[i] == later[i - 1]);
            }
        }
    } else {
        assert(Seq::<Seq<T>>::empty().flatten() + s =~= s);
    }
}

/// The first-channel samples of a series of blocks, block after block.
pub open spec fn first_channels<T>(blocks: Seq<Seq<T>>, channels: nat) -> Seq<T>
    decreases blocks.len(),
{
    if blocks.len() == 0 {
        Seq::empty()
    } else {
        first_channel(blocks[0], channels) + first_channels(blocks.drop_first(), channels)
    }
}

/// The frames given, in order, and the samples left pending, when the
/// blocks reach an assembler holding `pending` one call each: each step is
/// what `FrameAssembler::push_interleaved` ensures of one call.
pub open spec fn assembler_run<T>(pending: Seq<T>, blocks: Seq<Seq<T>>, channels: nat, n: nat) -> (
    Seq<Seq<T>>,
    Seq<T>,
)
    decreases blocks.len(),
{
    if blocks.len() == 0 {
        (Seq::empty(), pending)
    } else {
        let (full, rest) = split_frames(pending + first_channel(blocks[0], channels), n);
        let (later, left) = assembler_run(rest, blocks.drop_first(), channels, n);
        (full + later, left)
    }
}

/// Over a series of calls, the frames followed by the samples left pending
/// are the samples first pending followed by the first channel of every
/// block; every frame is full and less than a frame is left pending.
proof fn lemma_assembler_run_partition<T>(pending: Seq<T>, blocks: Seq<Seq<T>>, channels: nat, n: nat)
    requires
        n > 0,
    ensures
        ({
            let (frames, left) = assembler_run(pending, blocks, channels, n);
            &&& frames.flatten() + left == pending + first_channels(blocks, channels)
            &&& forall|i: int| 0 <= i < frames.len() ==> (#[trigger] frames[i]).len() == n
            &&& blocks.len() > 0 ==> left.len() < n
        }),
    decreases blocks.len(),
{
    if blocks.len() == 0 {
        assert(Seq::<Seq<T>>::empty().flatten() + pending =~= pending);
        assert(pending + Seq::<T>::empty() =~= pending);
    } else {
        let head = first_channel(blocks[0], channels);
        let (full, rest) = split_frames(pending + head, n);
        lemma_split_frames_partition(pending + head, n);
        lemma_assembler_run_partition(rest, blocks.drop_first(), channels, n);
        let (later, left) = assembler_run(rest, blocks.drop_first(), channels, n);
        vstd::seq_lib::lemma_flatten_concat(full, later);
        let tail = first_channels(blocks.drop_first(), channels);
        assert((full + later).flatten() + left =~= full.flatten() + (later.flatten() + left));
        assert(full.flatten() + (rest + tail) =~= (full.flatten() + rest) + tail);
        assert(pending + (head + tail) =~= (pending + head) + tail);
        let frames = full + later;
        assert forall|i: int| 0 <= i < frames.len() implies (#[trigger] frames[i]).len() == n by {
            if i >= full.len() {
                assert(frames[i] == later[i - full.len()]);
            }
        }
        if blocks.drop_first().len() == 0 {
            assert(left == rest);
        }
    }
}

/// Flattening frames of `n` samples each gives `n` samples per frame.
proof fn lemma_flatten_uniform_len<T>(frames: Seq<Seq<T>>, n: nat)
    requires
        forall|i: int| 0 <= i < frames.len() ==> (#[trigger] frames[i]).len() == n,
    ensures
        frames.flatten().len() == n * frames.len(),
    decreases frames.len(),
{
    if frames.len() > 0 {
        assert forall|i: int| 0 <= i < frames.drop_first().len() implies (
        #[trigger] frames.drop_first()[i]).len() == n by {
            assert(frames.drop_first()[i] == frames[i + 1]);
        }
        lemma_flatten_uniform_len(frames.drop_first(), n);
        assert(frames[0].len() == n);
        assert(n * frames.len() == n + n * frames.drop_first().len()) by (nonlinear_arith)
            requires
                frames.drop_first().len() + 1 == frames.len(),
        ;
    }
}

/// Frames over a series of recording callbacks: when blocks of interleaved
/// samples reach a fresh assembler one call each, every frame it gives is
/// full, and the frames one after the other are the first-channel samples
/// of all the blocks cut to whole frames; the rest stays pending. No sample
/// is lost, added or reordered, and a partial frame carries over from one
/// call to the next.
pub proof fn lemma_assembler_series<T>(blocks: Seq<Seq<T>>, channels: nat, n: nat)
    requires
        n > 0,
    ensures
        ({
            let (frames, left) = assembler_run(Seq::<T>::empty(), blocks, channels, n);
            let s = first_channels(blocks, channels);
            &&& forall|i: int| 0 <= i < frames.len() ==> (#[trigger] frames[i]).len() == n
            &&& frames.flatten() == s.take((n * (s.len() / n)) as int)
            &&& left == s.skip((n * (s.len() / n)) as int)
        }),
{
    let (frames, left) = assembler_run(Seq::<T>::empty(), blocks, channels, n);
    let s = first_channels(blocks, channels);
    lemma_assembler_run_partition(Seq::<T>::empty(), blocks, channels, n);
    assert(Seq::<T>::empty() + s =~= s);
    lemma_flatten_uniform_len(frames, n);
    let f = frames.flatten();
    if blocks.len() == 0 {
        assert(s =~= Seq::<T>::empty());
        assert(f.len() == 0);
    }
    assert(left.len() < n);
    assert(s.len() == frames.len() * n + left.len()) by (nonlinear_arith)
        requires
            s.len() == f.len() + left.len(),
            f.len() == n * frames.len(),
    ;
    vstd::arithmetic::div_mod::lemma_fundamental_div_mod_converse(
        s.len() as int,
        n as int,
        frames.len() as int,
        left.len() as int,
    );
    assert(f =~= s.take((n * (s.len() / n)) as int));
    assert(left =~= s.skip((n * (s.len() / n)) as int));
}

/// `first_channel` keeps sample `i * channels` as its `i`-th sample, for
/// every group of `channels` samples, the last one possibly short.
pub proof fn lemma_first_channel_picks<T>(s: Seq<T>, channels: nat)
    requires
        channels > 0,
    ensures
        first_channel(s, channels).len() == (s.len() + channels - 1) / (channels as int),
        forall|i: int|
            0 <= i < first_channel(s, channels).len() ==> #[trigger] first_channel(s, channels)[i]
                == s[i * channels],
    decreases s.len(),
{
    let c = channels as int;
    let fc = first_channel(s, channels);
    if s.len() == 0 {
        assert((c - 1) / c == 0) by (nonlinear_arith)
            requires
                c > 0,
        ;
    } else if s.len() <= channels {
        assert((s.len() + c - 1) / c == 1) by (nonlinear_arith)
            requires
                c > 0,
                0 < s.len() <= c,
        ;
        assert(fc[0] == s[0 * c]);
    } else {
        let t = s.skip(c);
        lemma_first_channel_picks(t, channels);
        vstd::arithmetic::div_mod::lemma_div_plus_one(t.len() + c - 1, c);
        assert(t.len() + c - 1 + c == s.len() + c - 1);
        assert forall|i: int| 0 <= i < fc.len() implies #[trigger] fc[i] == s[i * c] by {
            if i == 0 {
                assert(0 * c == 0);
            } else {
                assert(fc[i] == first_channel(t, channels)[i - 1]);
                let j = i - 1;
                assert(j * c + c == i * c) by (nonlinear_arith)
                    requires
                        j == i - 1,
                ;
                assert(0 <= j * c) by (nonlinear_arith)
                    requires
                        j >= 0,
                        c > 0,
                ;
                assert(j * c < t.len()) by (nonlinear_arith)
                    requires
                        0 <= j < (t.len() + c - 1) / c,
                        c > 0,
                ;
                assert(t[j * c] == s[j * c + c]);
            }
        }
    }
}

/// Going one group of `channels` on from `pos` adds one sample to the front
/// of what `first_channel` keeps.
proof fn lemma_first_channel_step<T>(s: Seq<T>, pos: int, channels: nat)
    requires
        0 <= pos < s.len(),
        channels > 0,
    ensures
        first_channel(s.skip(pos), channels) == seq![s[pos]] + first_channel(
            s.skip(if pos + channels < s.len() {
                pos + channels
            } else {
                s.len() as int
            }),
            channels,
        ),
{
    let t = s.skip(pos);
    if pos + channels < s.len() {
        assert(t.skip(channels as int) =~= s.skip(pos + channels));
    } else {
        assert(s.skip(s.len() as int) =~= Seq::<T>::empty());
        assert(seq![s[pos]] + Seq::<T>::empty() =~= seq![s[pos]]);
    }
}

} // verus!
