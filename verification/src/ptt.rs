//! Push-to-talk: turns the polled state of the talk key into recording
//! signals, one on each change.
use vstd::prelude::*;

verus! {

/// Whether the client is recording, as the last signal sent said.
pub struct PushToTalk {
    recording: bool,
}

impl View for PushToTalk {
    type V = bool;

    closed spec fn view(&self) -> bool {
        self.recording
    }
}

/// One poll of the talk key: the new recording state and the signal to send.
pub open spec fn ptt_step(recording: bool, key_down: bool) -> (bool, Option<bool>) {
    if key_down != recording {
        (key_down, Some(key_down))
    } else {
        (recording, None)
    }
}

/// The state after a run of polls, and the signals sent, in order.
pub open spec fn ptt_run(recording: bool, polls: Seq<bool>) -> (bool, Seq<bool>)
    decreases polls.len(),
{
    if polls.len() == 0 {
        (recording, Seq::empty())
    } else {
        let (next, signal) = ptt_step(recording, polls[0]);
        let (last, rest) = ptt_run(next, polls.drop_first());
        match signal {
            Some(s) => (last, seq![s] + rest),
            None => (last, rest),
        }
    }
}

impl PushToTalk {
    /// Not recording yet.
    pub fn new() -> (p: PushToTalk)
        ensures
            p@ == false,
    {
        PushToTalk { recording: false }
    }

    /// Whether the client is recording.
    pub fn is_recording(&self) -> (b: bool)
        ensures
            b == self@,
    {
        self.recording
    }

    /// Takes whether the talk key is down now: starts recording when it went
    /// down, stops when it came up, and gives the signal to send, if any.
    pub fn poll(&mut self, key_down: bool) -> (signal: Option<bool>)
        ensures
            (final(self)@, signal) == ptt_step(old(self)@, key_down),
            final(self)@ == key_down,
            signal is Some <==> key_down != old(self)@,
            signal matches Some(s) ==> s == key_down,
    {
        if key_down && !self.recording {
            self.recording = true;
            Some(true)
        } else if !key_down && self.recording {
            self.recording = false;
            Some(false)
        } else {
            None
        }
    }
}

/// After a poll the client records exactly while the key is down, and a
/// signal goes out exactly when that changed, saying the new state.
pub proof fn lemma_ptt_step_follows_key(recording: bool, key_down: bool)
    ensures
        ptt_step(recording, key_down).0 == key_down,
        ptt_step(recording, key_down).1 is Some <==> key_down != recording,
        ptt_step(recording, key_down).1 matches Some(s) ==> s == key_down,
{
}

/// The signals of any run of polls alternate, starting with the opposite of
/// the state the run started in; the last one is the state the run ends in,
/// and that is the state of the last poll.
pub proof fn lemma_ptt_signals_alternate(recording: bool, polls: Seq<bool>)
    ensures
        ({
            let (last, signals) = ptt_run(recording, polls);
            &&& forall|i: int|
                0 <= i < signals.len() ==> #[trigger] signals[i] == if i % 2 == 0 {
                    !recording
                } else {
                    recording
                }
            &&& signals.len() > 0 ==> signals.last() == last
            &&& signals.len() == 0 ==> last == recording
            &&& polls.len() > 0 ==> last == polls.last()
        }),
    decreases polls.len(),
{
    if polls.len() > 0 {
        let (next, signal) = ptt_step(recording, polls[0]);
        lemma_ptt_signals_alternate(next, polls.drop_first());
        let (last, rest) = ptt_run(next, polls.drop_first());
        if polls.len() > 1 {
            assert(polls.drop_first().last() == polls.last());
        }
        match signal {
            Some(s) => {
                let signals = seq![s] + rest;
                assert forall|i: int| 0 <= i < signals.len() implies #[trigger] signals[i] == if i
                    % 2 == 0 {
                    !recording
                } else {
                    recording
                } by {
                    if i > 0 {
                        assert(signals[i] == rest[i - 1]);
                    }
                }
            },
            None => {},
        }
    }
}

} // verus!
