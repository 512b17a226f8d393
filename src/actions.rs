use vstd::prelude::*;

use crate::frame::H3iFrame;

verus! {

/// What a scripted wait for a response expects to see on a stream.
#[derive(Clone, Copy, PartialEq, Eq, Structural, Debug)]
pub enum StreamEventType {
    /// A complete frame of the given type.
    Frame(u64),
    /// The stream's end.
    Finished,
    /// A reset of the stream by the peer, with any code.
    Reset,
}

/// An expected event on one stream.
#[derive(Clone, Copy, PartialEq, Eq, Structural, Debug)]
pub struct StreamEvent {
    pub stream_id: u64,
    pub event_type: StreamEventType,
}

/// What happened on a stream, in the order it happened.
pub enum ResponseKind {
    FrameArrived(H3iFrame),
    Finished,
    Reset(u64),
}

/// An observed event on one stream.
pub struct StreamResponse {
    pub stream_id: u64,
    pub kind: ResponseKind,
}

/// Whether an observed event satisfies an expectation: same stream, and the
/// same kind of event (for a frame, the same frame type).
pub open spec fn event_matches(e: StreamEvent, r: StreamResponse) -> bool {
    e.stream_id == r.stream_id && match (e.event_type, r.kind) {
        (StreamEventType::Frame(t), ResponseKind::FrameArrived(f)) => f.frame_type == t,
        (StreamEventType::Finished, ResponseKind::Finished) => true,
        (StreamEventType::Reset, ResponseKind::Reset(_)) => true,
        _ => false,
    }
}

impl StreamEvent {
    pub fn matches(&self, r: &StreamResponse) -> (b: bool)
        ensures
            b == event_matches(*self, *r),
    {
        if self.stream_id != r.stream_id {
            return false;
        }
        match (self.event_type, &r.kind) {
            (StreamEventType::Frame(t), ResponseKind::FrameArrived(f)) => f.frame_type == t,
            (StreamEventType::Finished, ResponseKind::Finished) => true,
            (StreamEventType::Reset, ResponseKind::Reset(_)) => true,
            _ => false,
        }
    }
}


/// How a scripted wait ends: after a number of milliseconds, or when an
/// expected event is observed.
pub enum WaitType {
    WaitDuration(u64),
    StreamEvent(StreamEvent),
}

/// One step of a script.
pub enum Action {
    /// Writes an encoded frame on a stream, optionally ending the stream.
    SendFrame { stream_id: u64, fin_stream: bool, frame: H3iFrame },
    /// Stops consuming actions so that pending packets go out first.
    FlushPackets,
    /// Stops consuming actions until the wait ends.
    Wait { wait_type: WaitType },
}

/// Whether an action stops the consumption of the script.
pub open spec fn is_blocking(a: Action) -> bool {
    !(a is SendFrame)
}

/// The expectations that currently hold the script back, in the order they
/// were registered; duplicates are kept.
pub struct WaitingFor {
    pub waits: Vec<StreamEvent>,
}

/// The entries that stay when a stream ends: those on other streams.
pub open spec fn not_on_stream(id: u64) -> spec_fn(StreamEvent) -> bool {
    |e: StreamEvent| e.stream_id != id
}

/// What an observed event `r` does to the pending expectations `w0`: the end
/// of a stream drops every expectation on it; any other event removes the
/// earliest expectation it satisfies, if there is one, and keeps the rest in
/// order.
pub open spec fn response_post(w0: Seq<StreamEvent>, r: StreamResponse, w1: Seq<StreamEvent>) -> bool {
    if r.kind is Finished {
        w1 == w0.filter(not_on_stream(r.stream_id))
    } else {
        ||| (w1 == w0 && forall|i: int| 0 <= i < w0.len() ==> !event_matches(w0[i], r))
        ||| exists|i: int|
            0 <= i < w0.len() && event_matches(w0[i], r) && (forall|j: int|
                0 <= j < i ==> !event_matches(w0[j], r)) && w1 == w0.remove(i)
    }
}

impl View for WaitingFor {
    type V = Seq<StreamEvent>;

    open spec fn view(&self) -> Seq<StreamEvent> {
        self.waits@
    }
}

impl WaitingFor {
    pub fn new() -> (w: WaitingFor)
        ensures
            w@ == Seq::<StreamEvent>::empty(),
    {
        WaitingFor { waits: Vec::new() }
    }

    pub fn is_empty(&self) -> (b: bool)
        ensures
            b == (self@.len() == 0),
    {
        self.waits.len() == 0
    }

    /// Registers an expectation; duplicates are allowed.
    pub fn add_wait(&mut self, e: &StreamEvent)
        ensures
            final(self)@ == old(self)@.push(*e),
    {
        self.waits.push(*e);
    }

    /// Removes the earliest registered expectation that `r` satisfies, if
    /// any, and says whether one was removed.
    pub fn remove_wait(&mut self, r: &StreamResponse) -> (removed: bool)
        ensures
            removed == exists|i: int| 0 <= i < old(self)@.len() && event_matches(old(self)@[i], *r),
            !removed ==> final(self)@ == old(self)@,
            removed ==> exists|i: int|
                0 <= i < old(self)@.len() && event_matches(old(self)@[i], *r)
                    && (forall|j: int| 0 <= j < i ==> !event_matches(old(self)@[j], *r))
                    && final(self)@ == old(self)@.remove(i),
    {
        let n = self.waits.len();
        let mut i: usize = 0;
        while i < n
            invariant
                n == self.waits@.len(),
                self.waits@ == old(self)@,
                0 <= i <= n,
                forall|j: int| 0 <= j < i ==> !event_matches(self.waits@[j], *r),
            decreases n - i,
        {
            if self.waits[i].matches(r) {
                self.waits.remove(i);
                return true;
            }
            i = i + 1;
        }
        false
    }

    /// Drops every expectation on stream `id`: once a stream has ended none
    /// of them can be met.
    pub fn clear_waits_on_stream(&mut self, id: u64)
        ensures
            final(self)@ == old(self)@.filter(not_on_stream(id)),
            forall|k: int| 0 <= k < final(self)@.len() ==> final(self)@[k].stream_id != id,
    {
        let mut kept: Vec<StreamEvent> = Vec::new();
        let n = self.waits.len();
        let mut i: usize = 0;
        while i < n
            invariant
                n == self.waits@.len(),
                self.waits@ == old(self)@,
                0 <= i <= n,
                kept@ == self.waits@.take(i as int).filter(not_on_stream(id)),
            decreases n - i,
        {
            let e = self.waits[i];
            proof {
                assert(self.waits@.take(i + 1) == self.waits@.take(i as int).push(e));
                self.waits@.take(i as int).lemma_filter_push(e, not_on_stream(id));
            }
            if e.stream_id != id {
                kept.push(e);
            }
            i = i + 1;
        }
        proof {
            assert(self.waits@.take(n as int) == self.waits@);
        }
        self.waits = kept;
        proof {
            assert forall|k: int| 0 <= k < self@.len() implies self@[k].stream_id != id by {
                old(self)@.lemma_filter_pred(not_on_stream(id), k);
            }
        }
    }
}

} // verus!
