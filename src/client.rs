use vstd::prelude::*;

use crate::actions::{
    event_matches, is_blocking, not_on_stream, response_post, Action, ResponseKind, StreamResponse, WaitType,
    WaitingFor,
};
use crate::frame::{be_value, frame_layout, lemma_be_value_take, pow256, VARINT_MAX};
use crate::streams::{data_post, reset_post, CloseTriggerFrames, StreamMap};

verus! {

/// Bytes to write on a stream: one encoded frame, and whether the stream
/// ends after it.
pub struct OutboundFrame {
    pub stream_id: u64,
    pub fin: bool,
    pub bytes: Vec<u8>,
}

/// `o` is what the action `a` sends.
pub open spec fn sent_as(o: OutboundFrame, a: Action) -> bool {
    match a {
        Action::SendFrame { stream_id, fin_stream, frame } => o.stream_id == stream_id && o.fin
            == fin_stream && frame_layout(o.bytes@, frame@),
        _ => false,
    }
}

/// Every frame of the script can be encoded.
pub open spec fn script_valid(a: Seq<Action>) -> bool {
    forall|k: int|
        0 <= k < a.len() ==> match #[trigger] a[k] {
            Action::SendFrame { frame, .. } => frame.frame_type <= VARINT_MAX
                && frame.payload@.len() <= VARINT_MAX,
            _ => true,
        }
}

/// Whether every frame of the script can be encoded: a frame type that fits
/// a variable-length integer and a payload whose length does too.
pub fn validate_script(actions: &Vec<Action>) -> (ok: bool)
    ensures
        ok == script_valid(actions@),
{
    let n = actions.len();
    let mut i: usize = 0;
    while i < n
        invariant
            n == actions@.len(),
            i <= n,
            forall|k: int|
                0 <= k < i ==> match #[trigger] actions@[k] {
                    Action::SendFrame { frame, .. } => frame.frame_type <= VARINT_MAX
                        && frame.payload@.len() <= VARINT_MAX,
                    _ => true,
                },
        decreases n - i,
    {
        match &actions[i] {
            Action::SendFrame { frame, .. } => {
                if frame.frame_type > VARINT_MAX || frame.payload.len() as u64 > VARINT_MAX {
                    return false;
                }
            },
            _ => {},
        }
        i = i + 1;
    }
    true
}

/// The position of the first action at or after `i` that stops
/// consumption, or the length of the script.
pub open spec fn first_stop(a: Seq<Action>, i: int) -> int
    decreases a.len() - i,
{
    if i >= a.len() {
        a.len() as int
    } else if is_blocking(a[i]) {
        i
    } else {
        first_stop(a, i + 1)
    }
}

pub proof fn lemma_first_stop(a: Seq<Action>, i: int)
    requires
        0 <= i <= a.len(),
    ensures
        i <= first_stop(a, i) <= a.len(),
        forall|k: int| i <= k < first_stop(a, i) ==> !is_blocking(#[trigger] a[k]),
        first_stop(a, i) < a.len() ==> is_blocking(a[first_stop(a, i)]),
    decreases a.len() - i,
{
    if i < a.len() && !is_blocking(a[i]) {
        lemma_first_stop(a, i + 1);
    }
}

/// A script with no flush and no wait from position `c` on is consumed to
/// its end by one pass.
pub proof fn lemma_unblocked_script_runs_out(a: Seq<Action>, c: int)
    requires
        0 <= c <= a.len(),
        forall|k: int| c <= k < a.len() ==> !is_blocking(#[trigger] a[k]),
    ensures
        first_stop(a, c) == a.len(),
{
    lemma_first_stop(a, c);
}

/// The duration wait that the action at which consumption stops arms, if any.
pub open spec fn armed_wait(a: Seq<Action>, c: int) -> Option<u64> {
    let j = first_stop(a, c);
    if j < a.len() {
        match a[j] {
            Action::Wait { wait_type: WaitType::WaitDuration(d) } => Some(d),
            _ => None,
        }
    } else {
        None
    }
}

/// One pass over the script from cursor `c0`, with no expectation pending:
/// the sends up to the first stopping action go out, in order, and the
/// cursor moves past that action; a wait for an event becomes the only
/// pending expectation.
pub open spec fn consumed(
    a: Seq<Action>,
    c0: int,
    c1: int,
    out0: Seq<OutboundFrame>,
    out1: Seq<OutboundFrame>,
    w1: Seq<crate::actions::StreamEvent>,
) -> bool {
    let j = first_stop(a, c0);
    &&& out1.len() == out0.len() + (j - c0)
    &&& out1.subrange(0, out0.len() as int) == out0
    &&& forall|k: int| 0 <= k < j - c0 ==> sent_as(#[trigger] out1[out0.len() + k], a[c0 + k])
    &&& c1 == if j < a.len() { j + 1 } else { j }
    &&& w1 == if j < a.len() {
        match a[j] {
            Action::Wait { wait_type: WaitType::StreamEvent(e) } => seq![e],
            _ => Seq::empty(),
        }
    } else {
        Seq::empty()
    }
}

/// Runs the script from `cursor` while nothing holds it back: sends go out
/// at once, and consumption stops at a flush marker, at a wait, or at the
/// end of the script. Returns the length of a duration wait that stopped
/// it. With an expectation pending it does nothing.
pub fn handle_actions(
    actions: &Vec<Action>,
    cursor: &mut usize,
    out: &mut Vec<OutboundFrame>,
    waiting_for: &mut WaitingFor,
) -> (r: Option<u64>)
    requires
        *old(cursor) <= actions@.len(),
        script_valid(actions@),
    ensures
        *final(cursor) <= actions@.len(),
        old(waiting_for)@.len() != 0 ==> r is None && *final(cursor) == *old(cursor)
            && final(out)@ == old(out)@ && final(waiting_for)@ == old(waiting_for)@,
        old(waiting_for)@.len() == 0 ==> r == armed_wait(actions@, *old(cursor) as int)
            && consumed(
            actions@,
            *old(cursor) as int,
            *final(cursor) as int,
            old(out)@,
            final(out)@,
            final(waiting_for)@,
        ),
{
    if !waiting_for.is_empty() {
        return None;
    }
    let ghost c0 = *cursor as int;
    let ghost out0 = out@;
    proof {
        lemma_first_stop(actions@, c0);
        assert(waiting_for@ =~= Seq::<crate::actions::StreamEvent>::empty());
        assert(out@.subrange(0, out0.len() as int) =~= out0);
    }
    let n = actions.len();
    while *cursor < n
        invariant
            n == actions@.len(),
            c0 <= *cursor <= first_stop(actions@, c0),
            c0 <= first_stop(actions@, c0) <= n,
            forall|k: int| c0 <= k < first_stop(actions@, c0) ==> !is_blocking(#[trigger] actions@[k]),
            first_stop(actions@, c0) < n ==> is_blocking(actions@[first_stop(actions@, c0)]),
            script_valid(actions@),
            waiting_for@ == Seq::<crate::actions::StreamEvent>::empty(),
            waiting_for@ == old(waiting_for)@,
            c0 == *old(cursor),
            out0 == old(out)@,
            out@.len() == out0.len() + (*cursor - c0),
            out@.subrange(0, out0.len() as int) == out0,
            forall|k: int| 0 <= k < *cursor - c0 ==> sent_as(#[trigger] out@[out0.len() + k], actions@[c0 + k]),
        decreases n - *cursor,
    {
        let i = *cursor;
        proof {
            if is_blocking(actions@[i as int]) {
                assert(i as int == first_stop(actions@, c0));
            }
        }
        match &actions[i] {
            Action::FlushPackets => {
                *cursor = i + 1;
                return None;
            },
            Action::Wait { wait_type } => {
                *cursor = i + 1;
                match wait_type {
                    WaitType::WaitDuration(d) => {
                        return Some(*d);
                    },
                    WaitType::StreamEvent(e) => {
                        proof {
                            assert(waiting_for@ =~= Seq::<crate::actions::StreamEvent>::empty());
                        }
                        waiting_for.add_wait(e);
                        proof {
                            assert(waiting_for@ =~= seq![*e]);
                        }
                        return None;
                    },
                }
            },
            Action::SendFrame { stream_id, fin_stream, frame } => {
                let ghost o = out@;
                assert(script_valid(actions@));
                assert(frame.frame_type <= VARINT_MAX && frame.payload@.len() <= VARINT_MAX) by {
                    assert(match actions@[i as int] {
                        Action::SendFrame { frame, .. } => frame.frame_type <= VARINT_MAX
                            && frame.payload@.len() <= VARINT_MAX,
                        _ => true,
                    });
                }
                let mut bytes: Vec<u8> = Vec::new();
                frame.encode(&mut bytes);
                proof {
                    assert(bytes@.skip(0) =~= bytes@);
                }
                out.push(OutboundFrame { stream_id: *stream_id, fin: *fin_stream, bytes });
                *cursor = i + 1;
                proof {
                    assert(out@.subrange(0, out0.len() as int) =~= o.subrange(0, out0.len() as int));
                    assert forall|k: int| 0 <= k < *cursor - c0 implies sent_as(
                        #[trigger] out@[out0.len() + k],
                        actions@[c0 + k],
                    ) by {
                        if k < i - c0 {
                            assert(out@[out0.len() + k] == o[out0.len() + k]);
                        }
                    }
                }
            },
        }
    }
    None
}

/// The script's duration wait is either off, or armed with a remaining
/// time and a start whose sum, the deadline, is a valid instant.
pub open spec fn timer_ok(d: Option<u64>, i: Option<u64>) -> bool {
    &&& (d is Some <==> i is Some)
    &&& d is Some ==> i->0 + d->0 <= u64::MAX
}

/// The instant at which an armed wait ends.
pub open spec fn deadline(d: Option<u64>, i: Option<u64>) -> int {
    i->0 + d->0
}

/// The timer that a pass over the script leaves, when it ran at `now` and
/// stopped on the duration wait `w`, if any. A deadline past the last
/// representable instant is cut to it.
pub open spec fn timer_after(w: Option<u64>, now: u64, d: Option<u64>, i: Option<u64>) -> bool {
    match w {
        Some(x) => d == Some(if x <= u64::MAX - now { x } else { (u64::MAX - now) as u64 }) && i
            == Some(now),
        None => d is None && i is None,
    }
}

/// One engine pass at `now` from timer (`d0`, `i0`), cursor `c0`, sent
/// frames `out0` and pending expectations `w0` to (`d1`, `i1`), `c1`, `out1`,
/// `w1`: before the wait's deadline, or with an expectation pending, nothing
/// changes; otherwise the timer is cleared, the script is consumed, and a
/// duration wait it stops on is armed at `now`.
pub open spec fn pass_post(
    a: Seq<Action>,
    now: u64,
    d0: Option<u64>,
    i0: Option<u64>,
    c0: usize,
    out0: Seq<OutboundFrame>,
    w0: Seq<crate::actions::StreamEvent>,
    d1: Option<u64>,
    i1: Option<u64>,
    c1: usize,
    out1: Seq<OutboundFrame>,
    w1: Seq<crate::actions::StreamEvent>,
) -> bool {
    let due = d0 is None || now >= deadline(d0, i0);
    if !due || w0.len() != 0 {
        &&& d1 == d0
        &&& i1 == i0
        &&& c1 == c0
        &&& out1 == out0
        &&& w1 == w0
    } else {
        &&& consumed(a, c0 as int, c1 as int, out0, out1, w1)
        &&& timer_after(armed_wait(a, c0 as int), now, d1, i1)
    }
}

/// A chain of timer states, each one what `compute_sleep` left of the one
/// before: the wait stays armed with the same deadline.
pub open spec fn sleeps_kept(ts: Seq<(Option<u64>, Option<u64>)>) -> bool {
    forall|k: int|
        0 <= k < ts.len() - 1 ==> (#[trigger] ts[k + 1]).0 is Some && timer_ok(ts[k + 1].0, ts[k + 1].1)
            && deadline(ts[k + 1].0, ts[k + 1].1) == deadline(ts[k].0, ts[k].1)
}

/// A duration wait of `w` armed at `t0` holds the script back, however many
/// shorter transport timeouts cut the sleeps since: a pass at `now` before
/// `t0 + w` runs nothing, and a pass at or after it, with no expectation
/// pending, runs the next action.
pub proof fn lemma_wait_runs_on_time(
    a: Seq<Action>,
    t0: u64,
    w: u64,
    ts: Seq<(Option<u64>, Option<u64>)>,
    now: u64,
    c0: usize,
    out0: Seq<OutboundFrame>,
    w0: Seq<crate::actions::StreamEvent>,
    d1: Option<u64>,
    i1: Option<u64>,
    c1: usize,
    out1: Seq<OutboundFrame>,
    w1: Seq<crate::actions::StreamEvent>,
)
    requires
        t0 + w <= u64::MAX,
        ts.len() > 0,
        timer_after(Some(w), t0, ts[0].0, ts[0].1),
        sleeps_kept(ts),
        c0 <= a.len(),
        pass_post(a, now, ts.last().0, ts.last().1, c0, out0, w0, d1, i1, c1, out1, w1),
    ensures
        now < t0 + w ==> c1 == c0 && out1 == out0,
        now >= t0 + w && w0.len() == 0 && c0 < a.len() ==> c1 > c0,
{
    assert forall|k: int| 0 <= k < ts.len() implies #[trigger] deadline(ts[k].0, ts[k].1) == t0 + w
        && ts[k].0 is Some by {
        lemma_sleeps_kept_deadline(ts, k);
    }
    assert(deadline(ts.last().0, ts.last().1) == t0 + w);
    lemma_first_stop(a, c0 as int);
}

proof fn lemma_sleeps_kept_deadline(ts: Seq<(Option<u64>, Option<u64>)>, k: int)
    requires
        0 <= k < ts.len(),
        sleeps_kept(ts),
    ensures
        deadline(ts[k].0, ts[k].1) == deadline(ts[0].0, ts[0].1),
        k > 0 ==> ts[k].0 is Some,
    decreases k,
{
    if k > 0 {
        lemma_sleeps_kept_deadline(ts, k - 1);
        assert(ts[(k - 1) + 1] == ts[k]);
    }
}

/// Runs the script if nothing holds it back: a duration wait that is armed
/// must have run out by `now`, and no expectation may be pending. A
/// duration wait that the pass stops on is armed at `now`.
pub fn check_duration_and_do_actions(
    wait_duration: &mut Option<u64>,
    wait_instant: &mut Option<u64>,
    now: u64,
    actions: &Vec<Action>,
    cursor: &mut usize,
    out: &mut Vec<OutboundFrame>,
    waiting_for: &mut WaitingFor,
)
    requires
        timer_ok(*old(wait_duration), *old(wait_instant)),
        (*old(wait_duration)) is Some ==> old(waiting_for)@.len() == 0,
        *old(cursor) <= actions@.len(),
        script_valid(actions@),
    ensures
        timer_ok(*final(wait_duration), *final(wait_instant)),
        (*final(wait_duration)) is Some ==> final(waiting_for)@.len() == 0,
        *final(cursor) <= actions@.len(),
        pass_post(
            actions@,
            now,
            *old(wait_duration),
            *old(wait_instant),
            *old(cursor),
            old(out)@,
            old(waiting_for)@,
            *final(wait_duration),
            *final(wait_instant),
            *final(cursor),
            final(out)@,
            final(waiting_for)@,
        ),
{
    match (*wait_duration, *wait_instant) {
        (Some(period), Some(start)) => {
            if now < start || now - start < period {
                return;
            }
            *wait_duration = None;
            *wait_instant = None;
        },
        _ => {},
    }
    if !waiting_for.is_empty() {
        return;
    }
    if let Some(w) = handle_actions(actions, cursor, out, waiting_for) {
        let d = if w <= u64::MAX - now {
            w
        } else {
            u64::MAX - now
        };
        *wait_duration = Some(d);
        *wait_instant = Some(now);
    }
    proof {
        lemma_first_stop(actions@, *old(cursor) as int);
    }
}

/// How long the loop may block: the shorter of the script's remaining wait
/// and the transport's timeout, either of which may be absent. Where the
/// transport's timeout is the shorter, the wait keeps its deadline: its
/// remaining time shrinks by that timeout and its start moves on by as much.
pub fn compute_sleep(
    wait_duration: &mut Option<u64>,
    wait_instant: &mut Option<u64>,
    timeout: Option<u64>,
) -> (sleep: Option<u64>)
    requires
        timer_ok(*old(wait_duration), *old(wait_instant)),
    ensures
        timer_ok(*final(wait_duration), *final(wait_instant)),
        (*final(wait_duration)) is Some <==> (*old(wait_duration)) is Some,
        (*old(wait_duration)) is Some ==> deadline(*final(wait_duration), *final(wait_instant))
            == deadline(*old(wait_duration), *old(wait_instant)),
        match (*old(wait_duration), timeout) {
            (Some(w), Some(t)) => {
                &&& sleep == Some(if t < w { t } else { w })
                &&& t < w ==> *final(wait_duration) == Some((w - t) as u64)
                &&& t >= w ==> *final(wait_duration) == Some(w) && *final(wait_instant)
                    == *old(wait_instant)
            },
            (None, Some(t)) => sleep == Some(t),
            (Some(w), None) => sleep == Some(w) && *final(wait_duration) == Some(w)
                && *final(wait_instant) == *old(wait_instant),
            (None, None) => sleep is None,
        },
{
    match (*wait_duration, *wait_instant, timeout) {
        (Some(wait), Some(start), Some(t)) => {
            if t < wait {
                *wait_duration = Some(wait - t);
                *wait_instant = Some(start + t);
                Some(t)
            } else {
                Some(wait)
            }
        },
        (None, _, Some(t)) => Some(t),
        (Some(wait), _, None) => Some(wait),
        _ => None,
    }
}

/// What the loop reads from the transport's streams for the session.
pub enum StreamInput {
    /// Bytes read from a stream, and whether they end it.
    Data { stream_id: u64, bytes: Vec<u8>, fin: bool },
    /// A reset of a stream by the peer.
    Reset { stream_id: u64, code: u64 },
}

/// The pending expectations `w0` become `w1` through the observed events
/// `ev`, applied in order.
pub open spec fn responses_applied(
    w0: Seq<crate::actions::StreamEvent>,
    ev: Seq<StreamResponse>,
    w1: Seq<crate::actions::StreamEvent>,
) -> bool
    decreases ev.len(),
{
    if ev.len() == 0 {
        w1 == w0
    } else {
        exists|mid: Seq<crate::actions::StreamEvent>|
            responses_applied(w0, ev.drop_last(), mid) && #[trigger] response_post(
                mid,
                ev.last(),
                w1,
            )
    }
}

/// One input read from the streams takes the decoders from `m0` to `m1`,
/// and the events it yields take the expectations from `w0` to `w1`.
pub open spec fn input_post(
    m0: StreamMap,
    w0: Seq<crate::actions::StreamEvent>,
    inp: StreamInput,
    m1: StreamMap,
    w1: Seq<crate::actions::StreamEvent>,
) -> bool {
    exists|ev: Seq<StreamResponse>|
        #[trigger] responses_applied(w0, ev, w1) && match inp {
            StreamInput::Data { stream_id, bytes, fin } => data_post(m0, stream_id, bytes@, fin, m1, ev),
            StreamInput::Reset { stream_id, code } => reset_post(m0, stream_id, code, m1, ev),
        }
}

/// The inputs `ins`, taken in order, take the decoders from `m0` to `m1`
/// and the expectations from `w0` to `w1`.
pub open spec fn absorbed(
    m0: StreamMap,
    w0: Seq<crate::actions::StreamEvent>,
    ins: Seq<StreamInput>,
    m1: StreamMap,
    w1: Seq<crate::actions::StreamEvent>,
) -> bool
    decreases ins.len(),
{
    if ins.len() == 0 {
        m1 == m0 && w1 == w0
    } else {
        exists|mm: StreamMap, mw: Seq<crate::actions::StreamEvent>|
            absorbed(m0, w0, ins.drop_last(), mm, mw) && #[trigger] input_post(
                mm,
                mw,
                ins.last(),
                m1,
                w1,
            )
    }
}

/// The failures that end a session.
pub enum ClientError {
    /// The session closed before its handshake completed.
    HandshakeFail,
    /// The transport session could not be set up.
    SessionConstructionFail,
    /// A socket operation failed.
    Other(String),
}

/// The state of one scripted session: the stream logs, the pending
/// expectations, the script's cursor and its duration wait.
pub struct SyncClient {
    pub streams: StreamMap,
    pub waiting_for: WaitingFor,
    /// The position of the next action of the script.
    pub cursor: usize,
    /// The remaining time of the script's duration wait, in milliseconds.
    pub wait_duration: Option<u64>,
    /// The instant the duration wait counts from, in milliseconds.
    pub wait_instant: Option<u64>,
    /// Whether the session has become usable for application data.
    pub app_proto_selected: bool,
    /// Whether the close trigger has already closed the session.
    pub close_requested: bool,
}

impl SyncClient {
    /// The invariant of a session: the duration wait is well formed, and it
    /// is never armed while an expectation is pending.
    pub open spec fn wf(&self) -> bool {
        &&& self.streams.wf()
        &&& timer_ok(self.wait_duration, self.wait_instant)
        &&& self.wait_duration is Some ==> self.waiting_for@.len() == 0
    }

    pub fn new(close_trigger_frames: Option<CloseTriggerFrames>) -> (c: SyncClient)
        ensures
            c.wf(),
            c.streams.streams@.len() == 0,
            c.streams.has_triggers == close_trigger_frames is Some,
            close_trigger_frames is Some ==> c.streams.triggers@ == close_trigger_frames->0.frames@,
            forall|k: int| 0 <= k < c.streams.seen@.len() ==> !c.streams.seen@[k],
            c.waiting_for@.len() == 0,
            c.cursor == 0,
            c.wait_duration is None,
            !c.app_proto_selected,
            !c.close_requested,
    {
        SyncClient {
            streams: StreamMap::new(close_trigger_frames),
            waiting_for: WaitingFor::new(),
            cursor: 0,
            wait_duration: None,
            wait_instant: None,
            app_proto_selected: false,
            close_requested: false,
        }
    }

    /// Applies an observed event to the pending expectations: the end of a
    /// stream drops every expectation on it, any other event removes the
    /// earliest one it satisfies. Says whether an expectation went away.
    pub fn apply_response(&mut self, r: &StreamResponse) -> (cleared: bool)
        ensures
            final(self).streams == old(self).streams,
            final(self).cursor == old(self).cursor,
            final(self).wait_duration == old(self).wait_duration,
            final(self).wait_instant == old(self).wait_instant,
            final(self).app_proto_selected == old(self).app_proto_selected,
            final(self).close_requested == old(self).close_requested,
            final(self).waiting_for@.len() <= old(self).waiting_for@.len(),
            cleared == (final(self).waiting_for@.len() < old(self).waiting_for@.len()),
            r.kind is Finished ==> final(self).waiting_for@ == old(self).waiting_for@.filter(
                not_on_stream(r.stream_id),
            ),
            response_post(old(self).waiting_for@, *r, final(self).waiting_for@),
            !(r.kind is Finished) ==> (cleared <==> exists|i: int|
                0 <= i < old(self).waiting_for@.len() && event_matches(
                    old(self).waiting_for@[i],
                    *r,
                )),
    {
        let before = self.waiting_for.waits.len();
        match r.kind {
            ResponseKind::Finished => {
                self.waiting_for.clear_waits_on_stream(r.stream_id);
                proof {
                    old(self).waiting_for@.lemma_filter_len(not_on_stream(r.stream_id));
                }
            },
            _ => {
                self.waiting_for.remove_wait(r);
            },
        }
        self.waiting_for.waits.len() < before
    }

    /// Feeds what was read from the streams to the decoders and the events
    /// that follow to the pending expectations. Says whether an
    /// expectation went away.
    fn absorb_inputs(&mut self, inbound: &Vec<StreamInput>) -> (cleared: bool)
        requires
            old(self).wf(),
        ensures
            final(self).wf(),
            final(self).cursor == old(self).cursor,
            final(self).wait_duration == old(self).wait_duration,
            final(self).wait_instant == old(self).wait_instant,
            final(self).app_proto_selected == old(self).app_proto_selected,
            final(self).close_requested == old(self).close_requested,
            final(self).streams.triggers@ == old(self).streams.triggers@,
            final(self).streams.has_triggers == old(self).streams.has_triggers,
            forall|k: int|
                0 <= k < old(self).streams.seen@.len() && old(self).streams.seen@[k]
                    ==> #[trigger] final(self).streams.seen@[k],
            old(self).streams.all_seen() ==> final(self).streams.all_seen(),
            final(self).waiting_for@.len() <= old(self).waiting_for@.len(),
            cleared == (final(self).waiting_for@.len() < old(self).waiting_for@.len()),
            absorbed(
                old(self).streams,
                old(self).waiting_for@,
                inbound@,
                final(self).streams,
                final(self).waiting_for@,
            ),
    {
        let mut cleared = false;
        proof {
            assert(inbound@.take(0) =~= Seq::<StreamInput>::empty());
        }
        let n = inbound.len();
        let mut i: usize = 0;
        while i < n
            invariant
                n == inbound@.len(),
                i <= n,
                self.wf(),
                self.cursor == old(self).cursor,
                self.wait_duration == old(self).wait_duration,
                self.wait_instant == old(self).wait_instant,
                self.app_proto_selected == old(self).app_proto_selected,
                self.close_requested == old(self).close_requested,
                self.streams.triggers@ == old(self).streams.triggers@,
                self.streams.has_triggers == old(self).streams.has_triggers,
                self.streams.seen@.len() == old(self).streams.seen@.len(),
                forall|k: int|
                    0 <= k < old(self).streams.seen@.len() && old(self).streams.seen@[k]
                        ==> #[trigger] self.streams.seen@[k],
                self.waiting_for@.len() <= old(self).waiting_for@.len(),
                cleared == (self.waiting_for@.len() < old(self).waiting_for@.len()),
                absorbed(
                    old(self).streams,
                    old(self).waiting_for@,
                    inbound@.take(i as int),
                    self.streams,
                    self.waiting_for@,
                ),
            decreases n - i,
        {
            let ghost prev = self.streams.seen@;
            let ghost m_prev = self.streams;
            let ghost w_prev = self.waiting_for@;
            let events = match &inbound[i] {
                StreamInput::Data { stream_id, bytes, fin } => {
                    self.streams.on_stream_data(*stream_id, bytes, *fin)
                },
                StreamInput::Reset { stream_id, code } => {
                    self.streams.on_stream_reset(*stream_id, *code)
                },
            };
            proof {
                assert forall|k: int|
                    0 <= k < prev.len() && prev[k] implies #[trigger] self.streams.seen@[k] by {
                    assert(self.streams.seen@[k] == prev[k] || self.streams.seen@[k]);
                }
                assert(prev.len() == old(self).streams.seen@.len());
                assert forall|k: int|
                    0 <= k < old(self).streams.seen@.len() && old(self).streams.seen@[k]
                        implies #[trigger] self.streams.seen@[k] by {
                    assert(prev[k]);
                }
            }
            let ghost m_next = self.streams;
            let m = events.len();
            let mut j: usize = 0;
            proof {
                assert(events@.take(0) =~= Seq::<StreamResponse>::empty());
            }
            while j < m
                invariant
                    m == events@.len(),
                    j <= m,
                    self.wf(),
                    self.cursor == old(self).cursor,
                    self.wait_duration == old(self).wait_duration,
                    self.wait_instant == old(self).wait_instant,
                    self.app_proto_selected == old(self).app_proto_selected,
                    self.close_requested == old(self).close_requested,
                    self.streams.triggers@ == old(self).streams.triggers@,
                    self.streams.has_triggers == old(self).streams.has_triggers,
                    self.streams.seen@.len() == old(self).streams.seen@.len(),
                    forall|k: int|
                        0 <= k < old(self).streams.seen@.len() && old(self).streams.seen@[k]
                            ==> #[trigger] self.streams.seen@[k],
                    self.waiting_for@.len() <= old(self).waiting_for@.len(),
                    cleared == (self.waiting_for@.len() < old(self).waiting_for@.len()),
                    self.streams == m_next,
                    responses_applied(w_prev, events@.take(j as int), self.waiting_for@),
                decreases m - j,
            {
                let ghost w_mid = self.waiting_for@;
                let c = self.apply_response(&events[j]);
                cleared = cleared || c;
                j = j + 1;
                proof {
                    assert(events@.take(j as int).drop_last() =~= events@.take(j - 1));
                    assert(response_post(w_mid, events@.take(j as int).last(), self.waiting_for@));
                }
            }
            proof {
                assert(events@.take(m as int) =~= events@);
                assert(responses_applied(w_prev, events@, self.waiting_for@));
                assert(input_post(m_prev, w_prev, inbound@[i as int], self.streams, self.waiting_for@));
                assert(inbound@.take(i + 1).drop_last() =~= inbound@.take(i as int));
                assert(inbound@.take(i + 1).last() == inbound@[i as int]);
            }
            i = i + 1;
        }
        proof {
            assert(inbound@.take(n as int) =~= inbound@);
        }
        cleared
    }

    /// The application part of one loop iteration, at instant `now`:
    /// marks the session active once it is `usable`; while it is active,
    /// runs the script, takes in what was read from the streams, runs the
    /// script again if an expectation went away, and says whether the close
    /// trigger has just been met, in which case the session must be closed
    /// at once. Frames the script sends are appended to `out`.
    pub fn application_step(
        &mut self,
        now: u64,
        usable: bool,
        actions: &Vec<Action>,
        inbound: &Vec<StreamInput>,
        out: &mut Vec<OutboundFrame>,
    ) -> (close_now: bool)
        requires
            old(self).wf(),
            old(self).cursor <= actions@.len(),
            script_valid(actions@),
        ensures
            final(self).wf(),
            old(self).cursor <= final(self).cursor <= actions@.len(),
            final(self).app_proto_selected == (old(self).app_proto_selected || usable),
            !final(self).app_proto_selected ==> final(self).cursor == old(self).cursor
                && final(out)@ == old(out)@ && final(self).waiting_for@ == old(self).waiting_for@,
            final(out)@.subrange(0, old(out)@.len() as int) == old(out)@,
            close_now == (final(self).app_proto_selected && final(self).streams.all_seen()
                && !old(self).close_requested),
            final(self).close_requested == (old(self).close_requested || close_now),
            old(self).streams.all_seen() ==> final(self).streams.all_seen(),
            final(self).app_proto_selected && old(self).wait_duration is None
                && old(self).waiting_for@.len() == 0 && (forall|k: int|
                old(self).cursor <= k < actions@.len() ==> !is_blocking(#[trigger] actions@[k]))
                ==> final(self).cursor == actions@.len(),
            final(self).app_proto_selected ==> exists|
                d1: Option<u64>,
                i1: Option<u64>,
                c1: usize,
                o1: Seq<OutboundFrame>,
                w1: Seq<crate::actions::StreamEvent>,
                w2: Seq<crate::actions::StreamEvent>,
            |
                #![trigger pass_post(actions@, now, old(self).wait_duration, old(self).wait_instant, old(self).cursor, old(out)@, old(self).waiting_for@, d1, i1, c1, o1, w1), absorbed(old(self).streams, w1, inbound@, final(self).streams, w2)]
                pass_post(
                    actions@,
                    now,
                    old(self).wait_duration,
                    old(self).wait_instant,
                    old(self).cursor,
                    old(out)@,
                    old(self).waiting_for@,
                    d1,
                    i1,
                    c1,
                    o1,
                    w1,
                ) && absorbed(old(self).streams, w1, inbound@, final(self).streams, w2) && if w2.len()
                    < w1.len() {
                    pass_post(
                        actions@,
                        now,
                        d1,
                        i1,
                        c1,
                        o1,
                        w2,
                        final(self).wait_duration,
                        final(self).wait_instant,
                        final(self).cursor,
                        final(out)@,
                        final(self).waiting_for@,
                    )
                } else {
                    &&& final(self).wait_duration == d1
                    &&& final(self).wait_instant == i1
                    &&& final(self).cursor == c1
                    &&& final(out)@ == o1
                    &&& final(self).waiting_for@ == w2
                },
    {
        if usable && !self.app_proto_selected {
            self.app_proto_selected = true;
        }
        if !self.app_proto_selected {
            proof {
                assert(out@.subrange(0, out@.len() as int) =~= out@);
            }
            return false;
        }
        let ghost o0 = out@;
        proof {
            lemma_first_stop(actions@, self.cursor as int);
        }
        check_duration_and_do_actions(
            &mut self.wait_duration,
            &mut self.wait_instant,
            now,
            actions,
            &mut self.cursor,
            out,
            &mut self.waiting_for,
        );
        let ghost c1 = self.cursor;
        let ghost o1 = out@;
        let ghost d1 = self.wait_duration;
        let ghost i1 = self.wait_instant;
        let ghost w1 = self.waiting_for@;
        let cleared = self.absorb_inputs(inbound);
        let ghost w2 = self.waiting_for@;
        if cleared {
            proof {
                lemma_first_stop(actions@, self.cursor as int);
            }
            check_duration_and_do_actions(
                &mut self.wait_duration,
                &mut self.wait_instant,
                now,
                actions,
                &mut self.cursor,
                out,
                &mut self.waiting_for,
            );
        }
        let close_now = self.streams.all_close_trigger_frames_seen() && !self.close_requested;
        if close_now {
            self.close_requested = true;
        }
        proof {
            assert(out@.subrange(0, o0.len() as int) =~= o1.subrange(0, o0.len() as int));
            assert(pass_post(
                actions@,
                now,
                old(self).wait_duration,
                old(self).wait_instant,
                old(self).cursor,
                o0,
                old(self).waiting_for@,
                d1,
                i1,
                c1,
                o1,
                w1,
            ));
            assert(absorbed(old(self).streams, w1, inbound@, self.streams, w2));
        }
        close_now
    }
}

/// The length of a locally issued connection id.
pub const MAX_CONN_ID_LEN: usize = 20;

/// The length of a stateless reset token.
pub const RESET_TOKEN_LEN: usize = 16;

/// Relies on `rand::thread_rng` and `rand::RngCore::fill_bytes`: fills a
/// buffer of `len` bytes from the thread-local generator.
#[verifier::external_body]
fn random_bytes(len: usize) -> (r: Vec<u8>)
    ensures
        r@.len() == len,
{
    let mut v = vec![0u8; len];
    rand::RngCore::fill_bytes(&mut rand::thread_rng(), &mut v);
    v
}

/// The reset token whose big-endian bytes are `b`.
pub fn reset_token_from_bytes(b: &Vec<u8>) -> (r: u128)
    requires
        b@.len() == RESET_TOKEN_LEN,
    ensures
        r == be_value(b@),
{
    let mut acc: u128 = 0;
    let mut k: usize = 0;
    proof {
        assert(b@.take(0) =~= Seq::<u8>::empty());
        reveal_with_fuel(pow256, 17);
    }
    while k < RESET_TOKEN_LEN
        invariant
            k <= RESET_TOKEN_LEN,
            b@.len() == RESET_TOKEN_LEN,
            acc == be_value(b@.take(k as int)),
            acc < pow256(k as nat),
            pow256(16) == 0x1_0000_0000_0000_0000_0000_0000_0000_0000,
        decreases RESET_TOKEN_LEN - k,
    {
        proof {
            lemma_be_value_take(b@, k as int);
            lemma_pow256_le_16(k as nat);
            let p = pow256(k as nat);
            assert(acc * 256 + b@[k as int] < 256 * p) by (nonlinear_arith)
                requires
                    acc < p,
                    b@[k as int] < 256,
            ;
        }
        acc = acc * 256 + b[k] as u128;
        k = k + 1;
    }
    proof {
        assert(b@.take(16) =~= b@);
    }
    acc
}

proof fn lemma_pow256_le_16(k: nat)
    requires
        k < 16,
    ensures
        256 * pow256(k) <= pow256(16),
    decreases 16 - k,
{
    if k < 15 {
        lemma_pow256_le_16(k + 1);
        assert(pow256(k + 1) == 256 * pow256(k));
        assert(pow256(k) >= 0);
        assert(256 * pow256(k) <= 256 * pow256(k + 1)) by (nonlinear_arith)
            requires
                pow256(k + 1) == 256 * pow256(k),
        ;
    }
}

/// A fresh source connection id of `MAX_CONN_ID_LEN` random bytes and a
/// stateless reset token read from `RESET_TOKEN_LEN` random bytes.
pub fn generate_cid_and_reset_token() -> (r: (Vec<u8>, u128))
    ensures
        r.0@.len() == MAX_CONN_ID_LEN,
{
    let scid = random_bytes(MAX_CONN_ID_LEN);
    let token_bytes = random_bytes(RESET_TOKEN_LEN);
    let reset_token = reset_token_from_bytes(&token_bytes);
    (scid, reset_token)
}

/// What the loop does when it finds the transport closed: a session closed
/// before its handshake completed has failed; one that was established has
/// ended normally.
pub fn closed_outcome(established: bool) -> (r: Result<(), ClientError>)
    ensures
        established <==> r is Ok,
        !established ==> r matches Err(ClientError::HandshakeFail),
{
    if established {
        Ok(())
    } else {
        Err(ClientError::HandshakeFail)
    }
}

} // verus!
