use vstd::prelude::*;

use crate::actions::{ResponseKind, StreamResponse};
use crate::frame::{
    concat_all, decode_frame, frame_encodes, lemma_frames_round_trip, parse_frame, parse_frames,
    FrameDecode, FrameParse, H3iFrame,
};

verus! {

/// Where a stream stands.
#[derive(Clone, Copy, PartialEq, Eq, Structural, Debug)]
pub enum StreamStatus {
    /// Bytes are still decoded into frames.
    Open,
    /// A malformed frame was seen: later bytes are dropped until the stream
    /// ends.
    Failed,
    /// The stream ended; nothing more is read from it.
    Finished,
    /// The peer reset the stream; nothing more is read from it.
    Reset,
}

/// Bytes that lay whole frames end to end, fed to a stream that is open and
/// has no partial frame pending, yield exactly those frames, in order, with
/// nothing left over and no error.
pub proof fn lemma_stream_round_trip(es: Seq<Seq<u8>>, fs: Seq<(u64, Seq<u8>)>)
    requires
        es.len() == fs.len(),
        forall|i: int| 0 <= i < es.len() ==> frame_encodes(#[trigger] es[i], fs[i]),
    ensures
        arrivals(Seq::empty(), StreamStatus::Open, concat_all(es)) == fs,
        !parse_frames(Seq::<u8>::empty() + concat_all(es)).2,
        (Seq::<u8>::empty() + concat_all(es)).skip(
            parse_frames(Seq::<u8>::empty() + concat_all(es)).1 as int,
        ).len() == 0,
{
    lemma_frames_round_trip(es, fs);
    assert(Seq::<u8>::empty() + concat_all(es) =~= concat_all(es));
}

/// Whether a stream takes no more events.
pub open spec fn is_terminal(s: StreamStatus) -> bool {
    s is Finished || s is Reset
}

/// The decoding state and frame log of one stream.
pub struct StreamState {
    pub stream_id: u64,
    /// Bytes received but not yet decoded: the start of a partial frame.
    pub pending: Vec<u8>,
    /// Every frame decoded on the stream, in arrival order.
    pub frames: Vec<H3iFrame>,
    pub status: StreamStatus,
}

/// The frames of a log, as values.
pub open spec fn frames_view(v: Seq<H3iFrame>) -> Seq<(u64, Seq<u8>)> {
    v.map_values(|f: H3iFrame| f@)
}

/// `r` reports the arrival of frame `f` on stream `id`.
pub open spec fn is_frame_arrival(r: StreamResponse, id: u64, f: (u64, Seq<u8>)) -> bool {
    r.stream_id == id && match r.kind {
        ResponseKind::FrameArrived(fr) => fr@ == f,
        _ => false,
    }
}

/// The frames that the bytes `data` complete on a stream whose undecoded
/// bytes are `pending` and whose status is `status`.
pub open spec fn arrivals(pending: Seq<u8>, status: StreamStatus, data: Seq<u8>) -> Seq<(u64, Seq<u8>)> {
    if status is Open {
        parse_frames(pending + data).0
    } else {
        Seq::empty()
    }
}

/// What taking in `data` (and the end of the stream if `fin`) does to stream
/// `id`, which had undecoded bytes `pending`, frame log `log` and status
/// `status`: it becomes `st`, and the reported events go from `ev0` to `ev1`.
pub open spec fn receive_post(
    id: u64,
    pending: Seq<u8>,
    log: Seq<(u64, Seq<u8>)>,
    status: StreamStatus,
    data: Seq<u8>,
    fin: bool,
    st: StreamState,
    ev0: Seq<StreamResponse>,
    ev1: Seq<StreamResponse>,
) -> bool {
    let fs = arrivals(pending, status, data);
    let ends = fin && !is_terminal(status);
    &&& st.stream_id == id
    &&& frames_view(st.frames@) == log + fs
    &&& ev1.len() == ev0.len() + fs.len() + (if ends { 1int } else { 0int })
    &&& ev1.subrange(0, ev0.len() as int) == ev0
    &&& forall|i: int|
        0 <= i < fs.len() ==> is_frame_arrival(#[trigger] ev1[ev0.len() + i], id, fs[i])
    &&& ends ==> ev1.last().stream_id == id && ev1.last().kind is Finished
    &&& is_terminal(status) ==> st.status == status && st.pending@ == pending
    &&& ends ==> st.status is Finished
    &&& !fin && status is Open ==> (st.status is Failed <==> parse_frames(pending + data).2)
    &&& !fin && status is Open && !parse_frames(pending + data).2 ==> st.pending@ == (
    pending + data).skip(parse_frames(pending + data).1 as int)
    &&& !fin && status is Failed ==> st.status is Failed
}

impl StreamState {
    pub fn new(stream_id: u64) -> (st: StreamState)
        ensures
            st.stream_id == stream_id,
            st.pending@.len() == 0,
            st.frames@.len() == 0,
            st.status is Open,
    {
        StreamState { stream_id, pending: Vec::new(), frames: Vec::new(), status: StreamStatus::Open }
    }

    /// Decodes, logs and reports the whole frames that `data` completes on
    /// an open stream; a malformed frame fails the stream.
    fn take_bytes(&mut self, data: &Vec<u8>, events: &mut Vec<StreamResponse>)
        requires
            old(self).status is Open,
        ensures
            final(self).stream_id == old(self).stream_id,
            frames_view(final(self).frames@) == frames_view(old(self).frames@) + parse_frames(
                old(self).pending@ + data@,
            ).0,
            final(events)@.len() == old(events)@.len() + parse_frames(
                old(self).pending@ + data@,
            ).0.len(),
            final(events)@.subrange(0, old(events)@.len() as int) == old(events)@,
            forall|i: int|
                0 <= i < parse_frames(old(self).pending@ + data@).0.len() ==> is_frame_arrival(
                    #[trigger] final(events)@[old(events)@.len() + i],
                    old(self).stream_id,
                    parse_frames(old(self).pending@ + data@).0[i],
                ),
            final(self).status is Failed <==> parse_frames(old(self).pending@ + data@).2,
            !(final(self).status is Failed) ==> final(self).status is Open && final(self).pending@ == (
            old(self).pending@ + data@).skip(parse_frames(old(self).pending@ + data@).1 as int),
    {
        let ghost ev0 = events@;
        let ghost log0 = frames_view(self.frames@);
        let mut buf: Vec<u8> = Vec::new();
        std::mem::swap(&mut buf, &mut self.pending);
        let mut i: usize = 0;
        let n = data.len();
        while i < n
            invariant
                n == data@.len(),
                i <= n,
                buf@ == old(self).pending@ + data@.take(i as int),
            decreases n - i,
        {
            buf.push(data[i]);
            i = i + 1;
            proof {
                assert(data@.take(i as int) =~= data@.take(i - 1).push(data@[i - 1]));
            }
        }
        proof {
            assert(data@.take(n as int) =~= data@);
        }
        let ghost all = parse_frames(buf@);
        let mut pos: usize = 0;
        let mut bad = false;
        proof {
            assert(buf@.skip(0) =~= buf@);
            assert(frames_view(self.frames@).skip(log0.len() as int) =~= Seq::<(u64, Seq<u8>)>::empty());
            assert(frames_view(self.frames@).take(log0.len() as int) =~= log0);
            assert(Seq::<(u64, Seq<u8>)>::empty() + all.0 =~= all.0);
        }
        loop
            invariant
                pos <= buf@.len(),
                buf@ == old(self).pending@ + data@,
                all == parse_frames(buf@),
                self.stream_id == old(self).stream_id,
                self.status == old(self).status,
                !bad ==> all == ({
                    let r = parse_frames(buf@.skip(pos as int));
                    (frames_view(self.frames@).skip(log0.len() as int) + r.0, (pos + r.1) as nat, r.2)
                }),
                bad ==> all.0 == frames_view(self.frames@).skip(log0.len() as int) && all.2,
                frames_view(self.frames@).len() >= log0.len(),
                frames_view(self.frames@).take(log0.len() as int) == log0,
                events@.len() == ev0.len() + frames_view(self.frames@).len() - log0.len(),
                events@.subrange(0, ev0.len() as int) == ev0,
                forall|k: int|
                    0 <= k < frames_view(self.frames@).len() - log0.len() ==> is_frame_arrival(
                        #[trigger] events@[ev0.len() + k],
                        self.stream_id,
                        frames_view(self.frames@)[log0.len() + k],
                    ),
            ensures
                !bad ==> parse_frames(buf@.skip(pos as int)).1 == 0,
                !bad ==> parse_frames(buf@.skip(pos as int)).0.len() == 0 && !parse_frames(
                    buf@.skip(pos as int),
                ).2,
            decreases buf@.len() - pos, if bad { 0int } else { 1int },
        {
            if bad {
                break;
            }
            let ghost fr0 = self.frames@;
            let ghost s = buf@.skip(pos as int);
            match decode_frame(&buf, pos) {
                FrameDecode::Incomplete => {
                    proof {
                        assert(frames_view(self.frames@).skip(log0.len() as int) + Seq::<(u64, Seq<u8>)>::empty()
                            =~= frames_view(self.frames@).skip(log0.len() as int));
                    }
                    break;
                },
                FrameDecode::Malformed => {
                    proof {
                        assert(frames_view(self.frames@).skip(log0.len() as int) + Seq::<(u64, Seq<u8>)>::empty()
                            =~= frames_view(self.frames@).skip(log0.len() as int));
                    }
                    bad = true;
                },
                FrameDecode::Complete(f, c) => {
                    proof {
                        assert(c > 0) by {
                            assert(parse_frame(s) is Complete);
                        }
                        assert(buf@.skip(pos as int).skip(c as int) =~= buf@.skip(pos + c));
                    }
                    let f2 = f.duplicate();
                    self.frames.push(f);
                    events.push(StreamResponse { stream_id: self.stream_id, kind: ResponseKind::FrameArrived(f2) });
                    pos = pos + c;
                    proof {
                        assert(frames_view(self.frames@) =~= frames_view(fr0).push(f2@));
                        assert(frames_view(self.frames@).take(log0.len() as int) =~= log0);
                        assert(frames_view(self.frames@).skip(log0.len() as int) =~= frames_view(fr0).skip(log0.len() as int).push(f2@));
                    }
                },
            }
        }
        proof {
            let fv = frames_view(self.frames@);
            assert(fv =~= fv.take(log0.len() as int) + fv.skip(log0.len() as int));
            assert(frames_view(self.frames@) =~= log0 + all.0);
        }
        if bad {
            self.status = StreamStatus::Failed;
        } else {
            proof {
                assert(buf@.subrange(pos as int, buf@.len() as int) =~= buf@.skip(pos as int));
            }
            let mut rest: Vec<u8> = Vec::new();
            let m = buf.len();
            let mut j: usize = pos;
            while j < m
                invariant
                    pos <= j <= m,
                    m == buf@.len(),
                    rest@ == buf@.subrange(pos as int, j as int),
                decreases m - j,
            {
                rest.push(buf[j]);
                j = j + 1;
                proof {
                    assert(buf@.subrange(pos as int, j as int) =~= buf@.subrange(pos as int, j - 1).push(buf@[j - 1]));
                }
            }
            self.pending = rest;
        }
    }

    /// Takes in bytes read from the stream, and its end if `fin`: decodes
    /// every whole frame, logs it and reports it, then reports the end once.
    /// A stream that has ended or was reset drops what arrives.
    pub fn receive(&mut self, data: &Vec<u8>, fin: bool, events: &mut Vec<StreamResponse>)
        ensures
            receive_post(
                old(self).stream_id,
                old(self).pending@,
                frames_view(old(self).frames@),
                old(self).status,
                data@,
                fin,
                *final(self),
                old(events)@,
                final(events)@,
            ),
    {
        if self.status == StreamStatus::Finished || self.status == StreamStatus::Reset {
            proof {
                assert(events@.subrange(0, events@.len() as int) =~= events@);
            }
            return;
        }
        let ghost ev0 = events@;
        let ghost log0 = frames_view(self.frames@);
        if self.status == StreamStatus::Open {
            self.take_bytes(data, events);
        }
        proof {
            assert(events@.subrange(0, ev0.len() as int) =~= ev0);
        }
        if fin {
            self.status = StreamStatus::Finished;
            events.push(StreamResponse { stream_id: self.stream_id, kind: ResponseKind::Finished });
            proof {
                assert(events@.subrange(0, ev0.len() as int) =~= ev0);
            }
        }
    }

    /// Takes in a reset of the stream by the peer: the first one is
    /// reported, and ends the stream.
    pub fn reset(&mut self, code: u64, events: &mut Vec<StreamResponse>)
        ensures
            final(self).stream_id == old(self).stream_id,
            final(self).frames@ == old(self).frames@,
            is_terminal(old(self).status) ==> *final(self) == *old(self) && final(events)@
                == old(events)@,
            !is_terminal(old(self).status) ==> final(self).status is Reset && final(events)@
                == old(events)@.push(
                StreamResponse { stream_id: old(self).stream_id, kind: ResponseKind::Reset(code) },
            ),
    {
        if self.status == StreamStatus::Finished || self.status == StreamStatus::Reset {
            return;
        }
        self.status = StreamStatus::Reset;
        events.push(StreamResponse { stream_id: self.stream_id, kind: ResponseKind::Reset(code) });
    }
}

/// A frame that, once seen on its stream, counts towards closing the session.
#[derive(Clone, Copy, PartialEq, Eq, Structural, Debug)]
pub struct CloseTriggerFrame {
    pub stream_id: u64,
    pub frame_type: u64,
}

/// The frames that together close the session: once each has been seen, the
/// session is closed at once instead of on the idle timeout.
pub struct CloseTriggerFrames {
    pub frames: Vec<CloseTriggerFrame>,
}

/// The position of the first stream with id `id`, or -1.
pub open spec fn index_of(s: Seq<StreamState>, id: u64) -> int
    decreases s.len(),
{
    if s.len() == 0 {
        -1
    } else if s[0].stream_id == id {
        0
    } else {
        let r = index_of(s.skip(1), id);
        if r < 0 {
            -1
        } else {
            r + 1
        }
    }
}

pub proof fn lemma_index_of(s: Seq<StreamState>, id: u64)
    ensures
        -1 <= index_of(s, id) < s.len(),
        index_of(s, id) >= 0 ==> s[index_of(s, id)].stream_id == id,
        index_of(s, id) < 0 ==> forall|i: int| 0 <= i < s.len() ==> s[i].stream_id != id,
        forall|i: int| 0 <= i < index_of(s, id) ==> s[i].stream_id != id,
    decreases s.len(),
{
    if s.len() > 0 && s[0].stream_id != id {
        lemma_index_of(s.skip(1), id);
        assert forall|i: int| 1 <= i < s.len() implies s[i] == s.skip(1)[i - 1] by {}
    }
}

/// Whether stream `id` saw a frame of type `t` among `fs`.
pub open spec fn trigger_hit(c: CloseTriggerFrame, id: u64, fs: Seq<(u64, Seq<u8>)>) -> bool {
    c.stream_id == id && exists|j: int| 0 <= j < fs.len() && fs[j].0 == c.frame_type
}

/// What taking in `data` (and the stream's end if `fin`) on stream `id` does
/// to the map `m0`: the stream, found or new, moves on as `receive_post`
/// says, every other stream stays, the trigger frames among the new frames
/// are marked seen, and `events` are what the stream reported.
pub open spec fn data_post(
    m0: StreamMap,
    id: u64,
    data: Seq<u8>,
    fin: bool,
    m1: StreamMap,
    events: Seq<StreamResponse>,
) -> bool {
    let i = index_of(m0.streams@, id);
    let st = m1.streams@[if i >= 0 { i } else { m0.streams@.len() as int }];
    let (pending, log, status) = if i >= 0 {
        let o = m0.streams@[i];
        (o.pending@, frames_view(o.frames@), o.status)
    } else {
        (Seq::<u8>::empty(), Seq::<(u64, Seq<u8>)>::empty(), StreamStatus::Open)
    };
    &&& i >= 0 ==> m1.streams@ == m0.streams@.update(i, st)
    &&& i < 0 ==> m1.streams@ == m0.streams@.push(st)
    &&& receive_post(id, pending, log, status, data, fin, st, Seq::empty(), events)
    &&& m0.triggers_after(&m1, id, arrivals(pending, status, data))
    &&& m0.all_seen() ==> m1.all_seen()
}

/// What a reset of stream `id` by the peer does to the map `m0`: the
/// stream, found or new, is reset and reported unless it had already ended;
/// its frames, every other stream and the triggers stay.
pub open spec fn reset_post(m0: StreamMap, id: u64, code: u64, m1: StreamMap, events: Seq<StreamResponse>) -> bool {
    let i = index_of(m0.streams@, id);
    let st = m1.streams@[if i >= 0 { i } else { m0.streams@.len() as int }];
    let ended = i >= 0 && is_terminal(m0.streams@[i].status);
    &&& m1.wf()
    &&& m1.triggers == m0.triggers
    &&& m1.seen == m0.seen
    &&& m1.has_triggers == m0.has_triggers
    &&& i >= 0 ==> m1.streams@ == m0.streams@.update(i, st) && st.frames@ == m0.streams@[i].frames@
    &&& i < 0 ==> m1.streams@ == m0.streams@.push(st) && st.frames@.len() == 0
    &&& st.stream_id == id
    &&& ended ==> st == m0.streams@[i] && events.len() == 0
    &&& !ended ==> st.status is Reset && events == seq![
        StreamResponse { stream_id: id, kind: ResponseKind::Reset(code) },
    ]
}

/// The per-stream decoders and frame logs of a session, with the state of
/// its close trigger.
pub struct StreamMap {
    pub streams: Vec<StreamState>,
    pub triggers: Vec<CloseTriggerFrame>,
    /// For each trigger frame, whether it has been seen.
    pub seen: Vec<bool>,
    /// Whether a close trigger was configured at all.
    pub has_triggers: bool,
}

impl StreamMap {
    pub open spec fn wf(&self) -> bool {
        self.seen@.len() == self.triggers@.len()
    }

    /// Every configured trigger frame has been seen.
    pub open spec fn all_seen(&self) -> bool {
        self.has_triggers && forall|k: int| 0 <= k < self.seen@.len() ==> self.seen@[k]
    }

    /// The streams and triggers move on as receiving on stream `id` makes
    /// them: only that stream changes, and a trigger is marked seen once one
    /// of the frames `fs` matches it.
    pub open spec fn triggers_after(&self, next: &StreamMap, id: u64, fs: Seq<(u64, Seq<u8>)>) -> bool {
        &&& next.wf()
        &&& next.triggers@ == self.triggers@
        &&& next.has_triggers == self.has_triggers
        &&& forall|k: int|
            0 <= k < self.seen@.len() ==> #[trigger] next.seen@[k] == (self.seen@[k] || trigger_hit(
                self.triggers@[k],
                id,
                fs,
            ))
    }

    pub fn new(close_trigger_frames: Option<CloseTriggerFrames>) -> (m: StreamMap)
        ensures
            m.wf(),
            m.streams@.len() == 0,
            m.has_triggers == close_trigger_frames is Some,
            close_trigger_frames is Some ==> m.triggers@ == close_trigger_frames->0.frames@,
            forall|k: int| 0 <= k < m.seen@.len() ==> !m.seen@[k],
    {
        let (has_triggers, triggers) = match close_trigger_frames {
            Some(c) => (true, c.frames),
            None => (false, Vec::new()),
        };
        let mut seen: Vec<bool> = Vec::new();
        let n = triggers.len();
        let mut i: usize = 0;
        while i < n
            invariant
                n == triggers@.len(),
                i <= n,
                seen@.len() == i,
                forall|k: int| 0 <= k < i ==> !seen@[k],
            decreases n - i,
        {
            seen.push(false);
            i = i + 1;
        }
        StreamMap { streams: Vec::new(), triggers, seen, has_triggers }
    }

    /// The position of stream `id`.
    pub fn find(&self, id: u64) -> (r: Option<usize>)
        ensures
            match r {
                Some(i) => i < self.streams@.len() && i as int == index_of(self.streams@, id),
                None => index_of(self.streams@, id) < 0,
            },
    {
        proof {
            lemma_index_of(self.streams@, id);
        }
        let n = self.streams.len();
        let mut i: usize = 0;
        while i < n
            invariant
                n == self.streams@.len(),
                i <= n,
                forall|k: int| 0 <= k < i ==> self.streams@[k].stream_id != id,
                -1 <= index_of(self.streams@, id) < n,
                index_of(self.streams@, id) < 0 ==> forall|k: int| 0 <= k < n ==> self.streams@[k].stream_id != id,
                index_of(self.streams@, id) >= 0 ==> self.streams@[index_of(self.streams@, id)].stream_id == id,
                forall|k: int| 0 <= k < index_of(self.streams@, id) ==> self.streams@[k].stream_id != id,
            decreases n - i,
        {
            if self.streams[i].stream_id == id {
                proof {
                    let x = index_of(self.streams@, id);
                    if x < 0 {
                        assert(self.streams@[i as int].stream_id != id);
                    } else if x < i {
                        assert(self.streams@[x].stream_id != id);
                    } else if x > i {
                        assert(self.streams@[i as int].stream_id != id);
                    }
                }
                return Some(i);
            }
            i = i + 1;
        }
        None
    }

    /// Whether every configured trigger frame has been seen.
    pub fn all_close_trigger_frames_seen(&self) -> (b: bool)
        requires
            self.wf(),
        ensures
            b == self.all_seen(),
    {
        if !self.has_triggers {
            return false;
        }
        let n = self.seen.len();
        let mut i: usize = 0;
        while i < n
            invariant
                n == self.seen@.len(),
                i <= n,
                forall|k: int| 0 <= k < i ==> self.seen@[k],
            decreases n - i,
        {
            if !self.seen[i] {
                return false;
            }
            i = i + 1;
        }
        true
    }

    /// Marks seen each trigger frame that one of the frames logged on
    /// stream `st` from position `from` on matches.
    fn mark_seen(&mut self, st: &StreamState, from: usize)
        requires
            old(self).wf(),
            from <= st.frames@.len(),
        ensures
            old(self).triggers_after(
                final(self),
                st.stream_id,
                frames_view(st.frames@).skip(from as int),
            ),
            final(self).streams == old(self).streams,
    {
        let ghost fs = frames_view(st.frames@).skip(from as int);
        let n = self.triggers.len();
        let m = st.frames.len();
        let mut k: usize = 0;
        while k < n
            invariant
                n == self.triggers@.len(),
                self.wf(),
                m == st.frames@.len(),
                from <= m,
                k <= n,
                self.triggers == old(self).triggers,
                self.streams == old(self).streams,
                self.has_triggers == old(self).has_triggers,
                fs == frames_view(st.frames@).skip(from as int),
                forall|q: int| k <= q < n ==> self.seen@[q] == old(self).seen@[q],
                forall|q: int|
                    0 <= q < k ==> #[trigger] self.seen@[q] == (old(self).seen@[q] || trigger_hit(
                        old(self).triggers@[q],
                        st.stream_id,
                        fs,
                    )),
            decreases n - k,
        {
            let c = self.triggers[k];
            if !self.seen[k] && c.stream_id == st.stream_id {
                let mut j: usize = from;
                let mut hit = false;
                while j < m
                    invariant
                        from <= j <= m,
                        m == st.frames@.len(),
                        fs == frames_view(st.frames@).skip(from as int),
                        hit == exists|q: int| 0 <= q < j - from && fs[q].0 == c.frame_type,
                    decreases m - j,
                {
                    if st.frames[j].frame_type == c.frame_type {
                        hit = true;
                    }
                    proof {
                        assert(fs[j - from].0 == st.frames@[j as int].frame_type);
                    }
                    j = j + 1;
                }
                if hit {
                    self.seen.set(k, true);
                }
            }
            k = k + 1;
        }
    }

    /// Takes in bytes read from stream `id` and its end if `fin`, and
    /// returns the events that follow, in order.
    pub fn on_stream_data(&mut self, id: u64, data: &Vec<u8>, fin: bool) -> (events: Vec<StreamResponse>)
        requires
            old(self).wf(),
        ensures
            data_post(*old(self), id, data@, fin, *final(self), events@),
    {
        let mut events: Vec<StreamResponse> = Vec::new();
        let found = self.find(id);
        let at = match found {
            Some(i) => i,
            None => self.streams.len(),
        };
        let mut st = match found {
            Some(i) => self.streams.remove(i),
            None => StreamState::new(id),
        };
        let ghost st0 = st;
        proof {
            lemma_index_of(old(self).streams@, id);
            if found is None {
                assert(st0.pending@ =~= Seq::<u8>::empty());
                assert(frames_view(st0.frames@) =~= Seq::<(u64, Seq<u8>)>::empty());
            }
        }
        let from = st.frames.len();
        st.receive(data, fin, &mut events);
        proof {
            assert(frames_view(st.frames@).skip(from as int) =~= arrivals(
                st0.pending@,
                st0.status,
                data@,
            ));
        }
        self.mark_seen(&st, from);
        self.streams.insert(at, st);
        proof {
            if found is Some {
                assert(self.streams@ =~= old(self).streams@.update(at as int, st));
            } else {
                assert(self.streams@ =~= old(self).streams@.push(st));
            }
        }
        events
    }

    /// Takes in a reset of stream `id` by the peer, and returns the events
    /// that follow: the reset, unless the stream had already ended.
    pub fn on_stream_reset(&mut self, id: u64, code: u64) -> (events: Vec<StreamResponse>)
        requires
            old(self).wf(),
        ensures
            reset_post(*old(self), id, code, *final(self), events@),
    {
        let mut events: Vec<StreamResponse> = Vec::new();
        let found = self.find(id);
        let at = match found {
            Some(i) => i,
            None => self.streams.len(),
        };
        let mut st = match found {
            Some(i) => self.streams.remove(i),
            None => StreamState::new(id),
        };
        proof {
            lemma_index_of(old(self).streams@, id);
        }
        st.reset(code, &mut events);
        self.streams.insert(at, st);
        proof {
            if found is Some {
                assert(self.streams@ =~= old(self).streams@.update(at as int, st));
            } else {
                assert(self.streams@ =~= old(self).streams@.push(st));
                assert(st.frames@.len() == 0);
            }
        }
        events
    }
}

} // verus!
