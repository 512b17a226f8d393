use vstd::prelude::*;

verus! {

/// An HTTP/3 frame: its type and its payload bytes.
pub struct H3iFrame {
    pub frame_type: u64,
    pub payload: Vec<u8>,
}

impl View for H3iFrame {
    type V = (u64, Seq<u8>);

    open spec fn view(&self) -> (u64, Seq<u8>) {
        (self.frame_type, self.payload@)
    }
}

/// The outcome of reading one frame at the start of a byte sequence.
pub enum FrameParse {
    /// The bytes end before the frame does.
    Incomplete,
    /// The frame has a type reserved from HTTP/2, which HTTP/3 forbids.
    Malformed,
    /// A whole frame: its type, its payload and the number of bytes it took.
    Complete(u64, Seq<u8>, nat),
}

/// Reads one frame, laid out as a variable-length type, a variable-length
/// payload length and the payload.
pub open spec fn parse_frame(s: Seq<u8>) -> FrameParse {
    match parse_varint(s) {
        None => FrameParse::Incomplete,
        Some((t, n1)) => if is_reserved_type(t) {
            FrameParse::Malformed
        } else {
            match parse_varint(s.skip(n1 as int)) {
            None => FrameParse::Incomplete,
            Some((len, n2)) => if s.len() < n1 + n2 + len {
                FrameParse::Incomplete
            } else {
                FrameParse::Complete(
                    t as u64,
                    s.subrange((n1 + n2) as int, (n1 + n2 + len) as int),
                    n1 + n2 + len,
                )
            },
        }
        },
    }
}

/// The frame types of HTTP/2 that have no HTTP/3 counterpart
/// (PRIORITY, PING, WINDOW_UPDATE, CONTINUATION): receiving one is an error.
pub open spec fn is_reserved_type(t: nat) -> bool {
    t == 2 || t == 6 || t == 8 || t == 9
}

/// `e` lays out the frame `f`: its type, its payload length and its payload,
/// whatever the type.
pub open spec fn frame_layout(e: Seq<u8>, f: (u64, Seq<u8>)) -> bool {
    match parse_varint(e) {
        Some((t, n1)) => t == f.0 && match parse_varint(e.skip(n1 as int)) {
            Some((len, n2)) => len == f.1.len() && e.len() == n1 + n2 + len && e.subrange(
                (n1 + n2) as int,
                e.len() as int,
            ) == f.1,
            None => false,
        },
        None => false,
    }
}

/// A frame laid out on the wire reads back as that frame, unless its type is
/// one that HTTP/3 forbids.
pub proof fn lemma_layout_encodes(e: Seq<u8>, f: (u64, Seq<u8>))
    requires
        frame_layout(e, f),
        !is_reserved_type(f.0 as nat),
    ensures
        frame_encodes(e, f),
{
}

/// `e` is, as a whole, one encoding of the frame `f`.
pub open spec fn frame_encodes(e: Seq<u8>, f: (u64, Seq<u8>)) -> bool {
    parse_frame(e) == FrameParse::Complete(f.0, f.1, e.len())
}

/// Reads frames from the start of `s` for as long as whole ones follow:
/// the frames, the number of bytes they took, and whether reading stopped at
/// a malformed frame.
pub open spec fn parse_frames(s: Seq<u8>) -> (Seq<(u64, Seq<u8>)>, nat, bool)
    decreases s.len(),
{
    match parse_frame(s) {
        FrameParse::Incomplete => (Seq::empty(), 0, false),
        FrameParse::Malformed => (Seq::empty(), 0, true),
        FrameParse::Complete(t, p, c) => if 0 < c <= s.len() {
            let r = parse_frames(s.skip(c as int));
            (seq![(t, p)] + r.0, c + r.1, r.2)
        } else {
            (Seq::empty(), 0, false)
        },
    }
}

/// The concatenation of byte sequences, in order.
pub open spec fn concat_all(es: Seq<Seq<u8>>) -> Seq<u8>
    decreases es.len(),
{
    if es.len() == 0 {
        Seq::empty()
    } else {
        es[0] + concat_all(es.skip(1))
    }
}

pub proof fn lemma_parse_varint_prefix(s: Seq<u8>, r: Seq<u8>)
    requires
        parse_varint(s) is Some,
    ensures
        parse_varint(s + r) == parse_varint(s),
{
    let n = varint_len_of(s[0]);
    assert((s + r)[0] == s[0]);
    assert((s + r).subrange(1, n as int) =~= s.subrange(1, n as int));
}

pub proof fn lemma_parse_frame_prefix(e: Seq<u8>, f: (u64, Seq<u8>), r: Seq<u8>)
    requires
        frame_encodes(e, f),
    ensures
        parse_frame(e + r) == parse_frame(e),
{
    let (t, n1) = parse_varint(e).unwrap();
    lemma_parse_varint_prefix(e, r);
    assert((e + r).skip(n1 as int) =~= e.skip(n1 as int) + r);
    lemma_parse_varint_prefix(e.skip(n1 as int), r);
    let (len, n2) = parse_varint(e.skip(n1 as int)).unwrap();
    assert((e + r).subrange((n1 + n2) as int, (n1 + n2 + len) as int) =~= e.subrange((n1 + n2) as int, (n1 + n2 + len) as int));
}

/// Frames laid end to end read back as exactly those frames, in order, with
/// every byte consumed and no error.
pub proof fn lemma_frames_round_trip(es: Seq<Seq<u8>>, fs: Seq<(u64, Seq<u8>)>)
    requires
        es.len() == fs.len(),
        forall|i: int| 0 <= i < es.len() ==> frame_encodes(#[trigger] es[i], fs[i]),
    ensures
        parse_frames(concat_all(es)) == (fs, concat_all(es).len(), false),
    decreases es.len(),
{
    let all = concat_all(es);
    if es.len() == 0 {
        assert(parse_varint(all) is None);
        assert(fs =~= Seq::<(u64, Seq<u8>)>::empty());
    } else {
        let rest = concat_all(es.skip(1));
        assert(frame_encodes(es[0], fs[0]));
        lemma_parse_frame_prefix(es[0], fs[0], rest);
        assert forall|i: int| 0 <= i < es.skip(1).len() implies frame_encodes(
            #[trigger] es.skip(1)[i],
            fs.skip(1)[i],
        ) by {
            assert(es.skip(1)[i] == es[i + 1]);
            assert(frame_encodes(es[i + 1], fs[i + 1]));
        }
        lemma_frames_round_trip(es.skip(1), fs.skip(1));
        let c = es[0].len();
        assert(parse_varint(es[0]) is Some);
        assert(c > 0);
        assert(all.skip(c as int) =~= rest);
        assert(seq![fs[0]] + fs.skip(1) =~= fs);
    }
}

/// The type of an HTTP/3 SETTINGS frame.
pub const SETTINGS_FRAME_TYPE: u64 = 4;

/// 256 to the power `n`.
pub open spec fn pow256(n: nat) -> nat
    decreases n,
{
    if n == 0 {
        1
    } else {
        256 * pow256((n - 1) as nat)
    }
}

/// The big-endian value of a byte sequence.
pub open spec fn be_value(s: Seq<u8>) -> nat
    decreases s.len(),
{
    if s.len() == 0 {
        0
    } else {
        (be_value(s.drop_last()) * 256 + s.last()) as nat
    }
}

/// The length of a variable-length integer, read from its first byte.
pub open spec fn varint_len_of(b0: u8) -> nat {
    if b0 < 64 {
        1
    } else if b0 < 128 {
        2
    } else if b0 < 192 {
        4
    } else {
        8
    }
}

/// The value of the `n`-byte variable-length integer at the start of `s`:
/// the big-endian value of those bytes with the two length bits cleared.
pub open spec fn varint_value(s: Seq<u8>, n: nat) -> nat {
    be_value(seq![(s[0] % 64) as u8] + s.subrange(1, n as int))
}

/// The variable-length integer at the start of `s` and its length, or
/// `None` where `s` holds only part of one.
pub open spec fn parse_varint(s: Seq<u8>) -> Option<(nat, nat)> {
    if s.len() == 0 || s.len() < varint_len_of(s[0]) {
        None
    } else {
        Some((varint_value(s, varint_len_of(s[0])), varint_len_of(s[0])))
    }
}

/// `s` is, as a whole, one variable-length encoding of `v`.
pub open spec fn varint_encodes(s: Seq<u8>, v: nat) -> bool {
    parse_varint(s) == Some((v, s.len()))
}

/// The smallest number of bytes that encodes `v`.
pub open spec fn varint_len(v: nat) -> nat {
    if v < 64 {
        1
    } else if v < 16384 {
        2
    } else if v < 1073741824 {
        4
    } else {
        8
    }
}

/// The largest value a variable-length integer holds.
pub const VARINT_MAX: u64 = 4611686018427387903;

pub proof fn lemma_be_value_bound(s: Seq<u8>)
    ensures
        be_value(s) < pow256(s.len()),
    decreases s.len(),
{
    if s.len() > 0 {
        lemma_be_value_bound(s.drop_last());
        let p = pow256((s.len() - 1) as nat);
        let v = be_value(s.drop_last());
        assert(v * 256 + s.last() < 256 * p) by (nonlinear_arith)
            requires
                v < p,
                s.last() < 256,
        ;
    }
}

pub proof fn lemma_be_value_prepend(b: u8, s: Seq<u8>)
    ensures
        be_value(seq![b] + s) == b * pow256(s.len()) + be_value(s),
    decreases s.len(),
{
    let t = seq![b] + s;
    if s.len() == 0 {
        assert(t.drop_last() =~= Seq::<u8>::empty());
        assert(t.last() == b);
        assert(be_value(Seq::<u8>::empty()) == 0);
        assert(be_value(t) == be_value(t.drop_last()) * 256 + t.last());
        assert(pow256(0) == 1);
    } else {
        assert(t.drop_last() =~= seq![b] + s.drop_last());
        assert(t.last() == s.last());
        assert(be_value(t) == be_value(t.drop_last()) * 256 + t.last());
        assert(pow256(s.len()) == 256 * pow256((s.len() - 1) as nat));
        lemma_be_value_prepend(b, s.drop_last());
        let p = pow256((s.len() - 1) as nat);
        let r = be_value(s.drop_last());
        assert((b * p + r) * 256 + s.last() == b * (256 * p) + (r * 256 + s.last()))
            by (nonlinear_arith);
    }
}

pub proof fn lemma_be_value_take(s: Seq<u8>, k: int)
    requires
        0 <= k < s.len(),
    ensures
        be_value(s.take(k + 1)) == be_value(s.take(k)) * 256 + s[k],
{
    assert(s.take(k + 1).drop_last() =~= s.take(k));
}

/// Reads the variable-length integer at `pos` in `buf`, with its length.
pub fn decode_varint(buf: &Vec<u8>, pos: usize) -> (r: Option<(u64, usize)>)
    requires
        pos <= buf@.len(),
    ensures
        match parse_varint(buf@.skip(pos as int)) {
            None => r is None,
            Some((v, n)) => r == Some((v as u64, n as usize)) && v <= VARINT_MAX,
        },
{
    let ghost s = buf@.skip(pos as int);
    if pos >= buf.len() {
        return None;
    }
    let b0 = buf[pos];
    let n: usize = if b0 < 64 {
        1
    } else if b0 < 128 {
        2
    } else if b0 < 192 {
        4
    } else {
        8
    };
    if buf.len() - pos < n {
        return None;
    }
    let ghost t = seq![(s[0] % 64) as u8] + s.subrange(1, n as int);
    let len = buf.len();
    let mut acc: u64 = (b0 % 64) as u64;
    let mut k: usize = 1;
    proof {
        reveal_with_fuel(pow256, 8);
        assert(t.take(1) =~= seq![(s[0] % 64) as u8]);
        assert(t.take(1).drop_last() =~= Seq::<u8>::empty());
        assert(be_value(Seq::<u8>::empty()) == 0);
        assert(t.take(1).last() == (s[0] % 64) as u8);
        assert(s[0] == b0);
        assert(pos + n <= buf@.len());
    }
    while k < n
        invariant
            1 <= k <= n <= 8,
            n == varint_len_of(s[0]),
            pos + n <= buf@.len(),
            len == buf@.len(),
            s == buf@.skip(pos as int),
            t == seq![(s[0] % 64) as u8] + s.subrange(1, n as int),
            t.len() == n,
            acc == be_value(t.take(k as int)),
            acc < 64 * pow256((k - 1) as nat),
        decreases n - k,
    {
        let b = buf[pos + k];
        proof {
            lemma_be_value_take(t, k as int);
            assert(t[k as int] == b);
            assert(pow256(k as nat) == 256 * pow256((k - 1) as nat));
            reveal_with_fuel(pow256, 8);
            assert(64 * pow256(7) == 0x4000_0000_0000_0000);
            assert(pow256((k - 1) as nat) <= pow256(6)) by {
                if k == 1 {} else if k == 2 {} else if k == 3 {} else if k == 4 {}
                else if k == 5 {} else if k == 6 {} else {}
            }
            let p = pow256((k - 1) as nat);
            assert(acc * 256 + b < 64 * (256 * p)) by (nonlinear_arith)
                requires
                    acc < 64 * p,
                    b < 256,
            ;
        }
        acc = acc * 256 + b as u64;
        k = k + 1;
    }
    proof {
        assert(t.take(n as int) =~= t);
        reveal_with_fuel(pow256, 8);
        assert(pow256((n - 1) as nat) <= pow256(7)) by {
            if n == 1 {} else if n == 2 {} else if n == 4 {} else {}
        }
    }
    Some((acc, n))
}

/// Appends the shortest variable-length encoding of `v` to `out`.
pub fn encode_varint(v: u64, out: &mut Vec<u8>)
    requires
        v <= VARINT_MAX,
    ensures
        final(out)@.len() == old(out)@.len() + varint_len(v as nat),
        final(out)@.subrange(0, old(out)@.len() as int) == old(out)@,
        varint_encodes(final(out)@.skip(old(out)@.len() as int), v as nat),
{
    let n: usize = if v < 64 {
        1
    } else if v < 16384 {
        2
    } else if v < 1073741824 {
        4
    } else {
        8
    };
    let tag: u8 = if n == 1 {
        0
    } else if n == 2 {
        64
    } else if n == 4 {
        128
    } else {
        192
    };
    proof {
        reveal_with_fuel(pow256, 8);
        assert(v < 64 * pow256((n - 1) as nat));
    }
    let mut tmp: Vec<u8> = Vec::new();
    let mut j: usize = 0;
    while j < n
        invariant
            j <= n,
            tmp@.len() == j,
        decreases n - j,
    {
        tmp.push(0);
        j = j + 1;
    }
    let mut x: u64 = v;
    let mut k: usize = n;
    proof {
        assert(tmp@.subrange(n as int, n as int) =~= Seq::<u8>::empty());
        assert(be_value(Seq::<u8>::empty()) == 0);
        assert(pow256(0) == 1);
        assert(x * pow256(0) == x);
    }
    while k > 0
        invariant
            k <= n,
            tmp@.len() == n,
            v == x * pow256((n - k) as nat) + be_value(tmp@.subrange(k as int, n as int)),
        decreases k,
    {
        let ghost old_sub = tmp@.subrange(k as int, n as int);
        let ghost p = pow256((n - k) as nat);
        tmp.set(k - 1, (x % 256) as u8);
        proof {
            assert(tmp@.subrange(k - 1, n as int) =~= seq![(x % 256) as u8] + old_sub);
            lemma_be_value_prepend((x % 256) as u8, old_sub);
            assert(pow256((n - k + 1) as nat) == 256 * p);
            assert(x * p == (x / 256) * (256 * p) + (x % 256) * p) by (nonlinear_arith);
        }
        x = x / 256;
        k = k - 1;
    }
    let ghost body = tmp@;
    proof {
        assert(tmp@.subrange(0, n as int) =~= tmp@);
        lemma_be_value_prepend(tmp@[0], tmp@.skip(1));
        assert(seq![tmp@[0]] + tmp@.skip(1) =~= tmp@);
        lemma_be_value_bound(tmp@.skip(1));
        let p = pow256((n - 1) as nat);
        assert(pow256(n as nat) == 256 * p);
        assert(x == 0 && tmp@[0] < 64) by (nonlinear_arith)
            requires
                v == x * (256 * p) + (tmp@[0] * p + be_value(tmp@.skip(1))),
                v < 64 * p,
                p > 0,
        ;
    }
    let first = tmp[0];
    tmp.set(0, first + tag);
    let ghost enc = tmp@;
    proof {
        assert(enc[0] % 64 == first);
        assert(varint_len_of(enc[0]) == n);
        assert(seq![(enc[0] % 64) as u8] + enc.subrange(1, n as int) =~= body);
    }
    let ghost before = out@;
    let mut i: usize = 0;
    while i < n
        invariant
            i <= n,
            tmp@ == enc,
            enc.len() == n,
            out@ == before + enc.take(i as int),
        decreases n - i,
    {
        out.push(tmp[i]);
        i = i + 1;
        proof {
            assert(enc.take(i as int) =~= enc.take(i - 1).push(enc[i - 1]));
        }
    }
    proof {
        assert(enc.take(n as int) =~= enc);
        assert(out@.skip(before.len() as int) =~= enc);
        assert(out@.subrange(0, before.len() as int) =~= before);
    }
}

/// The outcome of decoding one frame from a buffer.
pub enum FrameDecode {
    Incomplete,
    Malformed,
    /// The frame and the number of bytes it took.
    Complete(H3iFrame, usize),
}

/// An executable decoding outcome agrees with the reading of the bytes.
pub open spec fn decode_agrees(r: FrameDecode, p: FrameParse) -> bool {
    match (r, p) {
        (FrameDecode::Incomplete, FrameParse::Incomplete) => true,
        (FrameDecode::Malformed, FrameParse::Malformed) => true,
        (FrameDecode::Complete(f, c), FrameParse::Complete(t, pl, n)) => f@ == (t, pl) && c == n,
        _ => false,
    }
}

/// Decodes the frame that starts at `pos` in `buf`.
pub fn decode_frame(buf: &Vec<u8>, pos: usize) -> (r: FrameDecode)
    requires
        pos <= buf@.len(),
    ensures
        decode_agrees(r, parse_frame(buf@.skip(pos as int))),
{
    let ghost s = buf@.skip(pos as int);
    let (t, n1) = match decode_varint(buf, pos) {
        None => return FrameDecode::Incomplete,
        Some(x) => x,
    };
    if t == 2 || t == 6 || t == 8 || t == 9 {
        return FrameDecode::Malformed;
    }
    let blen = buf.len();
    proof {
        assert(n1 <= s.len());
        assert(pos + n1 <= blen);
    }
    let p2 = pos + n1;
    proof {
        assert(buf@.skip(p2 as int) =~= s.skip(n1 as int));
    }
    let (len, n2) = match decode_varint(buf, p2) {
        None => return FrameDecode::Incomplete,
        Some(x) => x,
    };
    proof {
        assert(p2 + n2 <= blen);
    }
    let start = p2 + n2;
    if ((buf.len() - start) as u64) < len {
        return FrameDecode::Incomplete;
    }
    let end = start + len as usize;
    let mut payload: Vec<u8> = Vec::new();
    let mut i: usize = start;
    while i < end
        invariant
            start <= i <= end <= buf@.len(),
            payload@ == buf@.subrange(start as int, i as int),
        decreases end - i,
    {
        payload.push(buf[i]);
        i = i + 1;
        proof {
            assert(buf@.subrange(start as int, i as int) =~= buf@.subrange(start as int, i - 1).push(
                buf@[i - 1],
            ));
        }
    }
    proof {
        assert(payload@ =~= s.subrange((n1 + n2) as int, (n1 + n2 + len) as int));
    }
    FrameDecode::Complete(H3iFrame { frame_type: t, payload }, n1 + n2 + len as usize)
}

impl H3iFrame {
    /// A copy of this frame.
    pub fn duplicate(&self) -> (r: H3iFrame)
        ensures
            r@ == self@,
    {
        let payload = self.payload.clone();
        proof {
            assert(payload@ =~= self.payload@);
        }
        H3iFrame { frame_type: self.frame_type, payload }
    }

    /// Appends the encoding of this frame to `out`.
    pub fn encode(&self, out: &mut Vec<u8>)
        requires
            self.frame_type <= VARINT_MAX,
            self.payload@.len() <= VARINT_MAX,
        ensures
            final(out)@.len() >= old(out)@.len(),
            final(out)@.subrange(0, old(out)@.len() as int) == old(out)@,
            frame_layout(final(out)@.skip(old(out)@.len() as int), self@),
    {
        let ghost o = out@;
        encode_varint(self.frame_type, out);
        let ghost o1 = out@;
        encode_varint(self.payload.len() as u64, out);
        let ghost o2 = out@;
        let n = self.payload.len();
        let mut i: usize = 0;
        while i < n
            invariant
                n == self.payload@.len(),
                i <= n,
                out@ == o2 + self.payload@.take(i as int),
            decreases n - i,
        {
            out.push(self.payload[i]);
            i = i + 1;
            proof {
                assert(self.payload@.take(i as int) =~= self.payload@.take(i - 1).push(
                    self.payload@[i - 1],
                ));
            }
        }
        proof {
            assert(self.payload@.take(n as int) =~= self.payload@);
            let v1 = o1.skip(o.len() as int);
            let v2 = o2.skip(o1.len() as int);
            let p = self.payload@;
            let e = out@.skip(o.len() as int);
            assert(o1 =~= o + v1);
            assert(o2 =~= o1 + v2);
            assert(e =~= v1 + (v2 + p));
            lemma_parse_varint_prefix(v1, v2 + p);
            assert(e.skip(v1.len() as int) =~= v2 + p);
            lemma_parse_varint_prefix(v2, p);
            assert(e.subrange((v1.len() + v2.len()) as int, e.len() as int) =~= p);
            assert(out@.subrange(0, o.len() as int) =~= o);
        }
    }
}

} // verus!
