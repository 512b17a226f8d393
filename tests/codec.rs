use h3i::actions::ResponseKind;
use h3i::frame::{decode_frame, decode_varint, encode_varint, FrameDecode, H3iFrame, VARINT_MAX};
use h3i::streams::{StreamMap, StreamStatus};

fn enc(v: u64) -> Vec<u8> {
    let mut out = Vec::new();
    encode_varint(v, &mut out);
    out
}

#[test]
fn varint_known_encodings() {
    assert_eq!(enc(37), vec![0x25]);
    assert_eq!(enc(15293), vec![0x7b, 0xbd]);
    assert_eq!(enc(494878333), vec![0x9d, 0x7f, 0x3e, 0x7d]);
    assert_eq!(enc(151288809941952652), vec![0xc2, 0x19, 0x7c, 0x5e, 0xff, 0x14, 0xe8, 0x8c]);
}

#[test]
fn varint_boundaries_round_trip() {
    for (v, n) in [(0u64, 1usize), (63, 1), (64, 2), (16383, 2), (16384, 4), (1073741823, 4), (1073741824, 8), (VARINT_MAX, 8)] {
        let b = enc(v);
        assert_eq!(b.len(), n);
        assert_eq!(decode_varint(&b, 0), Some((v, n)));
    }
}

#[test]
fn varint_decodes_non_minimal_and_partial() {
    assert_eq!(decode_varint(&vec![0x40, 0x25], 0), Some((37, 2)));
    assert_eq!(decode_varint(&vec![0x9d, 0x7f, 0x3e], 0), None);
    assert_eq!(decode_varint(&vec![], 0), None);
    assert_eq!(decode_varint(&vec![0xff, 0x25], 1), Some((37, 1)));
}

#[test]
fn frame_round_trip() {
    let f = H3iFrame { frame_type: 0x21, payload: vec![1, 2, 3] };
    let mut b = vec![0xee];
    f.encode(&mut b);
    assert_eq!(b, vec![0xee, 0x21, 0x03, 1, 2, 3]);
    match decode_frame(&b, 1) {
        FrameDecode::Complete(g, used) => {
            assert_eq!(g.frame_type, 0x21);
            assert_eq!(g.payload, vec![1, 2, 3]);
            assert_eq!(used, 5);
        },
        _ => panic!("expected a whole frame"),
    }
    assert!(matches!(decode_frame(&b[..5].to_vec(), 1), FrameDecode::Incomplete));
}

#[test]
fn http2_frame_types_are_malformed() {
    for t in [0x02u8, 0x06, 0x08, 0x09] {
        assert!(matches!(decode_frame(&vec![t, 0x00], 0), FrameDecode::Malformed));
        assert!(matches!(decode_frame(&vec![t], 0), FrameDecode::Malformed));
    }
    assert!(matches!(decode_frame(&vec![0x07, 0x00], 0), FrameDecode::Complete(_, 2)));
}

#[test]
fn large_declared_length_waits_for_payload() {
    assert!(matches!(decode_frame(&vec![0x00, 0x80, 0x20, 0x00, 0x00, 0x01], 0), FrameDecode::Incomplete));
}

#[test]
fn reserved_type_can_still_be_sent() {
    let f = H3iFrame { frame_type: 0x02, payload: vec![0x01] };
    let mut b = Vec::new();
    f.encode(&mut b);
    assert_eq!(b, vec![0x02, 0x01, 0x01]);
}

#[test]
fn frames_split_across_reads_arrive_in_order() {
    let frames = [
        H3iFrame { frame_type: 4, payload: vec![] },
        H3iFrame { frame_type: 1, payload: vec![9; 70] },
        H3iFrame { frame_type: 0, payload: vec![5] },
    ];
    let mut bytes = Vec::new();
    for f in &frames {
        f.encode(&mut bytes);
    }
    let mut m = StreamMap::new(None);
    let mut seen = Vec::new();
    for chunk in bytes.chunks(3) {
        seen.extend(m.on_stream_data(0, &chunk.to_vec(), false));
    }
    assert_eq!(seen.len(), 3);
    for (r, f) in seen.iter().zip(frames.iter()) {
        assert_eq!(r.stream_id, 0);
        match &r.kind {
            ResponseKind::FrameArrived(g) => {
                assert_eq!(g.frame_type, f.frame_type);
                assert_eq!(g.payload, f.payload);
            },
            _ => panic!("expected a frame"),
        }
    }
    assert_eq!(m.streams[0].frames.len(), 3);
    assert!(m.streams[0].pending.is_empty());
}

#[test]
fn malformed_stream_does_not_affect_another() {
    let mut m = StreamMap::new(None);
    let bad = m.on_stream_data(2, &vec![0x02, 0x01, 0x00, 0x00, 0x00], false);
    assert!(bad.is_empty());
    let good = m.on_stream_data(3, &vec![0x00, 0x01, 0xaa], false);
    assert_eq!(good.len(), 1);
    assert!(matches!(&good[0].kind, ResponseKind::FrameArrived(f) if f.frame_type == 0 && f.payload == vec![0xaa]));
    let i = m.find(2).unwrap();
    assert_eq!(m.streams[i].status, StreamStatus::Failed);
    assert!(m.streams[i].frames.is_empty());
    // Later bytes on the failed stream are dropped; its end is still reported.
    let end = m.on_stream_data(2, &vec![0x00, 0x00], true);
    assert_eq!(end.len(), 1);
    assert!(matches!(end[0].kind, ResponseKind::Finished));
}

#[test]
fn finished_is_reported_once() {
    let mut m = StreamMap::new(None);
    let a = m.on_stream_data(6, &vec![0x00, 0x00], true);
    assert_eq!(a.len(), 2);
    assert!(matches!(a[1].kind, ResponseKind::Finished));
    assert!(m.on_stream_data(6, &vec![0x00, 0x00], true).is_empty());
    assert!(m.on_stream_reset(6, 1).is_empty());
}

#[test]
fn reset_is_terminal() {
    let mut m = StreamMap::new(None);
    let r = m.on_stream_reset(10, 0x10c);
    assert_eq!(r.len(), 1);
    assert!(matches!(r[0].kind, ResponseKind::Reset(0x10c)));
    assert!(m.on_stream_reset(10, 2).is_empty());
    assert!(m.on_stream_data(10, &vec![0x00, 0x00], true).is_empty());
}

