use t2_bus::codec::CborCodec;

#[test]
fn encode_prefixes_big_endian_length() {
    let codec: CborCodec<(), ()> = CborCodec::new();
    let mut dst = vec![9u8];
    codec.encode_frame(&[1, 2, 3], &mut dst);
    assert_eq!(dst, vec![9, 0, 0, 0, 3, 1, 2, 3]);
    let mut dst2 = Vec::new();
    codec.encode_frame(&vec![0u8; 258], &mut dst2);
    assert_eq!(&dst2[0..4], &[0, 0, 1, 2]);
}

#[test]
fn decode_waits_for_header_and_body() {
    let mut codec: CborCodec<(), ()> = CborCodec::new();
    let mut buf = vec![0u8, 0];
    assert_eq!(codec.decode_frame_len(&mut buf), None);
    assert_eq!(buf, vec![0, 0]);
    buf.extend_from_slice(&[0, 2, 7]);
    assert_eq!(codec.decode_frame_len(&mut buf), None);
    assert_eq!(buf, vec![7]);
    buf.push(8);
    assert_eq!(codec.decode_frame_len(&mut buf), Some(2));
    codec.frame_decoded(&mut buf);
    assert!(buf.is_empty());
}

#[test]
fn frame_round_trip() {
    let codec: CborCodec<(), ()> = CborCodec::new();
    let mut wire = Vec::new();
    codec.encode_frame(b"hello", &mut wire);
    codec.encode_frame(b"x", &mut wire);
    let mut decoder: CborCodec<(), ()> = CborCodec::new();
    let n = decoder.decode_frame_len(&mut wire).unwrap();
    assert_eq!(&wire[..n], b"hello");
    decoder.frame_decoded(&mut wire);
    let n = decoder.decode_frame_len(&mut wire).unwrap();
    assert_eq!(&wire[..n], b"x");
    decoder.frame_decoded(&mut wire);
    assert!(wire.is_empty());
}

fn drain_frames(decoder: &mut CborCodec<(), ()>, buf: &mut Vec<u8>, out: &mut Vec<Vec<u8>>) {
    while let Some(n) = decoder.decode_frame_len(buf) {
        out.push(buf[..n].to_vec());
        decoder.frame_decoded(buf);
    }
}

#[test]
fn frames_arriving_in_any_chunks_decode_in_order() {
    let bodies: Vec<Vec<u8>> = vec![b"alpha".to_vec(), vec![], vec![1, 2, 3], vec![7u8; 300]];
    let encoder: CborCodec<(), ()> = CborCodec::default();
    let mut wire = Vec::new();
    for b in &bodies {
        encoder.encode_frame(b, &mut wire);
    }
    for chunk_len in [1usize, 2, 3, 5, 7, 64, wire.len()] {
        let mut decoder: CborCodec<(), ()> = CborCodec::default();
        let mut buf = Vec::new();
        let mut out = Vec::new();
        for chunk in wire.chunks(chunk_len) {
            buf.extend_from_slice(chunk);
            drain_frames(&mut decoder, &mut buf, &mut out);
        }
        assert_eq!(out, bodies, "chunks of {}", chunk_len);
        assert!(buf.is_empty());
        assert_eq!(decoder.decode_frame_len(&mut buf), None);
    }
}
