use transistor::codec::{
    decode_frame, decode_status, decode_u32, decode_warp_point, encode_frame, encode_hello,
    encode_status, encode_u32, encode_warp_point, frame_len, split_frames, CodecError,
    HandshakeStatus, MAX_FRAME_LEN,
};

#[test]
fn frame_prefixes_big_endian_length() {
    let f = encode_frame(&vec![1, 2, 3]).unwrap();
    assert_eq!(f, vec![0, 0, 0, 3, 1, 2, 3]);
    assert_eq!(encode_frame(&Vec::new()).unwrap(), vec![0, 0, 0, 0]);
    let long = vec![7u8; 300];
    assert_eq!(&encode_frame(&long).unwrap()[..4], &[0, 0, 1, 44]);
}

#[test]
fn frame_round_trip_ignores_following_bytes() {
    let payload = vec![9u8, 8, 7, 6, 5];
    let mut f = encode_frame(&payload).unwrap();
    f.extend_from_slice(&[0, 0, 0]);
    assert_eq!(decode_frame(&f), Ok((payload, 9)));
}

#[test]
fn frame_errors() {
    assert_eq!(decode_frame(&[0, 0]), Err(CodecError::Truncated));
    assert_eq!(decode_frame(&[0, 0, 0, 5, 1]), Err(CodecError::Truncated));
    assert_eq!(decode_frame(&[0, 0x10, 0, 1]), Err(CodecError::Oversized));
    assert_eq!(frame_len(&[0, 0x10, 0, 0]), Ok(MAX_FRAME_LEN as usize));
    assert_eq!(frame_len(&[0, 0x10, 0, 1]), Err(CodecError::Oversized));
    assert_eq!(frame_len(&[1, 2, 3]), Err(CodecError::Truncated));
    let big = vec![0u8; MAX_FRAME_LEN as usize + 1];
    assert_eq!(encode_frame(&big), Err(CodecError::Oversized));
    assert!(encode_frame(&vec![0u8; MAX_FRAME_LEN as usize]).is_ok());
}

#[test]
fn frames_come_out_in_order() {
    let mut stream = Vec::new();
    for p in [vec![1u8], Vec::new(), vec![2, 3, 4]] {
        stream.extend(encode_frame(&p).unwrap());
    }
    stream.extend_from_slice(&[0, 0, 0, 9, 1]);
    let (frames, used) = split_frames(&stream);
    assert_eq!(frames, vec![vec![1u8], Vec::new(), vec![2, 3, 4]]);
    assert_eq!(used, 5 + 4 + 7);
}

#[test]
fn integers_are_little_endian_payloads() {
    assert_eq!(encode_u32(0x0102_0304), vec![4, 3, 2, 1]);
    assert_eq!(encode_hello(42), vec![42, 0, 0, 0]);
    assert_eq!(decode_u32(&[4, 3, 2, 1, 9]), Ok(0x0102_0304));
    assert_eq!(decode_u32(&[1, 2]), Err(CodecError::Truncated));
    for v in [0u32, 1, 255, 256, 0xdead_beef, u32::MAX] {
        assert_eq!(decode_u32(&encode_u32(v)), Ok(v));
    }
}

#[test]
fn status_payloads() {
    assert_eq!(encode_status(HandshakeStatus::HandshakeOk), vec![0, 0, 0, 0]);
    assert_eq!(encode_status(HandshakeStatus::HandshakeErr), vec![1, 0, 0, 0]);
    for s in [HandshakeStatus::HandshakeOk, HandshakeStatus::HandshakeErr] {
        assert_eq!(decode_status(&encode_status(s)), Ok(s));
    }
    assert_eq!(decode_status(&[2, 0, 0, 0]), Err(CodecError::Malformed));
    assert_eq!(decode_status(&[0]), Err(CodecError::Truncated));
}

#[test]
fn warp_point_payloads() {
    assert_eq!(encode_warp_point(1, 40), vec![1, 0, 0, 0, 40, 0, 0, 0]);
    assert_eq!(encode_warp_point(-1, 5), vec![255, 255, 255, 255, 5, 0, 0, 0]);
    for (x, y) in [(1, 40), (-1, 5), (i32::MIN, i32::MAX)] {
        assert_eq!(decode_warp_point(&encode_warp_point(x, y)), Ok((x, y)));
    }
    assert_eq!(decode_warp_point(&[1, 0, 0, 0, 40]), Err(CodecError::Truncated));
}
