use crc_any::CRCu16;
use ironside::frame::{
    check_frame, decode_frame, encode_frame, FrameDecoder, FrameError, MESSAGE_DEST, SYNC,
};

fn reference_crc(bytes: &[u8]) -> u16 {
    let mut crc = CRCu16::crc16mcrf4cc();
    crc.digest(bytes);
    crc.get_crc()
}

#[test]
fn frame_layout_is_exact() {
    let frame = encode_frame(3, &[0x89, 0x52]);
    let crc = reference_crc(&[7, MESSAGE_DEST | 3, 0x89, 0x52]);
    assert_eq!(
        frame,
        vec![7, 0x13, 0x89, 0x52, (crc >> 8) as u8, (crc & 0xff) as u8, SYNC]
    );
}

#[test]
fn empty_payload_frame_has_minimum_length() {
    let frame = encode_frame(0, &[]);
    assert_eq!(frame.len(), 5);
    assert_eq!(frame[0], 5);
    let (f, n) = decode_frame(&frame).unwrap();
    assert_eq!(n, 5);
    assert_eq!(f.sequence, 0);
    assert_eq!(f.reserved, 1);
    assert!(f.payload.is_empty());
}

#[test]
fn frame_round_trip_for_all_sequences_and_sizes() {
    for seq in 0u8..16 {
        for len in [0usize, 1, 2, 17, 64, 249, 250] {
            let payload: Vec<u8> = (0..len).map(|i| (i * 31 + seq as usize) as u8).collect();
            let frame = encode_frame(seq, &payload);
            let (f, n) = decode_frame(&frame).unwrap();
            assert_eq!(n, frame.len());
            assert_eq!(f.sequence, seq);
            assert_eq!(f.payload, payload);
        }
    }
}

#[test]
fn flipping_any_trailer_bit_is_rejected() {
    let frame = encode_frame(5, &[1, 2, 3, 4]);
    let n = frame.len();
    for i in n - 3..n {
        for bit in 0..8 {
            let mut bad = frame.clone();
            bad[i] ^= 1 << bit;
            let expected = if i == n - 1 { FrameError::BadSync } else { FrameError::BadChecksum };
            assert_eq!(decode_frame(&bad).map(|(_, n)| n), Err(expected));
        }
    }
}

#[test]
fn each_frame_error_has_an_input() {
    assert_eq!(check_frame(&[], 0), Err(FrameError::Truncated));
    assert_eq!(check_frame(&[4, 0, 0, 0], 0), Err(FrameError::BadLength));
    let frame = encode_frame(1, &[9, 9]);
    assert_eq!(check_frame(&frame[..frame.len() - 1], 0), Err(FrameError::Truncated));
    let mut bad = frame.clone();
    bad[2] = 8;
    assert_eq!(check_frame(&bad, 0), Err(FrameError::BadChecksum));
    let mut bad_sync = frame.clone();
    let last = bad_sync.len() - 1;
    bad_sync[last] = 0;
    assert_eq!(check_frame(&bad_sync, 0), Err(FrameError::BadSync));
    assert_eq!(check_frame(&frame, 0), Ok(frame.len()));
}

#[test]
fn decoder_resumes_frames_split_across_reads() {
    let a = encode_frame(1, &[10, 11, 12]);
    let b = encode_frame(2, &[20]);
    let mut stream = a.clone();
    stream.extend_from_slice(&b);
    let mut dec = FrameDecoder::new();
    dec.push(&stream[..4]);
    assert_eq!(dec.next_frame(), None);
    assert_eq!(dec.buf, stream[..4].to_vec());
    dec.push(&stream[4..]);
    let f1 = dec.next_frame().unwrap();
    assert_eq!((f1.sequence, f1.payload.clone()), (1, vec![10, 11, 12]));
    let f2 = dec.next_frame().unwrap();
    assert_eq!((f2.sequence, f2.payload.clone()), (2, vec![20]));
    assert_eq!(dec.next_frame(), None);
    assert!(dec.buf.is_empty());
    assert_eq!(dec.discarded, 0);
}

#[test]
fn decoder_resynchronises_after_garbage() {
    let good = encode_frame(4, &[1, 2, 3]);
    let mut stream = vec![0x01, 0x02, 0x7e];
    stream.extend_from_slice(&good);
    let mut dec = FrameDecoder::new();
    dec.push(&stream);
    let f = dec.next_frame().unwrap();
    assert_eq!(f.sequence, 4);
    assert_eq!(f.payload, vec![1, 2, 3]);
    assert_eq!(dec.discarded, 3);
    assert!(dec.buf.is_empty());
}

#[test]
fn decoder_drops_a_corrupt_frame_and_keeps_the_next() {
    let mut bad = encode_frame(1, &[5, 5, 5]);
    bad[3] ^= 0x40;
    let good = encode_frame(2, &[6]);
    let mut stream = bad.clone();
    stream.extend_from_slice(&good);
    let mut dec = FrameDecoder::new();
    dec.push(&stream);
    let f = dec.next_frame().unwrap();
    assert_eq!(f.sequence, 2);
    assert_eq!(f.payload, vec![6]);
    assert_eq!(dec.discarded, bad.len() as u64);
}
