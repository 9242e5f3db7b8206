//! Player page framing.

use bitstream::ingest::container::{encode, Record, RecordType};
use bitstream::player::{delivery_frames, frame};

#[test]
fn frame_layout() {
    let f = frame(2, 1, 0x01020304, 3, b"xyz");
    assert_eq!(&f[..], &[2, 1, 1, 2, 3, 4, 3, b'x', b'y', b'z']);
}

#[test]
fn delivery_is_framed_per_record() {
    let l0 = encode(&[
        Record::new(RecordType::Init, vec![7]),
        Record::new(RecordType::Meta, b"{}".to_vec()),
        Record::new(RecordType::Media, vec![8, 9]),
    ]);
    let l1 = encode(&[Record::new(RecordType::Media, vec![5])]);
    let frames = delivery_frames(4, 2, &vec![l0, vec![0xFF, 0, 0], l1]);
    assert_eq!(frames.len(), 3);
    assert_eq!(frames[0], vec![1, 0, 0, 0, 0, 4, 2, 7]);
    assert_eq!(frames[1], vec![2, 0, 0, 0, 0, 4, 2, 8, 9]);
    assert_eq!(frames[2], vec![2, 2, 0, 0, 0, 4, 2, 5]);
}
