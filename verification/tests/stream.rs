use sps30rs::shdlc::{decode_miso_frame, MisoFrame};
use sps30rs::stream::FrameBuffer;

fn drain(fb: &mut FrameBuffer) -> Vec<Vec<u8>> {
    let mut frames = Vec::new();
    while let Some(frame) = fb.try_extract_frame() {
        frames.push(frame);
    }
    frames
}

#[test]
fn empty_buffer_has_no_frame() {
    let mut fb = FrameBuffer::new();
    assert_eq!(fb.try_extract_frame(), None);
    assert_eq!(fb.len(), 0);
}

#[test]
fn extract_waits_for_complete_frame() {
    let mut fb = FrameBuffer::new();
    fb.feed(&[0x7E, 1, 2]);
    assert_eq!(fb.try_extract_frame(), None);
    assert_eq!(fb.contents(), vec![0x7E, 1, 2]);
    fb.feed(&[3, 0x7E]);
    assert_eq!(fb.try_extract_frame(), Some(vec![0x7E, 1, 2, 3, 0x7E]));
    assert_eq!(fb.contents(), Vec::<u8>::new());
}

#[test]
fn resynchronization() {
    // Garbage before the opening delimiter is discarded; the valid frame
    // is still recovered, and bytes after it stay buffered.
    let mut fb = FrameBuffer::new();
    fb.feed(&[0xAA, 0xBB, 0xCC]);
    fb.feed(&[0x7E, 1, 2, 3, 0x7E]);
    fb.feed(&[5, 6]);
    assert_eq!(fb.try_extract_frame(), Some(vec![0x7E, 1, 2, 3, 0x7E]));
    assert_eq!(fb.contents(), vec![5, 6]);
    assert_eq!(fb.try_extract_frame(), None);
    assert_eq!(fb.contents(), vec![5, 6]);
}

#[test]
fn chunking_independence() {
    // Feeding one byte at a time, draining after every byte, surfaces the
    // same frames and leaves the same bytes buffered as feeding the whole
    // stream at once and draining at the end.
    let stream: Vec<u8> = vec![
        0xAA, 0xBB, // garbage
        0x7E, 1, 2, 3, 0x7E, // first frame
        0x7E, 9, 9, 0x7E, // second frame
        0xCC, 0x7E, 5, // an incomplete trailer
    ];

    let mut all_at_once = FrameBuffer::new();
    all_at_once.feed(&stream);
    let frames_bulk = drain(&mut all_at_once);

    let mut byte_at_a_time = FrameBuffer::new();
    let mut frames_single = Vec::new();
    for byte in &stream {
        byte_at_a_time.feed(&[*byte]);
        frames_single.append(&mut drain(&mut byte_at_a_time));
    }

    assert_eq!(frames_bulk, frames_single);
    assert_eq!(
        frames_bulk,
        vec![vec![0x7E, 1, 2, 3, 0x7E], vec![0x7E, 9, 9, 0x7E]]
    );
    assert_eq!(all_at_once.contents(), byte_at_a_time.contents());
    assert_eq!(all_at_once.contents(), vec![0xCC, 0x7E, 5]);
}

#[test]
fn frame_spanning_many_reads() {
    let mut fb = FrameBuffer::new();
    fb.feed(&[0x7E]);
    assert_eq!(fb.try_extract_frame(), None);
    fb.feed(&[0, 0]);
    assert_eq!(fb.try_extract_frame(), None);
    fb.feed(&[0, 1, 0xFF, 0xFF]);
    assert_eq!(fb.try_extract_frame(), None);
    fb.feed(&[0x7E]);
    assert_eq!(
        fb.try_extract_frame(),
        Some(vec![0x7E, 0, 0, 0, 1, 0xFF, 0xFF, 0x7E])
    );
}

#[test]
fn extract_then_decode() {
    // A complete inbound frame recovered from a noisy stream decodes to
    // its structured form.
    let mut fb = FrameBuffer::new();
    fb.feed(&[0x42]);
    fb.feed(&[0x7E, 1, 2, 3, 2, 0xFF, 0x7D, 0x5D, 0, 0x7E]);
    let raw = fb.try_extract_frame().unwrap();
    let frame = decode_miso_frame(&raw);
    assert_eq!(
        frame,
        Ok(MisoFrame {
            adr: 1,
            cmd: 2,
            state: 3,
            data: vec![0xFF, 0x7D],
        })
    );
}
