use fluke::writer::{OutFrame, WriteQueue};

fn f(id: u32, tag: u8) -> OutFrame {
    OutFrame { stream_id: id, bytes: vec![tag] }
}

fn drain(q: &mut WriteQueue) -> Vec<(u32, u8)> {
    let mut out = Vec::new();
    while let Some(x) = q.pop() {
        out.push((x.stream_id, x.bytes[0]));
    }
    out
}

#[test]
fn control_frames_go_first() {
    let mut q = WriteQueue::new();
    q.push_data(f(1, 1));
    q.push_control(f(0, 10));
    q.push_data(f(3, 2));
    q.push_control(f(0, 11));
    assert_eq!(drain(&mut q), vec![(0, 10), (0, 11), (1, 1), (3, 2)]);
    assert!(q.pop().is_none());
}

#[test]
fn a_reset_drops_the_streams_queued_frames() {
    let mut q = WriteQueue::new();
    q.push_data(f(1, 1));
    q.push_data(f(3, 2));
    q.push_data(f(1, 3));
    q.push_control(f(1, 9));
    q.drop_stream(1);
    assert_eq!(drain(&mut q), vec![(1, 9), (3, 2)]);
}
