use relay_hub::protocol::{DeliveryUnit, Frame};
use relay_hub::sink::Sink;

fn unit(name: &str, payload: &[u8]) -> DeliveryUnit {
    DeliveryUnit::new(name.to_string(), payload.to_vec())
}

#[test]
fn new_sink_is_empty() {
    let mut sink = Sink::new();
    assert_eq!(sink.len(), 0);
    assert_eq!(sink.dequeue(), None);
    assert!(sink.drain().is_empty());
}

#[test]
fn units_leave_in_the_order_they_came() {
    let mut sink = Sink::new();
    sink.enqueue(unit("1", &[1]));
    sink.enqueue(unit("2", &[2]));
    sink.enqueue(unit("3", &[3]));
    assert_eq!(sink.len(), 3);
    assert_eq!(sink.dequeue(), Some(unit("1", &[1])));
    sink.enqueue(unit("4", &[4]));
    assert_eq!(sink.dequeue(), Some(unit("2", &[2])));
    assert_eq!(sink.dequeue(), Some(unit("3", &[3])));
    assert_eq!(sink.dequeue(), Some(unit("4", &[4])));
    assert_eq!(sink.dequeue(), None);
    assert_eq!(sink.len(), 0);
}

#[test]
fn drain_writes_every_pair_in_order_and_empties_the_queue() {
    let mut sink = Sink::new();
    sink.enqueue(unit("a.txt", b"alpha"));
    sink.enqueue(unit("b.txt", b"beta"));
    let frames = sink.drain();
    assert_eq!(
        frames,
        vec![
            Frame::Text("a.txt".to_string()),
            Frame::Binary(b"alpha".to_vec()),
            Frame::Text("b.txt".to_string()),
            Frame::Binary(b"beta".to_vec()),
        ]
    );
    assert_eq!(sink.len(), 0);
    assert!(sink.drain().is_empty());
}

#[test]
fn same_name_twice_keeps_each_content_with_its_own_frame() {
    let mut sink = Sink::new();
    sink.enqueue(unit("same", &[1]));
    sink.enqueue(unit("same", &[2]));
    let frames = sink.drain();
    assert_eq!(frames[1], Frame::Binary(vec![1]));
    assert_eq!(frames[3], Frame::Binary(vec![2]));
}
