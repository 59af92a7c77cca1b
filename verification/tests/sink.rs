use asbs::binary::Sink;

#[test]
fn a_new_sink_is_empty() {
    let sink = Sink::new();
    assert_eq!(0, sink.len());
    assert!(sink.as_slice().is_empty());
}

#[test]
fn a_sink_keeps_what_it_takes() {
    let mut sink = Sink::new();
    assert!(sink.put(3));
    assert!(sink.put(1));
    assert!(sink.put(4));
    assert_eq!(3, sink.len());
    assert_eq!([3, 1, 4], *sink.as_slice());
    assert_eq!(vec![3, 1, 4], sink.into_bytes());
}

#[test]
fn a_sink_refuses_bytes_beyond_its_limit() {
    let mut sink = Sink::with_limit(2);
    assert!(sink.put(7));
    assert!(sink.put(8));
    assert!(!sink.put(9));
    assert!(!sink.put(10));
    assert_eq!([7, 8], *sink.as_slice());
}

#[test]
fn a_sink_without_room_refuses_the_first_byte() {
    let mut sink = Sink::with_limit(0);
    assert!(!sink.put(1));
    assert_eq!(0, sink.len());
}
