use coalescing_buffer::simple::Buffer;

#[test]
fn new_buffer_is_empty() {
    let mut buffer: Buffer<i32> = Buffer::new();
    assert_eq!(None, buffer.poll());
}

#[test]
fn send_then_poll_returns_the_value_once() {
    let mut buffer = Buffer::new();
    buffer.send(7);
    assert_eq!(Some(7), buffer.poll());
    assert_eq!(None, buffer.poll());
}

#[test]
fn consecutive_sends_coalesce_to_the_latest_value() {
    let mut buffer = Buffer::new();
    buffer.send(1);
    buffer.send(2);
    buffer.send(3);
    assert_eq!(Some(3), buffer.poll());
    assert_eq!(None, buffer.poll());
}

#[test]
fn buffer_can_be_reused_after_polling() {
    let mut buffer = Buffer::new();
    buffer.send(String::from("first"));
    assert_eq!(Some(String::from("first")), buffer.poll());
    buffer.send(String::from("second"));
    buffer.send(String::from("third"));
    assert_eq!(Some(String::from("third")), buffer.poll());
    assert_eq!(None, buffer.poll());
}
