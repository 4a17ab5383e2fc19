use coalescing_buffer::ring::CoalescingRingBuffer;

#[derive(Debug, Clone, PartialEq)]
struct MarketSnapshot {
    pub instrument_id: usize,
    pub bid: isize,
    pub ask: isize,
}

impl MarketSnapshot {
    pub fn new(instrument_id: usize, best_bid: isize, best_ask: isize) -> Self {
        MarketSnapshot {
            instrument_id,
            bid: best_bid,
            ask: best_ask,
        }
    }
}

fn vod_snapshot_1() -> MarketSnapshot {
    MarketSnapshot::new(1, 3, 4)
}

fn vod_snapshot_2() -> MarketSnapshot {
    MarketSnapshot::new(1, 5, 6)
}

fn bp_snapshot() -> MarketSnapshot {
    MarketSnapshot::new(2, 7, 8)
}

fn create_buffer(capacity: usize) -> CoalescingRingBuffer<usize, MarketSnapshot> {
    CoalescingRingBuffer::new(capacity)
}

#[test]
fn should_correctly_increase_the_capacity_to_the_next_higher_power_of_two() {
    check_capacity(1024, &mut create_buffer(1023));
    check_capacity(1024, &mut create_buffer(1024));
    check_capacity(2048, &mut create_buffer(1025));
}

fn check_capacity(capacity: usize, buffer: &mut CoalescingRingBuffer<usize, MarketSnapshot>) {
    assert_eq!(capacity, buffer.capacity());
    for i in 0..capacity {
        let success = buffer.offer(0, MarketSnapshot::new(i, i as isize, i as isize));
        assert!(success);
    }
}

#[test]
fn should_correctly_report_size() {
    let mut buffer = create_buffer(2);
    assert_eq!(0, buffer.size());
    assert!(buffer.is_empty());
    assert!(!buffer.is_full());

    buffer.offer_value_only(bp_snapshot());
    assert_eq!(1, buffer.size());
    assert!(!buffer.is_empty());
    assert!(!buffer.is_full());

    buffer.offer(vod_snapshot_1().instrument_id, vod_snapshot_1());
    assert_eq!(2, buffer.size());
    assert!(!buffer.is_empty());
    assert!(buffer.is_full());

    let _ = buffer.poll(1);
    assert_eq!(1, buffer.size());
    assert!(!buffer.is_empty());
    assert!(!buffer.is_full());

    let _ = buffer.poll(1);
    assert_eq!(0, buffer.size());
    assert!(buffer.is_empty());
    assert!(!buffer.is_full());
}

#[test]
fn should_reject_new_keys_when_full() {
    let mut buffer = create_buffer(2);
    buffer.offer(1, bp_snapshot());
    buffer.offer(2, vod_snapshot_1());

    assert!(!buffer.offer(4, vod_snapshot_2()));
    assert_eq!(2, buffer.size());
}

#[test]
fn should_accept_existing_keys_when_full() {
    let mut buffer = create_buffer(2);
    buffer.offer(1, bp_snapshot());
    buffer.offer(2, vod_snapshot_1());

    assert!(buffer.offer(2, vod_snapshot_2()));
    assert_eq!(2, buffer.size());
}

#[test]
fn should_return_single_value() {
    let mut buffer = create_buffer(2);

    add_key_value(&mut buffer, bp_snapshot());
    assert_contains(&mut buffer, vec![bp_snapshot()]);
}

#[test]
fn should_return_two_values_with_different_keys() {
    let mut buffer = create_buffer(2);
    add_key_value(&mut buffer, bp_snapshot());
    add_key_value(&mut buffer, vod_snapshot_1());

    assert_contains(&mut buffer, vec![bp_snapshot(), vod_snapshot_1()]);
}

#[test]
fn should_update_values_with_equal_keys() {
    let mut buffer = create_buffer(2);
    add_key_value(&mut buffer, vod_snapshot_1());
    add_key_value(&mut buffer, vod_snapshot_2());
    assert_contains(&mut buffer, vec![vod_snapshot_2()]);
}

#[test]
fn should_not_update_values_without_keys() {
    let mut buffer = create_buffer(2);
    add_value(&mut buffer, vod_snapshot_1());
    add_value(&mut buffer, vod_snapshot_2());
    assert_contains(&mut buffer, vec![vod_snapshot_1(), vod_snapshot_2()]);
}

#[test]
fn should_update_values_with_equal_keys_and_preserve_ordering() {
    let mut buffer = create_buffer(2);
    add_key_value(&mut buffer, vod_snapshot_1());
    add_key_value(&mut buffer, bp_snapshot());
    add_key_value(&mut buffer, vod_snapshot_2());

    assert_contains(&mut buffer, vec![vod_snapshot_2(), bp_snapshot()]);
}

#[test]
fn should_not_update_values_if_read_occurs_between_values() {
    let mut buffer = create_buffer(2);

    add_key_value(&mut buffer, vod_snapshot_1());
    assert_contains(&mut buffer, vec![vod_snapshot_1()]);

    add_key_value(&mut buffer, vod_snapshot_2());
    assert_contains(&mut buffer, vec![vod_snapshot_2()]);
}

#[test]
fn should_return_only_the_maximum_number_of_requested_items() {
    let mut buffer = create_buffer(10);
    add_value(&mut buffer, bp_snapshot());
    add_value(&mut buffer, vod_snapshot_1());
    add_value(&mut buffer, vod_snapshot_2());

    let snapshots = buffer.poll(2);
    assert_eq!(2, snapshots.len());
    assert_eq!(&bp_snapshot(), snapshots.get(0).unwrap());
    assert_eq!(&vod_snapshot_1(), snapshots.get(1).unwrap());

    let snapshots = buffer.poll(1);
    assert_eq!(1, snapshots.len());
    assert_eq!(&vod_snapshot_2(), snapshots.get(0).unwrap());

    assert_is_empty(&mut buffer);
}

#[test]
fn should_return_all_items_without_request_limit() {
    let mut buffer = create_buffer(10);
    add_value(&mut buffer, bp_snapshot());
    add_key_value(&mut buffer, vod_snapshot_1());
    add_key_value(&mut buffer, vod_snapshot_2());

    let snapshots = buffer.poll_all();
    assert_eq!(2, snapshots.len());

    assert_eq!(&bp_snapshot(), snapshots.get(0).unwrap());
    assert_eq!(&vod_snapshot_2(), snapshots.get(1).unwrap());

    assert_is_empty(&mut buffer);
}

#[test]
fn should_count_rejections() {
    let mut buffer = create_buffer(2);
    assert_eq!(0, buffer.rejection_count());

    buffer.offer_value_only(bp_snapshot());
    assert_eq!(0, buffer.rejection_count());

    buffer.offer(1, vod_snapshot_1());
    assert_eq!(0, buffer.rejection_count());

    buffer.offer(1, vod_snapshot_2());
    assert_eq!(0, buffer.rejection_count());

    buffer.offer_value_only(bp_snapshot());
    assert_eq!(1, buffer.rejection_count());

    buffer.offer(2, bp_snapshot());
    assert_eq!(2, buffer.rejection_count());
}

#[test]
fn should_use_object_equality_to_compare_keys() {
    let mut buffer: CoalescingRingBuffer<String, MarketSnapshot> = CoalescingRingBuffer::new(2);

    buffer.offer(String::from("boo"), bp_snapshot());
    buffer.offer(String::from("boo"), bp_snapshot());

    assert_eq!(1, buffer.size());
}

fn assert_is_empty(buffer: &mut CoalescingRingBuffer<usize, MarketSnapshot>) {
    assert_contains(buffer, vec![]);
}

fn add_key_value(buffer: &mut CoalescingRingBuffer<usize, MarketSnapshot>, snapshot: MarketSnapshot) {
    assert!(buffer.offer(snapshot.instrument_id, snapshot));
}

fn assert_contains(
    buffer: &mut CoalescingRingBuffer<usize, MarketSnapshot>,
    expected: Vec<MarketSnapshot>,
) {
    let actual = buffer.poll_all();
    assert_eq!(actual, expected);
}

fn add_value(buffer: &mut CoalescingRingBuffer<usize, MarketSnapshot>, snapshot: MarketSnapshot) {
    assert!(buffer.offer_value_only(snapshot));
}
