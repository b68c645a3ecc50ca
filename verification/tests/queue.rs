use atomic_bomb_engine::queue::FixedSizeQueue;

#[test]
fn queue_drops_its_first_item_when_full() {
    let mut queue: FixedSizeQueue<u32> = FixedSizeQueue::new(3);
    assert!(queue.is_empty());
    for item in 1..=5u32 {
        queue.push(item);
    }
    assert_eq!(queue.to_vec(), vec![3, 4, 5]);
    assert_eq!(queue.len(), 3);
    assert_eq!(queue.pop(), Some(3));
    assert_eq!(queue.to_vec(), vec![4, 5]);
}

#[test]
fn queue_without_room_keeps_everything() {
    let mut queue: FixedSizeQueue<u8> = FixedSizeQueue::new(0);
    assert_eq!(queue.pop(), None);
    queue.push(1);
    queue.push(2);
    assert_eq!(queue.to_vec(), vec![1, 2]);
}
