use prettyplease::ring::RingBuffer;

#[test]
fn indices_stay_with_their_entries() {
    let mut ring: RingBuffer<&str> = RingBuffer::new();
    assert!(ring.is_empty());
    assert_eq!(ring.push("a"), 0);
    assert_eq!(ring.push("b"), 1);
    assert_eq!(ring.push("c"), 2);
    assert_eq!(ring.len(), 3);
    assert_eq!(ring.index_of_first(), 0);
    assert_eq!(ring.pop_first(), "a");
    assert_eq!(ring.index_of_first(), 1);
    assert_eq!(*ring.index(1), "b");
    assert_eq!(*ring.index(2), "c");
    assert_eq!(ring.push("d"), 3);
    assert_eq!(*ring.first(), "b");
    assert_eq!(*ring.last(), "d");
    assert_eq!(*ring.second_last(), "c");
}

#[test]
fn entries_can_be_changed_in_place() {
    let mut ring: RingBuffer<u32> = RingBuffer::new();
    ring.push(1);
    ring.push(2);
    ring.push(3);
    *ring.first_mut() = 10;
    *ring.last_mut() = 30;
    *ring.index_mut(1) = 20;
    assert_eq!(ring.pop_first(), 10);
    assert_eq!(*ring.index(1), 20);
    ring.pop_last();
    assert_eq!(ring.len(), 1);
    assert_eq!(*ring.last(), 20);
}

#[test]
fn clear_keeps_the_index_of_the_front() {
    let mut ring: RingBuffer<u8> = RingBuffer::new();
    ring.push(1);
    ring.push(2);
    ring.pop_first();
    ring.clear();
    assert!(ring.is_empty());
    assert_eq!(ring.index_of_first(), 1);
    assert_eq!(ring.push(9), 1);
    assert_eq!(*ring.index(1), 9);
}
