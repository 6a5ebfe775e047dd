use stardust::pool::FreeStack;

#[test]
fn fresh_stack_hands_out_highest_index_first() {
    let mut s = FreeStack::new(3);
    assert_eq!(s.free_count(), 3);
    assert_eq!(s.acquire(), Some(3));
    assert_eq!(s.acquire(), Some(2));
    assert_eq!(s.free_count(), 1);
    assert_eq!(s.acquire(), Some(1));
    assert_eq!(s.free_count(), 0);
}

#[test]
fn exhausted_stack_gives_nothing_and_stays_empty() {
    let mut s = FreeStack::new(1);
    assert_eq!(s.acquire(), Some(1));
    assert_eq!(s.acquire(), None);
    assert_eq!(s.acquire(), None);
    assert_eq!(s.free_count(), 0);
}

#[test]
fn released_index_is_the_next_one_acquired() {
    let mut s = FreeStack::new(4);
    assert_eq!(s.acquire(), Some(4));
    assert_eq!(s.acquire(), Some(3));
    s.release(4);
    assert_eq!(s.free_count(), 3);
    assert_eq!(s.acquire(), Some(4));
    assert_eq!(s.acquire(), Some(2));
    s.release(3);
    s.release(2);
    s.release(4);
    assert_eq!(s.free_count(), 4);
    assert_eq!(s.acquire(), Some(4));
    assert_eq!(s.acquire(), Some(2));
    assert_eq!(s.acquire(), Some(3));
    assert_eq!(s.acquire(), Some(1));
    assert_eq!(s.acquire(), None);
}

#[test]
fn pool_of_no_nodes_is_exhausted_from_the_start() {
    let mut s = FreeStack::new(0);
    assert_eq!(s.free_count(), 0);
    assert_eq!(s.acquire(), None);
}
