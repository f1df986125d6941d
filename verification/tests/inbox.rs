use nakamoto_p2p::inbox::{Inbox, Scheduled};
use nakamoto_p2p::net::SocketAddr;
use nakamoto_p2p::protocol::Input;

fn tick(node: u128) -> Scheduled {
    Scheduled { node, remote: SocketAddr::unspecified(), input: Input::Tick }
}

fn message(node: u128, byte: u8) -> Scheduled {
    let from = SocketAddr::from_octets(10, 0, 0, 1, 8333);
    Scheduled { node, remote: from, input: Input::Received(from, vec![byte]) }
}

#[test]
fn new_inbox_is_empty() {
    let inbox = Inbox::new();
    assert!(inbox.is_empty());
    assert_eq!(inbox.len(), 0);
    assert!(inbox.next().is_none());
    assert!(inbox.only_ticks());
}

#[test]
fn insert_at_a_free_time_keeps_the_time() {
    let mut inbox = Inbox::new();
    inbox.insert(40, tick(1));
    assert!(inbox.contains(40));
    assert!(!inbox.contains(41));
    assert_eq!(inbox.len(), 1);
}

#[test]
fn colliding_inserts_take_the_next_free_times_in_order() {
    let mut inbox = Inbox::new();
    for byte in 0..5u8 {
        inbox.insert(100, message(7, byte));
    }
    assert_eq!(inbox.len(), 5);
    for (i, byte) in (0..5u8).enumerate() {
        let (time, entry) = inbox.next().unwrap();
        assert_eq!(time, 100 + i as u128);
        assert_eq!(entry, &message(7, byte));
        assert_eq!(inbox.remove(time), Some(message(7, byte)));
    }
    assert!(inbox.is_empty());
}

#[test]
fn a_collision_skips_every_taken_time() {
    let mut inbox = Inbox::new();
    inbox.insert(10, tick(1));
    inbox.insert(11, tick(2));
    inbox.insert(13, tick(3));
    inbox.insert(10, tick(4));
    assert_eq!(inbox.remove(12), Some(tick(4)));
    inbox.insert(10, tick(5));
    inbox.insert(10, tick(6));
    assert_eq!(inbox.remove(12), Some(tick(5)));
    assert_eq!(inbox.remove(14), Some(tick(6)));
    assert_eq!(inbox.remove(10), Some(tick(1)));
    assert_eq!(inbox.remove(11), Some(tick(2)));
    assert_eq!(inbox.remove(13), Some(tick(3)));
    assert!(inbox.is_empty());
}

#[test]
fn a_later_insert_never_takes_the_place_of_an_earlier_one() {
    let mut inbox = Inbox::new();
    inbox.insert(20, message(1, 1));
    inbox.insert(20, message(1, 2));
    inbox.insert(19, message(1, 3));
    assert_eq!(inbox.next(), Some((19, &message(1, 3))));
    assert_eq!(inbox.remove(20), Some(message(1, 1)));
    assert_eq!(inbox.remove(21), Some(message(1, 2)));
}

#[test]
fn next_is_the_earliest_and_stays() {
    let mut inbox = Inbox::new();
    inbox.insert(30, tick(3));
    inbox.insert(5, tick(1));
    inbox.insert(17, tick(2));
    assert_eq!(inbox.next(), Some((5, &tick(1))));
    assert_eq!(inbox.next(), Some((5, &tick(1))));
    assert_eq!(inbox.len(), 3);
}

#[test]
fn remove_of_a_free_time_changes_nothing() {
    let mut inbox = Inbox::new();
    inbox.insert(1, tick(1));
    assert_eq!(inbox.remove(2), None);
    assert_eq!(inbox.len(), 1);
}

#[test]
fn only_ticks_sees_every_entry() {
    let mut inbox = Inbox::new();
    inbox.insert(1, tick(1));
    inbox.insert(2, tick(2));
    assert!(inbox.only_ticks());
    inbox.insert(3, message(1, 0));
    assert!(!inbox.only_ticks());
    inbox.remove(3);
    assert!(inbox.only_ticks());
}

#[test]
fn insert_at_the_last_instant_of_the_clock() {
    let mut inbox = Inbox::new();
    inbox.insert(u128::MAX, tick(1));
    assert_eq!(inbox.next(), Some((u128::MAX, &tick(1))));
}

#[test]
fn iter_gives_every_entry_in_the_order_of_the_times() {
    let mut inbox = Inbox::new();
    assert!(inbox.iter().is_empty());
    inbox.insert(30, tick(3));
    inbox.insert(5, message(1, 1));
    inbox.insert(17, tick(2));
    inbox.insert(5, message(1, 2));
    assert_eq!(inbox.iter(), vec![&message(1, 1), &message(1, 2), &tick(2), &tick(3)]);
    assert_eq!(inbox.len(), 4);
}
