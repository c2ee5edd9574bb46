use chat::connection::{Connection, EventSet, IoOutcome, Registration, WriteStep};
use chat::frame::DecodeError;
use chat::registry::Registry;

fn set(readable: bool, writable: bool, error: bool, hup: bool) -> EventSet {
    EventSet { readable, writable, error, hup }
}

/// Writes out everything that is queued, `step` bytes at a time at most.
fn drain(conn: &mut Connection, step: usize) -> Vec<u8> {
    let mut wire = Vec::new();
    loop {
        let offered = match conn.next_write() {
            Some(bytes) => bytes.to_vec(),
            None => break,
        };
        let n = offered.len().min(step);
        wire.extend(&offered[..n]);
        conn.writable(IoOutcome::Moved(n));
    }
    wire
}

#[test]
fn event_sets_combine_like_sets() {
    assert_eq!(EventSet::none(), set(false, false, false, false));
    assert_eq!(EventSet::readable(), set(true, false, false, false));
    assert_eq!(EventSet::writable(), set(false, true, false, false));
    assert_eq!(EventSet::error(), set(false, false, true, false));
    assert_eq!(EventSet::hup(), set(false, false, false, true));
    let mut s = EventSet::hup();
    s.insert(EventSet::readable());
    assert_eq!(s, set(true, false, false, true));
    assert!(s.is_readable() && s.is_hup() && !s.is_writable() && !s.is_error());
    assert!(s.contains(EventSet::hup()));
    assert!(s.contains(EventSet::none()));
    assert!(!s.contains(set(true, true, false, false)));
    s.insert(set(false, true, true, false));
    assert_eq!(s, set(true, true, true, true));
    s.remove(set(true, false, true, false));
    assert_eq!(s, set(false, true, false, true));
    s.remove(EventSet::readable());
    assert_eq!(s, set(false, true, false, true));
}

#[test]
fn new_connection_waits_for_hang_up_and_reading() {
    let mut conn = Connection::new(42);
    assert_eq!(conn.token(), 42);
    let reg = Registration {
        token: 42,
        interest: set(true, false, false, true),
        edge: true,
        oneshot: true,
    };
    assert_eq!(conn.reregister(), reg);
    assert_eq!(conn.next_write(), None);
    // nothing received yet: the decoder is at a header
    assert_eq!(conn.readable(&[]), Ok(vec![]));
    assert_eq!(conn.register(), reg);
    assert_eq!(conn.reregister(), reg);
    // a connection that was never registered decodes from the first byte
    let mut fresh = Connection::new(43);
    assert_eq!(fresh.readable(&[1, 0, 0, 0, 9]), Ok(vec![vec![9]]));
}

#[test]
fn write_interest_follows_the_queue() {
    let mut conn = Connection::new(7);
    conn.register();
    assert!(!conn.reregister().interest.writable);
    conn.send_message(vec![1, 2, 3]);
    assert!(conn.reregister().interest.writable);
    conn.send_message(vec![4]);
    assert!(conn.reregister().interest.writable);
    // partial write: still queued
    assert_eq!(conn.writable(IoOutcome::Moved(2)), WriteStep::Rearm);
    assert!(conn.reregister().interest.writable);
    // first buffer done, second waits
    assert_eq!(conn.writable(IoOutcome::Moved(1)), WriteStep::Continue);
    assert!(conn.reregister().interest.writable);
    // queue empty
    assert_eq!(conn.writable(IoOutcome::Moved(1)), WriteStep::Rearm);
    assert_eq!(
        conn.reregister().interest,
        set(true, false, false, true)
    );
    assert_eq!(conn.next_write(), None);
}

#[test]
fn queue_is_first_in_first_out() {
    let mut conn = Connection::new(7);
    conn.send_message(vec![1, 2, 3]);
    conn.send_message(vec![]);
    conn.send_message(vec![4, 5]);
    conn.send_message(vec![6]);
    assert_eq!(conn.next_write(), Some(&[1u8, 2, 3][..]));
    for step in 1..=4 {
        let mut conn = Connection::new(7);
        conn.send_message(vec![1, 2, 3]);
        conn.send_message(vec![]);
        conn.send_message(vec![4, 5]);
        conn.send_message(vec![6]);
        assert_eq!(drain(&mut conn, step), vec![1, 2, 3, 4, 5, 6]);
        assert!(!conn.reregister().interest.writable);
    }
}

#[test]
fn partial_write_leaves_the_rest_at_the_head() {
    let mut conn = Connection::new(1);
    conn.send_message(vec![10, 11, 12, 13]);
    conn.send_message(vec![20]);
    assert_eq!(conn.writable(IoOutcome::Moved(3)), WriteStep::Rearm);
    assert_eq!(conn.next_write(), Some(&[13u8][..]));
    assert_eq!(conn.writable(IoOutcome::WouldBlock), WriteStep::Rearm);
    assert_eq!(conn.next_write(), Some(&[13u8][..]));
    assert_eq!(conn.writable(IoOutcome::Moved(0)), WriteStep::Rearm);
    assert_eq!(conn.next_write(), Some(&[13u8][..]));
    assert_eq!(conn.writable(IoOutcome::Moved(1)), WriteStep::Continue);
    assert_eq!(conn.next_write(), Some(&[20u8][..]));
}

#[test]
fn write_failure_asks_for_reset() {
    let mut conn = Connection::new(1);
    conn.send_message(vec![1, 2]);
    assert_eq!(conn.writable(IoOutcome::Failed), WriteStep::Reset);
    // more than was offered cannot have been written
    assert_eq!(conn.writable(IoOutcome::Moved(3)), WriteStep::Reset);
    assert_eq!(conn.next_write(), Some(&[1u8, 2][..]));
    // nothing queued, nothing to do
    let mut idle = Connection::new(2);
    assert_eq!(idle.writable(IoOutcome::Moved(5)), WriteStep::Rearm);
    assert_eq!(idle.writable(IoOutcome::WouldBlock), WriteStep::Rearm);
}

#[test]
fn connection_decodes_what_it_reads() {
    let mut conn = Connection::new(1);
    conn.register();
    assert_eq!(conn.readable(&[2, 0, 0]), Ok(vec![]));
    assert_eq!(conn.readable(&[0, 7]), Ok(vec![]));
    assert_eq!(conn.readable(&[8, 1, 0, 0, 0, 9, 0]), Ok(vec![vec![7, 8], vec![9]]));
    assert_eq!(conn.readable(&[0, 0, 0]), Ok(vec![vec![]]));
    assert_eq!(conn.readable(&[1, 0, 0, 0xff]), Err(DecodeError::FrameTooLarge));
    // reading does not touch the interest
    assert_eq!(conn.reregister().interest, set(true, false, false, true));
}

#[test]
fn read_goes_on_only_after_a_full_buffer() {
    assert!(Connection::read_again(2048, 2048));
    assert!(!Connection::read_again(2047, 2048));
    assert!(!Connection::read_again(1, 2048));
    assert!(!Connection::read_again(0, 2048));
    assert!(!Connection::read_again(0, 0));
    assert!(Connection::read_again(4096, 2048));
}

#[test]
fn registry_hands_out_free_tokens_of_its_range() {
    let mut reg = Registry::new(200, 3);
    assert_eq!(reg.first(), 200);
    assert_eq!(reg.capacity(), 3);
    assert_eq!(reg.count(), 0);
    let mut tokens = Vec::new();
    for _ in 0..3 {
        let t = reg.insert().unwrap();
        assert!((200..203).contains(&t));
        assert!(!tokens.contains(&t));
        assert_eq!(reg.get(t).unwrap().token(), t);
        assert_eq!(reg.get(t).unwrap().reregister().interest, set(true, false, false, true));
        tokens.push(t);
    }
    assert_eq!(reg.count(), 3);
    assert_eq!(reg.insert(), None);
    assert_eq!(reg.count(), 3);
    for t in &tokens {
        assert!(reg.contains(*t));
    }
}

#[test]
fn registry_remove_is_idempotent_and_frees_the_slot() {
    let mut reg = Registry::new(100, 2);
    let a = reg.insert().unwrap();
    let b = reg.insert().unwrap();
    reg.get_mut(b).unwrap().send_message(vec![1, 2, 3]);
    assert_eq!(reg.insert(), None);
    assert_eq!(reg.remove(a).map(|c| c.token()), Some(a));
    assert!(!reg.contains(a));
    assert_eq!(reg.count(), 1);
    assert!(reg.remove(a).is_none());
    assert!(reg.remove(a).is_none());
    assert_eq!(reg.count(), 1);
    // the other connection is untouched
    assert_eq!(reg.get(b).unwrap().next_write(), Some(&[1u8, 2, 3][..]));
    // the slot is free again
    let c = reg.insert().unwrap();
    assert_eq!(c, a);
    assert_eq!(reg.get(c).unwrap().next_write(), None);
    assert_eq!(reg.insert(), None);
}

#[test]
fn registry_ignores_tokens_outside_its_range() {
    let mut reg = Registry::new(100, 2);
    let a = reg.insert().unwrap();
    for t in [0usize, 1, 99, 102, 103, 1000, usize::MAX] {
        assert!(!reg.contains(t));
        assert!(reg.get(t).is_none());
        assert!(reg.get_mut(t).is_none());
        assert!(reg.remove(t).is_none());
    }
    assert_eq!(reg.count(), 1);
    assert!(reg.contains(a));
}
