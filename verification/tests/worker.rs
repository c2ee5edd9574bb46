use chat::connection::{EventSet, IoOutcome, Registration, WriteStep};
use chat::post::Post;
use chat::shell::Task;
use chat::worker::{Action, Plan, ReadStep, Worker};
use chat::Message;

fn post(author: &str, lines: &[&str]) -> Post {
    Post::new(author.to_string(), lines.iter().map(|l| l.to_string()).collect())
}

fn connect(worker: &mut Worker) -> usize {
    match worker.accept() {
        Action::Register(token) => token,
        other => panic!("no slot: {:?}", other),
    }
}

/// Writes out everything queued for `token`.
fn drain(worker: &mut Worker, token: usize) -> Vec<u8> {
    let mut wire = Vec::new();
    loop {
        let offered = match worker.next_write(token) {
            Some(bytes) => bytes.to_vec(),
            None => break,
        };
        wire.extend(&offered);
        worker.writable(token, IoOutcome::Moved(offered.len()));
    }
    wire
}

fn hup_and_readable() -> EventSet {
    let mut s = EventSet::hup();
    s.insert(EventSet::readable());
    s
}

#[test]
fn worker_tokens_start_at_id_times_slots() {
    let mut w = Worker::new(3, 10);
    assert_eq!(w.id(), 3);
    assert_eq!(w.count(), 0);
    let mut seen = Vec::new();
    for _ in 0..10 {
        let t = connect(&mut w);
        assert!((30..40).contains(&t));
        assert_eq!(t / 10, 3);
        assert!(!seen.contains(&t));
        seen.push(t);
    }
    assert_eq!(w.count(), 10);
}

#[test]
fn owner_is_told_from_the_token() {
    assert_eq!(Worker::owner_of(0, 100), Some(0));
    assert_eq!(Worker::owner_of(99, 100), Some(0));
    assert_eq!(Worker::owner_of(100, 100), Some(1));
    assert_eq!(Worker::owner_of(250, 100), Some(2));
    assert_eq!(Worker::owner_of(7, 1), Some(7));
    assert_eq!(Worker::owner_of(7, 0), None);
    for id in 1..5usize {
        let mut w = Worker::new(id, 7);
        for _ in 0..7 {
            let t = connect(&mut w);
            assert_eq!(Worker::owner_of(t, 7), Some(id));
        }
    }
}

#[test]
fn accepted_connection_is_armed_for_reading_and_hang_up() {
    let mut w = Worker::new(1, 4);
    let t = connect(&mut w);
    assert!(w.contains(t));
    assert_eq!(
        w.registration(t),
        Some(Registration { token: t, interest: hup_and_readable(), edge: true, oneshot: true })
    );
    assert_eq!(w.registration(t + 1), None);
    assert_eq!(w.next_write(t), None);
}

#[test]
fn full_worker_refuses_and_keeps_its_connections() {
    let mut w = Worker::new(1, 2);
    let a = connect(&mut w);
    let b = connect(&mut w);
    w.broadcast_local(&[1, 2, 3]);
    assert_eq!(w.accept(), Action::Refuse);
    assert_eq!(w.notify(Message::NewConnection), vec![Action::Refuse]);
    assert_eq!(w.count(), 2);
    assert_eq!(drain(&mut w, a), vec![1, 2, 3]);
    assert_eq!(drain(&mut w, b), vec![1, 2, 3]);
    // a freed slot is taken again
    w.reset_connection(a);
    assert_eq!(w.accept(), Action::Register(a));
    assert_eq!(w.accept(), Action::Refuse);
}

#[test]
fn reset_is_idempotent() {
    let mut w = Worker::new(2, 3);
    let a = connect(&mut w);
    let b = connect(&mut w);
    w.broadcast_local(&[9]);
    w.reset_connection(a);
    w.reset_connection(a);
    w.reset_connection(a);
    w.reset_connection(0);
    w.reset_connection(usize::MAX);
    assert_eq!(w.count(), 1);
    assert!(!w.contains(a));
    assert!(w.contains(b));
    assert_eq!(drain(&mut w, b), vec![9]);
    let c = connect(&mut w);
    let d = connect(&mut w);
    assert_ne!(c, d);
    assert_ne!(c, b);
    assert_ne!(d, b);
    assert_eq!(w.accept(), Action::Refuse);
}

#[test]
fn error_and_hang_up_remove_the_connection() {
    for events in [EventSet::error(), EventSet::hup(), hup_and_readable()] {
        let mut w = Worker::new(1, 4);
        let a = connect(&mut w);
        let b = connect(&mut w);
        assert_eq!(w.ready(a, events), Plan::Close);
        assert!(!w.contains(a));
        assert!(w.contains(b));
        // again, and for a token that was never there
        assert_eq!(w.ready(a, events), Plan::Close);
        assert_eq!(w.ready(77, events), Plan::Close);
        assert_eq!(w.count(), 1);
    }
}

#[test]
fn readiness_without_trouble_is_served() {
    let mut w = Worker::new(1, 4);
    let a = connect(&mut w);
    let mut both = EventSet::readable();
    both.insert(EventSet::writable());
    assert_eq!(w.ready(a, EventSet::readable()), Plan::Serve { write: false, read: true });
    assert_eq!(w.ready(a, EventSet::writable()), Plan::Serve { write: true, read: false });
    assert_eq!(w.ready(a, both), Plan::Serve { write: true, read: true });
    assert_eq!(w.ready(a, EventSet::none()), Plan::Serve { write: false, read: false });
    assert!(w.contains(a));
}

#[test]
fn local_broadcast_reaches_every_connection_in_token_order() {
    let mut w = Worker::new(1, 8);
    let mut tokens: Vec<usize> = (0..5).map(|_| connect(&mut w)).collect();
    w.reset_connection(tokens[1]);
    tokens.remove(1);
    tokens.sort();
    let actions = w.broadcast_local(&[1, 2]);
    let expected: Vec<Action> = tokens.iter().map(|t| Action::Reregister(*t)).collect();
    assert_eq!(actions, expected);
    for t in &tokens {
        assert!(w.registration(*t).unwrap().interest.writable);
    }
    w.broadcast_local(&[3]);
    for t in &tokens {
        assert_eq!(drain(&mut w, *t), vec![1, 2, 3]);
        assert!(!w.registration(*t).unwrap().interest.writable);
        assert_eq!(drain(&mut w, *t), Vec::<u8>::new());
    }
    // nobody there: nothing to do
    let mut empty = Worker::new(1, 8);
    assert_eq!(empty.broadcast_local(&[1]), vec![]);
}

#[test]
fn post_is_forwarded_and_delivered_here() {
    let mut w = Worker::new(1, 4);
    let a = connect(&mut w);
    let b = connect(&mut w);
    let p = post("alice", &["hi"]);
    let frame = p.to_bytes().unwrap();
    let actions = w.broadcast_all(p.clone());
    let (lo, hi) = (a.min(b), a.max(b));
    assert_eq!(
        actions,
        vec![Action::Forward(p), Action::Reregister(lo), Action::Reregister(hi)]
    );
    assert_eq!(drain(&mut w, a), frame);
    assert_eq!(drain(&mut w, b), frame);
}

#[test]
fn post_too_large_is_dropped() {
    let mut w = Worker::new(1, 4);
    let a = connect(&mut w);
    let huge = "z".repeat(chat::frame::MAX_FRAME as usize);
    assert_eq!(w.broadcast_all(post("alice", &[&huge])), vec![]);
    assert_eq!(w.notify(Message::NewPost(post("alice", &[&huge]))), vec![]);
    assert_eq!(w.next_write(a), None);
}

#[test]
fn received_body_is_classified() {
    let mut w = Worker::new(5, 4);
    let a = connect(&mut w);
    // a post
    let p = post("alice", &["hi"]);
    let body = p.write_to_bytes().unwrap();
    assert_eq!(w.receive(&body), vec![Action::Forward(p.clone()), Action::Reregister(a)]);
    assert_eq!(drain(&mut w, a), p.to_bytes().unwrap());
    // a command
    let c = post("alice", &["/echo X", "more"]);
    let body = c.write_to_bytes().unwrap();
    assert_eq!(
        w.receive(&body),
        vec![Action::Submit(Task {
            user: "alice".to_string(),
            cmd: "echo X".to_string(),
            reply_to: 5
        })]
    );
    assert_eq!(w.next_write(a), None);
    // no post at all
    assert_eq!(w.receive(&[0xff, 0xff]), vec![]);
    assert_eq!(w.receive(&[]), vec![]);
    assert_eq!(w.next_write(a), None);
}

#[test]
fn bytes_read_are_decoded_and_dealt_with_in_order() {
    let mut w = Worker::new(1, 4);
    let a = connect(&mut w);
    let b = connect(&mut w);
    let (lo, hi) = (a.min(b), a.max(b));
    let p1 = post("alice", &["one"]);
    let cmd = post("alice", &["/date"]);
    let p2 = post("alice", &["two"]);
    let mut stream = p1.to_bytes().unwrap();
    stream.extend(chat::frame::to_buf(&[0xff]).unwrap()); // parses as nothing: skipped
    stream.extend(cmd.to_bytes().unwrap());
    stream.extend(p2.to_bytes().unwrap());
    let (head, tail) = stream.split_at(stream.len() - 3);
    let actions = w.readable(a, head);
    assert_eq!(
        actions,
        vec![
            Action::Forward(p1.clone()),
            Action::Reregister(lo),
            Action::Reregister(hi),
            Action::Submit(Task { user: "alice".to_string(), cmd: "date".to_string(), reply_to: 1 }),
            Action::Reregister(a),
        ]
    );
    let actions = w.readable(a, tail);
    assert_eq!(
        actions,
        vec![
            Action::Forward(p2.clone()),
            Action::Reregister(lo),
            Action::Reregister(hi),
            Action::Reregister(a),
        ]
    );
    let mut expected = p1.to_bytes().unwrap();
    expected.extend(p2.to_bytes().unwrap());
    assert_eq!(drain(&mut w, a), expected);
    assert_eq!(drain(&mut w, b), expected);
}

#[test]
fn reading_nothing_new_only_rearms() {
    let mut w = Worker::new(1, 4);
    let a = connect(&mut w);
    assert_eq!(w.readable(a, &[]), vec![Action::Reregister(a)]);
    assert_eq!(w.readable(a, &[5, 0]), vec![Action::Reregister(a)]);
    // a token that holds nothing
    assert_eq!(w.readable(a + 1, &[1, 2, 3]), vec![]);
    assert_eq!(w.readable(0, &[1, 2, 3]), vec![]);
}

#[test]
fn frame_too_long_closes_the_connection() {
    let mut w = Worker::new(1, 4);
    let a = connect(&mut w);
    let b = connect(&mut w);
    assert_eq!(w.readable(a, &[0xff, 0xff, 0xff, 0xff]), vec![Action::Close(a)]);
    assert!(!w.contains(a));
    assert!(w.contains(b));
    assert_eq!(w.readable(a, &[0, 0, 0, 0]), vec![]);
}

#[test]
fn write_reports_are_passed_to_the_connection() {
    let mut w = Worker::new(1, 4);
    let a = connect(&mut w);
    w.broadcast_local(&[1, 2, 3]);
    w.broadcast_local(&[4]);
    assert_eq!(w.next_write(a), Some(&[1u8, 2, 3][..]));
    assert_eq!(w.writable(a, IoOutcome::WouldBlock), WriteStep::Rearm);
    assert_eq!(w.writable(a, IoOutcome::Moved(2)), WriteStep::Rearm);
    assert_eq!(w.next_write(a), Some(&[3u8][..]));
    assert_eq!(w.writable(a, IoOutcome::Moved(1)), WriteStep::Continue);
    assert_eq!(w.next_write(a), Some(&[4u8][..]));
    assert_eq!(w.writable(a, IoOutcome::Moved(1)), WriteStep::Rearm);
    assert_eq!(w.next_write(a), None);
    assert!(w.contains(a));
}

#[test]
fn failed_write_removes_the_connection() {
    let mut w = Worker::new(1, 4);
    let a = connect(&mut w);
    let b = connect(&mut w);
    w.broadcast_local(&[1, 2, 3]);
    assert_eq!(w.writable(a, IoOutcome::Failed), WriteStep::Reset);
    assert!(!w.contains(a));
    assert_eq!(w.writable(a, IoOutcome::Moved(1)), WriteStep::Reset);
    assert_eq!(w.writable(b, IoOutcome::Moved(4)), WriteStep::Reset);
    assert!(!w.contains(b));
    assert_eq!(w.count(), 0);
}

#[test]
fn reads_go_on_while_they_fill_the_buffer() {
    let mut w = Worker::new(1, 4);
    let a = connect(&mut w);
    assert_eq!(w.read_step(a, IoOutcome::Moved(2048), 2048), ReadStep::Again);
    assert_eq!(w.read_step(a, IoOutcome::Moved(2047), 2048), ReadStep::Process);
    assert_eq!(w.read_step(a, IoOutcome::Moved(0), 2048), ReadStep::Process);
    assert_eq!(w.read_step(a, IoOutcome::WouldBlock, 2048), ReadStep::Process);
    assert!(w.contains(a));
    assert_eq!(w.read_step(a, IoOutcome::Failed, 2048), ReadStep::Reset);
    assert!(!w.contains(a));
    assert_eq!(w.read_step(a, IoOutcome::Failed, 2048), ReadStep::Reset);
}

#[test]
fn connection_that_cannot_be_armed_is_removed() {
    let mut w = Worker::new(1, 4);
    let a = connect(&mut w);
    let b = connect(&mut w);
    assert_eq!(w.armed(a, true), None);
    assert!(w.contains(a));
    assert_eq!(w.armed(a, false), Some(Action::Close(a)));
    assert!(!w.contains(a));
    assert!(w.contains(b));
    assert_eq!(w.armed(a, false), Some(Action::Close(a)));
    assert_eq!(w.count(), 1);
}

#[test]
fn notifications() {
    let mut w = Worker::new(1, 4);
    let a = match w.notify(Message::NewConnection).as_slice() {
        [Action::Register(t)] => *t,
        other => panic!("{:?}", other),
    };
    // a peer's post is delivered here only
    let p = post("bob", &["hello"]);
    assert_eq!(w.notify(Message::NewPost(p.clone())), vec![Action::Reregister(a)]);
    assert_eq!(drain(&mut w, a), p.to_bytes().unwrap());
    // the result of a command is posted under the name nobody, whoever ran
    // it, here and to the peers
    let reply = post("nobody", &["X", "Y"]);
    assert_eq!(
        w.notify(Message::TaskFinished {
            user: "alice".to_string(),
            result: vec!["X".to_string(), "Y".to_string()]
        }),
        vec![Action::Forward(reply.clone()), Action::Reregister(a)]
    );
    assert_eq!(drain(&mut w, a), reply.to_bytes().unwrap());
}
