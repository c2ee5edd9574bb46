use chat::connection::{EventSet, Registration};
use chat::server::{AcceptOutcome, AcceptStep, Server, ServerPlan, SERVER_TOKEN};
use chat::worker::Worker;

#[test]
fn sockets_go_to_the_workers_in_turn() {
    let mut server = Server::new(3);
    let turns: Vec<usize> = (0..7).map(|_| server.send_to_worker()).collect();
    assert_eq!(turns, vec![0, 1, 2, 0, 1, 2, 0]);
    let mut single = Server::new(1);
    assert_eq!(single.send_to_worker(), 0);
    assert_eq!(single.send_to_worker(), 0);
}

#[test]
fn round_robin_is_balanced() {
    for n in 1..6usize {
        let mut server = Server::new(n);
        let mut counts = vec![0usize; n];
        for k in 1..=40usize {
            match server.accept(AcceptOutcome::Socket) {
                AcceptStep::HandOff(w) => counts[w] += 1,
                AcceptStep::Reregister => panic!("a socket must be handed off"),
            }
            let most = *counts.iter().max().unwrap();
            let least = *counts.iter().min().unwrap();
            assert!(most - least <= 1);
            // exact shares: every full round one, and one more for the first k % n
            for (i, c) in counts.iter().enumerate() {
                assert_eq!(*c, k / n + if i < k % n { 1 } else { 0 });
            }
        }
    }
}

#[test]
fn accept_stops_when_nothing_is_pending() {
    let mut server = Server::new(2);
    assert_eq!(server.accept(AcceptOutcome::Socket), AcceptStep::HandOff(0));
    assert_eq!(server.accept(AcceptOutcome::NoPending), AcceptStep::Reregister);
    assert_eq!(server.accept(AcceptOutcome::Failed), AcceptStep::Reregister);
    // failures do not use up a turn
    assert_eq!(server.accept(AcceptOutcome::Socket), AcceptStep::HandOff(1));
    assert_eq!(server.accept(AcceptOutcome::Socket), AcceptStep::HandOff(0));
}

#[test]
fn listener_is_armed_for_reading_once() {
    let server = Server::new(4);
    let reg = Registration {
        token: SERVER_TOKEN,
        interest: EventSet::readable(),
        edge: true,
        oneshot: true,
    };
    assert_eq!(server.token(), 1);
    assert_eq!(server.register(), reg);
    assert_eq!(server.reregister(), reg);
}

#[test]
fn listener_events() {
    let server = Server::new(1);
    let readable = EventSet::readable();
    let mut broken = EventSet::readable();
    broken.insert(EventSet::error());
    assert_eq!(server.ready(1, readable), ServerPlan::Accept);
    assert_eq!(server.ready(1, broken), ServerPlan::Shutdown);
    assert_eq!(server.ready(1, EventSet::writable()), ServerPlan::Idle);
    assert_eq!(server.ready(1, EventSet::none()), ServerPlan::Idle);
    assert_eq!(server.ready(2, readable), ServerPlan::Idle);
    assert_eq!(server.ready(0, broken), ServerPlan::Idle);
    assert_eq!(server.reregistered(true), ServerPlan::Idle);
    assert_eq!(server.reregistered(false), ServerPlan::Shutdown);
}

#[test]
fn each_worker_forwards_to_all_others() {
    assert_eq!(Worker::peers(0, 4), vec![1, 2, 3]);
    assert_eq!(Worker::peers(2, 4), vec![0, 1, 3]);
    assert_eq!(Worker::peers(3, 4), vec![0, 1, 2]);
    assert_eq!(Worker::peers(0, 1), Vec::<usize>::new());
    assert_eq!(Worker::peers(7, 3), vec![0, 1, 2]);
    assert_eq!(Worker::peers(0, 0), Vec::<usize>::new());
}
