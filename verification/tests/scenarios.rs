use chat::chunker::Chunker;
use chat::connection::{EventSet, IoOutcome};
use chat::post::Post;
use chat::server::{AcceptOutcome, AcceptStep, Server};
use chat::shell::{bad_command, command_line, finished};
use chat::worker::{Action, Plan, Worker};
use chat::Message;

/// A broker without sockets: the acceptor, the workers, and for each client
/// the bytes it has received so far.
struct Broker {
    server: Server,
    workers: Vec<Worker>,
    closed: Vec<(usize, usize)>,
}

/// Where a client is connected: worker index and token.
#[derive(Clone, Copy, Debug, PartialEq)]
struct Client {
    worker: usize,
    token: usize,
}

fn post(author: &str, lines: &[&str]) -> Post {
    Post::new(author.to_string(), lines.iter().map(|l| l.to_string()).collect())
}

/// The executor's stand-in: `echo` prints its arguments.
fn run(cmd: &str) -> Vec<String> {
    match command_line(cmd) {
        None => bad_command(),
        Some((program, args)) => {
            if program == "echo" {
                vec![args.join(" ")]
            } else {
                vec![format!("Command {} failed: not found", cmd)]
            }
        }
    }
}

impl Broker {
    fn new(n_workers: usize, slots: usize) -> Broker {
        Broker {
            server: Server::new(n_workers),
            workers: (0..n_workers).map(|i| Worker::new(i + 1, slots)).collect(),
            closed: Vec::new(),
        }
    }

    fn perform(&mut self, worker: usize, actions: Vec<Action>) {
        for action in actions {
            match action {
                Action::Forward(p) => {
                    for peer in Worker::peers(worker, self.workers.len()) {
                        let more = self.workers[peer].notify(Message::NewPost(p.clone()));
                        self.perform(peer, more);
                    }
                }
                Action::Submit(task) => {
                    let result = run(&task.cmd);
                    let (reply_to, message) = finished(task, result);
                    let origin = reply_to - 1;
                    let more = self.workers[origin].notify(message);
                    self.perform(origin, more);
                }
                Action::Close(token) => self.closed.push((worker, token)),
                Action::Register(_) | Action::Reregister(_) | Action::Refuse => {}
            }
        }
    }

    fn connect(&mut self) -> Option<Client> {
        let worker = match self.server.accept(AcceptOutcome::Socket) {
            AcceptStep::HandOff(w) => w,
            AcceptStep::Reregister => panic!("a socket must be handed off"),
        };
        let actions = self.workers[worker].notify(Message::NewConnection);
        match actions.as_slice() {
            [Action::Register(token)] => Some(Client { worker, token: *token }),
            [Action::Refuse] => None,
            other => panic!("{:?}", other),
        }
    }

    fn send(&mut self, from: Client, bytes: &[u8]) {
        let actions = self.workers[from.worker].readable(from.token, bytes);
        self.perform(from.worker, actions);
    }

    fn kill(&mut self, client: Client) {
        assert_eq!(self.workers[client.worker].ready(client.token, EventSet::hup()), Plan::Close);
    }

    /// Everything that the broker has for `client`, decoded.
    fn received(&mut self, client: Client) -> Vec<Post> {
        let w = &mut self.workers[client.worker];
        let mut chunker = Chunker::new();
        let mut posts = Vec::new();
        loop {
            let offered = match w.next_write(client.token) {
                Some(bytes) => bytes.to_vec(),
                None => break,
            };
            // one byte at a time, as a slow socket would take it
            let n = offered.len().min(1);
            for body in chunker.feed(&offered[..n]).unwrap() {
                posts.push(Post::from_bytes(&body).unwrap());
            }
            w.writable(client.token, IoOutcome::Moved(n));
        }
        posts
    }
}

#[test]
fn echo_to_self() {
    let mut broker = Broker::new(1, 16);
    let a = broker.connect().unwrap();
    broker.send(a, &post("alice", &["hi"]).to_bytes().unwrap());
    assert_eq!(broker.received(a), vec![post("alice", &["hi"])]);
    assert_eq!(broker.received(a), vec![]);
}

#[test]
fn fan_out_across_workers() {
    let mut broker = Broker::new(2, 16);
    let a = broker.connect().unwrap();
    let b = broker.connect().unwrap();
    assert_eq!(a.worker, 0);
    assert_eq!(b.worker, 1);
    broker.send(b, &post("bob", &["hello"]).to_bytes().unwrap());
    assert_eq!(broker.received(a), vec![post("bob", &["hello"])]);
    assert_eq!(broker.received(b), vec![post("bob", &["hello"])]);
}

#[test]
fn command_is_suppressed_and_answered() {
    let mut broker = Broker::new(1, 16);
    let a = broker.connect().unwrap();
    let b = broker.connect().unwrap();
    broker.send(a, &post("alice", &["/echo X"]).to_bytes().unwrap());
    assert_eq!(broker.received(a), vec![post("nobody", &["X"])]);
    assert_eq!(broker.received(b), vec![post("nobody", &["X"])]);
}

#[test]
fn finished_task_names_its_user_and_is_answered_by_nobody() {
    let mut w = Worker::new(1, 4);
    let a = match w.accept() {
        Action::Register(t) => t,
        other => panic!("{:?}", other),
    };
    let body = post("alice", &["/echo X"]).write_to_bytes().unwrap();
    let task = match w.receive(&body).pop() {
        Some(Action::Submit(task)) => task,
        other => panic!("{:?}", other),
    };
    assert_eq!(task.user, "alice");
    assert_eq!(task.cmd, "echo X");
    let (reply_to, message) = finished(task, run("echo X"));
    assert_eq!(reply_to, 1);
    assert_eq!(
        message,
        Message::TaskFinished { user: "alice".to_string(), result: vec!["X".to_string()] }
    );
    assert_eq!(
        w.notify(message),
        vec![Action::Forward(post("nobody", &["X"])), Action::Reregister(a)]
    );
    assert_eq!(w.next_write(a), Some(&post("nobody", &["X"]).to_bytes().unwrap()[..]));
}

#[test]
fn command_reply_reaches_peers_too() {
    let mut broker = Broker::new(3, 16);
    let clients: Vec<Client> = (0..6).map(|_| broker.connect().unwrap()).collect();
    broker.send(clients[4], &post("alice", &["/echo a  b"]).to_bytes().unwrap());
    for c in &clients {
        assert_eq!(broker.received(*c), vec![post("nobody", &["a b"])]);
    }
    broker.send(clients[0], &post("alice", &["/"]).to_bytes().unwrap());
    for c in &clients {
        assert_eq!(broker.received(*c), vec![post("nobody", &["Bad command"])]);
    }
}

#[test]
fn chunked_framing() {
    let mut broker = Broker::new(1, 16);
    let a = broker.connect().unwrap();
    let p1 = post("alice", &["first"]);
    let p2 = post("alice", &["second", "line"]);
    let mut stream = p1.to_bytes().unwrap();
    stream.extend(p2.to_bytes().unwrap());
    for byte in &stream {
        broker.send(a, &[*byte]);
    }
    assert_eq!(broker.received(a), vec![p1, p2]);
}

#[test]
fn disconnect_under_broadcast() {
    let mut broker = Broker::new(1, 16);
    let a = broker.connect().unwrap();
    let b = broker.connect().unwrap();
    let c = broker.connect().unwrap();
    broker.kill(a);
    broker.send(c, &post("carol", &["one"]).to_bytes().unwrap());
    assert_eq!(broker.received(b), vec![post("carol", &["one"])]);
    assert!(!broker.workers[0].contains(a.token));
    assert_eq!(broker.workers[0].count(), 2);
    // what is sent for the dead connection goes nowhere
    broker.send(a, &post("alice", &["ghost"]).to_bytes().unwrap());
    assert_eq!(broker.received(a), vec![]);
    assert_eq!(broker.received(b), vec![]);
    broker.send(c, &post("carol", &["two"]).to_bytes().unwrap());
    assert_eq!(broker.received(b), vec![post("carol", &["two"])]);
    assert_eq!(broker.received(c), vec![post("carol", &["one"]), post("carol", &["two"])]);
}

#[test]
fn slab_overflow() {
    let mut broker = Broker::new(1, 2);
    let one = broker.connect().unwrap();
    let two = broker.connect().unwrap();
    assert_eq!(broker.connect(), None);
    broker.send(one, &post("alice", &["still here"]).to_bytes().unwrap());
    assert_eq!(broker.received(one), vec![post("alice", &["still here"])]);
    assert_eq!(broker.received(two), vec![post("alice", &["still here"])]);
    assert_eq!(broker.connect(), None);
    broker.send(two, &post("bob", &["me too"]).to_bytes().unwrap());
    assert_eq!(broker.received(one), vec![post("bob", &["me too"])]);
    assert_eq!(broker.received(two), vec![post("bob", &["me too"])]);
}

#[test]
fn connections_are_spread_evenly() {
    let n = 4;
    let mut broker = Broker::new(n, 64);
    for k in 1..=30usize {
        broker.connect().unwrap();
        let counts: Vec<usize> = broker.workers.iter().map(|w| w.count()).collect();
        assert!(counts.iter().max().unwrap() - counts.iter().min().unwrap() <= 1);
        assert_eq!(counts.iter().sum::<usize>(), k);
    }
}

#[test]
fn every_healthy_connection_gets_every_post_once_and_in_order() {
    let mut broker = Broker::new(2, 16);
    let clients: Vec<Client> = (0..5).map(|_| broker.connect().unwrap()).collect();
    let sender = clients[1];
    let mut sent = Vec::new();
    for i in 0..10 {
        let p = post("bob", &[&format!("message {}", i)]);
        broker.send(sender, &p.to_bytes().unwrap());
        sent.push(p);
    }
    for c in &clients {
        assert_eq!(broker.received(*c), sent);
    }
}
