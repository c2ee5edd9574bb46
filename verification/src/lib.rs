//! A chat broker's engine: frames and their decoder, the payload and its
//! encoding, connections with their send queues, and the decisions of the
//! acceptor and of the workers that fan messages out.

pub mod chunker;
pub mod connection;
pub mod frame;
pub mod post;
pub mod registry;
pub mod server;
pub mod shell;
pub mod wire;
pub mod worker;

use vstd::prelude::*;

verus! {

/// What reaches a worker over its notification channel.
#[derive(Debug, Clone, PartialEq, Eq)]
pub enum Message {
    /// The acceptor hands over a socket.
    NewConnection,
    /// The executor has run a command for `user`.
    TaskFinished { user: String, result: Vec<String> },
    /// A peer worker forwards a post for local delivery.
    NewPost(post::Post),
}

} // verus!
