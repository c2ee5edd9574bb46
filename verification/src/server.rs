//! The acceptor's decisions. It owns the listener, which stays with the
//! event loop, and hands each accepted socket to the next worker in turn.

use crate::connection::{EventSet, Registration};
use vstd::prelude::*;

verus! {

/// The token under which the listener is registered.
pub const SERVER_TOKEN: usize = 1;

/// What an attempt to accept a socket gave.
#[derive(Debug, Clone, Copy, PartialEq, Eq, Structural)]
pub enum AcceptOutcome {
    /// A socket was accepted.
    Socket,
    /// No connection is pending.
    NoPending,
    /// Accepting failed.
    Failed,
}

/// What to do after an attempt to accept.
#[derive(Debug, Clone, Copy, PartialEq, Eq, Structural)]
pub enum AcceptStep {
    /// Send the socket to the worker with this index, then accept again.
    HandOff(usize),
    /// Stop accepting and arm the listener again.
    Reregister,
}

/// What the acceptor's event loop is to do after readiness was reported.
#[derive(Debug, Clone, Copy, PartialEq, Eq, Structural)]
pub enum ServerPlan {
    /// Stop the event loop.
    Shutdown,
    /// Accept pending connections.
    Accept,
    /// Nothing to do.
    Idle,
}

/// How many of the first `k` sockets go to worker `i` of `n`, when socket
/// number `m` (from 0) goes to worker `m % n`.
pub open spec fn share(n: nat, k: nat, i: nat) -> nat
    decreases k,
{
    if k == 0 {
        0
    } else if (k - 1) as nat % n == i {
        share(n, (k - 1) as nat, i) + 1
    } else {
        share(n, (k - 1) as nat, i)
    }
}

pub struct Server {
    token: usize,
    n_workers: usize,
    worker_ptr: usize,
    handed: Ghost<nat>,
}

impl Server {
    /// The number of workers.
    pub closed spec fn workers(&self) -> usize {
        self.n_workers
    }

    /// The index of the worker that gets the next socket.
    pub closed spec fn next_worker(&self) -> usize {
        self.worker_ptr
    }

    /// The number of sockets handed to workers so far.
    pub closed spec fn handed(&self) -> nat {
        self.handed@
    }

    pub closed spec fn spec_token(&self) -> usize {
        self.token
    }

    /// The invariant of the acceptor: there is a worker, and the next socket
    /// goes to the worker whose index is the count of sockets handed out so
    /// far, modulo the number of workers.
    pub open spec fn wf(&self) -> bool {
        &&& self.workers() > 0
        &&& self.next_worker() == self.handed() % (self.workers() as nat)
        &&& self.spec_token() == SERVER_TOKEN
    }

    /// An acceptor for `n_workers` workers that has handed out nothing.
    pub fn new(n_workers: usize) -> (s: Server)
        requires
            n_workers > 0,
        ensures
            s.wf(),
            s.workers() == n_workers,
            s.handed() == 0,
    {
        proof {
            vstd::arithmetic::div_mod::lemma_small_mod(0, n_workers as nat);
        }
        Server { token: SERVER_TOKEN, n_workers, worker_ptr: 0, handed: Ghost(0) }
    }

    #[verifier::when_used_as_spec(spec_token)]
    pub fn token(&self) -> (t: usize)
        ensures
            t == self.spec_token(),
    {
        self.token
    }

    /// How to arm the listener: for readability, edge-triggered, one shot.
    pub fn register(&self) -> (r: Registration)
        ensures
            r == (Registration {
                token: self.spec_token(),
                interest: EventSet::spec_readable(),
                edge: true,
                oneshot: true,
            }),
    {
        Registration { token: self.token, interest: EventSet::readable(), edge: true, oneshot: true }
    }

    /// How to arm the listener again.
    pub fn reregister(&self) -> (r: Registration)
        ensures
            r == (Registration {
                token: self.spec_token(),
                interest: EventSet::spec_readable(),
                edge: true,
                oneshot: true,
            }),
    {
        self.register()
    }

    /// The worker that gets the next socket. Workers take turns: socket
    /// number `m` goes to worker `m % n`, whatever became of the sockets
    /// before.
    pub fn send_to_worker(&mut self) -> (worker: usize)
        requires
            old(self).wf(),
        ensures
            final(self).wf(),
            final(self).workers() == old(self).workers(),
            final(self).handed() == old(self).handed() + 1,
            worker == old(self).handed() % (old(self).workers() as nat),
            worker < old(self).workers(),
    {
        let worker = self.worker_ptr;
        proof {
            lemma_next_turn(self.handed@, self.n_workers as nat);
        }
        self.worker_ptr = if self.worker_ptr + 1 == self.n_workers {
            0
        } else {
            self.worker_ptr + 1
        };
        self.handed = Ghost((self.handed@ + 1) as nat);
        worker
    }

    /// Decides what follows an attempt to accept: a socket goes to the next
    /// worker and accepting goes on; when nothing is pending, or accepting
    /// failed, the listener is armed again.
    pub fn accept(&mut self, outcome: AcceptOutcome) -> (step: AcceptStep)
        requires
            old(self).wf(),
        ensures
            final(self).wf(),
            final(self).workers() == old(self).workers(),
            match outcome {
                AcceptOutcome::Socket => {
                    &&& step == AcceptStep::HandOff(
                        (old(self).handed() % (old(self).workers() as nat)) as usize,
                    )
                    &&& final(self).handed() == old(self).handed() + 1
                },
                _ => step == AcceptStep::Reregister && final(self).handed() == old(self).handed(),
            },
    {
        match outcome {
            AcceptOutcome::Socket => AcceptStep::HandOff(self.send_to_worker()),
            _ => AcceptStep::Reregister,
        }
    }

    /// Decides what to do about readiness reported for `token`: an error
    /// stops the event loop, readability starts accepting. Events for
    /// another token are not the listener's.
    pub fn ready(&self, token: usize, events: EventSet) -> (plan: ServerPlan)
        ensures
            plan == if token != self.spec_token() {
                ServerPlan::Idle
            } else if events.error {
                ServerPlan::Shutdown
            } else if events.readable {
                ServerPlan::Accept
            } else {
                ServerPlan::Idle
            },
    {
        if token != self.token {
            ServerPlan::Idle
        } else if events.is_error() {
            ServerPlan::Shutdown
        } else if events.is_readable() {
            ServerPlan::Accept
        } else {
            ServerPlan::Idle
        }
    }

    /// Decides what follows an attempt to arm the listener again: a failure
    /// stops the event loop.
    pub fn reregistered(&self, armed: bool) -> (plan: ServerPlan)
        ensures
            plan == if armed {
                ServerPlan::Idle
            } else {
                ServerPlan::Shutdown
            },
    {
        if armed {
            ServerPlan::Idle
        } else {
            ServerPlan::Shutdown
        }
    }
}

/// The turn after that of socket `m`.
pub proof fn lemma_next_turn(m: nat, n: nat)
    requires
        n > 0,
    ensures
        m % n < n,
        (m + 1) % n == if m % n + 1 == n {
            0
        } else {
            m % n + 1
        },
{
    lemma_successor_div_mod(m, n);
}

/// Quotient and remainder of the successor of `m`.
pub proof fn lemma_successor_div_mod(m: nat, n: nat)
    requires
        n > 0,
    ensures
        m % n < n,
        m % n + 1 == n ==> (m + 1) % n == 0 && (m + 1) / n == m / n + 1,
        m % n + 1 != n ==> (m + 1) % n == m % n + 1 && (m + 1) / n == m / n,
{
    let d = n as int;
    let q = m as int / d;
    let r = m as int % d;
    vstd::arithmetic::div_mod::lemma_fundamental_div_mod(m as int, d);
    vstd::arithmetic::div_mod::lemma_mod_pos_bound(m as int, d);
    assert(d * q == q * d) by (nonlinear_arith);
    if r + 1 == d {
        assert((q + 1) * d == q * d + d) by (nonlinear_arith);
        vstd::arithmetic::div_mod::lemma_fundamental_div_mod_converse(m as int + 1, d, q + 1, 0);
    } else {
        vstd::arithmetic::div_mod::lemma_fundamental_div_mod_converse(m as int + 1, d, q, r + 1);
    }
}

/// The share of worker `i` in the first `k` sockets: every full round gives
/// it one, and the unfinished round one more if its turn has come.
pub proof fn lemma_share(n: nat, k: nat, i: nat)
    requires
        n > 0,
        i < n,
    ensures
        share(n, k, i) == k / n + if i < k % n {
            1nat
        } else {
            0nat
        },
    decreases k,
{
    if k == 0 {
        vstd::arithmetic::div_mod::lemma_small_mod(0, n);
        vstd::arithmetic::div_mod::lemma_basic_div(0, n as int);
    } else {
        let m = (k - 1) as nat;
        lemma_share(n, m, i);
        lemma_successor_div_mod(m, n);
    }
}

/// Round robin is fair: after any number of sockets, no worker was given
/// more than one socket more than any other.
pub proof fn lemma_round_robin_balanced(n: nat, k: nat, i: nat, j: nat)
    requires
        n > 0,
        i < n,
        j < n,
    ensures
        share(n, k, i) <= share(n, k, j) + 1,
        share(n, k, j) <= share(n, k, i) + 1,
{
    lemma_share(n, k, i);
    lemma_share(n, k, j);
}

} // verus!
