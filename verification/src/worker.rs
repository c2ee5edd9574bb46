//! A worker's decisions. The worker owns a registry of connections; the
//! event loop around it reports readiness, what reads and writes did, and
//! notifications, and carries out the actions that come back.

use crate::chunker::concat;
use crate::connection::{
    wrote, Connection, EventSet, IoOutcome, Registration, WriteStep,
};
use crate::frame::{frame, split_frames, MAX_FRAME};
use crate::post::{command_of, parse_post, post_body, Post};
use crate::registry::{no_connections, Registry};
use crate::shell::Task;
use crate::Message;
use vstd::prelude::*;
use vstd::slice::slice_to_vec;

verus! {

/// What the event loop is to do for the worker.
#[derive(Debug, Clone, PartialEq, Eq)]
pub enum Action {
    /// Arm the new connection under this token for the first time.
    Register(usize),
    /// Arm the connection under this token again.
    Reregister(usize),
    /// The connection under this token is gone: drop its socket.
    Close(usize),
    /// No slot is free: close the socket that was handed over.
    Refuse,
    /// Send this post to every peer worker.
    Forward(Post),
    /// Give the executor a command to run.
    Submit(Task),
}

/// An action with its strings as sequences of characters.
pub enum ActionView {
    Register(usize),
    Reregister(usize),
    Close(usize),
    Refuse,
    Forward(Seq<char>, Seq<Seq<char>>),
    Submit(Seq<char>, Seq<char>, usize),
}

impl View for Action {
    type V = ActionView;

    open spec fn view(&self) -> ActionView {
        match *self {
            Action::Register(token) => ActionView::Register(token),
            Action::Reregister(token) => ActionView::Reregister(token),
            Action::Close(token) => ActionView::Close(token),
            Action::Refuse => ActionView::Refuse,
            Action::Forward(post) => ActionView::Forward(post.author@, post.lines()),
            Action::Submit(task) => ActionView::Submit(task.user@, task.cmd@, task.reply_to),
        }
    }
}

/// The views of a list of actions.
pub open spec fn action_views(actions: Seq<Action>) -> Seq<ActionView> {
    actions.map_values(|a: Action| a@)
}

/// One `Reregister` for each token of `held` in `lo .. hi`, in rising order.
pub open spec fn rearms(held: Set<usize>, lo: int, hi: int) -> Seq<ActionView>
    decreases hi - lo,
{
    if lo >= hi {
        Seq::empty()
    } else if held.contains((hi - 1) as usize) {
        rearms(held, lo, hi - 1).push(ActionView::Reregister((hi - 1) as usize))
    } else {
        rearms(held, lo, hi - 1)
    }
}

/// What the step of the event loop is to be after readiness was reported.
#[derive(Debug, Clone, Copy, PartialEq, Eq, Structural)]
pub enum Plan {
    /// The connection was removed: drop its socket.
    Close,
    /// Serve the connection: write if `write`, then read if `read`.
    Serve { write: bool, read: bool },
}

/// What to do after a read was reported.
#[derive(Debug, Clone, Copy, PartialEq, Eq, Structural)]
pub enum ReadStep {
    /// The read filled its buffer: read again.
    Again,
    /// Reading is over for now: hand what was read to `readable`.
    Process,
    /// The connection was removed: drop its socket.
    Reset,
}

/// `after` is `before` with `frames` queued behind what was queued: it
/// waits for writability if there are any, and nothing else about its
/// sending has changed.
pub open spec fn queued(before: Connection, after: Connection, frames: Seq<Seq<u8>>) -> bool {
    &&& after.wf()
    &&& after.token() == before.token()
    &&& after.queue() == before.queue() + frames
    &&& after.sent() == before.sent()
    &&& after.interest() == if frames.len() > 0 {
        before.interest().union(EventSet::spec_writable())
    } else {
        before.interest()
    }
}

/// `after` holds the same tokens as `before`, each connection with `frames`
/// queued for it and nothing else changed.
pub open spec fn delivered_to_all(
    before: Map<usize, Connection>,
    after: Map<usize, Connection>,
    frames: Seq<Seq<u8>>,
) -> bool {
    &&& after.dom() == before.dom()
    &&& forall|t: usize| #[trigger]
        before.dom().contains(t) ==> queued(before[t], after[t], frames) && after[t].buffered()
            == before[t].buffered()
}

/// What accepting a socket makes of a registry of `slots` slots: a new
/// connection under a token that was free, waiting for hang-up and
/// readability, and the order to arm it; or, when every slot is taken, a
/// refusal and no change.
pub open spec fn accepted(
    before: Map<usize, Connection>,
    after: Map<usize, Connection>,
    slots: usize,
    action: ActionView,
) -> bool {
    if before.dom().len() >= slots {
        action == ActionView::Refuse && after == before
    } else {
        action matches ActionView::Register(token) && {
            let conn = after[token];
            &&& !before.dom().contains(token)
            &&& after == before.insert(token, conn)
            &&& conn.token() == token
            &&& conn.interest() == EventSet::spec_hup().union(EventSet::spec_readable())
            &&& conn.queue() == Seq::<Seq<u8>>::empty()
            &&& conn.buffered() == Seq::<u8>::empty()
        }
    }
}

/// The frame that a received body makes a worker deliver: that of the post
/// it encodes, unless it is no post, the post is a command, or its encoding
/// is too long for a frame.
pub open spec fn delivery_of(body: Seq<u8>) -> Seq<Seq<u8>> {
    match parse_post(body) {
        Some((author, lines)) => if command_of(lines) is None && post_body(author, lines).len()
            <= MAX_FRAME {
            seq![frame(post_body(author, lines))]
        } else {
            Seq::empty()
        },
        None => Seq::empty(),
    }
}

/// The frames that received bodies make a worker deliver, in order.
pub open spec fn deliveries(bodies: Seq<Seq<u8>>) -> Seq<Seq<u8>>
    decreases bodies.len(),
{
    if bodies.len() == 0 {
        Seq::empty()
    } else {
        deliveries(bodies.drop_last()) + delivery_of(bodies.last())
    }
}

/// The actions that posting `author` and `lines` asks for, on a worker that
/// holds `held` within `lo .. hi`: forward to the peers, then arm every
/// connection again. Nothing when the encoding is too long for a frame.
pub open spec fn posting(
    author: Seq<char>,
    lines: Seq<Seq<char>>,
    held: Set<usize>,
    lo: int,
    hi: int,
) -> Seq<ActionView> {
    if post_body(author, lines).len() <= MAX_FRAME {
        seq![ActionView::Forward(author, lines)] + rearms(held, lo, hi)
    } else {
        Seq::empty()
    }
}

/// The actions that a received body asks for on worker `id`: nothing if it
/// is no post; the task if it is a command; else those of posting it.
pub open spec fn reaction(body: Seq<u8>, held: Set<usize>, id: usize, lo: int, hi: int) -> Seq<
    ActionView,
> {
    match parse_post(body) {
        None => Seq::empty(),
        Some((author, lines)) => match command_of(lines) {
            Some(cmd) => seq![ActionView::Submit(author, cmd, id)],
            None => posting(author, lines, held, lo, hi),
        },
    }
}

/// The actions that received bodies ask for, in order.
pub open spec fn reactions(
    bodies: Seq<Seq<u8>>,
    held: Set<usize>,
    id: usize,
    lo: int,
    hi: int,
) -> Seq<ActionView>
    decreases bodies.len(),
{
    if bodies.len() == 0 {
        Seq::empty()
    } else {
        reactions(bodies.drop_last(), held, id, lo, hi) + reaction(bodies.last(), held, id, lo, hi)
    }
}

/// The peers of worker `index` among `n_workers` workers: the indices of all
/// the others, in rising order.
pub open spec fn peers_of(index: usize, n_workers: usize) -> Seq<usize> {
    Seq::new(
        if index < n_workers {
            (n_workers - 1) as nat
        } else {
            n_workers as nat
        },
        |k: int|
            if k < index {
                k as usize
            } else {
                (k + 1) as usize
            },
    )
}

/// The token that an action arms again, or -1 if it is no such action.
pub open spec fn rearmed(action: ActionView) -> int {
    match action {
        ActionView::Reregister(token) => token as int,
        _ => -1,
    }
}

/// The tokens of `held` below `t`.
pub open spec fn below(held: Set<usize>, t: int) -> Set<usize> {
    Set::new(|k: usize| held.contains(k) && k < t)
}

pub struct Worker {
    id: usize,
    connections: Registry,
}

impl Worker {
    /// The number of the worker, from 1.
    pub closed spec fn spec_id(&self) -> usize {
        self.id
    }

    /// The connections of the worker, by token.
    pub closed spec fn connections(&self) -> Map<usize, Connection> {
        self.connections@
    }

    /// The number of slots for connections.
    pub closed spec fn slots(&self) -> usize {
        self.connections.spec_capacity()
    }

    /// The first token of the worker's range.
    pub closed spec fn first(&self) -> usize {
        self.connections.spec_first()
    }

    pub closed spec fn registry_wf(&self) -> bool {
        self.connections.wf()
    }

    /// The invariant of a worker: it has a number from 1, its tokens are
    /// `id * slots .. (id + 1) * slots`, and its connections are in order:
    /// finitely many, within the range, each under its own token.
    pub open spec fn wf(&self) -> bool {
        &&& self.registry_wf()
        &&& self.spec_id() > 0
        &&& self.first() == self.spec_id() * self.slots()
        &&& self.first() + self.slots() < usize::MAX
        &&& self.connections().dom().finite()
        &&& self.connections().dom().len() <= self.slots()
        &&& forall|t: usize| #[trigger]
            self.connections().dom().contains(t) ==> {
                &&& self.first() <= t < self.first() + self.slots()
                &&& self.connections()[t].wf()
                &&& self.connections()[t].token() == t
            }
    }

    /// The worker number `id` with room for `slots` connections and none yet.
    pub fn new(id: usize, slots: usize) -> (w: Worker)
        requires
            id > 0,
            (id + 1) * slots < usize::MAX,
        ensures
            w.wf(),
            w.spec_id() == id,
            w.slots() == slots,
            w.connections() == no_connections(),
    {
        assert(id * slots + slots == (id + 1) * slots) by (nonlinear_arith);
        assert(id * slots >= 0) by (nonlinear_arith);
        let first = id * slots;
        Worker { id, connections: Registry::new(first, slots) }
    }

    #[verifier::when_used_as_spec(spec_id)]
    pub fn id(&self) -> (id: usize)
        ensures
            id == self.spec_id(),
    {
        self.id
    }

    /// The number of connections held.
    pub fn count(&self) -> (n: usize)
        requires
            self.wf(),
        ensures
            n == self.connections().dom().len(),
    {
        self.connections.count()
    }

    /// Whether a connection is held under `token`.
    pub fn contains(&self, token: usize) -> (b: bool)
        requires
            self.wf(),
        ensures
            b == self.connections().dom().contains(token),
    {
        self.connections.contains(token)
    }

    /// The number of the worker that owns `token`, when every worker has
    /// `slots` slots: worker `id` owns the tokens `id * slots .. (id + 1) *
    /// slots`. `None` when there are no slots at all.
    pub fn owner_of(token: usize, slots: usize) -> (id: Option<usize>)
        ensures
            slots == 0 ==> id is None,
            slots > 0 ==> id == Some((token / slots) as usize),
    {
        if slots == 0 {
            None
        } else {
            Some(token / slots)
        }
    }

    /// The owner of a connection can be told from its token alone: every
    /// token that this worker holds is in its range, and `owner_of` gives
    /// the worker's number for it.
    pub proof fn lemma_owner(&self, token: usize)
        requires
            self.wf(),
            self.connections().dom().contains(token),
        ensures
            self.slots() > 0,
            self.spec_id() * self.slots() <= token < (self.spec_id() + 1) * self.slots(),
            token / self.slots() == self.spec_id(),
    {
        let id = self.spec_id() as int;
        let n = self.slots() as int;
        assert((id + 1) * n == id * n + n) by (nonlinear_arith);
        vstd::arithmetic::div_mod::lemma_fundamental_div_mod_converse(
            token as int,
            n,
            id,
            token - id * n,
        );
    }

    /// The workers that worker `index` of `n_workers` forwards to: all but
    /// itself, in rising order.
    pub fn peers(index: usize, n_workers: usize) -> (r: Vec<usize>)
        ensures
            r@ == peers_of(index, n_workers),
    {
        let mut r: Vec<usize> = Vec::new();
        let mut i: usize = 0;
        while i < n_workers
            invariant
                i <= n_workers,
                r@.len() == if index < i {
                    i - 1
                } else {
                    i as int
                },
                forall|k: int|
                    0 <= k < r@.len() ==> #[trigger] r@[k] == if k < index {
                        k
                    } else {
                        k + 1
                    },
            decreases n_workers - i,
        {
            if i != index {
                r.push(i);
            }
            i += 1;
        }
        assert(r@ =~= peers_of(index, n_workers));
        r
    }

    /// Takes in a socket that the acceptor handed over: a new connection in
    /// a free slot, waiting for hang-up and readability, to be armed under
    /// the token returned. Without a free slot the socket is refused and
    /// nothing changes.
    pub fn accept(&mut self) -> (action: Action)
        requires
            old(self).wf(),
        ensures
            final(self).wf(),
            final(self).spec_id() == old(self).spec_id(),
            final(self).slots() == old(self).slots(),
            accepted(old(self).connections(), final(self).connections(), old(self).slots(), action@),
    {
        match self.connections.insert() {
            Some(token) => Action::Register(token),
            None => Action::Refuse,
        }
    }

    /// How to arm the connection under `token` now, if there is one.
    pub fn registration(&self, token: usize) -> (r: Option<Registration>)
        requires
            self.wf(),
        ensures
            r == if self.connections().dom().contains(token) {
                Some(
                    Registration {
                        token,
                        interest: self.connections()[token].interest(),
                        edge: true,
                        oneshot: true,
                    },
                )
            } else {
                None
            },
    {
        match self.connections.get(token) {
            Some(conn) => Some(conn.reregister()),
            None => None,
        }
    }

    /// Removes the connection under `token`, if there is one. Doing so again
    /// changes nothing.
    pub fn reset_connection(&mut self, token: usize)
        requires
            old(self).wf(),
        ensures
            final(self).wf(),
            final(self).spec_id() == old(self).spec_id(),
            final(self).slots() == old(self).slots(),
            final(self).connections() == old(self).connections().remove(token),
    {
        let _ = self.connections.remove(token);
    }

    /// Decides what to do about readiness reported for `token`: an error or
    /// a hang-up removes the connection; otherwise it is served, writes
    /// before reads.
    pub fn ready(&mut self, token: usize, events: EventSet) -> (plan: Plan)
        requires
            old(self).wf(),
        ensures
            final(self).wf(),
            final(self).spec_id() == old(self).spec_id(),
            final(self).slots() == old(self).slots(),
            if events.error || events.hup {
                plan == Plan::Close && final(self).connections() == old(self).connections().remove(
                    token,
                )
            } else {
                plan == (Plan::Serve { write: events.writable, read: events.readable }) && final(self).connections() == old(self).connections()
            },
    {
        if events.is_error() || events.is_hup() {
            self.reset_connection(token);
            return Plan::Close;
        }
        Plan::Serve { write: events.is_writable(), read: events.is_readable() }
    }

    /// The bytes to offer to the socket of `token` next. `None` when nothing
    /// is queued or no connection is held under `token`.
    pub fn next_write(&self, token: usize) -> (r: Option<&[u8]>)
        requires
            self.wf(),
        ensures
            r is Some <==> self.connections().dom().contains(token) && self.connections()[token].queue().len()
                > 0,
            r matches Some(bytes) ==> {
                let conn = self.connections()[token];
                bytes@ == conn.queue()[0].skip(conn.sent()) && bytes@ == conn.outstanding().take(
                    bytes@.len() as int,
                )
            },
    {
        match self.connections.get(token) {
            Some(conn) => conn.next_write(),
            None => None,
        }
    }

    /// Takes note of what writing `next_write(token)` did. The connection
    /// changes as `wrote` says; where that asks for reset, and where no
    /// connection is held under `token`, the answer is `Reset` and the
    /// connection is removed.
    pub fn writable(&mut self, token: usize, outcome: IoOutcome) -> (step: WriteStep)
        requires
            old(self).wf(),
        ensures
            final(self).wf(),
            final(self).spec_id() == old(self).spec_id(),
            final(self).slots() == old(self).slots(),
            if !old(self).connections().dom().contains(token) {
                step == WriteStep::Reset && final(self).connections() == old(self).connections()
            } else if step == WriteStep::Reset {
                &&& wrote(
                    old(self).connections()[token],
                    outcome,
                    old(self).connections()[token],
                    step,
                )
                &&& final(self).connections() == old(self).connections().remove(token)
            } else {
                &&& final(self).connections() == old(self).connections().insert(
                    token,
                    final(self).connections()[token],
                )
                &&& wrote(
                    old(self).connections()[token],
                    outcome,
                    final(self).connections()[token],
                    step,
                )
            },
    {
        let step = match self.connections.get_mut(token) {
            Some(conn) => conn.writable(outcome),
            None => {
                return WriteStep::Reset;
            },
        };
        proof {
            assert(self.connections@.dom() =~= old(self).connections@.dom());
        }
        if step == WriteStep::Reset {
            self.reset_connection(token);
            proof {
                assert(self.connections@ =~= old(self).connections@.remove(token));
            }
        }
        step
    }

    /// Takes note of what one read from the socket of `token` into a buffer
    /// of `capacity` bytes did. Reading goes on while reads fill the buffer;
    /// a short read, an empty one (the peer has closed its side, which the
    /// next event will show as hang-up) and a would-block end it. A failed
    /// read removes the connection.
    pub fn read_step(&mut self, token: usize, outcome: IoOutcome, capacity: usize) -> (step:
        ReadStep)
        requires
            old(self).wf(),
        ensures
            final(self).wf(),
            final(self).spec_id() == old(self).spec_id(),
            final(self).slots() == old(self).slots(),
            match outcome {
                IoOutcome::WouldBlock => step == ReadStep::Process && final(self).connections()
                    == old(self).connections(),
                IoOutcome::Moved(n) => step == (if n > 0 && n >= capacity {
                    ReadStep::Again
                } else {
                    ReadStep::Process
                }) && final(self).connections() == old(self).connections(),
                IoOutcome::Failed => step == ReadStep::Reset && final(self).connections() == old(self).connections().remove(token),
            },
    {
        match outcome {
            IoOutcome::WouldBlock => ReadStep::Process,
            IoOutcome::Moved(n) => if Connection::read_again(n, capacity) {
                ReadStep::Again
            } else {
                ReadStep::Process
            },
            IoOutcome::Failed => {
                self.reset_connection(token);
                ReadStep::Reset
            },
        }
    }

    /// Takes note of whether the connection under `token` could be armed.
    /// One that could not is removed, and its socket is to be dropped.
    pub fn armed(&mut self, token: usize, ok: bool) -> (action: Option<Action>)
        requires
            old(self).wf(),
        ensures
            final(self).wf(),
            final(self).spec_id() == old(self).spec_id(),
            final(self).slots() == old(self).slots(),
            if ok {
                action is None && final(self).connections() == old(self).connections()
            } else {
                action == Some(Action::Close(token)) && final(self).connections() == old(self).connections().remove(token)
            },
    {
        if ok {
            None
        } else {
            self.reset_connection(token);
            Some(Action::Close(token))
        }
    }

    /// Queues `frame` for every connection of this worker, in rising order
    /// of their tokens, and asks for each to be armed again.
    pub fn broadcast_local(&mut self, frame: &[u8]) -> (actions: Vec<Action>)
        requires
            old(self).wf(),
        ensures
            final(self).wf(),
            final(self).spec_id() == old(self).spec_id(),
            final(self).slots() == old(self).slots(),
            delivered_to_all(old(self).connections(), final(self).connections(), seq![frame@]),
            action_views(actions@) == rearms(
                old(self).connections().dom(),
                old(self).first() as int,
                old(self).first() + old(self).slots(),
            ),
    {
        let mut actions: Vec<Action> = Vec::new();
        let n = self.connections.count();
        let first = self.connections.first();
        let end = first + self.connections.capacity();
        let mut t = first;
        let mut seen: usize = 0;
        let ghost held = self.connections@.dom();
        let ghost frames = seq![frame@];
        proof {
            assert(below(held, first as int) =~= Set::<usize>::empty());
            assert(action_views(actions@) =~= rearms(held, first as int, first as int));
        }
        while t < end && seen < n
            invariant
                first <= t <= end,
                end == first + self.slots(),
                first == self.first(),
                self.wf(),
                self.spec_id() == old(self).spec_id(),
                self.slots() == old(self).slots(),
                self.first() == old(self).first(),
                held == old(self).connections().dom(),
                self.connections@.dom() == held,
                held.finite(),
                n == held.len(),
                frames == seq![frame@],
                forall|k: usize|
                    held.contains(k) && k < t ==> queued(
                        old(self).connections()[k],
                        #[trigger] self.connections@[k],
                        frames,
                    ) && self.connections@[k].buffered() == old(self).connections()[k].buffered(),
                forall|k: usize|
                    held.contains(k) && k >= t ==> #[trigger] self.connections@[k] == old(self).connections()[k],
                action_views(actions@) == rearms(held, first as int, t as int),
                seen == below(held, t as int).len(),
            decreases end - t,
        {
            let ghost before = self.connections@;
            let ghost listed = action_views(actions@);
            proof {
                lemma_below_step(held, t as int);
            }
            match self.connections.get_mut(t) {
                Some(conn) => {
                    conn.send_message(slice_to_vec(frame));
                    actions.push(Action::Reregister(t));
                    seen += 1;
                    proof {
                        assert(before[t].queue().push(frame@) =~= before[t].queue() + frames);
                        assert(self.connections@.dom() =~= held);
                        assert(action_views(actions@) =~= listed.push(ActionView::Reregister(t)));
                    }
                },
                None => {
                    assert(action_views(actions@) =~= listed);
                },
            }
            t += 1;
        }
        proof {
            if t < end {
                lemma_below_full(held, t as int);
                lemma_rearms_stop(held, first as int, t as int, end as int);
            }
        }
        actions
    }

    /// Posts `post` for worker and peers: forwards it to the peers and
    /// delivers its frame to every connection here. A post whose encoding is
    /// too long for a frame is dropped.
    pub fn broadcast_all(&mut self, post: Post) -> (actions: Vec<Action>)
        requires
            old(self).wf(),
        ensures
            final(self).wf(),
            final(self).spec_id() == old(self).spec_id(),
            final(self).slots() == old(self).slots(),
            delivered_to_all(
                old(self).connections(),
                final(self).connections(),
                if post.body().len() <= MAX_FRAME {
                    seq![frame(post.body())]
                } else {
                    Seq::empty()
                },
            ),
            action_views(actions@) == posting(
                post.author@,
                post.lines(),
                old(self).connections().dom(),
                old(self).first() as int,
                old(self).first() + old(self).slots(),
            ),
    {
        match post.to_bytes() {
            Ok(frame) => {
                let mut local = self.broadcast_local(frame.as_slice());
                let mut actions: Vec<Action> = Vec::new();
                actions.push(Action::Forward(post));
                let ghost head = action_views(actions@);
                let ghost tail = action_views(local@);
                actions.append(&mut local);
                proof {
                    assert(head =~= seq![ActionView::Forward(post.author@, post.lines())]);
                    assert(action_views(actions@) =~= head + tail);
                }
                actions
            },
            Err(_) => {
                proof {
                    self.lemma_nothing_delivered();
                }
                let actions: Vec<Action> = Vec::new();
                assert(action_views(actions@) =~= Seq::<ActionView>::empty());
                actions
            },
        }
    }

    /// Deals with one body that a connection sent. What does not parse is
    /// dropped. A command (first line beginning with `/`) becomes a task for
    /// the executor and is delivered to nobody. Any other post is broadcast.
    pub fn receive(&mut self, body: &[u8]) -> (actions: Vec<Action>)
        requires
            old(self).wf(),
        ensures
            final(self).wf(),
            final(self).spec_id() == old(self).spec_id(),
            final(self).slots() == old(self).slots(),
            delivered_to_all(
                old(self).connections(),
                final(self).connections(),
                delivery_of(body@),
            ),
            action_views(actions@) == reaction(
                body@,
                old(self).connections().dom(),
                old(self).spec_id(),
                old(self).first() as int,
                old(self).first() + old(self).slots(),
            ),
    {
        let post = match Post::from_bytes(body) {
            Ok(post) => post,
            Err(_) => {
                proof {
                    self.lemma_nothing_delivered();
                }
                let actions: Vec<Action> = Vec::new();
                assert(action_views(actions@) =~= Seq::<ActionView>::empty());
                return actions;
            },
        };
        match post.command() {
            Some(cmd) => {
                proof {
                    self.lemma_nothing_delivered();
                }
                let ghost author = post.author@;
                let (user, _) = post.take();
                let mut actions: Vec<Action> = Vec::new();
                actions.push(Action::Submit(Task { user, cmd, reply_to: self.id }));
                assert(action_views(actions@) =~= seq![
                    ActionView::Submit(author, cmd@, self.spec_id()),
                ]);
                actions
            },
            None => self.broadcast_all(post),
        }
    }

    /// Takes in bytes read from the socket of `token`: the bodies of the
    /// frames they complete are dealt with in order, and the connection is
    /// to be armed again. A frame too long removes the connection. Bytes
    /// for a token that holds nothing are dropped.
    pub fn readable(&mut self, token: usize, data: &[u8]) -> (actions: Vec<Action>)
        requires
            old(self).wf(),
        ensures
            final(self).wf(),
            final(self).spec_id() == old(self).spec_id(),
            final(self).slots() == old(self).slots(),
            ({
                let before = old(self).connections();
                let after = final(self).connections();
                if !before.dom().contains(token) {
                    after == before && actions@.len() == 0
                } else {
                    match split_frames(before[token].buffered() + data@) {
                        None => after == before.remove(token) && action_views(actions@) == seq![
                            ActionView::Close(token),
                        ],
                        Some((bodies, rest)) => {
                            &&& after.dom() == before.dom()
                            &&& forall|t: usize| #[trigger]
                                before.dom().contains(t) ==> queued(
                                    before[t],
                                    after[t],
                                    deliveries(bodies),
                                ) && after[t].buffered() == if t == token {
                                    rest
                                } else {
                                    before[t].buffered()
                                }
                            &&& action_views(actions@) == reactions(
                                bodies,
                                before.dom(),
                                old(self).spec_id(),
                                old(self).first() as int,
                                old(self).first() + old(self).slots(),
                            ).push(ActionView::Reregister(token))
                        },
                    }
                }
            }),
    {
        let mut actions: Vec<Action> = Vec::new();
        let fed = match self.connections.get_mut(token) {
            Some(conn) => conn.readable(data),
            None => {
                return actions;
            },
        };
        let ghost held = old(self).connections().dom();
        let ghost lo = old(self).first() as int;
        let ghost hi = old(self).first() + old(self).slots();
        proof {
            assert(self.connections@.dom() =~= held);
        }
        let bodies = match fed {
            Ok(bodies) => bodies,
            Err(_) => {
                self.reset_connection(token);
                actions.push(Action::Close(token));
                proof {
                    assert(self.connections@ =~= old(self).connections@.remove(token));
                    assert(action_views(actions@) =~= seq![ActionView::Close(token)]);
                }
                return actions;
            },
        };
        let ghost start = self.connections@;
        let ghost all = crate::frame::views(bodies@);
        let mut i: usize = 0;
        proof {
            assert(all.take(0) =~= Seq::<Seq<u8>>::empty());
            assert(action_views(actions@) =~= Seq::<ActionView>::empty());
            assert forall|t: usize| #[trigger] held.contains(t) implies queued(
                start[t],
                start[t],
                Seq::<Seq<u8>>::empty(),
            ) by {
                assert(start[t].queue() + Seq::<Seq<u8>>::empty() =~= start[t].queue());
            }
        }
        while i < bodies.len()
            invariant
                i <= bodies@.len(),
                all == crate::frame::views(bodies@),
                self.wf(),
                self.spec_id() == old(self).spec_id(),
                self.slots() == old(self).slots(),
                self.first() == old(self).first(),
                lo == old(self).first() as int,
                hi == old(self).first() + old(self).slots(),
                held == old(self).connections().dom(),
                start.dom() == held,
                self.connections@.dom() == held,
                forall|t: usize| #[trigger]
                    held.contains(t) ==> queued(
                        start[t],
                        self.connections@[t],
                        deliveries(all.take(i as int)),
                    ) && self.connections@[t].buffered() == start[t].buffered(),
                action_views(actions@) == reactions(
                    all.take(i as int),
                    held,
                    old(self).spec_id(),
                    lo,
                    hi,
                ),
            decreases bodies@.len() - i,
        {
            let ghost current = self.connections@;
            let ghost sofar = deliveries(all.take(i as int));
            let ghost listed = action_views(actions@);
            let mut more = self.receive(bodies[i].as_slice());
            let ghost added = action_views(more@);
            actions.append(&mut more);
            proof {
                let body = bodies@[i as int]@;
                assert(all[i as int] == body);
                assert(all.take(i + 1).drop_last() =~= all.take(i as int));
                assert(all.take(i + 1).last() == body);
                assert(action_views(actions@) =~= listed + added);
                assert forall|t: usize| #[trigger] held.contains(t) implies queued(
                    start[t],
                    self.connections@[t],
                    deliveries(all.take(i + 1)),
                ) && self.connections@[t].buffered() == start[t].buffered() by {
                    assert(current.dom().contains(t));
                    assert(queued(current[t], self.connections@[t], delivery_of(body)));
                    assert((start[t].queue() + sofar) + delivery_of(body) =~= start[t].queue() + (
                    sofar + delivery_of(body)));
                }
            }
            i += 1;
        }
        actions.push(Action::Reregister(token));
        proof {
            assert(all.take(i as int) =~= all);
            assert(action_views(actions@) =~= reactions(all, held, old(self).spec_id(), lo, hi).push(
                ActionView::Reregister(token),
            ));
        }
        actions
    }

    /// Deals with a notification. A socket handed over is accepted; the
    /// result of a command is posted under the name `nobody`, whoever asked
    /// for it, to this worker's connections and to the peers; a post
    /// forwarded by a peer is delivered here only.
    pub fn notify(&mut self, msg: Message) -> (actions: Vec<Action>)
        requires
            old(self).wf(),
        ensures
            final(self).wf(),
            final(self).spec_id() == old(self).spec_id(),
            final(self).slots() == old(self).slots(),
            ({
                let before = old(self).connections();
                let after = final(self).connections();
                let lo = old(self).first() as int;
                let hi = old(self).first() + old(self).slots();
                match msg {
                    Message::NewConnection => actions@.len() == 1 && accepted(
                        before,
                        after,
                        old(self).slots(),
                        actions@[0]@,
                    ),
                    Message::TaskFinished { user, result } => {
                        let lines = crate::post::lines_of(result@);
                        &&& delivered_to_all(
                            before,
                            after,
                            if post_body("nobody"@, lines).len() <= MAX_FRAME {
                                seq![frame(post_body("nobody"@, lines))]
                            } else {
                                Seq::empty()
                            },
                        )
                        &&& action_views(actions@) == posting(
                            "nobody"@,
                            lines,
                            before.dom(),
                            lo,
                            hi,
                        )
                    },
                    Message::NewPost(post) => if post.body().len() <= MAX_FRAME {
                        &&& delivered_to_all(before, after, seq![frame(post.body())])
                        &&& action_views(actions@) == rearms(before.dom(), lo, hi)
                    } else {
                        &&& delivered_to_all(before, after, Seq::empty())
                        &&& actions@.len() == 0
                    },
                }
            }),
    {
        match msg {
            Message::NewConnection => {
                let action = self.accept();
                let mut actions: Vec<Action> = Vec::new();
                actions.push(action);
                actions
            },
            Message::TaskFinished { user: _, result } => self.broadcast_all(Post::reply(result)),
            Message::NewPost(post) => match post.to_bytes() {
                Ok(frame) => self.broadcast_local(frame.as_slice()),
                Err(_) => {
                    proof {
                        self.lemma_nothing_delivered();
                    }
                    Vec::new()
                },
            },
        }
    }

    /// Leaving the connections alone is delivering nothing.
    pub proof fn lemma_nothing_delivered(&self)
        requires
            self.wf(),
        ensures
            delivered_to_all(self.connections(), self.connections(), Seq::empty()),
    {
        assert forall|t: usize| #[trigger] self.connections().dom().contains(t) implies queued(
            self.connections()[t],
            self.connections()[t],
            Seq::<Seq<u8>>::empty(),
        ) by {
            let c = self.connections()[t];
            assert(c.queue() + Seq::<Seq<u8>>::empty() =~= c.queue());
        }
    }
}

/// Delivery keeps order: what was outstanding for a connection still goes
/// out first, then the delivered frames, each once and in the order of
/// delivery. A connection that was drained gets exactly the frames.
pub proof fn lemma_delivery_in_order(before: Connection, after: Connection, frames: Seq<Seq<u8>>)
    requires
        before.wf(),
        queued(before, after, frames),
    ensures
        after.outstanding() == before.outstanding() + concat(frames),
        before.outstanding().len() == 0 ==> after.outstanding() == concat(frames),
{
    crate::connection::lemma_concat_append(before.queue(), frames);
    crate::connection::lemma_concat_first(before.queue());
    assert(after.outstanding() =~= before.outstanding() + concat(frames));
    if before.outstanding().len() == 0 {
        assert(before.outstanding() + concat(frames) =~= concat(frames));
    }
}

/// Every other worker is a peer exactly once, and no worker is its own peer.
pub proof fn lemma_peers_once(index: usize, n_workers: usize)
    ensures
        forall|k: int|
            0 <= k < peers_of(index, n_workers).len() ==> (#[trigger] peers_of(
                index,
                n_workers,
            )[k]) < n_workers && peers_of(index, n_workers)[k] != index,
        forall|j: int, k: int|
            0 <= j < k < peers_of(index, n_workers).len() ==> peers_of(index, n_workers)[j]
                < peers_of(index, n_workers)[k],
        forall|p: usize|
            p < n_workers && p != index ==> #[trigger] peers_of(index, n_workers).contains(p),
{
    let peers = peers_of(index, n_workers);
    assert forall|p: usize| p < n_workers && p != index implies #[trigger] peers.contains(
        p,
    ) by {
        let k = if p < index {
            p as int
        } else {
            p - 1
        };
        assert(0 <= k < peers.len() && peers[k] == p);
    }
}

/// The rearms of a range: one for each held token of the range, in rising
/// order of the tokens, and nothing else.
pub proof fn lemma_rearms_once(held: Set<usize>, lo: int, hi: int)
    requires
        0 <= lo <= hi <= usize::MAX,
    ensures
        forall|i: int|
            0 <= i < rearms(held, lo, hi).len() ==> lo <= rearmed(
                #[trigger] rearms(held, lo, hi)[i],
            ) < hi && held.contains(rearmed(rearms(held, lo, hi)[i]) as usize),
        forall|i: int, j: int|
            0 <= i < j < rearms(held, lo, hi).len() ==> rearmed(rearms(held, lo, hi)[i])
                < rearmed(rearms(held, lo, hi)[j]),
        forall|t: usize|
            held.contains(t) && lo <= t < hi ==> exists|i: int|
                0 <= i < rearms(held, lo, hi).len() && #[trigger] rearms(held, lo, hi)[i]
                    == ActionView::Reregister(t),
    decreases hi - lo,
{
    if lo < hi {
        lemma_rearms_once(held, lo, hi - 1);
        let most = rearms(held, lo, hi - 1);
        let all = rearms(held, lo, hi);
        let last = (hi - 1) as usize;
        assert forall|t: usize| held.contains(t) && lo <= t < hi implies exists|i: int|
            0 <= i < all.len() && #[trigger] all[i] == ActionView::Reregister(t) by {
            if t == last {
                assert(all[all.len() - 1] == ActionView::Reregister(t));
            } else {
                let i = choose|i: int|
                    0 <= i < most.len() && #[trigger] most[i] == ActionView::Reregister(t);
                assert(all[i] == ActionView::Reregister(t));
            }
        }
    }
}

/// Posting reaches everyone once. On the worker that posts, the actions are
/// one order to forward the post to the peers and then one rearm for each
/// connection. There, and on every peer that delivers the forwarded post,
/// each connection has the post's frame queued exactly once, behind what was
/// queued for it before.
pub proof fn lemma_posting_once(
    author: Seq<char>,
    lines: Seq<Seq<char>>,
    before: Map<usize, Connection>,
    after: Map<usize, Connection>,
    lo: int,
    hi: int,
)
    requires
        post_body(author, lines).len() <= MAX_FRAME,
        0 <= lo <= hi <= usize::MAX,
        forall|t: usize| #[trigger] before.dom().contains(t) ==> lo <= t < hi && before[t].wf(),
        delivered_to_all(before, after, seq![frame(post_body(author, lines))]),
    ensures
        posting(author, lines, before.dom(), lo, hi)[0] == ActionView::Forward(author, lines),
        forall|i: int|
            1 <= i < posting(author, lines, before.dom(), lo, hi).len() ==> before.dom().contains(
                rearmed(#[trigger] posting(author, lines, before.dom(), lo, hi)[i]) as usize,
            ) && rearmed(posting(author, lines, before.dom(), lo, hi)[i]) >= 0,
        forall|i: int, j: int|
            1 <= i < j < posting(author, lines, before.dom(), lo, hi).len() ==> rearmed(
                posting(author, lines, before.dom(), lo, hi)[i],
            ) < rearmed(posting(author, lines, before.dom(), lo, hi)[j]),
        forall|t: usize|
            before.dom().contains(t) ==> exists|i: int|
                1 <= i < posting(author, lines, before.dom(), lo, hi).len() && #[trigger] posting(
                    author,
                    lines,
                    before.dom(),
                    lo,
                    hi,
                )[i] == ActionView::Reregister(t),
        forall|t: usize| #[trigger]
            before.dom().contains(t) ==> after[t].queue() == before[t].queue().push(
                frame(post_body(author, lines)),
            ) && after[t].outstanding() == before[t].outstanding() + frame(
                post_body(author, lines),
            ),
{
    let held = before.dom();
    let sent = frame(post_body(author, lines));
    let all = posting(author, lines, held, lo, hi);
    let tail = rearms(held, lo, hi);
    lemma_rearms_once(held, lo, hi);
    assert forall|i: int| 1 <= i < all.len() implies #[trigger] all[i] == tail[i - 1] by {}
    assert forall|t: usize| held.contains(t) implies exists|i: int|
        1 <= i < all.len() && #[trigger] all[i] == ActionView::Reregister(t) by {
        let k = choose|k: int|
            0 <= k < tail.len() && #[trigger] tail[k] == ActionView::Reregister(t);
        assert(all[k + 1] == ActionView::Reregister(t));
    }
    assert forall|t: usize| #[trigger] held.contains(t) implies after[t].queue()
        == before[t].queue().push(sent) && after[t].outstanding() == before[t].outstanding()
        + sent by {
        lemma_delivery_in_order(before[t], after[t], seq![sent]);
        assert(before[t].queue() + seq![sent] =~= before[t].queue().push(sent));
        assert(seq![sent].skip(1) =~= Seq::<Seq<u8>>::empty());
        assert(concat(Seq::<Seq<u8>>::empty()) =~= Seq::<u8>::empty());
        assert(concat(seq![sent]) =~= sent);
    }
}

/// A command is delivered to nobody: the body of a post whose first line
/// begins with `/` queues nothing for any connection, and the only action
/// it asks for is the task for the executor.
pub proof fn lemma_command_not_delivered(
    body: Seq<u8>,
    author: Seq<char>,
    lines: Seq<Seq<char>>,
    cmd: Seq<char>,
    held: Set<usize>,
    id: usize,
    lo: int,
    hi: int,
)
    requires
        parse_post(body) == Some((author, lines)),
        command_of(lines) == Some(cmd),
    ensures
        delivery_of(body) == Seq::<Seq<u8>>::empty(),
        reaction(body, held, id, lo, hi) == seq![ActionView::Submit(author, cmd, id)],
{
}

/// Moving the bound of `below` up by one adds the token at the old bound, if
/// it is held.
pub proof fn lemma_below_step(held: Set<usize>, t: int)
    requires
        held.finite(),
        0 <= t < usize::MAX,
    ensures
        below(held, t).finite(),
        below(held, t).len() <= held.len(),
        !below(held, t).contains(t as usize),
        below(held, t + 1) == if held.contains(t as usize) {
            below(held, t).insert(t as usize)
        } else {
            below(held, t)
        },
{
    assert(below(held, t).subset_of(held));
    vstd::set_lib::lemma_len_subset(below(held, t), held);
    if held.contains(t as usize) {
        assert(below(held, t + 1) =~= below(held, t).insert(t as usize));
    } else {
        assert(below(held, t + 1) =~= below(held, t));
    }
}

/// When as many tokens lie below `t` as are held at all, every held token
/// lies below `t`.
pub proof fn lemma_below_full(held: Set<usize>, t: int)
    requires
        held.finite(),
        below(held, t).len() >= held.len(),
    ensures
        forall|k: usize| held.contains(k) ==> k < t,
{
    assert(below(held, t).subset_of(held));
    vstd::set_lib::lemma_len_subset(below(held, t), held);
    vstd::set_lib::lemma_subset_equality(below(held, t), held);
    assert forall|k: usize| held.contains(k) implies k < t by {
        assert(below(held, t).contains(k));
    }
}

/// A range without held tokens adds no rearms.
pub proof fn lemma_rearms_stop(held: Set<usize>, lo: int, t: int, hi: int)
    requires
        0 <= lo <= t <= hi <= usize::MAX,
        forall|k: usize| held.contains(k) ==> k < t,
    ensures
        rearms(held, lo, hi) == rearms(held, lo, t),
    decreases hi - t,
{
    if t < hi {
        lemma_rearms_stop(held, lo, t, hi - 1);
        assert(!held.contains((hi - 1) as usize));
    }
}

} // verus!
