//! The registry of a worker: a slab of connections of fixed capacity, each
//! under a token from the worker's own range. The slab is `mio::util::Slab`;
//! what it holds is stated over `slab_entries`.

use crate::connection::Connection;
use vstd::prelude::*;

verus! {

/// The slab of `mio` that holds the connections. It is kept behind this
/// opaque struct because the slab's index parameter is bound by a trait of
/// its crate, which Verus cannot be told about.
#[verifier::external_body]
pub struct ConnSlab {
    inner: mio::util::Slab<Connection>,
}

/// The connections in a slab, by token.
pub uninterp spec fn slab_entries(table: ConnSlab) -> Map<usize, Connection>;

/// The first token of the range that a slab was made for.
pub uninterp spec fn slab_first(table: ConnSlab) -> usize;

/// The number of slots that a slab was made with.
pub uninterp spec fn slab_capacity(table: ConnSlab) -> usize;

/// The registry that holds nothing.
pub open spec fn no_connections() -> Map<usize, Connection> {
    Map::empty()
}

/// Calls `Slab::new_starting_at`: trusted to return an empty table for the
/// tokens `first .. first + capacity`. The call adds 1 to `capacity` and the
/// table later adds slot numbers to `first`, hence the `requires`.
#[verifier::external_body]
fn slab_new(first: usize, capacity: usize) -> (table: ConnSlab)
    requires
        first + capacity < usize::MAX,
    ensures
        slab_entries(table) == no_connections(),
        slab_first(table) == first,
        slab_capacity(table) == capacity,
{
    ConnSlab { inner: mio::util::Slab::new_starting_at(mio::Token(first), capacity) }
}

/// Calls `Slab::count`: trusted to return the number of connections held.
#[verifier::external_body]
fn slab_count(table: &ConnSlab) -> (n: usize)
    ensures
        n == slab_entries(*table).dom().len(),
{
    table.inner.count()
}

/// Calls `Slab::insert_with` with `Connection::new`: trusted to put a new
/// connection under a token of the table's range that was free, and to return
/// that token; to return `None` and change nothing exactly when all slots
/// are taken.
#[verifier::external_body]
fn slab_insert_with(table: &mut ConnSlab) -> (r: Option<usize>)
    ensures
        slab_first(*final(table)) == slab_first(*old(table)),
        slab_capacity(*final(table)) == slab_capacity(*old(table)),
        r is None <==> slab_entries(*old(table)).dom().len() >= slab_capacity(*old(table)),
        match r {
            Some(token) => {
                &&& slab_first(*old(table)) <= token < slab_first(*old(table)) + slab_capacity(
                    *old(table),
                )
                &&& !slab_entries(*old(table)).dom().contains(token)
                &&& slab_entries(*final(table)) == slab_entries(*old(table)).insert(
                    token,
                    slab_entries(*final(table))[token],
                )
                &&& slab_entries(*final(table))[token].is_new(token)
            },
            None => slab_entries(*final(table)) == slab_entries(*old(table)),
        },
{
    table.inner.insert_with(|token| Connection::new(token.as_usize())).map(|token| token.as_usize())
}

/// Calls `Slab::remove`: trusted to take out the connection under `token`
/// and to return it. On a slot that holds nothing the call would damage the
/// table's list of free slots, hence the `requires`.
#[verifier::external_body]
fn slab_remove(table: &mut ConnSlab, token: usize) -> (r: Option<Connection>)
    requires
        slab_entries(*old(table)).dom().contains(token),
        slab_first(*old(table)) <= token < slab_first(*old(table)) + slab_capacity(*old(table)),
    ensures
        slab_first(*final(table)) == slab_first(*old(table)),
        slab_capacity(*final(table)) == slab_capacity(*old(table)),
        slab_entries(*final(table)) == slab_entries(*old(table)).remove(token),
        r == Some(slab_entries(*old(table))[token]),
{
    table.inner.remove(mio::Token(token))
}

/// Calls `Slab::get`: trusted to return the connection under `token`, if
/// there is one. The table may panic on a token beyond its range, hence the
/// `requires`.
#[verifier::external_body]
fn slab_get(table: &ConnSlab, token: usize) -> (r: Option<&Connection>)
    requires
        slab_first(*table) <= token < slab_first(*table) + slab_capacity(*table),
    ensures
        r == if slab_entries(*table).dom().contains(token) {
            Some(&slab_entries(*table)[token])
        } else {
            None
        },
{
    table.inner.get(mio::Token(token))
}

/// Calls `Slab::get_mut`: trusted to lend the connection under `token`, if
/// there is one; what the borrower leaves in it is what the table then holds
/// under `token`. The table may panic on a token beyond its range, hence the
/// `requires`.
#[verifier::external_body]
fn slab_get_mut(table: &mut ConnSlab, token: usize) -> (r: Option<&mut Connection>)
    requires
        slab_first(*old(table)) <= token < slab_first(*old(table)) + slab_capacity(*old(table)),
    ensures
        slab_first(*final(table)) == slab_first(*old(table)),
        slab_capacity(*final(table)) == slab_capacity(*old(table)),
        match r {
            Some(conn) => {
                &&& slab_entries(*old(table)).dom().contains(token)
                &&& *conn == slab_entries(*old(table))[token]
                &&& slab_entries(*final(table)) == slab_entries(*old(table)).insert(
                    token,
                    *final(conn),
                )
            },
            None => {
                &&& !slab_entries(*old(table)).dom().contains(token)
                &&& slab_entries(*final(table)) == slab_entries(*old(table))
            },
        },
{
    table.inner.get_mut(mio::Token(token))
}

/// A slab of connections together with the range it was made for.
pub struct Registry {
    table: ConnSlab,
    first: usize,
    capacity: usize,
}

impl View for Registry {
    type V = Map<usize, Connection>;

    /// The connections held, by token.
    closed spec fn view(&self) -> Map<usize, Connection> {
        slab_entries(self.table)
    }
}

impl Registry {
    /// The first token of the registry's range.
    pub closed spec fn spec_first(&self) -> usize {
        self.first
    }

    /// The number of slots.
    pub closed spec fn spec_capacity(&self) -> usize {
        self.capacity
    }

    pub closed spec fn slab_wf(&self) -> bool {
        &&& slab_first(self.table) == self.first
        &&& slab_capacity(self.table) == self.capacity
        &&& self.first + self.capacity < usize::MAX
    }

    /// Whether `token` lies in the registry's range.
    pub open spec fn in_range(&self, token: usize) -> bool {
        self.spec_first() <= token < self.spec_first() + self.spec_capacity()
    }

    /// The invariant of a registry: finitely many connections, no more than
    /// there are slots, each well formed, within the range, and filed under
    /// its own token.
    pub open spec fn wf(&self) -> bool {
        &&& self.slab_wf()
        &&& self@.dom().finite()
        &&& self@.dom().len() <= self.spec_capacity()
        &&& forall|t: usize| #[trigger]
            self@.dom().contains(t) ==> self.in_range(t) && self@[t].wf() && self@[t].token() == t
    }

    /// An empty registry for the tokens `first .. first + capacity`.
    pub fn new(first: usize, capacity: usize) -> (r: Registry)
        requires
            first + capacity < usize::MAX,
        ensures
            r.wf(),
            r@ == no_connections(),
            r.spec_first() == first,
            r.spec_capacity() == capacity,
    {
        Registry { table: slab_new(first, capacity), first, capacity }
    }

    #[verifier::when_used_as_spec(spec_first)]
    pub fn first(&self) -> (t: usize)
        ensures
            t == self.spec_first(),
    {
        self.first
    }

    #[verifier::when_used_as_spec(spec_capacity)]
    pub fn capacity(&self) -> (n: usize)
        ensures
            n == self.spec_capacity(),
    {
        self.capacity
    }

    /// The number of connections held.
    pub fn count(&self) -> (n: usize)
        requires
            self.wf(),
        ensures
            n == self@.dom().len(),
            n <= self.spec_capacity(),
    {
        slab_count(&self.table)
    }

    /// Whether a connection is held under `token`.
    pub fn contains(&self, token: usize) -> (b: bool)
        requires
            self.wf(),
        ensures
            b == self@.dom().contains(token),
    {
        if token < self.first || token - self.first >= self.capacity {
            false
        } else {
            slab_get(&self.table, token).is_some()
        }
    }

    /// The connection under `token`, if there is one.
    pub fn get(&self, token: usize) -> (r: Option<&Connection>)
        requires
            self.wf(),
        ensures
            r == if self@.dom().contains(token) {
                Some(&self@[token])
            } else {
                None
            },
    {
        if token < self.first || token - self.first >= self.capacity {
            None
        } else {
            slab_get(&self.table, token)
        }
    }

    /// Puts a new connection into a free slot and returns its token, which
    /// no connection held before. When every slot is taken, returns `None`
    /// and leaves the registry as it is.
    pub fn insert(&mut self) -> (r: Option<usize>)
        requires
            old(self).wf(),
        ensures
            final(self).wf(),
            final(self).spec_first() == old(self).spec_first(),
            final(self).spec_capacity() == old(self).spec_capacity(),
            r is None <==> old(self)@.dom().len() == old(self).spec_capacity(),
            match r {
                Some(token) => {
                    &&& !old(self)@.dom().contains(token)
                    &&& final(self).in_range(token)
                    &&& final(self)@ == old(self)@.insert(token, final(self)@[token])
                    &&& final(self)@[token].is_new(token)
                },
                None => final(self)@ == old(self)@,
            },
    {
        let r = slab_insert_with(&mut self.table);
        proof {
            if let Some(token) = r {
                assert(self@.dom() =~= old(self)@.dom().insert(token));
            }
        }
        r
    }

    /// Takes out the connection under `token`, if there is one; a token that
    /// holds nothing, or lies outside the range, changes nothing. The slot is
    /// free for the next `insert`.
    pub fn remove(&mut self, token: usize) -> (r: Option<Connection>)
        requires
            old(self).wf(),
        ensures
            final(self).wf(),
            final(self).spec_first() == old(self).spec_first(),
            final(self).spec_capacity() == old(self).spec_capacity(),
            final(self)@ == old(self)@.remove(token),
            r == if old(self)@.dom().contains(token) {
                Some(old(self)@[token])
            } else {
                None
            },
    {
        if !self.contains(token) {
            assert(self@ =~= old(self)@.remove(token));
            None
        } else {
            let r = slab_remove(&mut self.table, token);
            proof {
                assert(self@.dom() =~= old(self)@.dom().remove(token));
            }
            r
        }
    }

    /// Lends the connection under `token`, if there is one. The registry
    /// holds under `token` what the borrower leaves.
    pub fn get_mut(&mut self, token: usize) -> (r: Option<&mut Connection>)
        requires
            old(self).wf(),
        ensures
            final(self).slab_wf(),
            final(self).spec_first() == old(self).spec_first(),
            final(self).spec_capacity() == old(self).spec_capacity(),
            match r {
                Some(conn) => {
                    &&& old(self)@.dom().contains(token)
                    &&& *conn == old(self)@[token]
                    &&& final(self)@ == old(self)@.insert(token, *final(conn))
                },
                None => !old(self)@.dom().contains(token) && final(self)@ == old(self)@,
            },
    {
        if token < self.first || token - self.first >= self.capacity {
            None
        } else {
            slab_get_mut(&mut self.table, token)
        }
    }
}

/// Removing is idempotent: taking a token out a second time changes nothing.
pub proof fn lemma_remove_idempotent(registry: Map<usize, Connection>, token: usize)
    ensures
        registry.remove(token).remove(token) == registry.remove(token),
        !registry.remove(token).dom().contains(token),
        forall|t: usize|
            t != token && registry.dom().contains(t) ==> registry.remove(token).dom().contains(t)
                && #[trigger] registry.remove(token)[t] == registry[t],
{
    assert(registry.remove(token).remove(token) =~= registry.remove(token));
}

} // verus!
