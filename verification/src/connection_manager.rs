//! The connections that are open on a database.

use vstd::prelude::*;
use crate::connection::Connection;

verus! {

/// Whether the connection `id` stands at position `i` of `connections`.
pub open spec fn connection_at(connections: Seq<Connection>, i: int, id: u64) -> bool {
    0 <= i < connections.len() && connections[i].id == id
}

/// Whether `connections` holds a connection `id`.
pub open spec fn has_connection(connections: Seq<Connection>, id: u64) -> bool {
    exists|i: int| connection_at(connections, i, id)
}

/// The connections that are open on a database, each once.
pub struct ConnectionManager {
    connections: Vec<Connection>,
}

impl ConnectionManager {
    /// The connections, in the order in which they were added.
    pub closed spec fn view(&self) -> Seq<Connection> {
        self.connections@
    }

    /// The invariant: no two connections have the same identifier.
    pub open spec fn wf(&self) -> bool {
        forall|i: int, j: int|
            0 <= i < j < self@.len() ==> (#[trigger] self@[i]).id != (#[trigger] self@[j]).id
    }

    /// No connections.
    pub fn new() -> (manager: Self)
        ensures
            manager.wf(),
            manager@ == Seq::<Connection>::empty(),
    {
        ConnectionManager { connections: Vec::new() }
    }

    /// The position of the connection `id`.
    fn find(&self, id: u64) -> (r: Option<usize>)
        ensures
            match r {
                Some(i) => connection_at(self@, i as int, id),
                None => !has_connection(self@, id),
            },
    {
        let mut i: usize = 0;
        while i < self.connections.len()
            invariant
                i <= self.connections@.len(),
                forall|k: int| 0 <= k < i ==> !connection_at(self@, k, id),
            decreases self.connections@.len() - i,
        {
            if self.connections[i].id == id {
                return Some(i);
            }
            i += 1;
        }
        None
    }

    /// Adds `conn`, unless a connection with its identifier is there
    /// already.
    pub fn add_connection(&mut self, conn: Connection)
        requires
            old(self).wf(),
        ensures
            final(self).wf(),
            final(self)@ == if has_connection(old(self)@, conn.id) {
                old(self)@
            } else {
                old(self)@.push(conn)
            },
    {
        if self.find(conn.id).is_none() {
            self.connections.push(conn);
            proof {
                assert forall|i: int, j: int| 0 <= i < j < self@.len() implies (
                #[trigger] self@[i]).id != (#[trigger] self@[j]).id by {
                    if j == old(self)@.len() {
                        assert(!connection_at(old(self)@, i, conn.id));
                    }
                }
            }
        }
    }

    /// Removes the connection with the identifier of `conn`, if it is there.
    pub fn remove_connection(&mut self, conn: &Connection)
        requires
            old(self).wf(),
        ensures
            final(self).wf(),
            !has_connection(final(self)@, conn.id),
            match choose_position(old(self)@, conn.id) {
                Some(i) => final(self)@ == old(self)@.remove(i),
                None => final(self)@ == old(self)@,
            },
    {
        match self.find(conn.id) {
            Some(i) => {
                let ghost before = self@;
                self.connections.remove(i);
                proof {
                    lemma_position(before, i as int, conn.id);
                    assert forall|a: int, b: int| 0 <= a < b < self@.len() implies (
                    #[trigger] self@[a]).id != (#[trigger] self@[b]).id by {
                        let a0 = if a < i { a } else { a + 1 };
                        let b0 = if b < i { b } else { b + 1 };
                        assert(before[a0].id != before[b0].id);
                    }
                    assert forall|k: int| !connection_at(self@, k, conn.id) by {
                        if connection_at(self@, k, conn.id) {
                            let k0 = if k < i { k } else { k + 1 };
                            if k0 < i {
                                assert(before[k0].id != before[i as int].id);
                            } else {
                                assert(before[i as int].id != before[k0].id);
                            }
                        }
                    }
                }
            },
            None => {},
        }
    }

    /// How many connections are open.
    pub fn len(&self) -> (n: usize)
        ensures
            n == self@.len(),
    {
        self.connections.len()
    }

    /// Calls `callback` on each connection, in the order in which the
    /// connections were added, and collects what it returns.
    pub fn scan<R, F: Fn(&Connection) -> R>(&self, callback: F) -> (results: Vec<R>)
        requires
            forall|i: int| 0 <= i < self@.len() ==> callback.requires((&#[trigger] self@[i],)),
        ensures
            results@.len() == self@.len(),
            forall|i: int|
                0 <= i < self@.len() ==> callback.ensures((&self@[i],), #[trigger] results@[i]),
    {
        let mut results: Vec<R> = Vec::new();
        let mut i: usize = 0;
        while i < self.connections.len()
            invariant
                i <= self.connections@.len(),
                results@.len() == i,
                forall|k: int|
                    0 <= k < self@.len() ==> callback.requires((&#[trigger] self@[k],)),
                forall|k: int| 0 <= k < i ==> callback.ensures((&self@[k],), #[trigger] results@[k]),
            decreases self.connections@.len() - i,
        {
            assert(callback.requires((&self@[i as int],)));
            let r = callback(&self.connections[i]);
            results.push(r);
            i += 1;
        }
        results
    }
}

/// The position of the connection `id` in `connections`, if it is there.
pub open spec fn choose_position(connections: Seq<Connection>, id: u64) -> Option<int> {
    if has_connection(connections, id) {
        Some(choose|i: int| connection_at(connections, i, id))
    } else {
        None
    }
}

/// Among connections with different identifiers a connection stands at one
/// position only.
pub proof fn lemma_position(connections: Seq<Connection>, i: int, id: u64)
    requires
        forall|a: int, b: int|
            0 <= a < b < connections.len() ==> (#[trigger] connections[a]).id != (
            #[trigger] connections[b]).id,
        connection_at(connections, i, id),
    ensures
        choose_position(connections, id) == Some(i),
{
    let j = choose|j: int| connection_at(connections, j, id);
    if i < j {
        assert(connections[i].id != connections[j].id);
    } else if j < i {
        assert(connections[j].id != connections[i].id);
    }
}

} // verus!
