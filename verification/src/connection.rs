//! One client session.

use vstd::prelude::*;
use crate::catalog_entry::ClientContext;

verus! {

/// One client session of a database.
#[derive(Debug, Clone, Copy)]
pub struct Connection {
    /// Identifies the connection among the connections of its database.
    pub id: u64,
    /// What the statements of the connection run in.
    pub context: ClientContext,
}

impl Connection {
    /// A connection that has no transaction open.
    pub fn new(id: u64) -> (connection: Self)
        ensures
            connection.id == id,
            connection.context.transaction is None,
    {
        Connection { id, context: ClientContext { transaction: None } }
    }
}

} // verus!
