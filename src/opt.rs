//! The broker's settings.
use vstd::prelude::*;

verus! {

#[derive(Debug)]
pub struct Opt {
    /// The address to listen on.
    pub addr: String,
    /// How many connections may be open at once.
    pub max_connection: usize,
    /// How many sessions the store keeps; by default as many as connections.
    pub max_session: Option<usize>,
    /// The filter expression handed to the logger.
    pub log_filter: String,
}

impl Opt {
    /// The capacity of the session store.
    pub fn session_capacity(&self) -> (r: usize)
        ensures
            r == match self.max_session {
                Some(n) => n,
                None => self.max_connection,
            },
    {
        match self.max_session {
            Some(n) => n,
            None => self.max_connection,
        }
    }
}

} // verus!
