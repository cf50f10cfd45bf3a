//! Where the snapshot database lives.
use vstd::prelude::*;

verus! {

/// The address of a database server.
#[derive(Debug, Clone)]
pub struct DatabaseConnInfo {
    pub url: String,
    pub port: u16,
}

impl DatabaseConnInfo {
    pub fn new(url: String, port: u16) -> (r: DatabaseConnInfo)
        ensures
            r.url@ == url@,
            r.port == port,
    {
        DatabaseConnInfo { url: url, port: port }
    }
}

/// Which database backend a connection is for.
#[derive(Debug, Clone, Copy, PartialEq, Eq, Structural)]
pub enum DatabaseType {
    Mongodb,
}

} // verus!
