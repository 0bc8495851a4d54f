//! How the archive's database is to be opened.
use vstd::prelude::*;

verus! {

/// How many connections read at once unless told otherwise.
pub const DEFAULT_READERS: u32 = 4;

/// How long a connection waits on a lock unless told otherwise, in milliseconds.
pub const DEFAULT_BUSY_TIMEOUT_MS: u64 = 5000;

/// Whether the database may be written.
#[derive(Debug, Clone, Copy, PartialEq, Eq, Structural)]
pub enum Access {
    ReadOnly,
    ReadWrite,
}

/// Where the database lives and how it is to be opened.
#[derive(Debug, Clone)]
pub struct DbConfig {
    pub path: String,
    pub access: Access,
    pub readers: u32,
    /// How long a connection waits on a lock, in milliseconds.
    pub busy_timeout_ms: u64,
}

impl DbConfig {
    pub fn read_only(path: String) -> (c: DbConfig)
        ensures
            c.path == path,
            c.access == Access::ReadOnly,
            c.readers == DEFAULT_READERS,
            c.busy_timeout_ms == DEFAULT_BUSY_TIMEOUT_MS,
    {
        DbConfig::new(path, Access::ReadOnly)
    }

    pub fn read_write(path: String) -> (c: DbConfig)
        ensures
            c.path == path,
            c.access == Access::ReadWrite,
            c.readers == DEFAULT_READERS,
            c.busy_timeout_ms == DEFAULT_BUSY_TIMEOUT_MS,
    {
        DbConfig::new(path, Access::ReadWrite)
    }

    fn new(path: String, access: Access) -> (c: DbConfig)
        ensures
            c.path == path,
            c.access == access,
            c.readers == DEFAULT_READERS,
            c.busy_timeout_ms == DEFAULT_BUSY_TIMEOUT_MS,
    {
        DbConfig { path, access, readers: DEFAULT_READERS, busy_timeout_ms: DEFAULT_BUSY_TIMEOUT_MS }
    }

    /// The same configuration with `readers` reading connections, at least one.
    pub fn with_readers(self, readers: u32) -> (c: DbConfig)
        ensures
            c.path == self.path,
            c.access == self.access,
            c.busy_timeout_ms == self.busy_timeout_ms,
            c.readers == if readers < 1 {
                1
            } else {
                readers
            },
    {
        let mut c = self;
        c.readers = if readers < 1 {
            1
        } else {
            readers
        };
        c
    }

    /// The same configuration waiting `busy_timeout_ms` milliseconds on a lock.
    pub fn with_busy_timeout(self, busy_timeout_ms: u64) -> (c: DbConfig)
        ensures
            c.path == self.path,
            c.access == self.access,
            c.readers == self.readers,
            c.busy_timeout_ms == busy_timeout_ms,
    {
        let mut c = self;
        c.busy_timeout_ms = busy_timeout_ms;
        c
    }
}

} // verus!
