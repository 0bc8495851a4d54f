//! The archive's read side that is plain logic: its data model, and how its SQL is composed.
pub mod model;
pub mod catalogue;
pub mod credits;
pub mod insight;
pub mod objects;
pub mod read;
pub mod reuse;
pub mod search;

use vstd::prelude::*;
use crate::text::{decimal, push_char, push_decimal, push_str};

verus! {

/// The schema version this build writes.
pub const SCHEMA_VERSION: i64 = 6;

/// The oldest schema version this build reads.
pub const MIN_SCHEMA_VERSION: i64 = 6;

/// Why a database cannot be read by this build.
#[derive(Debug, Clone, PartialEq, Eq)]
pub enum SchemaError {
    /// The file was never migrated at all.
    Unmigrated { path: String },
    /// The file is at a version outside what this build reads.
    Unsupported { path: String, found: i64 },
}

/// A signed number in decimal, with a minus sign where it is negative.
pub open spec fn signed_decimal(n: int) -> Seq<char> {
    if n < 0 {
        seq!['-'] + decimal((-n) as nat)
    } else {
        decimal(n as nat)
    }
}

/// What a schema error says, as a sentence for whoever runs the program.
pub open spec fn schema_message(e: SchemaError) -> Seq<char> {
    match e {
        SchemaError::Unmigrated { path } => path@
            + " has never been migrated. The archiver creates and migrates it; start the archiver first"@,
        SchemaError::Unsupported { path, found } => path@ + " is at schema version "@
            + signed_decimal(found as int) + ", but this build needs "@ + signed_decimal(
            MIN_SCHEMA_VERSION as int,
        ) + " to "@ + signed_decimal(SCHEMA_VERSION as int) + ". "@ + if found > SCHEMA_VERSION {
            "The database is newer than this binary; upgrade it."@
        } else {
            "The database is older than this binary; run the archiver to migrate it."@
        },
    }
}

fn push_signed(out: &mut String, n: i64)
    ensures
        final(out)@ == old(out)@ + signed_decimal(n as int),
{
    if n < 0 {
        push_char(out, '-');
        let ghost mid = out@;
        let magnitude: u64 = (0i128 - n as i128) as u64;
        push_decimal(out, magnitude);
        assert(out@ =~= old(out)@ + signed_decimal(n as int));
    } else {
        push_decimal(out, n as u64);
    }
}

impl SchemaError {
    /// What went wrong, as a sentence.
    pub fn message(&self) -> (s: String)
        ensures
            s@ == schema_message(*self),
    {
        let mut s = String::new();
        match self {
            SchemaError::Unmigrated { path } => {
                push_str(&mut s, path.as_str());
                push_str(
                    &mut s,
                    " has never been migrated. The archiver creates and migrates it; start the archiver first",
                );
            },
            SchemaError::Unsupported { path, found } => {
                push_str(&mut s, path.as_str());
                push_str(&mut s, " is at schema version ");
                push_signed(&mut s, *found);
                push_str(&mut s, ", but this build needs ");
                push_signed(&mut s, MIN_SCHEMA_VERSION);
                push_str(&mut s, " to ");
                push_signed(&mut s, SCHEMA_VERSION);
                push_str(&mut s, ". ");
                if *found > SCHEMA_VERSION {
                    push_str(&mut s, "The database is newer than this binary; upgrade it.");
                } else {
                    push_str(
                        &mut s,
                        "The database is older than this binary; run the archiver to migrate it.",
                    );
                }
            },
        }
        assert(s@ =~= schema_message(*self));
        s
    }
}

} // verus!
