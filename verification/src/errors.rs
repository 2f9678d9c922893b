//! What can go wrong, named by the operation that failed.
use crate::text::{concat, decimal, decimal_spec};
use vstd::prelude::*;

verus! {

/// What a store operation failed at.
///
/// The variants name the operation rather than the source: two engines
/// failing to write are the same kind of failure.
#[derive(Debug, Clone, Copy, PartialEq, Eq, Structural)]
pub enum StorageError {
    /// Opening or creating the store.
    Open,
    /// Reading a value.
    Read,
    /// Writing a value.
    Write,
    /// Removing a key or a subtree.
    Delete,
    /// Listing what is under a prefix.
    Scan,
    /// Getting what is buffered onto disk.
    Flush,
    /// Turning a value into the store's format, or reading it back.
    Codec,
    /// Reading or writing the schema bookkeeping.
    Meta,
    /// Bringing stored data up to the schema the code declares.
    Migrate,
    /// A name that cannot be a level, so nothing can be stored under it.
    Path,
    /// A path deeper than the store allows.
    Depth,
    /// A place another owner has already claimed.
    Claimed,
    /// A change the store could not hand on to a subscriber.
    Notify,
    /// The flush this commit was waiting on did not complete.
    CommitFailed,
}

/// What each failure says of itself.
pub open spec fn storage_error_text(e: StorageError) -> Seq<char> {
    match e {
        StorageError::Open => "the store could not be opened"@,
        StorageError::Read => "the store could not read"@,
        StorageError::Write => "the store could not write"@,
        StorageError::Delete => "the store could not delete"@,
        StorageError::Scan => "the store could not list a prefix"@,
        StorageError::Flush => "the store could not commit what it had buffered"@,
        StorageError::Codec => "the value could not be encoded or decoded"@,
        StorageError::Meta => "the schema bookkeeping could not be read or written"@,
        StorageError::Migrate => "the data could not be brought up to the declared schema"@,
        StorageError::Path => "a name that cannot be a level"@,
        StorageError::Depth => "a path deeper than this store allows"@,
        StorageError::Claimed => "a place another owner has already claimed"@,
        StorageError::Notify => "a change could not be handed to a subscriber"@,
        StorageError::CommitFailed => "the flush this commit was waiting on did not complete"@,
    }
}

impl StorageError {
    /// The sentence a report leads with.
    pub fn describe(&self) -> (r: &'static str)
        ensures
            r@ == storage_error_text(*self),
    {
        match self {
            StorageError::Open => "the store could not be opened",
            StorageError::Read => "the store could not read",
            StorageError::Write => "the store could not write",
            StorageError::Delete => "the store could not delete",
            StorageError::Scan => "the store could not list a prefix",
            StorageError::Flush => "the store could not commit what it had buffered",
            StorageError::Codec => "the value could not be encoded or decoded",
            StorageError::Meta => "the schema bookkeeping could not be read or written",
            StorageError::Migrate => "the data could not be brought up to the declared schema",
            StorageError::Path => "a name that cannot be a level",
            StorageError::Depth => "a path deeper than this store allows",
            StorageError::Claimed => "a place another owner has already claimed",
            StorageError::Notify => "a change could not be handed to a subscriber",
            StorageError::CommitFailed => "the flush this commit was waiting on did not complete",
        }
    }
}

/// A write a document engine cannot represent, refused rather than carried
/// out: a tree holds a value at a node or values under it, never both.
#[derive(Debug, Clone, PartialEq, Eq)]
pub enum Occupied {
    /// A value is stored at a level the write needs as a branch.
    Value { level: String },
    /// Values are stored under the level a plain value would replace.
    Branch { level: String },
}

impl Occupied {
    /// What the refusal says.
    pub fn message(&self) -> (r: String)
        ensures
            r@ == match self {
                Occupied::Value { level } => "`"@ + level@
                    + "` holds a value, so nothing can be stored under it"@,
                Occupied::Branch { level } => "`"@ + level@
                    + "` holds values under it, so a value cannot be stored at it"@,
            },
    {
        match self {
            Occupied::Value { level } => {
                let mut out = concat("`", level.as_str());
                out.append("` holds a value, so nothing can be stored under it");
                out
            },
            Occupied::Branch { level } => {
                let mut out = concat("`", level.as_str());
                out.append("` holds values under it, so a value cannot be stored at it");
                out
            },
        }
    }
}

/// Anything that can go wrong writing through a reactive primitive.
#[derive(Debug, Clone, PartialEq, Eq)]
pub enum WriteError {
    StorageError(StorageError),
    Intercepted,
    /// The addressed value is absent: a map key for maps, a store path for
    /// fields.
    KeyNotFound(String),
    /// A write aimed at a path a declared struct owns.
    SchemaOwned { path: String, prefix: String },
    /// The same path asked for as two different types in one run.
    TypeMismatch { path: String, known: String, asked: String },
}

/// Why a migration could not run.
#[derive(Debug, Clone, PartialEq, Eq)]
pub enum MigrationError {
    /// A value could not be encoded or decoded; the codec's own words.
    Codec(String),
    /// The chain of steps stops short of the version the code declares.
    Gap { prefix: String, reached_version: u32, expected_version: u32 },
    /// A step reached into a prefix whose own migration is already running.
    /// The whole chain is named, outermost first.
    Cycle(Vec<String>),
    Custom(String),
    /// The stored data is newer than the code.
    Downgrade { prefix: String, db_version: u32, code_version: u32 },
}

/// `items` joined by `sep`.
pub open spec fn joined_with(items: Seq<Seq<char>>, sep: Seq<char>) -> Seq<char>
    decreases items.len(),
{
    if items.len() == 0 {
        Seq::empty()
    } else if items.len() == 1 {
        items[0]
    } else {
        joined_with(items.drop_last(), sep) + sep + items.last()
    }
}

impl MigrationError {
    /// What the failure says.
    pub fn message(&self) -> (r: String)
        ensures
            r@ == match self {
                MigrationError::Codec(why) => why@,
                MigrationError::Gap { prefix, reached_version, expected_version } =>
                    "Migration chain gap for ["@ + prefix@ + "]: reached v"@ + decimal_spec(
                    *reached_version as nat,
                ) + ", expected v"@ + decimal_spec(*expected_version as nat),
                MigrationError::Cycle(chain) => "a migration reached round to where it started: "@
                    + joined_with(crate::path::strings_view(chain@), " -> "@),
                MigrationError::Custom(why) => "Migration error: "@ + why@,
                MigrationError::Downgrade { prefix, db_version, code_version } =>
                    "Downgrade detected for ["@ + prefix@ + "]: DB v"@ + decimal_spec(
                    *db_version as nat,
                ) + ", Code v"@ + decimal_spec(*code_version as nat),
            },
    {
        match self {
            MigrationError::Codec(why) => crate::text::owned(why.as_str()),
            MigrationError::Gap { prefix, reached_version, expected_version } => {
                let mut out = concat("Migration chain gap for [", prefix.as_str());
                out.append("]: reached v");
                out.append(decimal(*reached_version as u64).as_str());
                out.append(", expected v");
                out.append(decimal(*expected_version as u64).as_str());
                out
            },
            MigrationError::Cycle(chain) => {
                let mut out = crate::text::owned("a migration reached round to where it started: ");
                let ghost head = out@;
                let mut i: usize = 0;
                while i < chain.len()
                    invariant
                        i <= chain@.len(),
                        out@ == head + joined_with(
                            crate::path::strings_view(chain@).subrange(0, i as int),
                            " -> "@,
                        ),
                    decreases chain@.len() - i,
                {
                    if i > 0 {
                        out.append(" -> ");
                    }
                    out.append(chain[i].as_str());
                    proof {
                        let s = crate::path::strings_view(chain@).subrange(0, i + 1);
                        assert(s.drop_last() =~= crate::path::strings_view(chain@).subrange(
                            0,
                            i as int,
                        ));
                        if i == 0 {
                            assert(joined_with(s, " -> "@) == s[0]);
                        }
                    }
                    i = i + 1;
                }
                proof {
                    assert(crate::path::strings_view(chain@).subrange(0, chain@.len() as int)
                        =~= crate::path::strings_view(chain@));
                }
                out
            },
            MigrationError::Custom(why) => concat("Migration error: ", why.as_str()),
            MigrationError::Downgrade { prefix, db_version, code_version } => {
                let mut out = concat("Downgrade detected for [", prefix.as_str());
                out.append("]: DB v");
                out.append(decimal(*db_version as u64).as_str());
                out.append(", Code v");
                out.append(decimal(*code_version as u64).as_str());
                out
            },
        }
    }
}

/// Why a value could not be measured.
#[derive(Debug, Clone, PartialEq, Eq)]
pub enum DepthError {
    /// It nests further than the limit, and stopped being followed there.
    TooDeep { limit: usize },
    /// The value's own serialization refused, before depth came into it.
    Refused(String),
}

} // verus!
