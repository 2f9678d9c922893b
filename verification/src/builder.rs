//! Which engine backs a store, and what each one can read back.
use crate::scan::CodecFormat;
use vstd::prelude::*;

verus! {

/// Which engine backs a store.
#[derive(Debug, Clone, Copy, PartialEq, Eq, Structural)]
pub enum Backend {
    Redb,
    Json,
    Toml,
    Ron,
    Sqlite,
}

/// The file extension a store on `b` is given.
pub open spec fn extension_spec(b: Backend) -> Seq<char> {
    match b {
        Backend::Redb => "redb"@,
        Backend::Json => "json"@,
        Backend::Toml => "toml"@,
        Backend::Ron => "ron"@,
        Backend::Sqlite => "db"@,
    }
}

/// How many levels the engine's codec reads back. A write deeper than this
/// is accepted and cannot be read again, so it is refused before it lands.
pub open spec fn ceiling_spec(b: Backend) -> nat {
    match b {
        Backend::Redb => 512,
        Backend::Json => 128,
        Backend::Toml => 80,
        Backend::Ron => 64,
        Backend::Sqlite => 254,
    }
}

/// Whether a `NaN` or an infinity survives a round trip: JSON has no
/// spelling for either, so json and sqlite write `null`.
pub open spec fn holds_non_finite_floats_spec(b: Backend) -> bool {
    !(b == Backend::Json || b == Backend::Sqlite)
}

/// Whether an enum of any shape survives a round trip: ron reads one back as
/// a sequence.
pub open spec fn holds_enums_spec(b: Backend) -> bool {
    b != Backend::Ron
}

/// What the engine's codec answers to `is_human_readable`: only the binary
/// codec says no.
pub open spec fn human_readable_spec(b: Backend) -> bool {
    b != Backend::Redb
}

/// The codec each engine writes with.
pub open spec fn codec_spec(b: Backend) -> CodecFormat {
    match b {
        Backend::Redb => CodecFormat::MessagePack,
        Backend::Json => CodecFormat::Json,
        Backend::Toml => CodecFormat::Toml,
        Backend::Ron => CodecFormat::Ron,
        Backend::Sqlite => CodecFormat::SonicJson,
    }
}

/// The engine that writes with `codec`.
pub open spec fn engine_for_spec(codec: CodecFormat) -> Backend {
    match codec {
        CodecFormat::MessagePack => Backend::Redb,
        CodecFormat::Json => Backend::Json,
        CodecFormat::SonicJson => Backend::Sqlite,
        CodecFormat::Toml => Backend::Toml,
        CodecFormat::Ron => Backend::Ron,
    }
}

impl Backend {
    /// The file extension a store on this engine is given.
    pub fn extension(self) -> (r: &'static str)
        ensures
            r@ == extension_spec(self),
    {
        match self {
            Backend::Redb => "redb",
            Backend::Json => "json",
            Backend::Toml => "toml",
            Backend::Ron => "ron",
            Backend::Sqlite => "db",
        }
    }

    /// How many levels a path and its value may spend together here.
    pub fn depth_ceiling(self) -> (r: usize)
        ensures
            r == ceiling_spec(self),
    {
        match self {
            Backend::Redb => 512,
            Backend::Json => 128,
            Backend::Toml => 80,
            Backend::Ron => 64,
            Backend::Sqlite => 254,
        }
    }

    /// Whether a `NaN` or an infinity survives here.
    pub fn holds_non_finite_floats(self) -> (r: bool)
        ensures
            r == holds_non_finite_floats_spec(self),
    {
        !(self == Backend::Json || self == Backend::Sqlite)
    }

    /// Whether an enum survives here.
    pub fn holds_enums(self) -> (r: bool)
        ensures
            r == holds_enums_spec(self),
    {
        self != Backend::Ron
    }

    /// What this engine's codec answers to `is_human_readable`.
    pub fn human_readable(self) -> (r: bool)
        ensures
            r == human_readable_spec(self),
    {
        self != Backend::Redb
    }

    /// The codec this engine writes with.
    pub fn codec(self) -> (r: CodecFormat)
        ensures
            r == codec_spec(self),
    {
        match self {
            Backend::Redb => CodecFormat::MessagePack,
            Backend::Json => CodecFormat::Json,
            Backend::Toml => CodecFormat::Toml,
            Backend::Ron => CodecFormat::Ron,
            Backend::Sqlite => CodecFormat::SonicJson,
        }
    }

    /// The engine that writes with `codec`.
    pub fn for_codec(codec: CodecFormat) -> (r: Backend)
        ensures
            r == engine_for_spec(codec),
            codec_spec(r) == codec,
    {
        match codec {
            CodecFormat::MessagePack => Backend::Redb,
            CodecFormat::Json => Backend::Json,
            CodecFormat::SonicJson => Backend::Sqlite,
            CodecFormat::Toml => Backend::Toml,
            CodecFormat::Ron => Backend::Ron,
        }
    }
}

/// The engine used when the caller does not name one: the first of redb,
/// sqlite, json, toml, ron that is built in - and all of them are.
pub fn default_backend() -> (r: Backend)
    ensures
        r == Backend::Redb,
{
    Backend::Redb
}

/// The file a store's backup copy is kept in: the whole name kept and
/// `.bak` added, rather than the extension swapped, so that `store.db` and
/// `store.meta` get backups of their own and no file the store did not make
/// is written over.
pub fn backup_of(file: &str) -> (r: String)
    ensures
        r@ == file@ + ".bak"@,
{
    crate::text::concat(file, ".bak")
}

} // verus!
