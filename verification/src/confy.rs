//! The configuration-file front end: where a named configuration lives, and
//! what loading it does when the file is missing, empty or unreadable.
//!
//! The whole configuration is kept at the store's root key, so a file the
//! store also keeps sections in keeps them when the configuration is saved.
use crate::builder::Backend;
use vstd::prelude::*;

verus! {

/// Where configuration files are placed.
#[derive(Debug, Clone, Copy, PartialEq, Eq, Structural)]
pub enum ConfigStrategy {
    /// The XDG layout, the default.
    App,
    /// The host system's own layout, for GUI applications.
    Native,
    /// The layout older releases used.
    Directories,
}

/// The front end's settings: which layout files are placed by.
#[derive(Debug, Clone, Copy, PartialEq, Eq, Structural)]
pub struct ConfySettings {
    pub strategy: ConfigStrategy,
}

impl ConfySettings {
    /// The default layout.
    pub fn new() -> (r: ConfySettings)
        ensures
            r.strategy == ConfigStrategy::App,
    {
        ConfySettings { strategy: ConfigStrategy::App }
    }

    /// Changes the layout later loads and saves place files by.
    pub fn change_config_strategy(&mut self, changer: ConfigStrategy)
        ensures
            final(self).strategy == changer,
    {
        self.strategy = changer;
    }
}

/// The key the whole configuration is kept under: the store's root.
pub const DEFAULT_KEY: &'static str = ".";

/// The extension a configuration file is given on each engine. The sqlite
/// build names its files as the redb one does.
pub open spec fn confy_extension_spec(b: Backend) -> Seq<char> {
    match b {
        Backend::Toml => "toml"@,
        Backend::Json => "json"@,
        Backend::Ron => "ron"@,
        Backend::Redb => "redb"@,
        Backend::Sqlite => "redb"@,
    }
}

/// The extension a configuration file is given on `b`.
pub fn confy_extension(b: Backend) -> (r: &'static str)
    ensures
        r@ == confy_extension_spec(b),
{
    match b {
        Backend::Toml => "toml",
        Backend::Json => "json",
        Backend::Ron => "ron",
        Backend::Redb => "redb",
        Backend::Sqlite => "redb",
    }
}

/// The file name of a configuration: its name, or `default-config`, and the
/// engine's extension.
pub open spec fn config_file_name_spec(config_name: Option<Seq<char>>, b: Backend) -> Seq<char> {
    let name = match config_name {
        Some(n) => n,
        None => "default-config"@,
    };
    name + "."@ + confy_extension_spec(b)
}

/// The file name a configuration is kept in.
pub fn config_file_name(config_name: Option<&str>, b: Backend) -> (r: String)
    ensures
        r@ == config_file_name_spec(
            match config_name {
                Some(n) => Some(n@),
                None => None,
            },
            b,
        ),
{
    let name = match config_name {
        Some(n) => n,
        None => "default-config",
    };
    let mut out = crate::text::concat(name, ".");
    out.append(confy_extension(b));
    out
}

/// What reading the root key gave.
#[derive(Debug, Clone, Copy, PartialEq, Eq, Structural)]
pub enum StoredConfig {
    /// A configuration was there and read back.
    Found,
    /// Nothing was there.
    Missing,
    /// Something was there and could not be read as the configuration.
    Unreadable,
}

/// What a load does next.
#[derive(Debug, Clone, Copy, PartialEq, Eq, Structural)]
pub enum LoadAction {
    /// Hand back what was read.
    UseStored,
    /// Write the default configuration, save it, and hand it back.
    WriteDefault,
    /// Fail with the read's error.
    Fail,
}

/// What loading does: a file that is missing or empty gets the default
/// without being read; otherwise what is there is used, nothing there gets
/// the default, and a configuration that cannot be read is an error.
pub open spec fn load_action_spec(missing_or_empty: bool, read: StoredConfig) -> LoadAction {
    if missing_or_empty {
        LoadAction::WriteDefault
    } else {
        match read {
            StoredConfig::Found => LoadAction::UseStored,
            StoredConfig::Missing => LoadAction::WriteDefault,
            StoredConfig::Unreadable => LoadAction::Fail,
        }
    }
}

/// What a load does, given whether the file was missing or empty and, where
/// it was read, what the read gave.
pub fn load_action(missing_or_empty: bool, read: StoredConfig) -> (r: LoadAction)
    ensures
        r == load_action_spec(missing_or_empty, read),
{
    if missing_or_empty {
        return LoadAction::WriteDefault;
    }
    match read {
        StoredConfig::Found => LoadAction::UseStored,
        StoredConfig::Missing => LoadAction::WriteDefault,
        StoredConfig::Unreadable => LoadAction::Fail,
    }
}

/// What a load with a fallback does next.
#[derive(Debug, Clone, Copy, PartialEq, Eq, Structural)]
pub enum FallbackAction {
    /// Hand back what was read.
    UseStored,
    /// Write the fallback's configuration, save it, and hand it back.
    WriteFallback,
    /// Remove the file that could not be opened as a store, open a fresh
    /// one, and write the fallback's configuration there.
    ReplaceFile,
}

/// What a load with a fallback does: it never fails on what the file holds.
/// A file that is missing or empty gets the fallback; a file that opens and
/// reads back a configuration is used; one that opens and does not gets the
/// fallback; and one that does not even open as a store is replaced.
pub open spec fn fallback_action_spec(missing_or_empty: bool, opened: bool, read: StoredConfig) -> FallbackAction {
    if missing_or_empty {
        FallbackAction::WriteFallback
    } else if !opened {
        FallbackAction::ReplaceFile
    } else if read == StoredConfig::Found {
        FallbackAction::UseStored
    } else {
        FallbackAction::WriteFallback
    }
}

/// What a load with a fallback does, given whether the file was missing or
/// empty, whether it opened as a store, and what reading it gave.
pub fn fallback_action(missing_or_empty: bool, opened: bool, read: StoredConfig) -> (r: FallbackAction)
    ensures
        r == fallback_action_spec(missing_or_empty, opened, read),
{
    if missing_or_empty {
        FallbackAction::WriteFallback
    } else if !opened {
        FallbackAction::ReplaceFile
    } else {
        match read {
            StoredConfig::Found => FallbackAction::UseStored,
            _ => FallbackAction::WriteFallback,
        }
    }
}

/// Whether a path, written with `/` between its levels, has no directory
/// above it to hold a file: it is empty or nothing but the root. Saving a
/// configuration there is refused before anything is created.
pub open spec fn is_root_spec(path: Seq<char>) -> bool {
    forall|i: int| 0 <= i < path.len() ==> path[i] == '/'
}

/// Whether saving a configuration at `path` is refused because `path` is a
/// root: empty, or nothing but separators.
pub fn is_root(path: &str) -> (r: bool)
    ensures
        r == is_root_spec(path@),
{
    let n = path.unicode_len();
    let mut i: usize = 0;
    while i < n
        invariant
            n == path@.len(),
            i <= n,
            forall|j: int| 0 <= j < i ==> path@[j] == '/',
        decreases n - i,
    {
        if path.get_char(i) != '/' {
            return false;
        }
        i = i + 1;
    }
    true
}

/// What went wrong under the configuration front end, as the store reports
/// it: from the text engines, the file (`TextIo`), the codec (`Json`, `Toml`,
/// `Ron`, or another codec), a root that is not a mapping, or a missing path
/// level; and otherwise the file watcher, another engine, or a migration.
#[derive(Debug, Clone, Copy, PartialEq, Eq, Structural)]
pub enum StoreErrorKind {
    TextIo,
    CodecJson,
    CodecToml,
    CodecRon,
    CodecOther,
    RootMustBeObject,
    PathSegmentMissing,
    Watch,
    Redb,
    Sqlite,
    Migration,
}

/// The kinds of error the configuration front end reports, each carrying
/// what it came from.
#[derive(Debug, Clone, Copy, PartialEq, Eq, Structural)]
pub enum ConfyErrorKind {
    GeneralLoadError,
    BadJsonData,
    BadTomlData,
    BadRonData,
    BadConfigDirectory,
}

/// How a store error is reported by the configuration front end: a file
/// error is a load error, a codec error is bad data of its format, a root
/// that is not a mapping or a missing level is a bad configuration
/// directory, and nothing else has a report of its own.
pub open spec fn confy_error_spec(e: StoreErrorKind) -> Option<ConfyErrorKind> {
    match e {
        StoreErrorKind::TextIo => Some(ConfyErrorKind::GeneralLoadError),
        StoreErrorKind::CodecJson => Some(ConfyErrorKind::BadJsonData),
        StoreErrorKind::CodecToml => Some(ConfyErrorKind::BadTomlData),
        StoreErrorKind::CodecRon => Some(ConfyErrorKind::BadRonData),
        StoreErrorKind::RootMustBeObject => Some(ConfyErrorKind::BadConfigDirectory),
        StoreErrorKind::PathSegmentMissing => Some(ConfyErrorKind::BadConfigDirectory),
        _ => None,
    }
}

/// How a store error is reported by the configuration front end; `None`
/// for the errors the front end has no report for, which the caller treats
/// as a broken invariant.
pub fn confy_error_of(e: StoreErrorKind) -> (r: Option<ConfyErrorKind>)
    ensures
        r == confy_error_spec(e),
        r is None <==> (e == StoreErrorKind::CodecOther || e == StoreErrorKind::Watch || e == StoreErrorKind::Redb
            || e == StoreErrorKind::Sqlite || e == StoreErrorKind::Migration),
        e == StoreErrorKind::TextIo ==> r == Some(ConfyErrorKind::GeneralLoadError),
        e == StoreErrorKind::CodecJson ==> r == Some(ConfyErrorKind::BadJsonData),
        e == StoreErrorKind::CodecToml ==> r == Some(ConfyErrorKind::BadTomlData),
        e == StoreErrorKind::CodecRon ==> r == Some(ConfyErrorKind::BadRonData),
        (e == StoreErrorKind::RootMustBeObject || e == StoreErrorKind::PathSegmentMissing) ==> r == Some(
            ConfyErrorKind::BadConfigDirectory,
        ),
{
    match e {
        StoreErrorKind::TextIo => Some(ConfyErrorKind::GeneralLoadError),
        StoreErrorKind::CodecJson => Some(ConfyErrorKind::BadJsonData),
        StoreErrorKind::CodecToml => Some(ConfyErrorKind::BadTomlData),
        StoreErrorKind::CodecRon => Some(ConfyErrorKind::BadRonData),
        StoreErrorKind::RootMustBeObject => Some(ConfyErrorKind::BadConfigDirectory),
        StoreErrorKind::PathSegmentMissing => Some(ConfyErrorKind::BadConfigDirectory),
        StoreErrorKind::CodecOther => None,
        StoreErrorKind::Watch => None,
        StoreErrorKind::Redb => None,
        StoreErrorKind::Sqlite => None,
        StoreErrorKind::Migration => None,
    }
}

/// The message a bad configuration directory carries when the store's root
/// is not a mapping.
pub fn root_must_be_object_message() -> (r: String)
    ensures
        r@ == "Root must be an object/mapping"@,
{
    crate::text::owned("Root must be an object/mapping")
}

} // verus!
