//! The crate-wide error taxonomy.
//!
//! Every variant names the file or note it concerns: a message that says only "parse error" is a
//! bug. Paths are carried as text, the form every surface prints them in. Failures that came from
//! the operating system keep the `std::io::Error` that caused them, reachable through
//! [`Error::source`], so a surface can print the chain.
//!
//! The registry is a cache, and its two *read* failures are the only errors a load path may
//! swallow: [`Error::is_registry_recoverable`] says exactly which.

use vstd::prelude::*;
use vstd::string::StringExecFns;

use crate::frontmatter::is_infix;
use crate::note::NoteId;
use crate::text::decimal_string;

verus! {

/// An operating-system error, carried through untouched.
#[verifier::external_type_specification]
#[verifier::external_body]
pub struct ExIoError(std::io::Error);

/// `std::io::Error`'s `Display`: the operating system's own description of the failure.
#[verifier::external_body]
fn io_message(e: &std::io::Error) -> String {
    e.to_string()
}

/// A result whose error is this crate's [`Error`].
pub type Result<T> = std::result::Result<T, Error>;

/// Everything that can go wrong inside `jot-core`.
#[derive(Debug)]
pub enum Error {
    /// A file could not be read.
    Read { path: String, source: std::io::Error },
    /// A file could not be written.
    Write { path: String, source: std::io::Error },
    /// A directory could not be created.
    CreateDir { path: String, source: std::io::Error },
    /// A directory could not be listed.
    ReadDir { path: String, source: std::io::Error },
    /// The rename step of an atomic write failed. The staged file is named as well as the target,
    /// because recovering by hand needs both.
    Rename { from: String, to: String, source: std::io::Error },
    /// A file could not be removed.
    Remove { path: String, source: std::io::Error },
    /// A file on the vault path is not valid UTF-8.
    NotUtf8 { path: String },
    /// A file in the vault is not named `<uuid>.md` or `<uuid>_<slug>.md`.
    InvalidNoteFilename { path: String },
    /// The UUID in the filename disagrees with an id the file carries.
    NoteIdMismatch { path: String, filename_id: NoteId, frontmatter_id: NoteId },
    /// The file does not open with a `---` fence.
    MissingFrontmatterFence { path: String },
    /// The file opens with `---` but never closes the block.
    UnterminatedFrontmatter { path: String },
    /// The frontmatter block is not well-formed YAML; `message` is the parser's own diagnostic.
    MalformedYaml { path: String, message: String },
    /// The frontmatter block parsed as YAML but is not a mapping.
    FrontmatterNotAMapping { path: String },
    /// The block's top-level keys cannot be carried through a write byte-for-byte, because the
    /// line slicer and the YAML parser disagree about what they are.
    UnpreservableFrontmatter { path: String, message: String },
    /// The required `id` key is absent.
    MissingId { path: String },
    /// The required `created_at` key is absent.
    MissingCreatedAt { path: String },
    /// The required `root` key is absent.
    MissingRoot { path: String },
    /// A known frontmatter key holds a value of the wrong YAML shape.
    InvalidFrontmatterField { path: String, field: String, message: String },
    /// A known id-bearing frontmatter key holds something that is not a UUID.
    InvalidNoteIdValue { path: String, field: String, value: String },
    /// A known timestamp key is not RFC 3339.
    InvalidTimestamp { path: String, field: String, value: String },
    /// A note's frontmatter could not be emitted. Identified by id: a note being created has an id
    /// before it has a filename.
    SerializeFrontmatter { id: NoteId, message: String },
    /// The path is not a workspace: it has no `.jot/` directory.
    NotAWorkspace { path: String },
    /// `init` was pointed at a directory that already has a `.jot/`.
    WorkspaceExists { path: String },
    /// No `.jot/` was found walking up from this path.
    WorkspaceNotFound { from: String },
    /// `workspace.toml` is not well-formed TOML, or lacks a key it must have.
    ManifestParse { path: String, message: String },
    /// `workspace.toml` could not be emitted.
    ManifestSerialize { path: String, message: String },
    /// The manifest declares a `schema_version` this build does not understand.
    UnsupportedSchemaVersion { path: String, found: u32, supported: u32 },
    /// `[workspace] kind` is neither `jot` nor `plain`.
    InvalidWorkspaceKind { path: String, value: String },
    /// `[workspace] id` is not a UUID.
    InvalidWorkspaceId { path: String, value: String },
    /// The OS config directory could not be located.
    ConfigDirUnavailable { application: String },
    /// The registry file exists but could not be read. Recoverable.
    RegistryUnreadable { path: String, message: String },
    /// The registry file does not parse into a registry. Recoverable.
    RegistryCorrupt { path: String, message: String },
    /// The registry could not be emitted. Not recoverable.
    RegistrySerialize { path: String, message: String },
    /// The index could not be read or written.
    IndexQuery { path: String, message: String },
    /// The filesystem watcher could not start.
    Watch { path: String, message: String },
}

/// The path an error concerns: the target for a rename, the starting point for a discovery, and
/// nothing for the two variants that fire before there is a path to name.
pub open spec fn error_path(e: Error) -> Option<String> {
    match e {
        Error::Rename { to, .. } => Some(to),
        Error::WorkspaceNotFound { from } => Some(from),
        Error::SerializeFrontmatter { .. } | Error::ConfigDirUnavailable { .. } => None,
        Error::Read { path, .. } | Error::Write { path, .. } | Error::CreateDir { path, .. }
        | Error::ReadDir { path, .. } | Error::Remove { path, .. } | Error::NotUtf8 { path }
        | Error::InvalidNoteFilename { path } | Error::NoteIdMismatch { path, .. }
        | Error::MissingFrontmatterFence { path } | Error::UnterminatedFrontmatter { path }
        | Error::MalformedYaml { path, .. } | Error::FrontmatterNotAMapping { path }
        | Error::UnpreservableFrontmatter { path, .. } | Error::MissingId { path }
        | Error::MissingCreatedAt { path } | Error::MissingRoot { path }
        | Error::InvalidFrontmatterField { path, .. } | Error::InvalidNoteIdValue { path, .. }
        | Error::InvalidTimestamp { path, .. } | Error::NotAWorkspace { path }
        | Error::WorkspaceExists { path } | Error::ManifestParse { path, .. }
        | Error::ManifestSerialize { path, .. } | Error::UnsupportedSchemaVersion { path, .. }
        | Error::InvalidWorkspaceKind { path, .. } | Error::InvalidWorkspaceId { path, .. }
        | Error::RegistryUnreadable { path, .. } | Error::RegistryCorrupt { path, .. }
        | Error::RegistrySerialize { path, .. } | Error::IndexQuery { path, .. }
        | Error::Watch { path, .. } => Some(path),
    }
}

/// The variants that wrap an operating-system error.
pub open spec fn is_io_error(e: Error) -> bool {
    e is Read || e is Write || e is CreateDir || e is ReadDir || e is Rename || e is Remove
}

/// The text of an error's message, up to where an operating-system error's own description
/// begins. For every variant that carries no such error this is the whole message.
pub open spec fn message_head(e: Error) -> Seq<char> {
    match e {
        Error::Read { path, .. } => "cannot read `"@ + path@ + "`: "@,
        Error::Write { path, .. } => "cannot write `"@ + path@ + "`: "@,
        Error::CreateDir { path, .. } => "cannot create directory `"@ + path@ + "`: "@,
        Error::ReadDir { path, .. } => "cannot list directory `"@ + path@ + "`: "@,
        Error::Rename { from, to, .. } => "cannot rename `"@ + from@ + "` onto `"@ + to@ + "`: "@,
        Error::Remove { path, .. } => "cannot remove `"@ + path@ + "`: "@,
        Error::NotUtf8 { path } => "`"@ + path@ + "` is not valid UTF-8"@,
        Error::InvalidNoteFilename { path } => "`"@ + path@
            + "` is not a note filename (expected `<uuid>.md` or `<uuid>_<slug>.md`)"@,
        Error::NoteIdMismatch { path, filename_id, frontmatter_id } => "`"@ + path@
            + "`: filename id `"@ + filename_id.text() + "` disagrees with frontmatter id `"@
            + frontmatter_id.text() + "`"@,
        Error::MissingFrontmatterFence { path } => "`"@ + path@
            + "` has no frontmatter: expected a `---` fence on the first line"@,
        Error::UnterminatedFrontmatter { path } => "`"@ + path@
            + "` has an unterminated frontmatter block: no closing `---` fence"@,
        Error::MalformedYaml { path, message } => "`"@ + path@
            + "` has malformed frontmatter YAML: "@ + message@,
        Error::FrontmatterNotAMapping { path } => "`"@ + path@
            + "`: frontmatter must be a YAML mapping"@,
        Error::UnpreservableFrontmatter { path, message } => "`"@ + path@
            + "` has frontmatter jot cannot carry through a write unchanged: "@ + message@,
        Error::MissingId { path } => "`"@ + path@
            + "` is missing the required frontmatter key `id`"@,
        Error::MissingCreatedAt { path } => "`"@ + path@
            + "` is missing the required frontmatter key `created_at`"@,
        Error::MissingRoot { path } => "`"@ + path@
            + "` is missing the required frontmatter key `root`"@,
        Error::InvalidFrontmatterField { path, field, message } => "`"@ + path@
            + "`: frontmatter key `"@ + field@ + "` has the wrong type: "@ + message@,
        Error::InvalidNoteIdValue { path, field, value } => "`"@ + path@
            + "`: frontmatter key `"@ + field@ + "` is not a UUID: `"@ + value@ + "`"@,
        Error::InvalidTimestamp { path, field, value } => "`"@ + path@ + "`: frontmatter key `"@
            + field@ + "` is not an RFC 3339 timestamp: `"@ + value@ + "`"@,
        Error::SerializeFrontmatter { id, message } => "cannot serialize frontmatter for note `"@
            + id.text() + "`: "@ + message@,
        Error::NotAWorkspace { path } => "`"@ + path@
            + "` is not a jot workspace: no `.jot/` directory"@,
        Error::WorkspaceExists { path } => "`"@ + path@ + "` is already a jot workspace"@,
        Error::WorkspaceNotFound { from } => "no jot workspace found in `"@ + from@
            + "` or any parent directory"@,
        Error::ManifestParse { path, message } => "cannot parse workspace manifest `"@ + path@
            + "`: "@ + message@,
        Error::ManifestSerialize { path, message } => "cannot serialize workspace manifest `"@
            + path@ + "`: "@ + message@,
        Error::UnsupportedSchemaVersion { path, found, supported } => "`"@ + path@
            + "` declares schema_version "@ + crate::text::decimal_text(found as nat)
            + ", but this build of jot supports at most "@ + crate::text::decimal_text(
            supported as nat,
        ) + " — the workspace was written by a newer version"@,
        Error::InvalidWorkspaceKind { path, value } => "`"@ + path@
            + "`: unknown workspace kind `"@ + value@ + "` (expected `jot` or `plain`)"@,
        Error::InvalidWorkspaceId { path, value } => "`"@ + path@ + "`: workspace id `"@
            + value@ + "` is not a UUID"@,
        Error::ConfigDirUnavailable { application } =>
            "cannot locate the OS config directory for `"@ + application@ + "`"@,
        Error::RegistryUnreadable { path, message } => "cannot read the workspace registry `"@
            + path@ + "`: "@ + message@,
        Error::RegistryCorrupt { path, message } => "the workspace registry `"@ + path@
            + "` is corrupt: "@ + message@,
        Error::RegistrySerialize { path, message } =>
            "cannot serialize the workspace registry `"@ + path@ + "`: "@ + message@,
        Error::IndexQuery { path, message } => "cannot query the index `"@ + path@ + "`: "@
            + message@,
        Error::Watch { path, message } => "cannot watch `"@ + path@ + "`: "@ + message@,
    }
}

/// Every error that names a path says it in its message: the path [`Error::path`] returns stands
/// in the text [`Error::to_string`] begins with.
pub proof fn lemma_message_names_the_path(e: Error)
    ensures
        error_path(e) matches Some(p) ==> is_infix(p@, message_head(e)),
{
    let h = message_head(e);
    match e {
        Error::Read { path, .. } => {
            let pre = "cannot read `"@;
            assert(h.subrange(pre.len() as int, pre.len() as int + path@.len()) =~= path@);
        },
        Error::Write { path, .. } => {
            let pre = "cannot write `"@;
            assert(h.subrange(pre.len() as int, pre.len() as int + path@.len()) =~= path@);
        },
        Error::CreateDir { path, .. } => {
            let pre = "cannot create directory `"@;
            assert(h.subrange(pre.len() as int, pre.len() as int + path@.len()) =~= path@);
        },
        Error::ReadDir { path, .. } => {
            let pre = "cannot list directory `"@;
            assert(h.subrange(pre.len() as int, pre.len() as int + path@.len()) =~= path@);
        },
        Error::Remove { path, .. } => {
            let pre = "cannot remove `"@;
            assert(h.subrange(pre.len() as int, pre.len() as int + path@.len()) =~= path@);
        },
        Error::WorkspaceNotFound { from, .. } => {
            let pre = "no jot workspace found in `"@;
            assert(h.subrange(pre.len() as int, pre.len() as int + from@.len()) =~= from@);
        },
        Error::ManifestParse { path, .. } => {
            let pre = "cannot parse workspace manifest `"@;
            assert(h.subrange(pre.len() as int, pre.len() as int + path@.len()) =~= path@);
        },
        Error::ManifestSerialize { path, .. } => {
            let pre = "cannot serialize workspace manifest `"@;
            assert(h.subrange(pre.len() as int, pre.len() as int + path@.len()) =~= path@);
        },
        Error::RegistryUnreadable { path, .. } => {
            let pre = "cannot read the workspace registry `"@;
            assert(h.subrange(pre.len() as int, pre.len() as int + path@.len()) =~= path@);
        },
        Error::RegistryCorrupt { path, .. } => {
            let pre = "the workspace registry `"@;
            assert(h.subrange(pre.len() as int, pre.len() as int + path@.len()) =~= path@);
        },
        Error::RegistrySerialize { path, .. } => {
            let pre = "cannot serialize the workspace registry `"@;
            assert(h.subrange(pre.len() as int, pre.len() as int + path@.len()) =~= path@);
        },
        Error::IndexQuery { path, .. } => {
            let pre = "cannot query the index `"@;
            assert(h.subrange(pre.len() as int, pre.len() as int + path@.len()) =~= path@);
        },
        Error::Watch { path, .. } => {
            let pre = "cannot watch `"@;
            assert(h.subrange(pre.len() as int, pre.len() as int + path@.len()) =~= path@);
        },
        Error::NotUtf8 { path, .. } => {
            let pre = "`"@;
            assert(h.subrange(pre.len() as int, pre.len() as int + path@.len()) =~= path@);
        },
        Error::InvalidNoteFilename { path, .. } => {
            let pre = "`"@;
            assert(h.subrange(pre.len() as int, pre.len() as int + path@.len()) =~= path@);
        },
        Error::NoteIdMismatch { path, .. } => {
            let pre = "`"@;
            assert(h.subrange(pre.len() as int, pre.len() as int + path@.len()) =~= path@);
        },
        Error::MissingFrontmatterFence { path, .. } => {
            let pre = "`"@;
            assert(h.subrange(pre.len() as int, pre.len() as int + path@.len()) =~= path@);
        },
        Error::UnterminatedFrontmatter { path, .. } => {
            let pre = "`"@;
            assert(h.subrange(pre.len() as int, pre.len() as int + path@.len()) =~= path@);
        },
        Error::MalformedYaml { path, .. } => {
            let pre = "`"@;
            assert(h.subrange(pre.len() as int, pre.len() as int + path@.len()) =~= path@);
        },
        Error::FrontmatterNotAMapping { path, .. } => {
            let pre = "`"@;
            assert(h.subrange(pre.len() as int, pre.len() as int + path@.len()) =~= path@);
        },
        Error::UnpreservableFrontmatter { path, .. } => {
            let pre = "`"@;
            assert(h.subrange(pre.len() as int, pre.len() as int + path@.len()) =~= path@);
        },
        Error::MissingId { path, .. } => {
            let pre = "`"@;
            assert(h.subrange(pre.len() as int, pre.len() as int + path@.len()) =~= path@);
        },
        Error::MissingCreatedAt { path, .. } => {
            let pre = "`"@;
            assert(h.subrange(pre.len() as int, pre.len() as int + path@.len()) =~= path@);
        },
        Error::MissingRoot { path, .. } => {
            let pre = "`"@;
            assert(h.subrange(pre.len() as int, pre.len() as int + path@.len()) =~= path@);
        },
        Error::InvalidFrontmatterField { path, .. } => {
            let pre = "`"@;
            assert(h.subrange(pre.len() as int, pre.len() as int + path@.len()) =~= path@);
        },
        Error::InvalidNoteIdValue { path, .. } => {
            let pre = "`"@;
            assert(h.subrange(pre.len() as int, pre.len() as int + path@.len()) =~= path@);
        },
        Error::InvalidTimestamp { path, .. } => {
            let pre = "`"@;
            assert(h.subrange(pre.len() as int, pre.len() as int + path@.len()) =~= path@);
        },
        Error::NotAWorkspace { path, .. } => {
            let pre = "`"@;
            assert(h.subrange(pre.len() as int, pre.len() as int + path@.len()) =~= path@);
        },
        Error::WorkspaceExists { path, .. } => {
            let pre = "`"@;
            assert(h.subrange(pre.len() as int, pre.len() as int + path@.len()) =~= path@);
        },
        Error::UnsupportedSchemaVersion { path, .. } => {
            let pre = "`"@;
            assert(h.subrange(pre.len() as int, pre.len() as int + path@.len()) =~= path@);
        },
        Error::InvalidWorkspaceKind { path, .. } => {
            let pre = "`"@;
            assert(h.subrange(pre.len() as int, pre.len() as int + path@.len()) =~= path@);
        },
        Error::InvalidWorkspaceId { path, .. } => {
            let pre = "`"@;
            assert(h.subrange(pre.len() as int, pre.len() as int + path@.len()) =~= path@);
        },
        Error::Rename { from, to, .. } => {
            let pre = "cannot rename `"@ + from@ + "` onto `"@;
            assert(h.subrange(pre.len() as int, pre.len() as int + to@.len()) =~= to@);
        },
        Error::SerializeFrontmatter { .. } | Error::ConfigDirUnavailable { .. } => {},
    }
}

/// What stands in a text's beginning stands in the text.
proof fn lemma_infix_in_head(a: Seq<char>, h: Seq<char>, m: Seq<char>)
    requires
        is_infix(a, h),
        h.len() <= m.len(),
        m.subrange(0, h.len() as int) == h,
    ensures
        is_infix(a, m),
{
    let p = choose|p: int| 0 <= p && p + a.len() <= h.len() && #[trigger] h.subrange(p, p + a.len()) == a;
    assert(m.subrange(p, p + a.len()) =~= h.subrange(p, p + a.len()));
}

/// Concatenate, with the contract stated over the parts' text.
pub(crate) fn join(parts: &[&str]) -> (s: String)
    ensures
        s@ == concat_all(parts@.map_values(|p: &str| p@)),
{
    let mut s = String::new();
    let mut i: usize = 0;
    while i < parts.len()
        invariant
            i <= parts@.len(),
            s@ == concat_all(parts@.map_values(|p: &str| p@).take(i as int)),
        decreases parts@.len() - i,
    {
        let ghost before = s@;
        s.append(parts[i]);
        proof {
            let all = parts@.map_values(|p: &str| p@);
            assert(all.take(i as int + 1).drop_last() =~= all.take(i as int));
        }
        i = i + 1;
    }
    proof {
        let all = parts@.map_values(|p: &str| p@);
        assert(all.take(parts@.len() as int) =~= all);
    }
    s
}

/// The texts of `parts`, one after another.
pub open spec fn concat_all(parts: Seq<Seq<char>>) -> Seq<char>
    decreases parts.len(),
{
    if parts.len() == 0 {
        Seq::empty()
    } else {
        concat_all(parts.drop_last()) + parts.last()
    }
}

impl Error {
    /// The filesystem path this error is about, if it is about one.
    ///
    /// `None` for exactly two variants: [`Error::SerializeFrontmatter`], which identifies a note
    /// that may not have a filename yet, and [`Error::ConfigDirUnavailable`], which fires because
    /// there is no path to name. For [`Error::Rename`] this is the target.
    pub fn path(&self) -> (p: Option<&str>)
        ensures
            match error_path(*self) {
                Some(path) => p matches Some(q) && q@ == path@,
                None => p is None,
            },
    {
        match self {
            Error::Rename { to, .. } => Some(to.as_str()),
            Error::WorkspaceNotFound { from } => Some(from.as_str()),
            Error::SerializeFrontmatter { .. } | Error::ConfigDirUnavailable { .. } => None,
            Error::Read { path, .. } | Error::Write { path, .. } | Error::CreateDir { path, .. }
            | Error::ReadDir { path, .. } | Error::Remove { path, .. } | Error::NotUtf8 { path }
            | Error::InvalidNoteFilename { path } | Error::NoteIdMismatch { path, .. }
            | Error::MissingFrontmatterFence { path } | Error::UnterminatedFrontmatter { path }
            | Error::MalformedYaml { path, .. } | Error::FrontmatterNotAMapping { path }
            | Error::UnpreservableFrontmatter { path, .. } | Error::MissingId { path }
            | Error::MissingCreatedAt { path } | Error::MissingRoot { path }
            | Error::InvalidFrontmatterField { path, .. } | Error::InvalidNoteIdValue { path, .. }
            | Error::InvalidTimestamp { path, .. } | Error::NotAWorkspace { path }
            | Error::WorkspaceExists { path } | Error::ManifestParse { path, .. }
            | Error::ManifestSerialize { path, .. } | Error::UnsupportedSchemaVersion { path, .. }
            | Error::InvalidWorkspaceKind { path, .. } | Error::InvalidWorkspaceId { path, .. }
            | Error::RegistryUnreadable { path, .. } | Error::RegistryCorrupt { path, .. }
            | Error::RegistrySerialize { path, .. } | Error::IndexQuery { path, .. }
            | Error::Watch { path, .. } => Some(path.as_str()),
        }
    }

    /// Whether the registry's load path may swallow this error and continue with an empty
    /// registry: true for exactly the two registry read failures.
    pub fn is_registry_recoverable(&self) -> (b: bool)
        ensures
            b == (*self is RegistryUnreadable || *self is RegistryCorrupt),
    {
        matches!(self, Error::RegistryUnreadable { .. } | Error::RegistryCorrupt { .. })
    }

    /// The operating-system error underneath, for the six variants that wrap one.
    pub fn source(&self) -> (s: Option<&std::io::Error>)
        ensures
            s is Some <==> is_io_error(*self),
    {
        match self {
            Error::Read { source, .. } | Error::Write { source, .. }
            | Error::CreateDir { source, .. } | Error::ReadDir { source, .. }
            | Error::Rename { source, .. } | Error::Remove { source, .. } => Some(source),
            _ => None,
        }
    }

    /// The human-readable message, naming the path or note the error concerns.
    ///
    /// For the variants that wrap an operating-system error the message continues with that
    /// error's own description; for every other variant it is exactly [`message_head`].
    pub fn to_string(&self) -> (m: String)
        ensures
            m@.len() >= message_head(*self).len(),
            m@.subrange(0, message_head(*self).len() as int) == message_head(*self),
            !is_io_error(*self) ==> m@ == message_head(*self),
            error_path(*self) matches Some(p) ==> is_infix(p@, m@),
    {
        proof {
            lemma_message_names_the_path(*self);
        }
        let m = self.head();
        match self {
            Error::Read { source, .. } | Error::Write { source, .. }
            | Error::CreateDir { source, .. } | Error::ReadDir { source, .. }
            | Error::Rename { source, .. } | Error::Remove { source, .. } => {
                let tail = io_message(source);
                let ghost h = m@;
                let full = m.concat(tail.as_str());
                assert(full@.subrange(0, h.len() as int) =~= h);
                proof {
                    if let Some(p) = error_path(*self) {
                        lemma_infix_in_head(p@, h, full@);
                    }
                }
                full
            },
            _ => m,
        }
    }

    #[verifier::rlimit(40)]
    fn head(&self) -> (m: String)
        ensures
            m@ == message_head(*self),
    {
        let s = match self {
            Error::Read { path, .. } => join(&["cannot read `", path.as_str(), "`: "]),
            Error::Write { path, .. } => join(&["cannot write `", path.as_str(), "`: "]),
            Error::CreateDir { path, .. } => join(
                &["cannot create directory `", path.as_str(), "`: "],
            ),
            Error::ReadDir { path, .. } => join(&["cannot list directory `", path.as_str(), "`: "]),
            Error::Rename { from, to, .. } => join(
                &["cannot rename `", from.as_str(), "` onto `", to.as_str(), "`: "],
            ),
            Error::Remove { path, .. } => join(&["cannot remove `", path.as_str(), "`: "]),
            Error::NotUtf8 { path } => join(&["`", path.as_str(), "` is not valid UTF-8"]),
            Error::InvalidNoteFilename { path } => join(
                &[
                    "`",
                    path.as_str(),
                    "` is not a note filename (expected `<uuid>.md` or `<uuid>_<slug>.md`)",
                ],
            ),
            Error::NoteIdMismatch { path, filename_id, frontmatter_id } => {
                let a = filename_id.to_string();
                let b = frontmatter_id.to_string();
                join(
                    &[
                        "`",
                        path.as_str(),
                        "`: filename id `",
                        a.as_str(),
                        "` disagrees with frontmatter id `",
                        b.as_str(),
                        "`",
                    ],
                )
            },
            Error::MissingFrontmatterFence { path } => join(
                &[
                    "`",
                    path.as_str(),
                    "` has no frontmatter: expected a `---` fence on the first line",
                ],
            ),
            Error::UnterminatedFrontmatter { path } => join(
                &[
                    "`",
                    path.as_str(),
                    "` has an unterminated frontmatter block: no closing `---` fence",
                ],
            ),
            Error::MalformedYaml { path, message } => join(
                &["`", path.as_str(), "` has malformed frontmatter YAML: ", message.as_str()],
            ),
            Error::FrontmatterNotAMapping { path } => join(
                &["`", path.as_str(), "`: frontmatter must be a YAML mapping"],
            ),
            Error::UnpreservableFrontmatter { path, message } => join(
                &[
                    "`",
                    path.as_str(),
                    "` has frontmatter jot cannot carry through a write unchanged: ",
                    message.as_str(),
                ],
            ),
            Error::MissingId { path } => join(
                &["`", path.as_str(), "` is missing the required frontmatter key `id`"],
            ),
            Error::MissingCreatedAt { path } => join(
                &["`", path.as_str(), "` is missing the required frontmatter key `created_at`"],
            ),
            Error::MissingRoot { path } => join(
                &["`", path.as_str(), "` is missing the required frontmatter key `root`"],
            ),
            Error::InvalidFrontmatterField { path, field, message } => join(
                &[
                    "`",
                    path.as_str(),
                    "`: frontmatter key `",
                    field.as_str(),
                    "` has the wrong type: ",
                    message.as_str(),
                ],
            ),
            Error::InvalidNoteIdValue { path, field, value } => join(
                &[
                    "`",
                    path.as_str(),
                    "`: frontmatter key `",
                    field.as_str(),
                    "` is not a UUID: `",
                    value.as_str(),
                    "`",
                ],
            ),
            Error::InvalidTimestamp { path, field, value } => join(
                &[
                    "`",
                    path.as_str(),
                    "`: frontmatter key `",
                    field.as_str(),
                    "` is not an RFC 3339 timestamp: `",
                    value.as_str(),
                    "`",
                ],
            ),
            Error::SerializeFrontmatter { id, message } => {
                let a = id.to_string();
                join(
                    &[
                        "cannot serialize frontmatter for note `",
                        a.as_str(),
                        "`: ",
                        message.as_str(),
                    ],
                )
            },
            Error::NotAWorkspace { path } => join(
                &["`", path.as_str(), "` is not a jot workspace: no `.jot/` directory"],
            ),
            Error::WorkspaceExists { path } => join(
                &["`", path.as_str(), "` is already a jot workspace"],
            ),
            Error::WorkspaceNotFound { from } => join(
                &["no jot workspace found in `", from.as_str(), "` or any parent directory"],
            ),
            Error::ManifestParse { path, message } => join(
                &["cannot parse workspace manifest `", path.as_str(), "`: ", message.as_str()],
            ),
            Error::ManifestSerialize { path, message } => join(
                &["cannot serialize workspace manifest `", path.as_str(), "`: ", message.as_str()],
            ),
            Error::UnsupportedSchemaVersion { path, found, supported } => {
                let f = decimal_string(*found as u64);
                let s = decimal_string(*supported as u64);
                join(
                    &[
                        "`",
                        path.as_str(),
                        "` declares schema_version ",
                        f.as_str(),
                        ", but this build of jot supports at most ",
                        s.as_str(),
                        " — the workspace was written by a newer version",
                    ],
                )
            },
            Error::InvalidWorkspaceKind { path, value } => join(
                &[
                    "`",
                    path.as_str(),
                    "`: unknown workspace kind `",
                    value.as_str(),
                    "` (expected `jot` or `plain`)",
                ],
            ),
            Error::InvalidWorkspaceId { path, value } => join(
                &["`", path.as_str(), "`: workspace id `", value.as_str(), "` is not a UUID"],
            ),
            Error::ConfigDirUnavailable { application } => join(
                &["cannot locate the OS config directory for `", application.as_str(), "`"],
            ),
            Error::RegistryUnreadable { path, message } => join(
                &["cannot read the workspace registry `", path.as_str(), "`: ", message.as_str()],
            ),
            Error::RegistryCorrupt { path, message } => join(
                &["the workspace registry `", path.as_str(), "` is corrupt: ", message.as_str()],
            ),
            Error::RegistrySerialize { path, message } => join(
                &[
                    "cannot serialize the workspace registry `",
                    path.as_str(),
                    "`: ",
                    message.as_str(),
                ],
            ),
            Error::IndexQuery { path, message } => join(
                &["cannot query the index `", path.as_str(), "`: ", message.as_str()],
            ),
            Error::Watch { path, message } => join(
                &["cannot watch `", path.as_str(), "`: ", message.as_str()],
            ),
        };
        proof {
            reveal_with_fuel(concat_all, 8);
        }
        s
    }
}

} // verus!
