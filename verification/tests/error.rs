use jot_core::error::{Error, Result};
use jot_core::note::NoteId;

fn io_err() -> std::io::Error {
    std::io::Error::new(std::io::ErrorKind::PermissionDenied, "access is denied")
}

const A: &str = "01a03d4c-c708-7cbf-83c0-883cedb7f1d5";
const B: &str = "01a03d51-4b48-72e2-9f30-f180030c06ab";

fn uuid_a() -> NoteId {
    NoteId::parse(A).unwrap()
}

fn uuid_b() -> NoteId {
    NoteId::parse(B).unwrap()
}

fn every_variant() -> Vec<Error> {
    vec![
        Error::Read { path: "notes/a.md".into(), source: io_err() },
        Error::Write { path: "notes/b.md".into(), source: io_err() },
        Error::CreateDir { path: "notes/.jot".into(), source: io_err() },
        Error::ReadDir { path: "notes".into(), source: io_err() },
        Error::Rename { from: "notes/.jot/tmp/x".into(), to: "notes/c.md".into(), source: io_err() },
        Error::Remove { path: "notes/.jot/tmp/x".into(), source: io_err() },
        Error::NotUtf8 { path: "notes/d.md".into() },
        Error::InvalidNoteFilename { path: "notes/README.md".into() },
        Error::NoteIdMismatch {
            path: "notes/e.md".into(),
            filename_id: uuid_a(),
            frontmatter_id: uuid_b(),
        },
        Error::MissingFrontmatterFence { path: "notes/f.md".into() },
        Error::UnterminatedFrontmatter { path: "notes/g.md".into() },
        Error::MalformedYaml {
            path: "notes/h.md".into(),
            message: "did not find expected ',' at line 2 column 1".into(),
        },
        Error::FrontmatterNotAMapping { path: "notes/i.md".into() },
        Error::UnpreservableFrontmatter {
            path: "notes/i2.md".into(),
            message: "found 2 top-level key(s) by line, but 1 in the parsed mapping".into(),
        },
        Error::MissingId { path: "notes/j.md".into() },
        Error::MissingCreatedAt { path: "notes/k.md".into() },
        Error::MissingRoot { path: "notes/l.md".into() },
        Error::InvalidFrontmatterField {
            path: "notes/m.md".into(),
            field: "title".into(),
            message: "expected a string, found a sequence".into(),
        },
        Error::InvalidNoteIdValue {
            path: "notes/n.md".into(),
            field: "reply_to".into(),
            value: "not-a-uuid".into(),
        },
        Error::InvalidTimestamp {
            path: "notes/o.md".into(),
            field: "created_at".into(),
            value: "yesterday".into(),
        },
        Error::SerializeFrontmatter { id: uuid_a(), message: "recursion limit exceeded".into() },
        Error::NotAWorkspace { path: "somewhere".into() },
        Error::WorkspaceExists { path: "notes".into() },
        Error::WorkspaceNotFound { from: "notes/a/b/c".into() },
        Error::ManifestParse {
            path: "notes/.jot/workspace.toml".into(),
            message: "expected `=` at line 3".into(),
        },
        Error::ManifestSerialize {
            path: "notes/.jot/workspace.toml".into(),
            message: "unsupported type".into(),
        },
        Error::UnsupportedSchemaVersion {
            path: "notes/.jot/workspace.toml".into(),
            found: 7,
            supported: 1,
        },
        Error::InvalidWorkspaceKind {
            path: "notes/.jot/workspace.toml".into(),
            value: "banana".into(),
        },
        Error::InvalidWorkspaceId {
            path: "notes/.jot/workspace.toml".into(),
            value: "nope".into(),
        },
        Error::ConfigDirUnavailable { application: "danjolabs/jot".into() },
        Error::RegistryUnreadable {
            path: "config/workspaces.toml".into(),
            message: "access is denied".into(),
        },
        Error::RegistryCorrupt {
            path: "config/workspaces.toml".into(),
            message: "expected a table".into(),
        },
        Error::RegistrySerialize {
            path: "config/workspaces.toml".into(),
            message: "unsupported type".into(),
        },
        Error::IndexQuery { path: "notes/.jot/index.db".into(), message: "disk I/O error".into() },
        Error::Watch { path: "notes".into(), message: "inotify limit reached".into() },
    ]
}

#[test]
fn every_path_carrying_variant_prints_its_path() {
    for e in every_variant() {
        let Some(path) = e.path() else { continue };
        let shown = e.to_string();
        assert!(shown.contains(path), "`{shown}` does not name its path `{path}`");
    }
}

#[test]
fn pathless_variants_still_identify_their_subject() {
    let e = Error::SerializeFrontmatter { id: uuid_a(), message: "boom".into() };
    assert!(e.path().is_none());
    assert!(e.to_string().contains(A), "{}", e.to_string());

    let e = Error::ConfigDirUnavailable { application: "danjolabs/jot".into() };
    assert!(e.path().is_none());
    assert!(e.to_string().contains("danjolabs/jot"), "{}", e.to_string());
}

#[test]
fn no_variant_has_an_empty_or_useless_message() {
    for e in every_variant() {
        let shown = e.to_string();
        assert!(shown.len() > 10, "message too thin: `{shown}`");
        assert!(!shown.trim().is_empty(), "empty message for {e:?}");
    }
}

#[test]
fn note_id_mismatch_names_the_path_and_both_ids() {
    let e = Error::NoteIdMismatch {
        path: "vault/01a03d50-bac0-7851-bd56-683ef65923cd.md".into(),
        filename_id: uuid_a(),
        frontmatter_id: uuid_b(),
    };
    let shown = e.to_string();
    assert!(shown.contains("01a03d50-bac0-7851-bd56-683ef65923cd.md"), "{shown}");
    assert!(shown.contains(A), "{shown}");
    assert!(shown.contains(B), "{shown}");
}

#[test]
fn unsupported_schema_version_names_both_versions() {
    let e = Error::UnsupportedSchemaVersion {
        path: "v/.jot/workspace.toml".into(),
        found: 7,
        supported: 1,
    };
    let shown = e.to_string();
    assert!(shown.contains('7'), "{shown}");
    assert!(shown.contains('1'), "{shown}");
    assert!(shown.contains("newer version"), "{shown}");
}

#[test]
fn each_required_key_has_its_own_variant() {
    let p = String::from("v/a.md");
    let msgs = [
        Error::MissingId { path: p.clone() }.to_string(),
        Error::MissingCreatedAt { path: p.clone() }.to_string(),
        Error::MissingRoot { path: p }.to_string(),
    ];
    assert!(msgs[0].contains("`id`"), "{}", msgs[0]);
    assert!(msgs[1].contains("`created_at`"), "{}", msgs[1]);
    assert!(msgs[2].contains("`root`"), "{}", msgs[2]);
    let mut sorted = msgs.to_vec();
    sorted.sort();
    sorted.dedup();
    assert_eq!(sorted.len(), 3, "required-key messages are not distinct");
}

#[test]
fn each_frontmatter_shape_failure_has_its_own_variant() {
    let p = String::from("v/a.md");
    let msgs = [
        Error::MissingFrontmatterFence { path: p.clone() }.to_string(),
        Error::UnterminatedFrontmatter { path: p.clone() }.to_string(),
        Error::MalformedYaml { path: p.clone(), message: "bad".into() }.to_string(),
        Error::FrontmatterNotAMapping { path: p }.to_string(),
    ];
    let mut sorted = msgs.to_vec();
    sorted.sort();
    sorted.dedup();
    assert_eq!(sorted.len(), 4, "frontmatter shape messages are not distinct");
}

#[test]
fn only_registry_reads_are_recoverable() {
    let recoverable: Vec<String> = every_variant()
        .into_iter()
        .filter(Error::is_registry_recoverable)
        .map(|e| format!("{e:?}").split_whitespace().next().unwrap().to_string())
        .collect();
    assert_eq!(recoverable, ["RegistryUnreadable", "RegistryCorrupt"]);
}

#[test]
fn io_variants_expose_their_source() {
    for e in every_variant() {
        let is_io = matches!(
            e,
            Error::Read { .. }
                | Error::Write { .. }
                | Error::CreateDir { .. }
                | Error::ReadDir { .. }
                | Error::Rename { .. }
                | Error::Remove { .. }
        );
        assert_eq!(
            e.source().is_some(),
            is_io,
            "source() disagrees with the variant kind for {e:?}"
        );
    }
}

#[test]
fn rename_names_both_paths_and_reports_the_target() {
    let e = Error::Rename {
        from: "v/.jot/tmp/staged".into(),
        to: "v/note.md".into(),
        source: io_err(),
    };
    let shown = e.to_string();
    assert!(shown.contains("staged"), "{shown}");
    assert!(shown.contains("note.md"), "{shown}");
    assert_eq!(e.path(), Some("v/note.md"));
}

#[test]
fn result_alias_is_usable() {
    fn f(ok: bool) -> Result<u8> {
        if ok {
            Ok(1)
        } else {
            Err(Error::NotUtf8 { path: "v/a.md".into() })
        }
    }
    assert_eq!(f(true).unwrap(), 1);
    assert!(f(false).is_err());
}
