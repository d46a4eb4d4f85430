# jot_core

The core of a personal capture tool over a directory of markdown notes, with its behaviour stated
as Verus contracts and proved.

Every note is a `<uuid>[_slug].md` file whose filename is its identity and whose frontmatter
carries its title and its relations. The files are the truth; the index, the caches and the views
are derived from them.

## Layout

- `src/` is the verified library.
  - `text.rs`: text helpers the rest relies on (trimming, ASCII case, substring search).
  - `block.rs`: splitting a note file into prefix, frontmatter block and body.
  - `frontmatter.rs`: the schema, reading the block, and rendering it back with unknown keys
    preserved.
  - `note.rs`: note ids (UUIDv7) and notes.
  - `fs.rs`: filenames, slugs, and which paths are notes.
  - `link.rs`: `[[uuid]]` links in a note's body.
  - `shortid.rs`: the shortest unambiguous id prefixes.
  - `roots.rs`: thread roots derived from `reply_to` chains, cycles included.
  - `thread.rs`: reply trees, paths and segments.
  - `query.rs`: the query and row types.
  - `snapshot.rs`: the in-memory view of a vault and every read it answers.
  - `index.rs`: what an incremental sync decides, and the rows the index stores.
  - `registry.rs`: the workspace registry.
  - `watch.rs`: what the vault watcher decides.
- `tests/` exercises the library from outside.
- `app/` holds what stands around it: reading and writing the vault's files, the SQLite index,
  the registry file and the filesystem watcher, and the serde glue that turns the registry and
  index rows into and out of their on-disk forms.

Calls into the crates the library uses (markdown parsing, YAML, UUIDs, blake3, chrono,
serde_json, toml, indexmap) stand behind small trusted wrappers whose doc comments say what each claims.
