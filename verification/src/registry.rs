//! The workspace registry: known workspaces keyed by their minted id, plus which one is current.
//!
//! Entries are keyed by id, never by path: moving a vault is a field update, not an orphaned
//! registration. A `current` that names a removed id is a dangling reference, not an error. An
//! entry whose path is gone is retained and reported stale, never dropped. Keys a newer build
//! wrote that this one does not model are carried through a load and a save, except those of an
//! entry that was removed.
//!
//! Reading and writing `workspaces.toml`, and checking whether a path exists, are the caller's;
//! what is here is the registry those produce and consume.

use vstd::prelude::*;
use vstd::string::StringExecFns;

use crate::error::Error;
use crate::note::{NoteId, hyphenated_text};
use indexmap::IndexMap;

verus! {

#[verifier::external_type_specification]
#[verifier::external_body]
#[verifier::reject_recursive_types(K)]
#[verifier::reject_recursive_types(V)]
#[verifier::reject_recursive_types(S)]
pub struct ExIndexMap<K, V, S>(IndexMap<K, V, S>);

#[verifier::external_type_specification]
#[verifier::external_body]
#[verifier::reject_recursive_types(K)]
#[verifier::reject_recursive_types(V)]
pub struct ExTomlMap<K, V>(toml::map::Map<K, V>);

#[verifier::external_type_specification]
#[verifier::external_body]
pub struct ExTomlValue(toml::Value);

// =============================================================================================
// Entries
// =============================================================================================

/// One known workspace. `stale` is a snapshot taken when the entry was built or its path last
/// set, not a live check.
pub struct Entry {
    id: u128,
    path: String,
    name: String,
    last_opened: i128,
    stale: bool,
}

/// What an entry holds, as plain values.
pub struct EntryView {
    pub id: u128,
    pub path: Seq<char>,
    pub name: Seq<char>,
    pub last_opened: i128,
    pub stale: bool,
}

impl View for Entry {
    type V = EntryView;

    closed spec fn view(&self) -> EntryView {
        EntryView {
            id: self.id,
            path: self.path@,
            name: self.name@,
            last_opened: self.last_opened,
            stale: self.stale,
        }
    }
}

impl Entry {
    /// A new entry, stale exactly when its path does not exist right now.
    pub fn new(id: u128, path: String, name: String, last_opened: i128, path_exists: bool) -> (e: Entry)
        ensures
            e@ == (EntryView { id, path: path@, name: name@, last_opened, stale: !path_exists }),
    {
        Entry { id, path, name, last_opened, stale: !path_exists }
    }

    /// The workspace's minted id: the entry's key in the registry.
    pub fn id(&self) -> (id: u128)
        ensures
            id == self@.id,
    {
        self.id
    }

    /// Where the workspace lives, as last recorded.
    pub fn path(&self) -> (p: &str)
        ensures
            p@ == self@.path,
    {
        self.path.as_str()
    }

    /// The display name.
    pub fn name(&self) -> (n: &str)
        ensures
            n@ == self@.name,
    {
        self.name.as_str()
    }

    /// When the workspace was last opened, in nanoseconds since the Unix epoch.
    pub fn last_opened(&self) -> (t: i128)
        ensures
            t == self@.last_opened,
    {
        self.last_opened
    }

    /// Whether the path failed an existence check when it was last recorded.
    pub fn is_stale(&self) -> (b: bool)
        ensures
            b == self@.stale,
    {
        self.stale
    }

    /// Records that the workspace moved, and recomputes staleness against the new path.
    pub fn set_path(&mut self, path: String, path_exists: bool)
        ensures
            final(self)@ == (EntryView { path: path@, stale: !path_exists, ..old(self)@ }),
    {
        self.stale = !path_exists;
        self.path = path;
    }

    /// Updates the display name.
    pub fn set_name(&mut self, name: String)
        ensures
            final(self)@ == (EntryView { name: name@, ..old(self)@ }),
    {
        self.name = name;
    }

    /// Stamps when the workspace was last opened.
    pub fn touch(&mut self, when: i128)
        ensures
            final(self)@ == (EntryView { last_opened: when, ..old(self)@ }),
    {
        self.last_opened = when;
    }
}

// =============================================================================================
// The two maps the registry holds
// =============================================================================================

/// The workspaces an `IndexMap` of entries holds, each key with its entry, in the map's order.
pub uninterp spec fn registered(m: IndexMap<u128, Entry>) -> Seq<(u128, EntryView)>;

/// What an `IndexMap` of retained per-entry tables holds, in the map's order: each id with the
/// keys of the table kept under it, as [`table_keys`] reads them.
pub uninterp spec fn retained_tables(m: IndexMap<u128, toml::map::Map<String, toml::Value>>) -> Seq<(u128, Seq<Seq<char>>)>;

/// Where key `k` first stands among `s`.
pub open spec fn position_of<T>(s: Seq<(u128, T)>, k: u128) -> Option<int>
    decreases s.len(),
{
    if s.len() == 0 {
        None
    } else if s[0].0 == k {
        Some(0)
    } else {
        match position_of(s.drop_first(), k) {
            Some(i) => Some(i + 1),
            None => None,
        }
    }
}

/// `s` after `IndexMap::insert` of `k` and `v`: an existing key keeps its place and takes the new
/// value; a new one goes last.
pub open spec fn after_insert<T>(s: Seq<(u128, T)>, k: u128, v: T) -> Seq<(u128, T)> {
    match position_of(s, k) {
        Some(i) => s.update(i, (k, v)),
        None => s.push((k, v)),
    }
}

/// `s` after `IndexMap::shift_remove` of `k`: the pair goes, and those after it shift down,
/// keeping their order.
pub open spec fn after_remove<T>(s: Seq<(u128, T)>, k: u128) -> Seq<(u128, T)> {
    match position_of(s, k) {
        Some(i) => s.remove(i),
        None => s,
    }
}

/// `IndexMap::new`. Claimed: it holds nothing.
#[verifier::external_body]
fn entries_new() -> (m: IndexMap<u128, Entry>)
    ensures
        registered(m) == Seq::<(u128, EntryView)>::empty(),
{
    IndexMap::new()
}

/// `IndexMap::insert`. Claimed, as its documentation says: an existing key keeps its place and
/// its value is replaced, the old one handed back; a new key goes last and nothing comes back.
#[verifier::external_body]
fn entries_insert(m: &mut IndexMap<u128, Entry>, k: u128, v: Entry) -> (r: Option<Entry>)
    ensures
        registered(*final(m)) == after_insert(registered(*old(m)), k, v@),
        match position_of(registered(*old(m)), k) {
            Some(i) => r matches Some(o) && o@ == registered(*old(m))[i].1,
            None => r is None,
        },
{
    m.insert(k, v)
}

/// `IndexMap::shift_remove`. Claimed, as its documentation says: the pair goes and those after it
/// shift down in order; its value comes back, or nothing when the key was absent.
#[verifier::external_body]
fn entries_remove(m: &mut IndexMap<u128, Entry>, k: u128) -> (r: Option<Entry>)
    ensures
        registered(*final(m)) == after_remove(registered(*old(m)), k),
        match position_of(registered(*old(m)), k) {
            Some(i) => r matches Some(o) && o@ == registered(*old(m))[i].1,
            None => r is None,
        },
{
    m.shift_remove(&k)
}

/// `IndexMap::get`. Claimed: the entry under `k`, or nothing when the key is absent.
#[verifier::external_body]
fn entries_get<'a>(m: &'a IndexMap<u128, Entry>, k: u128) -> (r: Option<&'a Entry>)
    ensures
        match position_of(registered(*m), k) {
            Some(i) => r matches Some(e) && e@ == registered(*m)[i].1,
            None => r is None,
        },
{
    m.get(&k)
}

/// `IndexMap::len`. Claimed: how many pairs it holds.
#[verifier::external_body]
fn entries_len(m: &IndexMap<u128, Entry>) -> (n: usize)
    ensures
        n == registered(*m).len(),
{
    m.len()
}

/// `IndexMap::values`, collected. Claimed: every entry, in the map's order.
#[verifier::external_body]
fn entries_values<'a>(m: &'a IndexMap<u128, Entry>) -> (vs: Vec<&'a Entry>)
    ensures
        vs@.len() == registered(*m).len(),
        forall|i: int| 0 <= i < vs@.len() ==> (#[trigger] vs@[i])@ == registered(*m)[i].1,
{
    m.values().collect()
}

/// `IndexMap::new`, for retained tables. Claimed: it holds nothing.
#[verifier::external_body]
fn retained_new() -> (m: IndexMap<u128, toml::map::Map<String, toml::Value>>)
    ensures
        retained_tables(m) == Seq::<(u128, Seq<Seq<char>>)>::empty(),
{
    IndexMap::new()
}

/// `IndexMap::shift_remove`, for retained tables. Claimed: the key goes, the others keep their
/// order.
#[verifier::external_body]
fn retained_remove(m: &mut IndexMap<u128, toml::map::Map<String, toml::Value>>, k: u128)
    ensures
        retained_tables(*final(m)) == after_remove(retained_tables(*old(m)), k),
{
    m.shift_remove(&k);
}

/// `IndexMap::get`, for retained tables. Claimed: the table kept for `k`, if one was; its keys
/// are the ones the map holds under `k`.
#[verifier::external_body]
fn retained_get<'a>(m: &'a IndexMap<u128, toml::map::Map<String, toml::Value>>, k: u128) -> (r: Option<&'a toml::map::Map<String, toml::Value>>)
    ensures
        match position_of(retained_tables(*m), k) {
            Some(i) => r matches Some(t) && table_keys(*t) == retained_tables(*m)[i].1,
            None => r is None,
        },
{
    m.get(&k)
}

/// The keys a TOML table holds.
pub uninterp spec fn table_keys(t: toml::map::Map<String, toml::Value>) -> Seq<Seq<char>>;

/// `toml::map::Map::new`. Claimed: it holds no key.
#[verifier::external_body]
fn table_new() -> (t: toml::map::Map<String, toml::Value>)
    ensures
        table_keys(t) == Seq::<Seq<char>>::empty(),
{
    toml::map::Map::new()
}

// =============================================================================================
// The registry
// =============================================================================================

/// Known workspaces keyed by id, plus which one is current, whether this registry is the empty
/// result of recovering from a bad file, and the keys a newer build wrote that this one carries.
pub struct Registry {
    current: Option<u128>,
    entries: IndexMap<u128, Entry>,
    recovered: Option<Error>,
    unknown: toml::map::Map<String, toml::Value>,
    unknown_entries: IndexMap<u128, toml::map::Map<String, toml::Value>>,
}

/// The stale ones among `s`, in order.
pub open spec fn stale_upto(s: Seq<(u128, EntryView)>) -> Seq<EntryView>
    decreases s.len(),
{
    if s.len() == 0 {
        Seq::empty()
    } else if s.last().1.stale {
        stale_upto(s.drop_last()).push(s.last().1)
    } else {
        stale_upto(s.drop_last())
    }
}

/// The entries of a list, by view.
pub open spec fn entry_views(es: Seq<&Entry>) -> Seq<EntryView> {
    es.map_values(|e: &Entry| e@)
}

impl Registry {
    /// The current workspace's id.
    pub closed spec fn current_id(&self) -> Option<u128> {
        self.current
    }

    /// The known workspaces, in the order they were first registered.
    pub closed spec fn listed(&self) -> Seq<(u128, EntryView)> {
        registered(self.entries)
    }

    /// The workspace tables whose keys this registry carries for a newer build: each id, in
    /// order, with the keys kept under it.
    pub closed spec fn retained(&self) -> Seq<(u128, Seq<Seq<char>>)> {
        retained_tables(self.unknown_entries)
    }

    /// The error swallowed when this registry was recovered from a bad file.
    pub closed spec fn recovered_from(&self) -> Option<Error> {
        self.recovered
    }

    /// The top-level table of keys this registry carries for a newer build.
    pub closed spec fn carried(&self) -> toml::map::Map<String, toml::Value> {
        self.unknown
    }

    /// An empty registry with nothing current and nothing recovered from.
    pub fn new() -> (r: Registry)
        ensures
            r.listed() == Seq::<(u128, EntryView)>::empty(),
            r.current_id() is None,
            r.recovered_from() is None,
            r.retained() == Seq::<(u128, Seq<Seq<char>>)>::empty(),
            table_keys(r.carried()) == Seq::<Seq<char>>::empty(),
    {
        Registry {
            current: None,
            entries: entries_new(),
            recovered: None,
            unknown: table_new(),
            unknown_entries: retained_new(),
        }
    }

    /// The empty registry that stands for a file that could not be read or parsed, carrying the
    /// error that was swallowed. Only those two errors may be.
    pub fn recovered_empty(err: Error) -> (r: Registry)
        requires
            err is RegistryUnreadable || err is RegistryCorrupt,
        ensures
            r.listed() == Seq::<(u128, EntryView)>::empty(),
            r.current_id() is None,
            r.recovered_from() == Some(err),
            r.retained() == Seq::<(u128, Seq<Seq<char>>)>::empty(),
            table_keys(r.carried()) == Seq::<Seq<char>>::empty(),
    {
        Registry {
            current: None,
            entries: entries_new(),
            recovered: Some(err),
            unknown: table_new(),
            unknown_entries: retained_new(),
        }
    }

    /// The id of the current workspace, if one is set. Never checked against the entries.
    pub fn current(&self) -> (c: Option<u128>)
        ensures
            c == self.current_id(),
    {
        self.current
    }

    /// Sets the current workspace.
    pub fn set_current(&mut self, id: u128)
        ensures
            final(self).current_id() == Some(id),
            final(self).listed() == old(self).listed(),
            final(self).retained() == old(self).retained(),
            final(self).recovered_from() == old(self).recovered_from(),
            final(self).carried() == old(self).carried(),
    {
        self.current = Some(id);
    }

    /// Clears the current workspace.
    pub fn clear_current(&mut self)
        ensures
            final(self).current_id() is None,
            final(self).listed() == old(self).listed(),
            final(self).retained() == old(self).retained(),
            final(self).recovered_from() == old(self).recovered_from(),
            final(self).carried() == old(self).carried(),
    {
        self.current = None;
    }

    /// The entry registered under `id`.
    pub fn get(&self, id: u128) -> (r: Option<&Entry>)
        ensures
            match position_of(self.listed(), id) {
                Some(i) => r matches Some(e) && e@ == self.listed()[i].1,
                None => r is None,
            },
    {
        entries_get(&self.entries, id)
    }

    /// Registers `entry`, replacing in place whatever was registered under its id.
    pub fn upsert(&mut self, entry: Entry)
        ensures
            final(self).listed() == after_insert(old(self).listed(), entry@.id, entry@),
            final(self).current_id() == old(self).current_id(),
            final(self).retained() == old(self).retained(),
            final(self).recovered_from() == old(self).recovered_from(),
            final(self).carried() == old(self).carried(),
    {
        let id = entry.id;
        let _ = entries_insert(&mut self.entries, id, entry);
    }

    /// Unregisters `id`, handing back its entry, and drops the keys retained for it. A `current`
    /// that named it is left dangling.
    pub fn remove(&mut self, id: u128) -> (r: Option<Entry>)
        ensures
            final(self).listed() == after_remove(old(self).listed(), id),
            final(self).retained() == after_remove(old(self).retained(), id),
            final(self).current_id() == old(self).current_id(),
            final(self).recovered_from() == old(self).recovered_from(),
            final(self).carried() == old(self).carried(),
            match position_of(old(self).listed(), id) {
                Some(i) => r matches Some(e) && e@ == old(self).listed()[i].1,
                None => r is None,
            },
    {
        retained_remove(&mut self.unknown_entries, id);
        entries_remove(&mut self.entries, id)
    }

    /// Whether `id` is registered.
    pub fn contains(&self, id: u128) -> (b: bool)
        ensures
            b == position_of(self.listed(), id) is Some,
    {
        entries_get(&self.entries, id).is_some()
    }

    /// How many workspaces are registered.
    pub fn len(&self) -> (n: usize)
        ensures
            n == self.listed().len(),
    {
        entries_len(&self.entries)
    }

    /// Whether none is.
    pub fn is_empty(&self) -> (b: bool)
        ensures
            b == (self.listed().len() == 0),
    {
        entries_len(&self.entries) == 0
    }

    /// Every known workspace, in registration order.
    pub fn entries(&self) -> (es: Vec<&Entry>)
        ensures
            entry_views(es@) == self.listed().map_values(|p: (u128, EntryView)| p.1),
    {
        let es = entries_values(&self.entries);
        assert(entry_views(es@) =~= self.listed().map_values(|p: (u128, EntryView)| p.1));
        es
    }

    /// The known workspaces whose path was missing when last checked, in registration order.
    pub fn stale_entries(&self) -> (es: Vec<&Entry>)
        ensures
            entry_views(es@) == stale_upto(self.listed()),
    {
        let all = entries_values(&self.entries);
        let ghost s = self.listed();
        let mut es: Vec<&Entry> = Vec::new();
        let mut i: usize = 0;
        proof {
            assert(s.take(0) =~= Seq::<(u128, EntryView)>::empty());
        }
        while i < all.len()
            invariant
                i <= all.len() == s.len(),
                s == self.listed(),
                forall|q: int| 0 <= q < all@.len() ==> (#[trigger] all@[q])@ == s[q].1,
                entry_views(es@) == stale_upto(s.take(i as int)),
            decreases all.len() - i,
        {
            let e = all[i];
            let ghost before = es@;
            proof {
                assert(s.take(i + 1).drop_last() =~= s.take(i as int));
                assert(s.take(i + 1).last() == s[i as int]);
            }
            if e.is_stale() {
                es.push(e);
                assert(entry_views(es@) =~= entry_views(before).push(e@));
            }
            i = i + 1;
        }
        proof {
            assert(s.take(all.len() as int) =~= s);
        }
        es
    }

    /// The error swallowed if this registry is the empty result of recovering from a bad file.
    pub fn recovered(&self) -> (e: Option<&Error>)
        ensures
            match e {
                Some(x) => self.recovered_from() == Some(*x),
                None => self.recovered_from() is None,
            },
    {
        match &self.recovered {
            Some(x) => Some(x),
            None => None,
        }
    }

    /// The top-level keys a newer build wrote, carried for the next save.
    pub fn unknown(&self) -> (t: &toml::map::Map<String, toml::Value>)
        ensures
            *t == self.carried(),
    {
        &self.unknown
    }

    /// The keys a newer build wrote into the table of workspace `id`, carried for the next save.
    pub fn unknown_for(&self, id: u128) -> (t: Option<&toml::map::Map<String, toml::Value>>)
        ensures
            match position_of(self.retained(), id) {
                Some(i) => t matches Some(x) && table_keys(*x) == self.retained()[i].1,
                None => t is None,
            },
    {
        retained_get(&self.unknown_entries, id)
    }
}

// =============================================================================================
// Building a registry from a loaded file
// =============================================================================================

/// One `[[workspace]]` table as the file held it, and whether its path exists now.
pub struct LoadedEntry {
    pub id: u128,
    pub path: String,
    pub name: String,
    pub last_opened: String,
    pub path_exists: bool,
}

/// An RFC 3339 timestamp read as UTC whole seconds and the nanoseconds past them, or the
/// message of the parse error.
pub uninterp spec fn rfc3339_parsed(text: Seq<char>) -> Result<(i64, u32), Seq<char>>;

/// `chrono::DateTime::parse_from_rfc3339`, then `with_timezone(&Utc)`, read back as its
/// timestamp and subsecond nanoseconds; or the error, as text. Claimed: what comes back is what
/// `rfc3339_parsed` names for the text.
#[verifier::external_body]
fn parse_rfc3339(text: &str) -> (r: Result<(i64, u32), String>)
    ensures
        match r {
            Ok(p) => rfc3339_parsed(text@) == Ok::<(i64, u32), Seq<char>>(p),
            Err(m) => rfc3339_parsed(text@) == Err::<(i64, u32), Seq<char>>(m@),
        },
{
    match chrono::DateTime::parse_from_rfc3339(text) {
        Ok(at) => {
            let utc = at.with_timezone(&chrono::Utc);
            Ok((utc.timestamp(), utc.timestamp_subsec_nanos()))
        },
        Err(e) => Err(e.to_string()),
    }
}

/// Seconds and nanoseconds as one instant in nanoseconds.
pub open spec fn instant_ns(p: (i64, u32)) -> i128 {
    (p.0 * 1_000_000_000 + p.1) as i128
}

/// Why a registry whose `last_opened` is not RFC 3339 is corrupt.
pub open spec fn bad_timestamp(id: u128, text: Seq<char>, err: Seq<char>) -> Seq<char> {
    "workspace `"@ + hyphenated_text(id) + "`: last_opened `"@ + text + "` is not RFC 3339: "@ + err
}

/// The entries the loaded tables stand for, in order, a later table with an id already seen
/// replacing the earlier in place; or why the first bad timestamp makes the file corrupt.
pub open spec fn loaded_upto(raws: Seq<LoadedEntry>) -> Result<Seq<(u128, EntryView)>, Seq<char>>
    decreases raws.len(),
{
    if raws.len() == 0 {
        Ok(Seq::empty())
    } else {
        match loaded_upto(raws.drop_last()) {
            Err(m) => Err(m),
            Ok(s) => {
                let r = raws.last();
                match rfc3339_parsed(r.last_opened@) {
                    Err(e) => Err(bad_timestamp(r.id, r.last_opened@, e)),
                    Ok(p) => Ok(
                        after_insert(
                            s,
                            r.id,
                            EntryView {
                                id: r.id,
                                path: r.path@,
                                name: r.name@,
                                last_opened: instant_ns(p),
                                stale: !r.path_exists,
                            },
                        ),
                    ),
                }
            },
        }
    }
}

impl Registry {
    /// The registry a loaded file stands for: its current id, its workspaces in file order, and
    /// the keys it carried that this build does not model; or, when a `last_opened` is not
    /// RFC 3339, why the file is corrupt.
    pub fn from_loaded(
        current: Option<u128>,
        raws: Vec<LoadedEntry>,
        unknown: toml::map::Map<String, toml::Value>,
        unknown_entries: IndexMap<u128, toml::map::Map<String, toml::Value>>,
    ) -> (r: Result<Registry, String>)
        ensures
            match loaded_upto(raws@) {
                Ok(s) => r matches Ok(reg) && reg.listed() == s && reg.current_id() == current
                    && reg.recovered_from() is None && reg.retained() == retained_tables(
                    unknown_entries,
                ) && reg.carried() == unknown,
                Err(m) => r matches Err(x) && x@ == m,
            },
    {
        let mut entries = entries_new();
        let mut i: usize = 0;
        proof {
            assert(raws@.take(0) =~= Seq::<LoadedEntry>::empty());
        }
        while i < raws.len()
            invariant
                i <= raws.len(),
                loaded_upto(raws@.take(i as int)) == Ok::<Seq<(u128, EntryView)>, Seq<char>>(
                    registered(entries),
                ),
            decreases raws.len() - i,
        {
            let raw = &raws[i];
            proof {
                assert(raws@.take(i + 1).drop_last() =~= raws@.take(i as int));
                assert(raws@.take(i + 1).last() == *raw);
            }
            match parse_rfc3339(raw.last_opened.as_str()) {
                Err(e) => {
                    let mut m = "workspace `".to_string();
                    proof {
                        reveal_strlit("workspace `");
                        reveal_strlit("`: last_opened `");
                        reveal_strlit("` is not RFC 3339: ");
                    }
                    m.append(NoteId::from_u128(raw.id).to_string().as_str());
                    m.append("`: last_opened `");
                    m.append(raw.last_opened.as_str());
                    m.append("` is not RFC 3339: ");
                    m.append(e.as_str());
                    proof {
                        lemma_loaded_stays_failed(raws@, i as int + 1);
                        assert(raws@.take(raws@.len() as int) =~= raws@);
                    }
                    return Err(m);
                },
                Ok((secs, nsecs)) => {
                    let at: i128 = secs as i128 * 1_000_000_000 + nsecs as i128;
                    let entry = Entry {
                        id: raw.id,
                        path: raw.path.clone(),
                        name: raw.name.clone(),
                        last_opened: at,
                        stale: !raw.path_exists,
                    };
                    let _ = entries_insert(&mut entries, raw.id, entry);
                },
            }
            i = i + 1;
        }
        proof {
            assert(raws@.take(raws.len() as int) =~= raws@);
        }
        Ok(
            Registry {
                current,
                entries,
                recovered: None,
                unknown,
                unknown_entries,
            },
        )
    }
}

/// Once a prefix of the tables fails, every longer one fails the same way.
proof fn lemma_loaded_stays_failed(raws: Seq<LoadedEntry>, n: int)
    requires
        0 <= n <= raws.len(),
        loaded_upto(raws.take(n)) is Err,
    ensures
        loaded_upto(raws) == loaded_upto(raws.take(n)),
    decreases raws.len() - n,
{
    if n < raws.len() {
        assert(raws.take(n + 1).drop_last() =~= raws.take(n));
        lemma_loaded_stays_failed(raws, n + 1);
    } else {
        assert(raws.take(n) =~= raws);
    }
}

// =============================================================================================
// Laws
// =============================================================================================

/// Whether no key stands twice among `s`.
pub open spec fn distinct_keys<T>(s: Seq<(u128, T)>) -> bool {
    forall|i: int, j: int| 0 <= i < j < s.len() ==> #[trigger] s[i].0 != #[trigger] s[j].0
}

/// Where a key first stands, and that it stands nowhere when it has no position.
proof fn lemma_position_of<T>(s: Seq<(u128, T)>, k: u128)
    ensures
        match position_of(s, k) {
            Some(i) => 0 <= i < s.len() && s[i].0 == k && forall|j: int| 0 <= j < i ==> #[trigger] s[j].0 != k,
            None => forall|j: int| 0 <= j < s.len() ==> #[trigger] s[j].0 != k,
        },
    decreases s.len(),
{
    if s.len() > 0 && s[0].0 != k {
        lemma_position_of(s.drop_first(), k);
        assert forall|j: int| 1 <= j < s.len() implies s[j].0 == s.drop_first()[j - 1].0 by {}
    }
}

/// Registering a workspace keyed by an id already registered replaces that entry in place rather
/// than adding a second one; a new id is added once, last. Either way no id stands twice, and the
/// id then names the new entry.
pub proof fn lemma_upsert_replaces_not_duplicates<T>(s: Seq<(u128, T)>, k: u128, v: T)
    requires
        distinct_keys(s),
    ensures
        distinct_keys(after_insert(s, k, v)),
        after_insert(s, k, v).len() == s.len() + if position_of(s, k) is Some {
            0int
        } else {
            1int
        },
        position_of(after_insert(s, k, v), k) matches Some(i) && after_insert(s, k, v)[i] == (k, v),
{
    lemma_position_of(s, k);
    let t = after_insert(s, k, v);
    lemma_position_of(t, k);
    match position_of(s, k) {
        Some(i) => {
            assert forall|a: int, b: int| 0 <= a < b < t.len() implies #[trigger] t[a].0 != #[trigger] t[b].0 by {
                assert(t[a].0 == s[a].0 && t[b].0 == s[b].0);
            }
            assert(t[i] == (k, v));
            assert(t[i].0 == k);
            if let Some(j) = position_of(t, k) {
                if j < i {
                    assert(t[j] == s[j]);
                } else if j > i {
                    assert(t[i].0 == k);
                }
            }
        },
        None => {
            assert forall|a: int, b: int| 0 <= a < b < t.len() implies #[trigger] t[a].0 != #[trigger] t[b].0 by {
                if b < s.len() {
                    assert(t[a].0 == s[a].0 && t[b].0 == s[b].0);
                } else {
                    assert(t[a].0 == s[a].0);
                }
            }
            assert(t[s.len() as int] == (k, v));
            assert(t[s.len() as int].0 == k);
            if let Some(j) = position_of(t, k) {
                if j < s.len() {
                    assert(t[j] == s[j]);
                }
            }
        },
    }
}

/// Removing a workspace leaves no entry under its id, and no id standing twice.
pub proof fn lemma_remove_leaves_none<T>(s: Seq<(u128, T)>, k: u128)
    requires
        distinct_keys(s),
    ensures
        distinct_keys(after_remove(s, k)),
        position_of(after_remove(s, k), k) is None,
        after_remove(s, k).len() == s.len() - if position_of(s, k) is Some {
            1int
        } else {
            0int
        },
{
    lemma_position_of(s, k);
    let t = after_remove(s, k);
    lemma_position_of(t, k);
    match position_of(s, k) {
        Some(i) => {
            assert forall|a: int, b: int| 0 <= a < b < t.len() implies #[trigger] t[a].0 != #[trigger] t[b].0 by {
                let a0 = if a < i { a } else { a + 1 };
                let b0 = if b < i { b } else { b + 1 };
                assert(t[a] == s[a0] && t[b] == s[b0]);
            }
            if let Some(j) = position_of(t, k) {
                let j0 = if j < i { j } else { j + 1 };
                assert(t[j] == s[j0]);
                assert(false);
            }
        },
        None => {},
    }
}

// =============================================================================================
// Keys a newer build wrote
// =============================================================================================

/// The string a TOML table holds under `key`, if it holds a string there.
pub uninterp spec fn table_string(t: toml::map::Map<String, toml::Value>, key: Seq<char>) -> Option<Seq<char>>;

/// What a `workspace` array of a table holds: for each item, nothing when it is not a table, else
/// the string its `id` key holds and its keys. `None` when the table has no such array.
pub uninterp spec fn workspace_items(t: toml::map::Map<String, toml::Value>) -> Option<
    Seq<Option<(Option<Seq<char>>, Seq<Seq<char>>)>>,
>;

/// A registry file read as a plain TOML table: its keys and its workspace items, as
/// [`table_keys`] and [`workspace_items`] read them; `None` when it is not TOML.
pub uninterp spec fn toml_doc(text: Seq<char>) -> Option<
    (Seq<Seq<char>>, Option<Seq<Option<(Option<Seq<char>>, Seq<Seq<char>>)>>>),
>;

/// `toml::from_str` into a `toml::Table`. Claimed: the table, when the text is TOML, has the keys
/// and workspace items `toml_doc` names for the text.
#[verifier::external_body]
fn toml_table(text: &str) -> (t: Option<toml::map::Map<String, toml::Value>>)
    ensures
        match t {
            Some(m) => toml_doc(text@) == Some((table_keys(m), workspace_items(m))),
            None => toml_doc(text@) is None,
        },
{
    toml::from_str::<toml::Table>(text).ok()
}

/// `Clone::clone` of a TOML table. Claimed: the copy holds the same keys.
#[verifier::external_body]
fn table_clone(t: &toml::map::Map<String, toml::Value>) -> (c: toml::map::Map<String, toml::Value>)
    ensures
        table_keys(c) == table_keys(*t),
{
    t.clone()
}

/// `toml::map::Map::remove`. Claimed: the key goes, and the others keep their order.
#[verifier::external_body]
fn table_remove(t: &mut toml::map::Map<String, toml::Value>, key: &str)
    ensures
        table_keys(*final(t)) == without_key(table_keys(*old(t)), key@),
{
    t.remove(key);
}

/// `toml::map::Map::is_empty`. Claimed: whether it holds no key.
#[verifier::external_body]
fn table_is_empty(t: &toml::map::Map<String, toml::Value>) -> (b: bool)
    ensures
        b == (table_keys(*t).len() == 0),
{
    t.is_empty()
}

/// `get` then `as_str` on a TOML table. Claimed: the string held under `key`, as
/// `table_string` names it.
#[verifier::external_body]
fn table_str(t: &toml::map::Map<String, toml::Value>, key: &str) -> (r: Option<String>)
    ensures
        crate::frontmatter::opt_text(r) == table_string(*t, key@),
{
    t.get(key).and_then(toml::Value::as_str).map(str::to_owned)
}

/// `get("workspace")`, then each item of the array there as a table. Claimed: the items as
/// `workspace_items` names them, each table one for one.
#[verifier::external_body]
fn workspace_tables(t: &toml::map::Map<String, toml::Value>) -> (r: Option<Vec<Option<toml::map::Map<String, toml::Value>>>>)
    ensures
        match r {
            None => workspace_items(*t) is None,
            Some(v) => workspace_items(*t) matches Some(s) && s.len() == v@.len() && forall|i: int|
                0 <= i < v@.len() ==> match #[trigger] v@[i] {
                    None => s[i] is None,
                    Some(m) => s[i] == Some((table_string(m, "id"@), table_keys(m))),
                },
        },
{
    match t.get("workspace") {
        Some(toml::Value::Array(items)) => Some(items.iter().map(|i| i.as_table().cloned()).collect()),
        _ => None,
    }
}

/// `IndexMap::insert`, for retained tables. Claimed: an existing id keeps its place and takes
/// the new table, a new one goes last; either way the table under `k` is `v`.
#[verifier::external_body]
fn retained_insert(m: &mut IndexMap<u128, toml::map::Map<String, toml::Value>>, k: u128, v: toml::map::Map<String, toml::Value>)
    ensures
        retained_tables(*final(m)) == after_insert(retained_tables(*old(m)), k, table_keys(v)),
{
    m.insert(k, v);
}

/// The keys of `ks` other than `key`, in order.
pub open spec fn without_key(ks: Seq<Seq<char>>, key: Seq<char>) -> Seq<Seq<char>> {
    ks.filter(|k: Seq<char>| k != key)
}

/// The keys of `ks` that are not among `known`, in order.
pub open spec fn unknown_among(ks: Seq<Seq<char>>, known: Seq<Seq<char>>) -> Seq<Seq<char>> {
    ks.filter(|k: Seq<char>| !known.contains(k))
}

/// The keys of `table` this build does not model, given the ones it does: the retained copy.
pub fn retained_keys(table: &toml::map::Map<String, toml::Value>, known: &Vec<&str>) -> (u: toml::map::Map<String, toml::Value>)
    ensures
        table_keys(u) == unknown_among(table_keys(*table), known@.map_values(|s: &str| s@)),
{
    let ghost ks = known@.map_values(|s: &str| s@);
    let mut u = table_clone(table);
    let mut i: usize = 0;
    proof {
        lemma_filter_none(table_keys(*table));
        assert(ks.take(0) =~= Seq::<Seq<char>>::empty());
    }
    while i < known.len()
        invariant
            i <= known.len(),
            ks == known@.map_values(|s: &str| s@),
            table_keys(u) == unknown_among(table_keys(*table), ks.take(i as int)),
        decreases known.len() - i,
    {
        let ghost before = table_keys(u);
        table_remove(&mut u, known[i]);
        proof {
            assert(ks.take(i + 1) =~= ks.take(i as int).push(known@[i as int]@));
            lemma_filter_more(table_keys(*table), ks.take(i as int), known@[i as int]@);
        }
        i = i + 1;
    }
    proof {
        assert(ks.take(known.len() as int) =~= ks);
    }
    u
}

/// Filtering by an empty list keeps everything.
proof fn lemma_filter_none(ks: Seq<Seq<char>>)
    ensures
        unknown_among(ks, Seq::empty()) == ks,
    decreases ks.len(),
{
    reveal(Seq::filter);
    if ks.len() > 0 {
        lemma_filter_none(ks.drop_last());
        assert(ks.drop_last().push(ks.last()) =~= ks);
    }
}

/// Leaving out one more known key is filtering it out of what was kept.
proof fn lemma_filter_more(ks: Seq<Seq<char>>, known: Seq<Seq<char>>, k: Seq<char>)
    ensures
        unknown_among(ks, known.push(k)) == without_key(unknown_among(ks, known), k),
    decreases ks.len(),
{
    reveal(Seq::filter);
    let p1 = |x: Seq<char>| !known.contains(x);
    let p2 = |x: Seq<char>| !known.push(k).contains(x);
    let q = |x: Seq<char>| x != k;
    if ks.len() > 0 {
        lemma_filter_more(ks.drop_last(), known, k);
        let l = ks.last();
        let b = ks.drop_last().filter(p1);
        assert(known.push(k).contains(l) == (known.contains(l) || l == k)) by {
            if l == k {
                assert(known.push(k)[known.len() as int] == l);
            }
            if known.push(k).contains(l) {
                let j = choose|j: int| 0 <= j < known.push(k).len() && known.push(k)[j] == l;
                if j < known.len() {
                    assert(known[j] == l);
                }
            }
            if known.contains(l) {
                let j = choose|j: int| 0 <= j < known.len() && known[j] == l;
                assert(known.push(k)[j] == l);
            }
        }
        assert(b.push(l).drop_last() =~= b);
        assert(ks.filter(p1) == if p1(l) { b.push(l) } else { b });
        assert(ks.filter(p2) == if p2(l) {
            ks.drop_last().filter(p2).push(l)
        } else {
            ks.drop_last().filter(p2)
        });
        if p1(l) {
            assert(b.push(l).filter(q) == if q(l) { b.filter(q).push(l) } else { b.filter(q) });
        }
    } else {
        assert(ks.filter(p1) == ks);
        assert(ks.filter(p2) == ks);
        assert(ks.filter(p1).filter(q) == ks);
    }
}

/// The keys one `[[workspace]]` table models.
pub open spec fn entry_key_texts() -> Seq<Seq<char>> {
    seq!["id"@, "path"@, "name"@, "last_opened"@]
}

/// The top-level keys the registry models.
pub open spec fn top_key_texts() -> Seq<Seq<char>> {
    seq!["current"@, "workspace"@]
}

/// The keys one workspace table models, as a list.
pub fn entry_keys() -> (ks: Vec<&'static str>)
    ensures
        ks@.map_values(|s: &str| s@) == entry_key_texts(),
{
    let ks = vec!["id", "path", "name", "last_opened"];
    proof {
        reveal_strlit("id");
        reveal_strlit("path");
        reveal_strlit("name");
        reveal_strlit("last_opened");
        assert(ks@.map_values(|s: &str| s@) =~= entry_key_texts());
    }
    ks
}

/// The top-level keys the registry models, as a list.
pub fn top_keys() -> (ks: Vec<&'static str>)
    ensures
        ks@.map_values(|s: &str| s@) == top_key_texts(),
{
    let ks = vec!["current", "workspace"];
    proof {
        reveal_strlit("current");
        reveal_strlit("workspace");
        assert(ks@.map_values(|s: &str| s@) =~= top_key_texts());
    }
    ks
}

/// The workspace tables that carry keys this build does not model, each id with those keys, from
/// items read in order: an item that is not a table, or whose `id` is not a UUID string, is
/// skipped; a later item with an id already seen keeps that id's place and its own keys.
pub open spec fn retained_upto(items: Seq<Option<(Option<Seq<char>>, Seq<Seq<char>>)>>) -> Seq<(u128, Seq<Seq<char>>)>
    decreases items.len(),
{
    if items.len() == 0 {
        Seq::empty()
    } else {
        let rest = retained_upto(items.drop_last());
        match items.last() {
            Some((Some(idt), keys)) => match crate::note::uuid_text_value(idt) {
                Some(v) => if unknown_among(keys, entry_key_texts()).len() > 0 {
                    after_insert(rest, v, unknown_among(keys, entry_key_texts()))
                } else {
                    rest
                },
                None => rest,
            },
            _ => rest,
        }
    }
}

/// The keys every `[[workspace]]` table of `table` carries that this build does not model, keyed
/// by the table's id.
pub fn retained_entry_keys(table: &toml::map::Map<String, toml::Value>) -> (m: IndexMap<u128, toml::map::Map<String, toml::Value>>)
    ensures
        retained_tables(m) == match workspace_items(*table) {
            None => Seq::<(u128, Seq<Seq<char>>)>::empty(),
            Some(items) => retained_upto(items),
        },
{
    let mut out = retained_new();
    assert(retained_tables(out) =~= Seq::<(u128, Seq<Seq<char>>)>::empty());
    let items = match workspace_tables(table) {
        Some(v) => v,
        None => {
            return out;
        },
    };
    let ghost s = workspace_items(*table)->Some_0;
    let known = entry_keys();
    let mut i: usize = 0;
    proof {
        assert(s.take(0) =~= Seq::<Option<(Option<Seq<char>>, Seq<Seq<char>>)>>::empty());
    }
    while i < items.len()
        invariant
            i <= items.len() == s.len(),
            workspace_items(*table) == Some(s),
            forall|j: int|
                0 <= j < items@.len() ==> match #[trigger] items@[j] {
                    None => s[j] is None,
                    Some(m) => s[j] == Some((table_string(m, "id"@), table_keys(m))),
                },
            known@.map_values(|x: &str| x@) == entry_key_texts(),
            retained_tables(out) == retained_upto(s.take(i as int)),
        decreases items.len() - i,
    {
        proof {
            assert(s.take(i + 1).drop_last() =~= s.take(i as int));
            assert(s.take(i + 1).last() == s[i as int]);
        }
        match &items[i] {
            None => {},
            Some(entry) => {
                let idt = table_str(entry, "id");
                proof {
                    reveal_strlit("id");
                }
                match idt {
                    None => {},
                    Some(t) => match NoteId::parse(t.as_str()) {
                        None => {},
                        Some(id) => {
                            let unknown = retained_keys(entry, &known);
                            if !table_is_empty(&unknown) {
                                retained_insert(&mut out, id.as_u128(), unknown);
                            }
                        },
                    },
                }
            },
        }
        i = i + 1;
    }
    proof {
        assert(s.take(items.len() as int) =~= s);
    }
    out
}

/// What a registry file's text carries for a newer build: the keys of its top-level table this
/// build does not model, and each workspace table's, by id. Text that is not TOML carries nothing.
pub open spec fn carried_by_text(text: Seq<char>) -> (Seq<Seq<char>>, Seq<(u128, Seq<Seq<char>>)>) {
    match toml_doc(text) {
        None => (Seq::empty(), Seq::empty()),
        Some((ks, items)) => (
            unknown_among(ks, top_key_texts()),
            match items {
                None => Seq::empty(),
                Some(items) => retained_upto(items),
            },
        ),
    }
}

/// What a registry file carries for a newer build: its top-level keys this build does not model,
/// and each workspace table's, by id.
pub fn retained_from_text(text: &str) -> (r: (toml::map::Map<String, toml::Value>, IndexMap<u128, toml::map::Map<String, toml::Value>>))
    ensures
        table_keys(r.0) == carried_by_text(text@).0,
        retained_tables(r.1) == carried_by_text(text@).1,
{
    match toml_table(text) {
        None => (table_new(), retained_new()),
        Some(t) => {
            let top = top_keys();
            (retained_keys(&t, &top), retained_entry_keys(&t))
        },
    }
}

/// What reading the registry file came to, as plain values.
pub enum RegistryRead {
    /// There is no file: nothing is registered yet.
    Missing,
    /// The file could not be read; the error's message.
    Unreadable(String),
    /// The file is not a registry; the parser's message.
    Malformed(String),
    /// The file, parsed: its current id, its workspace tables in file order, and its text.
    Parsed { current: Option<u128>, raws: Vec<LoadedEntry>, text: String },
}

/// The registry a read of the file at `path` stands for. Loading never fails: a missing file is an
/// empty registry; an unreadable one, or one that is not a registry or whose `last_opened` is not
/// RFC 3339, is an empty registry carrying the error it swallowed, naming `path`; anything else is
/// the file's workspaces and current id, with every key a newer build wrote carried along.
pub fn registry_from_read(path: &str, read: RegistryRead) -> (r: Registry)
    ensures
        match read {
            RegistryRead::Parsed { current, raws, text } => match loaded_upto(raws@) {
                Ok(s) => {
                    &&& r.listed() == s
                    &&& r.current_id() == current
                    &&& r.recovered_from() is None
                    &&& table_keys(r.carried()) == carried_by_text(text@).0
                    &&& r.retained() == carried_by_text(text@).1
                },
                Err(m) => {
                    &&& r.listed().len() == 0
                    &&& r.current_id() is None
                    &&& r.recovered_from() matches Some(Error::RegistryCorrupt { path: p, message: x })
                        && p@ == path@ && x@ == m
                },
            },
            RegistryRead::Missing => {
                &&& r.listed().len() == 0
                &&& r.current_id() is None
                &&& r.recovered_from() is None
                &&& table_keys(r.carried()).len() == 0
                &&& r.retained().len() == 0
            },
            RegistryRead::Unreadable(m) => {
                &&& r.listed().len() == 0
                &&& r.current_id() is None
                &&& r.recovered_from() matches Some(Error::RegistryUnreadable { path: p, message: x })
                    && p@ == path@ && x == m
            },
            RegistryRead::Malformed(m) => {
                &&& r.listed().len() == 0
                &&& r.current_id() is None
                &&& r.recovered_from() matches Some(Error::RegistryCorrupt { path: p, message: x })
                    && p@ == path@ && x == m
            },
        },
{
    match read {
        RegistryRead::Missing => Registry::new(),
        RegistryRead::Unreadable(message) => Registry::recovered_empty(
            Error::RegistryUnreadable { path: path.to_owned(), message },
        ),
        RegistryRead::Malformed(message) => Registry::recovered_empty(
            Error::RegistryCorrupt { path: path.to_owned(), message },
        ),
        RegistryRead::Parsed { current, raws, text } => {
            let (unknown, unknown_entries) = retained_from_text(text.as_str());
            match Registry::from_loaded(current, raws, unknown, unknown_entries) {
                Ok(registry) => registry,
                Err(message) => Registry::recovered_empty(
                    Error::RegistryCorrupt { path: path.to_owned(), message },
                ),
            }
        },
    }
}

} // verus!
