//! Target side: the watch table and the paths of its entries.
//!
//! The table holds at most `MAX_ENTRIES` entries in registration order;
//! paths are `.`-joined and held in fixed-capacity `heapless` strings of
//! `PATH_CAP` bytes, where a piece that does not fit is left out.

use vstd::prelude::*;
use vstd::string::StringSliceAdditionalSpecFns;
use vstd::utf8::encode_utf8;

use crate::watch_value::{Access, WatchValueKind};

verus! {

broadcast use vstd::string::group_string_axioms;

/// Capacity of the table.
pub const MAX_ENTRIES: usize = 64;

/// Capacity of a path, in bytes.
pub const PATH_CAP: usize = 64;

// ─────────────────────────────────────────────────────────────
// heapless types
// ─────────────────────────────────────────────────────────────

#[verifier::external_type_specification]
#[verifier::external_body]
pub struct ExHeaplessString<const N: usize>(heapless::String<N>);

#[verifier::external_type_specification]
#[verifier::external_body]
#[verifier::reject_recursive_types(T)]
pub struct ExHeaplessVec<T, const N: usize>(heapless::Vec<T, N>);

/// The UTF-8 bytes a `heapless::String<64>` holds.
pub uninterp spec fn path_bytes(s: heapless::String<64>) -> Seq<u8>;

/// The entries a `heapless::Vec<WatchEntry, 64>` holds, in order.
pub uninterp spec fn table_entries(v: heapless::Vec<WatchEntry, 64>) -> Seq<WatchEntry>;

/// `heapless::String::<64>::new`: an empty string.
#[verifier::external_body]
pub(crate) fn path_new() -> (s: heapless::String<64>)
    ensures
        path_bytes(s) == Seq::<u8>::empty(),
{
    heapless::String::new()
}

/// `heapless::String::<64>::push_str`: appends all of `t` when it fits in
/// the 64-byte capacity, and nothing otherwise.
#[verifier::external_body]
pub(crate) fn path_push_str(s: &mut heapless::String<64>, t: &str) -> (ok: bool)
    ensures
        ok == (path_bytes(*old(s)).len() + t.spec_bytes().len() <= 64),
        ok ==> path_bytes(*final(s)) == path_bytes(*old(s)) + t.spec_bytes(),
        !ok ==> path_bytes(*final(s)) == path_bytes(*old(s)),
{
    s.push_str(t).is_ok()
}

/// `heapless::String::<64>::push`: appends the UTF-8 encoding of `c` when
/// it fits in the 64-byte capacity, and nothing otherwise.
#[verifier::external_body]
pub(crate) fn path_push(s: &mut heapless::String<64>, c: char) -> (ok: bool)
    ensures
        ok == (path_bytes(*old(s)).len() + encode_utf8(seq![c]).len() <= 64),
        ok ==> path_bytes(*final(s)) == path_bytes(*old(s)) + encode_utf8(seq![c]),
        !ok ==> path_bytes(*final(s)) == path_bytes(*old(s)),
{
    s.push(c).is_ok()
}

/// `heapless::String::<64>::as_str`: the held text.
#[verifier::external_body]
pub(crate) fn path_as_str(s: &heapless::String<64>) -> (r: &str)
    ensures
        r.spec_bytes() == path_bytes(*s),
{
    s.as_str()
}

/// `heapless::Vec::<WatchEntry, 64>::new`: an empty vector.
#[verifier::external_body]
fn entries_new() -> (v: heapless::Vec<WatchEntry, 64>)
    ensures
        table_entries(v) == Seq::<WatchEntry>::empty(),
{
    heapless::Vec::new()
}

/// `heapless::Vec::<WatchEntry, 64>::push`: appends `e` when fewer than 64
/// entries are held, and nothing otherwise.
#[verifier::external_body]
fn entries_push(v: &mut heapless::Vec<WatchEntry, 64>, e: WatchEntry) -> (ok: bool)
    ensures
        ok == (table_entries(*old(v)).len() < 64),
        ok ==> table_entries(*final(v)) == table_entries(*old(v)).push(e),
        !ok ==> table_entries(*final(v)) == table_entries(*old(v)),
{
    v.push(e).is_ok()
}

/// `heapless::Vec::<WatchEntry, 64>::as_slice`: the held entries, of which
/// there are at most 64.
#[verifier::external_body]
fn entries_slice(v: &heapless::Vec<WatchEntry, 64>) -> (r: &[WatchEntry])
    ensures
        r@ == table_entries(*v),
        r@.len() <= 64,
{
    v.as_slice()
}

// ─────────────────────────────────────────────────────────────
// Entries and the table
// ─────────────────────────────────────────────────────────────

/// Description of one watched variable.
pub struct WatchEntry {
    /// Full path, e.g. `arm.pitch.rpm`.
    pub path: heapless::String<64>,
    /// Parent path, empty at top level.
    pub parent: heapless::String<64>,
    /// Type name, e.g. `f32`.
    pub type_label: &'static str,
    /// Kind of the value.
    pub kind: WatchValueKind,
    /// Permission.
    pub access: Access,
    /// Field selector inside the cell the entry reads (0 when not nested).
    pub field_idx: u16,
}

/// Metadata of one field of a watchable structure.
#[derive(Clone, Copy)]
pub struct WatchFieldMeta {
    /// Selector of the field.
    pub index: u16,
    /// Field name, e.g. `rpm`.
    pub name: &'static str,
    /// Type name, e.g. `f32`.
    pub type_label: &'static str,
    /// Kind of the value.
    pub kind: WatchValueKind,
    /// Permission.
    pub access: Access,
}

/// The watch table: entries in registration order, at most `MAX_ENTRIES`.
pub struct WatchTable {
    entries: heapless::Vec<WatchEntry, 64>,
}

impl View for WatchTable {
    type V = Seq<WatchEntry>;

    closed spec fn view(&self) -> Seq<WatchEntry> {
        table_entries(self.entries)
    }
}

/// The path bytes of a sequence of entries.
pub open spec fn entry_paths(entries: Seq<WatchEntry>) -> Seq<Seq<u8>> {
    entries.map_values(|e: WatchEntry| path_bytes(e.path))
}

/// Position of the first entry whose path is `path`.
pub open spec fn find_index(entries: Seq<WatchEntry>, path: Seq<u8>) -> Option<int> {
    entry_paths(entries).index_of_first(path)
}

/// Whether two byte slices are equal.
pub fn bytes_eq(a: &[u8], b: &[u8]) -> (r: bool)
    ensures
        r == (a@ == b@),
{
    if a.len() != b.len() {
        return false;
    }
    let mut i: usize = 0;
    while i < a.len()
        invariant
            a@.len() == b@.len(),
            i <= a@.len(),
            forall|j: int| 0 <= j < i ==> a@[j] == b@[j],
        decreases a.len() - i,
    {
        if a[i] != b[i] {
            return false;
        }
        i = i + 1;
    }
    assert(a@ =~= b@);
    true
}

impl WatchTable {
    /// An empty table.
    pub fn new() -> (t: Self)
        ensures
            t@ == Seq::<WatchEntry>::empty(),
    {
        WatchTable { entries: entries_new() }
    }

    /// Appends `entry`; returns `false` and leaves the table as it was when
    /// the table is full.
    pub fn register(&mut self, entry: WatchEntry) -> (ok: bool)
        ensures
            ok == (old(self)@.len() < MAX_ENTRIES),
            ok ==> final(self)@ == old(self)@.push(entry),
            !ok ==> final(self)@ == old(self)@,
    {
        entries_push(&mut self.entries, entry)
    }

    /// The entry at `idx`, if any.
    pub fn get(&self, idx: usize) -> (r: Option<&WatchEntry>)
        ensures
            match r {
                Some(e) => idx < self@.len() && *e == self@[idx as int],
                None => idx >= self@.len(),
            },
    {
        let s = entries_slice(&self.entries);
        if idx < s.len() {
            Some(&s[idx])
        } else {
            None
        }
    }

    /// Number of registered entries (at most `MAX_ENTRIES`).
    pub fn len(&self) -> (n: usize)
        ensures
            n == self@.len(),
            n <= MAX_ENTRIES,
    {
        entries_slice(&self.entries).len()
    }

    /// The first entry whose path is `path`.
    pub fn find_by_path(&self, path: &str) -> (r: Option<&WatchEntry>)
        ensures
            match find_index(self@, path.spec_bytes()) {
                Some(i) => r == Some(&self@[i]),
                None => r is None,
            },
    {
        match self.find_index(path) {
            Some(i) => {
                let s = entries_slice(&self.entries);
                Some(&s[i])
            },
            None => None,
        }
    }

    /// Position of the first entry whose path is `path`.
    pub fn find_index(&self, path: &str) -> (r: Option<usize>)
        ensures
            match r {
                Some(j) => find_index(self@, path.spec_bytes()) == Some(j as int) && j < self@.len(),
                None => find_index(self@, path.spec_bytes()) is None,
            },
    {
        let s = entries_slice(&self.entries);
        let key = path.as_bytes();
        let ghost ps = entry_paths(self@);
        let mut i: usize = 0;
        while i < s.len()
            invariant
                s@ == self@,
                ps == entry_paths(self@),
                key@ == path.spec_bytes(),
                i <= s@.len(),
                forall|j: int| 0 <= j < i ==> ps[j] != key@,
            decreases s.len() - i,
        {
            let p = path_as_str(&s[i].path).as_bytes();
            if bytes_eq(p, key) {
                proof {
                    assert(ps[i as int] == key@);
                    crate::text::lemma_first_index(ps, key@, i as int);
                }
                return Some(i);
            }
            i = i + 1;
        }
        proof {
            crate::text::lemma_no_index(ps, key@);
        }
        None
    }
}

// ─────────────────────────────────────────────────────────────
// Writes
// ─────────────────────────────────────────────────────────────

/// Why a write from the host was refused.
#[derive(Clone, Copy, Debug, PartialEq, Eq, Structural)]
pub enum WriteError {
    /// No entry has the path.
    NotFound,
    /// The entry is read-only.
    ReadOnly,
    /// The value text does not parse as the entry's type.
    ParseError,
}

/// The reason text a refusal is reported with.
pub open spec fn reason_text(e: WriteError) -> Seq<char> {
    match e {
        WriteError::NotFound => seq!['n', 'o', 't', ' ', 'f', 'o', 'u', 'n', 'd'],
        WriteError::ReadOnly => seq!['r', 'e', 'a', 'd', 'o', 'n', 'l', 'y'],
        WriteError::ParseError => seq!['p', 'a', 'r', 's', 'e', ' ', 'e', 'r', 'r', 'o', 'r'],
    }
}

impl WriteError {
    /// The reason text: `not found`, `readonly` or `parse error`.
    pub fn reason(&self) -> (s: &'static str)
        ensures
            s@ == reason_text(*self),
    {
        match self {
            WriteError::NotFound => {
                proof {
                    reveal_strlit("not found");
                }
                "not found"
            },
            WriteError::ReadOnly => {
                proof {
                    reveal_strlit("readonly");
                }
                "readonly"
            },
            WriteError::ParseError => {
                proof {
                    reveal_strlit("parse error");
                }
                "parse error"
            },
        }
    }
}

/// The decision on a host write to `path`: the index of the entry to write,
/// or why not.
pub open spec fn write_target(entries: Seq<WatchEntry>, path: Seq<u8>) -> Result<int, WriteError> {
    match find_index(entries, path) {
        None => Err(WriteError::NotFound),
        Some(i) => if entries[i].access == Access::ReadOnly {
            Err(WriteError::ReadOnly)
        } else {
            Ok(i)
        },
    }
}

/// Looks up the entry a write to `path` goes to: `NotFound` when no entry
/// has the path, `ReadOnly` when the first such entry is read-only, and its
/// index otherwise.
pub fn writable_entry(table: &WatchTable, path: &str) -> (r: Result<usize, WriteError>)
    ensures
        match r {
            Ok(j) => write_target(table@, path.spec_bytes()) == Ok::<int, WriteError>(j as int) && j
                < table@.len(),
            Err(e) => write_target(table@, path.spec_bytes()) == Err::<int, WriteError>(e),
        },
{
    match table.find_index(path) {
        None => Err(WriteError::NotFound),
        Some(i) => {
            let e = table.get(i).unwrap();
            match e.access {
                Access::ReadOnly => Err(WriteError::ReadOnly),
                Access::ReadWrite => Ok(i),
            }
        },
    }
}

/// The outcome of a write once the entry's parser has run on the value:
/// success when it parsed, `ParseError` otherwise.
pub fn write_outcome(target: Result<usize, WriteError>, parsed: bool) -> (r: Result<(), WriteError>)
    ensures
        match target {
            Err(e) => r == Err::<(), WriteError>(e),
            Ok(_) => if parsed {
                r == Ok::<(), WriteError>(())
            } else {
                r == Err::<(), WriteError>(WriteError::ParseError)
            },
        },
{
    match target {
        Err(e) => Err(e),
        Ok(_) => if parsed {
            Ok(())
        } else {
            Err(WriteError::ParseError)
        },
    }
}

/// Lookup after registration: an entry registered under a path no earlier
/// entry has is the one found for that path, and a write to it is decided
/// by its own permission; every other path is found where it was before.
pub proof fn law_register_then_find(entries: Seq<WatchEntry>, e: WatchEntry, other: Seq<u8>)
    requires
        find_index(entries, path_bytes(e.path)) is None,
    ensures
        find_index(entries.push(e), path_bytes(e.path)) == Some(entries.len() as int),
        write_target(entries.push(e), path_bytes(e.path)) == (if e.access == Access::ReadOnly {
            Err::<int, WriteError>(WriteError::ReadOnly)
        } else {
            Ok::<int, WriteError>(entries.len() as int)
        }),
        other != path_bytes(e.path) ==> find_index(entries.push(e), other) == find_index(entries, other),
{
    let ps = entry_paths(entries);
    assert(entry_paths(entries.push(e)) =~= ps.push(path_bytes(e.path)));
    ps.index_of_first_ensures(path_bytes(e.path));
    ps.index_of_first_ensures(other);
    let qs = ps.push(path_bytes(e.path));
    crate::text::lemma_first_index(qs, path_bytes(e.path), entries.len() as int);
    if other != path_bytes(e.path) {
        match ps.index_of_first(other) {
            Some(i) => crate::text::lemma_first_index(qs, other, i),
            None => crate::text::lemma_no_index(qs, other),
        }
    }
}

// ─────────────────────────────────────────────────────────────
// Paths
// ─────────────────────────────────────────────────────────────

/// The bytes after appending `add` to `acc` in a buffer of `cap` bytes: all
/// of it when it fits, nothing otherwise.
pub open spec fn append_bounded(acc: Seq<u8>, add: Seq<u8>, cap: int) -> Seq<u8> {
    if acc.len() + add.len() <= cap {
        acc + add
    } else {
        acc
    }
}

/// The bytes of the `.`-joined path of `parts` in a 64-byte string: each
/// separator and each piece is appended when it fits and left out
/// otherwise.
pub open spec fn joined_path(parts: Seq<Seq<u8>>) -> Seq<u8>
    decreases parts.len(),
{
    if parts.len() == 0 {
        Seq::empty()
    } else {
        let acc = joined_path(parts.drop_last());
        let acc2 = if parts.len() > 1 {
            append_bounded(acc, seq![0x2Eu8], 64)
        } else {
            acc
        };
        append_bounded(acc2, parts.last(), 64)
    }
}

/// The bytes of a sequence of text pieces.
pub open spec fn pieces_bytes(parts: Seq<&str>) -> Seq<Seq<u8>> {
    parts.map_values(|p: &str| p.spec_bytes())
}

/// Joins `parts` with `.` into a 64-byte path.
fn build_path(parts: &[&str]) -> (s: heapless::String<64>)
    ensures
        path_bytes(s) == joined_path(pieces_bytes(parts@)),
{
    let mut s = path_new();
    let mut i: usize = 0;
    proof {
        assert((46u32 & 0x7F) as u8 == 46u8) by (bit_vector);
        assert(encode_utf8(seq!['.']) =~= seq![0x2Eu8]) by {
            reveal_with_fuel(encode_utf8, 2);
            assert(seq!['.'].drop_first() =~= Seq::<char>::empty());
        }
    }
    while i < parts.len()
        invariant
            i <= parts@.len(),
            encode_utf8(seq!['.']) == seq![0x2Eu8],
            path_bytes(s) == joined_path(pieces_bytes(parts@).take(i as int)),
        decreases parts.len() - i,
    {
        let ghost pb = pieces_bytes(parts@).take(i + 1);
        proof {
            assert(pb.drop_last() =~= pieces_bytes(parts@).take(i as int));
            assert(pb.last() == parts@[i as int].spec_bytes());
        }
        if i > 0 {
            let _ = path_push(&mut s, '.');
        }
        let _ = path_push_str(&mut s, parts[i]);
        i = i + 1;
    }
    proof {
        assert(pieces_bytes(parts@).take(i as int) =~= pieces_bytes(parts@));
    }
    s
}

/// Path and parent path of an entry whose path pieces are `path_parts`; the
/// parent is empty for a top-level entry.
pub fn entry_fields(path_parts: &[&str]) -> (r: (heapless::String<64>, heapless::String<64>))
    ensures
        path_bytes(r.0) == joined_path(pieces_bytes(path_parts@)),
        path_bytes(r.1) == (if path_parts@.len() <= 1 {
            Seq::<u8>::empty()
        } else {
            joined_path(pieces_bytes(path_parts@).drop_last())
        }),
{
    let path = build_path(path_parts);
    let parent = if path_parts.len() <= 1 {
        path_new()
    } else {
        let mut prefix: Vec<&str> = Vec::new();
        let mut i: usize = 0;
        while i + 1 < path_parts.len()
            invariant
                path_parts@.len() >= 2,
                i + 1 <= path_parts@.len(),
                prefix@ == path_parts@.take(i as int),
            decreases path_parts.len() - i,
        {
            prefix.push(path_parts[i]);
            proof {
                assert(prefix@ =~= path_parts@.take(i + 1));
            }
            i = i + 1;
        }
        proof {
            assert(pieces_bytes(prefix@) =~= pieces_bytes(path_parts@).drop_last());
        }
        build_path(prefix.as_slice())
    };
    (path, parent)
}

/// The `.`-joined path of `parts` as a 64-byte string.
pub fn path_from_parts(parts: &[&str]) -> (s: heapless::String<64>)
    ensures
        path_bytes(s) == joined_path(pieces_bytes(parts@)),
{
    build_path(parts)
}

/// `s` as a 64-byte string; empty when `s` is longer than 64 bytes.
pub fn str_to_string64(s: &str) -> (out: heapless::String<64>)
    ensures
        path_bytes(out) == append_bounded(Seq::empty(), s.spec_bytes(), 64),
{
    let mut out = path_new();
    let _ = path_push_str(&mut out, s);
    proof {
        assert(Seq::<u8>::empty() + s.spec_bytes() =~= s.spec_bytes());
    }
    out
}

/// The entry registered for the primitive field `name` of a structure
/// registered at `parent`: path `parent.name`, parent `parent`, read-only
/// when the field is marked so.
pub fn field_entry(
    parent: &str,
    name: &str,
    type_label: &'static str,
    kind: WatchValueKind,
    readonly: bool,
    index: u16,
) -> (e: WatchEntry)
    ensures
        path_bytes(e.path) == joined_path(seq![parent.spec_bytes(), name.spec_bytes()]),
        path_bytes(e.parent) == append_bounded(Seq::empty(), parent.spec_bytes(), 64),
        e.type_label == type_label,
        e.kind == kind,
        e.access == (if readonly {
            Access::ReadOnly
        } else {
            Access::ReadWrite
        }),
        e.field_idx == index,
{
    let parts = [parent, name];
    let path = path_from_parts(&parts);
    proof {
        assert(pieces_bytes(parts@) =~= seq![parent.spec_bytes(), name.spec_bytes()]);
    }
    WatchEntry {
        path,
        parent: str_to_string64(parent),
        type_label,
        kind,
        access: if readonly {
            Access::ReadOnly
        } else {
            Access::ReadWrite
        },
        field_idx: index,
    }
}

/// The entry registered for field `meta` of a nested structure held in the
/// field `field` of a structure registered at `parent`: path
/// `parent.field.name`, parent `parent.field`, read-only when the outer
/// field is marked read-only and with the field's own permission otherwise.
pub fn nested_entry(parent: &str, field: &str, meta: &WatchFieldMeta, outer_readonly: bool) -> (e: WatchEntry)
    ensures
        path_bytes(e.path) == joined_path(seq![parent.spec_bytes(), field.spec_bytes(), meta.name.spec_bytes()]),
        path_bytes(e.parent) == joined_path(seq![parent.spec_bytes(), field.spec_bytes()]),
        e.type_label == meta.type_label,
        e.kind == meta.kind,
        e.access == (if outer_readonly {
            Access::ReadOnly
        } else {
            meta.access
        }),
        e.field_idx == meta.index,
{
    let outer = [parent, field];
    let inner = [parent, field, meta.name];
    let sub_parent = path_from_parts(&outer);
    let sub_path = path_from_parts(&inner);
    proof {
        assert(pieces_bytes(outer@) =~= seq![parent.spec_bytes(), field.spec_bytes()]);
        assert(pieces_bytes(inner@) =~= seq![parent.spec_bytes(), field.spec_bytes(), meta.name.spec_bytes()]);
    }
    WatchEntry {
        path: sub_path,
        parent: sub_parent,
        type_label: meta.type_label,
        kind: meta.kind,
        access: if outer_readonly {
            Access::ReadOnly
        } else {
            meta.access
        },
        field_idx: meta.index,
    }
}

/// The plain values of an entry: path bytes, parent bytes, type name, kind,
/// permission and field selector.
pub open spec fn entry_view(e: WatchEntry) -> (Seq<u8>, Seq<u8>, &'static str, WatchValueKind, Access, u16) {
    (path_bytes(e.path), path_bytes(e.parent), e.type_label, e.kind, e.access, e.field_idx)
}

/// The plain values of a sequence of entries.
pub open spec fn entries_view(v: Seq<WatchEntry>) -> Seq<(Seq<u8>, Seq<u8>, &'static str, WatchValueKind, Access, u16)> {
    v.map_values(|e: WatchEntry| entry_view(e))
}

/// The entry registered directly (not through a structure's walk) under the
/// path pieces `parts` with parent `parent`; its field selector is 0.
pub fn scalar_entry(
    parts: &[&str],
    parent: &str,
    type_label: &'static str,
    kind: WatchValueKind,
    access: Access,
) -> (e: WatchEntry)
    ensures
        entry_view(e) == (
            joined_path(pieces_bytes(parts@)),
            append_bounded(Seq::empty(), parent.spec_bytes(), 64),
            type_label,
            kind,
            access,
            0u16,
        ),
{
    WatchEntry {
        path: path_from_parts(parts),
        parent: str_to_string64(parent),
        type_label,
        kind,
        access,
        field_idx: 0,
    }
}

/// One field of a structure as its walk sees it: the field's metadata (as
/// its `field_meta` lists it), whether its type is primitive, whether it is
/// marked `#[watch(readonly)]`, and, for a nested structure, the metadata of
/// that structure's own fields.
pub struct WalkField {
    pub meta: WatchFieldMeta,
    pub primitive: bool,
    pub marked_readonly: bool,
    pub inner: Vec<WatchFieldMeta>,
}

/// The entries registered for one field of a structure registered at
/// `parent`: one entry for a primitive field (read-only as its metadata
/// says), and one per field of a nested structure, flattened under it.
pub open spec fn field_entries(
    parent: Seq<u8>,
    f: WalkField,
) -> Seq<(Seq<u8>, Seq<u8>, &'static str, WatchValueKind, Access, u16)> {
    let name = f.meta.name.spec_bytes();
    if f.primitive {
        seq![(
            joined_path(seq![parent, name]),
            append_bounded(Seq::empty(), parent, 64),
            f.meta.type_label,
            f.meta.kind,
            if f.meta.access == Access::ReadOnly { Access::ReadOnly } else { Access::ReadWrite },
            f.meta.index,
        )]
    } else {
        f.inner@.map_values(
            |m: WatchFieldMeta|
                (
                    joined_path(seq![parent, name, m.name.spec_bytes()]),
                    joined_path(seq![parent, name]),
                    m.type_label,
                    m.kind,
                    if f.marked_readonly { Access::ReadOnly } else { m.access },
                    m.index,
                ),
        )
    }
}

/// The entries a structure's walk registers, field after field.
pub open spec fn walk_spec(
    parent: Seq<u8>,
    fields: Seq<WalkField>,
) -> Seq<(Seq<u8>, Seq<u8>, &'static str, WatchValueKind, Access, u16)>
    decreases fields.len(),
{
    if fields.len() == 0 {
        Seq::empty()
    } else {
        walk_spec(parent, fields.drop_last()) + field_entries(parent, fields.last())
    }
}

/// What one field contributes to a walk. A primitive field gives one entry:
/// path `parent.name`, parent `parent`, its own type name, kind, permission
/// and selector. A nested structure gives one entry per field of its own,
/// in order: path `parent.name.field`, parent `parent.name`, that field's
/// type name, kind and selector, and that field's own permission unless the
/// outer field is marked read-only, which makes it read-only.
pub proof fn law_field_entries(parent: Seq<u8>, f: WalkField)
    ensures
        f.primitive ==> field_entries(parent, f).len() == 1 && field_entries(parent, f)[0] == (
            joined_path(seq![parent, f.meta.name.spec_bytes()]),
            append_bounded(Seq::empty(), parent, 64),
            f.meta.type_label,
            f.meta.kind,
            f.meta.access,
            f.meta.index,
        ),
        !f.primitive ==> field_entries(parent, f).len() == f.inner@.len(),
        !f.primitive ==> forall|k: int|
            0 <= k < f.inner@.len() ==> #[trigger] field_entries(parent, f)[k] == (
                joined_path(seq![parent, f.meta.name.spec_bytes(), f.inner@[k].name.spec_bytes()]),
                joined_path(seq![parent, f.meta.name.spec_bytes()]),
                f.inner@[k].type_label,
                f.inner@[k].kind,
                if f.marked_readonly {
                    Access::ReadOnly
                } else {
                    f.inner@[k].access
                },
                f.inner@[k].index,
            ),
{
}

/// A walk is the walks of its fields, one after the other: the fields of
/// `a` then those of `b` register `a`'s entries then `b`'s.
pub proof fn law_walk_concat(parent: Seq<u8>, a: Seq<WalkField>, b: Seq<WalkField>)
    ensures
        walk_spec(parent, a + b) == walk_spec(parent, a) + walk_spec(parent, b),
    decreases b.len(),
{
    if b.len() == 0 {
        assert(a + b =~= a);
        assert(walk_spec(parent, a) + Seq::empty() =~= walk_spec(parent, a));
    } else {
        law_walk_concat(parent, a, b.drop_last());
        assert((a + b).drop_last() =~= a + b.drop_last());
        assert((a + b).last() == b.last());
    }
}

/// One field's walk is what that field contributes.
pub proof fn law_walk_single(parent: Seq<u8>, f: WalkField)
    ensures
        walk_spec(parent, seq![f]) == field_entries(parent, f),
{
    assert(seq![f].drop_last() =~= Seq::<WalkField>::empty());
    assert(seq![f].last() == f);
    assert(walk_spec(parent, Seq::<WalkField>::empty()) == Seq::<
        (Seq<u8>, Seq<u8>, &'static str, WatchValueKind, Access, u16),
    >::empty());
    assert(Seq::empty() + field_entries(parent, f) =~= field_entries(parent, f));
}

/// The walk of a structure registered at `parent`: the entries of its fields
/// in order, nested structures flattened (see `field_entries`).
pub fn walk_entries(parent: &str, fields: &Vec<WalkField>) -> (entries: Vec<WatchEntry>)
    ensures
        entries_view(entries@) == walk_spec(parent.spec_bytes(), fields@),
{
    let ghost pb = parent.spec_bytes();
    let mut entries: Vec<WatchEntry> = Vec::new();
    let mut i: usize = 0;
    assert(fields@.take(0) =~= Seq::<WalkField>::empty());
    assert(entries_view(entries@) =~= Seq::empty());
    while i < fields.len()
        invariant
            i <= fields@.len(),
            pb == parent.spec_bytes(),
            entries_view(entries@) == walk_spec(pb, fields@.take(i as int)),
        decreases fields.len() - i,
    {
        let f = &fields[i];
        proof {
            assert(fields@.take(i + 1).drop_last() =~= fields@.take(i as int));
            assert(fields@.take(i + 1).last() == *f);
        }
        let ghost before = entries_view(entries@);
        let ghost want = field_entries(pb, *f);
        if f.primitive {
            let ro = matches!(f.meta.access, Access::ReadOnly);
            let e = field_entry(parent, f.meta.name, f.meta.type_label, f.meta.kind, ro, f.meta.index);
            let ghost old_entries = entries@;
            entries.push(e);
            proof {
                assert(entries_view(entries@) =~= entries_view(old_entries).push(entry_view(e)));
                assert(entry_view(e) == want[0]);
                assert(before + want =~= before.push(want[0]));
            }
        } else {
            let mut j: usize = 0;
            assert(want.take(0) =~= Seq::empty());
            assert(before + want.take(0) =~= before);
            while j < f.inner.len()
                invariant
                    j <= f.inner@.len(),
                    !f.primitive,
                    want == field_entries(pb, *f),
                    want.len() == f.inner@.len(),
                    pb == parent.spec_bytes(),
                    entries_view(entries@) == before + want.take(j as int),
                decreases f.inner.len() - j,
            {
                let e = nested_entry(parent, f.meta.name, &f.inner[j], f.marked_readonly);
                let ghost old_entries = entries@;
                entries.push(e);
                proof {
                    assert(entries_view(entries@) =~= entries_view(old_entries).push(entry_view(e)));
                    assert(entry_view(e) == want[j as int]);
                    assert(want.take(j + 1) =~= want.take(j as int).push(want[j as int]));
                    assert(before + want.take(j + 1) =~= (before + want.take(j as int)).push(want[j as int]));
                }
                j = j + 1;
            }
            assert(want.take(j as int) =~= want);
        }
        i = i + 1;
    }
    assert(fields@.take(i as int) =~= fields@);
    entries
}

/// A path is `parts` joined with `.` whenever it fits in 64 bytes.
pub proof fn law_joined_path_fits(parts: Seq<Seq<u8>>)
    requires
        parts.len() >= 1,
        joined_len(parts) <= 64,
    ensures
        joined_path(parts) == dot_join(parts),
    decreases parts.len(),
{
    if parts.len() > 1 {
        let pre = parts.drop_last();
        lemma_joined_len_prefix(parts);
        law_joined_path_fits(pre);
        let with_dot = append_bounded(joined_path(pre), seq![0x2Eu8], 64);
        assert(with_dot == dot_join(pre) + seq![0x2Eu8]);
        assert(joined_path(parts) == append_bounded(with_dot, parts.last(), 64));
        assert(joined_path(parts) == with_dot + parts.last());
        assert(dot_join(parts) == dot_join(pre) + seq![0x2Eu8] + parts.last());
    } else {
        assert(parts.drop_last() =~= Seq::<Seq<u8>>::empty());
        assert(joined_path(parts.drop_last()) == Seq::<u8>::empty());
        assert(Seq::<u8>::empty() + parts[0] =~= parts[0]);
    }
}

/// Length of the `.`-join of `parts`.
pub open spec fn joined_len(parts: Seq<Seq<u8>>) -> int
    decreases parts.len(),
{
    if parts.len() == 0 {
        0
    } else if parts.len() == 1 {
        parts[0].len() as int
    } else {
        joined_len(parts.drop_last()) + 1 + parts.last().len()
    }
}

/// The `.`-join of `parts` with no capacity limit.
pub open spec fn dot_join(parts: Seq<Seq<u8>>) -> Seq<u8>
    decreases parts.len(),
{
    if parts.len() == 0 {
        Seq::empty()
    } else if parts.len() == 1 {
        parts[0]
    } else {
        dot_join(parts.drop_last()) + seq![0x2Eu8] + parts.last()
    }
}

/// The join of a prefix is no longer than the join of the whole.
proof fn lemma_joined_len_prefix(parts: Seq<Seq<u8>>)
    requires
        parts.len() > 1,
    ensures
        joined_len(parts.drop_last()) + 1 + parts.last().len() == joined_len(parts),
        dot_join(parts.drop_last()).len() == joined_len(parts.drop_last()),
    decreases parts.len(),
{
    lemma_dot_join_len(parts.drop_last());
}

/// Length of `dot_join`.
proof fn lemma_dot_join_len(parts: Seq<Seq<u8>>)
    ensures
        dot_join(parts).len() == joined_len(parts),
    decreases parts.len(),
{
    if parts.len() > 1 {
        lemma_dot_join_len(parts.drop_last());
    }
}

} // verus!
