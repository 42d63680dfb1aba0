//! Host side: the telemetry line protocol and the variable tree.
//!
//! The target sends flat lines such as `arm.pitch.rpm=1000.5,RW`. Each line
//! is split at `.` into a path whose leaf holds the value and whose inner
//! nodes group the fields of a structure. Downlink writes are encoded as
//! `set <path> <value>\n`.

use vstd::prelude::*;

use crate::text::{
    chars_of, contains_text, find_first, find_last, has_prefix, text_contains, lemma_first_index, lemma_last_index, lemma_no_index, split_on, split_str, trim, trim_bounds,
    views_of,
};

verus! {

broadcast use vstd::string::group_string_axioms;

// ─────────────────────────────────────────────────────────────
// Data
// ─────────────────────────────────────────────────────────────

/// Read/write permission of a watched variable.
#[derive(Clone, Copy, Debug, PartialEq, Eq, Structural)]
pub enum Access {
    ReadOnly,
    ReadWrite,
}

impl Access {
    /// The two-letter label of the permission: `RO` or `RW`.
    pub fn label(&self) -> (s: String)
        ensures
            s@ == (match self {
                Access::ReadOnly => seq!['R', 'O'],
                Access::ReadWrite => seq!['R', 'W'],
            }),
    {
        match self {
            Access::ReadOnly => {
                proof {
                    reveal_strlit("RO");
                }
                String::from_str("RO")
            },
            Access::ReadWrite => {
                proof {
                    reveal_strlit("RW");
                }
                String::from_str("RW")
            },
        }
    }
}

/// One node of the variable tree.
#[derive(Debug)]
pub struct VarInfo {
    /// Name without the parent's prefix, e.g. `rpm`.
    pub name: String,
    /// Full path, e.g. `arm.pitch.rpm`.
    pub path: String,
    /// Current value as text.
    pub value: String,
    /// Type name reported by the target (left empty by the line protocol).
    pub type_label: String,
    /// Permission.
    pub access: Access,
    /// Whether the node groups children.
    pub is_struct: bool,
    /// Children, in order of first appearance.
    pub children: Vec<VarInfo>,
}

/// Index entry for one written path.
pub struct LeafRef {
    pub path: String,
    pub access: Access,
}

/// The whole watch state: the tree of roots and the written paths.
pub struct WatchState {
    /// Top-level nodes, in order of first appearance.
    pub roots: Vec<VarInfo>,
    /// Every path ever written, in order of first appearance, with its
    /// latest permission; no path occurs twice.
    pub leaves: Vec<LeafRef>,
}

// ─────────────────────────────────────────────────────────────
// Model
// ─────────────────────────────────────────────────────────────

/// Mathematical value of a `VarInfo`.
pub struct VarNode {
    pub name: Seq<char>,
    pub path: Seq<char>,
    pub value: Seq<char>,
    pub type_label: Seq<char>,
    pub access: Access,
    pub is_struct: bool,
    pub children: Seq<VarNode>,
}

impl VarInfo {
    /// The node this value denotes.
    pub open spec fn node(&self) -> VarNode
        decreases self,
    {
        VarNode {
            name: self.name@,
            path: self.path@,
            value: self.value@,
            type_label: self.type_label@,
            access: self.access,
            is_struct: self.is_struct,
            children: nodes_of(self.children@),
        }
    }
}

/// The nodes a sequence of `VarInfo` denotes.
pub open spec fn nodes_of(s: Seq<VarInfo>) -> Seq<VarNode>
    decreases s,
{
    if s.len() == 0 {
        Seq::empty()
    } else {
        nodes_of(s.drop_last()).push(s.last().node())
    }
}

/// Mathematical value of a `WatchState`.
pub struct WatchStateView {
    pub roots: Seq<VarNode>,
    /// Written paths with their latest permission.
    pub leaves: Seq<(Seq<char>, Access)>,
}

impl View for WatchState {
    type V = WatchStateView;

    open spec fn view(&self) -> WatchStateView {
        WatchStateView {
            roots: nodes_of(self.roots@),
            leaves: self.leaves@.map_values(|l: LeafRef| (l.path@, l.access)),
        }
    }
}

/// Names of a sequence of nodes.
pub open spec fn names(nodes: Seq<VarNode>) -> Seq<Seq<char>> {
    nodes.map_values(|n: VarNode| n.name)
}

/// A node as first created, with no value and no children.
pub open spec fn fresh_node(name: Seq<char>, path: Seq<char>, access: Access, is_struct: bool) -> VarNode {
    VarNode {
        name,
        path,
        value: Seq::empty(),
        type_label: Seq::empty(),
        access,
        is_struct,
        children: Seq::empty(),
    }
}

/// Path of a new node named `name` under a parent with path `parent`
/// (a root when `parent` is `None`).
pub open spec fn child_path(parent: Option<Seq<char>>, name: Seq<char>) -> Seq<char> {
    match parent {
        None => name,
        Some(p) => p + seq!['.'] + name,
    }
}

/// Node `n` after a write whose remaining path below `n` is `rest`:
/// a leaf takes the value and permission, an inner node passes the write on.
pub open spec fn settle(n: VarNode, rest: Seq<Seq<char>>, value: Seq<char>, access: Access) -> VarNode
    decreases rest.len(), 1int,
{
    if rest.len() == 0 {
        VarNode { value, is_struct: false, access, ..n }
    } else {
        VarNode {
            is_struct: true,
            children: upsert_nodes(n.children, Some(n.path), rest, value, access),
            ..n
        }
    }
}

/// `nodes` after a write to the relative path `parts`: the first node named
/// `parts[0]` (appended when there is none) settles the rest of the path.
pub open spec fn upsert_nodes(
    nodes: Seq<VarNode>,
    parent: Option<Seq<char>>,
    parts: Seq<Seq<char>>,
    value: Seq<char>,
    access: Access,
) -> Seq<VarNode>
    decreases parts.len(), 0int,
{
    if parts.len() == 0 {
        nodes
    } else {
        let name = parts[0];
        match names(nodes).index_of_first(name) {
            Some(i) => nodes.update(i, settle(nodes[i], parts.drop_first(), value, access)),
            None => nodes.push(
                settle(
                    fresh_node(name, child_path(parent, name), access, parts.len() > 1),
                    parts.drop_first(),
                    value,
                    access,
                ),
            ),
        }
    }
}

/// Paths of the index entries.
pub open spec fn leaf_paths(leaves: Seq<(Seq<char>, Access)>) -> Seq<Seq<char>> {
    leaves.map_values(|l: (Seq<char>, Access)| l.0)
}

/// The index after recording a write of `path` with `access`.
pub open spec fn index_update(leaves: Seq<(Seq<char>, Access)>, path: Seq<char>, access: Access) -> Seq<
    (Seq<char>, Access),
> {
    match leaf_paths(leaves).index_of_first(path) {
        Some(i) => leaves.update(i, (path, access)),
        None => leaves.push((path, access)),
    }
}

/// The permission the index records for `path`.
pub open spec fn access_of(leaves: Seq<(Seq<char>, Access)>, path: Seq<char>) -> Option<Access> {
    match leaf_paths(leaves).index_of_first(path) {
        Some(i) => Some(leaves[i].1),
        None => None,
    }
}

/// The `OK ` prefix of a write acknowledgement.
pub open spec fn ok_prefix() -> Seq<char> {
    seq!['O', 'K', ' ']
}

/// The `ERR ` prefix of a write rejection.
pub open spec fn err_prefix() -> Seq<char> {
    seq!['E', 'R', 'R', ' ']
}

/// Splits `s` at the first `=` into path and value.
pub open spec fn split_assignment(s: Seq<char>) -> Option<(Seq<char>, Seq<char>)> {
    match s.index_of_first('=') {
        Some(e) => Some((s.take(e), s.skip(e + 1))),
        None => None,
    }
}

/// What a telemetry line asks for: `Some((path, value, access))` for an
/// update, `None` for a line that changes nothing.
///
/// After trimming, empty lines and feedback lines (`OK ...`, `ERR ...`) are
/// ignored. `path=value,FLAG` takes the permission from the flag after the
/// last comma (`RW` is read/write, anything else read-only); a line without
/// a comma is `path=value` and read/write. The path ends at the first `=`.
pub open spec fn parse_line(line: Seq<char>) -> Option<(Seq<char>, Seq<char>, Access)> {
    let t = trim(line);
    if t.len() == 0 || has_prefix(t, ok_prefix()) || has_prefix(t, err_prefix()) {
        None
    } else {
        match t.index_of_last(',') {
            Some(k) => {
                let access = if t.skip(k + 1) == seq!['R', 'W'] {
                    Access::ReadWrite
                } else {
                    Access::ReadOnly
                };
                match split_assignment(t.take(k)) {
                    Some((p, v)) => Some((p, v, access)),
                    None => None,
                }
            },
            None => match split_assignment(t) {
                Some((p, v)) => Some((p, v, Access::ReadWrite)),
                None => None,
            },
        }
    }
}

/// The downlink frame that writes `value` to `path`.
pub open spec fn write_cmd(path: Seq<char>, value: Seq<char>) -> Seq<char> {
    seq!['s', 'e', 't', ' '] + path + seq![' '] + value + seq!['\n']
}

impl WatchStateView {
    /// The state after a write of `value` to `path` with `access`.
    pub open spec fn upsert(self, path: Seq<char>, value: Seq<char>, access: Access) -> WatchStateView {
        WatchStateView {
            roots: upsert_nodes(self.roots, None, split_on(path, '.'), value, access),
            leaves: index_update(self.leaves, path, access),
        }
    }

    /// The state after one telemetry line.
    pub open spec fn handle_line(self, line: Seq<char>) -> WatchStateView {
        match parse_line(line) {
            Some((p, v, a)) => self.upsert(p, v, a),
            None => self,
        }
    }

    /// The state after a sequence of telemetry lines, applied in order.
    pub open spec fn handle_lines(self, lines: Seq<Seq<char>>) -> WatchStateView
        decreases lines.len(),
    {
        if lines.len() == 0 {
            self
        } else {
            self.handle_lines(lines.drop_last()).handle_line(lines.last())
        }
    }

    /// No path occurs twice in the index.
    pub open spec fn wf(self) -> bool {
        leaf_paths(self.leaves).no_duplicates()
    }
}

// ─────────────────────────────────────────────────────────────
// Lemmas on the views
// ─────────────────────────────────────────────────────────────

/// Length and elements of `nodes_of`.
pub proof fn lemma_nodes_of(s: Seq<VarInfo>)
    ensures
        nodes_of(s).len() == s.len(),
        forall|i: int| 0 <= i < s.len() ==> #[trigger] nodes_of(s)[i] == s[i].node(),
    decreases s.len(),
{
    if s.len() > 0 {
        lemma_nodes_of(s.drop_last());
    }
}

/// `nodes_of` commutes with `push`.
pub proof fn lemma_nodes_of_push(s: Seq<VarInfo>, x: VarInfo)
    ensures
        nodes_of(s.push(x)) == nodes_of(s).push(x.node()),
{
    assert(s.push(x).drop_last() =~= s);
}

/// `nodes_of` commutes with `update`.
pub proof fn lemma_nodes_of_update(s: Seq<VarInfo>, i: int, x: VarInfo)
    requires
        0 <= i < s.len(),
    ensures
        nodes_of(s.update(i, x)) == nodes_of(s).update(i, x.node()),
{
    lemma_nodes_of(s);
    lemma_nodes_of(s.update(i, x));
    assert(nodes_of(s.update(i, x)) =~= nodes_of(s).update(i, x.node()));
}

/// Names of a sequence of `VarInfo`.
pub open spec fn var_names(s: Seq<VarInfo>) -> Seq<Seq<char>> {
    s.map_values(|v: VarInfo| v.name@)
}

/// Names of `nodes_of(s)` are the names of `s`.
pub proof fn lemma_names_of(s: Seq<VarInfo>)
    ensures
        names(nodes_of(s)) == var_names(s),
{
    lemma_nodes_of(s);
    assert(names(nodes_of(s)) =~= var_names(s));
}


// ─────────────────────────────────────────────────────────────
// Laws of the tree and the index
// ─────────────────────────────────────────────────────────────

/// The node reached from `nodes` by following `parts`, taking at each level
/// the first node with the wanted name.
pub open spec fn lookup(nodes: Seq<VarNode>, parts: Seq<Seq<char>>) -> Option<VarNode>
    decreases parts.len(),
{
    if parts.len() == 0 {
        None
    } else {
        match names(nodes).index_of_first(parts[0]) {
            None => None,
            Some(i) => if parts.len() == 1 {
                Some(nodes[i])
            } else {
                lookup(nodes[i].children, parts.drop_first())
            },
        }
    }
}

impl WatchStateView {
    /// The node at `path` (split at `.`), if any.
    pub open spec fn get(self, path: Seq<char>) -> Option<VarNode> {
        lookup(self.roots, split_on(path, '.'))
    }

    /// The permission recorded for `path`, if it was ever written.
    pub open spec fn access(self, path: Seq<char>) -> Option<Access> {
        access_of(self.leaves, path)
    }
}

/// Where the first node named `x` sits after pushing `y` onto `s`.
proof fn lemma_index_of_first_push<A>(s: Seq<A>, y: A, x: A)
    ensures
        s.push(y).index_of_first(x) == (match s.index_of_first(x) {
            Some(i) => Some(i),
            None => if y == x {
                Some(s.len() as int)
            } else {
                None::<int>
            },
        }),
{
    s.index_of_first_ensures(x);
    let t = s.push(y);
    match s.index_of_first(x) {
        Some(i) => {
            lemma_first_index(t, x, i);
        },
        None => {
            if y == x {
                lemma_first_index(t, x, s.len() as int);
            } else {
                lemma_no_index(t, x);
            }
        },
    }
}

/// Replacing an element by one equal to it under `f` keeps first positions.
proof fn lemma_names_update(nodes: Seq<VarNode>, i: int, n: VarNode)
    requires
        0 <= i < nodes.len(),
        n.name == nodes[i].name,
    ensures
        names(nodes.update(i, n)) == names(nodes),
{
    assert(names(nodes.update(i, n)) =~= names(nodes));
}

/// Names after a push.
proof fn lemma_names_push(nodes: Seq<VarNode>, n: VarNode)
    ensures
        names(nodes.push(n)) == names(nodes).push(n.name),
{
    assert(names(nodes.push(n)) =~= names(nodes).push(n.name));
}

/// The shape of `upsert_nodes`: which node is touched, and that the other
/// nodes and all names stay as they were (a new name is appended).
pub proof fn lemma_upsert_shape(
    nodes: Seq<VarNode>,
    parent: Option<Seq<char>>,
    parts: Seq<Seq<char>>,
    value: Seq<char>,
    access: Access,
)
    requires
        parts.len() >= 1,
    ensures
        ({
            let r = upsert_nodes(nodes, parent, parts, value, access);
            let p0 = parts[0];
            match names(nodes).index_of_first(p0) {
                Some(i) => {
                    &&& 0 <= i < nodes.len()
                    &&& nodes[i].name == p0
                    &&& r == nodes.update(i, settle(nodes[i], parts.drop_first(), value, access))
                    &&& names(r) == names(nodes)
                    &&& names(r).index_of_first(p0) == Some(i)
                },
                None => {
                    &&& r == nodes.push(
                        settle(
                            fresh_node(p0, child_path(parent, p0), access, parts.len() > 1),
                            parts.drop_first(),
                            value,
                            access,
                        ),
                    )
                    &&& names(r) == names(nodes).push(p0)
                    &&& names(r).index_of_first(p0) == Some(nodes.len() as int)
                },
            }
        }),
{
    let p0 = parts[0];
    names(nodes).index_of_first_ensures(p0);
    let r = upsert_nodes(nodes, parent, parts, value, access);
    match names(nodes).index_of_first(p0) {
        Some(i) => {
            lemma_names_update(nodes, i, settle(nodes[i], parts.drop_first(), value, access));
        },
        None => {
            let x = settle(
                fresh_node(p0, child_path(parent, p0), access, parts.len() > 1),
                parts.drop_first(),
                value,
                access,
            );
            lemma_names_push(nodes, x);
            lemma_index_of_first_push(names(nodes), p0, p0);
        },
    }
}

/// A write leaves a leaf at its path holding the written value and
/// permission.
pub proof fn lemma_lookup_after_upsert(
    nodes: Seq<VarNode>,
    parent: Option<Seq<char>>,
    parts: Seq<Seq<char>>,
    value: Seq<char>,
    access: Access,
)
    requires
        parts.len() >= 1,
    ensures
        lookup(upsert_nodes(nodes, parent, parts, value, access), parts) matches Some(n) && n.value
            == value && n.access == access && !n.is_struct,
    decreases parts.len(),
{
    lemma_upsert_shape(nodes, parent, parts, value, access);
    let r = upsert_nodes(nodes, parent, parts, value, access);
    let p0 = parts[0];
    let rest = parts.drop_first();
    let (j, base) = match names(nodes).index_of_first(p0) {
        Some(i) => (i, nodes[i]),
        None => (nodes.len() as int, fresh_node(p0, child_path(parent, p0), access, parts.len() > 1)),
    };
    assert(r[j] == settle(base, rest, value, access));
    if parts.len() > 1 {
        lemma_lookup_after_upsert(base.children, Some(base.path), rest, value, access);
    }
}

/// A write makes every proper prefix of its path a group: the node there
/// has the prefix's last name and children.
proof fn lemma_groups_after_upsert(
    nodes: Seq<VarNode>,
    parent: Option<Seq<char>>,
    parts: Seq<Seq<char>>,
    value: Seq<char>,
    access: Access,
    k: int,
)
    requires
        1 <= k < parts.len(),
    ensures
        lookup(upsert_nodes(nodes, parent, parts, value, access), parts.take(k)) matches Some(n) && n.is_struct
            && n.name == parts[k - 1],
    decreases parts.len(),
{
    lemma_upsert_shape(nodes, parent, parts, value, access);
    let r = upsert_nodes(nodes, parent, parts, value, access);
    let p0 = parts[0];
    let rest = parts.drop_first();
    let (j, base) = match names(nodes).index_of_first(p0) {
        Some(i) => (i, nodes[i]),
        None => (nodes.len() as int, fresh_node(p0, child_path(parent, p0), access, parts.len() > 1)),
    };
    assert(r[j] == settle(base, rest, value, access));
    assert(names(r).index_of_first(p0) == Some(j));
    let q = parts.take(k);
    assert(q[0] == p0);
    if k == 1 {
        assert(names(r)[j] == r[j].name);
    } else {
        assert(q.drop_first() =~= rest.take(k - 1));
        lemma_groups_after_upsert(base.children, Some(base.path), rest, value, access, k - 1);
    }
}

/// Nothing is found in an empty forest.
proof fn lemma_lookup_empty(parts: Seq<Seq<char>>)
    ensures
        lookup(Seq::<VarNode>::empty(), parts) == None::<VarNode>,
{
    if parts.len() > 0 {
        lemma_no_index(names(Seq::<VarNode>::empty()), parts[0]);
    }
}

/// A write to `p` leaves every path `q` that is not a prefix of `p` as it
/// was: the same node, or still nothing.
pub proof fn lemma_lookup_frame(
    nodes: Seq<VarNode>,
    parent: Option<Seq<char>>,
    p: Seq<Seq<char>>,
    q: Seq<Seq<char>>,
    value: Seq<char>,
    access: Access,
)
    requires
        p.len() >= 1,
        !q.is_prefix_of(p),
    ensures
        lookup(upsert_nodes(nodes, parent, p, value, access), q) == lookup(nodes, q),
    decreases p.len(),
{
    if q.len() == 0 {
        return ;
    }
    lemma_upsert_shape(nodes, parent, p, value, access);
    let r = upsert_nodes(nodes, parent, p, value, access);
    let p0 = p[0];
    let q0 = q[0];
    names(nodes).index_of_first_ensures(q0);
    names(r).index_of_first_ensures(q0);
    if q0 != p0 {
        match names(nodes).index_of_first(p0) {
            Some(i) => {
                assert(names(r) == names(nodes));
                match names(nodes).index_of_first(q0) {
                    Some(k) => {
                        assert(k != i);
                        assert(r[k] == nodes[k]);
                    },
                    None => {},
                }
            },
            None => {
                lemma_index_of_first_push(names(nodes), p0, q0);
                match names(nodes).index_of_first(q0) {
                    Some(k) => {
                        assert(r[k] == nodes[k]);
                    },
                    None => {},
                }
            },
        }
    } else {
        if q.len() == 1 {
            assert(q =~= p.subrange(0, 1));
            assert(false);
        }
        let rest_p = p.drop_first();
        let rest_q = q.drop_first();
        if rest_q.is_prefix_of(rest_p) {
            assert forall|i: int| 0 <= i < q.len() implies q[i] == p.subrange(0, q.len() as int)[i] by {
                if i > 0 {
                    assert(q[i] == rest_q[i - 1]);
                    assert(rest_q[i - 1] == rest_p.subrange(0, rest_q.len() as int)[i - 1]);
                }
            }
            assert(q =~= p.subrange(0, q.len() as int));
            assert(false);
        }
        let (j, base) = match names(nodes).index_of_first(p0) {
            Some(i) => (i, nodes[i]),
            None => (nodes.len() as int, fresh_node(p0, child_path(parent, p0), access, p.len() > 1)),
        };
        assert(r[j] == settle(base, rest_p, value, access));
        if p.len() > 1 {
            lemma_lookup_frame(base.children, Some(base.path), rest_p, rest_q, value, access);
        }
        match names(nodes).index_of_first(p0) {
            Some(i) => {},
            None => {
                lemma_lookup_empty(rest_q);
            },
        }
    }
}

/// Writing the same value twice is the same as writing it once (`settle`).
pub proof fn lemma_settle_idempotent(n: VarNode, rest: Seq<Seq<char>>, value: Seq<char>, access: Access)
    ensures
        settle(settle(n, rest, value, access), rest, value, access) == settle(n, rest, value, access),
    decreases rest.len(), 1int,
{
    if rest.len() > 0 {
        lemma_upsert_idempotent(n.children, Some(n.path), rest, value, access);
    }
}

/// Writing the same value twice is the same as writing it once.
pub proof fn lemma_upsert_idempotent(
    nodes: Seq<VarNode>,
    parent: Option<Seq<char>>,
    parts: Seq<Seq<char>>,
    value: Seq<char>,
    access: Access,
)
    ensures
        upsert_nodes(upsert_nodes(nodes, parent, parts, value, access), parent, parts, value, access)
            == upsert_nodes(nodes, parent, parts, value, access),
    decreases parts.len(), 0int,
{
    if parts.len() == 0 {
        return ;
    }
    let r = upsert_nodes(nodes, parent, parts, value, access);
    lemma_upsert_shape(nodes, parent, parts, value, access);
    lemma_upsert_shape(r, parent, parts, value, access);
    let rest = parts.drop_first();
    match names(nodes).index_of_first(parts[0]) {
        Some(i) => {
            lemma_settle_idempotent(nodes[i], rest, value, access);
            assert(r.update(i, settle(r[i], rest, value, access)) =~= r);
        },
        None => {
            let j = nodes.len() as int;
            let f = fresh_node(parts[0], child_path(parent, parts[0]), access, parts.len() > 1);
            lemma_settle_idempotent(f, rest, value, access);
            assert(r.update(j, settle(r[j], rest, value, access)) =~= r);
        },
    }
}

/// Recording a path twice is the same as recording it once.
pub proof fn lemma_index_update_idempotent(leaves: Seq<(Seq<char>, Access)>, path: Seq<char>, access: Access)
    ensures
        index_update(index_update(leaves, path, access), path, access) == index_update(leaves, path, access),
{
    let lp = leaf_paths(leaves);
    lp.index_of_first_ensures(path);
    let r = index_update(leaves, path, access);
    match lp.index_of_first(path) {
        Some(i) => {
            assert(leaf_paths(r) =~= lp);
            assert(r.update(i, (path, access)) =~= r);
        },
        None => {
            assert(leaf_paths(r) =~= lp.push(path));
            lemma_index_of_first_push(lp, path, path);
            assert(r.update(lp.len() as int, (path, access)) =~= r);
        },
    }
}

/// After recording `path` with `access`, the index answers `access` for
/// `path` and what it answered before for every other path.
pub proof fn lemma_access_after_update(
    leaves: Seq<(Seq<char>, Access)>,
    path: Seq<char>,
    access: Access,
    other: Seq<char>,
)
    ensures
        access_of(index_update(leaves, path, access), path) == Some(access),
        other != path ==> access_of(index_update(leaves, path, access), other) == access_of(
            leaves,
            other,
        ),
{
    let lp = leaf_paths(leaves);
    lp.index_of_first_ensures(path);
    lp.index_of_first_ensures(other);
    let r = index_update(leaves, path, access);
    match lp.index_of_first(path) {
        Some(i) => {
            assert(leaf_paths(r) =~= lp);
        },
        None => {
            assert(leaf_paths(r) =~= lp.push(path));
            lemma_index_of_first_push(lp, path, path);
            lemma_index_of_first_push(lp, path, other);
        },
    }
}

/// Node `n`, under a parent whose path is `parent` (none for a root), is
/// well formed: its path is its parent's path and its name joined by `.`,
/// and its children are well formed under it.
pub open spec fn node_ok(n: VarNode, parent: Option<Seq<char>>) -> bool
    decreases n,
{
    n.path == child_path(parent, n.name) && forest_ok(n.children, Some(n.path))
}

/// Sibling nodes under a parent whose path is `parent` are well formed:
/// their names are pairwise distinct and each node is well formed.
pub open spec fn forest_ok(nodes: Seq<VarNode>, parent: Option<Seq<char>>) -> bool
    decreases nodes,
{
    if nodes.len() == 0 {
        true
    } else {
        &&& forest_ok(nodes.drop_last(), parent)
        &&& !names(nodes.drop_last()).contains(nodes.last().name)
        &&& node_ok(nodes.last(), parent)
    }
}

/// `forest_ok` spelled out: distinct names, every node well formed.
pub proof fn lemma_forest_ok(nodes: Seq<VarNode>, parent: Option<Seq<char>>)
    ensures
        forest_ok(nodes, parent) <==> (names(nodes).no_duplicates() && forall|i: int|
            0 <= i < nodes.len() ==> node_ok(#[trigger] nodes[i], parent)),
    decreases nodes.len(),
{
    if nodes.len() > 0 {
        let pre = nodes.drop_last();
        let x = nodes.last();
        lemma_forest_ok(pre, parent);
        lemma_names_push(pre, x);
        assert(pre.push(x) =~= nodes);
        let ns = names(pre);
        if forest_ok(nodes, parent) {
            assert forall|a: int, b: int| 0 <= a < names(nodes).len() && 0 <= b < names(nodes).len() && a
                != b implies names(nodes)[a] != names(nodes)[b] by {
                if a == nodes.len() - 1 {
                    assert(ns[b] == names(nodes)[b]);
                } else if b == nodes.len() - 1 {
                    assert(ns[a] == names(nodes)[a]);
                } else {
                    assert(ns[a] == names(nodes)[a] && ns[b] == names(nodes)[b]);
                }
            }
            assert forall|i: int| 0 <= i < nodes.len() implies node_ok(#[trigger] nodes[i], parent) by {
                if i < nodes.len() - 1 {
                    assert(pre[i] == nodes[i]);
                }
            }
        }
        if names(nodes).no_duplicates() && forall|i: int| 0 <= i < nodes.len() ==> node_ok(#[trigger] nodes[i], parent) {
            assert forall|a: int, b: int| 0 <= a < ns.len() && 0 <= b < ns.len() && a != b implies ns[a]
                != ns[b] by {
                assert(ns[a] == names(nodes)[a] && ns[b] == names(nodes)[b]);
            }
            assert forall|i: int| 0 <= i < pre.len() implies node_ok(#[trigger] pre[i], parent) by {
                assert(pre[i] == nodes[i]);
            }
            if ns.contains(x.name) {
                let k = choose|k: int| 0 <= k < ns.len() && ns[k] == x.name;
                assert(names(nodes)[k] == names(nodes)[nodes.len() - 1]);
            }
            assert(node_ok(nodes[nodes.len() - 1], parent));
        }
    }
}

/// A write keeps a well-formed forest well formed.
proof fn lemma_upsert_ok(
    nodes: Seq<VarNode>,
    parent: Option<Seq<char>>,
    parts: Seq<Seq<char>>,
    value: Seq<char>,
    access: Access,
)
    requires
        forest_ok(nodes, parent),
    ensures
        forest_ok(upsert_nodes(nodes, parent, parts, value, access), parent),
    decreases parts.len(),
{
    if parts.len() == 0 {
        return;
    }
    lemma_upsert_shape(nodes, parent, parts, value, access);
    lemma_forest_ok(nodes, parent);
    let r = upsert_nodes(nodes, parent, parts, value, access);
    lemma_forest_ok(r, parent);
    let p0 = parts[0];
    let rest = parts.drop_first();
    match names(nodes).index_of_first(p0) {
        Some(i) => {
            let n = nodes[i];
            let m = settle(n, rest, value, access);
            assert(node_ok(n, parent));
            if rest.len() > 0 {
                lemma_upsert_ok(n.children, Some(n.path), rest, value, access);
            }
            assert(node_ok(m, parent));
            assert forall|k: int| 0 <= k < r.len() implies node_ok(#[trigger] r[k], parent) by {
                if k != i {
                    assert(r[k] == nodes[k]);
                }
            }
        },
        None => {
            names(nodes).index_of_first_ensures(p0);
            let f = fresh_node(p0, child_path(parent, p0), access, parts.len() > 1);
            let m = settle(f, rest, value, access);
            assert(forest_ok(Seq::<VarNode>::empty(), Some(f.path)));
            if rest.len() > 0 {
                lemma_upsert_ok(f.children, Some(f.path), rest, value, access);
            }
            assert(node_ok(m, parent));
            assert(r.drop_last() =~= nodes);
            assert(r.last() == m);
        },
    }
}

/// A write into one list of siblings (the children of a node whose path is
/// `parent`, or the roots): names stay pairwise distinct, the old names keep
/// their order and the first piece's name is appended only when it is new,
/// every new node's path is its parent's and its name joined by `.`, and the
/// node at the end of the written path is a leaf holding the value and the
/// permission.
pub proof fn law_upsert_children(
    nodes: Seq<VarNode>,
    parent: Option<Seq<char>>,
    parts: Seq<Seq<char>>,
    value: Seq<char>,
    access: Access,
)
    requires
        parts.len() >= 1,
        forest_ok(nodes, parent),
    ensures
        ({
            let r = upsert_nodes(nodes, parent, parts, value, access);
            &&& names(nodes).is_prefix_of(names(r))
            &&& names(r).len() == names(nodes).len() + (if names(nodes).contains(parts[0]) {
                0int
            } else {
                1int
            })
            &&& names(r).no_duplicates()
            &&& forest_ok(r, parent)
            &&& lookup(r, parts) matches Some(n) && n.value == value && n.access == access && !n.is_struct
        }),
{
    lemma_upsert_shape(nodes, parent, parts, value, access);
    lemma_upsert_ok(nodes, parent, parts, value, access);
    let r = upsert_nodes(nodes, parent, parts, value, access);
    lemma_forest_ok(r, parent);
    lemma_lookup_after_upsert(nodes, parent, parts, value, access);
    names(nodes).index_of_first_ensures(parts[0]);
    assert(names(nodes) =~= names(r).subrange(0, names(nodes).len() as int));
}

/// The tree stays well formed: if, before a telemetry line, sibling names
/// are pairwise distinct everywhere and every path is its parent's path and
/// its name joined by `.` (a root's path being its name), so it is after.
pub proof fn law_tree_stays_well_formed(st: WatchStateView, line: Seq<char>)
    requires
        forest_ok(st.roots, None),
    ensures
        forest_ok(st.handle_line(line).roots, None),
{
    match parse_line(line) {
        Some((p, v, a)) => lemma_upsert_ok(st.roots, None, split_on(p, '.'), v, a),
        None => {},
    }
}

/// Every state reached from a new or cleared state by telemetry lines has a
/// well-formed tree.
pub proof fn law_tree_well_formed_since_new(lines: Seq<Seq<char>>)
    ensures
        forest_ok(empty_view().handle_lines(lines).roots, None),
    decreases lines.len(),
{
    if lines.len() == 0 {
        assert(forest_ok(Seq::<VarNode>::empty(), None));
    } else {
        law_tree_well_formed_since_new(lines.drop_last());
        law_tree_stays_well_formed(empty_view().handle_lines(lines.drop_last()), lines.last());
    }
}

/// Path pieces joined with `.`.
pub open spec fn join_dots(parts: Seq<Seq<char>>) -> Seq<char>
    decreases parts.len(),
{
    if parts.len() <= 1 {
        if parts.len() == 0 {
            Seq::empty()
        } else {
            parts[0]
        }
    } else {
        parts[0] + seq!['.'] + join_dots(parts.drop_first())
    }
}

/// Splitting a text at `.` gives at least one piece, and joining the pieces
/// gives the text back.
pub proof fn lemma_split_join(s: Seq<char>)
    ensures
        split_on(s, '.').len() >= 1,
        join_dots(split_on(s, '.')) == s,
    decreases s.len(),
{
    s.index_of_first_ensures('.');
    match s.index_of_first('.') {
        None => {},
        Some(i) => {
            let t = s.skip(i + 1);
            lemma_split_join(t);
            let parts = split_on(s, '.');
            assert(parts == seq![s.take(i)] + split_on(t, '.'));
            assert(parts[0] == s.take(i));
            assert(parts.drop_first() =~= split_on(t, '.'));
            assert(s.take(i) + seq!['.'] + t =~= s);
        },
    }
}

/// The path of the node at `parts` below a parent whose path is `parent`.
pub open spec fn path_below(parent: Option<Seq<char>>, parts: Seq<Seq<char>>) -> Seq<char> {
    match parent {
        None => join_dots(parts),
        Some(x) => x + seq!['.'] + join_dots(parts),
    }
}

/// In a well-formed forest the node found at `parts` has the path joined
/// from them.
proof fn lemma_lookup_path(nodes: Seq<VarNode>, parent: Option<Seq<char>>, parts: Seq<Seq<char>>)
    requires
        forest_ok(nodes, parent),
        lookup(nodes, parts) is Some,
    ensures
        lookup(nodes, parts).unwrap().path == path_below(parent, parts),
    decreases parts.len(),
{
    lemma_forest_ok(nodes, parent);
    let i = names(nodes).index_of_first(parts[0]).unwrap();
    names(nodes).index_of_first_ensures(parts[0]);
    let n = nodes[i];
    assert(node_ok(n, parent));
    assert(n.name == names(nodes)[i]);
    if parts.len() > 1 {
        lemma_lookup_path(n.children, Some(n.path), parts.drop_first());
        match parent {
            None => {
                assert(path_below(parent, parts) =~= n.path + seq!['.'] + join_dots(parts.drop_first()));
            },
            Some(x) => {
                assert(path_below(parent, parts) =~= n.path + seq!['.'] + join_dots(parts.drop_first()));
            },
        }
    }
}

/// A write below an existing node leaves that node's permission as it was.
proof fn lemma_lookup_prefix_after_upsert(
    nodes: Seq<VarNode>,
    parent: Option<Seq<char>>,
    parts: Seq<Seq<char>>,
    value: Seq<char>,
    access: Access,
    q: Seq<Seq<char>>,
)
    requires
        1 <= q.len() < parts.len(),
        q == parts.take(q.len() as int),
        lookup(nodes, q) is Some,
    ensures
        lookup(upsert_nodes(nodes, parent, parts, value, access), q) matches Some(m) && m.access == lookup(
            nodes,
            q,
        ).unwrap().access,
    decreases parts.len(),
{
    lemma_upsert_shape(nodes, parent, parts, value, access);
    let r = upsert_nodes(nodes, parent, parts, value, access);
    let p0 = parts[0];
    assert(q[0] == p0);
    let i = names(nodes).index_of_first(p0).unwrap();
    let rest = parts.drop_first();
    assert(r[i] == settle(nodes[i], rest, value, access));
    if q.len() > 1 {
        assert(q.drop_first() =~= rest.take(q.len() - 1));
        lemma_lookup_prefix_after_upsert(nodes[i].children, Some(nodes[i].path), rest, value, access, q.drop_first());
    }
}

/// Every written path is backed by a node of the tree at that path, holding
/// the permission the index records.
pub open spec fn index_backed(st: WatchStateView) -> bool {
    forall|q: Seq<char>|
        #[trigger] access_of(st.leaves, q) is Some ==> (lookup(st.roots, split_on(q, '.')) matches Some(n)
            && n.access == access_of(st.leaves, q).unwrap())
}

/// A telemetry line keeps every written path backed by its node.
pub proof fn law_index_stays_backed(st: WatchStateView, line: Seq<char>)
    requires
        index_backed(st),
    ensures
        index_backed(st.handle_line(line)),
{
    match parse_line(line) {
        None => {},
        Some((p, v, a)) => {
            let after = st.handle_line(line);
            let pp = split_on(p, '.');
            lemma_split_join(p);
            assert forall|q: Seq<char>| #[trigger] access_of(after.leaves, q) is Some implies (lookup(
                after.roots,
                split_on(q, '.'),
            ) matches Some(n) && n.access == access_of(after.leaves, q).unwrap()) by {
                lemma_access_after_update(st.leaves, p, a, q);
                let qq = split_on(q, '.');
                lemma_split_join(q);
                if q == p {
                    lemma_lookup_after_upsert(st.roots, None, pp, v, a);
                } else {
                    assert(access_of(st.leaves, q) is Some);
                    if !qq.is_prefix_of(pp) {
                        lemma_lookup_frame(st.roots, None, pp, qq, v, a);
                    } else {
                        if qq.len() == pp.len() {
                            assert(qq =~= pp);
                            assert(false);
                        }
                        assert(qq =~= pp.take(qq.len() as int));
                        lemma_lookup_prefix_after_upsert(st.roots, None, pp, v, a, qq);
                    }
                }
            }
        },
    }
}

/// Since a new or cleared state, every path the index records is backed by
/// a node of the tree with that path and the recorded permission.
pub proof fn law_index_backed_since_new(lines: Seq<Seq<char>>, q: Seq<char>)
    ensures
        ({
            let st = empty_view().handle_lines(lines);
            st.access(q) is Some ==> (st.get(q) matches Some(n) && n.access == st.access(q).unwrap() && n.path
                == q)
        }),
    decreases lines.len(),
{
    lemma_backed_since_new(lines);
    law_tree_well_formed_since_new(lines);
    let st = empty_view().handle_lines(lines);
    if st.access(q) is Some {
        assert(access_of(st.leaves, q) is Some);
        lemma_split_join(q);
        lemma_lookup_path(st.roots, None, split_on(q, '.'));
    }
}

/// `index_backed` holds of every state reached from a new one.
proof fn lemma_backed_since_new(lines: Seq<Seq<char>>)
    ensures
        index_backed(empty_view().handle_lines(lines)),
    decreases lines.len(),
{
    if lines.len() == 0 {
        assert forall|q: Seq<char>| #[trigger] access_of(empty_view().leaves, q) is Some implies false by {
            lemma_no_index(leaf_paths(empty_view().leaves), q);
        }
    } else {
        lemma_backed_since_new(lines.drop_last());
        law_index_stays_backed(empty_view().handle_lines(lines.drop_last()), lines.last());
    }
}

/// Read after write: once a telemetry line for `path` has been applied,
/// the tree holds its value at `path` as a leaf and the index holds its
/// permission.
pub proof fn law_read_after_write(st: WatchStateView, line: Seq<char>)
    requires
        parse_line(line) is Some,
    ensures
        ({
            let (path, value, access) = parse_line(line).unwrap();
            let after = st.handle_line(line);
            &&& after.get(path) matches Some(n) && n.value == value && n.access == access
                && !n.is_struct
            &&& after.access(path) == Some(access)
        }),
{
    let (path, value, access) = parse_line(line).unwrap();
    assert(split_on(path, '.').len() >= 1) by {
        reveal_with_fuel(split_on, 1);
    }
    lemma_lookup_after_upsert(st.roots, None, split_on(path, '.'), value, access);
    lemma_access_after_update(st.leaves, path, access, path);
}

/// Every proper prefix of a written path is a group: after a telemetry
/// line for `a.b.c`, the nodes at `a` and `a.b` exist and have children.
pub proof fn law_prefixes_are_groups(st: WatchStateView, line: Seq<char>, k: int)
    requires
        parse_line(line) is Some,
        1 <= k < split_on(parse_line(line).unwrap().0, '.').len(),
    ensures
        ({
            let parts = split_on(parse_line(line).unwrap().0, '.');
            lookup(st.handle_line(line).roots, parts.take(k)) matches Some(n) && n.is_struct && n.name
                == parts[k - 1]
        }),
{
    let (path, value, access) = parse_line(line).unwrap();
    lemma_groups_after_upsert(st.roots, None, split_on(path, '.'), value, access, k);
}

/// A write to one path leaves every other path's permission as it was, and
/// every node whose path is not a prefix of the written one as it was.
pub proof fn law_write_frame(
    st: WatchStateView,
    path: Seq<char>,
    value: Seq<char>,
    access: Access,
    other: Seq<char>,
)
    requires
        other != path,
    ensures
        st.upsert(path, value, access).access(other) == st.access(other),
        !split_on(other, '.').is_prefix_of(split_on(path, '.')) ==> st.upsert(path, value, access).get(
            other,
        ) == st.get(other),
{
    lemma_access_after_update(st.leaves, path, access, other);
    assert(split_on(path, '.').len() >= 1) by {
        reveal_with_fuel(split_on, 1);
    }
    if !split_on(other, '.').is_prefix_of(split_on(path, '.')) {
        lemma_lookup_frame(st.roots, None, split_on(path, '.'), split_on(other, '.'), value, access);
    }
}

/// Applying the same telemetry line twice gives the same state as applying
/// it once.
pub proof fn law_line_idempotent(st: WatchStateView, line: Seq<char>)
    ensures
        st.handle_line(line).handle_line(line) == st.handle_line(line),
{
    match parse_line(line) {
        Some((p, v, a)) => {
            lemma_upsert_idempotent(st.roots, None, split_on(p, '.'), v, a);
            lemma_index_update_idempotent(st.leaves, p, a);
        },
        None => {},
    }
}

/// The permission carried by the last line of `lines` that writes `p`,
/// if any line does.
pub open spec fn last_access(lines: Seq<Seq<char>>, p: Seq<char>) -> Option<Access>
    decreases lines.len(),
{
    if lines.len() == 0 {
        None
    } else {
        match parse_line(lines.last()) {
            Some((q, _, a)) => if q == p {
                Some(a)
            } else {
                last_access(lines.drop_last(), p)
            },
            None => last_access(lines.drop_last(), p),
        }
    }
}

/// The state of a new (or cleared) watch.
pub open spec fn empty_view() -> WatchStateView {
    WatchStateView { roots: Seq::empty(), leaves: Seq::empty() }
}

/// Read after write over a history: after a sequence of lines, the
/// permission recorded for `p` is that of the last line that wrote `p`, and
/// what it was before when no line did.
pub proof fn law_access_history(st: WatchStateView, lines: Seq<Seq<char>>, p: Seq<char>)
    ensures
        st.handle_lines(lines).access(p) == (match last_access(lines, p) {
            Some(a) => Some(a),
            None => st.access(p),
        }),
    decreases lines.len(),
{
    if lines.len() > 0 {
        law_access_history(st, lines.drop_last(), p);
        let mid = st.handle_lines(lines.drop_last());
        match parse_line(lines.last()) {
            Some((q, v, a)) => lemma_access_after_update(mid.leaves, q, a, p),
            None => {},
        }
    }
}

/// Since a new or cleared state, a path has a permission exactly when some
/// line wrote it, and it is that of the last such line; a path only ever
/// used as a group prefix (like `arm` of `arm.voltage`) has none.
pub proof fn law_access_since_new(lines: Seq<Seq<char>>, p: Seq<char>)
    ensures
        empty_view().handle_lines(lines).access(p) == last_access(lines, p),
{
    law_access_history(empty_view(), lines, p);
    lemma_no_index(leaf_paths(Seq::<(Seq<char>, Access)>::empty()), p);
}

/// White space around a line makes no difference (a trailing `\r`, for
/// one): a line and its trimmed text act the same.
pub proof fn law_line_trim_invariant(st: WatchStateView, line: Seq<char>)
    ensures
        st.handle_line(trim(line)) == st.handle_line(line),
{
    crate::text::lemma_trim_idempotent(line);
}

/// Feedback lines (`OK ...`, `ERR ...`) and blank lines change nothing.
pub proof fn law_feedback_ignored(st: WatchStateView, line: Seq<char>)
    requires
        trim(line).len() == 0 || has_prefix(trim(line), ok_prefix()) || has_prefix(
            trim(line),
            err_prefix(),
        ),
    ensures
        st.handle_line(line) == st,
{
}

/// Roots keep their order: a line never removes or reorders top-level
/// nodes, it only appends a new one at the end.
pub proof fn law_roots_keep_order(st: WatchStateView, line: Seq<char>)
    ensures
        names(st.roots).is_prefix_of(names(st.handle_line(line).roots)),
        names(st.handle_line(line).roots).len() <= names(st.roots).len() + 1,
{
    match parse_line(line) {
        Some((p, v, a)) => {
            let parts = split_on(p, '.');
            assert(parts.len() >= 1) by {
                reveal_with_fuel(split_on, 1);
            }
            lemma_upsert_shape(st.roots, None, parts, v, a);
            let after = st.handle_line(line);
            assert(names(st.roots) =~= names(after.roots).subrange(0, names(st.roots).len() as int));
        },
        None => {
            assert(names(st.roots) =~= names(st.roots).subrange(0, names(st.roots).len() as int));
        },
    }
}

// ─────────────────────────────────────────────────────────────
// Copies
// ─────────────────────────────────────────────────────────────

/// A deep copy of `v`.
fn copy_var(v: &VarInfo) -> (r: VarInfo)
    ensures
        r.node() == v.node(),
    decreases v,
{
    let mut children: Vec<VarInfo> = Vec::new();
    let mut i: usize = 0;
    while i < v.children.len()
        invariant
            i <= v.children.len(),
            nodes_of(children@) == nodes_of(v.children@.take(i as int)),
        decreases v.children.len() - i,
    {
        assert(decreases_to!(v => v.children@[i as int]));
        let c = copy_var(&v.children[i]);
        proof {
            lemma_nodes_of_push(children@, c);
            lemma_nodes_of_push(v.children@.take(i as int), v.children@[i as int]);
            assert(v.children@.take(i as int).push(v.children@[i as int]) =~= v.children@.take(i + 1));
        }
        children.push(c);
        i = i + 1;
    }
    proof {
        assert(v.children@.take(i as int) =~= v.children@);
    }
    VarInfo {
        name: v.name.clone(),
        path: v.path.clone(),
        value: v.value.clone(),
        type_label: v.type_label.clone(),
        access: v.access,
        is_struct: v.is_struct,
        children,
    }
}

impl Clone for VarInfo {
    fn clone(&self) -> (r: Self)
        ensures
            r.node() == self.node(),
    {
        copy_var(self)
    }
}

impl Clone for WatchState {
    fn clone(&self) -> (r: Self)
        ensures
            r@ == self@,
    {
        let mut roots: Vec<VarInfo> = Vec::new();
        let mut i: usize = 0;
        while i < self.roots.len()
            invariant
                i <= self.roots.len(),
                nodes_of(roots@) == nodes_of(self.roots@.take(i as int)),
            decreases self.roots.len() - i,
        {
            let c = copy_var(&self.roots[i]);
            proof {
                lemma_nodes_of_push(roots@, c);
                lemma_nodes_of_push(self.roots@.take(i as int), self.roots@[i as int]);
                assert(self.roots@.take(i as int).push(self.roots@[i as int]) =~= self.roots@.take(i + 1));
            }
            roots.push(c);
            i = i + 1;
        }
        let mut leaves: Vec<LeafRef> = Vec::new();
        let mut j: usize = 0;
        while j < self.leaves.len()
            invariant
                j <= self.leaves.len(),
                leaves@.len() == j,
                forall|m: int| 0 <= m < j ==> (#[trigger] leaves@[m]).path@ == self.leaves@[m].path@
                    && leaves@[m].access == self.leaves@[m].access,
            decreases self.leaves.len() - j,
        {
            leaves.push(LeafRef { path: self.leaves[j].path.clone(), access: self.leaves[j].access });
            j = j + 1;
        }
        proof {
            assert(self.roots@.take(i as int) =~= self.roots@);
        }
        let r = WatchState { roots, leaves };
        proof {
            assert(r@.leaves =~= self@.leaves);
        }
        r
    }
}

// ─────────────────────────────────────────────────────────────
// Search helpers
// ─────────────────────────────────────────────────────────────

/// Position of the first node named `name`.
fn find_named(nodes: &Vec<VarInfo>, name: &String) -> (r: Option<usize>)
    ensures
        match r {
            Some(i) => names(nodes_of(nodes@)).index_of_first(name@) == Some(i as int),
            None => names(nodes_of(nodes@)).index_of_first(name@) == None::<int>,
        },
        r matches Some(i) ==> i < nodes.len(),
{
    let ghost ns = var_names(nodes@);
    proof {
        lemma_names_of(nodes@);
    }
    let mut j: usize = 0;
    while j < nodes.len()
        invariant
            j <= nodes.len(),
            ns == var_names(nodes@),
            names(nodes_of(nodes@)) == ns,
            forall|k: int| 0 <= k < j ==> ns[k] != name@,
        decreases nodes.len() - j,
    {
        if nodes[j].name == *name {
            proof {
                assert(ns[j as int] == name@);
                lemma_first_index(ns, name@, j as int);
            }
            return Some(j);
        }
        j = j + 1;
    }
    proof {
        lemma_no_index(ns, name@);
    }
    None
}

// ─────────────────────────────────────────────────────────────
// WatchState
// ─────────────────────────────────────────────────────────────

impl WatchState {
    /// An empty state.
    pub fn new() -> (s: Self)
        ensures
            s@.roots == Seq::<VarNode>::empty(),
            s@.leaves == Seq::<(Seq<char>, Access)>::empty(),
            s@.wf(),
    {
        let s = WatchState { roots: Vec::new(), leaves: Vec::new() };
        proof {
            assert(s@.leaves =~= Seq::<(Seq<char>, Access)>::empty());
        }
        s
    }

    /// Forgets every node and every written path (used on reconnect).
    pub fn clear(&mut self)
        ensures
            final(self)@.roots == Seq::<VarNode>::empty(),
            final(self)@.leaves == Seq::<(Seq<char>, Access)>::empty(),
            final(self)@.wf(),
    {
        self.roots.clear();
        self.leaves.clear();
        proof {
            assert(self@.leaves =~= Seq::<(Seq<char>, Access)>::empty());
        }
    }

    /// Applies one telemetry line (see `parse_line`).
    pub fn handle_line(&mut self, line: &str)
        ensures
            final(self)@ == old(self)@.handle_line(line@),
            old(self)@.wf() ==> final(self)@.wf(),
    {
        let v = chars_of(line);
        let (a, b) = trim_bounds(&v);
        let ghost t = trim(line@);
        assert(t == v@.subrange(a as int, b as int));
        if a == b {
            return ;
        }
        if b - a >= 3 && v[a] == 'O' && v[a + 1] == 'K' && v[a + 2] == ' ' {
            assert(t.take(3) =~= ok_prefix());
            return ;
        }
        if b - a >= 4 && v[a] == 'E' && v[a + 1] == 'R' && v[a + 2] == 'R' && v[a + 3] == ' ' {
            assert(t.take(4) =~= err_prefix());
            return ;
        }
        assert(!has_prefix(t, ok_prefix()));
        assert(!has_prefix(t, err_prefix()));
        match find_last(&v, a, b, ',') {
            Some(k) => {
                let rw = b - (k + 1) == 2 && v[k + 1] == 'R' && v[k + 2] == 'W';
                let access = if rw {
                    Access::ReadWrite
                } else {
                    Access::ReadOnly
                };
                proof {
                    let flag = t.skip(k - a + 1);
                    assert(flag =~= v@.subrange(k + 1, b as int));
                    if rw {
                        assert(flag =~= seq!['R', 'W']);
                    } else {
                        assert(flag != seq!['R', 'W']) by {
                            if flag == seq!['R', 'W'] {
                                assert(flag.len() == 2);
                                assert(flag[0] == 'R' && flag[1] == 'W');
                            }
                        }
                    }
                    assert(t.take(k - a) =~= v@.subrange(a as int, k as int));
                }
                match find_first(&v, a, k, '=') {
                    Some(e) => {
                        let path = line.substring_char(a, e);
                        let value = line.substring_char(e + 1, k);
                        proof {
                            let rest = t.take(k - a);
                            assert(rest.take(e - a) =~= path@);
                            assert(rest.skip(e - a + 1) =~= value@);
                        }
                        self.upsert(path, value, access);
                    },
                    None => {},
                }
            },
            None => {
                match find_first(&v, a, b, '=') {
                    Some(e) => {
                        let path = line.substring_char(a, e);
                        let value = line.substring_char(e + 1, b);
                        proof {
                            assert(t.take(e - a) =~= path@);
                            assert(t.skip(e - a + 1) =~= value@);
                        }
                        self.upsert(path, value, Access::ReadWrite);
                    },
                    None => {},
                }
            },
        }
    }

    /// Takes received text: appends it to the unterminated line `pending`,
    /// applies every line the text completes, in order, and leaves the
    /// unterminated rest in `pending`.
    pub fn receive(&mut self, pending: &mut String, text: &str)
        ensures
            ({
                let pieces = split_on(old(pending)@ + text@, '\n');
                &&& final(pending)@ == pieces.last()
                &&& final(self)@ == old(self)@.handle_lines(pieces.drop_last())
            }),
            old(self)@.wf() ==> final(self)@.wf(),
    {
        pending.append(text);
        let all = pending.as_str();
        let v = chars_of(all);
        let n = v.len();
        let ghost whole = all@;
        let ghost mut done: Seq<Seq<char>> = Seq::empty();
        let mut start: usize = 0;
        let mut i: usize = 0;
        assert(whole.skip(0) =~= whole);
        while i < n
            invariant
                n == v@.len(),
                v@ == whole,
                all@ == whole,
                start <= i <= n,
                forall|j: int| start <= j < i ==> v@[j] != '\n',
                split_on(whole, '\n') == done + split_on(whole.skip(start as int), '\n'),
                self@ == old(self)@.handle_lines(done),
                old(self)@.wf() ==> self@.wf(),
            decreases n - i,
        {
            if v[i] == '\n' {
                let line = all.substring_char(start, i);
                let ghost rest = whole.skip(start as int);
                proof {
                    lemma_first_index(rest, '\n', i - start);
                    assert(rest.take(i - start) =~= line@);
                    assert(rest.skip(i - start + 1) =~= whole.skip(i + 1));
                    assert(done.push(line@).drop_last() =~= done);
                    assert(done + split_on(rest, '\n') =~= done.push(line@) + split_on(whole.skip(i + 1), '\n'));
                }
                self.handle_line(line);
                proof {
                    done = done.push(line@);
                }
                start = i + 1;
            }
            i = i + 1;
        }
        let tail = String::from_str(all.substring_char(start, n));
        proof {
            let rest = whole.skip(start as int);
            lemma_no_index(rest, '\n');
            assert(rest =~= tail@);
            assert(split_on(whole, '\n') =~= done.push(tail@));
            assert(done.push(tail@).drop_last() =~= done);
        }
        *pending = tail;
    }

    /// Writes `value` to `path` in the tree and records the path.
    fn upsert(&mut self, path: &str, value: &str, access: Access)
        ensures
            final(self)@ == old(self)@.upsert(path@, value@, access),
            old(self)@.wf() ==> final(self)@.wf(),
    {
        let parts = split_str(path, '.');
        let ghost pv = views_of(parts@);
        assert(pv.len() >= 1) by {
            reveal_with_fuel(split_on, 1);
        }
        proof {
            assert(pv[0] == parts@[0]@);
        }
        let ghost old_roots = self.roots@;
        let ghost found = names(nodes_of(old_roots)).index_of_first(pv[0]);
        let idx = match find_named(&self.roots, &parts[0]) {
            Some(i) => i,
            None => {
                let root = VarInfo {
                    name: parts[0].clone(),
                    path: parts[0].clone(),
                    value: String::new(),
                    type_label: String::new(),
                    access,
                    is_struct: parts.len() > 1,
                    children: Vec::new(),
                };
                proof {
                    assert(nodes_of(root.children@) =~= Seq::<VarNode>::empty());
                    assert(root.node() == fresh_node(pv[0], child_path(None, pv[0]), access, pv.len() > 1));
                    lemma_nodes_of_push(self.roots@, root);
                }
                self.roots.push(root);
                self.roots.len() - 1
            },
        };
        let ghost before = self.roots@;
        proof {
            lemma_nodes_of(before);
            lemma_nodes_of(old_roots);
            assert(pv.drop_first() =~= pv.skip(1));
        }
        Self::settle(&mut self.roots[idx], &parts, 1, value, access);
        proof {
            let x = self.roots@[idx as int];
            lemma_nodes_of_update(before, idx as int, x);
            assert(self.roots@ =~= before.update(idx as int, x));
            let spec_roots = upsert_nodes(nodes_of(old_roots), None, pv, value@, access);
            match found {
                Some(i) => {
                    assert(i == idx);
                    assert(before == old_roots);
                    assert(nodes_of(self.roots@) == spec_roots);
                },
                None => {
                    assert(nodes_of(before).update(idx as int, x.node()) =~= nodes_of(old_roots).push(x.node()));
                    assert(nodes_of(self.roots@) == spec_roots);
                },
            }
        }
        self.update_index(path, access);
    }

    /// `node` after a write whose path continues with `parts[k..]` below it.
    fn settle(node: &mut VarInfo, parts: &Vec<String>, k: usize, value: &str, access: Access)
        requires
            1 <= k <= parts.len(),
        ensures
            final(node).node() == settle(old(node).node(), views_of(parts@).skip(k as int), value@, access),
        decreases parts.len() - k, 1usize,
    {
        if k == parts.len() {
            node.value = String::from_str(value);
            node.is_struct = false;
            node.access = access;
            proof {
                assert(views_of(parts@).skip(k as int).len() == 0);
            }
        } else {
            node.is_struct = true;
            Self::upsert_children(node, parts, k, value, access);
        }
    }

    /// Writes through the child named `parts[k]` of `parent`, appending the
    /// child when there is none.
    fn upsert_children(parent: &mut VarInfo, parts: &Vec<String>, k: usize, value: &str, access: Access)
        requires
            k < parts.len(),
        ensures
            final(parent).node() == (VarNode {
                children: upsert_nodes(
                    old(parent).node().children,
                    Some(old(parent).path@),
                    views_of(parts@).skip(k as int),
                    value@,
                    access,
                ),
                ..old(parent).node()
            }),
        decreases parts.len() - k, 0usize,
    {
        let ghost pv = views_of(parts@).skip(k as int);
        let ghost old_children = parent.children@;
        let ghost old_path = parent.path@;
        let ghost found = names(nodes_of(old_children)).index_of_first(pv[0]);
        proof {
            assert(pv[0] == parts@[k as int]@);
        }
        let idx = match find_named(&parent.children, &parts[k]) {
            Some(i) => i,
            None => {
                let mut new_path = parent.path.clone();
                new_path.append(".");
                new_path.append(parts[k].as_str());
                let child = VarInfo {
                    name: parts[k].clone(),
                    path: new_path,
                    value: String::new(),
                    type_label: String::new(),
                    access,
                    is_struct: k + 1 < parts.len(),
                    children: Vec::new(),
                };
                proof {
                    reveal_strlit(".");
                    assert(nodes_of(child.children@) =~= Seq::<VarNode>::empty());
                    assert(child.path@ =~= parent.path@ + seq!['.'] + pv[0]);
                    assert(child.node() == fresh_node(pv[0], child_path(Some(parent.path@), pv[0]), access, pv.len() > 1));
                    lemma_nodes_of_push(parent.children@, child);
                }
                parent.children.push(child);
                parent.children.len() - 1
            },
        };
        let ghost before = parent.children@;
        proof {
            lemma_nodes_of(before);
            lemma_nodes_of(old_children);
            assert(pv.drop_first() =~= views_of(parts@).skip(k + 1));
        }
        Self::settle(&mut parent.children[idx], parts, k + 1, value, access);
        proof {
            let x = parent.children@[idx as int];
            lemma_nodes_of_update(before, idx as int, x);
            assert(parent.children@ =~= before.update(idx as int, x));
            let spec_children = upsert_nodes(nodes_of(old_children), Some(old_path), pv, value@, access);
            match found {
                Some(i) => {
                    assert(i == idx);
                    assert(before == old_children);
                    assert(nodes_of(parent.children@) == spec_children);
                },
                None => {
                    assert(nodes_of(before).update(idx as int, x.node()) =~= nodes_of(old_children).push(x.node()));
                    assert(nodes_of(parent.children@) == spec_children);
                },
            }
        }
    }

    /// Records `path` with `access` in the index, appending it when new.
    fn update_index(&mut self, path: &str, access: Access)
        ensures
            final(self)@.roots == old(self)@.roots,
            final(self)@.leaves == index_update(old(self)@.leaves, path@, access),
            old(self)@.wf() ==> final(self)@.wf(),
    {
        let key = String::from_str(path);
        let ghost ls = old(self)@.leaves;
        let ghost lp = leaf_paths(ls);
        let mut j: usize = 0;
        while j < self.leaves.len()
            invariant
                j <= self.leaves.len(),
                self@ == old(self)@,
                ls == self@.leaves,
                lp == leaf_paths(ls),
                key@ == path@,
                forall|m: int| 0 <= m < j ==> lp[m] != path@,
            decreases self.leaves.len() - j,
        {
            if self.leaves[j].path == key {
                proof {
                    assert(lp[j as int] == path@);
                    lemma_first_index(lp, path@, j as int);
                }
                let ghost before = self.leaves@;
                self.leaves[j].access = access;
                proof {
                    assert(self.leaves@ =~= before.update(j as int, LeafRef { path: before[j as int].path, access }));
                    assert(self@.leaves =~= ls.update(j as int, (path@, access)));
                    assert(leaf_paths(self@.leaves) =~= lp);
                }
                return ;
            }
            j = j + 1;
        }
        proof {
            lemma_no_index(lp, path@);
        }
        self.leaves.push(LeafRef { path: key, access });
        proof {
            assert(self@.leaves =~= ls.push((path@, access)));
            assert(leaf_paths(self@.leaves) =~= lp.push(path@));
        }
    }

    /// The permission recorded for `path`, if it was ever written.
    pub fn get_access(&self, path: &str) -> (r: Option<Access>)
        ensures
            r == access_of(self@.leaves, path@),
    {
        let key = String::from_str(path);
        let ghost lp = leaf_paths(self@.leaves);
        let mut j: usize = 0;
        while j < self.leaves.len()
            invariant
                j <= self.leaves.len(),
                lp == leaf_paths(self@.leaves),
                key@ == path@,
                forall|m: int| 0 <= m < j ==> lp[m] != path@,
            decreases self.leaves.len() - j,
        {
            if self.leaves[j].path == key {
                proof {
                    assert(lp[j as int] == path@);
                    lemma_first_index(lp, path@, j as int);
                }
                return Some(self.leaves[j].access);
            }
            j = j + 1;
        }
        proof {
            lemma_no_index(lp, path@);
        }
        None
    }

    /// Positions of the roots whose path contains `filter`, in order (all
    /// roots when `filter` is empty).
    pub fn filter_roots(&self, filter: &str) -> (r: Vec<usize>)
        ensures
            forall|k: int| 0 <= k < r@.len() ==> r@[k] < self@.roots.len() && contains_text(
                self@.roots[r@[k] as int].path,
                filter@,
            ),
            forall|k: int, l: int| 0 <= k < l < r@.len() ==> r@[k] < r@[l],
            forall|i: int|
                0 <= i < self@.roots.len() && contains_text(self@.roots[i].path, filter@) ==> r@.contains(
                    i as usize,
                ),
    {
        proof {
            lemma_nodes_of(self.roots@);
        }
        let mut r: Vec<usize> = Vec::new();
        let mut i: usize = 0;
        while i < self.roots.len()
            invariant
                i <= self.roots@.len(),
                nodes_of(self.roots@).len() == self.roots@.len(),
                forall|m: int| 0 <= m < self.roots@.len() ==> #[trigger] nodes_of(self.roots@)[m] == self.roots@[m].node(),
                forall|k: int| 0 <= k < r@.len() ==> r@[k] < i && contains_text(
                    self.roots@[r@[k] as int].path@,
                    filter@,
                ),
                forall|k: int, l: int| 0 <= k < l < r@.len() ==> r@[k] < r@[l],
                forall|m: int| 0 <= m < i && contains_text(self.roots@[m].path@, filter@) ==> r@.contains(
                    m as usize,
                ),
            decreases self.roots.len() - i,
        {
            if text_contains(self.roots[i].path.as_str(), filter) {
                let ghost before = r@;
                r.push(i);
                proof {
                    assert forall|m: int|
                        0 <= m < i + 1 && contains_text(self.roots@[m].path@, filter@) implies r@.contains(
                        m as usize,
                    ) by {
                        if m == i {
                            assert(r@[before.len() as int] == i);
                        } else {
                            let k = choose|k: int| 0 <= k < before.len() && before[k] == m as usize;
                            assert(r@[k] == m as usize);
                        }
                    }
                }
            }
            i = i + 1;
        }
        r
    }

    /// Encodes the downlink command that writes `value` to `path`:
    /// `set <path> <value>\n`.
    pub fn encode_write_cmd(path: &str, value: &str) -> (cmd: String)
        ensures
            cmd@ == write_cmd(path@, value@),
    {
        proof {
            reveal_strlit("set ");
            reveal_strlit(" ");
            reveal_strlit("\n");
        }
        let mut cmd = String::from_str("set ");
        cmd.append(path);
        cmd.append(" ");
        cmd.append(value);
        cmd.append("\n");
        proof {
            assert(cmd@ =~= write_cmd(path@, value@));
        }
        cmd
    }
}

} // verus!
