//! The tree of configuration values that an environment source builds.
use vstd::prelude::*;
use crate::text::str_eq;

verus! {

/// The mathematical model of a configuration value: a string leaf or a
/// table from keys to values.
pub enum ConfigNode {
    Leaf(Seq<char>),
    Table(Map<Seq<char>, ConfigNode>),
}

/// A configuration value.
#[derive(Debug, PartialEq, Eq)]
pub enum ConfigValue {
    Text(String),
    Table(ConfigTable),
}

/// One key of a table with its value.
#[derive(Debug, PartialEq, Eq)]
pub struct ConfigEntry {
    pub key: String,
    pub value: ConfigValue,
}

/// A table of configuration values. Where a key occurs more than once, the
/// last occurrence is the one that counts.
#[derive(Debug, PartialEq, Eq)]
pub struct ConfigTable {
    pub entries: Vec<ConfigEntry>,
}

impl ConfigValue {
    pub open spec fn node(self) -> ConfigNode
        decreases self,
    {
        match self {
            ConfigValue::Text(s) => ConfigNode::Leaf(s@),
            ConfigValue::Table(t) => ConfigNode::Table(entries_map(t.entries@)),
        }
    }
}

/// The map that a sequence of entries stands for, later entries winning.
pub open spec fn entries_map(s: Seq<ConfigEntry>) -> Map<Seq<char>, ConfigNode>
    decreases s,
{
    if s.len() == 0 {
        Map::empty()
    } else {
        entries_map(s.drop_last()).insert(s.last().key@, s.last().value.node())
    }
}


impl View for ConfigTable {
    type V = Map<Seq<char>, ConfigNode>;

    open spec fn view(&self) -> Map<Seq<char>, ConfigNode> {
        entries_map(self.entries@)
    }
}

/// The index of the last entry with key `k`, or -1 when there is none.
pub open spec fn last_index(s: Seq<ConfigEntry>, k: Seq<char>) -> int
    decreases s.len(),
{
    if s.len() == 0 {
        -1
    } else if s.last().key@ == k {
        s.len() - 1
    } else {
        last_index(s.drop_last(), k)
    }
}

/// A key is in the map of a sequence of entries exactly when some entry has
/// it, and then its value is that of the last such entry.
pub proof fn lemma_entries_map_lookup(s: Seq<ConfigEntry>, k: Seq<char>)
    ensures
        -1 <= last_index(s, k) < s.len(),
        last_index(s, k) >= 0 ==> s[last_index(s, k)].key@ == k,
        forall|j: int| last_index(s, k) < j < s.len() ==> #[trigger] s[j].key@ != k,
        entries_map(s).contains_key(k) <==> last_index(s, k) >= 0,
        last_index(s, k) >= 0 ==> entries_map(s)[k] == s[last_index(s, k)].value.node(),
    decreases s.len(),
{
    if s.len() > 0 {
        lemma_entries_map_lookup(s.drop_last(), k);
        assert forall|j: int| last_index(s, k) < j < s.len() implies #[trigger] s[j].key@ != k by {
            if j < s.len() - 1 {
                assert(s.drop_last()[j] == s[j]);
            }
        }
    }
}

/// Replacing the last entry of a key replaces that key's value in the map.
pub proof fn lemma_entries_map_update(s: Seq<ConfigEntry>, i: int, e: ConfigEntry)
    requires
        0 <= i < s.len(),
        s[i].key@ == e.key@,
        forall|j: int| i < j < s.len() ==> #[trigger] s[j].key@ != e.key@,
    ensures
        entries_map(s.update(i, e)) == entries_map(s).insert(e.key@, e.value.node()),
    decreases s.len(),
{
    let t = s.update(i, e);
    if i == s.len() - 1 {
        assert(t.drop_last() =~= s.drop_last());
        assert(entries_map(s.drop_last()).insert(e.key@, e.value.node()) =~=
            entries_map(s).insert(e.key@, e.value.node()));
    } else {
        lemma_entries_map_update(s.drop_last(), i, e);
        assert(t.drop_last() =~= s.drop_last().update(i, e));
        assert(t.last() == s.last());
        assert(entries_map(t) =~= entries_map(s).insert(e.key@, e.value.node()));
    }
}


/// The value found by following `path` through nested tables from `m`.
pub open spec fn lookup_path(m: Map<Seq<char>, ConfigNode>, path: Seq<Seq<char>>) -> Option<ConfigNode>
    decreases path.len(),
{
    if path.len() == 0 || !m.contains_key(path[0]) {
        None
    } else if path.len() == 1 {
        Some(m[path[0]])
    } else {
        match m[path[0]] {
            ConfigNode::Table(t) => lookup_path(t, path.drop_first()),
            ConfigNode::Leaf(_) => None,
        }
    }
}

/// Sets the value at `path`, creating the tables on the way that are
/// missing. `None` where a proper prefix of the path holds a string, or
/// the path itself holds a table.
pub open spec fn nested_insert(
    m: Map<Seq<char>, ConfigNode>,
    path: Seq<Seq<char>>,
    v: ConfigNode,
) -> Option<Map<Seq<char>, ConfigNode>>
    decreases path.len(),
{
    if path.len() == 0 {
        None
    } else if path.len() == 1 {
        if m.contains_key(path[0]) && m[path[0]] is Table {
            None
        } else {
            Some(m.insert(path[0], v))
        }
    } else {
        let inner = if m.contains_key(path[0]) {
            match m[path[0]] {
                ConfigNode::Table(t) => Some(t),
                ConfigNode::Leaf(_) => None,
            }
        } else {
            Some(Map::empty())
        };
        match inner {
            Some(t) => match nested_insert(t, path.drop_first(), v) {
                Some(t2) => Some(m.insert(path[0], ConfigNode::Table(t2))),
                None => None,
            },
            None => None,
        }
    }
}

/// Whether the insertion of a value at `path` is refused: some proper
/// prefix of the path holds a string, or the path itself holds a table.
pub open spec fn path_blocked(m: Map<Seq<char>, ConfigNode>, path: Seq<Seq<char>>) -> bool {
    ||| exists|i: int| 0 < i < path.len() && (#[trigger] lookup_path(m, path.take(i))) matches Some(ConfigNode::Leaf(_))
    ||| lookup_path(m, path) matches Some(ConfigNode::Table(_))
}

/// Two paths part somewhere: neither is a prefix of the other.
pub open spec fn paths_diverge(p: Seq<Seq<char>>, q: Seq<Seq<char>>) -> bool {
    exists|i: int| 0 <= i < p.len() && i < q.len() && #[trigger] p[i] != q[i]
}

proof fn lemma_lookup_take_step(m: Map<Seq<char>, ConfigNode>, t: Map<Seq<char>, ConfigNode>, path: Seq<Seq<char>>, i: int)
    requires
        path.len() > 1,
        m.contains_key(path[0]),
        m[path[0]] == ConfigNode::Table(t),
        1 < i <= path.len(),
    ensures
        lookup_path(m, path.take(i)) == lookup_path(t, path.drop_first().take(i - 1)),
{
    assert(path.take(i).drop_first() =~= path.drop_first().take(i - 1));
}

/// What a write gives back to a read: after a successful insertion, the
/// path holds the inserted value.
pub proof fn lemma_nested_insert_reads_back(
    m: Map<Seq<char>, ConfigNode>,
    path: Seq<Seq<char>>,
    v: ConfigNode,
)
    requires
        nested_insert(m, path, v) is Some,
    ensures
        lookup_path(nested_insert(m, path, v)->0, path) == Some(v),
    decreases path.len(),
{
    if path.len() > 1 {
        let inner = if m.contains_key(path[0]) {
            match m[path[0]] {
                ConfigNode::Table(t) => t,
                ConfigNode::Leaf(_) => Map::empty(),
            }
        } else {
            Map::empty()
        };
        lemma_nested_insert_reads_back(inner, path.drop_first(), v);
    }
}

/// An insertion leaves every path that parts from the inserted one as it was.
pub proof fn lemma_nested_insert_frame(
    m: Map<Seq<char>, ConfigNode>,
    path: Seq<Seq<char>>,
    v: ConfigNode,
    other: Seq<Seq<char>>,
)
    requires
        nested_insert(m, path, v) is Some,
        paths_diverge(path, other),
    ensures
        lookup_path(nested_insert(m, path, v)->0, other) == lookup_path(m, other),
    decreases path.len(),
{
    let m2 = nested_insert(m, path, v)->0;
    let i = choose|i: int| 0 <= i < path.len() && i < other.len() && #[trigger] path[i] != other[i];
    if i == 0 {
        assert(m2.contains_key(other[0]) == m.contains_key(other[0]));
        if m.contains_key(other[0]) {
            assert(m2[other[0]] == m[other[0]]);
        }
    } else {
        let inner = if m.contains_key(path[0]) {
            match m[path[0]] {
                ConfigNode::Table(t) => t,
                ConfigNode::Leaf(_) => Map::empty(),
            }
        } else {
            Map::empty()
        };
        assert(path.drop_first()[i - 1] != other.drop_first()[i - 1]);
        lemma_nested_insert_frame(inner, path.drop_first(), v, other.drop_first());
        if !m.contains_key(path[0]) {
            assert(lookup_path(Map::empty(), other.drop_first()) == None::<ConfigNode>);
        }
    }
}

/// An insertion is refused exactly when the path is blocked.
pub proof fn lemma_nested_insert_refused(
    m: Map<Seq<char>, ConfigNode>,
    path: Seq<Seq<char>>,
    v: ConfigNode,
)
    requires
        path.len() > 0,
    ensures
        nested_insert(m, path, v) is None <==> path_blocked(m, path),
    decreases path.len(),
{
    if path.len() == 1 {
        assert forall|i: int| 0 < i < path.len() implies !(#[trigger] lookup_path(m, path.take(i)) matches Some(ConfigNode::Leaf(_))) by {}
    } else {
        if m.contains_key(path[0]) {
            assert(path.take(1) =~= seq![path[0]]);
            match m[path[0]] {
                ConfigNode::Leaf(_) => {
                    assert(lookup_path(m, path.take(1)) matches Some(ConfigNode::Leaf(_)));
                },
                ConfigNode::Table(t) => {
                    lemma_nested_insert_refused(t, path.drop_first(), v);
                    if path_blocked(t, path.drop_first()) {
                        if lookup_path(t, path.drop_first()) matches Some(ConfigNode::Table(_)) {
                        } else {
                            let j = choose|j: int| 0 < j < path.drop_first().len() && (#[trigger] lookup_path(t, path.drop_first().take(j))) matches Some(ConfigNode::Leaf(_));
                            lemma_lookup_take_step(m, t, path, j + 1);
                        }
                    }
                    if path_blocked(m, path) {
                        if lookup_path(m, path) matches Some(ConfigNode::Table(_)) {
                        } else {
                            let j = choose|j: int| 0 < j < path.len() && (#[trigger] lookup_path(m, path.take(j))) matches Some(ConfigNode::Leaf(_));
                            if j == 1 {
                                assert(false);
                            } else {
                                lemma_lookup_take_step(m, t, path, j);
                                assert(lookup_path(t, path.drop_first().take(j - 1)) matches Some(ConfigNode::Leaf(_)));
                            }
                        }
                    }
                },
            }
        } else {
            lemma_nested_insert_refused(Map::empty(), path.drop_first(), v);
            assert forall|i: int| 0 < i < path.len() implies !(#[trigger] lookup_path(m, path.take(i)) matches Some(ConfigNode::Leaf(_))) by {}
            if path_blocked(Map::empty(), path.drop_first()) {
                if lookup_path(Map::empty(), path.drop_first()) matches Some(ConfigNode::Table(_)) {
                } else {
                    let j = choose|j: int| 0 < j < path.drop_first().len() && (#[trigger] lookup_path(Map::empty(), path.drop_first().take(j))) matches Some(ConfigNode::Leaf(_));
                }
            }
        }
    }
}


/// A string stands at `q`.
pub open spec fn leaf_at(m: Map<Seq<char>, ConfigNode>, q: Seq<Seq<char>>) -> bool {
    lookup_path(m, q) matches Some(ConfigNode::Leaf(_))
}

/// A table stands at `q`.
pub open spec fn table_at(m: Map<Seq<char>, ConfigNode>, q: Seq<Seq<char>>) -> bool {
    lookup_path(m, q) matches Some(ConfigNode::Table(_))
}

/// `p` is a proper prefix of `q`.
pub open spec fn proper_prefix(p: Seq<Seq<char>>, q: Seq<Seq<char>>) -> bool {
    p.len() < q.len() && q.take(p.len() as int) == p
}

/// What the empty table holds: nothing, at any path.
pub proof fn lemma_lookup_empty(q: Seq<Seq<char>>)
    ensures
        lookup_path(Map::empty(), q) == None::<ConfigNode>,
{
}

/// Two unequal non-empty paths of which neither is a proper prefix of the
/// other part somewhere.
pub proof fn lemma_unrelated_paths_diverge(p: Seq<Seq<char>>, q: Seq<Seq<char>>)
    requires
        p != q,
        !proper_prefix(p, q),
        !proper_prefix(q, p),
    ensures
        paths_diverge(p, q),
{
    if !paths_diverge(p, q) {
        assert forall|i: int| 0 <= i < p.len() && i < q.len() implies p[i] == q[i] by {
            if p[i] != q[i] {
                assert(paths_diverge(p, q));
            }
        }
        if p.len() < q.len() {
            assert(q.take(p.len() as int) =~= p);
        } else if q.len() < p.len() {
            assert(p.take(q.len() as int) =~= q);
        } else {
            assert(p =~= q);
        }
    }
}

/// After an insertion, the proper prefixes of the path hold tables and the
/// paths below it hold nothing.
pub proof fn lemma_nested_insert_around(
    m: Map<Seq<char>, ConfigNode>,
    path: Seq<Seq<char>>,
    v: ConfigNode,
    q: Seq<Seq<char>>,
)
    requires
        nested_insert(m, path, v) is Some,
        v is Leaf,
    ensures
        q.len() > 0 && proper_prefix(q, path) ==> table_at(nested_insert(m, path, v)->0, q),
        proper_prefix(path, q) ==> lookup_path(nested_insert(m, path, v)->0, q) is None,
    decreases path.len(),
{
    let m2 = nested_insert(m, path, v)->0;
    if path.len() == 1 {
        if proper_prefix(path, q) {
            assert(q[0] == path[0]) by {
                assert(q.take(1)[0] == q[0]);
            }
        }
    } else {
        let inner = if m.contains_key(path[0]) {
            match m[path[0]] {
                ConfigNode::Table(t) => t,
                ConfigNode::Leaf(_) => Map::empty(),
            }
        } else {
            Map::empty()
        };
        lemma_nested_insert_around(inner, path.drop_first(), v, q.drop_first());
        if q.len() > 0 && (proper_prefix(q, path) || proper_prefix(path, q)) {
            assert(q[0] == path[0]) by {
                if proper_prefix(q, path) {
                    assert(path.take(q.len() as int)[0] == path[0]);
                } else {
                    assert(q.take(path.len() as int)[0] == q[0]);
                }
            }
            if proper_prefix(q, path) && q.len() > 1 {
                assert(proper_prefix(q.drop_first(), path.drop_first())) by {
                    assert(path.drop_first().take(q.drop_first().len() as int) =~= path.take(q.len() as int).drop_first());
                }
            }
            if proper_prefix(path, q) {
                assert(proper_prefix(path.drop_first(), q.drop_first())) by {
                    assert(q.drop_first().take(path.drop_first().len() as int) =~= q.take(path.len() as int).drop_first());
                }
            }
        }
    }
}

/// A value and the path it is stored at; `None` for an item that stores
/// nothing.
pub type PathItem = Option<(Seq<Seq<char>>, Seq<char>)>;

/// The path of an item.
pub open spec fn item_path(x: PathItem) -> Seq<Seq<char>> {
    match x {
        Some((p, _)) => p,
        None => Seq::empty(),
    }
}

/// Stores the string values at their paths in turn; `None` at the first
/// refusal.
pub open spec fn insert_all(m: Map<Seq<char>, ConfigNode>, items: Seq<PathItem>) -> Option<Map<Seq<char>, ConfigNode>>
    decreases items.len(),
{
    if items.len() == 0 {
        Some(m)
    } else {
        match items[0] {
            None => insert_all(m, items.drop_first()),
            Some((p, v)) => match nested_insert(m, p, ConfigNode::Leaf(v)) {
                Some(m2) => insert_all(m2, items.drop_first()),
                None => None,
            },
        }
    }
}

/// One path is a proper prefix of the other.
pub open spec fn related(a: Seq<Seq<char>>, b: Seq<Seq<char>>) -> bool {
    proper_prefix(a, b) || proper_prefix(b, a)
}

/// Two items whose paths are related: one is a proper prefix of the other.
pub open spec fn prefix_conflict(items: Seq<PathItem>) -> bool {
    exists|i: int, j: int|
        0 <= i < j < items.len() && items[i] is Some && items[j] is Some
        && #[trigger] related(item_path(items[i]), item_path(items[j]))
}

/// A stored path and an item whose paths are related.
pub open spec fn cross_conflict(done: Seq<Seq<Seq<char>>>, items: Seq<PathItem>) -> bool {
    exists|s: int, j: int|
        0 <= s < done.len() && 0 <= j < items.len() && items[j] is Some
        && #[trigger] related(done[s], item_path(items[j]))
}

/// Every path of the items is non-empty.
pub open spec fn paths_nonempty(items: Seq<PathItem>) -> bool {
    forall|i: int| 0 <= i < items.len() && (#[trigger] items[i]) is Some ==> item_path(items[i]).len() > 0
}

/// What a table holds is explained by the paths stored in it: each stored
/// path holds a string and its proper prefixes tables; every string stands
/// at a stored path, every table at a proper prefix of one.
pub open spec fn explained(m: Map<Seq<char>, ConfigNode>, ps: Seq<Seq<Seq<char>>>) -> bool {
    &&& forall|s: int| 0 <= s < ps.len() ==> #[trigger] leaf_at(m, ps[s])
    &&& forall|s: int, k: int| 0 <= s < ps.len() && 0 < k < ps[s].len() ==> #[trigger] table_at(m, ps[s].take(k))
    &&& forall|q: Seq<Seq<char>>| #[trigger] leaf_at(m, q) ==> exists|s: int| 0 <= s < ps.len() && ps[s] == q
    &&& forall|q: Seq<Seq<char>>| #[trigger] table_at(m, q) ==> exists|s: int| 0 <= s < ps.len() && proper_prefix(q, ps[s])
}

proof fn lemma_explained_step(m: Map<Seq<char>, ConfigNode>, ps: Seq<Seq<Seq<char>>>, path: Seq<Seq<char>>, v: Seq<char>)
    requires
        explained(m, ps),
        path.len() > 0,
        forall|s: int| 0 <= s < ps.len() ==> ps[s].len() > 0,
    ensures
        nested_insert(m, path, ConfigNode::Leaf(v)) is None <==> exists|s: int| 0 <= s < ps.len() && (proper_prefix(ps[s], path) || proper_prefix(path, ps[s])),
        nested_insert(m, path, ConfigNode::Leaf(v)) matches Some(m2) ==> explained(m2, ps.push(path)),
{
    let leaf = ConfigNode::Leaf(v);
    lemma_nested_insert_refused(m, path, leaf);
    if nested_insert(m, path, leaf) is None {
        if table_at(m, path) {
            let s = choose|s: int| 0 <= s < ps.len() && proper_prefix(path, ps[s]);
        } else {
            let i = choose|i: int| 0 < i < path.len() && (#[trigger] lookup_path(m, path.take(i))) matches Some(ConfigNode::Leaf(_));
            assert(leaf_at(m, path.take(i)));
            let s = choose|s: int| 0 <= s < ps.len() && ps[s] == path.take(i);
            assert(proper_prefix(ps[s], path));
        }
    } else {
        let m2 = nested_insert(m, path, leaf)->0;
        assert forall|s: int| 0 <= s < ps.len() implies !(proper_prefix(ps[s], path) || proper_prefix(path, ps[s])) by {
            if proper_prefix(ps[s], path) {
                assert(path.take(ps[s].len() as int) == ps[s]);
                assert(leaf_at(m, ps[s]));
                assert(lookup_path(m, path.take(ps[s].len() as int)) matches Some(ConfigNode::Leaf(_)));
                assert(path_blocked(m, path));
            }
            if proper_prefix(path, ps[s]) {
                assert(ps[s].take(path.len() as int) == path);
                assert(table_at(m, ps[s].take(path.len() as int)));
                assert(lookup_path(m, ps[s].take(path.len() as int)) matches Some(ConfigNode::Table(_)));
                assert(path_blocked(m, path));
            }
        }
        let ps2 = ps.push(path);
        lemma_nested_insert_reads_back(m, path, leaf);
        // every path q relates to the inserted one in one of four ways
        assert forall|q: Seq<Seq<char>>| q.len() > 0 && q != path && !proper_prefix(q, path) && !proper_prefix(path, q)
            implies lookup_path(m2, q) == lookup_path(m, q) by {
            lemma_unrelated_paths_diverge(path, q);
            lemma_nested_insert_frame(m, path, leaf, q);
        }
        assert forall|s: int| 0 <= s < ps2.len() implies #[trigger] leaf_at(m2, ps2[s]) by {
            if s < ps.len() && ps[s] != path {
                assert(ps2[s] == ps[s]);
                assert(leaf_at(m, ps[s]));
            }
        }
        assert forall|s: int, k: int| 0 <= s < ps2.len() && 0 < k < ps2[s].len() implies #[trigger] table_at(m2, ps2[s].take(k)) by {
            let q = ps2[s].take(k);
            lemma_nested_insert_around(m, path, leaf, q);
            if s == ps.len() {
                assert(q.take(k) =~= q);
                assert(ps2[s].take(q.len() as int) =~= q);
                assert(proper_prefix(q, path));
            } else {
                assert(ps2[s] == ps[s]);
                assert(table_at(m, ps[s].take(k)));
                if q == path {
                    assert(ps[s].take(path.len() as int) =~= path);
                    assert(proper_prefix(path, ps[s]));
                } else if proper_prefix(path, q) {
                    assert(ps[s].take(path.len() as int) =~= q.take(path.len() as int));
                    assert(proper_prefix(path, ps[s]));
                } else if !proper_prefix(q, path) {
                }
            }
        }
        assert forall|q: Seq<Seq<char>>| #[trigger] leaf_at(m2, q) implies exists|s: int| 0 <= s < ps2.len() && ps2[s] == q by {
            lemma_nested_insert_around(m, path, leaf, q);
            if q == path {
                assert(ps2[ps.len() as int] == q);
            } else if q.len() > 0 && !proper_prefix(q, path) && !proper_prefix(path, q) {
                assert(leaf_at(m, q));
                let s = choose|s: int| 0 <= s < ps.len() && ps[s] == q;
                assert(ps2[s] == q);
            }
        }
        assert forall|q: Seq<Seq<char>>| #[trigger] table_at(m2, q) implies exists|s: int| 0 <= s < ps2.len() && proper_prefix(q, ps2[s]) by {
            lemma_nested_insert_around(m, path, leaf, q);
            if proper_prefix(q, path) {
                assert(ps2[ps.len() as int] == path);
            } else if q.len() > 0 && q != path && !proper_prefix(path, q) {
                assert(table_at(m, q));
                let s = choose|s: int| 0 <= s < ps.len() && proper_prefix(q, ps[s]);
                assert(ps2[s] == ps[s]);
            }
        }
    }
}


proof fn lemma_insert_all_explained(m: Map<Seq<char>, ConfigNode>, done: Seq<Seq<Seq<char>>>, items: Seq<PathItem>)
    requires
        explained(m, done),
        forall|s: int| 0 <= s < done.len() ==> done[s].len() > 0,
        paths_nonempty(items),
    ensures
        insert_all(m, items) is None <==> cross_conflict(done, items) || prefix_conflict(items),
    decreases items.len(),
{
    if items.len() > 0 {
        let rest = items.drop_first();
        assert(paths_nonempty(rest)) by {
            assert forall|i: int| 0 <= i < rest.len() && (#[trigger] rest[i]) is Some implies item_path(rest[i]).len() > 0 by {
                assert(rest[i] == items[i + 1]);
            }
        }
        // conflicts among the items: within the rest, or with the first one
        assert(prefix_conflict(items) <==> prefix_conflict(rest) || (items[0] is Some && exists|j: int| 0 <= j < rest.len() && rest[j] is Some && #[trigger] related(item_path(items[0]), item_path(rest[j])))) by {
            if prefix_conflict(items) {
                let (i, j) = choose|i: int, j: int| 0 <= i < j < items.len() && items[i] is Some && items[j] is Some && #[trigger] related(item_path(items[i]), item_path(items[j]));
                if i > 0 {
                    assert(rest[i - 1] == items[i] && rest[j - 1] == items[j]);
                    assert(related(item_path(rest[i - 1]), item_path(rest[j - 1])));
                } else {
                    assert(rest[j - 1] == items[j]);
                    assert(related(item_path(items[0]), item_path(rest[j - 1])));
                }
            }
            if prefix_conflict(rest) {
                let (i, j) = choose|i: int, j: int| 0 <= i < j < rest.len() && rest[i] is Some && rest[j] is Some && #[trigger] related(item_path(rest[i]), item_path(rest[j]));
                assert(rest[i] == items[i + 1] && rest[j] == items[j + 1]);
                assert(related(item_path(items[i + 1]), item_path(items[j + 1])));
            }
            if items[0] is Some && exists|j: int| 0 <= j < rest.len() && rest[j] is Some && #[trigger] related(item_path(items[0]), item_path(rest[j])) {
                let j = choose|j: int| 0 <= j < rest.len() && rest[j] is Some && #[trigger] related(item_path(items[0]), item_path(rest[j]));
                assert(rest[j] == items[j + 1]);
                assert(related(item_path(items[0]), item_path(items[j + 1])));
            }
        }
        // conflicts with the stored paths: with the rest, or with the first one
        assert(cross_conflict(done, items) <==> cross_conflict(done, rest) || (items[0] is Some && exists|s: int| 0 <= s < done.len() && #[trigger] related(done[s], item_path(items[0])))) by {
            if cross_conflict(done, items) {
                let (s, j) = choose|s: int, j: int| 0 <= s < done.len() && 0 <= j < items.len() && items[j] is Some && #[trigger] related(done[s], item_path(items[j]));
                if j > 0 {
                    assert(rest[j - 1] == items[j]);
                    assert(related(done[s], item_path(rest[j - 1])));
                }
            }
            if cross_conflict(done, rest) {
                let (s, j) = choose|s: int, j: int| 0 <= s < done.len() && 0 <= j < rest.len() && rest[j] is Some && #[trigger] related(done[s], item_path(rest[j]));
                assert(rest[j] == items[j + 1]);
                assert(related(done[s], item_path(items[j + 1])));
            }
            if items[0] is Some && exists|s: int| 0 <= s < done.len() && #[trigger] related(done[s], item_path(items[0])) {
                let s = choose|s: int| 0 <= s < done.len() && #[trigger] related(done[s], item_path(items[0]));
                assert(related(done[s], item_path(items[0])));
            }
        }
        match items[0] {
            None => {
                lemma_insert_all_explained(m, done, rest);
            },
            Some((p, v)) => {
                lemma_explained_step(m, done, p, v);
                assert((exists|s: int| 0 <= s < done.len() && (proper_prefix(done[s], p) || proper_prefix(p, done[s])))
                    <==> exists|s: int| 0 <= s < done.len() && #[trigger] related(done[s], item_path(items[0]))) by {
                    if exists|s: int| 0 <= s < done.len() && (proper_prefix(done[s], p) || proper_prefix(p, done[s])) {
                        let s = choose|s: int| 0 <= s < done.len() && (proper_prefix(done[s], p) || proper_prefix(p, done[s]));
                        assert(related(done[s], item_path(items[0])));
                    }
                }
                if let Some(m2) = nested_insert(m, p, ConfigNode::Leaf(v)) {
                    let done2 = done.push(p);
                    assert forall|s: int| 0 <= s < done2.len() implies done2[s].len() > 0 by {
                        if s < done.len() {
                            assert(done2[s] == done[s]);
                        }
                    }
                    lemma_insert_all_explained(m2, done2, rest);
                    assert(cross_conflict(done2, rest) <==> cross_conflict(done, rest) || exists|j: int| 0 <= j < rest.len() && rest[j] is Some && #[trigger] related(item_path(items[0]), item_path(rest[j]))) by {
                        if cross_conflict(done2, rest) {
                            let (s, j) = choose|s: int, j: int| 0 <= s < done2.len() && 0 <= j < rest.len() && rest[j] is Some && #[trigger] related(done2[s], item_path(rest[j]));
                            if s < done.len() {
                                assert(done2[s] == done[s]);
                                assert(related(done[s], item_path(rest[j])));
                            } else {
                                assert(done2[s] == p);
                                assert(related(item_path(items[0]), item_path(rest[j])));
                            }
                        }
                        if cross_conflict(done, rest) {
                            let (s, j) = choose|s: int, j: int| 0 <= s < done.len() && 0 <= j < rest.len() && rest[j] is Some && #[trigger] related(done[s], item_path(rest[j]));
                            assert(done2[s] == done[s]);
                            assert(related(done2[s], item_path(rest[j])));
                        }
                        if exists|j: int| 0 <= j < rest.len() && rest[j] is Some && #[trigger] related(item_path(items[0]), item_path(rest[j])) {
                            let j = choose|j: int| 0 <= j < rest.len() && rest[j] is Some && #[trigger] related(item_path(items[0]), item_path(rest[j]));
                            assert(done2[done.len() as int] == p);
                            assert(related(done2[done.len() as int], item_path(rest[j])));
                        }
                    }
                }
            },
        }
    }
}

/// Storing string values at non-empty paths in turn, from an empty table,
/// is refused exactly when the paths of two items are related, one a proper
/// prefix of the other. So whether it succeeds does not depend on the order
/// of the items.
pub proof fn lemma_insert_all_refused(items: Seq<PathItem>)
    requires
        paths_nonempty(items),
    ensures
        insert_all(Map::empty(), items) is None <==> prefix_conflict(items),
{
    let done = Seq::<Seq<Seq<char>>>::empty();
    assert forall|q: Seq<Seq<char>>| lookup_path(Map::empty(), q) == None::<ConfigNode> by {
        lemma_lookup_empty(q);
    }
    assert(explained(Map::empty(), done));
    lemma_insert_all_explained(Map::empty(), done, items);
}

/// Whether two items conflict does not depend on their order: `items2`
/// holds the items of `items` rearranged by `perm` (with inverse `inv`).
pub proof fn lemma_prefix_conflict_order_free(items: Seq<PathItem>, items2: Seq<PathItem>, perm: Seq<int>, inv: Seq<int>)
    requires
        items2.len() == items.len(),
        perm.len() == items.len(),
        inv.len() == items.len(),
        forall|i: int| 0 <= i < items.len() ==> 0 <= #[trigger] perm[i] < items.len() && items2[i] == items[perm[i]] && inv[perm[i]] == i,
        forall|i: int| 0 <= i < items.len() ==> 0 <= #[trigger] inv[i] < items.len() && perm[inv[i]] == i,
    ensures
        prefix_conflict(items2) <==> prefix_conflict(items),
{
    if prefix_conflict(items2) {
        let (i, j) = choose|i: int, j: int| 0 <= i < j < items2.len() && items2[i] is Some && items2[j] is Some && #[trigger] related(item_path(items2[i]), item_path(items2[j]));
        let a = perm[i];
        let b = perm[j];
        assert(a != b);
        if a < b {
            assert(related(item_path(items[a]), item_path(items[b])));
        } else {
            assert(related(item_path(items[b]), item_path(items[a])));
        }
    }
    if prefix_conflict(items) {
        let (i, j) = choose|i: int, j: int| 0 <= i < j < items.len() && items[i] is Some && items[j] is Some && #[trigger] related(item_path(items[i]), item_path(items[j]));
        let a = inv[i];
        let b = inv[j];
        assert(items2[a] == items[i] && items2[b] == items[j]);
        assert(a != b);
        if a < b {
            assert(related(item_path(items2[a]), item_path(items2[b])));
        } else {
            assert(related(item_path(items2[b]), item_path(items2[a])));
        }
    }
}

/// A value whose tables, at every depth, hold each key once.
pub open spec fn value_wf(v: ConfigValue) -> bool
    decreases v,
{
    match v {
        ConfigValue::Text(_) => true,
        ConfigValue::Table(t) => entries_wf(t.entries@),
    }
}

/// Entries that hold each key once, with well-formed values.
pub open spec fn entries_wf(s: Seq<ConfigEntry>) -> bool
    decreases s,
{
    if s.len() == 0 {
        true
    } else {
        entries_wf(s.drop_last()) && value_wf(s.last().value) && last_index(s.drop_last(), s.last().key@) == -1
    }
}

impl ConfigTable {
    /// The table holds each key once, and so do its tables at every depth.
    pub open spec fn wf(&self) -> bool {
        entries_wf(self.entries@)
    }
}

/// No entry has key `k` exactly when the last index of `k` is -1.
proof fn lemma_no_key(s: Seq<ConfigEntry>, k: Seq<char>)
    ensures
        last_index(s, k) == -1 <==> forall|j: int| 0 <= j < s.len() ==> #[trigger] s[j].key@ != k,
{
    lemma_entries_map_lookup(s, k);
}

/// Well-formed entries have well-formed values and distinct keys.
pub proof fn lemma_entries_wf(s: Seq<ConfigEntry>)
    requires
        entries_wf(s),
    ensures
        forall|i: int| 0 <= i < s.len() ==> value_wf(#[trigger] s[i].value),
        forall|i: int, j: int| 0 <= i < j < s.len() ==> #[trigger] s[i].key@ != #[trigger] s[j].key@,
    decreases s.len(),
{
    if s.len() > 0 {
        let init = s.drop_last();
        lemma_entries_wf(init);
        lemma_no_key(init, s.last().key@);
        assert forall|i: int| 0 <= i < s.len() implies value_wf(#[trigger] s[i].value) by {
            if i < init.len() {
                assert(init[i] == s[i]);
            }
        }
        assert forall|i: int, j: int| 0 <= i < j < s.len() implies #[trigger] s[i].key@ != #[trigger] s[j].key@ by {
            assert(init[i] == s[i]);
            if j < init.len() {
                assert(init[j] == s[j]);
            }
        }
    }
}

/// Replacing an entry's value keeps the entries well formed.
pub proof fn lemma_entries_wf_update(s: Seq<ConfigEntry>, i: int, e: ConfigEntry)
    requires
        entries_wf(s),
        0 <= i < s.len(),
        s[i].key@ == e.key@,
        value_wf(e.value),
    ensures
        entries_wf(s.update(i, e)),
    decreases s.len(),
{
    let t = s.update(i, e);
    let init = s.drop_last();
    if i == s.len() - 1 {
        assert(t.drop_last() =~= init);
    } else {
        lemma_entries_wf_update(init, i, e);
        assert(t.drop_last() =~= init.update(i, e));
        lemma_no_key(init, s.last().key@);
        lemma_no_key(init.update(i, e), s.last().key@);
        assert forall|j: int| 0 <= j < init.update(i, e).len() implies #[trigger] init.update(i, e)[j].key@ != s.last().key@ by {
            if j != i {
                assert(init.update(i, e)[j] == init[j]);
            }
        }
    }
}

/// Where a value goes: at a path of nested tables, or directly under a
/// name, replacing what the name held.
pub enum Placement {
    Nested(Seq<Seq<char>>, Seq<char>),
    Flat(Seq<char>, Seq<char>),
}

/// Stores the values in turn, nested ones through `nested_insert` and flat
/// ones directly; `None` at the first refusal.
pub open spec fn insert_mixed(m: Map<Seq<char>, ConfigNode>, items: Seq<Option<Placement>>) -> Option<Map<Seq<char>, ConfigNode>>
    decreases items.len(),
{
    if items.len() == 0 {
        Some(m)
    } else {
        match items[0] {
            None => insert_mixed(m, items.drop_first()),
            Some(Placement::Flat(name, v)) => insert_mixed(m.insert(name, ConfigNode::Leaf(v)), items.drop_first()),
            Some(Placement::Nested(p, v)) => match nested_insert(m, p, ConfigNode::Leaf(v)) {
                Some(m2) => insert_mixed(m2, items.drop_first()),
                None => None,
            },
        }
    }
}

/// The nested items alone, in place.
pub open spec fn nested_item(x: Option<Placement>) -> PathItem {
    match x {
        Some(Placement::Nested(p, v)) => Some((p, v)),
        _ => None,
    }
}

pub open spec fn nested_part(items: Seq<Option<Placement>>) -> Seq<PathItem> {
    items.map_values(|x: Option<Placement>| nested_item(x))
}

/// The name of a flat item.
pub open spec fn flat_name(x: Option<Placement>) -> Option<Seq<char>> {
    match x {
        Some(Placement::Flat(g, _)) => Some(g),
        _ => None,
    }
}

/// The names under which flat items store their values.
pub open spec fn flat_names(items: Seq<Option<Placement>>) -> Set<Seq<char>> {
    Set::new(|f: Seq<char>| exists|i: int| 0 <= i < items.len() && #[trigger] flat_name(items[i]) == Some(f))
}

/// No nested item's path is empty or begins with the name of a flat item.
pub open spec fn flat_apart(items: Seq<Option<Placement>>, flat: Set<Seq<char>>) -> bool {
    forall|j: int| 0 <= j < items.len() ==> match #[trigger] items[j] {
        Some(Placement::Nested(p, _)) => p.len() > 0 && !flat.contains(p[0]),
        Some(Placement::Flat(f, _)) => flat.contains(f),
        None => true,
    }
}

/// Every nested item has a non-empty path whose first segment is the name
/// of no flat item.
pub open spec fn nested_apart(items: Seq<Option<Placement>>) -> bool {
    forall|j: int| 0 <= j < items.len() ==> match #[trigger] items[j] {
        Some(Placement::Nested(p, _)) => p.len() > 0 && forall|i: int| 0 <= i < items.len() ==> #[trigger] flat_name(items[i]) != Some(p[0]),
        _ => true,
    }
}

/// Two tables that hold the same at every name outside `flat`.
pub open spec fn agree_outside(m1: Map<Seq<char>, ConfigNode>, m2: Map<Seq<char>, ConfigNode>, flat: Set<Seq<char>>) -> bool {
    forall|k: Seq<char>| !flat.contains(k) ==> (#[trigger] m1.contains_key(k) == m2.contains_key(k)) && (m1.contains_key(k) ==> m1[k] == m2[k])
}

/// A nested insertion reads and writes only the entry of its first segment.
proof fn lemma_nested_insert_local(
    m1: Map<Seq<char>, ConfigNode>,
    m2: Map<Seq<char>, ConfigNode>,
    p: Seq<Seq<char>>,
    v: ConfigNode,
)
    requires
        p.len() > 0,
        m1.contains_key(p[0]) == m2.contains_key(p[0]),
        m1.contains_key(p[0]) ==> m1[p[0]] == m2[p[0]],
    ensures
        nested_insert(m1, p, v) is None <==> nested_insert(m2, p, v) is None,
        nested_insert(m1, p, v) is Some ==> nested_insert(m1, p, v)->0 == m1.insert(p[0], nested_insert(m1, p, v)->0[p[0]])
            && nested_insert(m2, p, v)->0 == m2.insert(p[0], nested_insert(m1, p, v)->0[p[0]]),
{
    if p.len() == 1 {
    } else {
        if let Some(r1) = nested_insert(m1, p, v) {
            assert(r1 == m1.insert(p[0], r1[p[0]]));
        }
    }
}

proof fn lemma_insert_mixed_as_nested(
    m1: Map<Seq<char>, ConfigNode>,
    m2: Map<Seq<char>, ConfigNode>,
    items: Seq<Option<Placement>>,
    flat: Set<Seq<char>>,
)
    requires
        agree_outside(m1, m2, flat),
        flat_apart(items, flat),
    ensures
        insert_mixed(m1, items) is None <==> insert_all(m2, nested_part(items)) is None,
    decreases items.len(),
{
    if items.len() > 0 {
        let rest = items.drop_first();
        assert(nested_part(items).drop_first() =~= nested_part(rest));
        assert(nested_part(items)[0] == nested_item(items[0]));
        assert(flat_apart(rest, flat)) by {
            assert forall|j: int| 0 <= j < rest.len() implies match #[trigger] rest[j] {
                Some(Placement::Nested(p, _)) => p.len() > 0 && !flat.contains(p[0]),
                Some(Placement::Flat(f, _)) => flat.contains(f),
                None => true,
            } by {
                assert(rest[j] == items[j + 1]);
            }
        }
        assert(match items[0] {
            Some(Placement::Nested(p, _)) => p.len() > 0 && !flat.contains(p[0]),
            Some(Placement::Flat(f, _)) => flat.contains(f),
            None => true,
        });
        match items[0] {
            None => {
                lemma_insert_mixed_as_nested(m1, m2, rest, flat);
            },
            Some(Placement::Flat(f, v)) => {
                let m1b = m1.insert(f, ConfigNode::Leaf(v));
                assert(agree_outside(m1b, m2, flat)) by {
                    assert forall|k: Seq<char>| !flat.contains(k) implies (#[trigger] m1b.contains_key(k) == m2.contains_key(k)) && (m1b.contains_key(k) ==> m1b[k] == m2[k]) by {
                        assert(m1.contains_key(k) == m2.contains_key(k));
                    }
                }
                lemma_insert_mixed_as_nested(m1b, m2, rest, flat);
            },
            Some(Placement::Nested(p, v)) => {
                assert(m1.contains_key(p[0]) == m2.contains_key(p[0]));
                lemma_nested_insert_local(m1, m2, p, ConfigNode::Leaf(v));
                if let Some(r1) = nested_insert(m1, p, ConfigNode::Leaf(v)) {
                    let r2 = nested_insert(m2, p, ConfigNode::Leaf(v))->0;
                    assert(agree_outside(r1, r2, flat)) by {
                        assert forall|k: Seq<char>| !flat.contains(k) implies (#[trigger] r1.contains_key(k) == r2.contains_key(k)) && (r1.contains_key(k) ==> r1[k] == r2[k]) by {
                            assert(m1.contains_key(k) == m2.contains_key(k));
                        }
                    }
                    lemma_insert_mixed_as_nested(r1, r2, rest, flat);
                }
            },
        }
    }
}

/// Storing values from an empty table, nested ones at non-empty paths and
/// flat ones under names that begin no nested path, is refused exactly when
/// the paths of two nested items are related, one a proper prefix of the
/// other. Flat items never cause a refusal.
pub proof fn lemma_insert_mixed_refused(items: Seq<Option<Placement>>)
    requires
        nested_apart(items),
    ensures
        insert_mixed(Map::empty(), items) is None <==> prefix_conflict(nested_part(items)),
{
    let flat = flat_names(items);
    assert(flat_apart(items, flat)) by {
        assert forall|j: int| 0 <= j < items.len() implies match #[trigger] items[j] {
            Some(Placement::Nested(p, _)) => p.len() > 0 && !flat.contains(p[0]),
            Some(Placement::Flat(f, _)) => flat.contains(f),
            None => true,
        } by {
            match items[j] {
                Some(Placement::Nested(p, _)) => {
                    if flat.contains(p[0]) {
                        let i = choose|i: int| 0 <= i < items.len() && #[trigger] flat_name(items[i]) == Some(p[0]);
                        assert(false);
                    }
                },
                Some(Placement::Flat(f, _)) => {
                    assert(flat_name(items[j]) == Some(f));
                },
                None => {},
            }
        }
    }
    assert(agree_outside(Map::empty(), Map::empty(), flat));
    lemma_insert_mixed_as_nested(Map::empty(), Map::empty(), items, flat);
    let np = nested_part(items);
    assert(paths_nonempty(np)) by {
        assert forall|i: int| 0 <= i < np.len() && (#[trigger] np[i]) is Some implies item_path(np[i]).len() > 0 by {
            assert(np[i] == nested_item(items[i]));
            assert(match items[i] {
                Some(Placement::Nested(p, _)) => p.len() > 0 && !flat.contains(p[0]),
                Some(Placement::Flat(f, _)) => flat.contains(f),
                None => true,
            });
        }
    }
    lemma_insert_all_refused(np);
}

impl ConfigTable {
    /// An empty table.
    pub fn new() -> (t: ConfigTable)
        ensures
            t@ == Map::<Seq<char>, ConfigNode>::empty(),
            t.wf(),
    {
        ConfigTable { entries: Vec::new() }
    }

    /// The index of the entry that holds `key`, if any.
    pub fn position(&self, key: &str) -> (r: Option<usize>)
        ensures
            match r {
                Some(i) => i == last_index(self.entries@, key@),
                None => last_index(self.entries@, key@) == -1,
            },
    {
        proof {
            lemma_entries_map_lookup(self.entries@, key@);
        }
        let mut i = self.entries.len();
        while i > 0
            invariant
                i <= self.entries@.len(),
                forall|j: int| i <= j < self.entries@.len() ==> #[trigger] self.entries@[j].key@ != key@,
                -1 <= last_index(self.entries@, key@) < self.entries@.len(),
                last_index(self.entries@, key@) >= 0 ==> self.entries@[last_index(self.entries@, key@)].key@ == key@,
                forall|j: int| last_index(self.entries@, key@) < j < self.entries@.len() ==> #[trigger] self.entries@[j].key@ != key@,
            decreases i,
        {
            i = i - 1;
            if str_eq(self.entries[i].key.as_str(), key) {
                return Some(i);
            }
        }
        None
    }

    /// The value of `key`, if the table holds it.
    pub fn get(&self, key: &str) -> (r: Option<&ConfigValue>)
        ensures
            r is Some <==> self@.contains_key(key@),
            r matches Some(v) ==> v.node() == self@[key@],
    {
        proof {
            lemma_entries_map_lookup(self.entries@, key@);
        }
        match self.position(key) {
            Some(i) => Some(&self.entries[i].value),
            None => None,
        }
    }

    /// Sets `key` to `value`, replacing what it held.
    pub fn insert(&mut self, key: String, value: ConfigValue)
        ensures
            final(self)@ == old(self)@.insert(key@, value.node()),
            old(self).wf() && value_wf(value) ==> final(self).wf(),
    {
        proof {
            lemma_entries_map_lookup(self.entries@, key@);
        }
        match self.position(key.as_str()) {
            Some(i) => {
                let ghost e = ConfigEntry { key, value };
                proof {
                    lemma_entries_map_update(self.entries@, i as int, e);
                    if old(self).wf() && value_wf(value) {
                        lemma_entries_wf_update(self.entries@, i as int, e);
                    }
                }
                self.entries.set(i, ConfigEntry { key, value });
            },
            None => {
                let ghost old_entries = self.entries@;
                self.entries.push(ConfigEntry { key, value });
                assert(self.entries@.drop_last() =~= old_entries);
                assert(self.entries@.last().key@ == key@);
            },
        }
    }
}

} // verus!
