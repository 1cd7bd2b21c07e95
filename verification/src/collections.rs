//! The collections of the project map: maps that list their keys in order, the import registry,
//! sets of paths and the dependency graph.
use vstd::hash_map::StringHashMap;
use vstd::hash_set::StringHashSet;
use vstd::prelude::*;

use crate::order;
use crate::text;

verus! {

// ---------------------------------------------------------------------------
// Association lists
// ---------------------------------------------------------------------------

/// The map that a list of pairs describes; of two pairs with one key the later counts.
pub open spec fn map_of<B>(pairs: Seq<(Seq<char>, B)>) -> Map<Seq<char>, B>
    decreases pairs.len(),
{
    if pairs.len() == 0 {
        Map::empty()
    } else {
        map_of(pairs.drop_last()).insert(pairs.last().0, pairs.last().1)
    }
}

/// No two pairs have the same key.
pub open spec fn distinct_keys<B>(pairs: Seq<(Seq<char>, B)>) -> bool {
    forall|i: int, j: int| 0 <= i < j < pairs.len() ==> pairs[i].0 != pairs[j].0
}

/// The keys come one before the next.
pub open spec fn increasing_keys<B>(pairs: Seq<(Seq<char>, B)>) -> bool {
    forall|i: int, j: int| 0 <= i < j < pairs.len() ==> order::before(pairs[i].0, pairs[j].0)
}

/// The keys of the map are those of the pairs.
pub proof fn lemma_map_of_keys<B>(pairs: Seq<(Seq<char>, B)>, k: Seq<char>)
    ensures
        map_of(pairs).contains_key(k) <==> exists|i: int|
            0 <= i < pairs.len() && (#[trigger] pairs[i]).0 == k,
    decreases pairs.len(),
{
    if pairs.len() > 0 {
        let front = pairs.drop_last();
        lemma_map_of_keys(front, k);
        assert forall|i: int| 0 <= i < front.len() implies #[trigger] front[i] == pairs[i] by {}
        if map_of(pairs).contains_key(k) {
            if k == pairs.last().0 {
                assert(pairs[pairs.len() - 1].0 == k);
            } else {
                let i = choose|i: int| 0 <= i < front.len() && (#[trigger] front[i]).0 == k;
                assert(pairs[i].0 == k);
            }
        }
        if exists|i: int| 0 <= i < pairs.len() && (#[trigger] pairs[i]).0 == k {
            let i = choose|i: int| 0 <= i < pairs.len() && (#[trigger] pairs[i]).0 == k;
            if i < front.len() {
                assert(front[i].0 == k);
            }
        }
    }
}

/// With distinct keys each pair is an entry of the map.
pub proof fn lemma_map_of_entry<B>(pairs: Seq<(Seq<char>, B)>, i: int)
    requires
        distinct_keys(pairs),
        0 <= i < pairs.len(),
    ensures
        map_of(pairs).contains_key(pairs[i].0),
        map_of(pairs)[pairs[i].0] == pairs[i].1,
    decreases pairs.len(),
{
    if i < pairs.len() - 1 {
        assert(pairs.drop_last()[i] == pairs[i]);
        lemma_map_of_entry(pairs.drop_last(), i);
    }
}

/// Increasing keys are distinct.
pub proof fn lemma_increasing_distinct<B>(pairs: Seq<(Seq<char>, B)>)
    requires
        increasing_keys(pairs),
    ensures
        distinct_keys(pairs),
{
    assert forall|i: int, j: int| 0 <= i < j < pairs.len() implies pairs[i].0 != pairs[j].0 by {
        order::lemma_before_irreflexive(pairs[i].0);
    }
}

/// Replacing the value of one pair replaces it in the map.
pub proof fn lemma_map_of_update<B>(pairs: Seq<(Seq<char>, B)>, at: int, v: B)
    requires
        distinct_keys(pairs),
        0 <= at < pairs.len(),
    ensures
        map_of(pairs.update(at, (pairs[at].0, v))) == map_of(pairs).insert(pairs[at].0, v),
{
    let changed = pairs.update(at, (pairs[at].0, v));
    lemma_same_map(changed, map_of(pairs).insert(pairs[at].0, v), pairs, at);
}

proof fn lemma_same_map<B>(
    changed: Seq<(Seq<char>, B)>,
    m: Map<Seq<char>, B>,
    pairs: Seq<(Seq<char>, B)>,
    at: int,
)
    requires
        distinct_keys(pairs),
        0 <= at < pairs.len(),
        changed == pairs.update(at, (pairs[at].0, changed[at].1)),
        m == map_of(pairs).insert(pairs[at].0, changed[at].1),
    ensures
        map_of(changed) == m,
{
    assert(distinct_keys(changed));
    assert forall|k: Seq<char>| map_of(changed).contains_key(k) <==> m.contains_key(k) by {
        lemma_map_of_keys(changed, k);
        lemma_map_of_keys(pairs, k);
        if map_of(changed).contains_key(k) {
            let i = choose|i: int| 0 <= i < changed.len() && (#[trigger] changed[i]).0 == k;
            assert(pairs[i].0 == k);
        }
        if m.contains_key(k) {
            if k == pairs[at].0 {
                assert(changed[at].0 == k);
            } else {
                let i = choose|i: int| 0 <= i < pairs.len() && (#[trigger] pairs[i]).0 == k;
                assert(changed[i].0 == k);
            }
        }
    }
    assert forall|k: Seq<char>| #[trigger] map_of(changed).contains_key(k) implies map_of(
        changed,
    )[k] == m[k] by {
        lemma_map_of_keys(changed, k);
        let i = choose|i: int| 0 <= i < changed.len() && (#[trigger] changed[i]).0 == k;
        lemma_map_of_entry(changed, i);
        lemma_map_of_entry(pairs, i);
    }
    assert(map_of(changed) =~= m);
}

/// Inserting a pair with a new key adds it to the map.
pub proof fn lemma_map_of_insert<B>(pairs: Seq<(Seq<char>, B)>, at: int, key: Seq<char>, v: B)
    requires
        distinct_keys(pairs),
        0 <= at <= pairs.len(),
        forall|i: int| 0 <= i < pairs.len() ==> (#[trigger] pairs[i]).0 != key,
    ensures
        distinct_keys(pairs.insert(at, (key, v))),
        map_of(pairs.insert(at, (key, v))) == map_of(pairs).insert(key, v),
{
    let longer = pairs.insert(at, (key, v));
    let m = map_of(pairs).insert(key, v);
    assert forall|i: int| 0 <= i < longer.len() implies #[trigger] longer[i] == if i < at {
        pairs[i]
    } else if i == at {
        (key, v)
    } else {
        pairs[i - 1]
    } by {}
    assert(distinct_keys(longer));
    assert forall|k: Seq<char>| map_of(longer).contains_key(k) <==> m.contains_key(k) by {
        lemma_map_of_keys(longer, k);
        lemma_map_of_keys(pairs, k);
        if map_of(longer).contains_key(k) && k != key {
            let i = choose|i: int| 0 <= i < longer.len() && (#[trigger] longer[i]).0 == k;
            if i < at {
                assert(pairs[i].0 == k);
            } else {
                assert(pairs[i - 1].0 == k);
            }
        }
        if m.contains_key(k) {
            if k == key {
                assert(longer[at].0 == k);
            } else {
                let i = choose|i: int| 0 <= i < pairs.len() && (#[trigger] pairs[i]).0 == k;
                if i < at {
                    assert(longer[i].0 == k);
                } else {
                    assert(longer[i + 1].0 == k);
                }
            }
        }
    }
    assert forall|k: Seq<char>| #[trigger] map_of(longer).contains_key(k) implies map_of(longer)[k]
        == m[k] by {
        lemma_map_of_keys(longer, k);
        let i = choose|i: int| 0 <= i < longer.len() && (#[trigger] longer[i]).0 == k;
        lemma_map_of_entry(longer, i);
        if i < at {
            lemma_map_of_entry(pairs, i);
        } else if i > at {
            lemma_map_of_entry(pairs, i - 1);
        }
    }
    assert(map_of(longer) =~= m);
}

/// The entries of a map in the order of their keys.
pub open spec fn listed<B>(m: Map<Seq<char>, B>) -> Seq<(Seq<char>, B)> {
    choose|s: Seq<(Seq<char>, B)>| increasing_keys(s) && map_of(s) == m
}

/// There is one way to list the entries of a map in the order of their keys.
pub proof fn listing_is_unique<B>(a: Seq<(Seq<char>, B)>, b: Seq<(Seq<char>, B)>)
    requires
        increasing_keys(a),
        increasing_keys(b),
        map_of(a) == map_of(b),
    ensures
        a == b,
    decreases a.len(),
{
    lemma_increasing_distinct(a);
    lemma_increasing_distinct(b);
    if a.len() == 0 || b.len() == 0 {
        if b.len() > 0 {
            lemma_map_of_entry(b, 0);
        }
        if a.len() > 0 {
            lemma_map_of_entry(a, 0);
        }
        assert(a =~= b);
    } else {
        let i = a.len() - 1;
        let j = b.len() - 1;
        lemma_map_of_entry(a, i);
        lemma_map_of_entry(b, j);
        lemma_map_of_keys(b, a[i].0);
        lemma_map_of_keys(a, b[j].0);
        let at_b = choose|k: int| 0 <= k < b.len() && (#[trigger] b[k]).0 == a[i].0;
        let at_a = choose|k: int| 0 <= k < a.len() && (#[trigger] a[k]).0 == b[j].0;
        if at_b != j {
            order::lemma_before_irreflexive(a[i].0);
            if at_a != i {
                order::lemma_before_transitive(a[i].0, b[j].0, a[i].0);
            }
        }
        assert(a[i].0 == b[j].0);
        lemma_drop_last_key(a);
        lemma_drop_last_key(b);
        listing_is_unique(a.drop_last(), b.drop_last());
        assert(a =~= a.drop_last().push(a[i]));
        assert(b =~= b.drop_last().push(b[j]));
    }
}

proof fn lemma_drop_last_key<B>(pairs: Seq<(Seq<char>, B)>)
    requires
        distinct_keys(pairs),
        pairs.len() > 0,
    ensures
        map_of(pairs.drop_last()) == map_of(pairs).remove(pairs.last().0),
{
    let front = pairs.drop_last();
    let k = pairs.last().0;
    lemma_map_of_keys(front, k);
    assert forall|i: int| 0 <= i < front.len() implies (#[trigger] front[i]).0 != k by {
        assert(pairs[i].0 != pairs[pairs.len() - 1].0);
    }
    assert(map_of(front) =~= map_of(pairs).remove(k));
}

// ---------------------------------------------------------------------------
// Maps that list their keys in order
// ---------------------------------------------------------------------------

/// A map from strings that lists its entries in the order of their keys.
#[derive(Debug, Clone)]
pub struct SortedMap<V> {
    entries: Vec<(String, V)>,
}

impl<V: View> View for SortedMap<V> {
    type V = Seq<(Seq<char>, V::V)>;

    /// The entries in the order of their keys.
    closed spec fn view(&self) -> Seq<(Seq<char>, V::V)> {
        self.entries@.map_values(|e: (String, V)| (e.0@, e.1@))
    }
}

impl<V: View> SortedMap<V> {
    /// The keys are in order and none occurs twice.
    pub open spec fn wf(&self) -> bool {
        increasing_keys(self@)
    }

    /// The map.
    pub open spec fn map(&self) -> Map<Seq<char>, V::V> {
        map_of(self@)
    }

    /// The entries are those of the map, listed in the order of their keys.
    pub proof fn lemma_listed(&self)
        requires
            self.wf(),
        ensures
            self@ == listed(self.map()),
    {
        let l = listed(self.map());
        assert(increasing_keys(l) && map_of(l) == self.map());
        listing_is_unique(self@, l);
    }

    /// A map without entries.
    pub fn new() -> (r: Self)
        ensures
            r.wf(),
            r@ == Seq::<(Seq<char>, V::V)>::empty(),
            r.map() == Map::<Seq<char>, V::V>::empty(),
    {
        let r = SortedMap { entries: Vec::new() };
        assert(r@ =~= seq![]);
        r
    }

    /// The number of entries.
    pub fn len(&self) -> (r: usize)
        ensures
            r == self@.len(),
    {
        self.entries.len()
    }

    /// Whether there is no entry.
    pub fn is_empty(&self) -> (r: bool)
        ensures
            r == (self@.len() == 0),
    {
        self.entries.len() == 0
    }

    /// The key at a place in the order.
    pub fn key_at(&self, i: usize) -> (r: &String)
        requires
            i < self@.len(),
        ensures
            r@ == self@[i as int].0,
    {
        &self.entries[i].0
    }

    /// The value at a place in the order.
    pub fn value_at(&self, i: usize) -> (r: &V)
        requires
            i < self@.len(),
        ensures
            r@ == self@[i as int].1,
    {
        &self.entries[i].1
    }

    /// The value of a key.
    pub fn get(&self, key: &str) -> (r: Option<&V>)
        requires
            self.wf(),
        ensures
            match r {
                Some(v) => self.map().contains_key(key@) && self.map()[key@] == v@,
                None => !self.map().contains_key(key@),
            },
    {
        proof {
            lemma_increasing_distinct(self@);
        }
        for i in 0..self.entries.len()
            invariant
                distinct_keys(self@),
                forall|j: int| 0 <= j < i ==> (#[trigger] self@[j]).0 != key@,
        {
            if text::str_same(self.entries[i].0.as_str(), key) {
                proof {
                    lemma_map_of_entry(self@, i as int);
                }
                return Some(&self.entries[i].1);
            }
            assert(self@[i as int].0 != key@);
        }
        proof {
            lemma_map_of_keys(self@, key@);
        }
        None
    }

    /// Whether a key has a value.
    pub fn contains_key(&self, key: &str) -> (r: bool)
        requires
            self.wf(),
        ensures
            r == self.map().contains_key(key@),
    {
        match self.get(key) {
            Some(_) => true,
            None => false,
        }
    }

    /// Gives a key a value, in place of the one it may have had.
    pub fn insert(&mut self, key: String, value: V)
        requires
            old(self).wf(),
        ensures
            final(self).wf(),
            final(self).map() == old(self).map().insert(key@, value@),
    {
        let name = text::chars_of(key.as_str());
        let mut at: usize = 0;
        let ghost pairs = self@;
        proof {
            lemma_increasing_distinct(pairs);
        }
        while at < self.entries.len()
            invariant
                self@ == pairs,
                name@ == key@,
                at <= pairs.len(),
                pairs.len() == self.entries@.len(),
                forall|j: int| 0 <= j < at ==> order::before((#[trigger] pairs[j]).0, key@),
            ensures
                at == pairs.len() || !order::before(pairs[at as int].0, key@),
            decreases pairs.len() - at,
        {
            let here = text::chars_of(self.entries[at].0.as_str());
            if !order::comes_before(here.as_slice(), name.as_slice()) {
                break;
            }
            at += 1;
        }
        if at < self.entries.len() && text::str_same(self.entries[at].0.as_str(), key.as_str()) {
            self.entries[at] = (key, value);
            proof {
                assert(self@ =~= pairs.update(at as int, (pairs[at as int].0, value@)));
                lemma_map_of_update(pairs, at as int, value@);
            }
        } else {
            proof {
                assert forall|i: int| at <= i < pairs.len() implies order::before(
                    key@,
                    (#[trigger] pairs[i]).0,
                ) by {
                    order::lemma_before_total(pairs[at as int].0, key@);
                    if i > at {
                        order::lemma_before_transitive(key@, pairs[at as int].0, pairs[i].0);
                    }
                }
                assert forall|i: int| 0 <= i < pairs.len() implies (#[trigger] pairs[i]).0
                    != key@ by {
                    order::lemma_before_irreflexive(key@);
                }
                lemma_map_of_insert(pairs, at as int, key@, value@);
            }
            self.entries.insert(at, (key, value));
            proof {
                let longer = pairs.insert(at as int, (key@, value@));
                assert(self@ =~= longer);
                assert forall|i: int, j: int| 0 <= i < j < longer.len() implies order::before(
                    longer[i].0,
                    longer[j].0,
                ) by {
                    let a = if i < at { pairs[i].0 } else if i == at { key@ } else { pairs[i - 1].0 };
                    let b = if j < at { pairs[j].0 } else if j == at { key@ } else { pairs[j - 1].0 };
                    assert(longer[i].0 == a && longer[j].0 == b);
                }
            }
        }
    }
}

// ---------------------------------------------------------------------------
// The import registry
// ---------------------------------------------------------------------------

/// What importable names stand for: each key has the path of one file.
pub struct ImportRegistry {
    files: StringHashMap<String>,
}

impl View for ImportRegistry {
    type V = Map<Seq<char>, Seq<char>>;

    closed spec fn view(&self) -> Map<Seq<char>, Seq<char>> {
        self.files@.map_values(|s: String| s@)
    }
}

/// A registry after one more registration: the first registration of a key wins.
pub open spec fn registered(
    map: Map<Seq<char>, Seq<char>>,
    key: Seq<char>,
    value: Seq<char>,
) -> Map<Seq<char>, Seq<char>> {
    if map.contains_key(key) {
        map
    } else {
        map.insert(key, value)
    }
}

impl ImportRegistry {
    /// A registry without keys.
    pub fn new() -> (r: Self)
        ensures
            r@ == Map::<Seq<char>, Seq<char>>::empty(),
    {
        let r = ImportRegistry { files: StringHashMap::new() };
        assert(r@ =~= Map::empty());
        r
    }

    /// The path that a key stands for.
    pub fn get(&self, key: &str) -> (r: Option<String>)
        ensures
            match r {
                Some(v) => self@.contains_key(key@) && self@[key@] == v@,
                None => !self@.contains_key(key@),
            },
    {
        match self.files.get(key) {
            Some(v) => Some(v.clone()),
            None => None,
        }
    }
}

/// Registers a key unless it is registered already, so that the order of the files decides
/// between two that offer the same key.
pub fn register(map: &mut ImportRegistry, key: &str, value: &str)
    ensures
        final(map)@ == registered(old(map)@, key@, value@),
{
    if !map.files.contains_key(key) {
        map.files.insert(key.to_owned(), value.to_owned());
    }
    assert(map@ =~= registered(old(map)@, key@, value@));
}

// ---------------------------------------------------------------------------
// Sets of paths
// ---------------------------------------------------------------------------

/// A set of file paths.
pub struct PathSet {
    paths: StringHashSet,
}

impl View for PathSet {
    type V = Set<Seq<char>>;

    closed spec fn view(&self) -> Set<Seq<char>> {
        self.paths@
    }
}

impl PathSet {
    /// The empty set.
    pub fn new() -> (r: Self)
        ensures
            r@ == Set::<Seq<char>>::empty(),
    {
        PathSet { paths: StringHashSet::new() }
    }

    /// Adds a path.
    pub fn insert(&mut self, path: &str)
        ensures
            final(self)@ == old(self)@.insert(path@),
    {
        self.paths.insert(path.to_owned());
    }

    /// Whether a path is in the set.
    pub fn contains(&self, path: &str) -> (r: bool)
        ensures
            r == self@.contains(path@),
    {
        self.paths.contains(path)
    }
}

// ---------------------------------------------------------------------------
// Counts
// ---------------------------------------------------------------------------

/// How often paths were counted.
pub struct PathCounts {
    counts: StringHashMap<usize>,
}

impl PathCounts {
    /// How often a path was counted.
    pub closed spec fn count(&self, path: Seq<char>) -> nat {
        if self.counts@.contains_key(path) {
            self.counts@[path] as nat
        } else {
            0
        }
    }

    /// Nothing is counted yet.
    pub fn new() -> (r: Self)
        ensures
            forall|p: Seq<char>| #[trigger] r.count(p) == 0,
    {
        PathCounts { counts: StringHashMap::new() }
    }

    /// How often a path was counted.
    pub fn get(&self, path: &str) -> (r: usize)
        ensures
            r == self.count(path@),
    {
        match self.counts.get(path) {
            Some(n) => *n,
            None => 0,
        }
    }

    /// Counts a path once more.
    pub fn increment(&mut self, path: &str)
        requires
            old(self).count(path@) < usize::MAX,
        ensures
            forall|p: Seq<char>| #[trigger]
                final(self).count(p) == if p == path@ {
                    old(self).count(p) + 1
                } else {
                    old(self).count(p)
                },
    {
        let n: usize = self.get(path);
        self.counts.insert(path.to_owned(), n + 1);
    }
}

// ---------------------------------------------------------------------------
// The dependency graph
// ---------------------------------------------------------------------------

/// The files that each file imports from.
pub struct DepGraph {
    entries: Vec<(String, Vec<String>)>,
    index: StringHashMap<usize>,
}

impl View for DepGraph {
    type V = Seq<(Seq<char>, Seq<Seq<char>>)>;

    /// The files in the order in which they came in, each with the files it imports from.
    closed spec fn view(&self) -> Seq<(Seq<char>, Seq<Seq<char>>)> {
        self.entries@.map_values(|e: (String, Vec<String>)| (e.0@, text::texts(e.1@)))
    }
}

/// How often `p` stands in a list.
pub open spec fn occurrences(s: Seq<Seq<char>>, p: Seq<char>) -> nat
    decreases s.len(),
{
    if s.len() == 0 {
        0
    } else if s.last() == p {
        occurrences(s.drop_last(), p) + 1
    } else {
        occurrences(s.drop_last(), p)
    }
}

/// How often the files of a graph name `p` among what they import from.
pub open spec fn dependents(graph: Seq<(Seq<char>, Seq<Seq<char>>)>, p: Seq<char>) -> nat
    decreases graph.len(),
{
    if graph.len() == 0 {
        0
    } else {
        dependents(graph.drop_last(), p) + occurrences(graph.last().1, p)
    }
}

/// The place of a file in a graph.
pub open spec fn key_place<B>(pairs: Seq<(Seq<char>, B)>, key: Seq<char>) -> Option<int>
    decreases pairs.len(),
{
    if pairs.len() == 0 {
        None
    } else if pairs.last().0 == key {
        Some(pairs.len() - 1)
    } else {
        key_place(pairs.drop_last(), key)
    }
}

/// Pairs after one more is recorded: in the place of the one with its key, or behind all others.
pub open spec fn recorded<B>(pairs: Seq<(Seq<char>, B)>, key: Seq<char>, v: B) -> Seq<
    (Seq<char>, B),
> {
    match key_place(pairs, key) {
        Some(i) => pairs.update(i, (key, v)),
        None => pairs.push((key, v)),
    }
}

/// Pairs after some more are recorded, one after the other.
pub open spec fn all_recorded<B>(pairs: Seq<(Seq<char>, B)>) -> Seq<(Seq<char>, B)>
    decreases pairs.len(),
{
    if pairs.len() == 0 {
        seq![]
    } else {
        recorded(all_recorded(pairs.drop_last()), pairs.last().0, pairs.last().1)
    }
}

/// With distinct keys the place of a key is where it stands.
pub proof fn lemma_key_place<B>(pairs: Seq<(Seq<char>, B)>, key: Seq<char>)
    ensures
        match key_place(pairs, key) {
            Some(i) => 0 <= i < pairs.len() && pairs[i].0 == key,
            None => forall|i: int| 0 <= i < pairs.len() ==> (#[trigger] pairs[i]).0 != key,
        },
    decreases pairs.len(),
{
    if pairs.len() > 0 && pairs.last().0 != key {
        let front = pairs.drop_last();
        lemma_key_place(front, key);
        assert forall|i: int| 0 <= i < front.len() implies #[trigger] pairs[i] == front[i] by {}
    }
}

/// A text occurs no more often in the first part of a list than in all of it.
pub proof fn lemma_occurrences_grow(s: Seq<Seq<char>>, p: Seq<char>, n: int)
    requires
        0 <= n <= s.len(),
    ensures
        occurrences(s.take(n), p) <= occurrences(s, p),
    decreases s.len(),
{
    if n < s.len() {
        lemma_occurrences_grow(s.drop_last(), p, n);
        assert(s.drop_last().take(n) =~= s.take(n));
    } else {
        assert(s.take(n) =~= s);
    }
}

/// A file has no more dependents in the first part of a graph than in all of it.
pub proof fn lemma_dependents_grow(
    graph: Seq<(Seq<char>, Seq<Seq<char>>)>,
    p: Seq<char>,
    n: int,
)
    requires
        0 <= n <= graph.len(),
    ensures
        dependents(graph.take(n), p) <= dependents(graph, p),
    decreases graph.len(),
{
    if n < graph.len() {
        lemma_dependents_grow(graph.drop_last(), p, n);
        assert(graph.drop_last().take(n) =~= graph.take(n));
    } else {
        assert(graph.take(n) =~= graph);
    }
}

/// Counts how often the files of a graph name each path among what they import from.
pub fn count_dependents(graph: &DepGraph) -> (r: PathCounts)
    requires
        forall|p: Seq<char>| #[trigger] dependents(graph@, p) <= usize::MAX,
    ensures
        forall|p: Seq<char>| #[trigger] r.count(p) == dependents(graph@, p),
{
    let ghost all = graph@;
    let mut counts = PathCounts::new();
    assert(all.take(0) =~= seq![]);
    let n: usize = graph.len();
    for i in 0..n
        invariant
            n == all.len(),
            all == graph@,
            forall|p: Seq<char>| #[trigger] dependents(all, p) <= usize::MAX,
            forall|p: Seq<char>| #[trigger] counts.count(p) == dependents(all.take(i as int), p),
    {
        let deps = graph.dependencies_at(i);
        let ghost names = all[i as int].1;
        let ghost longer = all.take(i + 1);
        assert(longer.drop_last() =~= all.take(i as int));
        assert(longer.last() == all[i as int]);
        assert(names.take(0) =~= seq![]);
        for j in 0..deps.len()
            invariant
                i < all.len(),
                longer == all.take(i + 1),
                longer.drop_last() == all.take(i as int),
                longer.last() == all[i as int],
                names == all[i as int].1,
                names == text::texts(deps@),
                forall|p: Seq<char>| #[trigger] dependents(all, p) <= usize::MAX,
                forall|p: Seq<char>| #[trigger]
                    counts.count(p) == dependents(all.take(i as int), p) + occurrences(
                        names.take(j as int),
                        p,
                    ),
        {
            let ghost next = names.take(j + 1);
            let ghost dep = deps@[j as int]@;
            proof {
                assert(next.drop_last() =~= names.take(j as int));
                assert(next.last() == dep);
                lemma_occurrences_grow(names, dep, j + 1);
                lemma_dependents_grow(all, dep, i + 1);
                assert(dependents(all, dep) <= usize::MAX);
            }
            counts.increment(deps[j].as_str());
        }
        assert(names.take(deps@.len() as int) =~= names);
    }
    assert(all.take(graph@.len() as int) =~= all);
    counts
}

impl DepGraph {
    /// No file occurs twice.
    pub closed spec fn wf(&self) -> bool {
        &&& distinct_keys(self@)
        &&& forall|i: int|
            0 <= i < self@.len() ==> self.index@.contains_key((#[trigger] self@[i]).0)
                && self.index@[self@[i].0] == i
        &&& forall|k: Seq<char>| #[trigger]
            self.index@.contains_key(k) ==> self.index@[k] < self@.len()
                && self@[self.index@[k] as int].0 == k
    }

    /// The files that each file imports from, as a map.
    pub open spec fn map(&self) -> Map<Seq<char>, Seq<Seq<char>>> {
        map_of(self@)
    }

    /// A graph without files.
    pub fn new() -> (r: Self)
        ensures
            r.wf(),
            r@ == Seq::<(Seq<char>, Seq<Seq<char>>)>::empty(),
            r.map() == Map::<Seq<char>, Seq<Seq<char>>>::empty(),
    {
        let r = DepGraph { entries: Vec::new(), index: StringHashMap::new() };
        assert(r@ =~= seq![]);
        r
    }

    /// The number of files.
    pub fn len(&self) -> (r: usize)
        ensures
            r == self@.len(),
    {
        self.entries.len()
    }

    /// What the file at a place imports from.
    pub fn dependencies_at(&self, i: usize) -> (r: &Vec<String>)
        requires
            i < self@.len(),
        ensures
            text::texts(r@) == self@[i as int].1,
    {
        &self.entries[i].1
    }

    /// What a file imports from.
    pub fn get(&self, file: &str) -> (r: Option<&Vec<String>>)
        requires
            self.wf(),
        ensures
            match r {
                Some(v) => self.map().contains_key(file@) && self.map()[file@] == text::texts(v@),
                None => !self.map().contains_key(file@),
            },
    {
        match self.index.get(file) {
            Some(i) => {
                proof {
                    lemma_map_of_entry(self@, *i as int);
                }
                Some(&self.entries[*i].1)
            },
            None => {
                proof {
                    lemma_map_of_keys(self@, file@);
                }
                None
            },
        }
    }

    /// Records what a file imports from, in place of what was recorded before.
    pub fn insert(&mut self, file: String, deps: Vec<String>)
        requires
            old(self).wf(),
        ensures
            final(self).wf(),
            final(self)@ == recorded(old(self)@, file@, text::texts(deps@)),
            final(self).map() == old(self).map().insert(file@, text::texts(deps@)),
    {
        let ghost pairs = self@;
        proof {
            lemma_key_place(pairs, file@);
        }
        let found: Option<usize> = match self.index.get(file.as_str()) {
            Some(i) => Some(*i),
            None => None,
        };
        match found {
            Some(i) => {
                self.entries[i] = (file, deps);
                proof {
                    assert(self@ =~= pairs.update(i as int, (pairs[i as int].0, text::texts(deps@))));
                    lemma_map_of_update(pairs, i as int, text::texts(deps@));
                }
            },
            None => {
                let n: usize = self.entries.len();
                proof {
                    assert forall|i: int| 0 <= i < pairs.len() implies (#[trigger] pairs[i]).0
                        != file@ by {}
                    lemma_map_of_insert(pairs, n as int, file@, text::texts(deps@));
                }
                self.index.insert(file.clone(), n);
                self.entries.push((file, deps));
                proof {
                    let longer = pairs.insert(n as int, (file@, text::texts(deps@)));
                    assert(self@ =~= longer);
                    assert forall|i: int| 0 <= i < self@.len() implies self.index@.contains_key(
                        (#[trigger] self@[i]).0,
                    ) && self.index@[self@[i].0] == i by {
                        if i < n {
                            assert(self@[i] == pairs[i]);
                        }
                    }
                    assert forall|k: Seq<char>| #[trigger]
                        self.index@.contains_key(k) implies self.index@[k] < self@.len()
                        && self@[self.index@[k] as int].0 == k by {
                        if k != file@ {
                            let i = self.index@[k] as int;
                            assert(pairs[i].0 == k);
                            assert(self@[i] == pairs[i]);
                        }
                    }
                }
            },
        }
    }
}

} // verus!
