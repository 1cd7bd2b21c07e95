//! The order of strings, and sorting by it.
use vstd::prelude::*;

use crate::text;

verus! {

/// `a` comes before `b`: at the first place where they differ it has the smaller character, or
/// it is a proper start of `b`.
pub open spec fn before(a: Seq<char>, b: Seq<char>) -> bool
    decreases a.len(),
{
    if b.len() == 0 {
        false
    } else if a.len() == 0 {
        true
    } else if a[0] == b[0] {
        before(a.drop_first(), b.drop_first())
    } else {
        a[0] < b[0]
    }
}

/// No string comes before itself.
pub proof fn lemma_before_irreflexive(a: Seq<char>)
    ensures
        !before(a, a),
    decreases a.len(),
{
    if a.len() > 0 {
        lemma_before_irreflexive(a.drop_first());
    }
}

/// Of two different strings one comes before the other.
pub proof fn lemma_before_total(a: Seq<char>, b: Seq<char>)
    ensures
        before(a, b) || before(b, a) || a == b,
    decreases a.len(),
{
    if a.len() == 0 || b.len() == 0 {
        assert(a.len() == b.len() ==> a =~= b);
    } else if a[0] == b[0] {
        lemma_before_total(a.drop_first(), b.drop_first());
        if a.drop_first() == b.drop_first() {
            assert(a =~= seq![a[0]] + a.drop_first());
            assert(b =~= seq![b[0]] + b.drop_first());
        }
    }
}

/// The order is transitive.
pub proof fn lemma_before_transitive(a: Seq<char>, b: Seq<char>, c: Seq<char>)
    requires
        before(a, b),
        before(b, c),
    ensures
        before(a, c),
    decreases a.len(),
{
    if a.len() > 0 && a[0] == b[0] && b[0] == c[0] {
        lemma_before_transitive(a.drop_first(), b.drop_first(), c.drop_first());
    }
}

/// Whether one text comes before another.
pub fn comes_before(x: &[char], y: &[char]) -> (r: bool)
    ensures
        r == before(x@, y@),
{
    let mut i: usize = 0;
    assert(x@.skip(0) =~= x@);
    assert(y@.skip(0) =~= y@);
    while i < x.len() && i < y.len()
        invariant
            i <= x@.len(),
            i <= y@.len(),
            before(x@, y@) == before(x@.skip(i as int), y@.skip(i as int)),
        decreases x@.len() - i,
    {
        if x[i] != y[i] {
            return x[i] < y[i];
        }
        assert(x@.skip(i as int).drop_first() =~= x@.skip(i + 1));
        assert(y@.skip(i as int).drop_first() =~= y@.skip(i + 1));
        i += 1;
    }
    i < y.len()
}

// ---------------------------------------------------------------------------
// Orderings
// ---------------------------------------------------------------------------

/// Item `i` is to stand before item `j`: it has the higher rank, or at equal ranks the name that
/// comes first, or at equal names the smaller index.
pub open spec fn key_before(keys: Seq<(int, Seq<char>)>, i: int, j: int) -> bool {
    if keys[i].0 != keys[j].0 {
        keys[i].0 > keys[j].0
    } else if keys[i].1 != keys[j].1 {
        before(keys[i].1, keys[j].1)
    } else {
        i < j
    }
}

/// `order` lists the indices of `keys`, each once, every one before those that follow it.
pub open spec fn is_ordering(keys: Seq<(int, Seq<char>)>, order: Seq<int>) -> bool {
    &&& order.len() == keys.len()
    &&& forall|a: int| 0 <= a < order.len() ==> 0 <= #[trigger] order[a] < keys.len()
    &&& forall|i: int| 0 <= i < keys.len() ==> #[trigger] order.contains(i)
    &&& forall|a: int, b: int| 0 <= a < b < order.len() ==> key_before(keys, order[a], order[b])
}

/// The ordering of the indices of `keys`.
pub open spec fn ordering(keys: Seq<(int, Seq<char>)>) -> Seq<int> {
    choose|order: Seq<int>| is_ordering(keys, order)
}

/// The items in the given order.
pub open spec fn arranged<A>(items: Seq<A>, order: Seq<int>) -> Seq<A> {
    Seq::new(order.len(), |a: int| items[order[a]])
}

/// The keys that order texts by themselves.
pub open spec fn plain_keys(names: Seq<Seq<char>>) -> Seq<(int, Seq<char>)> {
    names.map_values(|n: Seq<char>| (0int, n))
}

/// The texts in their order, repeated ones as often as they are given.
pub open spec fn sorted(names: Seq<Seq<char>>) -> Seq<Seq<char>> {
    arranged(names, ordering(plain_keys(names)))
}

/// No index stands both before and after another.
pub proof fn lemma_key_asymmetric(keys: Seq<(int, Seq<char>)>, i: int, j: int)
    requires
        key_before(keys, i, j),
    ensures
        !key_before(keys, j, i),
{
    if keys[i].0 == keys[j].0 && keys[i].1 != keys[j].1 {
        if before(keys[j].1, keys[i].1) {
            lemma_before_transitive(keys[i].1, keys[j].1, keys[i].1);
            lemma_before_irreflexive(keys[i].1);
        }
    }
}

/// The order of the indices is transitive.
pub proof fn lemma_key_transitive(keys: Seq<(int, Seq<char>)>, i: int, j: int, k: int)
    requires
        key_before(keys, i, j),
        key_before(keys, j, k),
    ensures
        key_before(keys, i, k),
{
    if keys[i].0 == keys[j].0 && keys[j].0 == keys[k].0 {
        if keys[i].1 != keys[j].1 && keys[j].1 != keys[k].1 {
            lemma_before_transitive(keys[i].1, keys[j].1, keys[k].1);
            lemma_before_irreflexive(keys[i].1);
        }
    }
}

/// Of two different indices one stands before the other.
pub proof fn lemma_key_total(keys: Seq<(int, Seq<char>)>, i: int, j: int)
    requires
        i != j,
    ensures
        key_before(keys, i, j) || key_before(keys, j, i),
{
    lemma_before_total(keys[i].1, keys[j].1);
}

/// There is no more than one ordering of the same keys.
pub proof fn ordering_is_unique(keys: Seq<(int, Seq<char>)>, o1: Seq<int>, o2: Seq<int>)
    requires
        is_ordering(keys, o1),
        is_ordering(keys, o2),
    ensures
        o1 == o2,
{
    lemma_same_start(keys, o1, o2, o1.len() as int);
    assert(o1 =~= o2);
}

proof fn lemma_same_start(keys: Seq<(int, Seq<char>)>, o1: Seq<int>, o2: Seq<int>, n: int)
    requires
        is_ordering(keys, o1),
        is_ordering(keys, o2),
        0 <= n <= o1.len(),
    ensures
        forall|a: int| 0 <= a < n ==> o1[a] == o2[a],
    decreases n,
{
    if n > 0 {
        let k = n - 1;
        lemma_same_start(keys, o1, o2, k);
        if o1[k] != o2[k] {
            assert(o2.contains(o1[k]));
            let p = choose|p: int| 0 <= p < o2.len() && o2[p] == o1[k];
            assert(p > k) by {
                if p < k {
                    assert(o1[p] == o1[k]);
                    assert(key_before(keys, o1[p], o1[k]));
                    lemma_key_asymmetric(keys, o1[p], o1[k]);
                }
            }
            assert(o1.contains(o2[k]));
            let q = choose|q: int| 0 <= q < o1.len() && o1[q] == o2[k];
            assert(q > k) by {
                if q < k {
                    assert(o2[q] == o2[k]);
                    assert(key_before(keys, o2[q], o2[k]));
                    lemma_key_asymmetric(keys, o2[q], o2[k]);
                }
            }
            assert(key_before(keys, o2[k], o2[p]));
            assert(key_before(keys, o1[k], o1[q]));
            lemma_key_asymmetric(keys, o1[k], o2[k]);
        }
    }
}

/// Every list of keys has an ordering.
pub proof fn ordering_exists(keys: Seq<(int, Seq<char>)>)
    ensures
        is_ordering(keys, ordering(keys)),
{
    let n = keys.len();
    let all = Seq::new(n, |i: int| i);
    let leq = |i: int, j: int| i == j || key_before(keys, i, j);
    assert(vstd::relations::total_ordering(leq)) by {
        assert forall|i: int, j: int| #[trigger] leq(i, j) && #[trigger] leq(j, i) implies i
            == j by {
            if i != j {
                lemma_key_asymmetric(keys, i, j);
            }
        }
        assert forall|i: int, j: int, k: int| #[trigger] leq(i, j) && #[trigger] leq(
            j,
            k,
        ) implies leq(i, k) by {
            if i != j && j != k {
                lemma_key_transitive(keys, i, j, k);
            }
        }
        assert forall|i: int, j: int| #[trigger] leq(i, j) || #[trigger] leq(j, i) by {
            if i != j {
                lemma_key_total(keys, i, j);
            }
        }
    }
    all.lemma_sort_by_ensures(leq);
    let order = all.sort_by(leq);
    broadcast use vstd::seq_lib::group_to_multiset_ensures;

    assert(order.to_multiset().len() == order.len());
    assert(all.to_multiset().len() == all.len());
    assert(order.len() == n);
    assert(all.no_duplicates());
    all.lemma_multiset_has_no_duplicates();
    assert(order.to_multiset() == all.to_multiset());
    order.lemma_multiset_has_no_duplicates_conv();
    assert forall|i: int| 0 <= i < n implies #[trigger] order.contains(i) by {
        assert(all[i] == i);
        assert(all.contains(i));
        assert(all.to_multiset().count(i) > 0);
    }
    assert forall|a: int| 0 <= a < order.len() implies 0 <= #[trigger] order[a] < n by {
        assert(order.contains(order[a]));
        assert(all.contains(order[a]));
    }
    assert forall|a: int, b: int| 0 <= a < b < order.len() implies key_before(
        keys,
        order[a],
        order[b],
    ) by {
        assert(leq(order[a], order[b]));
        assert(order[a] != order[b]);
    }
    assert(is_ordering(keys, order));
}

// ---------------------------------------------------------------------------
// Sorting
// ---------------------------------------------------------------------------

/// What an item is ordered by.
pub struct Key {
    pub rank: usize,
    pub name: Vec<char>,
}

/// The keys as plain values.
pub open spec fn keys_of(keys: Seq<Key>) -> Seq<(int, Seq<char>)> {
    keys.map_values(|k: Key| (k.rank as int, k.name@))
}

/// Machine indices as integers.
pub open spec fn ints(v: Seq<usize>) -> Seq<int> {
    v.map_values(|i: usize| i as int)
}

/// `run` lists the indices from `lo` to `hi` in order.
spec fn is_run(keys: Seq<(int, Seq<char>)>, run: Seq<usize>, lo: int, hi: int) -> bool {
    &&& run.len() == hi - lo
    &&& forall|a: int| 0 <= a < run.len() ==> lo <= #[trigger] run[a] < hi
    &&& forall|i: usize| lo <= i < hi ==> #[trigger] run.contains(i)
    &&& forall|a: int, b: int|
        0 <= a < b < run.len() ==> key_before(keys, run[a] as int, run[b] as int)
}

fn stands_before(keys: &Vec<Key>, i: usize, j: usize) -> (r: bool)
    requires
        i < keys@.len(),
        j < keys@.len(),
    ensures
        r == key_before(keys_of(keys@), i as int, j as int),
{
    if keys[i].rank != keys[j].rank {
        keys[i].rank > keys[j].rank
    } else if !text::same(keys[i].name.as_slice(), keys[j].name.as_slice()) {
        comes_before(keys[i].name.as_slice(), keys[j].name.as_slice())
    } else {
        i < j
    }
}

fn merge(keys: &Vec<Key>, x: &Vec<usize>, y: &Vec<usize>, lo: usize, mid: usize, hi: usize) -> (r:
    Vec<usize>)
    requires
        lo <= mid <= hi <= keys@.len(),
        is_run(keys_of(keys@), x@, lo as int, mid as int),
        is_run(keys_of(keys@), y@, mid as int, hi as int),
    ensures
        is_run(keys_of(keys@), r@, lo as int, hi as int),
{
    let ghost k = keys_of(keys@);
    let mut out: Vec<usize> = Vec::new();
    let mut i: usize = 0;
    let mut j: usize = 0;
    while i < x.len() || j < y.len()
        invariant
            lo <= mid <= hi <= keys@.len(),
            k == keys_of(keys@),
            is_run(k, x@, lo as int, mid as int),
            is_run(k, y@, mid as int, hi as int),
            i <= x@.len(),
            j <= y@.len(),
            out@.len() == i + j,
            forall|a: int| 0 <= a < out@.len() ==> lo <= #[trigger] out@[a] < hi,
            forall|a: int| 0 <= a < i ==> #[trigger] out@.contains(x@[a]),
            forall|a: int| 0 <= a < j ==> #[trigger] out@.contains(y@[a]),
            forall|a: int, b: int|
                0 <= a < b < out@.len() ==> key_before(k, out@[a] as int, out@[b] as int),
            forall|a: int, b: int|
                0 <= a < out@.len() && i <= b < x@.len() ==> key_before(
                    k,
                    #[trigger] out@[a] as int,
                    #[trigger] x@[b] as int,
                ),
            forall|a: int, b: int|
                0 <= a < out@.len() && j <= b < y@.len() ==> key_before(
                    k,
                    #[trigger] out@[a] as int,
                    #[trigger] y@[b] as int,
                ),
        decreases x@.len() - i + y@.len() - j,
    {
        let ghost old_out = out@;
        if j == y.len() || (i < x.len() && stands_before(keys, x[i], y[j])) {
            proof {
                assert forall|b: int| j <= b < y@.len() implies key_before(
                    k,
                    x@[i as int] as int,
                    #[trigger] y@[b] as int,
                ) by {
                    if b > j {
                        lemma_key_transitive(
                            k,
                            x@[i as int] as int,
                            y@[j as int] as int,
                            y@[b] as int,
                        );
                    }
                }
            }
            out.push(x[i]);
            assert(out@.last() == x@[i as int]);
            i += 1;
        } else {
            proof {
                if i < x@.len() {
                    lemma_key_total(k, x@[i as int] as int, y@[j as int] as int);
                }
                assert forall|b: int| i <= b < x@.len() implies key_before(
                    k,
                    y@[j as int] as int,
                    #[trigger] x@[b] as int,
                ) by {
                    if b > i {
                        lemma_key_transitive(
                            k,
                            y@[j as int] as int,
                            x@[i as int] as int,
                            x@[b] as int,
                        );
                    }
                }
            }
            out.push(y[j]);
            assert(out@.last() == y@[j as int]);
            j += 1;
        }
        proof {
            assert forall|v: usize| old_out.contains(v) implies #[trigger] out@.contains(v) by {
                let a = choose|a: int| 0 <= a < old_out.len() && old_out[a] == v;
                assert(out@[a] == v);
            }
            assert(out@.contains(out@.last()));
        }
    }
    assert forall|v: usize| lo <= v < hi implies #[trigger] out@.contains(v) by {
        if v < mid {
            assert(x@.contains(v));
        } else {
            assert(y@.contains(v));
        }
    }
    out
}

fn sort_run(keys: &Vec<Key>, lo: usize, hi: usize) -> (r: Vec<usize>)
    requires
        lo <= hi <= keys@.len(),
    ensures
        is_run(keys_of(keys@), r@, lo as int, hi as int),
    decreases hi - lo,
{
    if hi - lo == 0 {
        return Vec::new();
    }
    if hi - lo == 1 {
        let mut out: Vec<usize> = Vec::new();
        out.push(lo);
        assert(out@[0] == lo);
        return out;
    }
    let mid: usize = lo + (hi - lo) / 2;
    let x = sort_run(keys, lo, mid);
    let y = sort_run(keys, mid, hi);
    merge(keys, &x, &y, lo, mid, hi)
}

/// The ordering of the given keys.
pub fn sort_keys(keys: &Vec<Key>) -> (r: Vec<usize>)
    ensures
        ints(r@) == ordering(keys_of(keys@)),
        is_ordering(keys_of(keys@), ints(r@)),
        forall|a: int| 0 <= a < r@.len() ==> #[trigger] r@[a] < keys@.len(),
        r@.len() == keys@.len(),
{
    let r = sort_run(keys, 0, keys.len());
    proof {
        let k = keys_of(keys@);
        let order = ints(r@);
        assert forall|i: int| 0 <= i < k.len() implies #[trigger] order.contains(i) by {
            assert(keys@.len() == keys.len());
            assert(r@.contains(i as usize));
            let a = choose|a: int| 0 <= a < r@.len() && r@[a] == i as usize;
            assert(order[a] == i);
        }
        assert(is_ordering(k, order));
        ordering_exists(k);
        ordering_is_unique(k, order, ordering(k));
    }
    r
}

/// A list of strings in their order.
pub fn sort_strings(names: &Vec<String>) -> (r: Vec<String>)
    ensures
        text::texts(r@) == sorted(text::texts(names@)),
{
    broadcast use text::group_text;

    let mut keys: Vec<Key> = Vec::new();
    for i in 0..names.len()
        invariant
            keys@.len() == i,
            forall|j: int| 0 <= j < i ==> (#[trigger] keys@[j]).rank == 0 && keys@[j].name@
                == names@[j]@,
    {
        keys.push(Key { rank: 0, name: text::chars_of(names[i].as_str()) });
    }
    assert(keys_of(keys@) =~= plain_keys(text::texts(names@)));
    let order = sort_keys(&keys);
    let mut out: Vec<String> = Vec::new();
    let ghost all = sorted(text::texts(names@));
    for a in 0..order.len()
        invariant
            order@.len() == names@.len(),
            all == arranged(text::texts(names@), ints(order@)),
            forall|b: int| 0 <= b < order@.len() ==> #[trigger] order@[b] < names@.len(),
            text::texts(out@) == all.take(a as int),
    {
        out.push(names[order[a]].clone());
        assert(all.take(a as int).push(all[a as int]) =~= all.take(a + 1));
    }
    assert(all.take(order@.len() as int) =~= all);
    out
}

// ---------------------------------------------------------------------------
// Texts in order without repetition
// ---------------------------------------------------------------------------

/// A list without those items that are equal to the one before them.
pub open spec fn deduped(s: Seq<Seq<char>>) -> Seq<Seq<char>>
    decreases s.len(),
{
    if s.len() <= 1 {
        s
    } else if s.last() == s[s.len() - 2] {
        deduped(s.drop_last())
    } else {
        deduped(s.drop_last()).push(s.last())
    }
}

/// The texts in their order, each once.
pub open spec fn distinct(names: Seq<Seq<char>>) -> Seq<Seq<char>> {
    deduped(sorted(names))
}

/// Each text comes before all that follow it.
pub open spec fn increasing(s: Seq<Seq<char>>) -> bool {
    forall|a: int, b: int| 0 <= a < b < s.len() ==> before(s[a], s[b])
}

/// Sorting keeps the texts and puts none before a lesser one.
pub proof fn lemma_sorted(names: Seq<Seq<char>>)
    ensures
        sorted(names).len() == names.len(),
        forall|x: Seq<char>| #[trigger] sorted(names).contains(x) <==> names.contains(x),
        forall|a: int, b: int|
            0 <= a < b < names.len() ==> sorted(names)[a] == sorted(names)[b] || before(
                sorted(names)[a],
                sorted(names)[b],
            ),
{
    let keys = plain_keys(names);
    let ord = ordering(keys);
    let s = sorted(names);
    ordering_exists(keys);
    assert forall|x: Seq<char>| #[trigger] s.contains(x) <==> names.contains(x) by {
        if s.contains(x) {
            let a = choose|a: int| 0 <= a < s.len() && s[a] == x;
            assert(names[ord[a]] == x);
        }
        if names.contains(x) {
            let i = choose|i: int| 0 <= i < names.len() && names[i] == x;
            assert(ord.contains(i));
            let a = choose|a: int| 0 <= a < ord.len() && ord[a] == i;
            assert(s[a] == x);
        }
    }
    assert forall|a: int, b: int| 0 <= a < b < names.len() implies s[a] == s[b] || before(
        s[a],
        s[b],
    ) by {
        assert(key_before(keys, ord[a], ord[b]));
        assert(keys[ord[a]].1 == s[a] && keys[ord[b]].1 == s[b]);
    }
}

/// Of texts in order one of each is left.
proof fn lemma_deduped(s: Seq<Seq<char>>)
    requires
        forall|a: int, b: int| 0 <= a < b < s.len() ==> s[a] == s[b] || before(s[a], s[b]),
    ensures
        increasing(deduped(s)),
        forall|x: Seq<char>| #[trigger] deduped(s).contains(x) <==> s.contains(x),
        s.len() > 0 ==> deduped(s).len() > 0 && deduped(s).last() == s.last(),
        deduped(s).len() <= s.len(),
    decreases s.len(),
{
    if s.len() > 1 {
        let front = s.drop_last();
        lemma_deduped(front);
        let d = deduped(front);
        let last = s.last();
        assert(front.last() == s[s.len() - 2]);
        assert forall|x: Seq<char>| s.contains(x) <==> front.contains(x) || x == last by {
            if s.contains(x) {
                let a = choose|a: int| 0 <= a < s.len() && s[a] == x;
                if a < front.len() {
                    assert(front[a] == x);
                }
            }
            if front.contains(x) {
                let a = choose|a: int| 0 <= a < front.len() && front[a] == x;
                assert(s[a] == x);
            }
            if x == last {
                assert(s[s.len() - 1] == x);
            }
        }
        if last == s[s.len() - 2] {
            assert(front.contains(last)) by {
                assert(front[front.len() - 1] == last);
            }
        } else {
            let longer = d.push(last);
            assert(before(front.last(), last)) by {
                assert(s[s.len() - 2] == s[s.len() - 1] || before(s[s.len() - 2], s[s.len() - 1]));
            }
            assert forall|a: int, b: int| 0 <= a < b < longer.len() implies before(
                longer[a],
                longer[b],
            ) by {
                if b == d.len() {
                    if a < d.len() - 1 {
                        assert(before(d[a], d[d.len() - 1]));
                        lemma_before_transitive(d[a], d[d.len() - 1], last);
                    }
                } else {
                    assert(before(d[a], d[b]));
                }
            }
            assert forall|x: Seq<char>| #[trigger] longer.contains(x) <==> s.contains(x) by {
                if longer.contains(x) {
                    let a = choose|a: int| 0 <= a < longer.len() && longer[a] == x;
                    if a < d.len() {
                        assert(d[a] == x);
                        assert(d.contains(x));
                    }
                }
                if s.contains(x) {
                    if x == last {
                        assert(longer[longer.len() - 1] == x);
                    } else {
                        assert(d.contains(x));
                        let a = choose|a: int| 0 <= a < d.len() && d[a] == x;
                        assert(longer[a] == x);
                    }
                }
            }
        }
    }
}

/// The texts in their order, each once, are the given ones, and each comes before all that follow
/// it.
pub proof fn distinct_is_increasing(names: Seq<Seq<char>>)
    ensures
        increasing(distinct(names)),
        forall|x: Seq<char>| #[trigger] distinct(names).contains(x) <==> names.contains(x),
        distinct(names).len() <= names.len(),
{
    lemma_sorted(names);
    lemma_deduped(sorted(names));
}

/// A list of strings in their order, each once.
pub fn distinct_strings(names: &Vec<String>) -> (r: Vec<String>)
    ensures
        text::texts(r@) == distinct(text::texts(names@)),
{
    broadcast use text::group_text;

    let all_strings = sort_strings(names);
    let ghost all = sorted(text::texts(names@));
    let mut out: Vec<String> = Vec::new();
    assert(all.take(0) =~= seq![]);
    assert(text::texts(out@) =~= seq![]);
    for i in 0..all_strings.len()
        invariant
            all == text::texts(all_strings@),
            text::texts(out@) == deduped(all.take(i as int)),
    {
        let ghost longer = all.take(i + 1);
        assert(longer.drop_last() =~= all.take(i as int));
        assert(longer.last() == all_strings@[i as int]@);
        if i > 0 {
            assert(longer[i - 1] == all_strings@[i - 1]@);
            if !text::str_same(all_strings[i].as_str(), all_strings[i - 1].as_str()) {
                out.push(all_strings[i].clone());
            }
        } else {
            out.push(all_strings[i].clone());
            assert(text::texts(out@) =~= longer);
        }
    }
    assert(all.take(all_strings@.len() as int) =~= all);
    out
}

} // verus!
