//! What a manifest takes from the members of its document.
use vstd::prelude::*;

use crate::collections;
use crate::manifest;
use crate::manifest::{DocumentView, EntryView, SectionView};
use crate::order;
use crate::text;

verus! {

/// The section at `at` is the only one of its name.
pub open spec fn sole_section(sections: Seq<SectionView>, at: int) -> bool {
    &&& 0 <= at < sections.len()
    &&& forall|j: int|
        0 <= j < sections.len() && (#[trigger] sections[j]).name == sections[at].name ==> j == at
}

/// No section has a name.
pub open spec fn no_section(sections: Seq<SectionView>, name: Seq<char>) -> bool {
    forall|j: int| 0 <= j < sections.len() ==> (#[trigger] sections[j]).name != name
}

/// The entry at `at` is the only one of its name.
pub open spec fn sole_entry(entries: Seq<EntryView>, at: int) -> bool {
    &&& 0 <= at < entries.len()
    &&& forall|j: int|
        0 <= j < entries.len() && (#[trigger] entries[j]).name == entries[at].name ==> j == at
}

/// No entry has a name.
pub open spec fn no_entry(entries: Seq<EntryView>, name: Seq<char>) -> bool {
    forall|j: int| 0 <= j < entries.len() ==> (#[trigger] entries[j]).name != name
}

/// A table lists the pairs in the order of their names; of pairs with one name, the last.
pub open spec fn tabulates(
    table: Seq<(Seq<char>, Seq<char>)>,
    pairs: Seq<(Seq<char>, Seq<char>)>,
) -> bool {
    &&& collections::increasing_keys(table)
    &&& forall|i: int|
        0 <= i < pairs.len() && (forall|j: int|
            i < j < pairs.len() ==> (#[trigger] pairs[j]).0 != pairs[i].0) ==> table.contains(
            #[trigger] pairs[i],
        )
    &&& forall|t: int| 0 <= t < table.len() ==> pairs.contains(#[trigger] table[t])
}

/// A table has a pair for each entry: its name, and its text or, without one, the empty text.
pub open spec fn lists_entries(
    table: Seq<(Seq<char>, Seq<char>)>,
    entries: Seq<EntryView>,
) -> bool {
    &&& collections::increasing_keys(table)
    &&& forall|k: int, t: Seq<char>|
        sole_entry(entries, k) && entries[k].text == Some(t) ==> #[trigger] table.contains(
            ((#[trigger] entries[k]).name, t),
        )
    &&& forall|k: int|
        sole_entry(entries, k) && entries[k].text is None ==> table.contains(
            ((#[trigger] entries[k]).name, seq![]),
        )
    &&& forall|n: int|
        0 <= n < table.len() ==> exists|k: int|
            0 <= k < entries.len() && (#[trigger] entries[k]).name == (#[trigger] table[n]).0
                && table[n].1 == match entries[k].text {
                Some(t) => t,
                None => seq![],
            }
}

/// A table has a pair for each entry that is a text: its name and the text.
pub open spec fn lists_texts(table: Seq<(Seq<char>, Seq<char>)>, entries: Seq<EntryView>) -> bool {
    &&& collections::increasing_keys(table)
    &&& forall|k: int, t: Seq<char>|
        sole_entry(entries, k) && entries[k].text == Some(t) ==> #[trigger] table.contains(
            ((#[trigger] entries[k]).name, t),
        )
    &&& forall|n: int|
        0 <= n < table.len() ==> exists|k: int|
            0 <= k < entries.len() && (#[trigger] entries[k]).name == (#[trigger] table[n]).0
                && entries[k].text == Some(table[n].1)
}

proof fn lemma_place<B>(s: Seq<(Seq<char>, B)>, key: Seq<char>) -> (at: int)
    requires
        collections::increasing_keys(s),
        forall|i: int| 0 <= i < s.len() ==> (#[trigger] s[i]).0 != key,
    ensures
        0 <= at <= s.len(),
        forall|i: int| 0 <= i < at ==> order::before((#[trigger] s[i]).0, key),
        forall|i: int| at <= i < s.len() ==> order::before(key, (#[trigger] s[i]).0),
    decreases s.len(),
{
    if s.len() == 0 {
        0
    } else {
        let front = s.drop_last();
        let last = s.last().0;
        assert(s[s.len() - 1].0 == last);
        assert forall|i: int| 0 <= i < front.len() implies #[trigger] front[i] == s[i] by {}
        order::lemma_before_total(last, key);
        if order::before(last, key) {
            assert forall|i: int| 0 <= i < s.len() implies order::before(
                (#[trigger] s[i]).0,
                key,
            ) by {
                if i < s.len() - 1 {
                    assert(order::before(s[i].0, s[s.len() - 1].0));
                    order::lemma_before_transitive(s[i].0, last, key);
                }
            }
            s.len() as int
        } else {
            let at = lemma_place(front, key);
            assert forall|i: int| at <= i < s.len() implies order::before(
                key,
                (#[trigger] s[i]).0,
            ) by {
                if i < s.len() - 1 {
                    assert(front[i] == s[i]);
                }
            }
            assert forall|i: int| 0 <= i < at implies order::before((#[trigger] s[i]).0, key) by {
                assert(front[i] == s[i]);
            }
            at
        }
    }
}

/// The entries of every map that pairs make can be listed in the order of their keys.
pub proof fn maps_can_be_listed<B>(pairs: Seq<(Seq<char>, B)>)
    ensures
        collections::increasing_keys(collections::listed(collections::map_of(pairs))),
        collections::map_of(collections::listed(collections::map_of(pairs)))
            == collections::map_of(pairs),
    decreases pairs.len(),
{
    let m = collections::map_of(pairs);
    if pairs.len() == 0 {
        let s = Seq::<(Seq<char>, B)>::empty();
        assert(collections::increasing_keys(s) && collections::map_of(s) == m);
    } else {
        let front = pairs.drop_last();
        maps_can_be_listed(front);
        let s = collections::listed(collections::map_of(front));
        collections::lemma_increasing_distinct(s);
        let (key, v) = pairs.last();
        if exists|i: int| 0 <= i < s.len() && (#[trigger] s[i]).0 == key {
            let i = choose|i: int| 0 <= i < s.len() && (#[trigger] s[i]).0 == key;
            collections::lemma_map_of_update(s, i, v);
            let t = s.update(i, (key, v));
            assert(collections::increasing_keys(t) && collections::map_of(t) == m);
        } else {
            let at = lemma_place(s, key);
            collections::lemma_map_of_insert(s, at, key, v);
            let t = s.insert(at, (key, v));
            assert forall|i: int, j: int| 0 <= i < j < t.len() implies order::before(
                t[i].0,
                t[j].0,
            ) by {
                let a = if i < at { i } else { i - 1 };
                let b = if j < at { j } else { j - 1 };
                if i != at {
                    assert(t[i] == s[a]);
                }
                if j != at {
                    assert(t[j] == s[b]);
                }
            }
            assert(collections::increasing_keys(t) && collections::map_of(t) == m);
        }
    }
}

proof fn lemma_map_of_last<B>(pairs: Seq<(Seq<char>, B)>, i: int)
    requires
        0 <= i < pairs.len(),
        forall|j: int| i < j < pairs.len() ==> (#[trigger] pairs[j]).0 != pairs[i].0,
    ensures
        collections::map_of(pairs).contains_key(pairs[i].0),
        collections::map_of(pairs)[pairs[i].0] == pairs[i].1,
    decreases pairs.len(),
{
    if i < pairs.len() - 1 {
        let front = pairs.drop_last();
        assert forall|j: int| 0 <= j < front.len() implies #[trigger] front[j] == pairs[j] by {}
        assert(pairs[pairs.len() - 1].0 != pairs[i].0);
        lemma_map_of_last(front, i);
    }
}

proof fn lemma_map_of_from<B>(pairs: Seq<(Seq<char>, B)>, k: Seq<char>)
    requires
        collections::map_of(pairs).contains_key(k),
    ensures
        pairs.contains((k, collections::map_of(pairs)[k])),
    decreases pairs.len(),
{
    if pairs.len() > 0 {
        let front = pairs.drop_last();
        if pairs.last().0 == k {
            assert(pairs[pairs.len() - 1] == (k, collections::map_of(pairs)[k]));
        } else {
            lemma_map_of_from(front, k);
            let j = front.index_of((k, collections::map_of(front)[k]));
            assert(pairs[j] == front[j]);
        }
    }
}

/// A table lists the pairs that it is made of in the order of their names, the last of each name.
pub proof fn tables_list_their_pairs(pairs: Seq<(Seq<char>, Seq<char>)>)
    ensures
        tabulates(manifest::table(pairs), pairs),
{
    maps_can_be_listed(pairs);
    let t = manifest::table(pairs);
    let m = collections::map_of(pairs);
    collections::lemma_increasing_distinct(t);
    assert forall|i: int|
        0 <= i < pairs.len() && (forall|j: int|
            i < j < pairs.len() ==> (#[trigger] pairs[j]).0 != pairs[i].0) implies t.contains(
        #[trigger] pairs[i],
    ) by {
        lemma_map_of_last(pairs, i);
        lemma_map_of_from(t, pairs[i].0);
    }
    assert forall|n: int| 0 <= n < t.len() implies pairs.contains(#[trigger] t[n]) by {
        collections::lemma_map_of_entry(t, n);
        lemma_map_of_from(pairs, t[n].0);
    }
}

proof fn lemma_entries_listed(entries: Seq<EntryView>)
    ensures
        lists_entries(manifest::table(manifest::all_pairs(entries)), entries),
{
    let pairs = manifest::all_pairs(entries);
    let t = manifest::table(pairs);
    tables_list_their_pairs(pairs);
    assert forall|k: int| sole_entry(entries, k) implies t.contains(
        (
            (#[trigger] entries[k]).name,
            match entries[k].text {
                Some(t) => t,
                None => seq![],
            },
        ),
    ) by {
        assert forall|j: int| k < j < pairs.len() implies (#[trigger] pairs[j]).0
            != pairs[k].0 by {
            assert(entries[j].name != entries[k].name);
        }
        assert(t.contains(pairs[k]));
    }
    assert forall|n: int| 0 <= n < t.len() implies exists|k: int|
        0 <= k < entries.len() && (#[trigger] entries[k]).name == (#[trigger] t[n]).0 && t[n].1
            == match entries[k].text {
            Some(t) => t,
            None => seq![],
        } by {
        assert(pairs.contains(t[n]));
        let k = pairs.index_of(t[n]);
        assert(entries[k].name == t[n].0);
    }
}

/// The pairs of texts come from entries, and each entry that is a text has one.
proof fn lemma_text_pairs(entries: Seq<EntryView>)
    ensures
        forall|i: int|
            0 <= i < manifest::text_pairs(entries).len() ==> exists|k: int|
                0 <= k < entries.len() && (#[trigger] entries[k]).name == (
                #[trigger] manifest::text_pairs(entries)[i]).0 && entries[k].text == Some(
                    manifest::text_pairs(entries)[i].1,
                ),
        forall|k: int|
            0 <= k < entries.len() && (#[trigger] entries[k]).text is Some
                ==> manifest::text_pairs(entries).contains(
                (entries[k].name, entries[k].text->Some_0),
            ),
    decreases entries.len(),
{
    if entries.len() > 0 {
        let front = entries.drop_last();
        let last = entries.last();
        lemma_text_pairs(front);
        let before = manifest::text_pairs(front);
        let pairs = manifest::text_pairs(entries);
        assert(entries[entries.len() - 1] == last);
        assert forall|i: int| 0 <= i < pairs.len() implies exists|k: int|
            0 <= k < entries.len() && (#[trigger] entries[k]).name == (#[trigger] pairs[i]).0
                && entries[k].text == Some(pairs[i].1) by {
            if i < before.len() {
                assert(pairs[i] == before[i]);
                let k = choose|k: int|
                    0 <= k < front.len() && (#[trigger] front[k]).name == before[i].0
                        && front[k].text == Some(before[i].1);
                assert(entries[k] == front[k]);
            }
        }
        assert forall|k: int|
            0 <= k < entries.len() && (#[trigger] entries[k]).text is Some implies pairs.contains(
            (entries[k].name, entries[k].text->Some_0),
        ) by {
            let p = (entries[k].name, entries[k].text->Some_0);
            if k < front.len() {
                assert(front[k] == entries[k]);
                let i = before.index_of(p);
                assert(pairs[i] == p);
            } else {
                assert(pairs[pairs.len() - 1] == p);
            }
        }
    }
}

proof fn lemma_texts_listed(entries: Seq<EntryView>)
    ensures
        lists_texts(manifest::table(manifest::text_pairs(entries)), entries),
{
    let pairs = manifest::text_pairs(entries);
    let t = manifest::table(pairs);
    tables_list_their_pairs(pairs);
    lemma_text_pairs(entries);
    collections::lemma_increasing_distinct(t);
    assert forall|k: int, s: Seq<char>|
        sole_entry(entries, k) && entries[k].text == Some(s) implies #[trigger] t.contains(
        ((#[trigger] entries[k]).name, s),
    ) by {
        let p = (entries[k].name, s);
        assert(pairs.contains(p));
        let i = pairs.index_of(p);
        maps_can_be_listed(pairs);
        collections::lemma_map_of_keys(pairs, p.0);
        lemma_map_of_from(pairs, p.0);
        let q = (p.0, collections::map_of(pairs)[p.0]);
        let h = pairs.index_of(q);
        assert(pairs[h] == q);
        let k2 = choose|k: int|
            0 <= k < entries.len() && (#[trigger] entries[k]).name == pairs[h].0
                && entries[k].text == Some(pairs[h].1);
        assert(k2 == k);
        lemma_map_of_from(t, p.0);
    }
    assert forall|n: int| 0 <= n < t.len() implies exists|k: int|
        0 <= k < entries.len() && (#[trigger] entries[k]).name == (#[trigger] t[n]).0
            && entries[k].text == Some(t[n].1) by {
        assert(pairs.contains(t[n]));
        let i = pairs.index_of(t[n]);
        assert(pairs[i] == t[n]);
        let k = choose|k: int|
            0 <= k < entries.len() && (#[trigger] entries[k]).name == pairs[i].0
                && entries[k].text == Some(pairs[i].1);
        assert(entries[k].name == t[n].0);
    }
}

proof fn lemma_sole_section(sections: Seq<SectionView>, at: int)
    requires
        sole_section(sections, at),
    ensures
        manifest::named_section(sections, sections[at].name) == Some(sections[at]),
    decreases sections.len(),
{
    if at > 0 {
        let rest = sections.drop_first();
        assert forall|j: int| 0 <= j < rest.len() implies #[trigger] rest[j] == sections[j + 1] by {
        }
        assert(sections[0].name != sections[at].name);
        lemma_sole_section(rest, at - 1);
    }
}

proof fn lemma_no_section(sections: Seq<SectionView>, name: Seq<char>)
    requires
        no_section(sections, name),
    ensures
        manifest::named_section(sections, name) is None,
    decreases sections.len(),
{
    if sections.len() > 0 {
        let rest = sections.drop_first();
        assert forall|j: int| 0 <= j < rest.len() implies #[trigger] rest[j] == sections[j + 1] by {
        }
        lemma_no_section(rest, name);
    }
}

proof fn lemma_sole_entry(entries: Seq<EntryView>, at: int)
    requires
        sole_entry(entries, at),
    ensures
        manifest::named_entry(entries, entries[at].name) == Some(entries[at]),
    decreases entries.len(),
{
    if at > 0 {
        let rest = entries.drop_first();
        assert forall|j: int| 0 <= j < rest.len() implies #[trigger] rest[j] == entries[j + 1] by {}
        assert(entries[0].name != entries[at].name);
        lemma_sole_entry(rest, at - 1);
    }
}

proof fn lemma_no_entry(entries: Seq<EntryView>, name: Seq<char>)
    requires
        no_entry(entries, name),
    ensures
        manifest::named_entry(entries, name) is None,
    decreases entries.len(),
{
    if entries.len() > 0 {
        let rest = entries.drop_first();
        assert forall|j: int| 0 <= j < rest.len() implies #[trigger] rest[j] == entries[j + 1] by {}
        lemma_no_entry(rest, name);
    }
}

/// The name and the description of a `package.json` are the texts of its members of those names,
/// whatever the other members are; a member that is no text gives none.
pub proof fn npm_names_and_describes(sections: Seq<SectionView>, at: int)
    requires
        sole_section(sections, at),
    ensures
        sections[at].name == "name"@ ==> manifest::npm_view(
            DocumentView { sections: Some(sections) },
        ).name == sections[at].text,
        sections[at].name == "description"@ ==> manifest::npm_view(
            DocumentView { sections: Some(sections) },
        ).description == sections[at].text,
{
    lemma_sole_section(sections, at);
}

/// The dependencies, the dev dependencies and the scripts of a `package.json` are the entries of
/// its members `dependencies`, `devDependencies` and `scripts`.
pub proof fn npm_tables_are_its_members(
    sections: Seq<SectionView>,
    at: int,
    entries: Seq<EntryView>,
)
    requires
        sole_section(sections, at),
        sections[at].entries == Some(entries),
    ensures
        sections[at].name == "dependencies"@ ==> lists_entries(
            manifest::npm_view(DocumentView { sections: Some(sections) }).dependencies,
            entries,
        ),
        sections[at].name == "devDependencies"@ ==> lists_entries(
            manifest::npm_view(DocumentView { sections: Some(sections) }).dev_dependencies,
            entries,
        ),
        sections[at].name == "scripts"@ ==> lists_entries(
            manifest::npm_view(DocumentView { sections: Some(sections) }).scripts,
            entries,
        ),
{
    lemma_sole_section(sections, at);
    lemma_entries_listed(entries);
}

proof fn lemma_no_pairs()
    ensures
        manifest::table(seq![]).len() == 0,
{
    tables_list_their_pairs(seq![]);
    let t = manifest::table(seq![]);
    if t.len() > 0 {
        assert(seq![].contains(t[0]));
    }
}

proof fn lemma_no_entries()
    ensures
        manifest::table(manifest::all_pairs(seq![])).len() == 0,
        manifest::table(manifest::text_pairs(seq![])).len() == 0,
        manifest::table(manifest::numbered_pairs(manifest::list_texts(seq![]))).len() == 0,
{
    lemma_no_pairs();
    assert(manifest::all_pairs(seq![]) =~= seq![]);
    assert(manifest::text_pairs(seq![]) =~= seq![]);
    assert(manifest::list_texts(seq![]) =~= seq![]);
    assert(manifest::numbered_pairs(seq![]) =~= seq![]);
}

/// What a `package.json` has no member for is left out of its manifest.
pub proof fn npm_invents_nothing(sections: Seq<SectionView>)
    ensures
        no_section(sections, "name"@) ==> manifest::npm_view(
            DocumentView { sections: Some(sections) },
        ).name is None,
        no_section(sections, "description"@) ==> manifest::npm_view(
            DocumentView { sections: Some(sections) },
        ).description is None,
        no_section(sections, "dependencies"@) ==> manifest::npm_view(
            DocumentView { sections: Some(sections) },
        ).dependencies.len() == 0,
        no_section(sections, "devDependencies"@) ==> manifest::npm_view(
            DocumentView { sections: Some(sections) },
        ).dev_dependencies.len() == 0,
        no_section(sections, "scripts"@) ==> manifest::npm_view(
            DocumentView { sections: Some(sections) },
        ).scripts.len() == 0,
{
    lemma_no_entries();
    if no_section(sections, "name"@) {
        lemma_no_section(sections, "name"@);
    }
    if no_section(sections, "description"@) {
        lemma_no_section(sections, "description"@);
    }
    if no_section(sections, "dependencies"@) {
        lemma_no_section(sections, "dependencies"@);
    }
    if no_section(sections, "devDependencies"@) {
        lemma_no_section(sections, "devDependencies"@);
    }
    if no_section(sections, "scripts"@) {
        lemma_no_section(sections, "scripts"@);
    }
}

/// The name and the description of a `Cargo.toml` are the texts of those entries of its section
/// `package`, and of a `pyproject.toml` those of its section `project`.
pub proof fn toml_names_and_describes(
    sections: Seq<SectionView>,
    at: int,
    entries: Seq<EntryView>,
    k: int,
)
    requires
        sole_section(sections, at),
        sections[at].entries == Some(entries),
        sole_entry(entries, k),
    ensures
        sections[at].name == "package"@ && entries[k].name == "name"@ ==> manifest::cargo_view(
            DocumentView { sections: Some(sections) },
        ).name == entries[k].text,
        sections[at].name == "package"@ && entries[k].name == "description"@
            ==> manifest::cargo_view(DocumentView { sections: Some(sections) }).description
            == entries[k].text,
        sections[at].name == "project"@ && entries[k].name == "name"@ ==> manifest::python_view(
            DocumentView { sections: Some(sections) },
        ).name == entries[k].text,
        sections[at].name == "project"@ && entries[k].name == "description"@
            ==> manifest::python_view(DocumentView { sections: Some(sections) }).description
            == entries[k].text,
{
    lemma_sole_section(sections, at);
    lemma_sole_entry(entries, k);
}

/// A `Cargo.toml` or a `pyproject.toml` without such an entry has no name, or no description.
pub proof fn toml_invents_no_text(sections: Seq<SectionView>, at: int, entries: Seq<EntryView>)
    requires
        sole_section(sections, at),
        sections[at].entries == Some(entries),
    ensures
        sections[at].name == "package"@ && no_entry(entries, "name"@) ==> manifest::cargo_view(
            DocumentView { sections: Some(sections) },
        ).name is None,
        sections[at].name == "package"@ && no_entry(entries, "description"@)
            ==> manifest::cargo_view(
            DocumentView { sections: Some(sections) },
        ).description is None,
        sections[at].name == "project"@ && no_entry(entries, "name"@) ==> manifest::python_view(
            DocumentView { sections: Some(sections) },
        ).name is None,
        sections[at].name == "project"@ && no_entry(entries, "description"@)
            ==> manifest::python_view(
            DocumentView { sections: Some(sections) },
        ).description is None,
{
    lemma_sole_section(sections, at);
    if no_entry(entries, "name"@) {
        lemma_no_entry(entries, "name"@);
    }
    if no_entry(entries, "description"@) {
        lemma_no_entry(entries, "description"@);
    }
}

/// The dependencies of a `Cargo.toml` are those entries of its section `dependencies` that are
/// texts, and its dev dependencies those of its section `dev-dependencies`.
pub proof fn cargo_tables_are_its_texts(
    sections: Seq<SectionView>,
    at: int,
    entries: Seq<EntryView>,
)
    requires
        sole_section(sections, at),
        sections[at].entries == Some(entries),
    ensures
        sections[at].name == "dependencies"@ ==> lists_texts(
            manifest::cargo_view(DocumentView { sections: Some(sections) }).dependencies,
            entries,
        ),
        sections[at].name == "dev-dependencies"@ ==> lists_texts(
            manifest::cargo_view(DocumentView { sections: Some(sections) }).dev_dependencies,
            entries,
        ),
{
    lemma_sole_section(sections, at);
    lemma_texts_listed(entries);
}

/// What a `Cargo.toml` or a `pyproject.toml` has no section for is left out of its manifest, and
/// neither has scripts.
pub proof fn toml_invents_no_table(sections: Seq<SectionView>)
    ensures
        no_section(sections, "package"@) ==> manifest::cargo_view(
            DocumentView { sections: Some(sections) },
        ).name is None && manifest::cargo_view(
            DocumentView { sections: Some(sections) },
        ).description is None,
        no_section(sections, "dependencies"@) ==> manifest::cargo_view(
            DocumentView { sections: Some(sections) },
        ).dependencies.len() == 0,
        no_section(sections, "dev-dependencies"@) ==> manifest::cargo_view(
            DocumentView { sections: Some(sections) },
        ).dev_dependencies.len() == 0,
        manifest::cargo_view(DocumentView { sections: Some(sections) }).scripts.len() == 0,
        no_section(sections, "project"@) ==> manifest::python_view(
            DocumentView { sections: Some(sections) },
        ).name is None && manifest::python_view(
            DocumentView { sections: Some(sections) },
        ).description is None && manifest::python_view(
            DocumentView { sections: Some(sections) },
        ).dependencies.len() == 0,
        manifest::python_view(DocumentView { sections: Some(sections) }).dev_dependencies.len()
            == 0,
        manifest::python_view(DocumentView { sections: Some(sections) }).scripts.len() == 0,
{
    lemma_no_entries();
    if no_section(sections, "package"@) {
        lemma_no_section(sections, "package"@);
    }
    if no_section(sections, "dependencies"@) {
        lemma_no_section(sections, "dependencies"@);
    }
    if no_section(sections, "dev-dependencies"@) {
        lemma_no_section(sections, "dev-dependencies"@);
    }
    if no_section(sections, "project"@) {
        lemma_no_section(sections, "project"@);
    }
}

proof fn lemma_list_texts(list: Seq<Option<Seq<char>>>, texts: Seq<Seq<char>>)
    requires
        list.len() == texts.len(),
        forall|n: int| 0 <= n < list.len() ==> #[trigger] list[n] == Some(texts[n]),
    ensures
        manifest::list_texts(list) == texts,
    decreases list.len(),
{
    if list.len() > 0 {
        let front = list.drop_last();
        assert forall|n: int| 0 <= n < front.len() implies #[trigger] front[n] == Some(
            texts.drop_last()[n],
        ) by {
            assert(front[n] == list[n]);
        }
        lemma_list_texts(front, texts.drop_last());
        assert(list[list.len() - 1] == Some(texts.last()));
        assert(texts.drop_last().push(texts.last()) =~= texts);
    } else {
        assert(manifest::list_texts(list) =~= texts);
    }
}

/// Two numbers do not have the same digits.
pub proof fn decimals_tell_numbers_apart(a: nat, b: nat)
    requires
        text::decimal(a) == text::decimal(b),
    ensures
        a == b,
    decreases a,
{
    let s = text::decimal(a);
    lemma_decimal_is_long(a);
    lemma_decimal_is_long(b);
    if a >= 10 && b >= 10 {
        let x = text::decimal(a / 10);
        let y = text::decimal(b / 10);
        assert(s.last() == text::digit((a % 10) as int));
        assert(s.last() == text::digit((b % 10) as int));
        assert(x =~= s.drop_last());
        assert(y =~= s.drop_last());
        decimals_tell_numbers_apart(a / 10, b / 10);
        assert(a % 10 == b % 10);
    } else {
        assert(a < 10 ==> s[0] == text::digit(a as int));
        assert(b < 10 ==> s[0] == text::digit(b as int));
    }
}

proof fn lemma_decimal_is_long(a: nat)
    ensures
        text::decimal(a).len() >= 1,
        a >= 10 <==> text::decimal(a).len() > 1,
    decreases a,
{
    if a >= 10 {
        lemma_decimal_is_long(a / 10);
    }
}

/// The dependencies of a `pyproject.toml` are the texts of the list `dependencies` of its section
/// `project`: the one at `n`, from zero on, under the name `dep` and `n`.
pub proof fn python_dependencies_are_numbered(
    sections: Seq<SectionView>,
    at: int,
    entries: Seq<EntryView>,
    k: int,
    list: Seq<Option<Seq<char>>>,
    texts: Seq<Seq<char>>,
)
    requires
        sole_section(sections, at),
        sections[at].name == "project"@,
        sections[at].entries == Some(entries),
        sole_entry(entries, k),
        entries[k].name == "dependencies"@,
        entries[k].list == Some(list),
        list.len() == texts.len(),
        forall|n: int| 0 <= n < list.len() ==> #[trigger] list[n] == Some(texts[n]),
    ensures
        collections::increasing_keys(
            manifest::python_view(DocumentView { sections: Some(sections) }).dependencies,
        ),
        forall|n: int|
            0 <= n < texts.len() ==> manifest::python_view(
                DocumentView { sections: Some(sections) },
            ).dependencies.contains(("dep"@ + text::decimal(n as nat), #[trigger] texts[n])),
        forall|d: int|
            0 <= d < manifest::python_view(
                DocumentView { sections: Some(sections) },
            ).dependencies.len() ==> texts.contains(
                (#[trigger] manifest::python_view(
                    DocumentView { sections: Some(sections) },
                ).dependencies[d]).1,
            ),
{
    lemma_sole_section(sections, at);
    lemma_sole_entry(entries, k);
    lemma_list_texts(list, texts);
    let pairs = manifest::numbered_pairs(texts);
    let t = manifest::table(pairs);
    assert(t == manifest::python_view(DocumentView { sections: Some(sections) }).dependencies);
    tables_list_their_pairs(pairs);
    assert forall|n: int| 0 <= n < texts.len() implies t.contains(
        ("dep"@ + text::decimal(n as nat), #[trigger] texts[n]),
    ) by {
        assert forall|j: int| n < j < pairs.len() implies (#[trigger] pairs[j]).0
            != pairs[n].0 by {
            let x = "dep"@ + text::decimal(n as nat);
            let y = "dep"@ + text::decimal(j as nat);
            if x == y {
                let d = "dep"@.len() as int;
                assert(x.skip(d) =~= text::decimal(n as nat));
                assert(y.skip(d) =~= text::decimal(j as nat));
                decimals_tell_numbers_apart(n as nat, j as nat);
            }
        }
        assert(t.contains(pairs[n]));
    }
    assert forall|d: int| 0 <= d < t.len() implies texts.contains((#[trigger] t[d]).1) by {
        assert(pairs.contains(t[d]));
        let n = pairs.index_of(t[d]);
        assert(texts[n] == t[d].1);
    }
}

/// Each of the three documents that is there has one manifest, that of the `package.json` before
/// that of the `Cargo.toml` and that before the one of the `pyproject.toml`, and there are no
/// others.
pub proof fn each_document_has_its_manifest(
    npm: DocumentView,
    cargo: DocumentView,
    python: DocumentView,
)
    ensures
        manifest::manifests_of(None, None, None) == Seq::<crate::model::ManifestView>::empty(),
        manifest::manifests_of(Some(npm), None, None) == seq![manifest::npm_view(npm)],
        manifest::manifests_of(None, Some(cargo), None) == seq![manifest::cargo_view(cargo)],
        manifest::manifests_of(None, None, Some(python)) == seq![manifest::python_view(python)],
        manifest::manifests_of(Some(npm), Some(cargo), None) == seq![
            manifest::npm_view(npm),
            manifest::cargo_view(cargo),
        ],
        manifest::manifests_of(Some(npm), None, Some(python)) == seq![
            manifest::npm_view(npm),
            manifest::python_view(python),
        ],
        manifest::manifests_of(None, Some(cargo), Some(python)) == seq![
            manifest::cargo_view(cargo),
            manifest::python_view(python),
        ],
        manifest::manifests_of(Some(npm), Some(cargo), Some(python)) == seq![
            manifest::npm_view(npm),
            manifest::cargo_view(cargo),
            manifest::python_view(python),
        ],
{
}

/// A document that is no object or table says nothing.
pub proof fn documents_without_sections_say_nothing(doc: DocumentView)
    requires
        doc.sections is None,
    ensures
        manifest::npm_view(doc).name is None,
        manifest::npm_view(doc).description is None,
        manifest::npm_view(doc).dependencies.len() == 0,
        manifest::npm_view(doc).dev_dependencies.len() == 0,
        manifest::npm_view(doc).scripts.len() == 0,
        manifest::cargo_view(doc).name is None,
        manifest::cargo_view(doc).description is None,
        manifest::cargo_view(doc).dependencies.len() == 0,
        manifest::cargo_view(doc).dev_dependencies.len() == 0,
        manifest::cargo_view(doc).scripts.len() == 0,
        manifest::python_view(doc).name is None,
        manifest::python_view(doc).description is None,
        manifest::python_view(doc).dependencies.len() == 0,
        manifest::python_view(doc).dev_dependencies.len() == 0,
        manifest::python_view(doc).scripts.len() == 0,
{
    lemma_no_entries();
}

/// A section that has no entries of its own gives no table and no texts.
pub proof fn sections_without_entries_give_nothing(sections: Seq<SectionView>, at: int)
    requires
        sole_section(sections, at),
        sections[at].entries is None,
    ensures
        sections[at].name == "dependencies"@ ==> manifest::npm_view(
            DocumentView { sections: Some(sections) },
        ).dependencies.len() == 0 && manifest::cargo_view(
            DocumentView { sections: Some(sections) },
        ).dependencies.len() == 0,
        sections[at].name == "devDependencies"@ ==> manifest::npm_view(
            DocumentView { sections: Some(sections) },
        ).dev_dependencies.len() == 0,
        sections[at].name == "dev-dependencies"@ ==> manifest::cargo_view(
            DocumentView { sections: Some(sections) },
        ).dev_dependencies.len() == 0,
        sections[at].name == "scripts"@ ==> manifest::npm_view(
            DocumentView { sections: Some(sections) },
        ).scripts.len() == 0,
        sections[at].name == "package"@ ==> manifest::cargo_view(
            DocumentView { sections: Some(sections) },
        ).name is None && manifest::cargo_view(
            DocumentView { sections: Some(sections) },
        ).description is None,
        sections[at].name == "project"@ ==> manifest::python_view(
            DocumentView { sections: Some(sections) },
        ).name is None && manifest::python_view(
            DocumentView { sections: Some(sections) },
        ).description is None && manifest::python_view(
            DocumentView { sections: Some(sections) },
        ).dependencies.len() == 0,
{
    lemma_sole_section(sections, at);
    lemma_no_entries();
}

proof fn lemma_texts_in_two(a: Seq<Option<Seq<char>>>, b: Seq<Option<Seq<char>>>)
    ensures
        manifest::list_texts(a + b) == manifest::list_texts(a) + manifest::list_texts(b),
    decreases b.len(),
{
    if b.len() == 0 {
        assert(a + b =~= a);
        assert(manifest::list_texts(a) + manifest::list_texts(b) =~= manifest::list_texts(a));
    } else {
        let front = b.drop_last();
        lemma_texts_in_two(a, front);
        assert((a + b).drop_last() =~= a + front);
        assert((a + b).last() == b.last());
        let x = manifest::list_texts(a);
        let y = manifest::list_texts(front);
        if let Some(t) = b.last() {
            assert((x + y).push(t) =~= x + y.push(t));
        }
    }
}

/// An item of the dependencies of a `pyproject.toml` that is no text is passed over: without it
/// the manifest says the same.
pub proof fn python_passes_over_what_is_no_text(
    sections: Seq<SectionView>,
    others: Seq<SectionView>,
    at: int,
    entries: Seq<EntryView>,
    rest: Seq<EntryView>,
    k: int,
    a: Seq<Option<Seq<char>>>,
    b: Seq<Option<Seq<char>>>,
)
    requires
        sole_section(sections, at),
        sole_section(others, at),
        sections[at].name == "project"@,
        others[at].name == "project"@,
        sections[at].entries == Some(entries),
        others[at].entries == Some(rest),
        sole_entry(entries, k),
        sole_entry(rest, k),
        entries[k].name == "dependencies"@,
        rest[k].name == "dependencies"@,
        entries[k].list == Some(a + seq![None] + b),
        rest[k].list == Some(a + b),
    ensures
        manifest::python_view(DocumentView { sections: Some(sections) }).dependencies
            == manifest::python_view(DocumentView { sections: Some(others) }).dependencies,
{
    lemma_sole_section(sections, at);
    lemma_sole_section(others, at);
    lemma_sole_entry(entries, k);
    lemma_sole_entry(rest, k);
    let none = seq![None::<Seq<char>>];
    lemma_texts_in_two(a + none, b);
    lemma_texts_in_two(a, none);
    lemma_texts_in_two(a, b);
    assert(none.drop_last() =~= seq![]);
    assert(none.last() is None);
    assert(manifest::list_texts(none) == manifest::list_texts(none.drop_last()));
    assert(manifest::list_texts(none) =~= seq![]);
    assert(manifest::list_texts(a) + seq![] =~= manifest::list_texts(a));
}

} // verus!
