//! Package manifests: `package.json`, `Cargo.toml` and `pyproject.toml`.
//!
//! A manifest is read as a document of sections. A section is a text or has entries, and an entry
//! is a text or a list; what else a document may hold is left out.
use vstd::prelude::*;

use crate::collections;
use crate::collections::SortedMap;
use crate::model::{ManifestInfo, ManifestView};
use crate::text;

verus! {

/// An entry of a section: its text, or the texts of its list, where they are texts.
#[derive(Debug, Clone)]
pub struct Entry {
    pub name: String,
    pub text: Option<String>,
    pub list: Option<Vec<Option<String>>>,
}

/// A section of a document: its text, or its entries.
#[derive(Debug, Clone)]
pub struct Section {
    pub name: String,
    pub text: Option<String>,
    pub entries: Option<Vec<Entry>>,
}

/// A document: its sections, where it has any.
#[derive(Debug, Clone)]
pub struct Document {
    pub sections: Option<Vec<Section>>,
}

/// An entry as plain values.
pub struct EntryView {
    pub name: Seq<char>,
    pub text: Option<Seq<char>>,
    pub list: Option<Seq<Option<Seq<char>>>>,
}

/// A section as plain values.
pub struct SectionView {
    pub name: Seq<char>,
    pub text: Option<Seq<char>>,
    pub entries: Option<Seq<EntryView>>,
}

/// A document as plain values.
pub struct DocumentView {
    pub sections: Option<Seq<SectionView>>,
}

impl View for Entry {
    type V = EntryView;

    open spec fn view(&self) -> EntryView {
        EntryView {
            name: self.name@,
            text: text::opt_text(self.text),
            list: match self.list {
                Some(l) => Some(l@.map_values(|o: Option<String>| text::opt_text(o))),
                None => None,
            },
        }
    }
}

/// Entries as plain values.
pub open spec fn entry_views(v: Seq<Entry>) -> Seq<EntryView> {
    v.map_values(|e: Entry| e@)
}

impl View for Section {
    type V = SectionView;

    open spec fn view(&self) -> SectionView {
        SectionView {
            name: self.name@,
            text: text::opt_text(self.text),
            entries: match self.entries {
                Some(e) => Some(entry_views(e@)),
                None => None,
            },
        }
    }
}

/// Sections as plain values.
pub open spec fn section_views(v: Seq<Section>) -> Seq<SectionView> {
    v.map_values(|s: Section| s@)
}

impl View for Document {
    type V = DocumentView;

    open spec fn view(&self) -> DocumentView {
        DocumentView {
            sections: match self.sections {
                Some(s) => Some(section_views(s@)),
                None => None,
            },
        }
    }
}

/// A document that may be there as plain values.
pub open spec fn document_if(o: Option<Document>) -> Option<DocumentView> {
    match o {
        Some(d) => Some(d@),
        None => None,
    }
}

// ---------------------------------------------------------------------------
// Parsing
// ---------------------------------------------------------------------------

/// The document that `serde_json::from_str` makes of a text; nothing where it fails.
pub uninterp spec fn json_document(source: Seq<char>) -> Option<DocumentView>;

/// The document that `str::parse` makes of a text as a `toml::Value`; nothing where it fails.
pub uninterp spec fn toml_document(source: Seq<char>) -> Option<DocumentView>;

/// Calls `serde_json::from_str` and takes the value over: the members of the object as sections,
/// and the members of their objects as entries. The document depends on the text alone.
#[verifier::external_body]
fn parse_json(source: &str) -> (r: Option<Document>)
    ensures
        document_if(r) == json_document(source@),
{
    let value: serde_json::Value = serde_json::from_str(source).ok()?;
    let sections = value.as_object().map(|o| o.iter().map(|(k, v)| Section {
        name: k.clone(),
        text: v.as_str().map(String::from),
        entries: v.as_object().map(|t| t.iter().map(|(k, e)| Entry {
            name: k.clone(),
            text: e.as_str().map(String::from),
            list: e.as_array().map(|a| a.iter().map(|i| i.as_str().map(String::from)).collect())
        }).collect())
    }).collect());
    Some(Document { sections })
}

/// Calls `str::parse` for a `toml::Value` and takes the value over: the members of the table as
/// sections, and the members of their tables as entries. The document depends on the text alone.
#[verifier::external_body]
fn parse_toml(source: &str) -> (r: Option<Document>)
    ensures
        document_if(r) == toml_document(source@),
{
    let value: toml::Value = source.parse().ok()?;
    let sections = value.as_table().map(|o| o.iter().map(|(k, v)| Section {
        name: k.clone(),
        text: v.as_str().map(String::from),
        entries: v.as_table().map(|t| t.iter().map(|(k, e)| Entry {
            name: k.clone(),
            text: e.as_str().map(String::from),
            list: e.as_array().map(|a| a.iter().map(|i| i.as_str().map(String::from)).collect())
        }).collect())
    }).collect());
    Some(Document { sections })
}

// ---------------------------------------------------------------------------
// Looking things up in a document
// ---------------------------------------------------------------------------

/// The first section with a name.
pub open spec fn named_section(sections: Seq<SectionView>, name: Seq<char>) -> Option<SectionView>
    decreases sections.len(),
{
    if sections.len() == 0 {
        None
    } else if sections[0].name == name {
        Some(sections[0])
    } else {
        named_section(sections.drop_first(), name)
    }
}

/// The section of a document with a name.
pub open spec fn section_of(doc: DocumentView, name: Seq<char>) -> Option<SectionView> {
    match doc.sections {
        Some(sections) => named_section(sections, name),
        None => None,
    }
}

fn find_section<'a>(doc: &'a Document, name: &str) -> (r: Option<&'a Section>)
    ensures
        match r {
            Some(s) => section_of(doc@, name@) == Some(s@),
            None => section_of(doc@, name@) is None,
        },
{
    match &doc.sections {
        Some(sections) => {
            let ghost all = section_views(sections@);
            assert(all.skip(0) =~= all);
            for i in 0..sections.len()
                invariant
                    all == section_views(sections@),
                    named_section(all, name@) == named_section(all.skip(i as int), name@),
                    section_of(doc@, name@) == named_section(all, name@),
            {
                assert(all.skip(i as int)[0] == sections@[i as int]@);
                assert(all.skip(i as int).drop_first() =~= all.skip(i + 1));
                if text::str_same(sections[i].name.as_str(), name) {
                    return Some(&sections[i]);
                }
            }
            None
        },
        None => None,
    }
}

/// The text of a section.
pub open spec fn section_text(doc: DocumentView, name: Seq<char>) -> Option<Seq<char>> {
    match section_of(doc, name) {
        Some(s) => s.text,
        None => None,
    }
}

fn find_text(doc: &Document, name: &str) -> (r: Option<String>)
    ensures
        text::opt_text(r) == section_text(doc@, name@),
{
    match find_section(doc, name) {
        Some(s) => text::clone_option(&s.text),
        None => None,
    }
}

/// The entries of a section; none where it has none or is not there.
pub open spec fn section_entries(doc: DocumentView, name: Seq<char>) -> Seq<EntryView> {
    match section_of(doc, name) {
        Some(s) => match s.entries {
            Some(e) => e,
            None => seq![],
        },
        None => seq![],
    }
}

fn find_entries<'a>(doc: &'a Document, name: &str) -> (r: Option<&'a Vec<Entry>>)
    ensures
        match r {
            Some(e) => section_entries(doc@, name@) == entry_views(e@),
            None => section_entries(doc@, name@) == Seq::<EntryView>::empty(),
        },
{
    match find_section(doc, name) {
        Some(s) => match &s.entries {
            Some(e) => Some(e),
            None => None,
        },
        None => None,
    }
}

/// The first entry with a name.
pub open spec fn named_entry(entries: Seq<EntryView>, name: Seq<char>) -> Option<EntryView>
    decreases entries.len(),
{
    if entries.len() == 0 {
        None
    } else if entries[0].name == name {
        Some(entries[0])
    } else {
        named_entry(entries.drop_first(), name)
    }
}

fn find_entry<'a>(doc: &'a Document, section: &str, name: &str) -> (r: Option<&'a Entry>)
    ensures
        match r {
            Some(e) => named_entry(section_entries(doc@, section@), name@) == Some(e@),
            None => named_entry(section_entries(doc@, section@), name@) is None,
        },
{
    match find_entries(doc, section) {
        Some(entries) => {
            let ghost all = entry_views(entries@);
            assert(all.skip(0) =~= all);
            for i in 0..entries.len()
                invariant
                    all == entry_views(entries@),
                    named_entry(all, name@) == named_entry(all.skip(i as int), name@),
                    section_entries(doc@, section@) == all,
            {
                assert(all.skip(i as int)[0] == entries@[i as int]@);
                assert(all.skip(i as int).drop_first() =~= all.skip(i + 1));
                if text::str_same(entries[i].name.as_str(), name) {
                    return Some(&entries[i]);
                }
            }
            None
        },
        None => None,
    }
}

/// The text of an entry of a section.
pub open spec fn entry_text(doc: DocumentView, section: Seq<char>, name: Seq<char>) -> Option<
    Seq<char>,
> {
    match named_entry(section_entries(doc, section), name) {
        Some(e) => e.text,
        None => None,
    }
}

fn find_entry_text(doc: &Document, section: &str, name: &str) -> (r: Option<String>)
    ensures
        text::opt_text(r) == entry_text(doc@, section@, name@),
{
    match find_entry(doc, section, name) {
        Some(e) => text::clone_option(&e.text),
        None => None,
    }
}

// ---------------------------------------------------------------------------
// Tables of dependencies and scripts
// ---------------------------------------------------------------------------

/// The names of entries with their texts; an entry that is no text has the empty text.
pub open spec fn all_pairs(entries: Seq<EntryView>) -> Seq<(Seq<char>, Seq<char>)> {
    entries.map_values(
        |e: EntryView|
            (
                e.name,
                match e.text {
                    Some(t) => t,
                    None => seq![],
                },
            ),
    )
}

/// The names of those entries that are texts, with their texts.
pub open spec fn text_pairs(entries: Seq<EntryView>) -> Seq<(Seq<char>, Seq<char>)>
    decreases entries.len(),
{
    if entries.len() == 0 {
        seq![]
    } else {
        let front = text_pairs(entries.drop_last());
        match entries.last().text {
            Some(t) => front.push((entries.last().name, t)),
            None => front,
        }
    }
}

/// The texts of a list, what is no text left out.
pub open spec fn list_texts(list: Seq<Option<Seq<char>>>) -> Seq<Seq<char>>
    decreases list.len(),
{
    if list.len() == 0 {
        seq![]
    } else {
        let front = list_texts(list.drop_last());
        match list.last() {
            Some(t) => front.push(t),
            None => front,
        }
    }
}

/// Texts under the names `dep0`, `dep1` and so on.
pub open spec fn numbered_pairs(texts: Seq<Seq<char>>) -> Seq<(Seq<char>, Seq<char>)> {
    Seq::new(texts.len(), |i: int| ("dep"@ + text::decimal(i as nat), texts[i]))
}

/// The table of some pairs: of two with one name the later counts, and the names are in order.
pub open spec fn table(pairs: Seq<(Seq<char>, Seq<char>)>) -> Seq<(Seq<char>, Seq<char>)> {
    collections::listed(collections::map_of(pairs))
}

fn empty_table() -> (r: SortedMap<String>)
    ensures
        r.wf(),
        r@ == table(seq![]),
        r@ == Seq::<(Seq<char>, Seq<char>)>::empty(),
{
    let out: SortedMap<String> = SortedMap::new();
    proof {
        out.lemma_listed();
    }
    out
}

fn table_of_all(doc: &Document, section: &str) -> (r: SortedMap<String>)
    ensures
        r.wf(),
        r@ == table(all_pairs(section_entries(doc@, section@))),
{
    let mut out: SortedMap<String> = SortedMap::new();
    let ghost pairs = all_pairs(section_entries(doc@, section@));
    match find_entries(doc, section) {
        Some(entries) => {
            let ghost all = entry_views(entries@);
            assert(pairs.take(0) =~= seq![]);
            for i in 0..entries.len()
                invariant
                    out.wf(),
                    all == entry_views(entries@),
                    pairs == all_pairs(all),
                    out.map() == collections::map_of(pairs.take(i as int)),
            {
                assert(all[i as int] == entries@[i as int]@);
                assert(pairs.take(i + 1).drop_last() =~= pairs.take(i as int));
                let value = match &entries[i].text {
                    Some(t) => t.clone(),
                    None => String::new(),
                };
                assert(pairs[i as int].1 =~= value@);
                out.insert(entries[i].name.clone(), value);
            }
            assert(pairs.take(entries@.len() as int) =~= pairs);
        },
        None => {
            assert(pairs =~= seq![]);
        },
    }
    proof {
        out.lemma_listed();
    }
    out
}

fn table_of_texts(doc: &Document, section: &str) -> (r: SortedMap<String>)
    ensures
        r.wf(),
        r@ == table(text_pairs(section_entries(doc@, section@))),
{
    let mut out: SortedMap<String> = SortedMap::new();
    let ghost all = section_entries(doc@, section@);
    match find_entries(doc, section) {
        Some(entries) => {
            assert(all.take(0) =~= seq![]);
            for i in 0..entries.len()
                invariant
                    out.wf(),
                    all == entry_views(entries@),
                    out.map() == collections::map_of(text_pairs(all.take(i as int))),
            {
                assert(all[i as int] == entries@[i as int]@);
                assert(all.take(i + 1).drop_last() =~= all.take(i as int));
                if let Some(t) = &entries[i].text {
                    proof {
                        let front = text_pairs(all.take(i as int));
                        let p = (all[i as int].name, t@);
                        assert(front.push(p).drop_last() =~= front);
                        assert(front.push(p).last() == p);
                    }
                    out.insert(entries[i].name.clone(), t.clone());
                }
            }
            assert(all.take(entries@.len() as int) =~= all);
        },
        None => {},
    }
    proof {
        out.lemma_listed();
    }
    out
}

/// The list of an entry of a section.
pub open spec fn entry_list(doc: DocumentView, section: Seq<char>, name: Seq<char>) -> Seq<
    Option<Seq<char>>,
> {
    match named_entry(section_entries(doc, section), name) {
        Some(e) => match e.list {
            Some(l) => l,
            None => seq![],
        },
        None => seq![],
    }
}

fn numbered_table(doc: &Document, section: &str, name: &str) -> (r: SortedMap<String>)
    ensures
        r.wf(),
        r@ == table(numbered_pairs(list_texts(entry_list(doc@, section@, name@)))),
{
    let mut out: SortedMap<String> = SortedMap::new();
    let ghost all = entry_list(doc@, section@, name@);
    assert(numbered_pairs(seq![]) =~= seq![]);
    if let Some(e) = find_entry(doc, section, name) {
        if let Some(list) = &e.list {
            let mut n: usize = 0;
            assert(all.take(0) =~= seq![]);
            for i in 0..list.len()
                invariant
                    out.wf(),
                    all == list@.map_values(|o: Option<String>| text::opt_text(o)),
                    n == list_texts(all.take(i as int)).len(),
                    n <= i,
                    out.map() == collections::map_of(numbered_pairs(list_texts(all.take(i as int)))),
            {
                assert(all[i as int] == text::opt_text(list@[i as int]));
                assert(all.take(i + 1).drop_last() =~= all.take(i as int));
                if let Some(t) = &list[i] {
                    let mut key = "dep".to_owned();
                    text::push_decimal(&mut key, n);
                    proof {
                        let before = list_texts(all.take(i as int));
                        let pairs = numbered_pairs(before.push(t@));
                        assert(pairs.drop_last() =~= numbered_pairs(before));
                        assert(pairs.last() == (key@, t@));
                    }
                    out.insert(key, t.clone());
                    n += 1;
                }
            }
            assert(all.take(list@.len() as int) =~= all);
        }
    }
    proof {
        out.lemma_listed();
    }
    out
}

// ---------------------------------------------------------------------------
// The manifests
// ---------------------------------------------------------------------------

/// What a `package.json` says.
pub open spec fn npm_view(doc: DocumentView) -> ManifestView {
    ManifestView {
        name: section_text(doc, "name"@),
        description: section_text(doc, "description"@),
        dependencies: table(all_pairs(section_entries(doc, "dependencies"@))),
        dev_dependencies: table(all_pairs(section_entries(doc, "devDependencies"@))),
        scripts: table(all_pairs(section_entries(doc, "scripts"@))),
    }
}

/// Reads a `package.json`.
pub fn npm_manifest(doc: &Document) -> (r: ManifestInfo)
    ensures
        r.wf(),
        r@ == npm_view(doc@),
{
    ManifestInfo {
        name: find_text(doc, "name"),
        description: find_text(doc, "description"),
        dependencies: table_of_all(doc, "dependencies"),
        dev_dependencies: table_of_all(doc, "devDependencies"),
        scripts: table_of_all(doc, "scripts"),
    }
}

/// What a `Cargo.toml` says.
pub open spec fn cargo_view(doc: DocumentView) -> ManifestView {
    ManifestView {
        name: entry_text(doc, "package"@, "name"@),
        description: entry_text(doc, "package"@, "description"@),
        dependencies: table(text_pairs(section_entries(doc, "dependencies"@))),
        dev_dependencies: table(text_pairs(section_entries(doc, "dev-dependencies"@))),
        scripts: seq![],
    }
}

/// Reads a `Cargo.toml`. A dependency that is no plain version is left out.
pub fn cargo_manifest(doc: &Document) -> (r: ManifestInfo)
    ensures
        r.wf(),
        r@ == cargo_view(doc@),
{
    ManifestInfo {
        name: find_entry_text(doc, "package", "name"),
        description: find_entry_text(doc, "package", "description"),
        dependencies: table_of_texts(doc, "dependencies"),
        dev_dependencies: table_of_texts(doc, "dev-dependencies"),
        scripts: empty_table(),
    }
}

/// What a `pyproject.toml` says.
pub open spec fn python_view(doc: DocumentView) -> ManifestView {
    ManifestView {
        name: entry_text(doc, "project"@, "name"@),
        description: entry_text(doc, "project"@, "description"@),
        dependencies: table(
            numbered_pairs(list_texts(entry_list(doc, "project"@, "dependencies"@))),
        ),
        dev_dependencies: seq![],
        scripts: seq![],
    }
}

/// Reads a `pyproject.toml`, whose dependencies have no names of their own.
pub fn python_manifest(doc: &Document) -> (r: ManifestInfo)
    ensures
        r.wf(),
        r@ == python_view(doc@),
{
    ManifestInfo {
        name: find_entry_text(doc, "project", "name"),
        description: find_entry_text(doc, "project", "description"),
        dependencies: numbered_table(doc, "project", "dependencies"),
        dev_dependencies: empty_table(),
        scripts: empty_table(),
    }
}

/// Manifests as plain values.
pub open spec fn manifest_views(v: Seq<ManifestInfo>) -> Seq<ManifestView> {
    v.map_values(|m: ManifestInfo| m@)
}

/// The manifests of those documents that are there.
pub open spec fn manifests_of(
    npm: Option<DocumentView>,
    cargo: Option<DocumentView>,
    python: Option<DocumentView>,
) -> Seq<ManifestView> {
    let a = match npm {
        Some(d) => seq![npm_view(d)],
        None => seq![],
    };
    let b = match cargo {
        Some(d) => seq![cargo_view(d)],
        None => seq![],
    };
    let c = match python {
        Some(d) => seq![python_view(d)],
        None => seq![],
    };
    a + b + c
}

/// Reads the manifests of those documents that are there.
pub fn read_manifests(npm: Option<Document>, cargo: Option<Document>, python: Option<Document>) -> (r:
    Vec<ManifestInfo>)
    ensures
        manifest_views(r@) == manifests_of(document_if(npm), document_if(cargo), document_if(python)),
        forall|i: int| 0 <= i < r@.len() ==> (#[trigger] r@[i]).wf(),
{
    let mut out: Vec<ManifestInfo> = Vec::new();
    assert(manifest_views(out@) =~= seq![]);
    if let Some(doc) = &npm {
        out.push(npm_manifest(doc));
    }
    let ghost a = manifest_views(out@);
    if let Some(doc) = &cargo {
        out.push(cargo_manifest(doc));
        assert(manifest_views(out@) =~= a + seq![cargo_view(doc@)]);
    } else {
        assert(a + seq![] =~= a);
    }
    let ghost b = manifest_views(out@);
    if let Some(doc) = &python {
        out.push(python_manifest(doc));
        assert(manifest_views(out@) =~= b + seq![python_view(doc@)]);
    } else {
        assert(b + seq![] =~= b);
    }
    out
}

/// The document of a file that may be there, by what its text parses to.
pub open spec fn read_as(
    content: Option<Seq<char>>,
    parsed: spec_fn(Seq<char>) -> Option<DocumentView>,
) -> Option<DocumentView> {
    match content {
        Some(c) => parsed(c),
        None => None,
    }
}

/// Collects the manifests of a project from the contents of those of its manifest files that can
/// be read. A file that does not parse is passed over.
pub fn collect_manifests(
    package_json: Option<&str>,
    cargo_toml: Option<&str>,
    pyproject_toml: Option<&str>,
) -> (r: Vec<ManifestInfo>)
    ensures
        manifest_views(r@) == manifests_of(
            read_as(text::opt_str(package_json), |c: Seq<char>| json_document(c)),
            read_as(text::opt_str(cargo_toml), |c: Seq<char>| toml_document(c)),
            read_as(text::opt_str(pyproject_toml), |c: Seq<char>| toml_document(c)),
        ),
        forall|i: int| 0 <= i < r@.len() ==> (#[trigger] r@[i]).wf(),
{
    let npm = match package_json {
        Some(content) => parse_json(content),
        None => None,
    };
    let cargo = match cargo_toml {
        Some(content) => parse_toml(content),
        None => None,
    };
    let python = match pyproject_toml {
        Some(content) => parse_toml(content),
        None => None,
    };
    read_manifests(npm, cargo, python)
}

} // verus!
