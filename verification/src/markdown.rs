//! The project map as Markdown.
use vstd::prelude::*;

use crate::collections::SortedMap;
use crate::model::{
    DirectoryInfo, DirectoryView, KeyFileInfo, KeyFileView, ManifestInfo, ManifestView, Overview,
    OverviewView, ProjectMap, ProjectView,
};
use crate::text;

verus! {

// ---------------------------------------------------------------------------
// Parts
// ---------------------------------------------------------------------------

/// What is written for each item, one after the other.
pub open spec fn rendered<A>(items: Seq<A>, f: spec_fn(A) -> Seq<char>) -> Seq<char>
    decreases items.len(),
{
    if items.len() == 0 {
        seq![]
    } else {
        rendered(items.drop_last(), f) + f(items.last())
    }
}

/// A line for a language and its number of lines.
pub open spec fn language_line() -> spec_fn((Seq<char>, usize)) -> Seq<char> {
    |e: (Seq<char>, usize)| "- **"@ + e.0 + "**: "@ + text::grouped(e.1 as nat) + " lines\n"@
}

/// An indented line for a name and its value.
pub open spec fn pair_line() -> spec_fn((Seq<char>, Seq<char>)) -> Seq<char> {
    |e: (Seq<char>, Seq<char>)| "  - "@ + e.0 + ": "@ + e.1 + "\n"@
}

/// A line for a path.
pub open spec fn path_line() -> spec_fn(Seq<char>) -> Seq<char> {
    |p: Seq<char>| "- `"@ + p + "`\n"@
}

/// A line for a symbol, which is written like a path.
pub open spec fn symbol_line() -> spec_fn(Seq<char>) -> Seq<char> {
    path_line()
}

/// A text that may be there between two others; nothing where it is not.
pub open spec fn between(before: Seq<char>, o: Option<Seq<char>>, after: Seq<char>) -> Seq<char> {
    match o {
        Some(s) => before + s + after,
        None => seq![],
    }
}

/// A table under its title; nothing where it has no entries.
pub open spec fn table_part(title: Seq<char>, pairs: Seq<(Seq<char>, Seq<char>)>) -> Seq<char> {
    if pairs.len() == 0 {
        seq![]
    } else {
        title + rendered(pairs, pair_line())
    }
}

/// A list under its title, and an empty line; nothing where it has no items.
pub open spec fn list_part(
    title: Seq<char>,
    items: Seq<Seq<char>>,
    line: spec_fn(Seq<char>) -> Seq<char>,
) -> Seq<char> {
    if items.len() == 0 {
        seq![]
    } else {
        title + rendered(items, line) + "\n"@
    }
}

/// A manifest.
pub open spec fn manifest_part() -> spec_fn(ManifestView) -> Seq<char> {
    |m: ManifestView|
        "### Manifest\n\n"@ + between("- **Name**: "@, m.name, "\n"@) + between(
            "- **Description**: "@,
            m.description,
            "\n"@,
        ) + table_part("- **Dependencies**:\n"@, m.dependencies) + table_part(
            "- **Dev Dependencies**:\n"@,
            m.dev_dependencies,
        ) + table_part("- **Scripts**:\n"@, m.scripts) + "\n"@
}

/// A directory with its files.
pub open spec fn directory_part() -> spec_fn(DirectoryView) -> Seq<char> {
    |d: DirectoryView|
        "### "@ + d.path + "/ ("@ + text::decimal(d.file_count as nat) + " files) — *"@ + d.role
            + "*\n\n"@ + rendered(d.files, path_line()) + "\n"@
}

/// A file with what is known of it.
pub open spec fn key_file_part() -> spec_fn(KeyFileView) -> Seq<char> {
    |k: KeyFileView|
        "### `"@ + k.path + "` ("@ + text::decimal(k.dependent_count as nat) + " dependents)\n\n"@
            + between("**Purpose**: "@, k.purpose, "\n\n"@) + list_part(
            "**Public Symbols**:\n"@,
            k.symbols,
            symbol_line(),
        ) + list_part("**Depends On**:\n"@, k.dependencies, path_line())
}

/// The overview.
pub open spec fn overview_part(o: OverviewView) -> Seq<char> {
    "## Overview\n\n"@ + between("> "@, o.readme_summary, "\n\n"@) + "### Languages\n\n"@
        + rendered(o.languages, language_line()) + "\n"@ + rendered(o.manifests, manifest_part())
        + list_part("### Entry Points\n\n"@, o.entry_points, path_line()) + "### Test Files: "@
        + text::decimal(o.test_count as nat) + "\n\n"@
}

/// The directories.
pub open spec fn structure_part(dirs: Seq<DirectoryView>) -> Seq<char> {
    "## Structure\n\n"@ + rendered(dirs, directory_part())
}

/// The ranked files.
pub open spec fn key_files_part(files: Seq<KeyFileView>) -> Seq<char> {
    "## Key Files\n\n"@
        + "*Ranked by how many other files depend on them (Aider-style repo map)*\n\n"@ + rendered(
        files,
        key_file_part(),
    )
}

/// What stands below the map.
pub const FOOTER: &'static str =
    "---\n\n*This map is generated heuristically using tree-sitter-based symbol/import extraction\nwith regex fallback. It may miss dynamic imports, macros, and runtime-only\ndependencies. Purpose lines are extracted from source comments/docstrings where\navailable.\nUse this as a starting point; read specific files for details.*\n";

/// The whole map.
pub open spec fn markdown(map: ProjectView) -> Seq<char> {
    "# Project Map\n\n"@ + overview_part(map.overview) + structure_part(map.structure)
        + key_files_part(map.key_files) + FOOTER@
}

// ---------------------------------------------------------------------------
// Writing
// ---------------------------------------------------------------------------

fn write_between(before: &str, o: &Option<String>, after: &str) -> (r: String)
    ensures
        r@ == between(before@, text::opt_text(*o), after@),
{
    match o {
        Some(s) => {
            let mut out = before.to_owned();
            out.append(s.as_str());
            out.append(after);
            out
        },
        None => String::new(),
    }
}

fn write_languages(languages: &SortedMap<usize>) -> (r: String)
    ensures
        r@ == rendered(languages@, language_line()),
{
    let ghost all = languages@;
    let mut out = String::new();
    let n: usize = languages.len();
    assert(all.take(0) =~= seq![]);
    for i in 0..n
        invariant
            all == languages@,
            n == all.len(),
            out@ == rendered(all.take(i as int), language_line()),
    {
        assert(all.take(i + 1).drop_last() =~= all.take(i as int));
        let mut line = "- **".to_owned();
        line.append(languages.key_at(i).as_str());
        line.append("**: ");
        text::push_grouped(&mut line, *languages.value_at(i));
        line.append(" lines\n");
        out.append(line.as_str());
    }
    assert(all.take(n as int) =~= all);
    out
}

fn write_table(title: &str, pairs: &SortedMap<String>) -> (r: String)
    ensures
        r@ == table_part(title@, pairs@),
{
    if pairs.is_empty() {
        return String::new();
    }
    let ghost all = pairs@;
    let mut lines = String::new();
    let n: usize = pairs.len();
    assert(all.take(0) =~= seq![]);
    for i in 0..n
        invariant
            all == pairs@,
            n == all.len(),
            lines@ == rendered(all.take(i as int), pair_line()),
    {
        assert(all.take(i + 1).drop_last() =~= all.take(i as int));
        let mut line = "  - ".to_owned();
        line.append(pairs.key_at(i).as_str());
        line.append(": ");
        line.append(pairs.value_at(i).as_str());
        line.append("\n");
        lines.append(line.as_str());
    }
    assert(all.take(n as int) =~= all);
    text::concat(title, lines.as_str())
}

fn write_items(items: &Vec<String>) -> (r: String)
    ensures
        r@ == rendered(text::texts(items@), path_line()),
{
    let ghost all = text::texts(items@);
    let mut out = String::new();
    assert(all.take(0) =~= seq![]);
    for i in 0..items.len()
        invariant
            all == text::texts(items@),
            out@ == rendered(all.take(i as int), path_line()),
    {
        assert(all.take(i + 1).drop_last() =~= all.take(i as int));
        assert(all.take(i + 1).last() == items@[i as int]@);
        let mut line = "- `".to_owned();
        line.append(items[i].as_str());
        line.append("`\n");
        out.append(line.as_str());
    }
    assert(all.take(items@.len() as int) =~= all);
    out
}

fn write_list(title: &str, items: &Vec<String>) -> (r: String)
    ensures
        r@ == list_part(title@, text::texts(items@), path_line()),
{
    if items.len() == 0 {
        return String::new();
    }
    let mut out = title.to_owned();
    out.append(write_items(items).as_str());
    out.append("\n");
    out
}

fn write_manifest(m: &ManifestInfo) -> (r: String)
    ensures
        r@ == manifest_part()(m@),
{
    let mut out = "### Manifest\n\n".to_owned();
    out.append(write_between("- **Name**: ", &m.name, "\n").as_str());
    out.append(write_between("- **Description**: ", &m.description, "\n").as_str());
    out.append(write_table("- **Dependencies**:\n", &m.dependencies).as_str());
    out.append(write_table("- **Dev Dependencies**:\n", &m.dev_dependencies).as_str());
    out.append(write_table("- **Scripts**:\n", &m.scripts).as_str());
    out.append("\n");
    out
}

fn write_manifests(manifests: &Vec<ManifestInfo>) -> (r: String)
    ensures
        r@ == rendered(manifests@.map_values(|m: ManifestInfo| m@), manifest_part()),
{
    let ghost all = manifests@.map_values(|m: ManifestInfo| m@);
    let mut out = String::new();
    assert(all.take(0) =~= seq![]);
    for i in 0..manifests.len()
        invariant
            all == manifests@.map_values(|m: ManifestInfo| m@),
            out@ == rendered(all.take(i as int), manifest_part()),
    {
        assert(all.take(i + 1).drop_last() =~= all.take(i as int));
        assert(all.take(i + 1).last() == manifests@[i as int]@);
        out.append(write_manifest(&manifests[i]).as_str());
    }
    assert(all.take(manifests@.len() as int) =~= all);
    out
}

fn write_overview(o: &Overview) -> (r: String)
    ensures
        r@ == overview_part(o@),
{
    let mut out = "## Overview\n\n".to_owned();
    out.append(write_between("> ", &o.readme_summary, "\n\n").as_str());
    out.append("### Languages\n\n");
    out.append(write_languages(&o.languages).as_str());
    out.append("\n");
    out.append(write_manifests(&o.manifests).as_str());
    out.append(write_list("### Entry Points\n\n", &o.entry_points).as_str());
    out.append("### Test Files: ");
    text::push_decimal(&mut out, o.test_count);
    out.append("\n\n");
    out
}

fn write_directory(d: &DirectoryInfo) -> (r: String)
    ensures
        r@ == directory_part()(d@),
{
    let mut out = "### ".to_owned();
    out.append(d.path.as_str());
    out.append("/ (");
    text::push_decimal(&mut out, d.file_count);
    out.append(" files) — *");
    out.append(d.role.as_str());
    out.append("*\n\n");
    out.append(write_items(&d.files).as_str());
    out.append("\n");
    out
}

fn write_structure(dirs: &Vec<DirectoryInfo>) -> (r: String)
    ensures
        r@ == structure_part(dirs@.map_values(|d: DirectoryInfo| d@)),
{
    let ghost all = dirs@.map_values(|d: DirectoryInfo| d@);
    let mut lines = String::new();
    assert(all.take(0) =~= seq![]);
    for i in 0..dirs.len()
        invariant
            all == dirs@.map_values(|d: DirectoryInfo| d@),
            lines@ == rendered(all.take(i as int), directory_part()),
    {
        assert(all.take(i + 1).drop_last() =~= all.take(i as int));
        assert(all.take(i + 1).last() == dirs@[i as int]@);
        lines.append(write_directory(&dirs[i]).as_str());
    }
    assert(all.take(dirs@.len() as int) =~= all);
    text::concat("## Structure\n\n", lines.as_str())
}

fn write_key_file(k: &KeyFileInfo) -> (r: String)
    ensures
        r@ == key_file_part()(k@),
{
    let mut out = "### `".to_owned();
    out.append(k.path.as_str());
    out.append("` (");
    text::push_decimal(&mut out, k.dependent_count);
    out.append(" dependents)\n\n");
    out.append(write_between("**Purpose**: ", &k.purpose, "\n\n").as_str());
    out.append(write_list("**Public Symbols**:\n", &k.symbols).as_str());
    out.append(write_list("**Depends On**:\n", &k.dependencies).as_str());
    out
}

fn write_key_files(files: &Vec<KeyFileInfo>) -> (r: String)
    ensures
        r@ == key_files_part(files@.map_values(|k: KeyFileInfo| k@)),
{
    let ghost all = files@.map_values(|k: KeyFileInfo| k@);
    let mut lines = String::new();
    assert(all.take(0) =~= seq![]);
    for i in 0..files.len()
        invariant
            all == files@.map_values(|k: KeyFileInfo| k@),
            lines@ == rendered(all.take(i as int), key_file_part()),
    {
        assert(all.take(i + 1).drop_last() =~= all.take(i as int));
        assert(all.take(i + 1).last() == files@[i as int]@);
        lines.append(write_key_file(&files[i]).as_str());
    }
    assert(all.take(files@.len() as int) =~= all);
    let mut out = "## Key Files\n\n".to_owned();
    out.append("*Ranked by how many other files depend on them (Aider-style repo map)*\n\n");
    out.append(lines.as_str());
    out
}

/// Writes a project map as Markdown.
pub fn format_markdown(map: &ProjectMap) -> (r: String)
    ensures
        r@ == markdown(map@),
{
    let mut out = "# Project Map\n\n".to_owned();
    out.append(write_overview(&map.overview).as_str());
    out.append(write_structure(&map.structure).as_str());
    out.append(write_key_files(&map.key_files).as_str());
    out.append(FOOTER);
    out
}

/// A text begins with another.
spec fn begins(s: Seq<char>, p: Seq<char>) -> bool {
    p.len() <= s.len() && s.take(p.len() as int) == p
}

/// A text begins as it did when more is written behind it.
proof fn lemma_still_begins(a: Seq<char>, b: Seq<char>, p: Seq<char>)
    requires
        begins(a, p),
    ensures
        begins(a + b, p),
{
    assert((a + b).take(p.len() as int) =~= a.take(p.len() as int));
}

/// What a part begins with stands where the part does.
proof fn lemma_part_occurs(a: Seq<char>, b: Seq<char>, c: Seq<char>, p: Seq<char>)
    requires
        begins(b, p),
    ensures
        text::occurs_at(a + b + c, p, a.len() as int),
{
    let i = a.len() as int;
    assert((a + b + c).subrange(i, i + p.len()) =~= b.take(p.len() as int));
}

proof fn lemma_overview_begins(o: OverviewView)
    ensures
        begins(overview_part(o), "## Overview"@),
{
    let p = "## Overview"@;
    reveal_strlit("## Overview\n\n");
    reveal_strlit("## Overview");
    let a = "## Overview\n\n"@;
    assert(a.take(11) =~= p);
    let b = between("> "@, o.readme_summary, "\n\n"@);
    lemma_still_begins(a, b, p);
    let c = "### Languages\n\n"@;
    lemma_still_begins(a + b, c, p);
    let d = rendered(o.languages, language_line());
    lemma_still_begins(a + b + c, d, p);
    let e = "\n"@;
    lemma_still_begins(a + b + c + d, e, p);
    let f = rendered(o.manifests, manifest_part());
    lemma_still_begins(a + b + c + d + e, f, p);
    let g = list_part("### Entry Points\n\n"@, o.entry_points, path_line());
    lemma_still_begins(a + b + c + d + e + f, g, p);
    let h = "### Test Files: "@;
    lemma_still_begins(a + b + c + d + e + f + g, h, p);
    let i = text::decimal(o.test_count as nat);
    lemma_still_begins(a + b + c + d + e + f + g + h, i, p);
    lemma_still_begins(a + b + c + d + e + f + g + h + i, "\n\n"@, p);
}

proof fn lemma_structure_begins(dirs: Seq<DirectoryView>)
    ensures
        begins(structure_part(dirs), "## Structure"@),
{
    reveal_strlit("## Structure\n\n");
    reveal_strlit("## Structure");
    assert("## Structure\n\n"@.take(12) =~= "## Structure"@);
    lemma_still_begins(
        "## Structure\n\n"@,
        rendered(dirs, directory_part()),
        "## Structure"@,
    );
}

proof fn lemma_key_files_begin(files: Seq<KeyFileView>)
    ensures
        begins(key_files_part(files), "## Key Files"@),
{
    let p = "## Key Files"@;
    let a = "## Key Files\n\n"@;
    let b = "*Ranked by how many other files depend on them (Aider-style repo map)*\n\n"@;
    reveal_strlit("## Key Files\n\n");
    reveal_strlit("## Key Files");
    assert(a.take(12) =~= p);
    lemma_still_begins(a, b, p);
    lemma_still_begins(a + b, rendered(files, key_file_part()), p);
}

/// Three parts behind a title stand one behind the other.
proof fn lemma_parts_in_order(
    title: Seq<char>,
    a: Seq<char>,
    b: Seq<char>,
    c: Seq<char>,
    end: Seq<char>,
)
    ensures
        title + a + b + c + end == title + a + (b + c + end),
        title + a + b + c + end == (title + a) + b + (c + end),
        title + a + b + c + end == (title + a + b) + c + end,
{
    assert(title + a + b + c + end =~= title + a + (b + c + end));
    assert(title + a + b + c + end =~= (title + a) + b + (c + end));
}

/// The sections stand in the map in their order: the overview, the structure and the key files.
pub proof fn sections_come_in_order(map: ProjectView)
    ensures
        exists|i: int, j: int, k: int|
            i < j < k && #[trigger] text::occurs_at(markdown(map), "## Overview"@, i)
                && #[trigger] text::occurs_at(markdown(map), "## Structure"@, j)
                && #[trigger] text::occurs_at(markdown(map), "## Key Files"@, k),
{
    let title = "# Project Map\n\n"@;
    let a = overview_part(map.overview);
    let b = structure_part(map.structure);
    let c = key_files_part(map.key_files);
    lemma_overview_begins(map.overview);
    lemma_structure_begins(map.structure);
    lemma_key_files_begin(map.key_files);
    lemma_parts_in_order(title, a, b, c, FOOTER@);
    lemma_part_occurs(title, a, b + c + FOOTER@, "## Overview"@);
    lemma_part_occurs(title + a, b, c + FOOTER@, "## Structure"@);
    lemma_part_occurs(title + a + b, c, FOOTER@, "## Key Files"@);
    reveal_strlit("## Overview");
    reveal_strlit("## Structure");
    let i = title.len() as int;
    let j = (title + a).len() as int;
    let k = (title + a + b).len() as int;
    assert(i < j < k);
    assert(text::occurs_at(markdown(map), "## Overview"@, i));
    assert(text::occurs_at(markdown(map), "## Structure"@, j));
    assert(text::occurs_at(markdown(map), "## Key Files"@, k));
}

} // verus!
