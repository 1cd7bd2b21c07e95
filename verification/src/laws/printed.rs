//! What is printed of a map, and where.
use vstd::prelude::*;

use crate::markdown;
use crate::model::{
    DirectoryView, KeyFileView, ManifestView, OverviewView, ProjectView,
};
use crate::text;

verus! {

/// The pieces stand in a text one behind the other, with or without something in between.
pub open spec fn in_order(s: Seq<char>, pieces: Seq<Seq<char>>) -> bool
    decreases pieces.len(),
{
    pieces.len() == 0 || exists|i: int| #[trigger]
        text::occurs_at(s, pieces.last(), i) && in_order(s.take(i), pieces.drop_last())
}

proof fn lemma_whole(s: Seq<char>)
    ensures
        in_order(s, seq![s]),
{
    let p = seq![s];
    assert(p.last() == s);
    assert(p.drop_last() =~= seq![]);
    assert(s.subrange(0, s.len() as int) =~= s);
    assert(text::occurs_at(s, s, 0));
    assert(in_order(s.take(0), p.drop_last()));
}

proof fn lemma_behind(a: Seq<char>, b: Seq<char>, p: Seq<Seq<char>>)
    requires
        in_order(a, p),
    ensures
        in_order(a + b, p),
{
    if p.len() > 0 {
        let i = choose|i: int| #[trigger]
            text::occurs_at(a, p.last(), i) && in_order(a.take(i), p.drop_last());
        let n = p.last().len();
        assert((a + b).subrange(i, i + n) =~= a.subrange(i, i + n));
        assert((a + b).take(i) =~= a.take(i));
        assert(text::occurs_at(a + b, p.last(), i));
    }
}

/// Pieces of one text and pieces of another are in order where the texts are.
proof fn lemma_joined(a: Seq<char>, b: Seq<char>, p: Seq<Seq<char>>, q: Seq<Seq<char>>)
    requires
        in_order(a, p),
        in_order(b, q),
    ensures
        in_order(a + b, p + q),
    decreases q.len(),
{
    if q.len() == 0 {
        assert(p + q =~= p);
        lemma_behind(a, b, p);
    } else {
        let i = choose|i: int| #[trigger]
            text::occurs_at(b, q.last(), i) && in_order(b.take(i), q.drop_last());
        lemma_joined(a, b.take(i), p, q.drop_last());
        let j = a.len() + i;
        let n = q.last().len();
        let all = p + q;
        assert(all.last() == q.last());
        assert(all.drop_last() =~= p + q.drop_last());
        assert((a + b).subrange(j, j + n) =~= b.subrange(i, i + n));
        assert((a + b).take(j) =~= a + b.take(i));
        assert(text::occurs_at(a + b, all.last(), j));
    }
}

proof fn lemma_nothing(s: Seq<char>)
    ensures
        in_order(s, seq![]),
{
}

proof fn lemma_of_one<A>(items: Seq<A>, f: spec_fn(A) -> Seq<char>, i: int, p: Seq<Seq<char>>)
    requires
        0 <= i < items.len(),
        in_order(f(items[i]), p),
    ensures
        in_order(markdown::rendered(items, f), p),
    decreases items.len(),
{
    let front = items.drop_last();
    if i == items.len() - 1 {
        lemma_joined(markdown::rendered(front, f), f(items[i]), seq![], p);
        assert(seq![] + p =~= p);
    } else {
        assert(front[i] == items[i]);
        lemma_of_one(front, f, i, p);
        lemma_behind(markdown::rendered(front, f), f(items.last()), p);
    }
}

proof fn lemma_of_two<A>(
    items: Seq<A>,
    f: spec_fn(A) -> Seq<char>,
    i: int,
    j: int,
    p: Seq<Seq<char>>,
    q: Seq<Seq<char>>,
)
    requires
        0 <= i < j < items.len(),
        in_order(f(items[i]), p),
        in_order(f(items[j]), q),
    ensures
        in_order(markdown::rendered(items, f), p + q),
    decreases items.len(),
{
    let front = items.drop_last();
    assert(front[i] == items[i]);
    if j == items.len() - 1 {
        lemma_of_one(front, f, i, p);
        lemma_joined(markdown::rendered(front, f), f(items[j]), p, q);
    } else {
        assert(front[j] == items[j]);
        lemma_of_two(front, f, i, j, p, q);
        lemma_behind(markdown::rendered(front, f), f(items.last()), p + q);
    }
}

proof fn lemma_three(
    a: Seq<char>,
    b: Seq<char>,
    c: Seq<char>,
    p: Seq<Seq<char>>,
    q: Seq<Seq<char>>,
    r: Seq<Seq<char>>,
)
    requires
        in_order(a, p),
        in_order(b, q),
        in_order(c, r),
    ensures
        in_order(a + b + c, p + q + r),
{
    lemma_joined(a, b, p, q);
    lemma_joined(a + b, c, p + q, r);
}

proof fn lemma_map(
    map: ProjectView,
    overview: Seq<Seq<char>>,
    structure: Seq<Seq<char>>,
    files: Seq<Seq<char>>,
)
    requires
        in_order(markdown::overview_part(map.overview), overview),
        in_order(markdown::structure_part(map.structure), structure),
        in_order(markdown::key_files_part(map.key_files), files),
    ensures
        in_order(markdown::markdown(map), overview + structure + files),
{
    let t = "# Project Map\n\n"@;
    let a = markdown::overview_part(map.overview);
    let b = markdown::structure_part(map.structure);
    let c = markdown::key_files_part(map.key_files);
    lemma_three(t, a, b, seq![], overview, structure);
    assert(seq![] + overview + structure =~= overview + structure);
    lemma_three(
        t + a + b,
        c,
        markdown::FOOTER@,
        overview + structure,
        files,
        seq![],
    );
    assert(overview + structure + files + seq![] =~= overview + structure + files);
}

/// The parts of the overview, each with pieces of its own.
proof fn lemma_overview(
    o: OverviewView,
    summary: Seq<Seq<char>>,
    title: Seq<Seq<char>>,
    languages: Seq<Seq<char>>,
    manifests: Seq<Seq<char>>,
    entries: Seq<Seq<char>>,
)
    requires
        in_order(markdown::between("> "@, o.readme_summary, "\n\n"@), summary),
        in_order("### Languages\n\n"@, title),
        in_order(markdown::rendered(o.languages, markdown::language_line()), languages),
        in_order(markdown::rendered(o.manifests, markdown::manifest_part()), manifests),
        in_order(
            markdown::list_part("### Entry Points\n\n"@, o.entry_points, markdown::path_line()),
            entries,
        ),
    ensures
        in_order(
            markdown::overview_part(o),
            seq!["## Overview\n\n"@] + summary + title + languages + manifests + entries,
        ),
{
    let head = "## Overview\n\n"@;
    let one = seq![head];
    lemma_whole(head);
    let a = markdown::between("> "@, o.readme_summary, "\n\n"@);
    let b = "### Languages\n\n"@;
    lemma_three(head, a, b, one, summary, title);
    let c = markdown::rendered(o.languages, markdown::language_line());
    let d = "\n"@;
    let p = one + summary + title;
    lemma_three(head + a + b, c, d, p, languages, seq![]);
    assert(p + languages + seq![] =~= p + languages);
    let e = markdown::rendered(o.manifests, markdown::manifest_part());
    let f = markdown::list_part("### Entry Points\n\n"@, o.entry_points, markdown::path_line());
    lemma_three(head + a + b + c + d, e, f, p + languages, manifests, entries);
    let all = p + languages + manifests + entries;
    lemma_behind(head + a + b + c + d + e + f, "### Test Files: "@, all);
    let n = text::decimal(o.test_count as nat);
    lemma_behind(head + a + b + c + d + e + f + "### Test Files: "@, n, all);
    lemma_behind(head + a + b + c + d + e + f + "### Test Files: "@ + n, "\n\n"@, all);
}

proof fn lemma_structure_title(dirs: Seq<DirectoryView>, pieces: Seq<Seq<char>>)
    requires
        in_order(markdown::rendered(dirs, markdown::directory_part()), pieces),
    ensures
        in_order(markdown::structure_part(dirs), seq!["## Structure\n\n"@] + pieces),
{
    lemma_whole("## Structure\n\n"@);
    lemma_joined(
        "## Structure\n\n"@,
        markdown::rendered(dirs, markdown::directory_part()),
        seq!["## Structure\n\n"@],
        pieces,
    );
}

proof fn lemma_files_title(files: Seq<KeyFileView>, pieces: Seq<Seq<char>>)
    requires
        in_order(markdown::rendered(files, markdown::key_file_part()), pieces),
    ensures
        in_order(markdown::key_files_part(files), seq!["## Key Files\n\n"@] + pieces),
{
    lemma_whole("## Key Files\n\n"@);
    lemma_three(
        "## Key Files\n\n"@,
        "*Ranked by how many other files depend on them (Aider-style repo map)*\n\n"@,
        markdown::rendered(files, markdown::key_file_part()),
        seq!["## Key Files\n\n"@],
        seq![],
        pieces,
    );
    assert(seq!["## Key Files\n\n"@] + seq![] + pieces =~= seq!["## Key Files\n\n"@] + pieces);
}

/// Pieces of the overview stand behind its title and before the title of the structure.
proof fn lemma_in_overview(map: ProjectView, pieces: Seq<Seq<char>>)
    requires
        in_order(markdown::overview_part(map.overview), seq!["## Overview\n\n"@] + pieces),
    ensures
        in_order(
            markdown::markdown(map),
            seq!["## Overview\n\n"@] + pieces + seq!["## Structure\n\n"@],
        ),
{
    lemma_nothing(markdown::rendered(map.structure, markdown::directory_part()));
    lemma_structure_title(map.structure, seq![]);
    assert(seq!["## Structure\n\n"@] + seq![] =~= seq!["## Structure\n\n"@]);
    lemma_nothing(markdown::key_files_part(map.key_files));
    let o = seq!["## Overview\n\n"@] + pieces;
    let s = seq!["## Structure\n\n"@];
    lemma_map(map, o, s, seq![]);
    assert(o + s + seq![] =~= o + s);
}

/// The summary of the readme file is quoted in the overview, before the languages.
pub proof fn summaries_are_quoted(map: ProjectView, summary: Seq<char>)
    requires
        map.overview.readme_summary == Some(summary),
    ensures
        in_order(
            markdown::markdown(map),
            seq![
                "## Overview\n\n"@,
                "> "@ + summary + "\n\n"@,
                "### Languages\n\n"@,
                "## Structure\n\n"@,
            ],
        ),
{
    let line = "> "@ + summary + "\n\n"@;
    let title = "### Languages\n\n"@;
    lemma_whole(line);
    lemma_whole(title);
    lemma_overview(map.overview, seq![line], seq![title], seq![], seq![], seq![]);
    assert(seq!["## Overview\n\n"@] + seq![line] + seq![title] + seq![] + seq![] + seq![]
        =~= seq!["## Overview\n\n"@] + seq![line, title]);
    lemma_in_overview(map, seq![line, title]);
    assert(seq!["## Overview\n\n"@] + seq![line, title] + seq!["## Structure\n\n"@] =~= seq![
        "## Overview\n\n"@,
        line,
        title,
        "## Structure\n\n"@,
    ]);
}

/// Each language has a line with its number of lines, under the title of the languages.
pub proof fn languages_are_counted(map: ProjectView, k: int)
    requires
        0 <= k < map.overview.languages.len(),
    ensures
        in_order(
            markdown::markdown(map),
            seq![
                "## Overview\n\n"@,
                "### Languages\n\n"@,
                "- **"@ + map.overview.languages[k].0 + "**: "@ + text::grouped(
                    map.overview.languages[k].1 as nat,
                ) + " lines\n"@,
                "## Structure\n\n"@,
            ],
        ),
{
    let (name, count) = map.overview.languages[k];
    let line = "- **"@ + name + "**: "@ + text::grouped(count as nat) + " lines\n"@;
    let title = "### Languages\n\n"@;
    lemma_whole(line);
    lemma_whole(title);
    lemma_of_one(map.overview.languages, markdown::language_line(), k, seq![line]);
    lemma_overview(map.overview, seq![], seq![title], seq![line], seq![], seq![]);
    assert(seq!["## Overview\n\n"@] + seq![] + seq![title] + seq![line] + seq![] + seq![]
        =~= seq!["## Overview\n\n"@] + seq![title, line]);
    lemma_in_overview(map, seq![title, line]);
    assert(seq!["## Overview\n\n"@] + seq![title, line] + seq!["## Structure\n\n"@] =~= seq![
        "## Overview\n\n"@,
        title,
        line,
        "## Structure\n\n"@,
    ]);
}

/// Each entry point has a line under their title.
pub proof fn entry_points_are_listed(map: ProjectView, k: int)
    requires
        0 <= k < map.overview.entry_points.len(),
    ensures
        in_order(
            markdown::markdown(map),
            seq![
                "## Overview\n\n"@,
                "### Entry Points\n\n"@,
                "- `"@ + map.overview.entry_points[k] + "`\n"@,
                "## Structure\n\n"@,
            ],
        ),
{
    let line = "- `"@ + map.overview.entry_points[k] + "`\n"@;
    let title = "### Entry Points\n\n"@;
    lemma_whole(line);
    lemma_list(title, map.overview.entry_points, k);
    lemma_overview(map.overview, seq![], seq![], seq![], seq![], seq![title, line]);
    assert(seq!["## Overview\n\n"@] + seq![] + seq![] + seq![] + seq![] + seq![title, line]
        =~= seq!["## Overview\n\n"@] + seq![title, line]);
    lemma_in_overview(map, seq![title, line]);
    assert(seq!["## Overview\n\n"@] + seq![title, line] + seq!["## Structure\n\n"@] =~= seq![
        "## Overview\n\n"@,
        title,
        line,
        "## Structure\n\n"@,
    ]);
}

proof fn lemma_list(title: Seq<char>, items: Seq<Seq<char>>, k: int)
    requires
        0 <= k < items.len(),
    ensures
        in_order(
            markdown::list_part(title, items, markdown::path_line()),
            seq![title, "- `"@ + items[k] + "`\n"@],
        ),
{
    let line = "- `"@ + items[k] + "`\n"@;
    lemma_whole(title);
    lemma_whole(line);
    lemma_of_one(items, markdown::path_line(), k, seq![line]);
    lemma_three(
        title,
        markdown::rendered(items, markdown::path_line()),
        "\n"@,
        seq![title],
        seq![line],
        seq![],
    );
    assert(seq![title] + seq![line] + seq![] =~= seq![title, line]);
}

proof fn lemma_pairs(title: Seq<char>, pairs: Seq<(Seq<char>, Seq<char>)>, k: int)
    requires
        0 <= k < pairs.len(),
    ensures
        in_order(
            markdown::table_part(title, pairs),
            seq![title, "  - "@ + pairs[k].0 + ": "@ + pairs[k].1 + "\n"@],
        ),
{
    let line = "  - "@ + pairs[k].0 + ": "@ + pairs[k].1 + "\n"@;
    lemma_whole(title);
    lemma_whole(line);
    lemma_of_one(pairs, markdown::pair_line(), k, seq![line]);
    lemma_joined(title, markdown::rendered(pairs, markdown::pair_line()), seq![title], seq![line]);
    assert(seq![title] + seq![line] =~= seq![title, line]);
}

/// The number of test files closes the overview.
#[verifier::rlimit(60)]
pub proof fn tests_are_counted(map: ProjectView)
    ensures
        in_order(
            markdown::markdown(map),
            seq![
                "## Overview\n\n"@,
                "### Languages\n\n"@,
                "### Test Files: "@ + text::decimal(map.overview.test_count as nat) + "\n\n"@,
                "## Structure\n\n"@,
            ],
        ),
{
    let o = map.overview;
    let head = "## Overview\n\n"@;
    let a = markdown::between("> "@, o.readme_summary, "\n\n"@);
    let b = "### Languages\n\n"@;
    lemma_whole(head);
    lemma_whole(b);
    lemma_three(head, a, b, seq![head], seq![], seq![b]);
    assert(seq![head] + seq![] + seq![b] =~= seq![head, b]);
    let c = markdown::rendered(o.languages, markdown::language_line());
    let p = seq![head, b];
    lemma_behind(head + a + b, c, p);
    lemma_behind(head + a + b + c, "\n"@, p);
    let e = markdown::rendered(o.manifests, markdown::manifest_part());
    lemma_behind(head + a + b + c + "\n"@, e, p);
    let f = markdown::list_part("### Entry Points\n\n"@, o.entry_points, markdown::path_line());
    lemma_behind(head + a + b + c + "\n"@ + e, f, p);
    let n = text::decimal(o.test_count as nat);
    let line = "### Test Files: "@ + n + "\n\n"@;
    lemma_whole(line);
    lemma_joined(head + a + b + c + "\n"@ + e + f, line, p, seq![line]);
    let q = seq![b, line];
    assert(p + seq![line] =~= seq![head] + q);
    lemma_overview_around(o);
    lemma_in_overview(map, q);
    assert(seq![head] + q + seq!["## Structure\n\n"@] =~= seq![
        head,
        b,
        line,
        "## Structure\n\n"@,
    ]);
}

// ---------------------------------------------------------------------------
// Manifests
// ---------------------------------------------------------------------------

/// The parts of a manifest, each with pieces of its own.
proof fn lemma_manifest(
    m: ManifestView,
    name: Seq<Seq<char>>,
    description: Seq<Seq<char>>,
    dependencies: Seq<Seq<char>>,
    dev: Seq<Seq<char>>,
    scripts: Seq<Seq<char>>,
)
    requires
        in_order(markdown::between("- **Name**: "@, m.name, "\n"@), name),
        in_order(markdown::between("- **Description**: "@, m.description, "\n"@), description),
        in_order(markdown::table_part("- **Dependencies**:\n"@, m.dependencies), dependencies),
        in_order(markdown::table_part("- **Dev Dependencies**:\n"@, m.dev_dependencies), dev),
        in_order(markdown::table_part("- **Scripts**:\n"@, m.scripts), scripts),
    ensures
        in_order(
            markdown::manifest_part()(m),
            seq!["### Manifest\n\n"@] + name + description + dependencies + dev + scripts,
        ),
{
    let head = "### Manifest\n\n"@;
    let one = seq![head];
    lemma_whole(head);
    let a = markdown::between("- **Name**: "@, m.name, "\n"@);
    let b = markdown::between("- **Description**: "@, m.description, "\n"@);
    let c = markdown::table_part("- **Dependencies**:\n"@, m.dependencies);
    let d = markdown::table_part("- **Dev Dependencies**:\n"@, m.dev_dependencies);
    let e = markdown::table_part("- **Scripts**:\n"@, m.scripts);
    lemma_three(head, a, b, one, name, description);
    lemma_three(head + a + b, c, d, one + name + description, dependencies, dev);
    lemma_three(
        head + a + b + c + d,
        e,
        "\n"@,
        one + name + description + dependencies + dev,
        scripts,
        seq![],
    );
    let all = one + name + description + dependencies + dev + scripts;
    assert(all + seq![] =~= all);
}

/// Pieces of a manifest stand behind its title, which stands in the overview.
proof fn lemma_in_manifest(map: ProjectView, i: int, pieces: Seq<Seq<char>>)
    requires
        0 <= i < map.overview.manifests.len(),
        in_order(
            markdown::manifest_part()(map.overview.manifests[i]),
            seq!["### Manifest\n\n"@] + pieces,
        ),
    ensures
        in_order(
            markdown::markdown(map),
            seq!["## Overview\n\n"@, "### Manifest\n\n"@] + pieces + seq!["## Structure\n\n"@],
        ),
{
    let p = seq!["### Manifest\n\n"@] + pieces;
    lemma_of_one(map.overview.manifests, markdown::manifest_part(), i, p);
    lemma_overview(map.overview, seq![], seq![], seq![], p, seq![]);
    assert(seq!["## Overview\n\n"@] + seq![] + seq![] + seq![] + p + seq![] =~= seq![
        "## Overview\n\n"@,
    ] + p);
    lemma_in_overview(map, p);
    assert(seq!["## Overview\n\n"@] + p + seq!["## Structure\n\n"@] =~= seq![
        "## Overview\n\n"@,
        "### Manifest\n\n"@,
    ] + pieces + seq!["## Structure\n\n"@]);
}

/// The name and the description of a manifest each have a line behind its title.
pub proof fn manifests_are_named(map: ProjectView, i: int)
    requires
        0 <= i < map.overview.manifests.len(),
    ensures
        map.overview.manifests[i].name matches Some(name) ==> in_order(
            markdown::markdown(map),
            seq![
                "## Overview\n\n"@,
                "### Manifest\n\n"@,
                "- **Name**: "@ + name + "\n"@,
                "## Structure\n\n"@,
            ],
        ),
        map.overview.manifests[i].description matches Some(description) ==> in_order(
            markdown::markdown(map),
            seq![
                "## Overview\n\n"@,
                "### Manifest\n\n"@,
                "- **Description**: "@ + description + "\n"@,
                "## Structure\n\n"@,
            ],
        ),
{
    let m = map.overview.manifests[i];
    let one = seq!["### Manifest\n\n"@];
    let frame = seq!["## Overview\n\n"@, "### Manifest\n\n"@];
    let end = seq!["## Structure\n\n"@];
    if let Some(name) = m.name {
        let line = "- **Name**: "@ + name + "\n"@;
        lemma_whole(line);
        lemma_manifest(m, seq![line], seq![], seq![], seq![], seq![]);
        assert(one + seq![line] + seq![] + seq![] + seq![] + seq![] =~= one + seq![line]);
        lemma_in_manifest(map, i, seq![line]);
        assert(frame + seq![line] + end =~= seq![
            "## Overview\n\n"@,
            "### Manifest\n\n"@,
            line,
            "## Structure\n\n"@,
        ]);
    }
    if let Some(description) = m.description {
        let line = "- **Description**: "@ + description + "\n"@;
        lemma_whole(line);
        lemma_manifest(m, seq![], seq![line], seq![], seq![], seq![]);
        assert(one + seq![] + seq![line] + seq![] + seq![] + seq![] =~= one + seq![line]);
        lemma_in_manifest(map, i, seq![line]);
        assert(frame + seq![line] + end =~= seq![
            "## Overview\n\n"@,
            "### Manifest\n\n"@,
            line,
            "## Structure\n\n"@,
        ]);
    }
}

proof fn lemma_in_table(map: ProjectView, i: int, title: Seq<char>, line: Seq<char>)
    requires
        0 <= i < map.overview.manifests.len(),
        in_order(
            markdown::manifest_part()(map.overview.manifests[i]),
            seq!["### Manifest\n\n"@] + seq![title, line],
        ),
    ensures
        in_order(
            markdown::markdown(map),
            seq!["## Overview\n\n"@, "### Manifest\n\n"@, title, line, "## Structure\n\n"@],
        ),
{
    lemma_in_manifest(map, i, seq![title, line]);
    assert(seq!["## Overview\n\n"@, "### Manifest\n\n"@] + seq![title, line] + seq![
        "## Structure\n\n"@,
    ] =~= seq!["## Overview\n\n"@, "### Manifest\n\n"@, title, line, "## Structure\n\n"@]);
}

/// Each dependency of a manifest has a line under the title of the dependencies.
pub proof fn dependencies_are_listed(map: ProjectView, i: int, k: int)
    requires
        0 <= i < map.overview.manifests.len(),
        0 <= k < map.overview.manifests[i].dependencies.len(),
    ensures
        in_order(
            markdown::markdown(map),
            seq![
                "## Overview\n\n"@,
                "### Manifest\n\n"@,
                "- **Dependencies**:\n"@,
                "  - "@ + map.overview.manifests[i].dependencies[k].0 + ": "@
                    + map.overview.manifests[i].dependencies[k].1 + "\n"@,
                "## Structure\n\n"@,
            ],
        ),
{
    let m = map.overview.manifests[i];
    let title = "- **Dependencies**:\n"@;
    let line = "  - "@ + m.dependencies[k].0 + ": "@ + m.dependencies[k].1 + "\n"@;
    let p = seq![title, line];
    lemma_pairs(title, m.dependencies, k);
    lemma_manifest(m, seq![], seq![], p, seq![], seq![]);
    let one = seq!["### Manifest\n\n"@];
    assert(one + seq![] + seq![] + p + seq![] + seq![] =~= one + p);
    lemma_in_table(map, i, title, line);
}

/// Each dev dependency of a manifest has a line under the title of the dev dependencies.
pub proof fn dev_dependencies_are_listed(map: ProjectView, i: int, k: int)
    requires
        0 <= i < map.overview.manifests.len(),
        0 <= k < map.overview.manifests[i].dev_dependencies.len(),
    ensures
        in_order(
            markdown::markdown(map),
            seq![
                "## Overview\n\n"@,
                "### Manifest\n\n"@,
                "- **Dev Dependencies**:\n"@,
                "  - "@ + map.overview.manifests[i].dev_dependencies[k].0 + ": "@
                    + map.overview.manifests[i].dev_dependencies[k].1 + "\n"@,
                "## Structure\n\n"@,
            ],
        ),
{
    let m = map.overview.manifests[i];
    let title = "- **Dev Dependencies**:\n"@;
    let line = "  - "@ + m.dev_dependencies[k].0 + ": "@ + m.dev_dependencies[k].1 + "\n"@;
    let p = seq![title, line];
    lemma_pairs(title, m.dev_dependencies, k);
    lemma_manifest(m, seq![], seq![], seq![], p, seq![]);
    let one = seq!["### Manifest\n\n"@];
    assert(one + seq![] + seq![] + seq![] + p + seq![] =~= one + p);
    lemma_in_table(map, i, title, line);
}

/// Each script of a manifest has a line under the title of the scripts.
pub proof fn scripts_are_listed(map: ProjectView, i: int, k: int)
    requires
        0 <= i < map.overview.manifests.len(),
        0 <= k < map.overview.manifests[i].scripts.len(),
    ensures
        in_order(
            markdown::markdown(map),
            seq![
                "## Overview\n\n"@,
                "### Manifest\n\n"@,
                "- **Scripts**:\n"@,
                "  - "@ + map.overview.manifests[i].scripts[k].0 + ": "@
                    + map.overview.manifests[i].scripts[k].1 + "\n"@,
                "## Structure\n\n"@,
            ],
        ),
{
    let m = map.overview.manifests[i];
    let title = "- **Scripts**:\n"@;
    let line = "  - "@ + m.scripts[k].0 + ": "@ + m.scripts[k].1 + "\n"@;
    let p = seq![title, line];
    lemma_pairs(title, m.scripts, k);
    lemma_manifest(m, seq![], seq![], seq![], seq![], p);
    let one = seq!["### Manifest\n\n"@];
    assert(one + seq![] + seq![] + seq![] + seq![] + p =~= one + p);
    lemma_in_table(map, i, title, line);
}

// ---------------------------------------------------------------------------
// Directories
// ---------------------------------------------------------------------------

/// The line that opens a directory: its path, how many files it has and its role.
pub open spec fn directory_title(d: DirectoryView) -> Seq<char> {
    "### "@ + d.path + "/ ("@ + text::decimal(d.file_count as nat) + " files) — *"@ + d.role
        + "*\n\n"@
}

proof fn lemma_directory(d: DirectoryView, files: Seq<Seq<char>>)
    requires
        in_order(markdown::rendered(d.files, markdown::path_line()), files),
    ensures
        in_order(markdown::directory_part()(d), seq![directory_title(d)] + files),
{
    let head = directory_title(d);
    lemma_whole(head);
    lemma_three(
        head,
        markdown::rendered(d.files, markdown::path_line()),
        "\n"@,
        seq![head],
        files,
        seq![],
    );
    assert(seq![head] + files + seq![] =~= seq![head] + files);
}

proof fn lemma_in_structure(map: ProjectView, pieces: Seq<Seq<char>>)
    requires
        in_order(markdown::rendered(map.structure, markdown::directory_part()), pieces),
    ensures
        in_order(
            markdown::markdown(map),
            seq!["## Structure\n\n"@] + pieces + seq!["## Key Files\n\n"@],
        ),
{
    lemma_structure_title(map.structure, pieces);
    lemma_nothing(markdown::overview_part(map.overview));
    lemma_nothing(markdown::rendered(map.key_files, markdown::key_file_part()));
    lemma_files_title(map.key_files, seq![]);
    let s = seq!["## Structure\n\n"@] + pieces;
    let k = seq!["## Key Files\n\n"@];
    assert(k + seq![] =~= k);
    lemma_map(map, seq![], s, k);
    assert(seq![] + s + k =~= s + k);
}

/// Each directory has a line with its path, its number of files and its role, and behind it each
/// of its files has a line.
pub proof fn directories_are_listed(map: ProjectView, i: int)
    requires
        0 <= i < map.structure.len(),
    ensures
        in_order(
            markdown::markdown(map),
            seq![
                "## Structure\n\n"@,
                "### "@ + map.structure[i].path + "/ ("@ + text::decimal(
                    map.structure[i].file_count as nat,
                ) + " files) — *"@ + map.structure[i].role + "*\n\n"@,
                "## Key Files\n\n"@,
            ],
        ),
        forall|k: int|
            0 <= k < map.structure[i].files.len() ==> in_order(
                markdown::markdown(map),
                seq![
                    "## Structure\n\n"@,
                    directory_title(map.structure[i]),
                    "- `"@ + #[trigger] map.structure[i].files[k] + "`\n"@,
                    "## Key Files\n\n"@,
                ],
            ),
{
    let d = map.structure[i];
    let head = directory_title(d);
    lemma_nothing(markdown::rendered(d.files, markdown::path_line()));
    lemma_directory(d, seq![]);
    assert(seq![head] + seq![] =~= seq![head]);
    lemma_of_one(map.structure, markdown::directory_part(), i, seq![head]);
    lemma_in_structure(map, seq![head]);
    assert(seq!["## Structure\n\n"@] + seq![head] + seq!["## Key Files\n\n"@] =~= seq![
        "## Structure\n\n"@,
        head,
        "## Key Files\n\n"@,
    ]);
    assert forall|k: int| 0 <= k < d.files.len() implies in_order(
        markdown::markdown(map),
        seq![
            "## Structure\n\n"@,
            head,
            "- `"@ + #[trigger] d.files[k] + "`\n"@,
            "## Key Files\n\n"@,
        ],
    ) by {
        let line = "- `"@ + d.files[k] + "`\n"@;
        lemma_whole(line);
        lemma_of_one(d.files, markdown::path_line(), k, seq![line]);
        lemma_directory(d, seq![line]);
        lemma_of_one(map.structure, markdown::directory_part(), i, seq![head] + seq![line]);
        lemma_in_structure(map, seq![head] + seq![line]);
        assert(seq!["## Structure\n\n"@] + (seq![head] + seq![line]) + seq![
            "## Key Files\n\n"@,
        ] =~= seq!["## Structure\n\n"@, head, line, "## Key Files\n\n"@]);
    }
}

/// Directories are printed in the order in which the map has them.
pub proof fn directories_keep_their_order(map: ProjectView, i: int, j: int)
    requires
        0 <= i < j < map.structure.len(),
    ensures
        in_order(
            markdown::markdown(map),
            seq![
                "## Structure\n\n"@,
                directory_title(map.structure[i]),
                directory_title(map.structure[j]),
                "## Key Files\n\n"@,
            ],
        ),
{
    let a = directory_title(map.structure[i]);
    let b = directory_title(map.structure[j]);
    lemma_directory(map.structure[i], seq![]);
    lemma_directory(map.structure[j], seq![]);
    assert(seq![a] + seq![] =~= seq![a]);
    assert(seq![b] + seq![] =~= seq![b]);
    lemma_of_two(map.structure, markdown::directory_part(), i, j, seq![a], seq![b]);
    lemma_in_structure(map, seq![a] + seq![b]);
    assert(seq!["## Structure\n\n"@] + (seq![a] + seq![b]) + seq!["## Key Files\n\n"@] =~= seq![
        "## Structure\n\n"@,
        a,
        b,
        "## Key Files\n\n"@,
    ]);
}

// ---------------------------------------------------------------------------
// Key files
// ---------------------------------------------------------------------------

/// The line that opens a file: its path and how many files depend on it.
pub open spec fn file_title(k: KeyFileView) -> Seq<char> {
    "### `"@ + k.path + "` ("@ + text::decimal(k.dependent_count as nat) + " dependents)\n\n"@
}

proof fn lemma_file(
    k: KeyFileView,
    purpose: Seq<Seq<char>>,
    symbols: Seq<Seq<char>>,
    dependencies: Seq<Seq<char>>,
)
    requires
        in_order(markdown::between("**Purpose**: "@, k.purpose, "\n\n"@), purpose),
        in_order(
            markdown::list_part("**Public Symbols**:\n"@, k.symbols, markdown::symbol_line()),
            symbols,
        ),
        in_order(
            markdown::list_part("**Depends On**:\n"@, k.dependencies, markdown::path_line()),
            dependencies,
        ),
    ensures
        in_order(
            markdown::key_file_part()(k),
            seq![file_title(k)] + purpose + symbols + dependencies,
        ),
{
    let head = file_title(k);
    lemma_whole(head);
    let a = markdown::between("**Purpose**: "@, k.purpose, "\n\n"@);
    let b = markdown::list_part("**Public Symbols**:\n"@, k.symbols, markdown::symbol_line());
    let c = markdown::list_part("**Depends On**:\n"@, k.dependencies, markdown::path_line());
    lemma_three(head, a, b, seq![head], purpose, symbols);
    lemma_joined(head + a + b, c, seq![head] + purpose + symbols, dependencies);
}

proof fn lemma_in_files(map: ProjectView, pieces: Seq<Seq<char>>)
    requires
        in_order(markdown::rendered(map.key_files, markdown::key_file_part()), pieces),
    ensures
        in_order(
            markdown::markdown(map),
            seq!["## Structure\n\n"@, "## Key Files\n\n"@] + pieces,
        ),
{
    lemma_nothing(markdown::rendered(map.structure, markdown::directory_part()));
    lemma_structure_title(map.structure, seq![]);
    let s = seq!["## Structure\n\n"@];
    assert(s + seq![] =~= s);
    lemma_nothing(markdown::overview_part(map.overview));
    lemma_files_title(map.key_files, pieces);
    let k = seq!["## Key Files\n\n"@] + pieces;
    lemma_map(map, seq![], s, k);
    assert(seq![] + s + k =~= seq!["## Structure\n\n"@, "## Key Files\n\n"@] + pieces);
}

proof fn lemma_in_file(map: ProjectView, i: int, pieces: Seq<Seq<char>>)
    requires
        0 <= i < map.key_files.len(),
        in_order(
            markdown::key_file_part()(map.key_files[i]),
            seq![file_title(map.key_files[i])] + pieces,
        ),
    ensures
        in_order(
            markdown::markdown(map),
            seq!["## Structure\n\n"@, "## Key Files\n\n"@, file_title(map.key_files[i])] + pieces,
        ),
{
    let p = seq![file_title(map.key_files[i])] + pieces;
    lemma_of_one(map.key_files, markdown::key_file_part(), i, p);
    lemma_in_files(map, p);
    assert(seq!["## Structure\n\n"@, "## Key Files\n\n"@] + p =~= seq![
        "## Structure\n\n"@,
        "## Key Files\n\n"@,
        file_title(map.key_files[i]),
    ] + pieces);
}

/// Each key file has a line with its path and its number of dependents, and behind it one with its
/// purpose, where it has one.
pub proof fn key_files_are_listed(map: ProjectView, i: int)
    requires
        0 <= i < map.key_files.len(),
    ensures
        in_order(
            markdown::markdown(map),
            seq![
                "## Structure\n\n"@,
                "## Key Files\n\n"@,
                "### `"@ + map.key_files[i].path + "` ("@ + text::decimal(
                    map.key_files[i].dependent_count as nat,
                ) + " dependents)\n\n"@,
            ],
        ),
        map.key_files[i].purpose matches Some(purpose) ==> in_order(
            markdown::markdown(map),
            seq![
                "## Structure\n\n"@,
                "## Key Files\n\n"@,
                file_title(map.key_files[i]),
                "**Purpose**: "@ + purpose + "\n\n"@,
            ],
        ),
{
    let f = map.key_files[i];
    let head = file_title(f);
    let frame = seq!["## Structure\n\n"@, "## Key Files\n\n"@, head];
    lemma_file(f, seq![], seq![], seq![]);
    assert(seq![head] + seq![] + seq![] + seq![] =~= seq![head] + seq![]);
    lemma_in_file(map, i, seq![]);
    assert(frame + seq![] =~= frame);
    if let Some(purpose) = f.purpose {
        let line = "**Purpose**: "@ + purpose + "\n\n"@;
        lemma_whole(line);
        lemma_file(f, seq![line], seq![], seq![]);
        assert(seq![head] + seq![line] + seq![] + seq![] =~= seq![head] + seq![line]);
        lemma_in_file(map, i, seq![line]);
        assert(frame + seq![line] =~= seq![
            "## Structure\n\n"@,
            "## Key Files\n\n"@,
            head,
            line,
        ]);
    }
}

/// Each symbol of a key file has a line under the title of its symbols, and each file that it
/// imports from one under the title of its dependencies.
pub proof fn key_files_show_symbols_and_dependencies(map: ProjectView, i: int)
    requires
        0 <= i < map.key_files.len(),
    ensures
        forall|k: int|
            0 <= k < map.key_files[i].symbols.len() ==> in_order(
                markdown::markdown(map),
                seq![
                    "## Structure\n\n"@,
                    "## Key Files\n\n"@,
                    file_title(map.key_files[i]),
                    "**Public Symbols**:\n"@,
                    "- `"@ + #[trigger] map.key_files[i].symbols[k] + "`\n"@,
                ],
            ),
        forall|k: int|
            0 <= k < map.key_files[i].dependencies.len() ==> in_order(
                markdown::markdown(map),
                seq![
                    "## Structure\n\n"@,
                    "## Key Files\n\n"@,
                    file_title(map.key_files[i]),
                    "**Depends On**:\n"@,
                    "- `"@ + #[trigger] map.key_files[i].dependencies[k] + "`\n"@,
                ],
            ),
{
    let f = map.key_files[i];
    let head = file_title(f);
    let frame = seq!["## Structure\n\n"@, "## Key Files\n\n"@, head];
    assert forall|k: int| 0 <= k < f.symbols.len() implies in_order(
        markdown::markdown(map),
        seq![
            "## Structure\n\n"@,
            "## Key Files\n\n"@,
            head,
            "**Public Symbols**:\n"@,
            "- `"@ + #[trigger] f.symbols[k] + "`\n"@,
        ],
    ) by {
        let line = "- `"@ + f.symbols[k] + "`\n"@;
        let p = seq!["**Public Symbols**:\n"@, line];
        lemma_list("**Public Symbols**:\n"@, f.symbols, k);
        lemma_file(f, seq![], p, seq![]);
        assert(seq![head] + seq![] + p + seq![] =~= seq![head] + p);
        lemma_in_file(map, i, p);
        assert(frame + p =~= seq![
            "## Structure\n\n"@,
            "## Key Files\n\n"@,
            head,
            "**Public Symbols**:\n"@,
            line,
        ]);
    }
    assert forall|k: int| 0 <= k < f.dependencies.len() implies in_order(
        markdown::markdown(map),
        seq![
            "## Structure\n\n"@,
            "## Key Files\n\n"@,
            head,
            "**Depends On**:\n"@,
            "- `"@ + #[trigger] f.dependencies[k] + "`\n"@,
        ],
    ) by {
        let line = "- `"@ + f.dependencies[k] + "`\n"@;
        let p = seq!["**Depends On**:\n"@, line];
        lemma_list("**Depends On**:\n"@, f.dependencies, k);
        lemma_file(f, seq![], seq![], p);
        assert(seq![head] + seq![] + seq![] + p =~= seq![head] + p);
        lemma_in_file(map, i, p);
        assert(frame + p =~= seq![
            "## Structure\n\n"@,
            "## Key Files\n\n"@,
            head,
            "**Depends On**:\n"@,
            line,
        ]);
    }
}

/// Key files are printed in the order in which the map has them.
pub proof fn key_files_keep_their_order(map: ProjectView, i: int, j: int)
    requires
        0 <= i < j < map.key_files.len(),
    ensures
        in_order(
            markdown::markdown(map),
            seq![
                "## Structure\n\n"@,
                "## Key Files\n\n"@,
                file_title(map.key_files[i]),
                file_title(map.key_files[j]),
            ],
        ),
{
    let a = file_title(map.key_files[i]);
    let b = file_title(map.key_files[j]);
    lemma_file(map.key_files[i], seq![], seq![], seq![]);
    lemma_file(map.key_files[j], seq![], seq![], seq![]);
    assert(seq![a] + seq![] + seq![] + seq![] =~= seq![a]);
    assert(seq![b] + seq![] + seq![] + seq![] =~= seq![b]);
    lemma_of_two(map.key_files, markdown::key_file_part(), i, j, seq![a], seq![b]);
    lemma_in_files(map, seq![a] + seq![b]);
    assert(seq!["## Structure\n\n"@, "## Key Files\n\n"@] + (seq![a] + seq![b]) =~= seq![
        "## Structure\n\n"@,
        "## Key Files\n\n"@,
        a,
        b,
    ]);
}

// ---------------------------------------------------------------------------
// What one more item changes
// ---------------------------------------------------------------------------

/// A text is another with a piece put in somewhere.
pub open spec fn gains(without: Seq<char>, with: Seq<char>, piece: Seq<char>) -> bool {
    exists|at: int|
        0 <= at <= without.len() && with == #[trigger] without.take(at) + piece + without.skip(at)
}

proof fn lemma_gains(a: Seq<char>, piece: Seq<char>, b: Seq<char>)
    ensures
        gains(a + b, a + piece + b, piece),
{
    let at = a.len() as int;
    assert((a + b).take(at) =~= a);
    assert((a + b).skip(at) =~= b);
    assert(a + piece + b =~= (a + b).take(at) + piece + (a + b).skip(at));
}

proof fn lemma_gains_around(
    a: Seq<char>,
    without: Seq<char>,
    with: Seq<char>,
    piece: Seq<char>,
    b: Seq<char>,
)
    requires
        gains(without, with, piece),
    ensures
        gains(a + without + b, a + with + b, piece),
{
    let at = choose|at: int|
        0 <= at <= without.len() && with == #[trigger] without.take(at) + piece + without.skip(at);
    let x = without.take(at);
    let y = without.skip(at);
    lemma_gains(a + x, piece, y + b);
    assert(a + without + b =~= (a + x) + (y + b));
    assert(a + with + b =~= (a + x) + piece + (y + b));
}

/// What is printed before an item and behind it does not depend on the item.
proof fn lemma_rendered_around<A>(items: Seq<A>, f: spec_fn(A) -> Seq<char>, i: int)
    requires
        0 <= i < items.len(),
    ensures
        markdown::rendered(items, f) == markdown::rendered(items.take(i), f) + f(items[i])
            + markdown::rendered(items.skip(i + 1), f),
    decreases items.len(),
{
    let front = items.drop_last();
    if i == items.len() - 1 {
        assert(items.take(i) =~= front);
        assert(items.skip(i + 1) =~= seq![]);
        assert(markdown::rendered(items.skip(i + 1), f) =~= seq![]);
    } else {
        lemma_rendered_around(front, f, i);
        assert(front.take(i) =~= items.take(i));
        assert(items.skip(i + 1).drop_last() =~= front.skip(i + 1));
        assert(items.skip(i + 1).last() == items.last());
    }
}

proof fn lemma_rendered_gains<A>(
    items: Seq<A>,
    f: spec_fn(A) -> Seq<char>,
    i: int,
    x: A,
    piece: Seq<char>,
)
    requires
        0 <= i < items.len(),
        gains(f(items[i]), f(x), piece),
    ensures
        gains(
            markdown::rendered(items, f),
            markdown::rendered(items.update(i, x), f),
            piece,
        ),
{
    let other = items.update(i, x);
    lemma_rendered_around(items, f, i);
    lemma_rendered_around(other, f, i);
    assert(other.take(i) =~= items.take(i));
    assert(other.skip(i + 1) =~= items.skip(i + 1));
    lemma_gains_around(
        markdown::rendered(items.take(i), f),
        f(items[i]),
        f(x),
        piece,
        markdown::rendered(items.skip(i + 1), f),
    );
}

/// One more item is printed behind the others.
proof fn lemma_rendered_push<A>(items: Seq<A>, f: spec_fn(A) -> Seq<char>, x: A)
    ensures
        markdown::rendered(items.push(x), f) == markdown::rendered(items, f) + f(x),
{
    assert(items.push(x).drop_last() =~= items);
}

proof fn lemma_gains_behind(without: Seq<char>, piece: Seq<char>)
    ensures
        gains(without, without + piece, piece),
{
    lemma_gains(without, piece, seq![]);
    assert(without + seq![] =~= without);
    assert(without + piece + seq![] =~= without + piece);
}

proof fn lemma_second_gains(
    t: Seq<char>,
    x: Seq<char>,
    y: Seq<char>,
    s: Seq<char>,
    k: Seq<char>,
    f: Seq<char>,
    piece: Seq<char>,
)
    requires
        gains(x, y, piece),
    ensures
        gains(t + x + s + k + f, t + y + s + k + f, piece),
{
    lemma_gains_around(t, x, y, piece, s + k + f);
    assert(t + x + s + k + f =~= t + x + (s + k + f));
    assert(t + y + s + k + f =~= t + y + (s + k + f));
}

proof fn lemma_third_gains(
    t: Seq<char>,
    o: Seq<char>,
    h: Seq<char>,
    x: Seq<char>,
    y: Seq<char>,
    k: Seq<char>,
    f: Seq<char>,
    piece: Seq<char>,
)
    requires
        gains(x, y, piece),
    ensures
        gains(t + o + (h + x) + k + f, t + o + (h + y) + k + f, piece),
{
    lemma_gains_around(t + o + h, x, y, piece, k + f);
    assert(t + o + (h + x) + k + f =~= (t + o + h) + x + (k + f));
    assert(t + o + (h + y) + k + f =~= (t + o + h) + y + (k + f));
}

proof fn lemma_fourth_gains(
    t: Seq<char>,
    o: Seq<char>,
    s: Seq<char>,
    h: Seq<char>,
    x: Seq<char>,
    y: Seq<char>,
    f: Seq<char>,
    piece: Seq<char>,
)
    requires
        gains(x, y, piece),
    ensures
        gains(t + o + s + (h + x) + f, t + o + s + (h + y) + f, piece),
{
    lemma_gains_around(t + o + s + h, x, y, piece, f);
    assert(t + o + s + (h + x) + f =~= (t + o + s + h) + x + f);
    assert(t + o + s + (h + y) + f =~= (t + o + s + h) + y + f);
}

proof fn lemma_overview_gains(a: ProjectView, b: ProjectView, piece: Seq<char>)
    requires
        a.structure == b.structure,
        a.key_files == b.key_files,
        gains(markdown::overview_part(a.overview), markdown::overview_part(b.overview), piece),
    ensures
        gains(markdown::markdown(a), markdown::markdown(b), piece),
{
    let t = "# Project Map\n\n"@;
    let x = markdown::overview_part(a.overview);
    let y = markdown::overview_part(b.overview);
    let s = markdown::structure_part(a.structure);
    let k = markdown::key_files_part(a.key_files);
    let f = markdown::FOOTER@;
    lemma_second_gains(t, x, y, s, k, f, piece);
}

proof fn lemma_structure_gains(a: ProjectView, b: ProjectView, piece: Seq<char>)
    requires
        a.overview == b.overview,
        a.key_files == b.key_files,
        gains(
            markdown::rendered(a.structure, markdown::directory_part()),
            markdown::rendered(b.structure, markdown::directory_part()),
            piece,
        ),
    ensures
        gains(markdown::markdown(a), markdown::markdown(b), piece),
{
    let t = "# Project Map\n\n"@;
    let h = "## Structure\n\n"@;
    let o = markdown::overview_part(a.overview);
    let x = markdown::rendered(a.structure, markdown::directory_part());
    let y = markdown::rendered(b.structure, markdown::directory_part());
    let k = markdown::key_files_part(a.key_files);
    let f = markdown::FOOTER@;
    lemma_third_gains(t, o, h, x, y, k, f, piece);
}

proof fn lemma_files_gain(a: ProjectView, b: ProjectView, piece: Seq<char>)
    requires
        a.overview == b.overview,
        a.structure == b.structure,
        gains(
            markdown::rendered(a.key_files, markdown::key_file_part()),
            markdown::rendered(b.key_files, markdown::key_file_part()),
            piece,
        ),
    ensures
        gains(markdown::markdown(a), markdown::markdown(b), piece),
{
    let t = "# Project Map\n\n"@;
    let h = "## Key Files\n\n"@
        + "*Ranked by how many other files depend on them (Aider-style repo map)*\n\n"@;
    let o = markdown::overview_part(a.overview);
    let s = markdown::structure_part(a.structure);
    let x = markdown::rendered(a.key_files, markdown::key_file_part());
    let y = markdown::rendered(b.key_files, markdown::key_file_part());
    let f = markdown::FOOTER@;
    lemma_fourth_gains(t, o, s, h, x, y, f, piece);
}

proof fn lemma_optional(before: Seq<char>, text: Seq<char>, after: Seq<char>)
    ensures
        gains(
            markdown::between(before, None, after),
            markdown::between(before, Some(text), after),
            before + text + after,
        ),
{
    lemma_gains_behind(seq![], before + text + after);
    assert(seq![] + (before + text + after) =~= before + text + after);
}

proof fn lemma_list_gains(title: Seq<char>, items: Seq<Seq<char>>, x: Seq<char>)
    ensures
        gains(
            markdown::list_part(title, items, markdown::path_line()),
            markdown::list_part(title, items.push(x), markdown::path_line()),
            if items.len() == 0 {
                title + ("- `"@ + x + "`\n"@) + "\n"@
            } else {
                "- `"@ + x + "`\n"@
            },
        ),
{
    let line = "- `"@ + x + "`\n"@;
    let f = markdown::path_line();
    lemma_rendered_push(items, f, x);
    if items.len() == 0 {
        let all = title + line + "\n"@;
        assert(markdown::rendered(items, f) + f(x) =~= line);
        lemma_gains_behind(seq![], all);
        assert(seq![] + all =~= all);
    } else {
        let r = markdown::rendered(items, f);
        lemma_gains(title + r, line, "\n"@);
        assert(title + (r + line) + "\n"@ =~= (title + r) + line + "\n"@);
    }
}

proof fn lemma_table_gains(
    title: Seq<char>,
    pairs: Seq<(Seq<char>, Seq<char>)>,
    name: Seq<char>,
    value: Seq<char>,
)
    ensures
        gains(
            markdown::table_part(title, pairs),
            markdown::table_part(title, pairs.push((name, value))),
            if pairs.len() == 0 {
                title + ("  - "@ + name + ": "@ + value + "\n"@)
            } else {
                "  - "@ + name + ": "@ + value + "\n"@
            },
        ),
{
    let line = "  - "@ + name + ": "@ + value + "\n"@;
    let f = markdown::pair_line();
    lemma_rendered_push(pairs, f, (name, value));
    if pairs.len() == 0 {
        assert(markdown::rendered(pairs, f) + f((name, value)) =~= line);
        lemma_gains_behind(seq![], title + line);
        assert(seq![] + (title + line) =~= title + line);
    } else {
        let r = markdown::rendered(pairs, f);
        lemma_gains_behind(title + r, line);
        assert(title + (r + line) =~= (title + r) + line);
    }
}

proof fn lemma_regroup_overview(
    head: Seq<char>,
    a: Seq<char>,
    b: Seq<char>,
    c: Seq<char>,
    d: Seq<char>,
    e: Seq<char>,
    f: Seq<char>,
    h: Seq<char>,
    n: Seq<char>,
    z: Seq<char>,
)
    ensures
        ({
            let g = h + n + z;
            let all = head + a + b + c + d + e + f + h + n + z;
            &&& all == head + a + (b + c + d + e + f + g)
            &&& all == (head + a + b) + c + (d + e + f + g)
            &&& all == (head + a + b + c + d) + e + (f + g)
            &&& all == (head + a + b + c + d + e) + f + g
        }),
{
    let g = h + n + z;
    let all = head + a + b + c + d + e + f + h + n + z;
    assert(all =~= (head + a + b + c + d + e) + f + g);
    assert(all =~= (head + a + b + c + d) + e + (f + g));
    assert(all =~= (head + a + b) + c + (d + e + f + g));
    assert(all =~= head + a + (b + c + d + e + f + g));
}

/// The overview around one of its parts.
proof fn lemma_overview_around(o: OverviewView)
    ensures
        ({
            let head = "## Overview\n\n"@;
            let a = markdown::between("> "@, o.readme_summary, "\n\n"@);
            let b = "### Languages\n\n"@;
            let c = markdown::rendered(o.languages, markdown::language_line());
            let e = markdown::rendered(o.manifests, markdown::manifest_part());
            let f = markdown::list_part(
                "### Entry Points\n\n"@,
                o.entry_points,
                markdown::path_line(),
            );
            let g = "### Test Files: "@ + text::decimal(o.test_count as nat) + "\n\n"@;
            &&& markdown::overview_part(o) == head + a + (b + c + "\n"@ + e + f + g)
            &&& markdown::overview_part(o) == (head + a + b) + c + ("\n"@ + e + f + g)
            &&& markdown::overview_part(o) == (head + a + b + c + "\n"@) + e + (f + g)
            &&& markdown::overview_part(o) == (head + a + b + c + "\n"@ + e) + f + g
        }),
{
    let head = "## Overview\n\n"@;
    let a = markdown::between("> "@, o.readme_summary, "\n\n"@);
    let b = "### Languages\n\n"@;
    let c = markdown::rendered(o.languages, markdown::language_line());
    let d = "\n"@;
    let e = markdown::rendered(o.manifests, markdown::manifest_part());
    let f = markdown::list_part("### Entry Points\n\n"@, o.entry_points, markdown::path_line());
    let h = "### Test Files: "@;
    let n = text::decimal(o.test_count as nat);
    let z = "\n\n"@;
    lemma_regroup_overview(head, a, b, c, d, e, f, h, n, z);
}

/// A summary of the readme file adds its quotation to the map, a language its line and an entry
/// point its line, the first of them with a title; and nothing else.
#[verifier::rlimit(60)]
pub proof fn overviews_gain_only_their_lines(
    map: ProjectView,
    summary: Seq<char>,
    language: Seq<char>,
    count: usize,
    path: Seq<char>,
)
    ensures
        gains(
            markdown::markdown(
                ProjectView {
                    overview: OverviewView { readme_summary: None, ..map.overview },
                    ..map
                },
            ),
            markdown::markdown(
                ProjectView {
                    overview: OverviewView { readme_summary: Some(summary), ..map.overview },
                    ..map
                },
            ),
            "> "@ + summary + "\n\n"@,
        ),
        gains(
            markdown::markdown(map),
            markdown::markdown(
                ProjectView {
                    overview: OverviewView {
                        languages: map.overview.languages.push((language, count)),
                        ..map.overview
                    },
                    ..map
                },
            ),
            "- **"@ + language + "**: "@ + text::grouped(count as nat) + " lines\n"@,
        ),
        gains(
            markdown::markdown(map),
            markdown::markdown(
                ProjectView {
                    overview: OverviewView {
                        entry_points: map.overview.entry_points.push(path),
                        ..map.overview
                    },
                    ..map
                },
            ),
            if map.overview.entry_points.len() == 0 {
                "### Entry Points\n\n"@ + ("- `"@ + path + "`\n"@) + "\n"@
            } else {
                "- `"@ + path + "`\n"@
            },
        ),
{
    let o = map.overview;
    let head = "## Overview\n\n"@;
    let a = markdown::between("> "@, o.readme_summary, "\n\n"@);
    let b = "### Languages\n\n"@;
    let c = markdown::rendered(o.languages, markdown::language_line());
    let d = "\n"@;
    let e = markdown::rendered(o.manifests, markdown::manifest_part());
    let f = markdown::list_part("### Entry Points\n\n"@, o.entry_points, markdown::path_line());
    let g = "### Test Files: "@ + text::decimal(o.test_count as nat) + "\n\n"@;
    lemma_overview_around(o);
    assert(gains(
        markdown::markdown(
            ProjectView {
                overview: OverviewView { readme_summary: None, ..map.overview },
                ..map
            },
        ),
        markdown::markdown(
            ProjectView {
                overview: OverviewView { readme_summary: Some(summary), ..map.overview },
                ..map
            },
        ),
        "> "@ + summary + "\n\n"@,
    )) by {
        let o0 = OverviewView { readme_summary: None, ..o };
        let o1 = OverviewView { readme_summary: Some(summary), ..o };
        lemma_overview_around(o0);
        lemma_overview_around(o1);
        let piece = "> "@ + summary + "\n\n"@;
        lemma_optional("> "@, summary, "\n\n"@);
        lemma_gains_around(
            head,
            markdown::between("> "@, None, "\n\n"@),
            markdown::between("> "@, Some(summary), "\n\n"@),
            piece,
            b + c + d + e + f + g,
        );
        lemma_overview_gains(
            ProjectView { overview: o0, ..map },
            ProjectView { overview: o1, ..map },
            piece,
        );
    }
    let o2 = OverviewView { languages: o.languages.push((language, count)), ..o };
    lemma_overview_around(o2);
    let line = "- **"@ + language + "**: "@ + text::grouped(count as nat) + " lines\n"@;
    lemma_rendered_push(o.languages, markdown::language_line(), (language, count));
    lemma_gains_behind(c, line);
    lemma_gains_around(head + a + b, c, c + line, line, d + e + f + g);
    lemma_overview_gains(map, ProjectView { overview: o2, ..map }, line);
    let o3 = OverviewView { entry_points: o.entry_points.push(path), ..o };
    lemma_overview_around(o3);
    let piece = if o.entry_points.len() == 0 {
        "### Entry Points\n\n"@ + ("- `"@ + path + "`\n"@) + "\n"@
    } else {
        "- `"@ + path + "`\n"@
    };
    lemma_list_gains("### Entry Points\n\n"@, o.entry_points, path);
    lemma_gains_around(
        head + a + b + c + d + e,
        f,
        markdown::list_part(
            "### Entry Points\n\n"@,
            o.entry_points.push(path),
            markdown::path_line(),
        ),
        piece,
        g,
    );
    lemma_overview_gains(map, ProjectView { overview: o3, ..map }, piece);
}

/// A map with another manifest in a place.
pub open spec fn with_manifest(map: ProjectView, i: int, m: ManifestView) -> ProjectView {
    ProjectView {
        overview: OverviewView {
            manifests: map.overview.manifests.update(i, m),
            ..map.overview
        },
        ..map
    }
}

#[verifier::rlimit(60)]
proof fn lemma_manifest_gains(
    map: ProjectView,
    i: int,
    m0: ManifestView,
    m1: ManifestView,
    piece: Seq<char>,
)
    requires
        0 <= i < map.overview.manifests.len(),
        gains(markdown::manifest_part()(m0), markdown::manifest_part()(m1), piece),
    ensures
        gains(
            markdown::markdown(with_manifest(map, i, m0)),
            markdown::markdown(with_manifest(map, i, m1)),
            piece,
        ),
{
    let a = with_manifest(map, i, m0);
    let b = with_manifest(map, i, m1);
    lemma_rendered_gains(a.overview.manifests, markdown::manifest_part(), i, m1, piece);
    assert(a.overview.manifests.update(i, m1) =~= b.overview.manifests);
    lemma_overview_around(a.overview);
    lemma_overview_around(b.overview);
    let o = map.overview;
    let left = "## Overview\n\n"@ + markdown::between("> "@, o.readme_summary, "\n\n"@)
        + "### Languages\n\n"@ + markdown::rendered(o.languages, markdown::language_line())
        + "\n"@;
    let right = markdown::list_part(
        "### Entry Points\n\n"@,
        o.entry_points,
        markdown::path_line(),
    ) + ("### Test Files: "@ + text::decimal(o.test_count as nat) + "\n\n"@);
    lemma_gains_around(
        left,
        markdown::rendered(a.overview.manifests, markdown::manifest_part()),
        markdown::rendered(b.overview.manifests, markdown::manifest_part()),
        piece,
        right,
    );
    lemma_overview_gains(a, b, piece);
}

proof fn lemma_regroup_manifest(
    head: Seq<char>,
    a: Seq<char>,
    b: Seq<char>,
    c: Seq<char>,
    d: Seq<char>,
    e: Seq<char>,
    z: Seq<char>,
)
    ensures
        ({
            let all = head + a + b + c + d + e + z;
            &&& all == head + a + (b + c + d + e + z)
            &&& all == (head + a) + b + (c + d + e + z)
            &&& all == (head + a + b) + c + (d + e + z)
            &&& all == (head + a + b + c) + d + (e + z)
        }),
{
    let all = head + a + b + c + d + e + z;
    assert(all =~= head + a + (b + c + d + e + z));
    assert(all =~= (head + a) + b + (c + d + e + z));
    assert(all =~= (head + a + b) + c + (d + e + z));
    assert(all =~= (head + a + b + c) + d + (e + z));
}

/// A manifest around one of its parts.
proof fn lemma_manifest_around(m: ManifestView)
    ensures
        ({
            let head = "### Manifest\n\n"@;
            let a = markdown::between("- **Name**: "@, m.name, "\n"@);
            let b = markdown::between("- **Description**: "@, m.description, "\n"@);
            let c = markdown::table_part("- **Dependencies**:\n"@, m.dependencies);
            let d = markdown::table_part("- **Dev Dependencies**:\n"@, m.dev_dependencies);
            let e = markdown::table_part("- **Scripts**:\n"@, m.scripts);
            &&& markdown::manifest_part()(m) == head + a + (b + c + d + e + "\n"@)
            &&& markdown::manifest_part()(m) == (head + a) + b + (c + d + e + "\n"@)
            &&& markdown::manifest_part()(m) == (head + a + b) + c + (d + e + "\n"@)
            &&& markdown::manifest_part()(m) == (head + a + b + c) + d + (e + "\n"@)
            &&& markdown::manifest_part()(m) == (head + a + b + c + d) + e + "\n"@
        }),
{
    let head = "### Manifest\n\n"@;
    let a = markdown::between("- **Name**: "@, m.name, "\n"@);
    let b = markdown::between("- **Description**: "@, m.description, "\n"@);
    let c = markdown::table_part("- **Dependencies**:\n"@, m.dependencies);
    let d = markdown::table_part("- **Dev Dependencies**:\n"@, m.dev_dependencies);
    let e = markdown::table_part("- **Scripts**:\n"@, m.scripts);
    lemma_regroup_manifest(head, a, b, c, d, e, "\n"@);
}

/// A name or a description of a manifest adds its line to the map, and nothing else.
#[verifier::rlimit(60)]
pub proof fn manifests_gain_only_their_texts(
    map: ProjectView,
    i: int,
    m: ManifestView,
    text: Seq<char>,
)
    requires
        0 <= i < map.overview.manifests.len(),
    ensures
        gains(
            markdown::markdown(with_manifest(map, i, ManifestView { name: None, ..m })),
            markdown::markdown(with_manifest(map, i, ManifestView { name: Some(text), ..m })),
            "- **Name**: "@ + text + "\n"@,
        ),
        gains(
            markdown::markdown(with_manifest(map, i, ManifestView { description: None, ..m })),
            markdown::markdown(
                with_manifest(map, i, ManifestView { description: Some(text), ..m }),
            ),
            "- **Description**: "@ + text + "\n"@,
        ),
{
    let head = "### Manifest\n\n"@;
    let a = markdown::between("- **Name**: "@, m.name, "\n"@);
    let b = markdown::between("- **Description**: "@, m.description, "\n"@);
    let c = markdown::table_part("- **Dependencies**:\n"@, m.dependencies);
    let d = markdown::table_part("- **Dev Dependencies**:\n"@, m.dev_dependencies);
    let e = markdown::table_part("- **Scripts**:\n"@, m.scripts);
    let n0 = ManifestView { name: None, ..m };
    let n1 = ManifestView { name: Some(text), ..m };
    let line = "- **Name**: "@ + text + "\n"@;
    lemma_manifest_around(n0);
    lemma_manifest_around(n1);
    lemma_optional("- **Name**: "@, text, "\n"@);
    lemma_gains_around(
        head,
        markdown::between("- **Name**: "@, None, "\n"@),
        line,
        line,
        b + c + d + e + "\n"@,
    );
    lemma_manifest_gains(map, i, n0, n1, line);
    let d0 = ManifestView { description: None, ..m };
    let d1 = ManifestView { description: Some(text), ..m };
    let other = "- **Description**: "@ + text + "\n"@;
    lemma_manifest_around(d0);
    lemma_manifest_around(d1);
    lemma_optional("- **Description**: "@, text, "\n"@);
    lemma_gains_around(
        head + a,
        markdown::between("- **Description**: "@, None, "\n"@),
        other,
        other,
        c + d + e + "\n"@,
    );
    lemma_manifest_gains(map, i, d0, d1, other);
}

/// What one more pair adds to a table: its line, the first with the title of the table.
pub open spec fn pair_piece(
    title: Seq<char>,
    pairs: Seq<(Seq<char>, Seq<char>)>,
    name: Seq<char>,
    value: Seq<char>,
) -> Seq<char> {
    if pairs.len() == 0 {
        title + ("  - "@ + name + ": "@ + value + "\n"@)
    } else {
        "  - "@ + name + ": "@ + value + "\n"@
    }
}

/// A dependency, a dev dependency or a script of a manifest adds its line to the map, the first of
/// them with the title of its table, and nothing else.
#[verifier::rlimit(60)]
pub proof fn manifests_gain_only_their_pairs(
    map: ProjectView,
    i: int,
    m: ManifestView,
    name: Seq<char>,
    value: Seq<char>,
)
    requires
        0 <= i < map.overview.manifests.len(),
    ensures
        gains(
            markdown::markdown(with_manifest(map, i, m)),
            markdown::markdown(
                with_manifest(
                    map,
                    i,
                    ManifestView { dependencies: m.dependencies.push((name, value)), ..m },
                ),
            ),
            pair_piece("- **Dependencies**:\n"@, m.dependencies, name, value),
        ),
        gains(
            markdown::markdown(with_manifest(map, i, m)),
            markdown::markdown(
                with_manifest(
                    map,
                    i,
                    ManifestView { dev_dependencies: m.dev_dependencies.push((name, value)), ..m },
                ),
            ),
            pair_piece("- **Dev Dependencies**:\n"@, m.dev_dependencies, name, value),
        ),
        gains(
            markdown::markdown(with_manifest(map, i, m)),
            markdown::markdown(
                with_manifest(
                    map,
                    i,
                    ManifestView { scripts: m.scripts.push((name, value)), ..m },
                ),
            ),
            pair_piece("- **Scripts**:\n"@, m.scripts, name, value),
        ),
{
    let head = "### Manifest\n\n"@;
    let a = markdown::between("- **Name**: "@, m.name, "\n"@);
    let b = markdown::between("- **Description**: "@, m.description, "\n"@);
    let c = markdown::table_part("- **Dependencies**:\n"@, m.dependencies);
    let d = markdown::table_part("- **Dev Dependencies**:\n"@, m.dev_dependencies);
    let e = markdown::table_part("- **Scripts**:\n"@, m.scripts);
    lemma_manifest_around(m);
    let p = (name, value);
    let m1 = ManifestView { dependencies: m.dependencies.push(p), ..m };
    lemma_manifest_around(m1);
    let t1 = "- **Dependencies**:\n"@;
    lemma_table_gains(t1, m.dependencies, name, value);
    lemma_gains_around(
        head + a + b,
        c,
        markdown::table_part(t1, m.dependencies.push(p)),
        pair_piece(t1, m.dependencies, name, value),
        d + e + "\n"@,
    );
    lemma_manifest_gains(map, i, m, m1, pair_piece(t1, m.dependencies, name, value));
    let m2 = ManifestView { dev_dependencies: m.dev_dependencies.push(p), ..m };
    lemma_manifest_around(m2);
    let t2 = "- **Dev Dependencies**:\n"@;
    lemma_table_gains(t2, m.dev_dependencies, name, value);
    lemma_gains_around(
        head + a + b + c,
        d,
        markdown::table_part(t2, m.dev_dependencies.push(p)),
        pair_piece(t2, m.dev_dependencies, name, value),
        e + "\n"@,
    );
    lemma_manifest_gains(map, i, m, m2, pair_piece(t2, m.dev_dependencies, name, value));
    let m3 = ManifestView { scripts: m.scripts.push(p), ..m };
    lemma_manifest_around(m3);
    let t3 = "- **Scripts**:\n"@;
    lemma_table_gains(t3, m.scripts, name, value);
    lemma_gains_around(
        head + a + b + c + d,
        e,
        markdown::table_part(t3, m.scripts.push(p)),
        pair_piece(t3, m.scripts, name, value),
        "\n"@,
    );
    lemma_manifest_gains(map, i, m, m3, pair_piece(t3, m.scripts, name, value));
}

/// A file of a directory adds its line to the map, and a directory without files its title and an
/// empty line.
#[verifier::rlimit(60)]
pub proof fn structures_gain_only_their_lines(
    map: ProjectView,
    i: int,
    path: Seq<char>,
    bare: DirectoryView,
)
    requires
        bare.files.len() == 0,
    ensures
        0 <= i < map.structure.len() ==> gains(
            markdown::markdown(map),
            markdown::markdown(
                ProjectView {
                    structure: map.structure.update(
                        i,
                        DirectoryView {
                            files: map.structure[i].files.push(path),
                            ..map.structure[i]
                        },
                    ),
                    ..map
                },
            ),
            "- `"@ + path + "`\n"@,
        ),
        gains(
            markdown::markdown(map),
            markdown::markdown(ProjectView { structure: map.structure.push(bare), ..map }),
            directory_title(bare) + "\n"@,
        ),
{
    let f = markdown::directory_part();
    if 0 <= i < map.structure.len() {
        let d = map.structure[i];
        let more = DirectoryView { files: d.files.push(path), ..d };
        let line = "- `"@ + path + "`\n"@;
        let r = markdown::rendered(d.files, markdown::path_line());
        lemma_rendered_push(d.files, markdown::path_line(), path);
        lemma_gains_behind(r, line);
        lemma_gains_around(directory_title(d), r, r + line, line, "\n"@);
        lemma_rendered_gains(map.structure, f, i, more, line);
        let other = ProjectView { structure: map.structure.update(i, more), ..map };
        lemma_structure_gains(map, other, line);
    }
    let other = ProjectView { structure: map.structure.push(bare), ..map };
    let piece = directory_title(bare) + "\n"@;
    lemma_rendered_push(map.structure, f, bare);
    assert(markdown::rendered(bare.files, markdown::path_line()) =~= seq![]);
    assert(f(bare) =~= piece);
    lemma_gains_behind(markdown::rendered(map.structure, f), piece);
    lemma_structure_gains(map, other, piece);
}

/// A map with another key file in a place.
pub open spec fn with_key_file(map: ProjectView, i: int, k: KeyFileView) -> ProjectView {
    ProjectView { key_files: map.key_files.update(i, k), ..map }
}

proof fn lemma_file_gains(
    map: ProjectView,
    i: int,
    k0: KeyFileView,
    k1: KeyFileView,
    piece: Seq<char>,
)
    requires
        0 <= i < map.key_files.len(),
        gains(markdown::key_file_part()(k0), markdown::key_file_part()(k1), piece),
    ensures
        gains(
            markdown::markdown(with_key_file(map, i, k0)),
            markdown::markdown(with_key_file(map, i, k1)),
            piece,
        ),
{
    let a = with_key_file(map, i, k0);
    let b = with_key_file(map, i, k1);
    lemma_rendered_gains(a.key_files, markdown::key_file_part(), i, k1, piece);
    assert(a.key_files.update(i, k1) =~= b.key_files);
    lemma_files_gain(a, b, piece);
}

/// What one more item adds to a list: its line, the first with the title of the list and an empty
/// line.
pub open spec fn item_piece(title: Seq<char>, items: Seq<Seq<char>>, item: Seq<char>) -> Seq<char> {
    if items.len() == 0 {
        title + ("- `"@ + item + "`\n"@) + "\n"@
    } else {
        "- `"@ + item + "`\n"@
    }
}

proof fn lemma_regroup_file(head: Seq<char>, a: Seq<char>, b: Seq<char>, c: Seq<char>)
    ensures
        head + a + b + c == head + a + (b + c),
{
    assert(head + a + b + c =~= head + a + (b + c));
}

proof fn lemma_nothing_behind(s: Seq<char>)
    ensures
        s + seq![] == s,
{
    assert(s + seq![] =~= s);
}

/// The purpose of a key file adds its line to the map; a symbol or a dependency adds its line, the
/// first with the title of its list; and a key file of which nothing is known adds its title.
#[verifier::rlimit(60)]
pub proof fn key_files_gain_only_their_lines(
    map: ProjectView,
    i: int,
    k: KeyFileView,
    text: Seq<char>,
    bare: KeyFileView,
)
    requires
        bare.purpose is None,
        bare.symbols.len() == 0,
        bare.dependencies.len() == 0,
    ensures
        0 <= i < map.key_files.len() ==> gains(
            markdown::markdown(with_key_file(map, i, KeyFileView { purpose: None, ..k })),
            markdown::markdown(with_key_file(map, i, KeyFileView { purpose: Some(text), ..k })),
            "**Purpose**: "@ + text + "\n\n"@,
        ),
        0 <= i < map.key_files.len() ==> gains(
            markdown::markdown(with_key_file(map, i, k)),
            markdown::markdown(
                with_key_file(map, i, KeyFileView { symbols: k.symbols.push(text), ..k }),
            ),
            item_piece("**Public Symbols**:\n"@, k.symbols, text),
        ),
        0 <= i < map.key_files.len() ==> gains(
            markdown::markdown(with_key_file(map, i, k)),
            markdown::markdown(
                with_key_file(map, i, KeyFileView { dependencies: k.dependencies.push(text), ..k }),
            ),
            item_piece("**Depends On**:\n"@, k.dependencies, text),
        ),
        gains(
            markdown::markdown(map),
            markdown::markdown(ProjectView { key_files: map.key_files.push(bare), ..map }),
            file_title(bare),
        ),
{
    let f = markdown::key_file_part();
    if 0 <= i < map.key_files.len() {
        let head = file_title(k);
        let a = markdown::between("**Purpose**: "@, k.purpose, "\n\n"@);
        let t1 = "**Public Symbols**:\n"@;
        let b = markdown::list_part(t1, k.symbols, markdown::path_line());
        let t2 = "**Depends On**:\n"@;
        let c = markdown::list_part(t2, k.dependencies, markdown::path_line());
        let line = "**Purpose**: "@ + text + "\n\n"@;
        let k0 = KeyFileView { purpose: None, ..k };
        let k1 = KeyFileView { purpose: Some(text), ..k };
        let none = markdown::between("**Purpose**: "@, None, "\n\n"@);
        lemma_optional("**Purpose**: "@, text, "\n\n"@);
        lemma_regroup_file(head, none, b, c);
        lemma_regroup_file(head, line, b, c);
        lemma_gains_around(head, none, line, line, b + c);
        lemma_file_gains(map, i, k0, k1, line);
        let k2 = KeyFileView { symbols: k.symbols.push(text), ..k };
        let more = markdown::list_part(t1, k.symbols.push(text), markdown::path_line());
        lemma_list_gains(t1, k.symbols, text);
        lemma_gains_around(head + a, b, more, item_piece(t1, k.symbols, text), c);
        lemma_file_gains(map, i, k, k2, item_piece(t1, k.symbols, text));
        let k3 = KeyFileView { dependencies: k.dependencies.push(text), ..k };
        let deps = markdown::list_part(t2, k.dependencies.push(text), markdown::path_line());
        let piece = item_piece(t2, k.dependencies, text);
        lemma_list_gains(t2, k.dependencies, text);
        lemma_gains_around(head + a + b, c, deps, piece, seq![]);
        lemma_nothing_behind(head + a + b + c);
        lemma_nothing_behind(head + a + b + deps);
        lemma_file_gains(map, i, k, k3, piece);
    }
    let other = ProjectView { key_files: map.key_files.push(bare), ..map };
    lemma_rendered_push(map.key_files, f, bare);
    assert(f(bare) =~= file_title(bare));
    lemma_gains_behind(markdown::rendered(map.key_files, f), file_title(bare));
    lemma_files_gain(map, other, file_title(bare));
}

/// Every map opens with its title and closes with the same words about how it is made.
pub proof fn maps_are_framed(map: ProjectView)
    ensures
        text::starts(markdown::markdown(map), "# Project Map\n\n"@),
        text::ends(
            markdown::markdown(map),
            "---\n\n*This map is generated heuristically using tree-sitter-based symbol/import extraction\nwith regex fallback. It may miss dynamic imports, macros, and runtime-only\ndependencies. Purpose lines are extracted from source comments/docstrings where\navailable.\nUse this as a starting point; read specific files for details.*\n"@,
        ),
{
    let t = "# Project Map\n\n"@;
    let o = markdown::overview_part(map.overview);
    let s = markdown::structure_part(map.structure);
    let k = markdown::key_files_part(map.key_files);
    let f = markdown::FOOTER@;
    lemma_framed(t, o, s, k, f);
}

proof fn lemma_framed(
    t: Seq<char>,
    o: Seq<char>,
    s: Seq<char>,
    k: Seq<char>,
    f: Seq<char>,
)
    ensures
        text::starts(t + o + s + k + f, t),
        text::ends(t + o + s + k + f, f),
{
    let m = t + o + s + k + f;
    let l = m.len() - f.len();
    assert(m.subrange(0, t.len() as int) =~= t);
    assert(m.subrange(l, l + f.len()) =~= f);
}

} // verus!
