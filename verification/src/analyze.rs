//! What is known of a project from its files: which of them count, what they hold, where the
//! program starts and how much there is of each language.
use vstd::prelude::*;

use crate::collections::SortedMap;
use crate::extract;
use crate::model;
use crate::model::{FileInfo, FileView, Language};
use crate::text;
use crate::text::Class;

verus! {

// ---------------------------------------------------------------------------
// Which files count
// ---------------------------------------------------------------------------

/// Names of directories and files that hold no sources of the project.
pub open spec fn skipped_name(part: Seq<char>) -> bool {
    ||| part == "target"@
    ||| part == "node_modules"@
    ||| part == ".git"@
    ||| part == "__pycache__"@
    ||| part == ".pytest_cache"@
    ||| part == "dist"@
    ||| part == "build"@
    ||| part == ".venv"@
    ||| part == "venv"@
    ||| part == "env"@
    ||| part == ".env"@
    ||| part == "coverage"@
    ||| part == ".next"@
    ||| part == ".nuxt"@
    ||| part == ".turbo"@
    ||| part == ".vercel"@
    ||| part == "vendor"@
    ||| part == "Cargo.lock"@
    ||| part == "package-lock.json"@
    ||| part == "yarn.lock"@
    ||| part == "pnpm-lock.yaml"@
}

fn is_skipped_name(part: &[char]) -> (r: bool)
    ensures
        r == skipped_name(part@),
{
    text::is(part, "target") || text::is(part, "node_modules") || text::is(part, ".git")
        || text::is(part, "__pycache__") || text::is(part, ".pytest_cache") || text::is(
        part,
        "dist",
    ) || text::is(part, "build") || text::is(part, ".venv") || text::is(part, "venv")
        || text::is(part, "env") || text::is(part, ".env") || text::is(part, "coverage")
        || text::is(part, ".next") || text::is(part, ".nuxt") || text::is(part, ".turbo")
        || text::is(part, ".vercel") || text::is(part, "vendor") || text::is(part, "Cargo.lock")
        || text::is(part, "package-lock.json") || text::is(part, "yarn.lock") || text::is(
        part,
        "pnpm-lock.yaml",
    )
}

/// A name with a leading dot, other than those of a directory itself and of its parent.
pub open spec fn hidden_name(part: Seq<char>) -> bool {
    text::starts(part, "."@) && part != "."@ && part != ".."@
}

/// The parts of a path between its separators.
pub open spec fn path_parts(path: Seq<char>) -> Seq<Seq<char>> {
    text::split(path, Class::Either('/', '\\'))
}

/// Whether a part of a path keeps a file out of the map.
pub open spec fn excluding_part(part: Seq<char>, include_hidden: bool) -> bool {
    skipped_name(part) || (!include_hidden && hidden_name(part))
}

/// Whether a file is kept out of the map by its path. Hidden files and directories are kept out
/// unless they are asked for.
pub open spec fn excluded(path: Seq<char>, include_hidden: bool) -> bool {
    exists|i: int|
        0 <= i < path_parts(path).len() && excluding_part(
            #[trigger] path_parts(path)[i],
            include_hidden,
        )
}

/// Tells whether a file is kept out of the map by its path.
pub fn is_excluded(path: &str, include_hidden: bool) -> (r: bool)
    ensures
        r == excluded(path@, include_hidden),
{
    let chars = text::chars_of(path);
    let parts = text::split_class(chars.as_slice(), Class::Either('/', '\\'));
    let ghost all = path_parts(path@);
    for i in 0..parts.len()
        invariant
            all == text::pieces(parts@),
            all == path_parts(path@),
            forall|j: int| 0 <= j < i ==> !excluding_part(#[trigger] all[j], include_hidden),
    {
        let part = parts[i];
        assert(all[i as int] == part@);
        if is_skipped_name(part) {
            return true;
        }
        if !include_hidden && text::starts_with(part, ".") && !text::is(part, ".") && !text::is(
            part,
            "..",
        ) {
            return true;
        }
    }
    false
}

/// Tells whether a file is of no interest: one in a build, cache or dependency directory, a lock
/// file, or a hidden one.
pub fn should_skip(path: &str) -> (r: bool)
    ensures
        r == excluded(path@, false),
{
    is_excluded(path, false)
}

/// What is below a directory that is kept out is kept out too.
pub proof fn exclusion_reaches_below(dir: Seq<char>, rest: Seq<char>, include_hidden: bool)
    requires
        excluded(dir, include_hidden),
    ensures
        excluded(dir.push('/') + rest, include_hidden),
{
    let k = Class::Either('/', '\\');
    let path = dir.push('/') + rest;
    text::lemma_split_concat(dir, '/', rest, k);
    let i = choose|i: int|
        0 <= i < path_parts(dir).len() && excluding_part(
            #[trigger] path_parts(dir)[i],
            include_hidden,
        );
    assert(path_parts(path)[i] == path_parts(dir)[i]);
}

/// Asking for hidden files keeps no more files out.
pub proof fn hidden_files_are_only_added(path: Seq<char>)
    requires
        excluded(path, true),
    ensures
        excluded(path, false),
{
    let i = choose|i: int|
        0 <= i < path_parts(path).len() && excluding_part(#[trigger] path_parts(path)[i], true);
    assert(excluding_part(path_parts(path)[i], false));
}

/// The path of a file of the map with forward slashes, and its language, by its path below the
/// root and its extension; nothing for a file that is kept out or of another language.
pub open spec fn classified(raw: Seq<char>, extension: Seq<char>, include_hidden: bool) -> Option<
    (Seq<char>, Language),
> {
    let path = text::replace(raw, '\\', '/');
    let lang = model::language_of(text::lowercase(extension));
    if excluded(path, include_hidden) || lang == Language::Other {
        None
    } else {
        Some((path, lang))
    }
}

/// Decides whether a file is part of the map.
pub fn classify(raw: &str, extension: &str, include_hidden: bool) -> (r: Option<(String, Language)>)
    ensures
        match r {
            Some((path, lang)) => classified(raw@, extension@, include_hidden) == Some(
                (path@, lang),
            ),
            None => classified(raw@, extension@, include_hidden) is None,
        },
{
    let chars = text::chars_of(raw);
    let path = text::string_of(text::replace_char(chars.as_slice(), '\\', '/').as_slice());
    if is_excluded(path.as_str(), include_hidden) {
        return None;
    }
    let lang = Language::from_extension(extension);
    if lang == Language::Other {
        return None;
    }
    Some((path, lang))
}

/// What is known of a file with a given content.
pub open spec fn described(path: Seq<char>, lang: Language, content: Seq<char>) -> FileView {
    let found = extract::file_findings(content, lang);
    FileView {
        path,
        language: lang,
        lines: text::lines(content).len() as int,
        symbols: found.symbols,
        imports: found.imports,
        purpose: extract::purpose(content, lang),
    }
}

/// Reads the content of a file.
pub fn describe(path: String, language: Language, content: &str) -> (r: FileInfo)
    ensures
        r@ == described(path@, language, content@),
{
    let chars = text::chars_of(content);
    let pieces = text::lines_of(chars.as_slice());
    let lines: usize = pieces.len();
    assert(text::pieces(pieces@).len() == lines);
    let (symbols, imports, purpose) = extract::extract_symbols_imports_purpose(content, language);
    FileInfo { path, language, lines, symbols, imports, purpose }
}

// ---------------------------------------------------------------------------
// Entry points and tests
// ---------------------------------------------------------------------------

/// The names of files in the root that programs commonly start in.
pub open spec fn entry_names() -> Seq<Seq<char>> {
    seq![
        "main.py"@,
        "app.py"@,
        "__main__.py"@,
        "run.py"@,
        "server.py"@,
        "main.rs"@,
        "lib.rs"@,
        "index.ts"@,
        "main.ts"@,
        "app.ts"@,
        "server.ts"@,
        "index.js"@,
        "main.js"@,
        "app.js"@,
        "server.js"@,
    ]
}

/// The names of files in the root that programs commonly start in.
pub fn entry_point_names() -> (r: Vec<&'static str>)
    ensures
        text::str_views(r@) == entry_names(),
{
    let r = vec![
        "main.py",
        "app.py",
        "__main__.py",
        "run.py",
        "server.py",
        "main.rs",
        "lib.rs",
        "index.ts",
        "main.ts",
        "app.ts",
        "server.ts",
        "index.js",
        "main.js",
        "app.js",
        "server.js",
    ];
    assert(text::str_views(r@) =~= entry_names());
    r
}

/// Whether a content holds the guard of a script of Python.
pub open spec fn main_guard(content: Seq<char>) -> bool {
    text::contains(content, "if __name__ == \"__main__\""@) || text::contains(
        content,
        "if __name__ == '__main__'"@,
    )
}

/// Tells whether a content holds the guard of a script of Python.
pub fn has_main_guard(content: &str) -> (r: bool)
    ensures
        r == main_guard(content@),
{
    let chars = text::chars_of(content);
    text::contains_str(chars.as_slice(), "if __name__ == \"__main__\"") || text::contains_str(
        chars.as_slice(),
        "if __name__ == '__main__'",
    )
}

/// Those of the common names that are there.
pub open spec fn present_names(names: Seq<Seq<char>>, present: Seq<bool>) -> Seq<Seq<char>>
    decreases names.len(),
{
    if names.len() == 0 {
        seq![]
    } else {
        let front = present_names(names.drop_last(), present);
        if present[names.len() - 1] {
            front.push(names.last())
        } else {
            front
        }
    }
}

/// The paths of the files of Python with the guard of a script, by the contents of those files
/// that could be read.
pub open spec fn guarded_files(files: Seq<FileView>, contents: Seq<Option<Seq<char>>>) -> Seq<
    Seq<char>,
>
    decreases files.len(),
{
    if files.len() == 0 {
        seq![]
    } else {
        let front = guarded_files(files.drop_last(), contents);
        let i = files.len() - 1;
        if files[i].language == Language::Python && contents[i] is Some && main_guard(
            contents[i]->0,
        ) {
            front.push(files[i].path)
        } else {
            front
        }
    }
}

/// Contents that may be there as plain values.
pub open spec fn contents_of(v: Seq<Option<String>>) -> Seq<Option<Seq<char>>> {
    v.map_values(|o: Option<String>| text::opt_text(o))
}

/// The files that the program starts in: those of the common names that are there in the root,
/// and the scripts of Python. `present` tells of each common name whether there is such a file,
/// `contents` has the content of each file of Python that could be read.
pub fn find_entry_points(
    present: &Vec<bool>,
    files: &Vec<FileInfo>,
    contents: &Vec<Option<String>>,
) -> (r: Vec<String>)
    requires
        present@.len() == entry_names().len(),
        contents@.len() == files@.len(),
    ensures
        text::texts(r@) == present_names(entry_names(), present@) + guarded_files(
            model::file_views(files@),
            contents_of(contents@),
        ),
{
    broadcast use text::group_text;

    let names = entry_point_names();
    let ghost all = entry_names();
    let mut out: Vec<String> = Vec::new();
    assert(all.take(0) =~= seq![]);
    assert(text::texts(out@) =~= seq![]);
    for i in 0..names.len()
        invariant
            all == text::str_views(names@),
            present@.len() == names@.len(),
            text::texts(out@) == present_names(all.take(i as int), present@),
    {
        assert(all.take(i + 1).drop_last() =~= all.take(i as int));
        assert(all.take(i + 1).last() == names@[i as int]@);
        if present[i] {
            out.push(names[i].to_owned());
        }
    }
    assert(all.take(names@.len() as int) =~= all);
    let ghost first = text::texts(out@);
    let ghost views = model::file_views(files@);
    let ghost known = contents_of(contents@);
    assert(views.take(0) =~= seq![]);
    assert(first + seq![] =~= first);
    for i in 0..files.len()
        invariant
            contents@.len() == files@.len(),
            views == model::file_views(files@),
            known == contents_of(contents@),
            text::texts(out@) == first + guarded_files(views.take(i as int), known),
    {
        let ghost before = guarded_files(views.take(i as int), known);
        assert(views.take(i + 1).drop_last() =~= views.take(i as int));
        assert(views[i as int] == files@[i as int]@);
        assert(known[i as int] == text::opt_text(contents@[i as int]));
        if files[i].language == Language::Python {
            if let Some(content) = &contents[i] {
                if has_main_guard(content.as_str()) {
                    out.push(files[i].path.clone());
                    assert((first + before).push(views[i as int].path) =~= first + before.push(
                        views[i as int].path,
                    ));
                }
            }
        }
    }
    assert(views.take(files@.len() as int) =~= views);
    out
}

/// Whether a path is that of a test.
pub open spec fn test_path(path: Seq<char>) -> bool {
    text::contains(path, "test"@) || text::contains(path, "spec"@) || text::contains(
        path,
        "__tests__"@,
    )
}

/// The number of files whose path is that of a test.
pub open spec fn tests_in(files: Seq<FileView>) -> nat
    decreases files.len(),
{
    if files.len() == 0 {
        0
    } else if test_path(files.last().path) {
        tests_in(files.drop_last()) + 1
    } else {
        tests_in(files.drop_last())
    }
}

/// Counts the files whose path is that of a test.
pub fn count_tests(files: &[FileInfo]) -> (r: usize)
    ensures
        r == tests_in(model::file_views(files@)),
{
    let ghost all = model::file_views(files@);
    let mut n: usize = 0;
    assert(all.take(0) =~= seq![]);
    for i in 0..files.len()
        invariant
            all == model::file_views(files@),
            n == tests_in(all.take(i as int)),
            n <= i,
    {
        assert(all.take(i + 1).drop_last() =~= all.take(i as int));
        assert(all.take(i + 1).last() == files@[i as int]@);
        let chars = text::chars_of(files[i].path.as_str());
        let path = chars.as_slice();
        if text::contains_str(path, "test") || text::contains_str(path, "spec")
            || text::contains_str(path, "__tests__") {
            n += 1;
        }
    }
    assert(all.take(files@.len() as int) =~= all);
    n
}

// ---------------------------------------------------------------------------
// The summary of the readme
// ---------------------------------------------------------------------------

/// The names of readme files, in the order in which they are looked for.
pub open spec fn readme_file_names() -> Seq<Seq<char>> {
    seq!["README.md"@, "README.txt"@, "README.rst"@, "README"@]
}

/// The names of readme files, in the order in which they are looked for.
pub fn readme_names() -> (r: Vec<&'static str>)
    ensures
        text::str_views(r@) == readme_file_names(),
{
    let r = vec!["README.md", "README.txt", "README.rst", "README"];
    assert(text::str_views(r@) =~= readme_file_names());
    r
}

/// A line that is part of a paragraph: neither empty nor a heading.
pub open spec fn text_line(line: Seq<char>) -> bool {
    text::trim(line).len() > 0 && !text::starts(text::trim(line), "#"@)
}

/// The lines of a paragraph that begins with the first line.
pub open spec fn paragraph_at_start(lines: Seq<Seq<char>>) -> Seq<Seq<char>>
    decreases lines.len(),
{
    if lines.len() > 0 && text_line(lines[0]) {
        seq![text::trim(lines[0])] + paragraph_at_start(lines.drop_first())
    } else {
        seq![]
    }
}

/// The lines of the first paragraph.
pub open spec fn first_paragraph(lines: Seq<Seq<char>>) -> Seq<Seq<char>>
    decreases lines.len(),
{
    if lines.len() == 0 {
        seq![]
    } else if text_line(lines[0]) {
        paragraph_at_start(lines)
    } else {
        first_paragraph(lines.drop_first())
    }
}

/// The first paragraph of a readme in one line.
pub open spec fn summary(content: Seq<char>) -> Seq<char> {
    text::join(first_paragraph(text::lines(content)), " "@)
}

fn is_text_line(line: &[char]) -> (r: bool)
    ensures
        r == text_line(line@),
{
    let bare = text::trim_white(line);
    bare.len() > 0 && !text::starts_with(bare, "#")
}

/// The first paragraph of a readme in one line.
pub fn summarize(content: &str) -> (r: String)
    ensures
        r@ == summary(content@),
{
    broadcast use text::group_text;

    let chars = text::chars_of(content);
    let lines = text::lines_of(chars.as_slice());
    let ghost all = text::lines(content@);
    let mut at: usize = 0;
    assert(all.skip(0) =~= all);
    while at < lines.len() && !is_text_line(lines[at])
        invariant
            all == text::pieces(lines@),
            at <= lines@.len(),
            first_paragraph(all) == first_paragraph(all.skip(at as int)),
        decreases lines@.len() - at,
    {
        assert(all.skip(at as int)[0] == lines@[at as int]@);
        assert(all.skip(at as int).drop_first() =~= all.skip(at + 1));
        at += 1;
    }
    let mut parts: Vec<String> = Vec::new();
    assert(text::texts(parts@) =~= seq![]);
    proof {
        if at < lines@.len() {
            assert(all.skip(at as int)[0] == lines@[at as int]@);
        } else {
            assert(all.skip(at as int) =~= seq![]);
        }
        assert(first_paragraph(all) =~= text::texts(parts@) + paragraph_at_start(
            all.skip(at as int),
        ));
    }
    while at < lines.len() && is_text_line(lines[at])
        invariant
            all == text::pieces(lines@),
            at <= lines@.len(),
            first_paragraph(all) == text::texts(parts@) + paragraph_at_start(all.skip(at as int)),
        decreases lines@.len() - at,
    {
        let ghost before = text::texts(parts@);
        assert(all.skip(at as int)[0] == lines@[at as int]@);
        assert(all.skip(at as int).drop_first() =~= all.skip(at + 1));
        parts.push(text::string_of(text::trim_white(lines[at])));
        at += 1;
        assert(before + (seq![text::trim(all[at - 1])] + paragraph_at_start(all.skip(at as int)))
            =~= text::texts(parts@) + paragraph_at_start(all.skip(at as int)));
    }
    proof {
        if at < lines@.len() {
            assert(all.skip(at as int)[0] == lines@[at as int]@);
        }
        assert(paragraph_at_start(all.skip(at as int)) =~= seq![]);
        assert(text::texts(parts@) + seq![] =~= text::texts(parts@));
    }
    text::join_strings(parts.as_slice(), " ")
}

/// The summary of the first readme that has one.
pub open spec fn first_summary(contents: Seq<Option<Seq<char>>>) -> Option<Seq<char>>
    decreases contents.len(),
{
    if contents.len() == 0 {
        None
    } else {
        match contents[0] {
            Some(c) => if summary(c).len() > 0 {
                Some(summary(c))
            } else {
                first_summary(contents.drop_first())
            },
            None => first_summary(contents.drop_first()),
        }
    }
}

/// The summary of the first readme that has one, by the contents of those readme files that
/// could be read, in the order of their names.
pub fn extract_readme_summary(contents: &Vec<Option<String>>) -> (r: Option<String>)
    ensures
        text::opt_text(r) == first_summary(contents_of(contents@)),
{
    let ghost all = contents_of(contents@);
    assert(all.skip(0) =~= all);
    for i in 0..contents.len()
        invariant
            all == contents_of(contents@),
            first_summary(all) == first_summary(all.skip(i as int)),
    {
        assert(all.skip(i as int)[0] == text::opt_text(contents@[i as int]));
        assert(all.skip(i as int).drop_first() =~= all.skip(i + 1));
        if let Some(content) = &contents[i] {
            let found = summarize(content.as_str());
            if !found.as_str().is_empty() {
                return Some(found);
            }
        }
    }
    None
}

// ---------------------------------------------------------------------------
// Lines of each language
// ---------------------------------------------------------------------------

/// Whether there is a file of the language with a name.
pub open spec fn language_used(files: Seq<FileView>, name: Seq<char>) -> bool {
    exists|i: int|
        0 <= i < files.len() && model::language_name((#[trigger] files[i]).language) == name
}

/// The number of lines of the files of the language with a name.
pub open spec fn lines_in(files: Seq<FileView>, name: Seq<char>) -> int
    decreases files.len(),
{
    if files.len() == 0 {
        0
    } else {
        lines_in(files.drop_last(), name) + if model::language_name(files.last().language)
            == name {
            files.last().lines
        } else {
            0
        }
    }
}

/// There are no more lines in the first files than in all of them.
proof fn lemma_lines_in_grows(files: Seq<FileView>, name: Seq<char>, n: int)
    requires
        0 <= n <= files.len(),
        forall|i: int| 0 <= i < files.len() ==> (#[trigger] files[i]).lines >= 0,
    ensures
        0 <= lines_in(files.take(n), name) <= lines_in(files, name),
    decreases files.len(),
{
    if n < files.len() {
        lemma_lines_in_grows(files.drop_last(), name, n);
        assert(files.drop_last().take(n) =~= files.take(n));
    } else {
        assert(files.take(n) =~= files);
        if n > 0 {
            lemma_lines_in_grows(files.drop_last(), name, n - 1);
            assert(files.drop_last().take(n - 1) =~= files.drop_last());
        }
    }
}

/// The lines of each language can be counted.
pub open spec fn lines_fit(files: Seq<FileView>) -> bool {
    forall|name: Seq<char>| #[trigger] lines_in(files, name) <= usize::MAX
}

/// The number of lines of the files of one language, where it can be counted.
fn sum_lines(files: &[FileInfo], lang: Language) -> (r: Option<usize>)
    ensures
        match r {
            Some(n) => n == lines_in(model::file_views(files@), model::language_name(lang)),
            None => lines_in(model::file_views(files@), model::language_name(lang)) > usize::MAX,
        },
{
    let ghost all = model::file_views(files@);
    let name = lang.name();
    let mut n: usize = 0;
    assert(all.take(0) =~= seq![]);
    for i in 0..files.len()
        invariant
            all == model::file_views(files@),
            name@ == model::language_name(lang),
            n == lines_in(all.take(i as int), name@),
    {
        let ghost longer = all.take(i + 1);
        assert(longer.drop_last() =~= all.take(i as int));
        assert(longer.last() == files@[i as int]@);
        if text::str_same(files[i].language.name(), name) {
            match n.checked_add(files[i].lines) {
                Some(m) => {
                    n = m;
                },
                None => {
                    proof {
                        lemma_lines_in_grows(all, name@, i + 1);
                    }
                    return None;
                },
            }
        }
    }
    assert(all.take(files@.len() as int) =~= all);
    Some(n)
}

/// Tells whether the lines of each language can be counted.
pub fn lines_can_be_counted(files: &[FileInfo]) -> (r: bool)
    ensures
        r == lines_fit(model::file_views(files@)),
{
    let ghost all = model::file_views(files@);
    let python = sum_lines(files, Language::Python);
    let typescript = sum_lines(files, Language::TypeScript);
    let rust = sum_lines(files, Language::Rust);
    let javascript = sum_lines(files, Language::JavaScript);
    let other = sum_lines(files, Language::Other);
    let fit = python.is_some() && typescript.is_some() && rust.is_some() && javascript.is_some()
        && other.is_some();
    proof {
        if fit {
            assert forall|name: Seq<char>| #[trigger] lines_in(all, name) <= usize::MAX by {
                if language_used(all, name) {
                    let i = choose|i: int|
                        0 <= i < all.len() && model::language_name((#[trigger] all[i]).language)
                            == name;
                    assert(name == model::language_name(all[i].language));
                } else {
                    lemma_unused_language(all, name);
                }
            }
        } else {
            let lang = if python is None {
                Language::Python
            } else if typescript is None {
                Language::TypeScript
            } else if rust is None {
                Language::Rust
            } else if javascript is None {
                Language::JavaScript
            } else {
                Language::Other
            };
            assert(lines_in(all, model::language_name(lang)) > usize::MAX);
        }
    }
    fit
}

/// A map has the lines of each language that is used.
pub open spec fn line_counts(files: Seq<FileView>, m: Map<Seq<char>, usize>) -> bool {
    &&& forall|name: Seq<char>| #[trigger] m.contains_key(name) <==> language_used(files, name)
    &&& forall|name: Seq<char>| #[trigger] m.contains_key(name) ==> m[name] == lines_in(files, name)
}

/// Counts the lines of each language.
pub fn count_languages(files: &[FileInfo]) -> (r: SortedMap<usize>)
    requires
        lines_fit(model::file_views(files@)),
    ensures
        r.wf(),
        line_counts(model::file_views(files@), r.map()),
{
    let ghost all = model::file_views(files@);
    let mut out: SortedMap<usize> = SortedMap::new();
    for i in 0..files.len()
        invariant
            all == model::file_views(files@),
            lines_fit(all),
            out.wf(),
            line_counts(all.take(i as int), out.map()),
    {
        let ghost front = all.take(i as int);
        let ghost longer = all.take(i + 1);
        assert(longer.drop_last() =~= front);
        assert(longer.last() == files@[i as int]@);
        let name = files[i].language.name();
        let lines: usize = files[i].lines;
        proof {
            assert(lines_in(all, name@) <= usize::MAX);
            lemma_lines_in_grows(all, name@, i + 1);
        }
        let sofar: usize = match out.get(name) {
            Some(n) => *n,
            None => 0,
        };
        proof {
            if !language_used(front, name@) {
                lemma_unused_language(front, name@);
            }
        }
        let ghost before = out.map();
        out.insert(name.to_owned(), sofar + lines);
        proof {
            assert forall|k: Seq<char>| #[trigger]
                out.map().contains_key(k) <==> language_used(longer, k) by {
                if language_used(front, k) {
                    let j = choose|j: int|
                        0 <= j < front.len() && model::language_name((#[trigger] front[j]).language)
                            == k;
                    assert(longer[j] == front[j]);
                }
                if language_used(longer, k) && k != name@ {
                    let j = choose|j: int|
                        0 <= j < longer.len() && model::language_name(
                            (#[trigger] longer[j]).language,
                        ) == k;
                    assert(j < i);
                    assert(front[j] == longer[j]);
                }
                if k == name@ {
                    assert(model::language_name(longer[i as int].language) == k);
                }
                assert(before.contains_key(k) <==> language_used(front, k));
            }
            assert forall|k: Seq<char>| #[trigger]
                out.map().contains_key(k) implies out.map()[k] == lines_in(longer, k) by {
                if k != name@ {
                    assert(before.contains_key(k));
                }
            }
        }
    }
    assert(all.take(files@.len() as int) =~= all);
    out
}

/// A language that is not used has no lines.
proof fn lemma_unused_language(files: Seq<FileView>, name: Seq<char>)
    requires
        !language_used(files, name),
    ensures
        lines_in(files, name) == 0,
    decreases files.len(),
{
    if files.len() > 0 {
        let front = files.drop_last();
        assert(model::language_name(files[files.len() - 1].language) != name);
        if language_used(front, name) {
            let i = choose|i: int|
                0 <= i < front.len() && model::language_name((#[trigger] front[i]).language) == name;
            assert(model::language_name(files[i].language) == name);
        }
        lemma_unused_language(front, name);
    }
}

} // verus!
