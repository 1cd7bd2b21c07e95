//! Which files are looked at, and what the overview says of them.
use vstd::prelude::*;

use crate::analyze;
use crate::extract;
use crate::model;
use crate::model::{FileView, Language};
use crate::text;
use crate::text::Class;

verus! {

// ---------------------------------------------------------------------------
// Files
// ---------------------------------------------------------------------------

/// The name of something that is built, fetched or kept by a tool, or a lock file.
pub open spec fn is_by_product(name: Seq<char>) -> bool {
    seq![
        "target"@,
        "node_modules"@,
        ".git"@,
        "__pycache__"@,
        ".pytest_cache"@,
        "dist"@,
        "build"@,
        ".venv"@,
        "venv"@,
        "env"@,
        ".env"@,
        "coverage"@,
        ".next"@,
        ".nuxt"@,
        ".turbo"@,
        ".vercel"@,
        "vendor"@,
        "Cargo.lock"@,
        "package-lock.json"@,
        "yarn.lock"@,
        "pnpm-lock.yaml"@,
    ].contains(name)
}

proof fn lemma_by_products(name: Seq<char>)
    ensures
        is_by_product(name) <==> analyze::skipped_name(name),
{
    let all = seq![
        "target"@,
        "node_modules"@,
        ".git"@,
        "__pycache__"@,
        ".pytest_cache"@,
        "dist"@,
        "build"@,
        ".venv"@,
        "venv"@,
        "env"@,
        ".env"@,
        "coverage"@,
        ".next"@,
        ".nuxt"@,
        ".turbo"@,
        ".vercel"@,
        "vendor"@,
        "Cargo.lock"@,
        "package-lock.json"@,
        "yarn.lock"@,
        "pnpm-lock.yaml"@,
    ];
    assert(all.len() == 21);
    assert(all[0] == "target"@ && all[1] == "node_modules"@ && all[2] == ".git"@);
    assert(all[3] == "__pycache__"@ && all[4] == ".pytest_cache"@ && all[5] == "dist"@);
    assert(all[6] == "build"@ && all[7] == ".venv"@ && all[8] == "venv"@ && all[9] == "env"@);
    assert(all[10] == ".env"@ && all[11] == "coverage"@ && all[12] == ".next"@);
    assert(all[13] == ".nuxt"@ && all[14] == ".turbo"@ && all[15] == ".vercel"@);
    assert(all[16] == "vendor"@ && all[17] == "Cargo.lock"@ && all[18] == "package-lock.json"@);
    assert(all[19] == "yarn.lock"@ && all[20] == "pnpm-lock.yaml"@);
}

/// A path is left out where one of its components, between slashes or backslashes, is a by-product
/// of a tool or, unless hidden files are asked for, begins with a dot and is neither `.` nor `..`;
/// and no other path is.
pub proof fn by_products_and_hidden_files_are_left_out(path: Seq<char>, include_hidden: bool)
    ensures
        forall|i: int|
            0 <= i < text::split(path, Class::Either('/', '\\')).len() && is_by_product(
                #[trigger] text::split(path, Class::Either('/', '\\'))[i],
            ) ==> analyze::excluded(path, include_hidden),
        forall|i: int|
            0 <= i < text::split(path, Class::Either('/', '\\')).len() && (
            #[trigger] text::split(path, Class::Either('/', '\\'))[i]).len() > 0 && text::split(
                path,
                Class::Either('/', '\\'),
            )[i][0] == '.' && text::split(path, Class::Either('/', '\\'))[i] != "."@ && text::split(
                path,
                Class::Either('/', '\\'),
            )[i] != ".."@ ==> analyze::excluded(path, false),
        analyze::excluded(path, include_hidden) ==> exists|i: int|
            0 <= i < text::split(path, Class::Either('/', '\\')).len() && (is_by_product(
                #[trigger] text::split(path, Class::Either('/', '\\'))[i],
            ) || (!include_hidden && text::split(path, Class::Either('/', '\\'))[i].len() > 0
                && text::split(path, Class::Either('/', '\\'))[i][0] == '.' && text::split(
                path,
                Class::Either('/', '\\'),
            )[i] != "."@ && text::split(path, Class::Either('/', '\\'))[i] != ".."@)),
{
    let parts = analyze::path_parts(path);
    reveal_strlit(".");
    assert("."@ =~= seq!['.']);
    assert forall|i: int| 0 <= i < parts.len() && is_by_product(
        #[trigger] parts[i],
    ) implies analyze::excluded(path, include_hidden) by {
        lemma_by_products(parts[i]);
        assert(analyze::excluding_part(parts[i], include_hidden));
    }
    assert forall|i: int|
        0 <= i < parts.len() && (#[trigger] parts[i]).len() > 0 && parts[i][0] == '.' && parts[i]
            != "."@ && parts[i] != ".."@ implies analyze::excluded(path, false) by {
        assert(parts[i].subrange(0, 1) =~= "."@);
        assert(analyze::excluding_part(parts[i], false));
    }
    if analyze::excluded(path, include_hidden) {
        let i = choose|i: int|
            0 <= i < parts.len() && analyze::excluding_part(#[trigger] parts[i], include_hidden);
        lemma_by_products(parts[i]);
        if !analyze::skipped_name(parts[i]) {
            assert(parts[i].subrange(0, 1)[0] == '.');
            assert(parts[i][0] == '.');
        }
    }
}

/// The languages are told by their suffixes: `py`; `ts` and `tsx`; `rs`; `js`, `jsx`, `mjs` and
/// `cjs`; and every language has a name of its own.
pub proof fn languages_have_their_suffixes(extension: Seq<char>)
    ensures
        model::language_of(extension) == Language::Python <==> extension == "py"@,
        model::language_of(extension) == Language::TypeScript <==> extension == "ts"@ || extension
            == "tsx"@,
        model::language_of(extension) == Language::Rust <==> extension == "rs"@,
        model::language_of(extension) == Language::JavaScript <==> extension == "js"@ || extension
            == "jsx"@ || extension == "mjs"@ || extension == "cjs"@,
        forall|a: Language, b: Language| #[trigger]
            model::language_name(a) == #[trigger] model::language_name(b) ==> a == b,
        model::language_name(Language::Python) == "Python"@,
        model::language_name(Language::TypeScript) == "TypeScript"@,
        model::language_name(Language::Rust) == "Rust"@,
        model::language_name(Language::JavaScript) == "JavaScript"@,
        model::language_name(Language::Other) == "Other"@,
{
    reveal_strlit("py");
    reveal_strlit("ts");
    reveal_strlit("tsx");
    reveal_strlit("rs");
    reveal_strlit("js");
    reveal_strlit("jsx");
    reveal_strlit("mjs");
    reveal_strlit("cjs");
    reveal_strlit("Python");
    reveal_strlit("TypeScript");
    reveal_strlit("Rust");
    reveal_strlit("JavaScript");
    reveal_strlit("Other");
    assert("py"@[0] == 'p' && "ts"@[0] == 't' && "tsx"@[0] == 't' && "rs"@[0] == 'r');
    assert("js"@[0] == 'j' && "jsx"@[0] == 'j' && "mjs"@[0] == 'm' && "cjs"@[0] == 'c');
    assert("Python"@[0] == 'P' && "TypeScript"@[0] == 'T' && "Rust"@[0] == 'R');
    assert("JavaScript"@[0] == 'J' && "Other"@[0] == 'O');
}

/// A file is looked at where it is not left out and its suffix, in lower case, is that of a
/// language; its path then has slashes in place of backslashes.
pub proof fn sources_are_looked_at(raw: Seq<char>, extension: Seq<char>, include_hidden: bool)
    ensures
        ({
            let path = Seq::new(
                raw.len(),
                |i: int|
                    if raw[i] == '\\' {
                        '/'
                    } else {
                        raw[i]
                    },
            );
            let e = text::lowercase(extension);
            let r = analyze::classified(raw, extension, include_hidden);
            &&& analyze::excluded(path, include_hidden) ==> r is None
            &&& !analyze::excluded(path, include_hidden) && e == "py"@ ==> r == Some(
                (path, Language::Python),
            )
            &&& !analyze::excluded(path, include_hidden) && (e == "ts"@ || e == "tsx"@) ==> r
                == Some((path, Language::TypeScript))
            &&& !analyze::excluded(path, include_hidden) && e == "rs"@ ==> r == Some(
                (path, Language::Rust),
            )
            &&& !analyze::excluded(path, include_hidden) && (e == "js"@ || e == "jsx"@ || e
                == "mjs"@ || e == "cjs"@) ==> r == Some((path, Language::JavaScript))
            &&& e != "py"@ && e != "ts"@ && e != "tsx"@ && e != "rs"@ && e != "js"@ && e != "jsx"@
                && e != "mjs"@ && e != "cjs"@ ==> r is None
        }),
{
    let path = Seq::new(
        raw.len(),
        |i: int|
            if raw[i] == '\\' {
                '/'
            } else {
                raw[i]
            },
    );
    assert(text::replace(raw, '\\', '/') =~= path);
    languages_have_their_suffixes(text::lowercase(extension));
}

/// A described file has its path, its language and as many lines as its content; its symbols and
/// imports are those that are found in the content, and its purpose is the one that it tells.
pub proof fn files_are_described(path: Seq<char>, lang: Language, content: Seq<char>)
    ensures
        analyze::described(path, lang, content).path == path,
        analyze::described(path, lang, content).language == lang,
        analyze::described(path, lang, content).lines == text::lines(content).len(),
        analyze::described(path, lang, content).symbols == extract::file_findings(
            content,
            lang,
        ).symbols,
        analyze::described(path, lang, content).imports == extract::file_findings(
            content,
            lang,
        ).imports,
        analyze::described(path, lang, content).purpose == extract::purpose(content, lang),
{
}

// ---------------------------------------------------------------------------
// Entry points
// ---------------------------------------------------------------------------

/// The names of the files by which a program is started, in the order in which they are listed.
pub proof fn entry_points_have_known_names()
    ensures
        analyze::entry_names() == seq![
            "main.py"@,
            "app.py"@,
            "__main__.py"@,
            "run.py"@,
            "server.py"@,
            "main.rs"@,
            "lib.rs"@,
            "index.ts"@,
            "main.ts"@,
            "app.ts"@,
            "server.ts"@,
            "index.js"@,
            "main.js"@,
            "app.js"@,
            "server.js"@,
        ],
{
}

/// Of known names those are listed that are there, and in their order.
pub proof fn present_names_are_listed(names: Seq<Seq<char>>, present: Seq<bool>)
    requires
        names.len() == present.len(),
    ensures
        forall|k: int|
            0 <= k < names.len() && present[k] ==> analyze::present_names(names, present).contains(
                #[trigger] names[k],
            ),
        forall|name: Seq<char>| #[trigger]
            analyze::present_names(names, present).contains(name) ==> is_present(
                names,
                present,
                name,
            ),
        forall|k: int, l: int|
            0 <= k < l < names.len() && present[k] && present[l] ==> one_before_other(
                analyze::present_names(names, present),
                #[trigger] names[k],
                #[trigger] names[l],
            ),
{
    let n = names.len() as int;
    lemma_present(names, present, n);
    assert(names.take(n) =~= names);
}

/// A name is one of those that are there.
pub open spec fn is_present(names: Seq<Seq<char>>, present: Seq<bool>, name: Seq<char>) -> bool {
    exists|k: int| 0 <= k < names.len() && present[k] && #[trigger] names[k] == name
}

/// A text stands in a list before another.
pub open spec fn one_before_other(list: Seq<Seq<char>>, a: Seq<char>, b: Seq<char>) -> bool {
    exists|i: int, j: int|
        0 <= i < j < list.len() && #[trigger] list[i] == a && #[trigger] list[j] == b
}

proof fn lemma_present(names: Seq<Seq<char>>, present: Seq<bool>, n: int)
    requires
        names.len() == present.len(),
        0 <= n <= names.len(),
    ensures
        forall|k: int|
            0 <= k < n && present[k] ==> analyze::present_names(names.take(n), present).contains(
                #[trigger] names[k],
            ),
        forall|name: Seq<char>| #[trigger]
            analyze::present_names(names.take(n), present).contains(name) ==> is_present(
                names,
                present,
                name,
            ),
        forall|k: int, l: int|
            0 <= k < l < n && present[k] && present[l] ==> one_before_other(
                analyze::present_names(names.take(n), present),
                #[trigger] names[k],
                #[trigger] names[l],
            ),
    decreases n,
{
    if n > 0 {
        lemma_present(names, present, n - 1);
        let front = analyze::present_names(names.take(n - 1), present);
        let all = analyze::present_names(names.take(n), present);
        assert(names.take(n).drop_last() =~= names.take(n - 1));
        assert(names.take(n).last() == names[n - 1]);
        assert(all == if present[n - 1] {
            front.push(names[n - 1])
        } else {
            front
        });
        assert forall|k: int| 0 <= k < n && present[k] implies all.contains(
            #[trigger] names[k],
        ) by {
            if k < n - 1 {
                let i = front.index_of(names[k]);
                assert(all[i] == names[k]);
            } else {
                assert(all[all.len() - 1] == names[k]);
            }
        }
        assert forall|name: Seq<char>| #[trigger] all.contains(name) implies is_present(
            names,
            present,
            name,
        ) by {
            let i = all.index_of(name);
            if i < front.len() {
                assert(front[i] == name);
                assert(front.contains(name));
            } else {
                assert(names[n - 1] == name);
            }
        }
        assert forall|k: int, l: int|
            0 <= k < l < n && present[k] && present[l] implies one_before_other(
            all,
            #[trigger] names[k],
            #[trigger] names[l],
        ) by {
            if l < n - 1 {
                assert(one_before_other(front, names[k], names[l]));
                let (i, j) = choose|i: int, j: int|
                    0 <= i < j < front.len() && #[trigger] front[i] == names[k]
                        && #[trigger] front[j] == names[l];
                assert(all[i] == names[k] && all[j] == names[l]);
            } else {
                assert(front.contains(names[k]));
                let i = front.index_of(names[k]);
                assert(all[i] == names[k] && all[front.len() as int] == names[l]);
            }
        }
    }
}

/// A file of Python that asks whether it is the main module, with either kind of quotation marks,
/// is an entry point, and no other file is for what it holds.
pub proof fn guarded_files_are_entry_points(
    files: Seq<FileView>,
    contents: Seq<Option<Seq<char>>>,
)
    requires
        files.len() == contents.len(),
    ensures
        forall|i: int, c: Seq<char>|
            0 <= i < files.len() && (#[trigger] files[i]).language == Language::Python
                && contents[i] == Some(c) && (#[trigger] text::contains(
                c,
                "if __name__ == \"__main__\""@,
            ) || text::contains(c, "if __name__ == '__main__'"@)) ==> analyze::guarded_files(
                files,
                contents,
            ).contains(files[i].path),
        forall|p: Seq<char>| #[trigger]
            analyze::guarded_files(files, contents).contains(p) ==> exists|i: int|
                0 <= i < files.len() && (#[trigger] files[i]).path == p && files[i].language
                    == Language::Python && contents[i] is Some && (text::contains(
                    contents[i]->Some_0,
                    "if __name__ == \"__main__\""@,
                ) || text::contains(contents[i]->Some_0, "if __name__ == '__main__'"@)),
    decreases files.len(),
{
    let all = analyze::guarded_files(files, contents);
    if files.len() > 0 {
        let n = files.len() - 1;
        let front = files.drop_last();
        assert forall|i: int| 0 <= i < n implies #[trigger] front[i] == files[i] by {}
        lemma_guarded_front(front, contents, contents.take(n));
        guarded_files_are_entry_points(front, contents.take(n));
        let before = analyze::guarded_files(front, contents);
        assert forall|i: int, c: Seq<char>|
            0 <= i < files.len() && (#[trigger] files[i]).language == Language::Python
                && contents[i] == Some(c) && (#[trigger] text::contains(
                c,
                "if __name__ == \"__main__\""@,
            ) || text::contains(c, "if __name__ == '__main__'"@)) implies all.contains(
            files[i].path,
        ) by {
            if i < n {
                assert(front[i] == files[i]);
                assert(contents.take(n)[i] == contents[i]);
                assert(before.contains(files[i].path));
                let j = before.index_of(files[i].path);
                assert(all[j] == files[i].path);
            } else {
                assert(all[all.len() - 1] == files[i].path);
            }
        }
        assert forall|p: Seq<char>| #[trigger] all.contains(p) implies exists|i: int|
            0 <= i < files.len() && (#[trigger] files[i]).path == p && files[i].language
                == Language::Python && contents[i] is Some && (text::contains(
                contents[i]->Some_0,
                "if __name__ == \"__main__\""@,
            ) || text::contains(contents[i]->Some_0, "if __name__ == '__main__'"@)) by {
            let j = all.index_of(p);
            if j < before.len() {
                assert(before[j] == p);
                assert(before.contains(p));
                let i = choose|i: int|
                    0 <= i < front.len() && (#[trigger] front[i]).path == p && front[i].language
                        == Language::Python && contents.take(n)[i] is Some && (text::contains(
                        contents.take(n)[i]->Some_0,
                        "if __name__ == \"__main__\""@,
                    ) || text::contains(
                        contents.take(n)[i]->Some_0,
                        "if __name__ == '__main__'"@,
                    ));
                assert(files[i] == front[i]);
                assert(contents.take(n)[i] == contents[i]);
            } else {
                assert(files[n].path == p);
            }
        }
    }
}

proof fn lemma_guarded_front(
    files: Seq<FileView>,
    a: Seq<Option<Seq<char>>>,
    b: Seq<Option<Seq<char>>>,
)
    requires
        forall|i: int| 0 <= i < files.len() ==> #[trigger] a[i] == b[i],
    ensures
        analyze::guarded_files(files, a) == analyze::guarded_files(files, b),
    decreases files.len(),
{
    if files.len() > 0 {
        lemma_guarded_front(files.drop_last(), a, b);
        assert(a[files.len() - 1] == b[files.len() - 1]);
    }
}

// ---------------------------------------------------------------------------
// Counts
// ---------------------------------------------------------------------------

/// One more file is one more test file where its path holds `test` or `spec`, and else none more.
pub proof fn tests_are_told_by_their_paths(files: Seq<FileView>, file: FileView)
    ensures
        analyze::tests_in(seq![]) == 0,
        text::contains(file.path, "test"@) || text::contains(file.path, "spec"@)
            ==> analyze::tests_in(files.push(file)) == analyze::tests_in(files) + 1,
        !text::contains(file.path, "test"@) && !text::contains(file.path, "spec"@)
            ==> analyze::tests_in(files.push(file)) == analyze::tests_in(files),
{
    assert(files.push(file).drop_last() =~= files);
    let p = file.path;
    if text::contains(p, "__tests__"@) {
        let i = choose|i: int| text::occurs_at(p, "__tests__"@, i);
        reveal_strlit("__tests__");
        reveal_strlit("test");
        assert forall|j: int| 0 <= j < 4 implies p.subrange(i + 2, i + 6)[j] == "test"@[j] by {
            assert(p.subrange(i, i + 9)[j + 2] == "__tests__"@[j + 2]);
        }
        assert(p.subrange(i + 2, i + 6) =~= "test"@);
        assert(text::occurs_at(p, "test"@, i + 2));
    }
}

/// One more file adds its lines to the count of its language, and to no other.
pub proof fn lines_count_for_their_language(files: Seq<FileView>, file: FileView)
    ensures
        forall|name: Seq<char>| #[trigger] analyze::lines_in(seq![], name) == 0,
        file.language == Language::Python ==> analyze::lines_in(files.push(file), "Python"@)
            == analyze::lines_in(files, "Python"@) + file.lines,
        file.language == Language::TypeScript ==> analyze::lines_in(
            files.push(file),
            "TypeScript"@,
        ) == analyze::lines_in(files, "TypeScript"@) + file.lines,
        file.language == Language::Rust ==> analyze::lines_in(files.push(file), "Rust"@)
            == analyze::lines_in(files, "Rust"@) + file.lines,
        file.language == Language::JavaScript ==> analyze::lines_in(
            files.push(file),
            "JavaScript"@,
        ) == analyze::lines_in(files, "JavaScript"@) + file.lines,
        forall|name: Seq<char>|
            name != model::language_name(file.language) ==> #[trigger] analyze::lines_in(
                files.push(file),
                name,
            ) == analyze::lines_in(files, name),
{
    assert(files.push(file).drop_last() =~= files);
}

// ---------------------------------------------------------------------------
// The summary of the readme file
// ---------------------------------------------------------------------------

/// The readme file is looked for under these names, one after the other.
pub proof fn readme_files_have_known_names()
    ensures
        analyze::readme_file_names() == seq![
            "README.md"@,
            "README.txt"@,
            "README.rst"@,
            "README"@,
        ],
{
}

/// A line of text: it is not blank, and its first character that is not white is no `#`.
pub open spec fn tells_something(line: Seq<char>) -> bool {
    text::trim(line).len() > 0 && text::trim(line)[0] != '#'
}

proof fn lemma_text_line(line: Seq<char>)
    ensures
        analyze::text_line(line) <==> tells_something(line),
{
    reveal_strlit("#");
    let t = text::trim(line);
    if t.len() > 0 {
        if t[0] == '#' {
            assert(t.subrange(0, 1) =~= "#"@);
        } else if text::starts(t, "#"@) {
            assert(t.subrange(0, 1)[0] == '#');
        }
    }
}

proof fn lemma_paragraph(paragraph: Seq<Seq<char>>, rest: Seq<Seq<char>>)
    requires
        forall|i: int| 0 <= i < paragraph.len() ==> tells_something(#[trigger] paragraph[i]),
        rest.len() > 0 ==> !tells_something(rest[0]),
    ensures
        analyze::paragraph_at_start(paragraph + rest) == paragraph.map_values(
            |l: Seq<char>| text::trim(l),
        ),
    decreases paragraph.len(),
{
    let all = paragraph + rest;
    let trimmed = paragraph.map_values(|l: Seq<char>| text::trim(l));
    if paragraph.len() == 0 {
        assert(all =~= rest);
        if rest.len() > 0 {
            lemma_text_line(rest[0]);
        }
        assert(analyze::paragraph_at_start(all) =~= trimmed);
    } else {
        let more = paragraph.drop_first();
        assert forall|i: int| 0 <= i < more.len() implies tells_something(#[trigger] more[i]) by {
            assert(more[i] == paragraph[i + 1]);
        }
        assert(tells_something(paragraph[0]));
        lemma_text_line(paragraph[0]);
        lemma_paragraph(more, rest);
        assert(all.drop_first() =~= more + rest);
        assert(all[0] == paragraph[0]);
        assert(trimmed =~= seq![text::trim(paragraph[0])] + more.map_values(
            |l: Seq<char>| text::trim(l),
        ));
    }
}

proof fn lemma_first_paragraph(
    skipped: Seq<Seq<char>>,
    paragraph: Seq<Seq<char>>,
    rest: Seq<Seq<char>>,
)
    requires
        forall|i: int| 0 <= i < skipped.len() ==> !tells_something(#[trigger] skipped[i]),
        forall|i: int| 0 <= i < paragraph.len() ==> tells_something(#[trigger] paragraph[i]),
        rest.len() > 0 ==> paragraph.len() > 0 && !tells_something(rest[0]),
    ensures
        analyze::first_paragraph(skipped + paragraph + rest) == paragraph.map_values(
            |l: Seq<char>| text::trim(l),
        ),
    decreases skipped.len(),
{
    let all = skipped + paragraph + rest;
    if skipped.len() > 0 {
        let more = skipped.drop_first();
        assert forall|i: int| 0 <= i < more.len() implies !tells_something(#[trigger] more[i]) by {
            assert(more[i] == skipped[i + 1]);
        }
        assert(!tells_something(skipped[0]));
        assert(all[0] == skipped[0]);
        lemma_text_line(all[0]);
        assert(all.drop_first() =~= more + paragraph + rest);
        lemma_first_paragraph(more, paragraph, rest);
    } else if paragraph.len() > 0 {
        assert(tells_something(paragraph[0]));
        assert(all[0] == paragraph[0]);
        lemma_text_line(all[0]);
        assert(all =~= paragraph + rest);
        lemma_paragraph(paragraph, rest);
    } else {
        assert(all =~= seq![]);
        assert(analyze::first_paragraph(all) =~= paragraph.map_values(
            |l: Seq<char>| text::trim(l),
        ));
    }
}

/// The summary of a readme file is its first paragraph: behind the blank lines and headings that
/// it begins with, the lines up to the next blank line or heading, trimmed and with a blank
/// between each two of them.
pub proof fn summaries_are_first_paragraphs(
    content: Seq<char>,
    skipped: Seq<Seq<char>>,
    paragraph: Seq<Seq<char>>,
    rest: Seq<Seq<char>>,
)
    requires
        text::lines(content) == skipped + paragraph + rest,
        forall|i: int| 0 <= i < skipped.len() ==> !tells_something(#[trigger] skipped[i]),
        forall|i: int| 0 <= i < paragraph.len() ==> tells_something(#[trigger] paragraph[i]),
        rest.len() > 0 ==> paragraph.len() > 0 && !tells_something(rest[0]),
    ensures
        analyze::summary(content) == text::join(
            Seq::new(paragraph.len(), |i: int| text::trim(paragraph[i])),
            " "@,
        ),
{
    lemma_first_paragraph(skipped, paragraph, rest);
    assert(Seq::new(paragraph.len(), |i: int| text::trim(paragraph[i])) =~= paragraph.map_values(
        |l: Seq<char>| text::trim(l),
    ));
}

/// A readme file that is not there or has no summary.
pub open spec fn says_nothing(content: Option<Seq<char>>) -> bool {
    match content {
        Some(c) => analyze::summary(c).len() == 0,
        None => true,
    }
}

/// The summary is that of the first readme file that is there and has one.
pub proof fn first_readme_is_summarized(contents: Seq<Option<Seq<char>>>, i: int, c: Seq<char>)
    requires
        0 <= i < contents.len(),
        contents[i] == Some(c),
        analyze::summary(c).len() > 0,
        forall|j: int| 0 <= j < i ==> says_nothing(#[trigger] contents[j]),
    ensures
        analyze::first_summary(contents) == Some(analyze::summary(c)),
    decreases contents.len(),
{
    if i > 0 {
        let rest = contents.drop_first();
        assert(says_nothing(contents[0]));
        assert(rest[i - 1] == contents[i]);
        assert forall|j: int| 0 <= j < i - 1 implies says_nothing(#[trigger] rest[j]) by {
            assert(rest[j] == contents[j + 1]);
        }
        first_readme_is_summarized(rest, i - 1, c);
    }
}

/// Without a readme file that has a summary there is none.
pub proof fn no_readme_no_summary(contents: Seq<Option<Seq<char>>>)
    requires
        forall|j: int| 0 <= j < contents.len() ==> says_nothing(#[trigger] contents[j]),
    ensures
        analyze::first_summary(contents) is None,
    decreases contents.len(),
{
    if contents.len() > 0 {
        let rest = contents.drop_first();
        assert(says_nothing(contents[0]));
        assert forall|j: int| 0 <= j < rest.len() implies says_nothing(#[trigger] rest[j]) by {
            assert(rest[j] == contents[j + 1]);
        }
        no_readme_no_summary(rest);
    }
}

/// The counts of a project have an entry for the language of each file and no others, with the
/// lines of all files of that language.
pub proof fn used_languages_are_counted(files: Seq<FileView>, m: Map<Seq<char>, usize>)
    requires
        analyze::line_counts(files, m),
    ensures
        forall|i: int|
            0 <= i < files.len() ==> m.contains_key(
                model::language_name((#[trigger] files[i]).language),
            ) && m[model::language_name(files[i].language)] == analyze::lines_in(
                files,
                model::language_name(files[i].language),
            ),
        forall|name: Seq<char>| #[trigger]
            m.contains_key(name) ==> exists|i: int|
                0 <= i < files.len() && model::language_name((#[trigger] files[i]).language)
                    == name,
{
    assert forall|i: int| 0 <= i < files.len() implies m.contains_key(
        model::language_name((#[trigger] files[i]).language),
    ) && m[model::language_name(files[i].language)] == analyze::lines_in(
        files,
        model::language_name(files[i].language),
    ) by {
        let name = model::language_name(files[i].language);
        assert(analyze::language_used(files, name));
        assert(m.contains_key(name));
    }
    assert forall|name: Seq<char>| #[trigger] m.contains_key(name) implies exists|i: int|
        0 <= i < files.len() && model::language_name((#[trigger] files[i]).language) == name by {
        assert(analyze::language_used(files, name));
    }
}

} // verus!
