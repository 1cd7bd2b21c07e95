//! What is read out of the lines of a source.
use vstd::prelude::*;

use crate::extract;
use crate::laws::texts;
use crate::model::Language;
use crate::text;
use crate::text::Class;
use crate::walk;

verus! {

// ---------------------------------------------------------------------------
// Purposes
// ---------------------------------------------------------------------------

/// A source whose first line that is not blank is the one at `k`, which reads as given when
/// trimmed.
pub open spec fn opens_with(content: Seq<char>, k: int, line: Seq<char>) -> bool {
    &&& 0 <= k < text::lines(content).len()
    &&& text::trim(text::lines(content)[k]) == line
    &&& line.len() > 0
    &&& forall|j: int|
        0 <= j < k ==> text::trim(#[trigger] text::lines(content)[j]).len() == 0
}

proof fn lemma_first_line(lines: Seq<Seq<char>>, k: int, lang: Language)
    requires
        0 <= k < lines.len(),
        text::trim(lines[k]).len() > 0,
        forall|j: int| 0 <= j < k ==> text::trim(#[trigger] lines[j]).len() == 0,
    ensures
        extract::purpose_in(lines, lang) == extract::told_purpose(text::trim(lines[k]), lang),
    decreases k,
{
    if k > 0 {
        let rest = lines.drop_first();
        assert(text::trim(lines[0]).len() == 0);
        lemma_blank_tells_nothing(text::trim(lines[0]), lang);
        assert(rest[k - 1] == lines[k]);
        assert forall|j: int| 0 <= j < k - 1 implies text::trim(#[trigger] rest[j]).len() == 0 by {
            assert(rest[j] == lines[j + 1]);
        }
        lemma_first_line(rest, k - 1, lang);
    }
}

proof fn lemma_blank_tells_nothing(line: Seq<char>, lang: Language)
    requires
        line.len() == 0,
    ensures
        extract::told_purpose(line, lang) is None,
{
    reveal_strlit("\"\"\"");
    reveal_strlit("'''");
    reveal_strlit("#");
    reveal_strlit("/**");
    reveal_strlit("//");
    reveal_strlit("///");
    reveal_strlit("//!");
    reveal_strlit("/*!");
}

proof fn lemma_starts(a: Seq<char>, b: Seq<char>)
    ensures
        text::starts(a + b, a),
        (a + b).skip(a.len() as int) == b,
{
    assert((a + b).subrange(0, a.len() as int) =~= a);
    assert((a + b).skip(a.len() as int) =~= b);
}

proof fn lemma_ends(a: Seq<char>, b: Seq<char>)
    ensures
        text::ends(a + b, b),
        (a + b).take((a + b).len() - b.len()) == a,
{
    let s = a + b;
    assert(s.subrange(a.len() as int, s.len() as int) =~= b);
    assert(s.take(a.len() as int) =~= a);
}

proof fn lemma_start_off(p: Seq<char>, d: Seq<char>)
    requires
        p.len() > 0,
        !text::starts(d, p),
    ensures
        text::trim_start_text(p + d, p) == d,
{
    lemma_starts(p, d);
    reveal_with_fuel(text::trim_start_text, 2);
}

proof fn lemma_end_off(d: Seq<char>, p: Seq<char>)
    requires
        p.len() > 0,
        !text::ends(d, p),
    ensures
        text::trim_end_text(d + p, p) == d,
{
    lemma_ends(d, p);
    reveal_with_fuel(text::trim_end_text, 2);
}

/// A comment at the head of a source of Python is its purpose: what follows the `#`, trimmed. A
/// line with `#!` is none.
pub proof fn python_comments_tell_the_purpose(content: Seq<char>, k: int, d: Seq<char>)
    requires
        opens_with(content, k, "#"@ + d),
    ensures
        d.len() > 0 && d[0] == '!' ==> extract::purpose(content, Language::Python) is None,
        d.len() == 0 || (d[0] != '!' && d[0] != '#') ==> extract::purpose(
            content,
            Language::Python,
        ) == Some(text::trim(d)),
{
    let line = "#"@ + d;
    let lang = Language::Python;
    lemma_first_line(text::lines(content), k, lang);
    reveal_strlit("\"\"\"");
    reveal_strlit("'''");
    reveal_strlit("#");
    reveal_strlit("#!");
    lemma_starts("#"@, d);
    assert(line[0] == '#');
    assert(line.len() >= 3 ==> line.subrange(0, 3)[0] == '#');
    assert(line.drop_first() =~= d);
    if d.len() > 0 {
        assert(line[1] == d[0]);
        if d[0] == '!' {
            assert(line.subrange(0, 2) =~= "#!"@);
        } else {
            assert(line.subrange(0, 2)[1] == d[0]);
        }
    }
    reveal_with_fuel(text::trim_start, 2);
}

/// A text that neither begins nor ends with a quotation mark.
pub open spec fn is_bare(d: Seq<char>) -> bool {
    d.len() > 0 && d[0] != '"' && d[0] != '\'' && d.last() != '"' && d.last() != '\''
}

proof fn lemma_quotes_off(q: char, d: Seq<char>, closed: bool)
    requires
        is_bare(d),
        q == '"' || q == '\'',
    ensures
        ({
            let line = seq![q, q, q] + d + if closed {
                seq![q, q, q]
            } else {
                seq![]
            };
            text::trim_class(text::trim_class(line, Class::Only('"')), Class::Only('\'')) == d
        }),
{
    let k = Class::Only(q);
    let end = if closed {
        seq![q, q, q]
    } else {
        Seq::<char>::empty()
    };
    let rest = d + end;
    let line = seq![q, q, q] + d + end;
    assert(line.drop_first() =~= seq![q, q] + rest);
    assert((seq![q, q] + rest).drop_first() =~= seq![q] + rest);
    assert((seq![q] + rest).drop_first() =~= rest);
    assert(rest[0] == d[0]);
    assert(text::trim_start(rest, k) == rest);
    assert(text::trim_start(seq![q] + rest, k) == rest);
    assert(text::trim_start(seq![q, q] + rest, k) == rest);
    assert(text::trim_start(line, k) == rest);
    assert(text::trim_end(d, k) == d);
    if closed {
        assert(rest.drop_last() =~= d + seq![q, q]);
        assert((d + seq![q, q]).drop_last() =~= d + seq![q]);
        assert((d + seq![q]).drop_last() =~= d);
        assert(text::trim_end(d + seq![q], k) == d);
        assert(text::trim_end(d + seq![q, q], k) == d);
        assert(text::trim_end(rest, k) == d);
    } else {
        assert(rest =~= d);
    }
    assert(text::trim_class(line, k) == d);
    let double = Class::Only('"');
    let one = Class::Only('\'');
    if q == '"' {
        assert(text::trim_class(d, one) == d);
    } else {
        assert(line[0] == q);
        assert(line.last() == if closed {
            q
        } else {
            d.last()
        });
        assert(text::trim_class(line, double) == line);
    }
}

/// A docstring at the head of a source of Python is its purpose: the text behind its quotation
/// marks, up to those that close it on the line, if any do.
pub proof fn docstrings_tell_the_purpose(content: Seq<char>, k: int, d: Seq<char>)
    requires
        is_bare(d),
        opens_with(content, k, "\"\"\""@ + d + "\"\"\""@) || opens_with(
            content,
            k,
            "\"\"\""@ + d,
        ) || opens_with(content, k, "'''"@ + d + "'''"@) || opens_with(content, k, "'''"@ + d),
    ensures
        extract::purpose(content, Language::Python) == Some(d),
{
    let lang = Language::Python;
    lemma_first_line(text::lines(content), k, lang);
    reveal_strlit("\"\"\"");
    reveal_strlit("'''");
    let line = text::trim(text::lines(content)[k]);
    assert("\"\"\""@ =~= seq!['"', '"', '"']);
    assert("'''"@ =~= seq!['\'', '\'', '\'']);
    let q = line[0];
    let mark = if q == '"' {
        "\"\"\""@
    } else {
        "'''"@
    };
    let closed = line.len() > d.len() + 3;
    lemma_quotes_off(q, d, closed);
    assert(line =~= seq![q, q, q] + d + if closed {
        seq![q, q, q]
    } else {
        seq![]
    });
    assert(line.subrange(0, 3) =~= mark);
}

/// A comment at the head of a source of TypeScript or JavaScript is its purpose: what follows the
/// `//`, or the text between `/**` and `*/`, trimmed.
pub proof fn script_comments_tell_the_purpose(
    content: Seq<char>,
    lang: Language,
    k: int,
    d: Seq<char>,
)
    requires
        lang == Language::TypeScript || lang == Language::JavaScript,
    ensures
        opens_with(content, k, "//"@ + d) && !text::starts(d, "//"@) ==> extract::purpose(
            content,
            lang,
        ) == Some(text::trim(d)),
        opens_with(content, k, "/**"@ + d) && !text::starts(d, "/**"@) && !text::ends(d, "*/"@)
            ==> extract::purpose(content, lang) == Some(text::trim(d)),
        opens_with(content, k, "/**"@ + d + "*/"@) && d.len() > 3 && !text::starts(d, "/**"@)
            && !text::ends(d, "*/"@) ==> extract::purpose(content, lang) == Some(text::trim(d)),
{
    reveal_strlit("//");
    reveal_strlit("/**");
    reveal_strlit("*/");
    lemma_starts("//"@, d);
    lemma_starts("/**"@, d);
    if opens_with(content, k, "//"@ + d) && !text::starts(d, "//"@) {
        lemma_first_line(text::lines(content), k, lang);
        let line = "//"@ + d;
        assert(line[1] == '/');
        assert(line.len() >= 3 ==> line.subrange(0, 3)[1] == '/');
        lemma_start_off("//"@, d);
    }
    if opens_with(content, k, "/**"@ + d) && !text::starts(d, "/**"@) && !text::ends(d, "*/"@) {
        lemma_first_line(text::lines(content), k, lang);
        lemma_start_off("/**"@, d);
    }
    if opens_with(content, k, "/**"@ + d + "*/"@) && d.len() > 3 && !text::starts(d, "/**"@)
        && !text::ends(d, "*/"@) {
        lemma_first_line(text::lines(content), k, lang);
        let rest = d + "*/"@;
        assert("/**"@ + d + "*/"@ =~= "/**"@ + rest);
        lemma_starts("/**"@, rest);
        assert(rest.subrange(0, 3) =~= d.subrange(0, 3));
        lemma_start_off("/**"@, rest);
        lemma_end_off(d, "*/"@);
    }
}

/// A doc comment at the head of a source of Rust is its purpose: what follows `///`, `//!` or
/// `/*!`, trimmed.
pub proof fn rust_comments_tell_the_purpose(content: Seq<char>, k: int, d: Seq<char>)
    requires
        !text::starts(d, "///"@),
        !text::starts(d, "//!"@),
        !text::starts(d, "/*!"@),
        !text::ends(d, "*/"@),
        opens_with(content, k, "///"@ + d) || opens_with(content, k, "//!"@ + d) || opens_with(
            content,
            k,
            "/*!"@ + d,
        ),
    ensures
        extract::purpose(content, Language::Rust) == Some(text::trim(d)),
{
    let lang = Language::Rust;
    lemma_first_line(text::lines(content), k, lang);
    reveal_strlit("///");
    reveal_strlit("//!");
    reveal_strlit("/*!");
    reveal_strlit("*/");
    let line = text::trim(text::lines(content)[k]);
    lemma_starts("///"@, d);
    lemma_starts("//!"@, d);
    lemma_starts("/*!"@, d);
    lemma_start_off("///"@, d);
    lemma_start_off("//!"@, d);
    lemma_start_off("/*!"@, d);
    let one = "///"@ + d;
    let two = "//!"@ + d;
    let three = "/*!"@ + d;
    assert(one[2] == '/' && two[2] == '!' && three[1] == '*' && three[2] == '!' && two[1] == '/');
    assert(two.subrange(0, 3)[2] == '!');
    assert(three.subrange(0, 3)[1] == '*');
    assert(text::trim_start_text(two, "///"@) == two);
    assert(text::trim_start_text(three, "///"@) == three);
    assert(text::trim_start_text(three, "//!"@) == three);
    assert(text::trim_start_text(d, "//!"@) == d);
    assert(text::trim_start_text(d, "/*!"@) == d);
    assert(text::trim_end_text(d, "*/"@) == d);
}

/// A source that opens with anything else than a comment tells no purpose: a line of Python that
/// does not begin with a quotation mark or `#`, one of TypeScript, JavaScript or Rust that does
/// not begin with a slash, or any line of another language.
pub proof fn code_tells_no_purpose(content: Seq<char>, lang: Language, k: int, line: Seq<char>)
    requires
        opens_with(content, k, line),
        lang == Language::Python ==> line[0] != '"' && line[0] != '\'' && line[0] != '#',
        lang == Language::TypeScript || lang == Language::JavaScript || lang == Language::Rust
            ==> line[0] != '/',
    ensures
        extract::purpose(content, lang) is None,
{
    lemma_first_line(text::lines(content), k, lang);
    reveal_strlit("\"\"\"");
    reveal_strlit("'''");
    reveal_strlit("#");
    reveal_strlit("/**");
    reveal_strlit("//");
    reveal_strlit("///");
    reveal_strlit("//!");
    reveal_strlit("/*!");
    assert(line.len() >= 3 ==> line.subrange(0, 3)[0] == line[0]);
    assert(line.len() >= 2 ==> line.subrange(0, 2)[0] == line[0]);
    assert(line.subrange(0, 1)[0] == line[0]);
}

// ---------------------------------------------------------------------------
// Tree or patterns
// ---------------------------------------------------------------------------

/// What the tree of a source gives is taken where it gives a symbol or an import; else the
/// patterns are asked.
pub proof fn trees_come_before_patterns(content: Seq<char>, lang: Language)
    ensures
        walk::extracted(content, lang) matches Some(found) ==> (found.symbols.len() > 0
            || found.imports.len() > 0 ==> extract::file_findings(content, lang) == found),
        walk::extracted(content, lang) matches Some(found) ==> (found.symbols.len() == 0
            && found.imports.len() == 0 ==> extract::file_findings(content, lang)
            == extract::pattern_findings(content, lang)),
        walk::extracted(content, lang) is None ==> extract::file_findings(content, lang)
            == extract::pattern_findings(content, lang),
{
}

// ---------------------------------------------------------------------------
// Patterns
// ---------------------------------------------------------------------------

/// The text of a group of a match.
pub open spec fn has_group(
    found: Option<Seq<Option<Seq<char>>>>,
    i: int,
    s: Seq<char>,
) -> bool {
    found matches Some(groups) && 0 <= i < groups.len() && groups[i] == Some(s)
}

/// A match without a text for a group.
pub open spec fn lacks_group(found: Option<Seq<Option<Seq<char>>>>, i: int) -> bool {
    found matches Some(groups) ==> (0 <= i < groups.len() ==> groups[i] is None)
}

proof fn lemma_group(found: Option<Seq<Option<Seq<char>>>>, i: int, s: Seq<char>)
    ensures
        extract::group(found, i) == Some(s) <==> has_group(found, i, s),
        extract::group(found, i) is None <==> lacks_group(found, i),
{
}

proof fn lemma_gathered(
    lines: Seq<Seq<char>>,
    f: spec_fn(Seq<char>) -> Seq<Seq<char>>,
    s: Seq<char>,
)
    ensures
        extract::gathered(lines, f).contains(s) <==> exists|k: int|
            0 <= k < lines.len() && #[trigger] f(lines[k]).contains(s),
    decreases lines.len(),
{
    let all = extract::gathered(lines, f);
    if lines.len() > 0 {
        let rest = lines.drop_last();
        lemma_gathered(rest, f, s);
        let front = extract::gathered(rest, f);
        let own = f(lines.last());
        let n = lines.len() - 1;
        assert(lines[n] == lines.last());
        if all.contains(s) {
            let i = all.index_of(s);
            if i < front.len() {
                assert(front[i] == s);
                let k = choose|k: int| 0 <= k < rest.len() && #[trigger] f(rest[k]).contains(s);
                assert(rest[k] == lines[k]);
                assert(f(lines[k]).contains(s));
            } else {
                assert(own[i - front.len()] == s);
                assert(f(lines[n]).contains(s));
            }
        }
        if exists|k: int| 0 <= k < lines.len() && #[trigger] f(lines[k]).contains(s) {
            let k = choose|k: int| 0 <= k < lines.len() && #[trigger] f(lines[k]).contains(s);
            if k < n {
                assert(rest[k] == lines[k]);
                assert(f(rest[k]).contains(s));
                let i = front.index_of(s);
                assert(all[i] == s);
            } else {
                let i = own.index_of(s);
                assert(all[front.len() + i] == s);
            }
        }
    } else if all.contains(s) {
        let i = all.index_of(s);
    }
}

proof fn lemma_single(o: Option<Seq<char>>, s: Seq<char>)
    ensures
        walk::single(o).contains(s) <==> o == Some(s),
{
    if o == Some(s) {
        assert(walk::single(o)[0] == s);
    }
}

/// A line of a source matches a pattern with a text in its first group.
pub open spec fn some_line_gives(content: Seq<char>, pattern: Seq<char>, s: Seq<char>) -> bool {
    exists|k: int|
        0 <= k < text::lines(content).len() && has_group(
            extract::captures(pattern, #[trigger] text::lines(content)[k]),
            1,
            s,
        )
}

proof fn lemma_matched(content: Seq<char>, pattern: Seq<char>, s: Seq<char>)
    ensures
        extract::gathered(text::lines(content), extract::matched(pattern)).contains(s)
            <==> some_line_gives(content, pattern, s),
{
    let lines = text::lines(content);
    let f = extract::matched(pattern);
    lemma_gathered(lines, f, s);
    if extract::gathered(lines, f).contains(s) {
        let k = choose|k: int| 0 <= k < lines.len() && #[trigger] f(lines[k]).contains(s);
        lemma_single(extract::group(extract::captures(pattern, lines[k]), 1), s);
        assert(has_group(extract::captures(pattern, lines[k]), 1, s));
    }
    if some_line_gives(content, pattern, s) {
        let k = choose|k: int|
            0 <= k < lines.len() && has_group(
                extract::captures(pattern, #[trigger] lines[k]),
                1,
                s,
            );
        lemma_single(extract::group(extract::captures(pattern, lines[k]), 1), s);
        assert(f(lines[k]).contains(s));
    }
}

/// By its patterns, a source of Rust has the symbols that its lines with a public function, struct,
/// enum, trait, module, constant, static or type give, and the imports that its `use` lines give.
pub proof fn rust_patterns_give_findings(content: Seq<char>, s: Seq<char>)
    ensures
        extract::pattern_findings(content, Language::Rust).symbols.contains(s) <==> some_line_gives(
            content,
            r"^\s*pub\s+(?:fn|struct|enum|trait|mod|const|static|type)\s+(\w+)"@,
            s,
        ),
        extract::pattern_findings(content, Language::Rust).imports.contains(s) <==> some_line_gives(
            content,
            r"^\s*use\s+([\w:]+(?:\s*\{[^}]*\})?)"@,
            s,
        ),
{
    lemma_matched(content, extract::RUST_SYMBOL@, s);
    lemma_matched(content, extract::RUST_USE@, s);
}

/// A line of Python gives an import: a `from` line by its module, and any other by its `import`.
pub open spec fn python_line_gives(line: Seq<char>, s: Seq<char>) -> bool {
    let from = extract::captures(r"^\s*from\s+([\w.]+)\s+import\s+([\w\s,]+)"@, line);
    let plain = extract::captures(r"^\s*import\s+([\w.]+)"@, line);
    if from is Some {
        exists|base: Seq<char>| #[trigger]
            has_group(from, 1, base) && s == extract::python_from_specifier(
                base,
                extract::group(from, 2),
            )
    } else {
        has_group(plain, 1, s)
    }
}

/// By its patterns, a source of Python has the symbols that its lines with a function or class
/// give, and the imports that its lines with an import give.
pub proof fn python_patterns_give_findings(content: Seq<char>, s: Seq<char>)
    ensures
        extract::pattern_findings(content, Language::Python).symbols.contains(s)
            <==> some_line_gives(content, r"^\s*(?:async\s+)?(?:def|class)\s+(\w+)"@, s),
        extract::pattern_findings(content, Language::Python).imports.contains(s)
            <==> exists|k: int|
            0 <= k < text::lines(content).len() && python_line_gives(
                #[trigger] text::lines(content)[k],
                s,
            ),
{
    lemma_matched(content, extract::PYTHON_SYMBOL@, s);
    let lines = text::lines(content);
    let f = extract::python_line_imports();
    lemma_gathered(lines, f, s);
    assert forall|k: int| 0 <= k < lines.len() implies (#[trigger] f(lines[k]).contains(s)
        <==> python_line_gives(lines[k], s)) by {
        let from = extract::captures(extract::PYTHON_FROM@, lines[k]);
        let plain = extract::captures(extract::PYTHON_IMPORT@, lines[k]);
        lemma_single(extract::python_imported(from, plain), s);
        lemma_group(plain, 1, s);
        if from is Some {
            if let Some(base) = extract::group(from, 1) {
                lemma_group(from, 1, base);
                assert(has_group(from, 1, base));
            }
        }
    }
    if exists|k: int| 0 <= k < lines.len() && python_line_gives(#[trigger] lines[k], s) {
        let k = choose|k: int| 0 <= k < lines.len() && python_line_gives(#[trigger] lines[k], s);
        assert(f(lines[k]).contains(s));
    }
}

/// A line of TypeScript gives a symbol: what it exports by a keyword, and else what it exports as
/// the default.
pub open spec fn typescript_line_gives(line: Seq<char>, s: Seq<char>) -> bool {
    let named = extract::captures(
        r"^\s*export\s+(?:class|function|const|let|var|interface|type)\s+(\w+)"@,
        line,
    );
    let default = extract::captures(
        r"^\s*export\s+default\s+(?:class|function)?\s*(\w+)"@,
        line,
    );
    has_group(named, 1, s) || (named is None && has_group(default, 1, s))
}

/// By its patterns, a source of TypeScript has the symbols that its lines with an export give, and
/// the imports that its lines with an import give.
pub proof fn typescript_patterns_give_findings(content: Seq<char>, s: Seq<char>)
    ensures
        extract::pattern_findings(content, Language::TypeScript).symbols.contains(s)
            <==> exists|k: int|
            0 <= k < text::lines(content).len() && typescript_line_gives(
                #[trigger] text::lines(content)[k],
                s,
            ),
        extract::pattern_findings(content, Language::TypeScript).imports.contains(s)
            <==> some_line_gives(
            content,
            r#"^\s*import\s+(?:[\w\s{},*]+\s+from\s+)?['"]([^'"]+)['"]"#@,
            s,
        ),
{
    lemma_matched(content, extract::TYPESCRIPT_IMPORT@, s);
    let lines = text::lines(content);
    let f = extract::typescript_line_symbols();
    lemma_gathered(lines, f, s);
    assert forall|k: int| 0 <= k < lines.len() implies (#[trigger] f(lines[k]).contains(s)
        <==> typescript_line_gives(lines[k], s)) by {
        let named = extract::captures(extract::TYPESCRIPT_SYMBOL@, lines[k]);
        let default = extract::captures(extract::TYPESCRIPT_DEFAULT@, lines[k]);
        lemma_single(extract::typescript_exported(named, default), s);
        lemma_group(named, 1, s);
        lemma_group(default, 1, s);
    }
    if exists|k: int| 0 <= k < lines.len() && typescript_line_gives(#[trigger] lines[k], s) {
        let k = choose|k: int|
            0 <= k < lines.len() && typescript_line_gives(#[trigger] lines[k], s);
        assert(f(lines[k]).contains(s));
    }
}

/// A line of JavaScript gives a symbol: what it exports, and else the class or function that it
/// begins.
pub open spec fn javascript_line_gives(line: Seq<char>, s: Seq<char>) -> bool {
    let found = extract::captures(
        r"(?:module\.exports|exports\.)\s*=\s*(\w+)|^\s*(?:class|function)\s+(\w+)"@,
        line,
    );
    has_group(found, 1, s) || (lacks_group(found, 1) && has_group(found, 2, s))
}

/// A line of JavaScript requires a module: one of its matches has it in its first group.
pub open spec fn javascript_line_requires(line: Seq<char>, s: Seq<char>) -> bool {
    exists|m: int|
        0 <= m < extract::all_captures(r#"require\(['"]([^'"]+)['"]\)"#@, line).len() && has_group(
            Some(#[trigger] extract::all_captures(r#"require\(['"]([^'"]+)['"]\)"#@, line)[m]),
            1,
            s,
        )
}

proof fn lemma_first_groups(found: Seq<Seq<Option<Seq<char>>>>, s: Seq<char>)
    ensures
        extract::first_groups(found).contains(s) <==> exists|m: int|
            0 <= m < found.len() && has_group(Some(#[trigger] found[m]), 1, s),
    decreases found.len(),
{
    let all = extract::first_groups(found);
    if found.len() > 0 {
        let rest = found.drop_last();
        let n = found.len() - 1;
        lemma_first_groups(rest, s);
        let front = extract::first_groups(rest);
        let own = walk::single(extract::group(Some(found.last()), 1));
        lemma_single(extract::group(Some(found.last()), 1), s);
        lemma_group(Some(found[n]), 1, s);
        assert(all == front + own);
        if all.contains(s) {
            let i = all.index_of(s);
            if i < front.len() {
                assert(front[i] == s);
                let m = choose|m: int|
                    0 <= m < rest.len() && has_group(Some(#[trigger] rest[m]), 1, s);
                assert(found[m] == rest[m]);
            } else {
                assert(own[i - front.len()] == s);
                assert(own.contains(s));
            }
        }
        if exists|m: int| 0 <= m < found.len() && has_group(Some(#[trigger] found[m]), 1, s) {
            let m = choose|m: int|
                0 <= m < found.len() && has_group(Some(#[trigger] found[m]), 1, s);
            if m < n {
                assert(rest[m] == found[m]);
                let i = front.index_of(s);
                assert(all[i] == s);
            } else {
                let i = own.index_of(s);
                assert(all[front.len() + i] == s);
            }
        }
    } else if all.contains(s) {
        let i = all.index_of(s);
    }
}

proof fn lemma_javascript_symbols(lines: Seq<Seq<char>>, s: Seq<char>)
    ensures
        extract::javascript_symbols(lines).contains(s) <==> exists|k: int|
            0 <= k < lines.len() && javascript_line_gives(#[trigger] lines[k], s),
        extract::javascript_symbols(lines).no_duplicates(),
    decreases lines.len(),
{
    let all = extract::javascript_symbols(lines);
    if lines.len() > 0 {
        let rest = lines.drop_last();
        let n = lines.len() - 1;
        lemma_javascript_symbols(rest, s);
        let front = extract::javascript_symbols(rest);
        let found = extract::captures(extract::JAVASCRIPT_SYMBOL@, lines[n]);
        lemma_group(found, 1, s);
        lemma_group(found, 2, s);
        assert(javascript_line_gives(lines[n], s) <==> extract::javascript_named(found) == Some(s));
        assert(all.contains(s) <==> front.contains(s) || extract::javascript_named(found) == Some(
            s,
        )) by {
            if let Some(name) = extract::javascript_named(found) {
                if !front.contains(name) {
                    assert(all == front.push(name));
                    if front.contains(s) {
                        let i = front.index_of(s);
                        assert(all[i] == s);
                    }
                    if all.contains(s) {
                        let i = all.index_of(s);
                        if i < front.len() {
                            assert(front[i] == s);
                        }
                    }
                    if name == s {
                        assert(all[front.len() as int] == s);
                    }
                }
            }
        }
        if exists|k: int| 0 <= k < rest.len() && javascript_line_gives(#[trigger] rest[k], s) {
            let k = choose|k: int|
                0 <= k < rest.len() && javascript_line_gives(#[trigger] rest[k], s);
            assert(lines[k] == rest[k]);
        }
        if exists|k: int| 0 <= k < lines.len() && javascript_line_gives(#[trigger] lines[k], s) {
            let k = choose|k: int|
                0 <= k < lines.len() && javascript_line_gives(#[trigger] lines[k], s);
            if k < n {
                assert(rest[k] == lines[k]);
            }
        }
    } else if all.contains(s) {
        let i = all.index_of(s);
    }
}

/// By its patterns, a source of JavaScript has each symbol that its lines with an export, a class
/// or a function give, once, and the imports that its lines require.
pub proof fn javascript_patterns_give_findings(content: Seq<char>, s: Seq<char>)
    ensures
        extract::pattern_findings(content, Language::JavaScript).symbols.contains(s)
            <==> exists|k: int|
            0 <= k < text::lines(content).len() && javascript_line_gives(
                #[trigger] text::lines(content)[k],
                s,
            ),
        extract::pattern_findings(content, Language::JavaScript).symbols.no_duplicates(),
        extract::pattern_findings(content, Language::JavaScript).imports.contains(s)
            <==> exists|k: int|
            0 <= k < text::lines(content).len() && javascript_line_requires(
                #[trigger] text::lines(content)[k],
                s,
            ),
{
    let lines = text::lines(content);
    lemma_javascript_symbols(lines, s);
    let f = extract::javascript_line_imports();
    lemma_gathered(lines, f, s);
    assert forall|k: int| 0 <= k < lines.len() implies (#[trigger] f(lines[k]).contains(s)
        <==> javascript_line_requires(lines[k], s)) by {
        lemma_first_groups(
            extract::all_captures(extract::JAVASCRIPT_REQUIRE@, lines[k]),
            s,
        );
    }
    if exists|k: int| 0 <= k < lines.len() && javascript_line_requires(#[trigger] lines[k], s) {
        let k = choose|k: int|
            0 <= k < lines.len() && javascript_line_requires(#[trigger] lines[k], s);
        assert(f(lines[k]).contains(s));
    }
}

/// No pattern finds anything in a source of another language.
pub proof fn other_sources_have_no_findings(content: Seq<char>)
    ensures
        extract::pattern_findings(content, Language::Other).symbols.len() == 0,
        extract::pattern_findings(content, Language::Other).imports.len() == 0,
        extract::file_findings(content, Language::Other).symbols.len() == 0,
        extract::file_findings(content, Language::Other).imports.len() == 0,
{
}

proof fn lemma_dots_off(dots: Seq<char>, rest: Seq<char>)
    requires
        forall|j: int| 0 <= j < dots.len() ==> #[trigger] dots[j] == '.',
        rest.len() > 0 ==> rest[0] != '.',
    ensures
        text::trim_start(dots + rest, Class::Only('.')) == rest,
    decreases dots.len(),
{
    let all = dots + rest;
    if dots.len() == 0 {
        assert(all =~= rest);
    } else {
        let more = dots.drop_first();
        assert forall|j: int| 0 <= j < more.len() implies #[trigger] more[j] == '.' by {
            assert(more[j] == dots[j + 1]);
        }
        lemma_dots_off(more, rest);
        assert(dots[0] == '.');
        assert(all[0] == '.');
        assert(all.drop_first() =~= more + rest);
    }
}

/// A module that a `from` line of Python names is imported as it is, unless it begins with dots;
/// then the dots become `./`, and the other dots slashes.
pub proof fn from_lines_name_modules(
    base: Seq<char>,
    dots: Seq<char>,
    rest: Seq<char>,
    names: Option<Seq<char>>,
)
    requires
        forall|j: int| 0 <= j < dots.len() ==> #[trigger] dots[j] == '.',
        rest.len() > 0,
        rest[0] != '.',
        base == dots + rest,
    ensures
        dots.len() == 0 ==> extract::python_from_specifier(base, names) == base,
        dots.len() > 0 ==> extract::python_from_specifier(base, names) == "./"@ + Seq::new(
            rest.len(),
            |i: int|
                if rest[i] == '.' {
                    '/'
                } else {
                    rest[i]
                },
        ),
{
    reveal_strlit(".");
    lemma_dots_off(dots, rest);
    if dots.len() == 0 {
        assert(base =~= rest);
        assert(base.subrange(0, 1)[0] == base[0]);
    } else {
        assert(dots[0] == '.');
        assert(base.subrange(0, 1) =~= "."@);
        assert(text::replace(rest, '.', '/') =~= Seq::new(
            rest.len(),
            |i: int|
                if rest[i] == '.' {
                    '/'
                } else {
                    rest[i]
                },
        ));
    }
}

/// A `from` line of Python that names nothing but dots imports the first name that it lists, up to
/// its first dot.
pub proof fn from_lines_name_siblings(
    dots: Seq<char>,
    first: Seq<char>,
    others: Seq<char>,
    a: Seq<char>,
    b: Seq<char>,
)
    requires
        forall|j: int| 0 <= j < dots.len() ==> #[trigger] dots[j] == '.',
        dots.len() > 0,
        forall|j: int| 0 <= j < first.len() ==> #[trigger] first[j] != ',',
        forall|j: int| 0 <= j < a.len() ==> #[trigger] a[j] != '.',
        text::trim(first) == a || text::trim(first) == a + "."@ + b,
    ensures
        extract::python_from_specifier(dots, Some(first)) == "./"@ + a,
        extract::python_from_specifier(dots, Some(first + ","@ + others)) == "./"@ + a,
{
    reveal_strlit(".");
    reveal_strlit(",");
    lemma_dots_off(dots, seq![]);
    assert(dots + seq![] =~= dots);
    assert(dots[0] == '.');
    assert(dots.subrange(0, 1) =~= "."@);
    let comma = Class::Only(',');
    text::lemma_split_whole(first, comma);
    assert(first + ","@ + others =~= first.push(',') + others);
    text::lemma_split_concat(first, ',', others, comma);
    assert((seq![first] + text::split(others, comma))[0] == first);
    let dot = Class::Only('.');
    text::lemma_split_whole(a, dot);
    let n = text::trim(first);
    if n != a {
        assert(n =~= a.push('.') + b);
        text::lemma_split_concat(a, '.', b, dot);
        assert((seq![a] + text::split(b, dot))[0] == a);
    }
}

proof fn lemma_gathered_front(
    line: Seq<char>,
    rest: Seq<Seq<char>>,
    f: spec_fn(Seq<char>) -> Seq<Seq<char>>,
)
    ensures
        extract::gathered(seq![line] + rest, f) == extract::gathered(seq![line], f)
            + extract::gathered(rest, f),
    decreases rest.len(),
{
    let all = seq![line] + rest;
    if rest.len() == 0 {
        assert(all =~= seq![line]);
        assert(extract::gathered(seq![line], f) + extract::gathered(rest, f) =~= extract::gathered(
            seq![line],
            f,
        ));
    } else {
        let front = rest.drop_last();
        lemma_gathered_front(line, front, f);
        assert(all.drop_last() =~= seq![line] + front);
        assert(all.last() == rest.last());
        let x = extract::gathered(seq![line], f);
        let y = extract::gathered(front, f);
        let z = f(rest.last());
        assert(x + y + z =~= x + (y + z));
    }
}

/// What the patterns find in a source is what they find in its first line and then what they find
/// in the rest; only the symbols of JavaScript are not counted again.
pub proof fn lines_are_searched_in_turn(line: Seq<char>, rest: Seq<char>, lang: Language)
    requires
        line.len() > 0,
        line.last() != '\r',
        forall|j: int| 0 <= j < line.len() ==> #[trigger] line[j] != '\n',
    ensures
        lang != Language::JavaScript ==> extract::pattern_findings(
            line.push('\n') + rest,
            lang,
        ).symbols == extract::pattern_findings(line, lang).symbols + extract::pattern_findings(
            rest,
            lang,
        ).symbols,
        extract::pattern_findings(line.push('\n') + rest, lang).imports
            == extract::pattern_findings(line, lang).imports + extract::pattern_findings(
            rest,
            lang,
        ).imports,
{
    texts::lines_end_at_line_feeds(line, rest);
    let more = text::lines(rest);
    lemma_gathered_front(line, more, extract::matched(extract::PYTHON_SYMBOL@));
    lemma_gathered_front(line, more, extract::python_line_imports());
    lemma_gathered_front(line, more, extract::typescript_line_symbols());
    lemma_gathered_front(line, more, extract::matched(extract::TYPESCRIPT_IMPORT@));
    lemma_gathered_front(line, more, extract::matched(extract::RUST_SYMBOL@));
    lemma_gathered_front(line, more, extract::matched(extract::RUST_USE@));
    lemma_gathered_front(line, more, extract::javascript_line_imports());
}

} // verus!
