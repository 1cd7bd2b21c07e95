//! Symbols, imports and purpose of source files.
//!
//! The syntax tree of a file comes first. Where there is none, or nothing is found in it, the
//! lines of the file are matched against patterns. The purpose of a file is told by its first
//! line that is not empty.
use vstd::prelude::*;

use crate::model::Language;
use crate::text;
use crate::text::Class;
use crate::walk;
use crate::walk::Findings;

verus! {

// ---------------------------------------------------------------------------
// Purpose
// ---------------------------------------------------------------------------

/// The purpose that a line tells, itself without white space around it.
pub open spec fn told_purpose(line: Seq<char>, lang: Language) -> Option<Seq<char>> {
    match lang {
        Language::Python => if text::starts(line, "\"\"\""@) || text::starts(line, "'''"@) {
            Some(text::trim_class(text::trim_class(line, Class::Only('"')), Class::Only('\'')))
        } else if text::starts(line, "#"@) && !text::starts(line, "#!"@) {
            Some(text::trim(text::trim_start(line, Class::Only('#'))))
        } else {
            None
        },
        Language::TypeScript | Language::JavaScript => if text::starts(line, "/**"@) {
            Some(
                text::trim(text::trim_end_text(text::trim_start_text(line, "/**"@), "*/"@)),
            )
        } else if text::starts(line, "//"@) {
            Some(text::trim(text::trim_start_text(line, "//"@)))
        } else {
            None
        },
        Language::Rust => if text::starts(line, "///"@) || text::starts(line, "//!"@)
            || text::starts(line, "/*!"@) {
            let a = text::trim_start_text(line, "///"@);
            let b = text::trim_start_text(a, "//!"@);
            let c = text::trim_start_text(b, "/*!"@);
            Some(text::trim(text::trim_end_text(c, "*/"@)))
        } else {
            None
        },
        Language::Other => None,
    }
}

/// The purpose that the first line that is not empty tells.
pub open spec fn purpose_in(lines: Seq<Seq<char>>, lang: Language) -> Option<Seq<char>>
    decreases lines.len(),
{
    if lines.len() == 0 {
        None
    } else {
        let line = text::trim(lines[0]);
        match told_purpose(line, lang) {
            Some(p) => Some(p),
            None => if line.len() > 0 {
                None
            } else {
                purpose_in(lines.drop_first(), lang)
            },
        }
    }
}

/// The purpose of a file.
pub open spec fn purpose(content: Seq<char>, lang: Language) -> Option<Seq<char>> {
    purpose_in(text::lines(content), lang)
}

fn purpose_of_line(line: &[char], lang: Language) -> (r: Option<String>)
    ensures
        text::opt_text(r) == told_purpose(line@, lang),
{
    match lang {
        Language::Python => {
            if text::starts_with(line, "\"\"\"") || text::starts_with(line, "'''") {
                let bare = text::trim_both(line, Class::Only('"'));
                return Some(text::string_of(text::trim_both(bare, Class::Only('\''))));
            }
            if text::starts_with(line, "#") && !text::starts_with(line, "#!") {
                let bare = text::trim_start_class(line, Class::Only('#'));
                return Some(text::string_of(text::trim_white(bare)));
            }
            None
        },
        Language::TypeScript | Language::JavaScript => {
            if text::starts_with(line, "/**") {
                let bare = text::trim_end_str(text::trim_start_str(line, "/**"), "*/");
                return Some(text::string_of(text::trim_white(bare)));
            }
            if text::starts_with(line, "//") {
                let bare = text::trim_start_str(line, "//");
                return Some(text::string_of(text::trim_white(bare)));
            }
            None
        },
        Language::Rust => {
            if text::starts_with(line, "///") || text::starts_with(line, "//!")
                || text::starts_with(line, "/*!") {
                let a = text::trim_start_str(line, "///");
                let b = text::trim_start_str(a, "//!");
                let c = text::trim_start_str(b, "/*!");
                let bare = text::trim_end_str(c, "*/");
                return Some(text::string_of(text::trim_white(bare)));
            }
            None
        },
        Language::Other => None,
    }
}

/// The purpose of a file: the comment or docstring in its first line that is not empty.
pub fn purpose_of(content: &str, lang: Language) -> (r: Option<String>)
    ensures
        text::opt_text(r) == purpose(content@, lang),
{
    let chars = text::chars_of(content);
    let lines = text::lines_of(chars.as_slice());
    let ghost all = text::lines(content@);
    assert(all.skip(0) =~= all);
    for i in 0..lines.len()
        invariant
            all == text::pieces(lines@),
            all == text::lines(content@),
            purpose_in(all, lang) == purpose_in(all.skip(i as int), lang),
    {
        assert(all.skip(i as int)[0] == lines@[i as int]@);
        assert(all.skip(i as int).drop_first() =~= all.skip(i + 1));
        let line = text::trim_white(lines[i]);
        match purpose_of_line(line, lang) {
            Some(p) => {
                return Some(p);
            },
            None => {},
        }
        if line.len() > 0 {
            return None;
        }
    }
    None
}

// ---------------------------------------------------------------------------
// Patterns
// ---------------------------------------------------------------------------

pub const PYTHON_SYMBOL: &'static str = r"^\s*(?:async\s+)?(?:def|class)\s+(\w+)";

pub const PYTHON_FROM: &'static str = r"^\s*from\s+([\w.]+)\s+import\s+([\w\s,]+)";

pub const PYTHON_IMPORT: &'static str = r"^\s*import\s+([\w.]+)";

pub const TYPESCRIPT_SYMBOL: &'static str =
    r"^\s*export\s+(?:class|function|const|let|var|interface|type)\s+(\w+)";

pub const TYPESCRIPT_DEFAULT: &'static str = r"^\s*export\s+default\s+(?:class|function)?\s*(\w+)";

pub const TYPESCRIPT_IMPORT: &'static str =
    r#"^\s*import\s+(?:[\w\s{},*]+\s+from\s+)?['"]([^'"]+)['"]"#;

pub const RUST_SYMBOL: &'static str =
    r"^\s*pub\s+(?:fn|struct|enum|trait|mod|const|static|type)\s+(\w+)";

pub const RUST_USE: &'static str = r"^\s*use\s+([\w:]+(?:\s*\{[^}]*\})?)";

pub const JAVASCRIPT_SYMBOL: &'static str =
    r"(?:module\.exports|exports\.)\s*=\s*(\w+)|^\s*(?:class|function)\s+(\w+)";

pub const JAVASCRIPT_REQUIRE: &'static str = r#"require\(['"]([^'"]+)['"]\)"#;

/// Whether a text is one of the patterns above.
pub open spec fn is_pattern(p: Seq<char>) -> bool {
    ||| p == PYTHON_SYMBOL@
    ||| p == PYTHON_FROM@
    ||| p == PYTHON_IMPORT@
    ||| p == TYPESCRIPT_SYMBOL@
    ||| p == TYPESCRIPT_DEFAULT@
    ||| p == TYPESCRIPT_IMPORT@
    ||| p == RUST_SYMBOL@
    ||| p == RUST_USE@
    ||| p == JAVASCRIPT_SYMBOL@
    ||| p == JAVASCRIPT_REQUIRE@
}

/// A compiled pattern.
#[verifier::external_type_specification]
#[verifier::external_body]
pub struct ExRegex(regex::Regex);

/// The text that a pattern was compiled from: what `Regex::as_str` returns.
pub uninterp spec fn pattern_text(re: regex::Regex) -> Seq<char>;

/// The groups of the first match of a pattern in a text, the whole match as the first of them:
/// what `Regex::captures` returns.
pub uninterp spec fn captures(pattern: Seq<char>, line: Seq<char>) -> Option<
    Seq<Option<Seq<char>>>,
>;

/// The groups of each match of a pattern in a text, from left to right: what
/// `Regex::captures_iter` returns.
pub uninterp spec fn all_captures(pattern: Seq<char>, line: Seq<char>) -> Seq<
    Seq<Option<Seq<char>>>,
>;

/// The groups of a match as plain values.
pub open spec fn groups(v: Seq<Option<String>>) -> Seq<Option<Seq<char>>> {
    v.map_values(|o: Option<String>| text::opt_text(o))
}

/// A match that may be there as plain values.
pub open spec fn groups_if(o: Option<Vec<Option<String>>>) -> Option<Seq<Option<Seq<char>>>> {
    match o {
        Some(v) => Some(groups(v@)),
        None => None,
    }
}

/// Matches as plain values.
pub open spec fn groups_each(v: Seq<Vec<Option<String>>>) -> Seq<Seq<Option<Seq<char>>>> {
    v.map_values(|g: Vec<Option<String>>| groups(g@))
}

/// Calls `regex::Regex::new`, which compiles each of the patterns above. A compiled pattern keeps
/// the text that it was compiled from.
#[verifier::external_body]
fn compile(pattern: &str) -> (r: regex::Regex)
    requires
        is_pattern(pattern@),
    ensures
        pattern_text(r) == pattern@,
{
    regex::Regex::new(pattern).unwrap()
}

/// Calls `regex::Regex::captures` and takes the groups of the match over as strings. The match
/// depends on the pattern and the text alone.
#[verifier::external_body]
fn first_match(re: &regex::Regex, line: &str) -> (r: Option<Vec<Option<String>>>)
    ensures
        groups_if(r) == captures(pattern_text(*re), line@),
{
    re.captures(line).map(|c| c.iter().map(|m| m.map(|m| m.as_str().to_string())).collect())
}

/// Calls `regex::Regex::captures_iter` and takes the groups of the matches over as strings. The
/// matches depend on the pattern and the text alone.
#[verifier::external_body]
fn every_match(re: &regex::Regex, line: &str) -> (r: Vec<Vec<Option<String>>>)
    ensures
        groups_each(r@) == all_captures(pattern_text(*re), line@),
{
    re.captures_iter(line)
        .map(|c| c.iter().map(|m| m.map(|m| m.as_str().to_string())).collect())
        .collect()
}

// ---------------------------------------------------------------------------
// What the patterns find in a line
// ---------------------------------------------------------------------------

/// A group of a match, where both are there.
pub open spec fn group(found: Option<Seq<Option<Seq<char>>>>, i: int) -> Option<Seq<char>> {
    match found {
        Some(g) => if 0 <= i < g.len() {
            g[i]
        } else {
            None
        },
        None => None,
    }
}

/// A group of a match, where both are there.
pub fn group_text(found: &Option<Vec<Option<String>>>, i: usize) -> (r: Option<String>)
    ensures
        text::opt_text(r) == group(groups_if(*found), i as int),
{
    match found {
        Some(g) => if i < g.len() {
            assert(groups(g@)[i as int] == text::opt_text(g@[i as int]));
            text::clone_option(&g[i])
        } else {
            None
        },
        None => None,
    }
}

/// The specifier of `from base import names`.
pub open spec fn python_from_specifier(base: Seq<char>, names: Option<Seq<char>>) -> Seq<char> {
    if text::starts(base, "."@) {
        let relative = text::trim_start(base, Class::Only('.'));
        if relative.len() == 0 {
            let names = match names {
                Some(n) => n,
                None => seq![],
            };
            let first = text::trim(text::split(names, Class::Only(','))[0]);
            "./"@ + text::split(first, Class::Only('.'))[0]
        } else {
            "./"@ + text::replace(relative, '.', '/')
        }
    } else {
        base
    }
}

/// What a line of Python imports, by the matches of the two patterns for imports.
pub open spec fn python_imported(
    from: Option<Seq<Option<Seq<char>>>>,
    plain: Option<Seq<Option<Seq<char>>>>,
) -> Option<Seq<char>> {
    if from is Some {
        match group(from, 1) {
            Some(base) => Some(python_from_specifier(base, group(from, 2))),
            None => None,
        }
    } else {
        group(plain, 1)
    }
}

fn from_specifier(base: &str, names: Option<String>) -> (r: String)
    ensures
        r@ == python_from_specifier(base@, text::opt_text(names)),
{
    let chars = text::chars_of(base);
    if !text::starts_with(chars.as_slice(), ".") {
        return base.to_owned();
    }
    let relative = text::trim_start_class(chars.as_slice(), Class::Only('.'));
    if relative.len() == 0 {
        let names = match names {
            Some(n) => n,
            None => String::new(),
        };
        let chars = text::chars_of(names.as_str());
        let parts = text::split_class(chars.as_slice(), Class::Only(','));
        assert(text::split(names@, Class::Only(','))[0] == parts@[0]@);
        let first = text::trim_white(parts[0]);
        let pieces = text::split_class(first, Class::Only('.'));
        assert(text::split(first@, Class::Only('.'))[0] == pieces@[0]@);
        text::concat("./", text::string_of(pieces[0]).as_str())
    } else {
        let path = text::replace_char(relative, '.', '/');
        text::concat("./", text::string_of(path.as_slice()).as_str())
    }
}

/// What a line of Python imports, by the matches of the two patterns for imports.
pub fn python_import(from: &Option<Vec<Option<String>>>, plain: &Option<Vec<Option<String>>>) -> (r:
    Option<String>)
    ensures
        text::opt_text(r) == python_imported(groups_if(*from), groups_if(*plain)),
{
    if from.is_some() {
        match group_text(from, 1) {
            Some(base) => Some(from_specifier(base.as_str(), group_text(from, 2))),
            None => None,
        }
    } else {
        group_text(plain, 1)
    }
}

/// What a line of TypeScript exports, by the matches of the two patterns for exports.
pub open spec fn typescript_exported(
    named: Option<Seq<Option<Seq<char>>>>,
    default: Option<Seq<Option<Seq<char>>>>,
) -> Option<Seq<char>> {
    if named is Some {
        group(named, 1)
    } else {
        group(default, 1)
    }
}

/// What a line of TypeScript exports, by the matches of the two patterns for exports.
pub fn typescript_export(
    named: &Option<Vec<Option<String>>>,
    default: &Option<Vec<Option<String>>>,
) -> (r: Option<String>)
    ensures
        text::opt_text(r) == typescript_exported(groups_if(*named), groups_if(*default)),
{
    if named.is_some() {
        group_text(named, 1)
    } else {
        group_text(default, 1)
    }
}

/// The symbol of a line of JavaScript, by the match of the pattern for symbols: what is exported,
/// or else the name of a class or function.
pub open spec fn javascript_named(found: Option<Seq<Option<Seq<char>>>>) -> Option<Seq<char>> {
    match group(found, 1) {
        Some(name) => Some(name),
        None => group(found, 2),
    }
}

/// The symbol of a line of JavaScript, by the match of the pattern for symbols.
pub fn javascript_symbol(found: &Option<Vec<Option<String>>>) -> (r: Option<String>)
    ensures
        text::opt_text(r) == javascript_named(groups_if(*found)),
{
    match group_text(found, 1) {
        Some(name) => Some(name),
        None => group_text(found, 2),
    }
}

/// The first groups of some matches.
pub open spec fn first_groups(found: Seq<Seq<Option<Seq<char>>>>) -> Seq<Seq<char>>
    decreases found.len(),
{
    if found.len() == 0 {
        seq![]
    } else {
        first_groups(found.drop_last()) + walk::single(group(Some(found.last()), 1))
    }
}

/// The first groups of some matches.
pub fn first_group_texts(found: Vec<Vec<Option<String>>>) -> (r: Vec<String>)
    ensures
        text::texts(r@) == first_groups(groups_each(found@)),
{
    let ghost all = groups_each(found@);
    let mut out: Vec<String> = Vec::new();
    assert(all.take(0) =~= seq![]);
    assert(text::texts(out@) =~= seq![]);
    for i in 0..found.len()
        invariant
            all == groups_each(found@),
            text::texts(out@) == first_groups(all.take(i as int)),
    {
        assert(all.take(i + 1).drop_last() =~= all.take(i as int));
        assert(all.take(i + 1).last() == groups(found@[i as int]@));
        if found[i].len() > 1 {
            assert(groups(found@[i as int]@)[1] == text::opt_text(found@[i as int]@[1]));
            walk::push_if(&mut out, text::clone_option(&found[i][1]));
        } else {
            assert(text::texts(out@) + seq![] =~= text::texts(out@));
        }
    }
    assert(all.take(found@.len() as int) =~= all);
    out
}

// ---------------------------------------------------------------------------
// What the patterns find in a file
// ---------------------------------------------------------------------------

/// What is found in each line, one line after the other.
pub open spec fn gathered(
    lines: Seq<Seq<char>>,
    found: spec_fn(Seq<char>) -> Seq<Seq<char>>,
) -> Seq<Seq<char>>
    decreases lines.len(),
{
    if lines.len() == 0 {
        seq![]
    } else {
        gathered(lines.drop_last(), found) + found(lines.last())
    }
}

/// The first group of the match of a pattern in a line.
pub open spec fn matched(pattern: Seq<char>) -> spec_fn(Seq<char>) -> Seq<Seq<char>> {
    |line: Seq<char>| walk::single(group(captures(pattern, line), 1))
}

fn line_strings(content: &str) -> (r: Vec<String>)
    ensures
        text::texts(r@) == text::lines(content@),
{
    let chars = text::chars_of(content);
    text::strings_of(&text::lines_of(chars.as_slice()))
}

/// The first groups of the matches of a pattern in the lines.
fn match_lines(pattern: &str, lines: &Vec<String>) -> (r: Vec<String>)
    requires
        is_pattern(pattern@),
    ensures
        text::texts(r@) == gathered(text::texts(lines@), matched(pattern@)),
{
    let re = compile(pattern);
    let ghost all = text::texts(lines@);
    let mut out: Vec<String> = Vec::new();
    assert(all.take(0) =~= seq![]);
    assert(text::texts(out@) =~= seq![]);
    for i in 0..lines.len()
        invariant
            all == text::texts(lines@),
            pattern_text(re) == pattern@,
            text::texts(out@) == gathered(all.take(i as int), matched(pattern@)),
    {
        assert(all.take(i + 1).drop_last() =~= all.take(i as int));
        assert(all.take(i + 1).last() == lines@[i as int]@);
        let found = first_match(&re, lines[i].as_str());
        walk::push_if(&mut out, group_text(&found, 1));
    }
    assert(all.take(lines@.len() as int) =~= all);
    out
}

/// What a line of Python imports.
pub open spec fn python_line_imports() -> spec_fn(Seq<char>) -> Seq<Seq<char>> {
    |line: Seq<char>|
        walk::single(python_imported(captures(PYTHON_FROM@, line), captures(PYTHON_IMPORT@, line)))
}

/// What the patterns find in a file of Python.
pub open spec fn python_findings(content: Seq<char>) -> Findings {
    let lines = text::lines(content);
    Findings {
        symbols: gathered(lines, matched(PYTHON_SYMBOL@)),
        imports: gathered(lines, python_line_imports()),
    }
}

/// What is handed out of a file as plain values.
pub open spec fn outcome(r: (Vec<String>, Vec<String>, Option<String>)) -> (
    Findings,
    Option<Seq<char>>,
) {
    (walk::findings((r.0, r.1)), text::opt_text(r.2))
}

/// Matches the lines of a file of Python against the patterns.
pub fn extract_python(content: &str) -> (r: (Vec<String>, Vec<String>, Option<String>))
    ensures
        outcome(r) == (python_findings(content@), purpose(content@, Language::Python)),
{
    let lines = line_strings(content);
    let symbols = match_lines(PYTHON_SYMBOL, &lines);
    let from = compile(PYTHON_FROM);
    let plain = compile(PYTHON_IMPORT);
    let ghost all = text::texts(lines@);
    let mut imports: Vec<String> = Vec::new();
    assert(all.take(0) =~= seq![]);
    assert(text::texts(imports@) =~= seq![]);
    for i in 0..lines.len()
        invariant
            all == text::texts(lines@),
            pattern_text(from) == PYTHON_FROM@,
            pattern_text(plain) == PYTHON_IMPORT@,
            text::texts(imports@) == gathered(all.take(i as int), python_line_imports()),
    {
        assert(all.take(i + 1).drop_last() =~= all.take(i as int));
        assert(all.take(i + 1).last() == lines@[i as int]@);
        let from_found = first_match(&from, lines[i].as_str());
        let plain_found = first_match(&plain, lines[i].as_str());
        walk::push_if(&mut imports, python_import(&from_found, &plain_found));
    }
    assert(all.take(lines@.len() as int) =~= all);
    (symbols, imports, purpose_of(content, Language::Python))
}

/// What a line of TypeScript exports.
pub open spec fn typescript_line_symbols() -> spec_fn(Seq<char>) -> Seq<Seq<char>> {
    |line: Seq<char>|
        walk::single(
            typescript_exported(
                captures(TYPESCRIPT_SYMBOL@, line),
                captures(TYPESCRIPT_DEFAULT@, line),
            ),
        )
}

/// What the patterns find in a file of TypeScript.
pub open spec fn typescript_findings(content: Seq<char>) -> Findings {
    let lines = text::lines(content);
    Findings {
        symbols: gathered(lines, typescript_line_symbols()),
        imports: gathered(lines, matched(TYPESCRIPT_IMPORT@)),
    }
}

/// Matches the lines of a file of TypeScript against the patterns.
pub fn extract_typescript(content: &str) -> (r: (Vec<String>, Vec<String>, Option<String>))
    ensures
        outcome(r) == (typescript_findings(content@), purpose(content@, Language::TypeScript)),
{
    let lines = line_strings(content);
    let imports = match_lines(TYPESCRIPT_IMPORT, &lines);
    let named = compile(TYPESCRIPT_SYMBOL);
    let default = compile(TYPESCRIPT_DEFAULT);
    let ghost all = text::texts(lines@);
    let mut symbols: Vec<String> = Vec::new();
    assert(all.take(0) =~= seq![]);
    assert(text::texts(symbols@) =~= seq![]);
    for i in 0..lines.len()
        invariant
            all == text::texts(lines@),
            pattern_text(named) == TYPESCRIPT_SYMBOL@,
            pattern_text(default) == TYPESCRIPT_DEFAULT@,
            text::texts(symbols@) == gathered(all.take(i as int), typescript_line_symbols()),
    {
        assert(all.take(i + 1).drop_last() =~= all.take(i as int));
        assert(all.take(i + 1).last() == lines@[i as int]@);
        let named_found = first_match(&named, lines[i].as_str());
        let default_found = first_match(&default, lines[i].as_str());
        walk::push_if(&mut symbols, typescript_export(&named_found, &default_found));
    }
    assert(all.take(lines@.len() as int) =~= all);
    (symbols, imports, purpose_of(content, Language::TypeScript))
}

/// What the patterns find in a file of Rust.
pub open spec fn rust_findings(content: Seq<char>) -> Findings {
    let lines = text::lines(content);
    Findings {
        symbols: gathered(lines, matched(RUST_SYMBOL@)),
        imports: gathered(lines, matched(RUST_USE@)),
    }
}

/// Matches the lines of a file of Rust against the patterns.
pub fn extract_rust(content: &str) -> (r: (Vec<String>, Vec<String>, Option<String>))
    ensures
        outcome(r) == (rust_findings(content@), purpose(content@, Language::Rust)),
{
    let lines = line_strings(content);
    let symbols = match_lines(RUST_SYMBOL, &lines);
    let imports = match_lines(RUST_USE, &lines);
    (symbols, imports, purpose_of(content, Language::Rust))
}

/// The symbols of the lines of JavaScript, each at its first place only.
pub open spec fn javascript_symbols(lines: Seq<Seq<char>>) -> Seq<Seq<char>>
    decreases lines.len(),
{
    if lines.len() == 0 {
        seq![]
    } else {
        let front = javascript_symbols(lines.drop_last());
        match javascript_named(captures(JAVASCRIPT_SYMBOL@, lines.last())) {
            Some(name) => with_new(front, name),
            None => front,
        }
    }
}

/// A list with a text behind it, unless it is there already.
pub open spec fn with_new(list: Seq<Seq<char>>, s: Seq<char>) -> Seq<Seq<char>> {
    if list.contains(s) {
        list
    } else {
        list.push(s)
    }
}

/// No symbol of JavaScript is found twice.
pub proof fn javascript_symbols_are_distinct(lines: Seq<Seq<char>>)
    ensures
        javascript_symbols(lines).no_duplicates(),
    decreases lines.len(),
{
    if lines.len() > 0 {
        javascript_symbols_are_distinct(lines.drop_last());
    }
}

/// What a line of JavaScript requires.
pub open spec fn javascript_line_imports() -> spec_fn(Seq<char>) -> Seq<Seq<char>> {
    |line: Seq<char>| first_groups(all_captures(JAVASCRIPT_REQUIRE@, line))
}

/// What the patterns find in a file of JavaScript.
pub open spec fn javascript_findings(content: Seq<char>) -> Findings {
    let lines = text::lines(content);
    Findings {
        symbols: javascript_symbols(lines),
        imports: gathered(lines, javascript_line_imports()),
    }
}

/// Puts a text behind a list unless it is there already.
pub fn push_new(list: &mut Vec<String>, s: String)
    ensures
        text::texts(final(list)@) == with_new(text::texts(old(list)@), s@),
{
    broadcast use text::group_text;

    let ghost all = text::texts(list@);
    for i in 0..list.len()
        invariant
            all == text::texts(list@),
            list@ == old(list)@,
            forall|j: int| 0 <= j < i ==> all[j] != s@,
    {
        assert(all[i as int] == list@[i as int]@);
        if text::str_same(list[i].as_str(), s.as_str()) {
            return;
        }
    }
    assert(!all.contains(s@));
    list.push(s);
}

/// Matches the lines of a file of JavaScript against the patterns.
pub fn extract_javascript(content: &str) -> (r: (Vec<String>, Vec<String>, Option<String>))
    ensures
        outcome(r) == (javascript_findings(content@), purpose(content@, Language::JavaScript)),
{
    let lines = line_strings(content);
    let symbol = compile(JAVASCRIPT_SYMBOL);
    let require = compile(JAVASCRIPT_REQUIRE);
    let ghost all = text::texts(lines@);
    let mut symbols: Vec<String> = Vec::new();
    let mut imports: Vec<String> = Vec::new();
    assert(all.take(0) =~= seq![]);
    assert(text::texts(symbols@) =~= seq![]);
    assert(text::texts(imports@) =~= seq![]);
    for i in 0..lines.len()
        invariant
            all == text::texts(lines@),
            pattern_text(symbol) == JAVASCRIPT_SYMBOL@,
            pattern_text(require) == JAVASCRIPT_REQUIRE@,
            text::texts(symbols@) == javascript_symbols(all.take(i as int)),
            text::texts(imports@) == gathered(all.take(i as int), javascript_line_imports()),
    {
        assert(all.take(i + 1).drop_last() =~= all.take(i as int));
        assert(all.take(i + 1).last() == lines@[i as int]@);
        let found = first_match(&symbol, lines[i].as_str());
        if let Some(name) = javascript_symbol(&found) {
            push_new(&mut symbols, name);
        }
        let required = every_match(&require, lines[i].as_str());
        walk::push_all(&mut imports, first_group_texts(required));
    }
    assert(all.take(lines@.len() as int) =~= all);
    (symbols, imports, purpose_of(content, Language::JavaScript))
}

// ---------------------------------------------------------------------------
// The two ways together
// ---------------------------------------------------------------------------

/// What the patterns find in a file.
pub open spec fn pattern_findings(content: Seq<char>, lang: Language) -> Findings {
    match lang {
        Language::Python => python_findings(content),
        Language::TypeScript => typescript_findings(content),
        Language::Rust => rust_findings(content),
        Language::JavaScript => javascript_findings(content),
        Language::Other => Findings::none(),
    }
}

/// The findings of a tree where there are any.
pub open spec fn worthwhile(found: Option<Findings>) -> Option<Findings> {
    match found {
        Some(f) => if f.symbols.len() > 0 || f.imports.len() > 0 {
            Some(f)
        } else {
            None
        },
        None => None,
    }
}

/// Findings that may be there as plain values.
pub open spec fn findings_if(found: Option<(Vec<String>, Vec<String>)>) -> Option<Findings> {
    match found {
        Some(f) => Some(walk::findings(f)),
        None => None,
    }
}

/// Keeps the findings of a tree where there are any.
pub fn keep_worthwhile(found: Option<(Vec<String>, Vec<String>)>) -> (r: Option<
    (Vec<String>, Vec<String>),
>)
    ensures
        findings_if(r) == worthwhile(findings_if(found)),
{
    match found {
        Some((symbols, imports)) => if symbols.len() > 0 || imports.len() > 0 {
            Some((symbols, imports))
        } else {
            None
        },
        None => None,
    }
}

/// What is found in a file: what its tree says, or else what the patterns find.
pub open spec fn file_findings(content: Seq<char>, lang: Language) -> Findings {
    match worthwhile(walk::extracted(content, lang)) {
        Some(found) => found,
        None => pattern_findings(content, lang),
    }
}

/// Finds the symbols, imports and purpose of a file. Nothing is found in a file of a language
/// that is not recognised.
pub fn extract_symbols_imports_purpose(content: &str, lang: Language) -> (r: (
    Vec<String>,
    Vec<String>,
    Option<String>,
))
    ensures
        outcome(r) == (file_findings(content@, lang), purpose(content@, lang)),
        lang == Language::Other ==> outcome(r) == (Findings::none(), None::<Seq<char>>),
{
    match lang {
        Language::Other => {
            proof {
                lemma_other_tells_nothing(text::lines(content@));
            }
            let symbols: Vec<String> = Vec::new();
            let imports: Vec<String> = Vec::new();
            assert(text::texts(symbols@) =~= seq![]);
            assert(text::texts(imports@) =~= seq![]);
            return (symbols, imports, None);
        },
        _ => {},
    }
    if let Some((symbols, imports)) = keep_worthwhile(walk::tree_sitter_extract(content, lang)) {
        return (symbols, imports, purpose_of(content, lang));
    }
    match lang {
        Language::Python => extract_python(content),
        Language::TypeScript => extract_typescript(content),
        Language::Rust => extract_rust(content),
        _ => extract_javascript(content),
    }
}

/// A file of a language that is not recognised has no purpose.
proof fn lemma_other_tells_nothing(lines: Seq<Seq<char>>)
    ensures
        purpose_in(lines, Language::Other) is None,
    decreases lines.len(),
{
    if lines.len() > 0 {
        lemma_other_tells_nothing(lines.drop_first());
    }
}

} // verus!
