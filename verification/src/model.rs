//! What a project map is made of.
use vstd::prelude::*;

use crate::collections::SortedMap;
use crate::text;

verus! {

/// The languages that are recognised.
#[derive(Debug, Clone, Copy, PartialEq, Eq, Hash, Structural)]
pub enum Language {
    Python,
    TypeScript,
    Rust,
    JavaScript,
    Other,
}

/// The language of a file extension in lower case.
pub open spec fn language_of(ext: Seq<char>) -> Language {
    if ext == "py"@ {
        Language::Python
    } else if ext == "ts"@ || ext == "tsx"@ {
        Language::TypeScript
    } else if ext == "rs"@ {
        Language::Rust
    } else if ext == "js"@ || ext == "jsx"@ || ext == "mjs"@ || ext == "cjs"@ {
        Language::JavaScript
    } else {
        Language::Other
    }
}

/// The name of a language.
pub open spec fn language_name(lang: Language) -> Seq<char> {
    match lang {
        Language::Python => "Python"@,
        Language::TypeScript => "TypeScript"@,
        Language::Rust => "Rust"@,
        Language::JavaScript => "JavaScript"@,
        Language::Other => "Other"@,
    }
}

impl Language {
    /// The language of a file extension in lower case.
    pub fn from_lower_extension(ext: &str) -> (r: Self)
        ensures
            r == language_of(ext@),
    {
        let e = text::chars_of(ext);
        let e = e.as_slice();
        if text::is(e, "py") {
            Language::Python
        } else if text::is(e, "ts") || text::is(e, "tsx") {
            Language::TypeScript
        } else if text::is(e, "rs") {
            Language::Rust
        } else if text::is(e, "js") || text::is(e, "jsx") || text::is(e, "mjs") || text::is(
            e,
            "cjs",
        ) {
            Language::JavaScript
        } else {
            Language::Other
        }
    }

    /// The language of a file extension, whatever its case.
    pub fn from_extension(ext: &str) -> (r: Self)
        ensures
            r == language_of(text::lowercase(ext@)),
            vstd::utf8::is_ascii_chars(ext@) ==> r == language_of(
                ext@.map_values(|c: char| text::ascii_lower(c)),
            ),
    {
        let lower = ext.to_lowercase();
        Language::from_lower_extension(lower.as_str())
    }

    /// The name of the language.
    pub fn name(self) -> (r: &'static str)
        ensures
            r@ == language_name(self),
    {
        match self {
            Language::Python => "Python",
            Language::TypeScript => "TypeScript",
            Language::Rust => "Rust",
            Language::JavaScript => "JavaScript",
            Language::Other => "Other",
        }
    }
}

/// A source file and what was found in it.
#[derive(Debug, Clone)]
pub struct FileInfo {
    pub path: String,
    pub language: Language,
    pub lines: usize,
    pub symbols: Vec<String>,
    pub imports: Vec<String>,
    pub purpose: Option<String>,
}

/// A source file as plain values.
pub struct FileView {
    pub path: Seq<char>,
    pub language: Language,
    pub lines: int,
    pub symbols: Seq<Seq<char>>,
    pub imports: Seq<Seq<char>>,
    pub purpose: Option<Seq<char>>,
}

impl View for FileInfo {
    type V = FileView;

    open spec fn view(&self) -> FileView {
        FileView {
            path: self.path@,
            language: self.language,
            lines: self.lines as int,
            symbols: text::texts(self.symbols@),
            imports: text::texts(self.imports@),
            purpose: text::opt_text(self.purpose),
        }
    }
}

/// Source files as plain values.
pub open spec fn file_views(files: Seq<FileInfo>) -> Seq<FileView> {
    files.map_values(|f: FileInfo| f@)
}

/// What a package manifest says.
#[derive(Debug, Clone)]
pub struct ManifestInfo {
    pub name: Option<String>,
    pub description: Option<String>,
    pub dependencies: SortedMap<String>,
    pub dev_dependencies: SortedMap<String>,
    pub scripts: SortedMap<String>,
}

/// A package manifest as plain values.
pub struct ManifestView {
    pub name: Option<Seq<char>>,
    pub description: Option<Seq<char>>,
    pub dependencies: Seq<(Seq<char>, Seq<char>)>,
    pub dev_dependencies: Seq<(Seq<char>, Seq<char>)>,
    pub scripts: Seq<(Seq<char>, Seq<char>)>,
}

impl View for ManifestInfo {
    type V = ManifestView;

    open spec fn view(&self) -> ManifestView {
        ManifestView {
            name: text::opt_text(self.name),
            description: text::opt_text(self.description),
            dependencies: self.dependencies@,
            dev_dependencies: self.dev_dependencies@,
            scripts: self.scripts@,
        }
    }
}

impl ManifestInfo {
    /// The entries of each table are in order, none twice.
    pub open spec fn wf(&self) -> bool {
        &&& self.dependencies.wf()
        &&& self.dev_dependencies.wf()
        &&& self.scripts.wf()
    }
}

/// A directory, its guessed role and its files.
#[derive(Debug, Clone)]
pub struct DirectoryInfo {
    pub path: String,
    pub role: String,
    pub file_count: usize,
    pub files: Vec<String>,
}

/// A directory as plain values.
pub struct DirectoryView {
    pub path: Seq<char>,
    pub role: Seq<char>,
    pub file_count: int,
    pub files: Seq<Seq<char>>,
}

impl View for DirectoryInfo {
    type V = DirectoryView;

    open spec fn view(&self) -> DirectoryView {
        DirectoryView {
            path: self.path@,
            role: self.role@,
            file_count: self.file_count as int,
            files: text::texts(self.files@),
        }
    }
}

/// A file with the number of files that depend on it.
#[derive(Debug, Clone)]
pub struct KeyFileInfo {
    pub path: String,
    pub purpose: Option<String>,
    pub symbols: Vec<String>,
    pub dependencies: Vec<String>,
    pub dependent_count: usize,
}

/// A key file as plain values.
pub struct KeyFileView {
    pub path: Seq<char>,
    pub purpose: Option<Seq<char>>,
    pub symbols: Seq<Seq<char>>,
    pub dependencies: Seq<Seq<char>>,
    pub dependent_count: int,
}

impl View for KeyFileInfo {
    type V = KeyFileView;

    open spec fn view(&self) -> KeyFileView {
        KeyFileView {
            path: self.path@,
            purpose: text::opt_text(self.purpose),
            symbols: text::texts(self.symbols@),
            dependencies: text::texts(self.dependencies@),
            dependent_count: self.dependent_count as int,
        }
    }
}

/// What the project is as a whole.
#[derive(Debug, Clone)]
pub struct Overview {
    pub readme_summary: Option<String>,
    pub languages: SortedMap<usize>,
    pub manifests: Vec<ManifestInfo>,
    pub entry_points: Vec<String>,
    pub test_count: usize,
}

/// An overview as plain values.
pub struct OverviewView {
    pub readme_summary: Option<Seq<char>>,
    pub languages: Seq<(Seq<char>, usize)>,
    pub manifests: Seq<ManifestView>,
    pub entry_points: Seq<Seq<char>>,
    pub test_count: int,
}

impl View for Overview {
    type V = OverviewView;

    open spec fn view(&self) -> OverviewView {
        OverviewView {
            readme_summary: text::opt_text(self.readme_summary),
            languages: self.languages@,
            manifests: self.manifests@.map_values(|m: ManifestInfo| m@),
            entry_points: text::texts(self.entry_points@),
            test_count: self.test_count as int,
        }
    }
}

/// The map of a project.
#[derive(Debug, Clone)]
pub struct ProjectMap {
    pub overview: Overview,
    pub structure: Vec<DirectoryInfo>,
    pub key_files: Vec<KeyFileInfo>,
}

/// A project map as plain values.
pub struct ProjectView {
    pub overview: OverviewView,
    pub structure: Seq<DirectoryView>,
    pub key_files: Seq<KeyFileView>,
}

impl View for ProjectMap {
    type V = ProjectView;

    open spec fn view(&self) -> ProjectView {
        ProjectView {
            overview: self.overview@,
            structure: self.structure@.map_values(|d: DirectoryInfo| d@),
            key_files: self.key_files@.map_values(|k: KeyFileInfo| k@),
        }
    }
}

} // verus!
