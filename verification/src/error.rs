//! Errors and warnings of a build.

use vstd::prelude::*;
use vstd::std_specs::cmp::PartialEqSpecImpl;

verus! {

/// Mathematical value of a [`BuildError`].
pub enum BuildErrorView {
    UnresolvedEntry { specifier: Seq<char> },
    UnresolvedImport { specifier: Seq<char>, importer: Seq<char> },
    ParseFailed { file: Seq<char>, detail: Seq<char> },
    IoError { context: Seq<char>, detail: Seq<char> },
    MissingExport { name: Seq<char>, importer: Seq<char>, importee: Seq<char> },
    CircularReExport { name: Seq<char>, file: Seq<char> },
    AmbiguousExternalNamespaces {
        name: Seq<char>,
        importee: Seq<char>,
        chosen: Seq<char>,
        candidates: Seq<Seq<char>>,
    },
    ShimmedExport { name: Seq<char>, file: Seq<char> },
}

impl BuildErrorView {
    /// Warnings are handed to the warning sink and never abort a build.
    pub open spec fn is_warning(self) -> bool {
        self is AmbiguousExternalNamespaces || self is ShimmedExport
    }
}

/// What can go wrong, or be worth a remark, while a module graph is built and linked.
#[derive(Debug)]
pub enum BuildError {
    /// The resolver could not find an entry.
    UnresolvedEntry { specifier: String },
    /// The resolver could not find what `importer` imports.
    UnresolvedImport { specifier: String, importer: String },
    /// The parser rejected a file.
    ParseFailed { file: String, detail: String },
    /// The file system failed; `context` says during what.
    IoError { context: String, detail: String },
    /// `importer` asks `importee` for a name that it does not export.
    MissingExport { name: String, importer: String, importee: String },
    /// A module re-exports from itself a name that it does not have.
    CircularReExport { name: String, file: String },
    /// A name can only come from one of several external wildcard sources; the first was taken.
    AmbiguousExternalNamespaces {
        name: String,
        importee: String,
        chosen: String,
        candidates: Vec<String>,
    },
    /// A missing export was replaced by a binding to `undefined`.
    ShimmedExport { name: String, file: String },
}

impl View for BuildError {
    type V = BuildErrorView;

    open spec fn view(&self) -> BuildErrorView {
        match self {
            BuildError::UnresolvedEntry { specifier } => BuildErrorView::UnresolvedEntry {
                specifier: specifier@,
            },
            BuildError::UnresolvedImport { specifier, importer } => BuildErrorView::UnresolvedImport {
                specifier: specifier@,
                importer: importer@,
            },
            BuildError::ParseFailed { file, detail } => BuildErrorView::ParseFailed {
                file: file@,
                detail: detail@,
            },
            BuildError::IoError { context, detail } => BuildErrorView::IoError {
                context: context@,
                detail: detail@,
            },
            BuildError::MissingExport { name, importer, importee } => BuildErrorView::MissingExport {
                name: name@,
                importer: importer@,
                importee: importee@,
            },
            BuildError::CircularReExport { name, file } => BuildErrorView::CircularReExport {
                name: name@,
                file: file@,
            },
            BuildError::AmbiguousExternalNamespaces { name, importee, chosen, candidates } =>
                BuildErrorView::AmbiguousExternalNamespaces {
                name: name@,
                importee: importee@,
                chosen: chosen@,
                candidates: candidates.deep_view(),
            },
            BuildError::ShimmedExport { name, file } => BuildErrorView::ShimmedExport {
                name: name@,
                file: file@,
            },
        }
    }
}

impl DeepView for BuildError {
    type V = BuildErrorView;

    open spec fn deep_view(&self) -> BuildErrorView {
        self@
    }
}

/// Whether two lists of strings hold the same strings in the same order.
pub fn strings_eq(a: &Vec<String>, b: &Vec<String>) -> (r: bool)
    ensures
        r == (a.deep_view() == b.deep_view()),
{
    if a.len() != b.len() {
        assert(a.deep_view().len() != b.deep_view().len());
        return false;
    }
    let mut i: usize = 0;
    while i < a.len()
        invariant
            a.len() == b.len(),
            i <= a.len(),
            forall|j: int| 0 <= j < i ==> a.deep_view()[j] == b.deep_view()[j],
        decreases a.len() - i,
    {
        if a[i] != b[i] {
            assert(a.deep_view()[i as int] != b.deep_view()[i as int]);
            return false;
        }
        i += 1;
    }
    assert(a.deep_view() =~= b.deep_view());
    true
}

impl PartialEq for BuildError {
    fn eq(&self, other: &BuildError) -> (r: bool) {
        match (self, other) {
            (
                BuildError::UnresolvedEntry { specifier: a },
                BuildError::UnresolvedEntry { specifier: b },
            ) => *a == *b,
            (
                BuildError::UnresolvedImport { specifier: a, importer: c },
                BuildError::UnresolvedImport { specifier: b, importer: d },
            ) => *a == *b && *c == *d,
            (
                BuildError::ParseFailed { file: a, detail: c },
                BuildError::ParseFailed { file: b, detail: d },
            ) => *a == *b && *c == *d,
            (
                BuildError::IoError { context: a, detail: c },
                BuildError::IoError { context: b, detail: d },
            ) => *a == *b && *c == *d,
            (
                BuildError::MissingExport { name: a, importer: c, importee: e },
                BuildError::MissingExport { name: b, importer: d, importee: f },
            ) => *a == *b && *c == *d && *e == *f,
            (
                BuildError::CircularReExport { name: a, file: c },
                BuildError::CircularReExport { name: b, file: d },
            ) => *a == *b && *c == *d,
            (
                BuildError::AmbiguousExternalNamespaces {
                    name: a,
                    importee: c,
                    chosen: e,
                    candidates: g,
                },
                BuildError::AmbiguousExternalNamespaces {
                    name: b,
                    importee: d,
                    chosen: f,
                    candidates: h,
                },
            ) => *a == *b && *c == *d && *e == *f && strings_eq(g, h),
            (
                BuildError::ShimmedExport { name: a, file: c },
                BuildError::ShimmedExport { name: b, file: d },
            ) => *a == *b && *c == *d,
            _ => false,
        }
    }
}

impl PartialEqSpecImpl for BuildError {
    open spec fn obeys_eq_spec() -> bool {
        true
    }

    open spec fn eq_spec(&self, other: &BuildError) -> bool {
        self@ == other@
    }
}

impl BuildError {
    pub fn unresolved_entry(specifier: &str) -> (r: Self)
        ensures
            r@ == (BuildErrorView::UnresolvedEntry { specifier: specifier@ }),
    {
        BuildError::UnresolvedEntry { specifier: specifier.to_owned() }
    }

    pub fn unresolved_import(specifier: &str, importer: &str) -> (r: Self)
        ensures
            r@ == (BuildErrorView::UnresolvedImport { specifier: specifier@, importer: importer@ }),
    {
        BuildError::UnresolvedImport {
            specifier: specifier.to_owned(),
            importer: importer.to_owned(),
        }
    }

    pub fn parse_js_failed(file: &str, detail: &str) -> (r: Self)
        ensures
            r@ == (BuildErrorView::ParseFailed { file: file@, detail: detail@ }),
    {
        BuildError::ParseFailed { file: file.to_owned(), detail: detail.to_owned() }
    }

    pub fn io_error(context: &str, detail: &str) -> (r: Self)
        ensures
            r@ == (BuildErrorView::IoError { context: context@, detail: detail@ }),
    {
        BuildError::IoError { context: context.to_owned(), detail: detail.to_owned() }
    }

    pub fn missing_export(name: &str, importer: &str, importee: &str) -> (r: Self)
        ensures
            r@ == (BuildErrorView::MissingExport {
                name: name@,
                importer: importer@,
                importee: importee@,
            }),
    {
        BuildError::MissingExport {
            name: name.to_owned(),
            importer: importer.to_owned(),
            importee: importee.to_owned(),
        }
    }

    pub fn circular_reexport(name: &str, file: &str) -> (r: Self)
        ensures
            r@ == (BuildErrorView::CircularReExport { name: name@, file: file@ }),
    {
        BuildError::CircularReExport { name: name.to_owned(), file: file.to_owned() }
    }

    pub fn ambiguous_external_namespaces(
        name: &str,
        importee: &str,
        chosen: &str,
        candidates: Vec<String>,
    ) -> (r: Self)
        ensures
            r@ == (BuildErrorView::AmbiguousExternalNamespaces {
                name: name@,
                importee: importee@,
                chosen: chosen@,
                candidates: candidates.deep_view(),
            }),
    {
        BuildError::AmbiguousExternalNamespaces {
            name: name.to_owned(),
            importee: importee.to_owned(),
            chosen: chosen.to_owned(),
            candidates,
        }
    }

    pub fn shimmed_export(name: &str, file: &str) -> (r: Self)
        ensures
            r@ == (BuildErrorView::ShimmedExport { name: name@, file: file@ }),
    {
        BuildError::ShimmedExport { name: name.to_owned(), file: file.to_owned() }
    }

    /// Whether this is a warning: something to report that does not stop the build.
    pub fn is_warning(&self) -> (r: bool)
        ensures
            r == self@.is_warning(),
    {
        match self {
            BuildError::AmbiguousExternalNamespaces { .. } => true,
            BuildError::ShimmedExport { .. } => true,
            _ => false,
        }
    }
}

} // verus!
