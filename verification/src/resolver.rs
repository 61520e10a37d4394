//! The path resolver as the core sees it: where a specifier is looked for, how the
//! resolver is set up, and what is made of its answer.

use vstd::prelude::*;
use crate::error::{BuildError, BuildErrorView};

verus! {

/// How the path resolver is set up.
#[derive(Debug)]
pub struct ResolverOptions {
    /// Whether symbolic links are followed to the files they point to.
    pub symlinks: bool,
    /// The extensions that are tried on a specifier without one, in this order.
    pub extensions: Vec<String>,
    /// Whether a bare specifier is tried as a relative path first.
    pub prefer_relative: bool,
}

/// The extensions that the resolver tries.
pub open spec fn resolver_extensions() -> Seq<Seq<char>> {
    seq![seq!['.', 'j', 's'], seq!['.', 'j', 's', 'x'], seq!['.', 't', 's'], seq!['.', 't', 's', 'x']]
}

/// Resolves specifiers to paths, from the directory of the importer or, for an entry,
/// from the working directory.
#[derive(Debug)]
pub struct Resolver {
    pub cwd: String,
    pub options: ResolverOptions,
}

/// The directory that holds `path`, as `std::path::Path::parent` gives it. Nothing is
/// claimed of it: what a parent is differs between platforms.
#[verifier::external_body]
fn parent_of(path: &str) -> (r: Option<String>) {
    std::path::Path::new(path).parent().map(|parent| parent.to_string_lossy().into_owned())
}

impl Resolver {
    /// A resolver for a build in `cwd`: it follows symbolic links unless they are to be
    /// preserved, tries the extensions of JavaScript and TypeScript, and prefers
    /// relative paths.
    pub fn with_cwd(cwd: String, preserve_symlinks: bool) -> (r: Self)
        ensures
            r.cwd == cwd,
            r.options.symlinks == !preserve_symlinks,
            r.options.prefer_relative,
            r.options.extensions.deep_view() == resolver_extensions(),
    {
        proof {
            reveal_strlit(".js");
            reveal_strlit(".jsx");
            reveal_strlit(".ts");
            reveal_strlit(".tsx");
        }
        let mut extensions: Vec<String> = Vec::new();
        extensions.push(".js".to_owned());
        extensions.push(".jsx".to_owned());
        extensions.push(".ts".to_owned());
        extensions.push(".tsx".to_owned());
        assert(".js"@ =~= seq!['.', 'j', 's']);
        assert(".jsx"@ =~= seq!['.', 'j', 's', 'x']);
        assert(".ts"@ =~= seq!['.', 't', 's']);
        assert(".tsx"@ =~= seq!['.', 't', 's', 'x']);
        assert(extensions.deep_view() =~= resolver_extensions());
        Resolver {
            cwd,
            options: ResolverOptions { symlinks: !preserve_symlinks, extensions, prefer_relative: true },
        }
    }

    pub fn cwd(&self) -> (r: &String)
        ensures
            r == self.cwd,
    {
        &self.cwd
    }

    /// The directory from which a specifier is resolved: the working directory for an
    /// entry, else the directory of the importer, if it has one.
    pub fn importer_dir(&self, importer: Option<&str>) -> (r: Option<String>)
        ensures
            importer is None ==> r == Some(self.cwd),
    {
        match importer {
            Some(path) => parent_of(path),
            None => Some(self.cwd.clone()),
        }
    }

    /// What is made of the answer of the path resolver: the path that it found, or the
    /// failure to resolve an import, with its importer, or an entry.
    pub fn resolve(importer: Option<&str>, specifier: &str, found: Option<String>) -> (r: Result<
        String,
        BuildError,
    >)
        ensures
            match found {
                Some(path) => r == Ok::<String, BuildError>(path),
                None => r matches Err(e) && e@ == match importer {
                    Some(importer) => BuildErrorView::UnresolvedImport {
                        specifier: specifier@,
                        importer: importer@,
                    },
                    None => BuildErrorView::UnresolvedEntry { specifier: specifier@ },
                },
            },
    {
        match found {
            Some(path) => Ok(path),
            None => match importer {
                Some(importer) => Err(BuildError::unresolved_import(specifier, importer)),
                None => Err(BuildError::unresolved_entry(specifier)),
            },
        }
    }
}

} // verus!
