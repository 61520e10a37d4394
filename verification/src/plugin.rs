//! What a build plugin is handed and what it hands back.

use vstd::prelude::*;
use crate::ident::ModuleId;

verus! {

/// How the source of a module is to be read.
#[derive(Debug, Clone, Copy, PartialEq, Eq, Structural)]
pub enum Loader {
    Js,
    Jsx,
    Ts,
    Tsx,
    Json,
}

/// The answer of a resolve hook: the id of the module and whether it is external.
#[derive(Debug)]
pub struct ResolvedId {
    pub id: String,
    pub external: bool,
}

impl ResolvedId {
    pub fn new(id: &str, external: bool) -> (r: Self)
        ensures
            r.id@ == id@,
            r.external == external,
    {
        ResolvedId { id: id.to_owned(), external }
    }
}

/// The answer of a load hook: the source and, where the plugin knows it, the loader.
#[derive(Debug)]
pub struct LoadOutput {
    pub code: String,
    pub loader: Option<Loader>,
}

/// What a resolve hook is asked.
#[derive(Debug)]
pub struct ResolveArgs<'a> {
    pub importer: Option<&'a ModuleId>,
    pub specifier: &'a str,
}

/// What a transform hook is handed; the hook answers with new source or with nothing.
#[derive(Debug)]
pub struct TransformArgs<'a> {
    pub id: &'a ModuleId,
    pub code: &'a String,
    pub loader: Loader,
}

/// What a load hook is asked.
#[derive(Debug)]
pub struct LoadArgs<'a> {
    pub id: &'a ModuleId,
}

} // verus!
