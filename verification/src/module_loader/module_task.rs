//! The decisions of one module task: which loader reads the source, which passes make
//! plain JavaScript of it, what id a dependency resolves to, and what becomes of the
//! resolved dependencies.

use vstd::prelude::*;
use crate::error::{BuildError, BuildErrorView};
use crate::ident::{ModuleId, ModuleIdView};
use crate::options::InputOptions;
use crate::plugin::{Loader, ResolvedId};
use crate::table::{find_name, put};

verus! {

/// Whether `text` ends with `suffix`.
pub open spec fn ends_with(text: Seq<char>, suffix: Seq<char>) -> bool {
    suffix.len() <= text.len() && text.skip(text.len() - suffix.len()) == suffix
}

/// The loader that the extension of `path` asks for; `Js` where it asks for none.
pub open spec fn loader_by_path(path: Seq<char>) -> Loader {
    if ends_with(path, seq!['.', 't', 's', 'x']) {
        Loader::Tsx
    } else if ends_with(path, seq!['.', 't', 's']) {
        Loader::Ts
    } else if ends_with(path, seq!['.', 'j', 's', 'x']) {
        Loader::Jsx
    } else if ends_with(path, seq!['.', 'j', 's', 'o', 'n']) {
        Loader::Json
    } else {
        Loader::Js
    }
}

/// The loader of a module: what a plugin returned, else what the extension asks for if
/// that is enabled, else `Js`.
pub open spec fn selected_loader(from_plugin: Option<Loader>, detect_by_ext: bool, path: Seq<char>) -> Loader {
    match from_plugin {
        Some(loader) => loader,
        None => if detect_by_ext {
            loader_by_path(path)
        } else {
            Loader::Js
        },
    }
}

/// Whether `text` ends with `suffix`.
pub fn has_suffix(text: &str, suffix: &str) -> (r: bool)
    ensures
        r == ends_with(text@, suffix@),
{
    let n = text.unicode_len();
    let m = suffix.unicode_len();
    if m > n {
        return false;
    }
    let start = n - m;
    let mut i: usize = 0;
    while i < m
        invariant
            n == text@.len(),
            m == suffix@.len(),
            m <= n,
            start == n - m,
            i <= m,
            forall|j: int| 0 <= j < i ==> text@[start + j] == suffix@[j],
        decreases m - i,
    {
        if text.get_char(start + i) != suffix.get_char(i) {
            assert(text@.skip(start as int)[i as int] != suffix@[i as int]);
            return false;
        }
        i += 1;
    }
    assert(text@.skip(start as int) =~= suffix@);
    true
}

/// The loader that the extension of `path` asks for; `Js` where it asks for none.
pub fn extract_loader_by_path(path: &str) -> (r: Loader)
    ensures
        r == loader_by_path(path@),
{
    proof {
        reveal_strlit(".tsx");
        reveal_strlit(".ts");
        reveal_strlit(".jsx");
        reveal_strlit(".json");
    }
    assert(".tsx"@ =~= seq!['.', 't', 's', 'x']);
    assert(".ts"@ =~= seq!['.', 't', 's']);
    assert(".jsx"@ =~= seq!['.', 'j', 's', 'x']);
    assert(".json"@ =~= seq!['.', 'j', 's', 'o', 'n']);
    if has_suffix(path, ".tsx") {
        Loader::Tsx
    } else if has_suffix(path, ".ts") {
        Loader::Ts
    } else if has_suffix(path, ".jsx") {
        Loader::Jsx
    } else if has_suffix(path, ".json") {
        Loader::Json
    } else {
        Loader::Js
    }
}

/// The loader of a module: what a plugin returned, else what the extension asks for if
/// that is enabled, else `Js`.
pub fn select_loader(from_plugin: Option<Loader>, options: &InputOptions, path: &str) -> (r: Loader)
    ensures
        r == selected_loader(from_plugin, options.builtins.detect_loader_by_ext, path@),
{
    match from_plugin {
        Some(loader) => loader,
        None => {
            if options.builtins.detect_loader_by_ext {
                extract_loader_by_path(path)
            } else {
                Loader::Js
            }
        },
    }
}

/// One pass over a parsed module.
#[derive(Debug, Clone, Copy, PartialEq, Eq, Structural)]
pub enum Pass {
    /// Lowers decorators.
    Decorators { use_define_for_class_fields: bool },
    /// Resolves the scopes of identifiers.
    Resolver,
    /// Strips the types of a module without JSX.
    StripTypes,
    /// Strips the types of a module with JSX.
    StripTypesWithJsx,
    /// Turns JSX into calls.
    React,
    /// Renames identifiers of one name in different scopes.
    Hygiene,
    /// Puts parentheses where they are needed.
    Fixer,
    /// Injects the helpers that the other passes asked for.
    InjectHelpers,
    /// Clears what scope resolution left on the syntax tree.
    CleanAst,
}

/// How the source of a module is parsed and made plain JavaScript.
#[derive(Debug)]
pub struct ParsePlan {
    /// Parse as TypeScript, with decorators, instead of JavaScript.
    pub typescript: bool,
    /// Accept JSX.
    pub jsx: bool,
    /// The passes to run on the parsed module, in this order.
    pub passes: Vec<Pass>,
}

/// The passes for a module read by `loader`: for TypeScript decorator lowering, scope
/// resolution and type stripping; for JSX its transform; for TypeScript again hygiene,
/// parentheses, helpers and a last cleaning.
pub open spec fn passes_for(loader: Loader, use_define_for_class_fields: bool) -> Seq<Pass> {
    let ts = loader == Loader::Ts || loader == Loader::Tsx;
    let jsx = loader == Loader::Jsx || loader == Loader::Tsx;
    let lowering = if ts {
        seq![Pass::Decorators { use_define_for_class_fields }, Pass::Resolver]
    } else {
        Seq::empty()
    };
    let stripping = if loader == Loader::Ts {
        seq![Pass::StripTypes]
    } else if loader == Loader::Tsx {
        seq![Pass::StripTypesWithJsx]
    } else {
        Seq::empty()
    };
    let react = if jsx {
        seq![Pass::React]
    } else {
        Seq::empty()
    };
    let finishing = if ts {
        seq![Pass::Hygiene, Pass::Fixer, Pass::InjectHelpers, Pass::CleanAst]
    } else {
        Seq::empty()
    };
    lowering + stripping + react + finishing
}

/// Plans how the module `id` is parsed with `loader`. The `Json` loader has no parser
/// and is rejected.
pub fn plan_parse(id: &ModuleId, loader: Loader, options: &InputOptions) -> (r: Result<
    ParsePlan,
    BuildError,
>)
    ensures
        match r {
            Ok(plan) => loader != Loader::Json && plan.typescript == (loader == Loader::Ts || loader
                == Loader::Tsx) && plan.jsx == (loader == Loader::Jsx || loader == Loader::Tsx)
                && plan.passes@ == passes_for(
                loader,
                match options.builtins.tsconfig {
                    Some(config) => config.use_define_for_class_fields,
                    None => false,
                },
            ),
            Err(e) => loader == Loader::Json && e@ == (BuildErrorView::ParseFailed {
                file: id@.path,
                detail: json_rejected(),
            }),
        },
{
    let is_ts = match loader {
        Loader::Ts => true,
        _ => false,
    };
    let is_tsx = match loader {
        Loader::Tsx => true,
        _ => false,
    };
    let is_jsx = match loader {
        Loader::Jsx => true,
        _ => false,
    };
    let is_json = match loader {
        Loader::Json => true,
        _ => false,
    };
    if is_json {
        proof {
            reveal_strlit("the json loader is not implemented");
        }
        assert("the json loader is not implemented"@ =~= json_rejected());
        return Err(BuildError::parse_js_failed(id.id(), "the json loader is not implemented"));
    }
    let is_ts_or_tsx = is_ts || is_tsx;
    let is_jsx_or_tsx = is_jsx || is_tsx;
    let mut passes: Vec<Pass> = Vec::new();
    if is_ts_or_tsx {
        passes.push(
            Pass::Decorators {
                use_define_for_class_fields: options.builtins.use_define_for_class_fields(),
            },
        );
        passes.push(Pass::Resolver);
    }
    if is_ts {
        passes.push(Pass::StripTypes);
    }
    if is_tsx {
        passes.push(Pass::StripTypesWithJsx);
    }
    if is_jsx_or_tsx {
        passes.push(Pass::React);
    }
    if is_ts_or_tsx {
        passes.push(Pass::Hygiene);
        passes.push(Pass::Fixer);
        passes.push(Pass::InjectHelpers);
        passes.push(Pass::CleanAst);
    }
    assert(passes@ =~= passes_for(
        loader,
        match options.builtins.tsconfig {
            Some(config) => config.use_define_for_class_fields,
            None => false,
        },
    ));
    Ok(ParsePlan { typescript: is_ts_or_tsx, jsx: is_jsx_or_tsx, passes })
}

/// What the parser says of a source for the `Json` loader.
pub open spec fn json_rejected() -> Seq<char> {
    seq![
        't', 'h', 'e', ' ', 'j', 's', 'o', 'n', ' ', 'l', 'o', 'a', 'd', 'e', 'r', ' ', 'i', 's', ' ',
        'n', 'o', 't', ' ', 'i', 'm', 'p', 'l', 'e', 'm', 'e', 'n', 't', 'e', 'd',
    ]
}

/// What is asked next while the id of a dependency is resolved.
#[derive(Debug)]
pub enum IdQuestion {
    /// Does the user mark this specifier, or this resolved id, as external? For a resolved
    /// id, `plugin_external` says whether the plugin that resolved it marked it so.
    IsExternal { specifier: String, already_resolved: bool, plugin_external: bool },
    /// What do the plugins and the path resolver make of this specifier?
    Resolve { specifier: String },
}

/// How far the resolution of an id has come.
#[derive(Debug)]
pub enum IdProgress {
    Ask(IdQuestion),
    Done(ModuleId),
}

/// Mathematical value of an [`IdProgress`].
pub enum IdProgressView {
    AskIsExternal { specifier: Seq<char>, already_resolved: bool, plugin_external: bool },
    AskResolve { specifier: Seq<char> },
    Done(ModuleIdView),
}

impl View for IdProgress {
    type V = IdProgressView;

    open spec fn view(&self) -> IdProgressView {
        match self {
            IdProgress::Ask(IdQuestion::IsExternal { specifier, already_resolved, plugin_external }) =>
                IdProgressView::AskIsExternal {
                specifier: specifier@,
                already_resolved: *already_resolved,
                plugin_external: *plugin_external,
            },
            IdProgress::Ask(IdQuestion::Resolve { specifier }) => IdProgressView::AskResolve {
                specifier: specifier@,
            },
            IdProgress::Done(id) => IdProgressView::Done(id@),
        }
    }
}

/// The id that a specifier resolves to: external as it stands where the user marks it so
/// or nothing resolves it; else what it resolves to, external if the plugin that resolved
/// it or the user marks that so. `resolved` is the id found and the plugin's mark.
pub open spec fn resolved_module_id(
    specifier: Seq<char>,
    marked_external: bool,
    resolved: Option<(Seq<char>, bool)>,
    resolved_marked_external: bool,
) -> ModuleIdView {
    if marked_external {
        ModuleIdView { path: specifier, external: true }
    } else {
        match resolved {
            Some((path, plugin_external)) => ModuleIdView {
                path,
                external: plugin_external || resolved_marked_external,
            },
            None => ModuleIdView { path: specifier, external: true },
        }
    }
}

/// The resolution of `specifier` starts by asking whether the user marks it as external.
pub fn resolve_id(specifier: &str) -> (r: IdProgress)
    ensures
        r@ == (IdProgressView::AskIsExternal {
            specifier: specifier@,
            already_resolved: false,
            plugin_external: false,
        }),
{
    IdProgress::Ask(
        IdQuestion::IsExternal {
            specifier: specifier.to_owned(),
            already_resolved: false,
            plugin_external: false,
        },
    )
}

/// After the user answered whether `specifier` is external: if so it is the id, external;
/// if not it goes to the plugins and the path resolver.
pub fn resolve_id_marked(specifier: &str, marked_external: bool) -> (r: IdProgress)
    ensures
        r@ == if marked_external {
            IdProgressView::Done(resolved_module_id(specifier@, true, None, false))
        } else {
            IdProgressView::AskResolve { specifier: specifier@ }
        },
{
    if marked_external {
        IdProgress::Done(ModuleId::new(specifier, true))
    } else {
        IdProgress::Ask(IdQuestion::Resolve { specifier: specifier.to_owned() })
    }
}

/// What is made of the answer of the path resolver, which is asked where no plugin
/// resolved the specifier: the path that it found, not marked external. Where it found
/// nothing, an import has no resolved id, and an entry fails with the resolver's error.
pub fn resolved_by_path(is_entry: bool, answer: Result<String, BuildError>) -> (r: Result<
    Option<ResolvedId>,
    BuildError,
>)
    ensures
        match answer {
            Ok(path) => r matches Ok(Some(found)) && found.id == path && !found.external,
            Err(e) => if is_entry {
                r == Err::<Option<ResolvedId>, BuildError>(e)
            } else {
                r == Ok::<Option<ResolvedId>, BuildError>(None)
            },
        },
{
    match answer {
        Ok(path) => Ok(Some(ResolvedId { id: path, external: false })),
        Err(e) => {
            if is_entry {
                Err(e)
            } else {
                Ok(None)
            }
        },
    }
}

/// The id of the entry `specifier` after the plugins and the path resolver answered: what
/// they found, never external. An entry for which they found nothing cannot be resolved.
pub fn entry_id(specifier: &str, answer: Result<Option<ResolvedId>, BuildError>) -> (r: Result<
    ModuleId,
    BuildError,
>)
    ensures
        match answer {
            Ok(Some(found)) => r matches Ok(id) && id@ == (ModuleIdView { path: found.id@, external: false }),
            Ok(None) => r matches Err(e) && e@ == (BuildErrorView::UnresolvedEntry { specifier: specifier@ }),
            Err(e) => r == Err::<ModuleId, BuildError>(e),
        },
{
    match answer {
        Ok(Some(found)) => Ok(ModuleId::new(found.id.as_str(), false)),
        Ok(None) => Err(BuildError::unresolved_entry(specifier)),
        Err(e) => Err(e),
    }
}

/// After the plugins and the path resolver answered: what they found is put before the
/// user, with the mark of the plugin; where they found nothing, the specifier is the id,
/// external.
pub fn resolve_id_resolved(specifier: &str, resolved: Option<&ResolvedId>) -> (r: IdProgress)
    ensures
        r@ == match resolved {
            Some(found) => IdProgressView::AskIsExternal {
                specifier: found.id@,
                already_resolved: true,
                plugin_external: found.external,
            },
            None => IdProgressView::Done(resolved_module_id(specifier@, false, None, false)),
        },
{
    match resolved {
        Some(found) => IdProgress::Ask(
            IdQuestion::IsExternal {
                specifier: found.id.clone(),
                already_resolved: true,
                plugin_external: found.external,
            },
        ),
        None => IdProgress::Done(ModuleId::new(specifier, true)),
    }
}

/// After the user answered whether the resolved id is external: that is the id, external
/// if the plugin that resolved it or the user marks it so.
pub fn resolve_id_resolved_marked(resolved: &str, plugin_external: bool, marked_external: bool) -> (r:
    ModuleId)
    ensures
        r@ == (ModuleIdView { path: resolved@, external: plugin_external || marked_external }),
        forall|specifier: Seq<char>|
            r@ == #[trigger] resolved_module_id(
                specifier,
                false,
                Some((resolved@, plugin_external)),
                marked_external,
            ),
{
    ModuleId::new(resolved, plugin_external || marked_external)
}

/// All specifiers that a module names, each once: the static ones in source order, then
/// the dynamic ones that are not among them.
pub open spec fn all_specifiers(fixed: Seq<Seq<char>>, dynamic: Seq<Seq<char>>) -> Seq<Seq<char>> {
    crate::table::insert_all(crate::table::insert_all(Seq::empty(), fixed), dynamic)
}

/// The specifiers to resolve for a module with the static dependencies `fixed` and the
/// dynamic dependencies `dynamic`.
pub fn specifiers_to_resolve(fixed: &Vec<String>, dynamic: &Vec<String>) -> (r: Vec<String>)
    ensures
        r.deep_view() == all_specifiers(fixed.deep_view(), dynamic.deep_view()),
{
    let mut r: Vec<String> = Vec::new();
    assert(r.deep_view() =~= Seq::<Seq<char>>::empty());
    add_specifiers(&mut r, fixed);
    add_specifiers(&mut r, dynamic);
    r
}

fn add_specifiers(set: &mut Vec<String>, items: &Vec<String>)
    ensures
        final(set).deep_view() == crate::table::insert_all(old(set).deep_view(), items.deep_view()),
{
    let mut k: usize = 0;
    while k < items.len()
        invariant
            k <= items.len(),
            set.deep_view() == crate::table::insert_all(
                old(set).deep_view(),
                items.deep_view().take(k as int),
            ),
        decreases items.len() - k,
    {
        let ghost before = set.deep_view();
        let mut found = false;
        let mut j: usize = 0;
        while j < set.len()
            invariant
                j <= set.len(),
                before == set.deep_view(),
                k < items.len(),
                !found ==> forall|q: int| 0 <= q < j ==> before[q] != items.deep_view()[k as int],
                found ==> before.contains(items.deep_view()[k as int]),
            decreases set.len() - j,
        {
            if set[j] == items[k] {
                assert(before[j as int] == items.deep_view()[k as int]);
                found = true;
            }
            j += 1;
        }
        if !found {
            set.push(items[k].clone());
            assert(set.deep_view() =~= before.push(items.deep_view()[k as int]));
        }
        proof {
            let longer = items.deep_view().take(k as int + 1);
            assert(longer.drop_last() =~= items.deep_view().take(k as int));
            assert(longer.last() == items.deep_view()[k as int]);
        }
        k += 1;
    }
    assert(items.deep_view().take(items.len() as int) =~= items.deep_view());
}

/// The resolved dependencies of a module by specifier, where all were resolved.
pub open spec fn resolved_map(
    results: Seq<Result<(Seq<char>, ModuleIdView), BuildErrorView>>,
    n: int,
) -> Seq<(Seq<char>, ModuleIdView)>
    decreases n,
{
    if 0 < n <= results.len() {
        match results[n - 1] {
            Ok(pair) => put(resolved_map(results, n - 1), pair.0, pair.1),
            Err(_) => resolved_map(results, n - 1),
        }
    } else {
        Seq::empty()
    }
}

/// The failures among the first `n` resolutions, in their order.
pub open spec fn resolution_errors(
    results: Seq<Result<(Seq<char>, ModuleIdView), BuildErrorView>>,
    n: int,
) -> Seq<BuildErrorView>
    decreases n,
{
    if 0 < n <= results.len() {
        match results[n - 1] {
            Ok(_) => resolution_errors(results, n - 1),
            Err(e) => resolution_errors(results, n - 1).push(e),
        }
    } else {
        Seq::empty()
    }
}

/// The views of the results of resolving the dependencies of a module.
pub open spec fn results_view(results: Seq<Result<(String, ModuleId), BuildError>>) -> Seq<
    Result<(Seq<char>, ModuleIdView), BuildErrorView>,
> {
    Seq::new(
        results.len(),
        |i: int|
            match results[i] {
                Ok(pair) => Ok((pair.0@, pair.1@)),
                Err(e) => Err(e@),
            },
    )
}

/// Gathers the resolved dependencies of a module. One failure does not hide another: where
/// any resolution failed, all failures are returned, in their order.
pub fn resolve_dependencies(results: Vec<Result<(String, ModuleId), BuildError>>) -> (r: Result<
    Vec<(String, ModuleId)>,
    Vec<BuildError>,
>)
    ensures
        match r {
            Ok(map) => resolution_errors(results_view(results@), results@.len() as int).len() == 0
                && map.deep_view() == resolved_map(results_view(results@), results@.len() as int),
            Err(errors) => errors.deep_view() == resolution_errors(
                results_view(results@),
                results@.len() as int,
            ) && errors@.len() > 0,
        },
{
    let ghost all = results_view(results@);
    let mut results = results;
    let mut reversed: Vec<Result<(String, ModuleId), BuildError>> = Vec::new();
    let ghost given = results@;
    while results.len() > 0
        invariant
            results@.len() + reversed@.len() == given.len(),
            results@ == given.take(results@.len() as int),
            forall|i: int| 0 <= i < reversed@.len() ==> #[trigger] reversed@[i] == given[given.len() - 1 - i],
        decreases results.len(),
    {
        let last = results.pop().unwrap();
        reversed.push(last);
    }
    let mut map: Vec<(String, ModuleId)> = Vec::new();
    let mut errors: Vec<BuildError> = Vec::new();
    let ghost turned = reversed@;
    let ghost mut n: int = 0;
    assert(map.deep_view() =~= resolved_map(all, 0));
    assert(errors.deep_view() =~= resolution_errors(all, 0));
    while reversed.len() > 0
        invariant
            all == results_view(given),
            turned.len() == given.len(),
            forall|i: int| 0 <= i < turned.len() ==> #[trigger] turned[i] == given[given.len() - 1 - i],
            reversed@ == turned.take(reversed@.len() as int),
            n == given.len() - reversed@.len(),
            0 <= n <= given.len(),
            map.deep_view() == resolved_map(all, n),
            errors.deep_view() == resolution_errors(all, n),
        decreases reversed.len(),
    {
        let next = reversed.pop().unwrap();
        assert(next == given[n]);
        match next {
            Ok(pair) => {
                let ghost before = map.deep_view();
                let (specifier, id) = pair;
                match find_name(&map, specifier.as_str()) {
                    Some(i) => {
                        map[i] = (specifier, id);
                        assert(map.deep_view() =~= before.update(i as int, (specifier@, id@)));
                    },
                    None => {
                        map.push((specifier, id));
                        assert(map.deep_view() =~= before.push((specifier@, id@)));
                    },
                }
            },
            Err(e) => {
                let ghost before = errors.deep_view();
                errors.push(e);
                assert(errors.deep_view() =~= before.push(e@));
            },
        }
        proof {
            n = n + 1;
        }
    }
    if errors.len() == 0 {
        Ok(map)
    } else {
        Err(errors)
    }
}

} // verus!
