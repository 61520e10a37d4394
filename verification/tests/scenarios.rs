use rolldown_core::error::BuildError;
use rolldown_core::graph::Graph;
use rolldown_core::ident::{ModuleId, Symbol};
use rolldown_core::module::{ExternalModule, NormOrExt, NormalModule};
use rolldown_core::options::InputOptions;
use rolldown_core::specifier::{ExportedSpecifier, ImportedSpecifier, ReExportedSpecifier};

fn normal_id(path: &str) -> ModuleId {
    ModuleId::new(path, false)
}

fn local_export(module: &mut NormalModule, name: &str) -> Symbol {
    let symbol = Symbol::new(&module.id, name, 0);
    module.linked_exports.push((
        name.to_string(),
        ExportedSpecifier {
            exported_as: name.to_string(),
            local_id: symbol.clone(),
            owner: module.id.clone(),
        },
    ));
    symbol
}

fn import(module: &mut NormalModule, importee: &ModuleId, imported: &str, local: &str) -> Symbol {
    let symbol = Symbol::new(&module.id, local, 0);
    let spec = ImportedSpecifier { imported: imported.to_string(), imported_as: symbol.clone() };
    match module.imports.iter_mut().find(|(id, _)| id == importee) {
        Some((_, specs)) => specs.push(spec),
        None => module.imports.push((importee.clone(), vec![spec])),
    }
    if !module.dependencies.contains(importee) {
        module.dependencies.push(importee.clone());
    }
    symbol
}

fn re_export(module: &mut NormalModule, importee: &ModuleId, imported: &str, exported_as: &str) {
    let spec = ReExportedSpecifier {
        imported: imported.to_string(),
        exported_as: exported_as.to_string(),
    };
    match module.re_exported_ids.iter_mut().find(|(id, _)| id == importee) {
        Some((_, specs)) => specs.push(spec),
        None => module.re_exported_ids.push((importee.clone(), vec![spec])),
    }
    if !module.dependencies.contains(importee) {
        module.dependencies.push(importee.clone());
    }
}

fn re_export_all(module: &mut NormalModule, importee: &ModuleId) {
    module.re_export_all.push(importee.clone());
    if !module.dependencies.contains(importee) {
        module.dependencies.push(importee.clone());
    }
}

fn graph_of(shim: bool, entry: &ModuleId, modules: Vec<NormOrExt>) -> Graph {
    let mut options = InputOptions::with_cwd("/");
    options.shim_missing_exports = shim;
    let mut graph = Graph::new(options);
    graph.add_entry(entry.clone());
    for module in modules {
        graph.add_module(module);
    }
    graph
}

fn normal<'a>(graph: &'a Graph, id: &ModuleId) -> &'a NormalModule {
    graph.fetch_module(id).unwrap().as_norm().unwrap()
}

fn exported<'a>(graph: &'a Graph, id: &ModuleId, name: &str) -> Option<&'a ExportedSpecifier> {
    normal(graph, id).find_exported(name)
}

#[test]
fn simple_chain() {
    let entry_id = normal_id("/entry.js");
    let m_id = normal_id("/m.js");
    let mut m = NormalModule::new(m_id.clone(), false);
    let m_a = local_export(&mut m, "a");
    let mut entry = NormalModule::new(entry_id.clone(), true);
    let entry_a = import(&mut entry, &m_id, "a", "a");
    let mut graph =
        graph_of(false, &entry_id, vec![NormOrExt::Normal(entry), NormOrExt::Normal(m)]);

    assert_eq!(graph.generate_module_graph(), Ok(()));

    assert_eq!(normal(&graph, &m_id).exec_order, 0);
    assert_eq!(normal(&graph, &entry_id).exec_order, 1);
    let linked = &normal(&graph, &entry_id).linked_imports;
    assert_eq!(linked.len(), 1);
    assert_eq!(linked[0].0, m_id);
    assert_eq!(
        linked[0].1,
        vec![ImportedSpecifier { imported: "a".to_string(), imported_as: entry_a.clone() }]
    );
    assert!(graph.uf.same(&entry_a, &m_a));
    assert!(graph.warnings.is_empty());
}

#[test]
fn re_export_forwarding() {
    let entry_id = normal_id("/entry.js");
    let m_id = normal_id("/m.js");
    let mut m = NormalModule::new(m_id.clone(), false);
    let m_a = local_export(&mut m, "a");
    let mut entry = NormalModule::new(entry_id.clone(), true);
    re_export(&mut entry, &m_id, "a", "a");
    let mut graph =
        graph_of(false, &entry_id, vec![NormOrExt::Normal(entry), NormOrExt::Normal(m)]);

    assert_eq!(graph.generate_module_graph(), Ok(()));

    let a = exported(&graph, &entry_id, "a").unwrap();
    assert_eq!(a.owner, m_id);
    assert_eq!(a.local_id, m_a);
    assert!(normal(&graph, &entry_id).linked_imports.is_empty());
}

fn wildcard_conflict_graph(entry_exports_x: bool) -> (Graph, ModuleId, Option<Symbol>) {
    let entry_id = normal_id("/entry.js");
    let a_id = normal_id("/a.js");
    let b_id = normal_id("/b.js");
    let mut a = NormalModule::new(a_id.clone(), false);
    local_export(&mut a, "x");
    let mut b = NormalModule::new(b_id.clone(), false);
    local_export(&mut b, "x");
    let mut entry = NormalModule::new(entry_id.clone(), true);
    re_export_all(&mut entry, &a_id);
    re_export_all(&mut entry, &b_id);
    let own = if entry_exports_x { Some(local_export(&mut entry, "x")) } else { None };
    let graph = graph_of(
        false,
        &entry_id,
        vec![NormOrExt::Normal(entry), NormOrExt::Normal(a), NormOrExt::Normal(b)],
    );
    (graph, entry_id, own)
}

#[test]
fn wildcard_with_conflict() {
    let (mut graph, entry_id, _) = wildcard_conflict_graph(false);
    assert_eq!(graph.generate_module_graph(), Ok(()));
    assert!(exported(&graph, &entry_id, "x").is_none());
}

#[test]
fn wildcard_precedence() {
    let (mut graph, entry_id, own) = wildcard_conflict_graph(true);
    assert_eq!(graph.generate_module_graph(), Ok(()));
    let x = exported(&graph, &entry_id, "x").unwrap();
    assert_eq!(x.local_id, own.unwrap());
    assert_eq!(x.owner, entry_id);
}

#[test]
fn external_re_export() {
    let entry_id = normal_id("/entry.js");
    let path_id = ModuleId::new("path", true);
    let mut entry = NormalModule::new(entry_id.clone(), true);
    re_export(&mut entry, &path_id, "resolve", "resolve");
    let mut graph = graph_of(
        false,
        &entry_id,
        vec![NormOrExt::Normal(entry), NormOrExt::External(ExternalModule::new(path_id.clone()))],
    );

    assert_eq!(graph.generate_module_graph(), Ok(()));

    let entry = normal(&graph, &entry_id);
    let fresh = Symbol::synthesized(&entry_id, "resolve", 0);
    assert!(fresh.is_synthesized());
    assert_eq!(entry.synthesized, vec![fresh.clone()]);
    assert_eq!(entry.linked_imports.len(), 1);
    assert_eq!(entry.linked_imports[0].0, path_id);
    assert_eq!(
        entry.linked_imports[0].1,
        vec![ImportedSpecifier { imported: "resolve".to_string(), imported_as: fresh.clone() }]
    );
    let resolve = entry.find_exported("resolve").unwrap();
    assert_eq!(resolve.local_id, fresh);
    assert_eq!(resolve.owner, entry_id);
}

fn missing_export_graph(shim: bool) -> (Graph, ModuleId, ModuleId, Symbol) {
    let entry_id = normal_id("/entry.js");
    let m_id = normal_id("/m.js");
    let m = NormalModule::new(m_id.clone(), false);
    let mut entry = NormalModule::new(entry_id.clone(), true);
    let ghost = import(&mut entry, &m_id, "ghost", "ghost");
    let graph =
        graph_of(shim, &entry_id, vec![NormOrExt::Normal(entry), NormOrExt::Normal(m)]);
    (graph, entry_id, m_id, ghost)
}

#[test]
fn missing_export_with_shim_enabled() {
    let (mut graph, _, m_id, ghost) = missing_export_graph(true);

    assert_eq!(graph.generate_module_graph(), Ok(()));

    assert_eq!(graph.warnings, vec![BuildError::shimmed_export("ghost", "/m.js")]);
    let shim = exported(&graph, &m_id, "ghost").unwrap();
    assert!(shim.local_id.is_synthesized());
    assert_eq!(shim.owner, m_id);
    assert_eq!(normal(&graph, &m_id).shimmed, vec![shim.local_id.clone()]);
    assert!(graph.uf.same(&ghost, &shim.local_id));
}

#[test]
fn missing_export_with_shim_disabled() {
    let (mut graph, _, _, _) = missing_export_graph(false);
    assert_eq!(
        graph.generate_module_graph(),
        Err(BuildError::missing_export("ghost", "/entry.js", "/m.js"))
    );
    assert!(graph.warnings.is_empty());
}

#[test]
fn cycle() {
    let a_id = normal_id("/a.js");
    let b_id = normal_id("/b.js");
    let mut a = NormalModule::new(a_id.clone(), true);
    let a_x = local_export(&mut a, "x");
    let a_y = import(&mut a, &b_id, "y", "y");
    let mut b = NormalModule::new(b_id.clone(), false);
    let b_y = local_export(&mut b, "y");
    let b_x = import(&mut b, &a_id, "x", "x");
    let mut graph = graph_of(false, &a_id, vec![NormOrExt::Normal(a), NormOrExt::Normal(b)]);

    assert_eq!(graph.generate_module_graph(), Ok(()));

    assert_eq!(normal(&graph, &b_id).exec_order, 0);
    assert_eq!(normal(&graph, &a_id).exec_order, 1);
    assert!(graph.uf.same(&a_y, &b_y));
    assert!(graph.uf.same(&b_x, &a_x));
    assert!(!graph.uf.same(&a_x, &a_y));
}
