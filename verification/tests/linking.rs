use rolldown_core::error::BuildError;
use rolldown_core::graph::Graph;
use rolldown_core::ident::{ModuleId, Symbol};
use rolldown_core::module::{
    shim_missing_export_if_needed, ExternalModule, NormOrExt, NormalModule, UNSET_EXEC_ORDER,
};
use rolldown_core::options::InputOptions;
use rolldown_core::specifier::{ExportedSpecifier, ImportedSpecifier, ReExportedSpecifier};

fn id(path: &str) -> ModuleId {
    ModuleId::new(path, false)
}

fn module(path: &str) -> NormalModule {
    NormalModule::new(id(path), false)
}

fn export_local(module: &mut NormalModule, name: &str, binding: u64) -> Symbol {
    let symbol = Symbol::new(&module.id, name, binding);
    module.linked_exports.push((
        name.to_string(),
        ExportedSpecifier {
            exported_as: name.to_string(),
            local_id: symbol.clone(),
            owner: module.id.clone(),
        },
    ));
    symbol
}

fn depend(module: &mut NormalModule, on: &ModuleId) {
    if !module.dependencies.contains(on) {
        module.dependencies.push(on.clone());
    }
}

fn import_as(module: &mut NormalModule, from: &ModuleId, imported: &str, local: &str) -> Symbol {
    let symbol = Symbol::new(&module.id, local, 1);
    let spec = ImportedSpecifier { imported: imported.to_string(), imported_as: symbol.clone() };
    match module.imports.iter_mut().find(|(importee, _)| importee == from) {
        Some((_, specs)) => specs.push(spec),
        None => module.imports.push((from.clone(), vec![spec])),
    }
    depend(module, from);
    symbol
}

fn export_from(module: &mut NormalModule, from: &ModuleId, imported: &str, exported_as: &str) {
    let spec = ReExportedSpecifier {
        imported: imported.to_string(),
        exported_as: exported_as.to_string(),
    };
    match module.re_exported_ids.iter_mut().find(|(importee, _)| importee == from) {
        Some((_, specs)) => specs.push(spec),
        None => module.re_exported_ids.push((from.clone(), vec![spec])),
    }
    depend(module, from);
}

fn export_all_from(module: &mut NormalModule, from: &ModuleId) {
    module.re_export_all.push(from.clone());
    depend(module, from);
}

fn build(shim: bool, entry: &str, modules: Vec<NormOrExt>) -> (Graph, Result<(), BuildError>) {
    let mut options = InputOptions::with_cwd("/");
    options.shim_missing_exports = shim;
    let mut graph = Graph::new(options);
    graph.add_entry(id(entry));
    for module in modules {
        graph.add_module(module);
    }
    let outcome = graph.generate_module_graph();
    (graph, outcome)
}

fn normal<'a>(graph: &'a Graph, path: &str) -> &'a NormalModule {
    graph.fetch_module(&id(path)).unwrap().as_norm().unwrap()
}

#[test]
fn wildcard_re_exports_are_transitive() {
    let mut c = module("/c.js");
    let c_z = export_local(&mut c, "z", 0);
    let external = ModuleId::new("fs", true);
    let mut b = module("/b.js");
    export_all_from(&mut b, &c.id);
    export_all_from(&mut b, &external);
    let mut a = module("/a.js");
    export_all_from(&mut a, &b.id);
    let (graph, outcome) = build(
        false,
        "/a.js",
        vec![
            NormOrExt::Normal(a),
            NormOrExt::Normal(b),
            NormOrExt::Normal(c),
            NormOrExt::External(ExternalModule::new(external.clone())),
        ],
    );
    assert_eq!(outcome, Ok(()));
    let a = normal(&graph, "/a.js");
    assert!(a.re_export_all.contains(&id("/b.js")));
    assert!(a.re_export_all.contains(&id("/c.js")));
    assert!(a.re_export_all.contains(&external));
    assert_eq!(normal(&graph, "/b.js").external_modules_of_re_export_all, vec![external]);
    let z = a.find_exported("z").unwrap();
    assert_eq!(z.local_id, c_z);
    assert_eq!(z.owner, id("/c.js"));
}

#[test]
fn default_is_not_wildcard_propagated() {
    let mut m = module("/m.js");
    export_local(&mut m, "default", 0);
    let m_named = export_local(&mut m, "named", 1);
    let mut entry = module("/entry.js");
    export_all_from(&mut entry, &m.id);
    let (graph, outcome) =
        build(false, "/entry.js", vec![NormOrExt::Normal(entry), NormOrExt::Normal(m)]);
    assert_eq!(outcome, Ok(()));
    let entry = normal(&graph, "/entry.js");
    assert!(entry.find_exported("default").is_none());
    assert_eq!(entry.find_exported("named").unwrap().local_id, m_named);
    assert_eq!(entry.linked_exports.len(), 1);
}

#[test]
fn wildcard_sources_that_agree_collapse() {
    let mut origin = module("/origin.js");
    let x = export_local(&mut origin, "x", 0);
    let mut left = module("/left.js");
    export_from(&mut left, &origin.id, "x", "x");
    let mut right = module("/right.js");
    export_from(&mut right, &origin.id, "x", "x");
    let mut entry = module("/entry.js");
    export_all_from(&mut entry, &left.id);
    export_all_from(&mut entry, &right.id);
    let (graph, outcome) = build(
        false,
        "/entry.js",
        vec![
            NormOrExt::Normal(entry),
            NormOrExt::Normal(left),
            NormOrExt::Normal(right),
            NormOrExt::Normal(origin),
        ],
    );
    assert_eq!(outcome, Ok(()));
    let entry = normal(&graph, "/entry.js");
    assert_eq!(entry.linked_exports.len(), 1);
    let found = entry.find_exported("x").unwrap();
    assert_eq!(found.local_id, x);
    assert_eq!(found.owner, id("/origin.js"));
}

#[test]
fn shimming_twice_yields_one_entry() {
    let mut m = module("/m.js");
    assert!(shim_missing_export_if_needed(&mut m, "ghost"));
    assert!(!shim_missing_export_if_needed(&mut m, "ghost"));
    assert_eq!(m.linked_exports.len(), 1);
    assert_eq!(m.synthesized.len(), 1);
    assert_eq!(m.shimmed, m.synthesized);
    let shim = m.find_exported("ghost").unwrap();
    assert_eq!(shim.exported_as, "ghost");
    assert_eq!(shim.local_id, Symbol::synthesized(&id("/m.js"), "ghost", 0));
    assert_eq!(shim.owner, id("/m.js"));
}

#[test]
fn two_importers_of_an_external_name_share_its_symbol() {
    let lodash = ModuleId::new("lodash", true);
    let mut a = module("/a.js");
    let a_x = import_as(&mut a, &lodash, "x", "x");
    let mut b = module("/b.js");
    let b_x = import_as(&mut b, &lodash, "x", "renamed");
    let b_y = import_as(&mut b, &lodash, "y", "y");
    depend(&mut a, &b.id);
    let (graph, outcome) = build(
        false,
        "/a.js",
        vec![
            NormOrExt::Normal(a),
            NormOrExt::Normal(b),
            NormOrExt::External(ExternalModule::new(lodash.clone())),
        ],
    );
    assert_eq!(outcome, Ok(()));
    assert!(graph.uf.same(&a_x, &b_x));
    assert!(!graph.uf.same(&a_x, &b_y));
    let a = normal(&graph, "/a.js");
    assert_eq!(a.linked_imports.len(), 1);
    assert_eq!(a.linked_imports[0].0, lodash);
    assert_eq!(
        a.linked_imports[0].1,
        vec![ImportedSpecifier { imported: "x".to_string(), imported_as: a_x }]
    );
    let b = normal(&graph, "/b.js");
    assert_eq!(b.linked_imports.len(), 1);
    assert_eq!(b.linked_imports[0].0, lodash);
    assert_eq!(
        b.linked_imports[0].1,
        vec![
            ImportedSpecifier { imported: "x".to_string(), imported_as: b_x },
            ImportedSpecifier { imported: "y".to_string(), imported_as: b_y },
        ]
    );
    match graph.fetch_module(&lodash).unwrap() {
        NormOrExt::External(external) => {
            let names: Vec<&str> =
                external.exported_symbols.iter().map(|(name, _)| name.as_str()).collect();
            assert_eq!(names, vec!["x", "y"]);
        }
        NormOrExt::Normal(_) => panic!("lodash is external"),
    }
}

#[test]
fn every_linked_import_is_exported_by_its_owner_and_joined() {
    let mut origin = module("/origin.js");
    export_local(&mut origin, "value", 0);
    let mut barrel = module("/barrel.js");
    export_from(&mut barrel, &origin.id, "value", "renamed");
    let mut entry = module("/entry.js");
    let local = import_as(&mut entry, &barrel.id, "renamed", "local");
    let (graph, outcome) = build(
        false,
        "/entry.js",
        vec![NormOrExt::Normal(entry), NormOrExt::Normal(barrel), NormOrExt::Normal(origin)],
    );
    assert_eq!(outcome, Ok(()));
    let mut checked = 0;
    for node in graph.modules.iter() {
        if let Some(module) = node.as_norm() {
            for (owner, specs) in module.linked_imports.iter() {
                for spec in specs {
                    checked += 1;
                    if owner.is_external() {
                        continue;
                    }
                    let exporter = graph.fetch_module(owner).unwrap().as_norm().unwrap();
                    let exported = exporter.find_exported(&spec.imported).unwrap();
                    assert!(graph.uf.same(&spec.imported_as, &exported.local_id));
                }
            }
        }
    }
    assert_eq!(checked, 1);
    let entry = normal(&graph, "/entry.js");
    assert_eq!(entry.linked_imports[0].0, id("/origin.js"));
    assert_eq!(
        entry.linked_imports[0].1,
        vec![ImportedSpecifier { imported: "value".to_string(), imported_as: local }]
    );
    assert_eq!(
        normal(&graph, "/barrel.js").suggested_names,
        vec![("renamed".to_string(), "local".to_string())]
    );
    assert_eq!(
        normal(&graph, "/origin.js").suggested_names,
        vec![("value".to_string(), "renamed".to_string())]
    );
}

#[test]
fn self_re_export_of_a_missing_name_is_circular() {
    let mut entry = module("/entry.js");
    let own = entry.id.clone();
    export_from(&mut entry, &own, "nothing", "something");
    entry.dependencies.clear();
    let (_, outcome) = build(true, "/entry.js", vec![NormOrExt::Normal(entry)]);
    assert_eq!(outcome, Err(BuildError::circular_reexport("nothing", "/entry.js")));
}

#[test]
fn self_re_export_of_an_own_name() {
    let mut entry = module("/entry.js");
    let own = entry.id.clone();
    let x = export_local(&mut entry, "x", 0);
    export_from(&mut entry, &own, "x", "y");
    entry.dependencies.clear();
    let (graph, outcome) = build(false, "/entry.js", vec![NormOrExt::Normal(entry)]);
    assert_eq!(outcome, Ok(()));
    let y = normal(&graph, "/entry.js").find_exported("y").unwrap();
    assert_eq!(y.exported_as, "x");
    assert_eq!(y.local_id, x);
}

#[test]
fn missing_re_export_fails_without_shim_and_is_shimmed_with_it() {
    let make = || {
        let m = module("/m.js");
        let mut entry = module("/entry.js");
        export_from(&mut entry, &m.id, "ghost", "spirit");
        vec![NormOrExt::Normal(entry), NormOrExt::Normal(m)]
    };
    let (_, outcome) = build(false, "/entry.js", make());
    assert_eq!(outcome, Err(BuildError::missing_export("ghost", "/entry.js", "/m.js")));

    let (graph, outcome) = build(true, "/entry.js", make());
    assert_eq!(outcome, Ok(()));
    assert_eq!(graph.warnings, vec![BuildError::shimmed_export("ghost", "/m.js")]);
    let spirit = normal(&graph, "/entry.js").find_exported("spirit").unwrap();
    assert_eq!(spirit.owner, id("/m.js"));
    assert_eq!(spirit.local_id, Symbol::synthesized(&id("/m.js"), "ghost", 0));
}

#[test]
fn namespace_import_marks_the_importee_and_patch_describes_its_namespace() {
    let mut m = module("/m.js");
    let a = export_local(&mut m, "a", 0);
    let star = export_local(&mut m, "*", 9);
    let mut entry = module("/entry.js");
    import_as(&mut entry, &m.id, "*", "ns");
    let (graph, outcome) =
        build(false, "/entry.js", vec![NormOrExt::Normal(entry), NormOrExt::Normal(m)]);
    assert_eq!(outcome, Ok(()));
    let m = normal(&graph, "/m.js");
    assert!(m.namespace_referenced);
    assert_eq!(
        m.namespace_export,
        Some(vec![("a".to_string(), a), ("*".to_string(), star)])
    );
    let entry = normal(&graph, "/entry.js");
    assert!(!entry.namespace_referenced);
    assert_eq!(entry.namespace_export, None);
}

#[test]
fn a_name_missing_in_the_importee_comes_from_its_external_wildcard_source() {
    let first = ModuleId::new("first", true);
    let second = ModuleId::new("second", true);
    let mut barrel = module("/barrel.js");
    export_all_from(&mut barrel, &first);
    export_all_from(&mut barrel, &second);
    let mut entry = module("/entry.js");
    let local = import_as(&mut entry, &barrel.id, "join", "join");
    let (graph, outcome) = build(
        false,
        "/entry.js",
        vec![
            NormOrExt::Normal(entry),
            NormOrExt::Normal(barrel),
            NormOrExt::External(ExternalModule::new(first.clone())),
            NormOrExt::External(ExternalModule::new(second.clone())),
        ],
    );
    assert_eq!(outcome, Ok(()));
    assert_eq!(
        graph.warnings,
        vec![BuildError::ambiguous_external_namespaces(
            "join",
            "/barrel.js",
            "first",
            vec!["first".to_string(), "second".to_string()],
        )]
    );
    let inner = Symbol::synthesized(&id("/barrel.js"), "join", 0);
    let barrel = normal(&graph, "/barrel.js");
    assert_eq!(barrel.linked_imports.len(), 1);
    assert_eq!(barrel.linked_imports[0].0, first);
    assert_eq!(
        barrel.linked_imports[0].1,
        vec![ImportedSpecifier { imported: "join".to_string(), imported_as: inner.clone() }]
    );
    let exported = barrel.find_exported("join").unwrap();
    assert_eq!(exported.local_id, inner);
    assert_eq!(exported.owner, id("/barrel.js"));
    let entry = normal(&graph, "/entry.js");
    assert_eq!(entry.linked_imports[0].0, id("/barrel.js"));
    assert_eq!(
        entry.linked_imports[0].1,
        vec![ImportedSpecifier { imported: "join".to_string(), imported_as: local.clone() }]
    );
    assert!(graph.uf.same(&local, &inner));
}

#[test]
fn self_imports_are_linked_in_the_order_of_their_names() {
    let mut entry = module("/entry.js");
    let own = entry.id.clone();
    export_local(&mut entry, "b", 0);
    import_as(&mut entry, &own, "zz", "z");
    import_as(&mut entry, &own, "aa", "a");
    entry.dependencies.clear();
    let (_, outcome) = build(false, "/entry.js", vec![NormOrExt::Normal(entry)]);
    assert_eq!(outcome, Err(BuildError::missing_export("aa", "/entry.js", "/entry.js")));
}

#[test]
fn external_re_export_as_default_is_named_after_what_it_imports() {
    let path = ModuleId::new("path", true);
    let mut entry = module("/entry.js");
    export_from(&mut entry, &path, "resolve", "default");
    let (graph, outcome) = build(
        false,
        "/entry.js",
        vec![NormOrExt::Normal(entry), NormOrExt::External(ExternalModule::new(path))],
    );
    assert_eq!(outcome, Ok(()));
    let entry = normal(&graph, "/entry.js");
    assert_eq!(entry.synthesized, vec![Symbol::synthesized(&id("/entry.js"), "resolve", 0)]);
    assert_eq!(entry.find_exported("default").unwrap().local_id, entry.synthesized[0]);
}

#[test]
fn order_follows_entries_then_dynamic_imports() {
    let mut shared = module("/shared.js");
    export_local(&mut shared, "s", 0);
    let mut lazy = module("/lazy.js");
    depend(&mut lazy, &shared.id);
    let lonely = module("/lonely.js");
    let mut entry = module("/entry.js");
    depend(&mut entry, &shared.id);
    entry.dynamic_dependencies.push(lazy.id.clone());
    let (graph, outcome) = build(
        false,
        "/entry.js",
        vec![
            NormOrExt::Normal(lonely),
            NormOrExt::Normal(lazy),
            NormOrExt::Normal(entry),
            NormOrExt::Normal(shared),
        ],
    );
    assert_eq!(outcome, Ok(()));
    assert_eq!(normal(&graph, "/shared.js").exec_order, 0);
    assert_eq!(normal(&graph, "/entry.js").exec_order, 1);
    assert_eq!(normal(&graph, "/lazy.js").exec_order, 2);
    assert_eq!(normal(&graph, "/lonely.js").exec_order, UNSET_EXEC_ORDER);
    assert_eq!(
        graph.order_modules(),
        vec![id("/shared.js"), id("/entry.js"), id("/lazy.js"), id("/lonely.js")]
    );
}

#[test]
fn dependencies_come_before_dependents_in_a_diamond() {
    let bottom = module("/bottom.js");
    let mut left = module("/left.js");
    depend(&mut left, &bottom.id);
    let mut right = module("/right.js");
    depend(&mut right, &bottom.id);
    let mut top = module("/top.js");
    depend(&mut top, &left.id);
    depend(&mut top, &right.id);
    let (graph, outcome) = build(
        false,
        "/top.js",
        vec![
            NormOrExt::Normal(top),
            NormOrExt::Normal(left),
            NormOrExt::Normal(right),
            NormOrExt::Normal(bottom),
        ],
    );
    assert_eq!(outcome, Ok(()));
    assert_eq!(normal(&graph, "/bottom.js").exec_order, 0);
    assert_eq!(normal(&graph, "/left.js").exec_order, 1);
    assert_eq!(normal(&graph, "/right.js").exec_order, 2);
    assert_eq!(normal(&graph, "/top.js").exec_order, 3);
    for node in graph.modules.iter() {
        let module = node.as_norm().unwrap();
        for dependency in module.dependencies.iter() {
            assert!(normal(&graph, dependency.id()).exec_order < module.exec_order);
        }
    }
}

#[test]
fn two_runs_give_the_same_link() {
    let make = || {
        let mut m = module("/m.js");
        export_local(&mut m, "a", 0);
        export_local(&mut m, "b", 1);
        let mut entry = module("/entry.js");
        import_as(&mut entry, &m.id, "a", "a");
        export_all_from(&mut entry, &m.id);
        build(false, "/entry.js", vec![NormOrExt::Normal(entry), NormOrExt::Normal(m)])
    };
    let (one, first) = make();
    let (two, second) = make();
    assert_eq!(first, second);
    assert_eq!(format!("{:?}", one.modules), format!("{:?}", two.modules));
    assert_eq!(one.warnings, two.warnings);
}

#[test]
fn the_order_in_which_modules_arrive_does_not_matter() {
    let make = |arrival: [usize; 4]| {
        let lodash = ModuleId::new("lodash", true);
        let mut origin = module("/origin.js");
        export_local(&mut origin, "value", 0);
        import_as(&mut origin, &lodash, "map", "map");
        let mut barrel = module("/barrel.js");
        export_all_from(&mut barrel, &origin.id);
        export_from(&mut barrel, &lodash, "map", "each");
        let mut entry = module("/entry.js");
        import_as(&mut entry, &barrel.id, "value", "value");
        import_as(&mut entry, &lodash, "map", "mine");
        let mut modules = vec![
            Some(NormOrExt::Normal(entry)),
            Some(NormOrExt::Normal(barrel)),
            Some(NormOrExt::Normal(origin)),
            Some(NormOrExt::External(ExternalModule::new(lodash))),
        ];
        let arrived = arrival.iter().map(|&at| modules[at].take().unwrap()).collect();
        build(true, "/entry.js", arrived)
    };
    let (one, first) = make([0, 1, 2, 3]);
    let (two, second) = make([3, 2, 0, 1]);
    assert_eq!(first, Ok(()));
    assert_eq!(second, Ok(()));
    assert_eq!(one.warnings, two.warnings);
    for path in ["/entry.js", "/barrel.js", "/origin.js"] {
        let a = normal(&one, path);
        let b = normal(&two, path);
        assert_eq!(format!("{a:?}"), format!("{b:?}"));
        assert_ne!(a.exec_order, UNSET_EXEC_ORDER);
    }
    let mine = Symbol::new(&id("/entry.js"), "mine", 1);
    let map = Symbol::new(&id("/origin.js"), "map", 1);
    let value = Symbol::new(&id("/entry.js"), "value", 1);
    for graph in [&one, &two] {
        assert!(graph.uf.same(&mine, &map));
        assert!(!graph.uf.same(&mine, &value));
        assert_eq!(graph.uf.find(&mine), graph.uf.find(&map));
    }
    assert_eq!(one.uf.find(&mine), two.uf.find(&mine));
}

#[test]
fn a_module_that_imports_from_itself_is_linked_like_any_importer() {
    let external = ModuleId::new("events", true);
    let mut entry = module("/entry.js");
    let own = entry.id.clone();
    let x = export_local(&mut entry, "x", 0);
    export_all_from(&mut entry, &external);
    let local_x = import_as(&mut entry, &own, "x", "x2");
    let local_on = import_as(&mut entry, &own, "on", "on");
    entry.dependencies.retain(|dependency| dependency != &own);
    let (graph, outcome) = build(
        false,
        "/entry.js",
        vec![NormOrExt::Normal(entry), NormOrExt::External(ExternalModule::new(external.clone()))],
    );
    assert_eq!(outcome, Ok(()));
    assert!(graph.warnings.is_empty());
    let entry = normal(&graph, "/entry.js");
    let made = Symbol::synthesized(&own, "on", 0);
    assert_eq!(entry.synthesized, vec![made.clone()]);
    assert_eq!(entry.find_exported("on").unwrap().local_id, made);
    assert_eq!(
        entry.linked_imports,
        vec![
            (
                external,
                vec![ImportedSpecifier { imported: "on".to_string(), imported_as: made.clone() }]
            ),
            (
                own,
                vec![
                    ImportedSpecifier { imported: "on".to_string(), imported_as: local_on.clone() },
                    ImportedSpecifier { imported: "x".to_string(), imported_as: local_x.clone() },
                ]
            ),
        ]
    );
    assert!(graph.uf.same(&local_on, &made));
    assert!(graph.uf.same(&local_x, &x));
}

#[test]
fn modules_behind_a_chain_of_dynamic_imports_get_an_order() {
    let shared = module("/shared.js");
    let last = module("/last.js");
    let mut second = module("/second.js");
    depend(&mut second, &shared.id);
    second.dynamic_dependencies.push(last.id.clone());
    let mut first = module("/first.js");
    first.dynamic_dependencies.push(second.id.clone());
    let mut entry = module("/entry.js");
    entry.dynamic_dependencies.push(first.id.clone());
    let lonely = module("/lonely.js");
    let (graph, outcome) = build(
        false,
        "/entry.js",
        vec![
            NormOrExt::Normal(last),
            NormOrExt::Normal(lonely),
            NormOrExt::Normal(second),
            NormOrExt::Normal(entry),
            NormOrExt::Normal(shared),
            NormOrExt::Normal(first),
        ],
    );
    assert_eq!(outcome, Ok(()));
    assert_eq!(normal(&graph, "/entry.js").exec_order, 0);
    assert_eq!(normal(&graph, "/first.js").exec_order, 1);
    assert_eq!(normal(&graph, "/shared.js").exec_order, 2);
    assert_eq!(normal(&graph, "/second.js").exec_order, 3);
    assert_eq!(normal(&graph, "/last.js").exec_order, 4);
    assert_eq!(normal(&graph, "/lonely.js").exec_order, UNSET_EXEC_ORDER);
}

#[test]
fn dynamic_imports_in_a_circle_are_ordered_once() {
    let mut a = module("/a.js");
    let mut b = module("/b.js");
    a.dynamic_dependencies.push(b.id.clone());
    b.dynamic_dependencies.push(a.id.clone());
    let (graph, outcome) =
        build(false, "/a.js", vec![NormOrExt::Normal(b), NormOrExt::Normal(a)]);
    assert_eq!(outcome, Ok(()));
    assert_eq!(normal(&graph, "/a.js").exec_order, 0);
    assert_eq!(normal(&graph, "/b.js").exec_order, 1);
}

#[test]
fn a_wildcard_source_gets_its_namespace_object() {
    let mut m = module("/m.js");
    let a = export_local(&mut m, "a", 0);
    let mut entry = module("/entry.js");
    export_all_from(&mut entry, &m.id);
    let (graph, outcome) =
        build(false, "/entry.js", vec![NormOrExt::Normal(entry), NormOrExt::Normal(m)]);
    assert_eq!(outcome, Ok(()));
    let m = normal(&graph, "/m.js");
    assert!(m.namespace_referenced);
    assert_eq!(m.namespace_export, Some(vec![("a".to_string(), a)]));
    let entry = normal(&graph, "/entry.js");
    assert!(!entry.namespace_referenced);
    assert_eq!(entry.namespace_export, None);
}

#[test]
fn a_failed_link_leaves_the_graph_as_it_was_at_the_failure() {
    let mut m = module("/m.js");
    export_local(&mut m, "a", 0);
    let mut entry = module("/entry.js");
    depend(&mut entry, &m.id);
    import_as(&mut entry, &m.id, "a", "a");
    export_from(&mut entry, &m.id, "gone", "gone");
    let (graph, outcome) =
        build(false, "/entry.js", vec![NormOrExt::Normal(entry), NormOrExt::Normal(m)]);
    assert_eq!(outcome, Err(BuildError::missing_export("gone", "/entry.js", "/m.js")));
    assert_eq!(graph.modules.len(), 2);
    assert_eq!(normal(&graph, "/m.js").exec_order, 0);
    assert_eq!(normal(&graph, "/entry.js").exec_order, 1);
    assert!(normal(&graph, "/entry.js").linked_imports.is_empty());
    assert!(graph.warnings.is_empty());
    assert_eq!(normal(&graph, "/m.js").namespace_export, None);
}

fn has_no_key_twice<K: PartialEq, V>(table: &[(K, V)]) -> bool {
    (0..table.len()).all(|i| (0..i).all(|j| table[i].0 != table[j].0))
}

#[test]
fn no_table_holds_a_key_twice_after_a_build() {
    let lodash = ModuleId::new("lodash", true);
    let mut m = module("/m.js");
    export_local(&mut m, "a", 0);
    export_local(&mut m, "b", 1);
    let mut n = module("/n.js");
    export_local(&mut n, "a", 0);
    export_all_from(&mut n, &m.id);
    export_from(&mut n, &lodash, "map", "map");
    let mut entry = module("/entry.js");
    depend(&mut entry, &m.id);
    depend(&mut entry, &n.id);
    import_as(&mut entry, &m.id, "a", "a");
    import_as(&mut entry, &m.id, "b", "b");
    import_as(&mut entry, &m.id, "ghost", "ghost");
    import_as(&mut entry, &n.id, "a", "other");
    import_as(&mut entry, &lodash, "map", "map");
    import_as(&mut entry, &lodash, "map", "again");
    export_all_from(&mut entry, &m.id);
    export_all_from(&mut entry, &n.id);
    let (graph, outcome) = build(
        true,
        "/entry.js",
        vec![
            NormOrExt::Normal(entry),
            NormOrExt::Normal(n),
            NormOrExt::Normal(m),
            NormOrExt::External(ExternalModule::new(lodash.clone())),
        ],
    );
    assert_eq!(outcome, Ok(()));
    for path in ["/entry.js", "/n.js", "/m.js"] {
        let module = normal(&graph, path);
        assert!(has_no_key_twice(&module.linked_exports));
        assert!(has_no_key_twice(&module.linked_imports));
        assert!(has_no_key_twice(&module.suggested_names));
        assert!(has_no_key_twice(&module.imports));
        for (_, specs) in module.linked_imports.iter() {
            assert!((0..specs.len()).all(|i| (0..i).all(|j| specs[i] != specs[j])));
        }
        for (i, symbol) in module.synthesized.iter().enumerate() {
            assert_eq!(*symbol, Symbol::synthesized(&module.id, symbol.name(), i));
        }
    }
    match graph.fetch_module(&lodash).unwrap() {
        NormOrExt::External(external) => assert!(has_no_key_twice(&external.exported_symbols)),
        NormOrExt::Normal(_) => panic!("lodash is external"),
    }
    let m = normal(&graph, "/m.js");
    assert_eq!(m.synthesized.len(), 1);
    assert!(m.synthesized[0].is_synthesized());
}

#[test]
fn default_reaches_no_module_through_a_wildcard() {
    let mut m = module("/m.js");
    export_local(&mut m, "default", 0);
    export_local(&mut m, "a", 1);
    let mut middle = module("/middle.js");
    export_all_from(&mut middle, &m.id);
    let mut entry = module("/entry.js");
    export_all_from(&mut entry, &middle.id);
    let (graph, outcome) = build(
        false,
        "/entry.js",
        vec![NormOrExt::Normal(entry), NormOrExt::Normal(middle), NormOrExt::Normal(m)],
    );
    assert_eq!(outcome, Ok(()));
    assert!(normal(&graph, "/m.js").find_exported("default").is_some());
    assert!(normal(&graph, "/middle.js").find_exported("default").is_none());
    assert!(normal(&graph, "/entry.js").find_exported("default").is_none());
    assert!(normal(&graph, "/middle.js").find_exported("a").is_some());
    assert!(normal(&graph, "/entry.js").find_exported("a").is_some());
}

#[test]
fn a_failed_imports_pass_keeps_what_the_exports_pass_made() {
    let mut m = module("/m.js");
    let a = export_local(&mut m, "a", 0);
    let mut entry = module("/entry.js");
    export_from(&mut entry, &m.id, "a", "b");
    import_as(&mut entry, &m.id, "gone", "gone");
    let (graph, outcome) =
        build(false, "/entry.js", vec![NormOrExt::Normal(entry), NormOrExt::Normal(m)]);
    assert_eq!(outcome, Err(BuildError::missing_export("gone", "/entry.js", "/m.js")));
    assert_eq!(graph.modules.len(), 2);
    assert!(graph.contains(&id("/m.js")) && graph.contains(&id("/entry.js")));
    let entry = normal(&graph, "/entry.js");
    assert_eq!(entry.find_exported("b").unwrap().local_id, a);
    assert!(entry.linked_imports.is_empty());
    assert_eq!(entry.namespace_export, None);
}
