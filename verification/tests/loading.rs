use rolldown_core::dep_graph::{
    parse_to_statements, resolved_or_external, resove_module_by_resolved_id, DynImportDesc,
    ImportDesc, ModOrExt, StatementNode,
};
use rolldown_core::error::BuildError;
use rolldown_core::graph::Graph;
use rolldown_core::ident::{is_default, is_star, str_eq, ModuleId, Symbol};
use rolldown_core::module::{NormOrExt, NormalModule};
use rolldown_core::module_loader::module_task::{
    entry_id, extract_loader_by_path, has_suffix, plan_parse, resolve_dependencies, resolve_id,
    resolve_id_marked, resolve_id_resolved, resolve_id_resolved_marked, resolved_by_path,
    select_loader, specifiers_to_resolve, IdProgress, IdQuestion, Pass,
};
use rolldown_core::module_loader::task_result::{ScanResult, TaskResult};
use rolldown_core::module_loader::{references_of, ModuleLoader};
use rolldown_core::options::{BuiltinsOptions, InputOptions, TsConfig};
use rolldown_core::plugin::{LoadOutput, Loader, ResolvedId};
use rolldown_core::plugin_driver::{
    BuildPluginDriver, HookStep, TransformAnswer, TransformStep, Transformed,
};
use rolldown_core::resolver::Resolver;
use rolldown_core::specifier::{ExportedSpecifier, ImportedSpecifier, ReExportedSpecifier};
use rolldown_core::test_config::{ExpectedError, OutputOptions, TestConfig};
use rolldown_core::union_find::UnionFind;

fn id(path: &str) -> ModuleId {
    ModuleId::new(path, false)
}

#[test]
fn loader_follows_the_extension() {
    assert_eq!(extract_loader_by_path("/src/a.js"), Loader::Js);
    assert_eq!(extract_loader_by_path("/src/a.jsx"), Loader::Jsx);
    assert_eq!(extract_loader_by_path("/src/a.ts"), Loader::Ts);
    assert_eq!(extract_loader_by_path("/src/a.tsx"), Loader::Tsx);
    assert_eq!(extract_loader_by_path("/src/a.json"), Loader::Json);
    assert_eq!(extract_loader_by_path("/src/a.css"), Loader::Js);
    assert_eq!(extract_loader_by_path("ts"), Loader::Js);
    assert!(has_suffix("a.ts", ".ts"));
    assert!(!has_suffix("ts", ".ts"));
    assert!(has_suffix("anything", ""));
}

#[test]
fn plugin_loader_wins_over_extension_and_extension_over_default() {
    let mut options = InputOptions::with_cwd("/");
    assert_eq!(select_loader(None, &options, "/a.tsx"), Loader::Js);
    assert_eq!(select_loader(Some(Loader::Json), &options, "/a.tsx"), Loader::Json);
    options.builtins.detect_loader_by_ext = true;
    assert_eq!(select_loader(None, &options, "/a.tsx"), Loader::Tsx);
    assert_eq!(select_loader(Some(Loader::Jsx), &options, "/a.tsx"), Loader::Jsx);
}

#[test]
fn parse_plans() {
    let mut options = InputOptions::with_cwd("/");
    let js = plan_parse(&id("/a.js"), Loader::Js, &options).unwrap();
    assert!(!js.typescript && !js.jsx);
    assert!(js.passes.is_empty());

    let jsx = plan_parse(&id("/a.jsx"), Loader::Jsx, &options).unwrap();
    assert!(!jsx.typescript && jsx.jsx);
    assert_eq!(jsx.passes, vec![Pass::React]);

    options.builtins.tsconfig = Some(TsConfig { use_define_for_class_fields: true });
    let ts = plan_parse(&id("/a.ts"), Loader::Ts, &options).unwrap();
    assert!(ts.typescript && !ts.jsx);
    assert_eq!(
        ts.passes,
        vec![
            Pass::Decorators { use_define_for_class_fields: true },
            Pass::Resolver,
            Pass::StripTypes,
            Pass::Hygiene,
            Pass::Fixer,
            Pass::InjectHelpers,
            Pass::CleanAst,
        ]
    );

    options.builtins.tsconfig = None;
    let tsx = plan_parse(&id("/a.tsx"), Loader::Tsx, &options).unwrap();
    assert!(tsx.typescript && tsx.jsx);
    assert_eq!(
        tsx.passes,
        vec![
            Pass::Decorators { use_define_for_class_fields: false },
            Pass::Resolver,
            Pass::StripTypesWithJsx,
            Pass::React,
            Pass::Hygiene,
            Pass::Fixer,
            Pass::InjectHelpers,
            Pass::CleanAst,
        ]
    );

    assert_eq!(
        plan_parse(&id("/a.json"), Loader::Json, &options).unwrap_err(),
        BuildError::parse_js_failed("/a.json", "the json loader is not implemented")
    );
}

fn asked_is_external(
    progress: &IdProgress,
    specifier: &str,
    already_resolved: bool,
    plugin_external: bool,
) -> bool {
    match progress {
        IdProgress::Ask(IdQuestion::IsExternal {
            specifier: asked,
            already_resolved: resolved,
            plugin_external: marked,
        }) => asked == specifier && *resolved == already_resolved && *marked == plugin_external,
        _ => false,
    }
}

#[test]
fn resolving_an_id_step_by_step() {
    assert!(asked_is_external(&resolve_id("./m"), "./m", false, false));

    match resolve_id_marked("lodash", true) {
        IdProgress::Done(done) => assert_eq!(done, ModuleId::new("lodash", true)),
        other => panic!("unexpected {:?}", other),
    }
    match resolve_id_marked("./m", false) {
        IdProgress::Ask(IdQuestion::Resolve { specifier }) => assert_eq!(specifier, "./m"),
        other => panic!("unexpected {:?}", other),
    }

    let found = ResolvedId::new("/src/m.js", false);
    assert!(asked_is_external(&resolve_id_resolved("./m", Some(&found)), "/src/m.js", true, false));
    match resolve_id_resolved("missing", None) {
        IdProgress::Done(done) => assert_eq!(done, ModuleId::new("missing", true)),
        other => panic!("unexpected {:?}", other),
    }

    assert_eq!(
        resolve_id_resolved_marked("/src/m.js", false, false),
        ModuleId::new("/src/m.js", false)
    );
    assert_eq!(
        resolve_id_resolved_marked("/src/m.js", false, true),
        ModuleId::new("/src/m.js", true)
    );
}

#[test]
fn an_id_that_a_plugin_marks_external_is_external() {
    let found = ResolvedId::new("/x.js", true);
    let progress = resolve_id_resolved("x", Some(&found));
    assert!(asked_is_external(&progress, "/x.js", true, true));
    assert_eq!(resolve_id_resolved_marked("/x.js", true, false), ModuleId::new("/x.js", true));
    assert_eq!(resolve_id_resolved_marked("/x.js", true, true), ModuleId::new("/x.js", true));
}

#[test]
fn the_answer_of_the_path_resolver_is_a_path_or_nothing() {
    match resolved_by_path(false, Ok("/src/m.js".to_string())) {
        Ok(Some(found)) => {
            assert_eq!(found.id, "/src/m.js");
            assert!(!found.external);
        }
        other => panic!("unexpected {:?}", other),
    }
    match resolved_by_path(true, Ok("/src/main.js".to_string())) {
        Ok(Some(found)) => {
            assert_eq!(found.id, "/src/main.js");
            assert!(!found.external);
        }
        other => panic!("unexpected {:?}", other),
    }
    let missing = BuildError::unresolved_import("./m", "/src/a.js");
    assert!(matches!(resolved_by_path(false, Err(missing)), Ok(None)));
    let entry = BuildError::unresolved_entry("./main");
    match resolved_by_path(true, Err(entry)) {
        Err(error) => assert_eq!(error, BuildError::unresolved_entry("./main")),
        other => panic!("unexpected {:?}", other),
    }
}

#[test]
fn an_entry_is_what_was_found_for_it() {
    let found = ResolvedId::new("/src/main.js", true);
    assert_eq!(entry_id("./main", Ok(Some(found))).unwrap(), ModuleId::new("/src/main.js", false));
    assert_eq!(entry_id("./main", Ok(None)).unwrap_err(), BuildError::unresolved_entry("./main"));
    assert_eq!(
        entry_id("./main", Err(BuildError::io_error("read", "denied"))).unwrap_err(),
        BuildError::io_error("read", "denied")
    );
}

#[test]
fn each_specifier_is_resolved_once() {
    let fixed = vec!["./a".to_string(), "./b".to_string(), "./a".to_string()];
    let dynamic = vec!["./c".to_string(), "./b".to_string(), "./d".to_string()];
    assert_eq!(specifiers_to_resolve(&fixed, &dynamic), vec!["./a", "./b", "./c", "./d"]);
    assert!(specifiers_to_resolve(&Vec::new(), &Vec::new()).is_empty());
}

#[test]
fn resolved_dependencies_are_gathered_or_all_errors_returned() {
    let ok = resolve_dependencies(vec![
        Ok(("./a".to_string(), id("/a.js"))),
        Ok(("./b".to_string(), id("/b.js"))),
        Ok(("./a".to_string(), id("/a2.js"))),
    ]);
    assert_eq!(
        ok,
        Ok(vec![("./a".to_string(), id("/a2.js")), ("./b".to_string(), id("/b.js"))])
    );

    let failed = resolve_dependencies(vec![
        Err(BuildError::unresolved_import("./x", "/entry.js")),
        Ok(("./a".to_string(), id("/a.js"))),
        Err(BuildError::io_error("Read file: /y.js", "denied")),
    ]);
    assert_eq!(
        failed,
        Err(vec![
            BuildError::unresolved_import("./x", "/entry.js"),
            BuildError::io_error("Read file: /y.js", "denied"),
        ])
    );

    assert_eq!(resolve_dependencies(vec![]), Ok(vec![]));
}

#[test]
fn the_first_plugin_that_answers_wins() {
    let none = BuildPluginDriver::new(0);
    assert!(matches!(none.first::<ResolvedId>(), HookStep::Done(None)));

    let driver = BuildPluginDriver::new(3);
    assert!(matches!(driver.first::<ResolvedId>(), HookStep::Call(0)));
    assert!(matches!(driver.resolve(0, Ok(None)), HookStep::Call(1)));
    match driver.resolve(1, Ok(Some(ResolvedId::new("/found.js", false)))) {
        HookStep::Done(Some(found)) => {
            assert_eq!(found.id, "/found.js");
            assert!(!found.external);
        }
        other => panic!("unexpected {:?}", other),
    }
    assert!(matches!(driver.resolve(2, Ok(None)), HookStep::Done(None)));
    match driver.load(0, Err(BuildError::io_error("load", "broken"))) {
        HookStep::Failed(error) => assert_eq!(error, BuildError::io_error("load", "broken")),
        other => panic!("unexpected {:?}", other),
    }
    match driver.load(2, Ok(Some(LoadOutput { code: "x".to_string(), loader: Some(Loader::Ts) })))
    {
        HookStep::Done(Some(output)) => {
            assert_eq!(output.code, "x");
            assert_eq!(output.loader, Some(Loader::Ts));
        }
        other => panic!("unexpected {:?}", other),
    }
}

#[test]
fn transforms_are_applied_in_sequence() {
    let none = BuildPluginDriver::new(0);
    match none.transform_first("code".to_string(), Loader::Js) {
        TransformStep::Done(state) => {
            assert_eq!(state.code, "code");
            assert_eq!(state.loader, Loader::Js);
        }
        other => panic!("unexpected {:?}", other),
    }

    let driver = BuildPluginDriver::new(2);
    let state = match driver.transform_first("one".to_string(), Loader::Ts) {
        TransformStep::Call { plugin: 0, state } => state,
        other => panic!("unexpected {:?}", other),
    };
    let state = match driver.transform(
        0,
        state,
        Ok(TransformAnswer { code: Some("two".to_string()), loader: Loader::Js }),
    ) {
        TransformStep::Call { plugin: 1, state } => state,
        other => panic!("unexpected {:?}", other),
    };
    assert_eq!(state.code, "two");
    assert_eq!(state.loader, Loader::Js);
    match driver.transform(1, state, Ok(TransformAnswer { code: None, loader: Loader::Jsx })) {
        TransformStep::Done(state) => {
            assert_eq!(state.code, "two");
            assert_eq!(state.loader, Loader::Jsx);
        }
        other => panic!("unexpected {:?}", other),
    }
    let failed = driver.transform(
        0,
        Transformed { code: "x".to_string(), loader: Loader::Js },
        Err(BuildError::io_error("transform", "broken")),
    );
    assert!(matches!(failed, TransformStep::Failed(_)));
}

#[test]
fn resolver_setup_and_outcomes() {
    let resolver = Resolver::with_cwd("/work".to_string(), false);
    assert_eq!(resolver.cwd(), "/work");
    assert!(resolver.options.symlinks);
    assert!(resolver.options.prefer_relative);
    assert_eq!(resolver.options.extensions, vec![".js", ".jsx", ".ts", ".tsx"]);
    assert!(!Resolver::with_cwd("/work".to_string(), true).options.symlinks);

    assert_eq!(resolver.importer_dir(None), Some("/work".to_string()));
    assert_eq!(resolver.importer_dir(Some("/src/app/main.js")), Some("/src/app".to_string()));
    assert_eq!(resolver.importer_dir(Some("/")), None);

    assert_eq!(
        Resolver::resolve(Some("/src/a.js"), "./b", Some("/src/b.js".to_string())),
        Ok("/src/b.js".to_string())
    );
    assert_eq!(
        Resolver::resolve(Some("/src/a.js"), "./b", None),
        Err(BuildError::unresolved_import("./b", "/src/a.js"))
    );
    assert_eq!(Resolver::resolve(None, "./entry", None), Err(BuildError::unresolved_entry("./entry")));
}

fn scanned(path: &str, dependencies: &[&ModuleId]) -> NormalModule {
    let mut module = NormalModule::new(id(path), false);
    for dependency in dependencies {
        module.dependencies.push((*dependency).clone());
    }
    module
}

#[test]
fn every_module_is_loaded_once() {
    let mut graph = Graph::new(InputOptions::with_cwd("/"));
    let mut loader = ModuleLoader::new();
    assert!(loader.is_done());

    let entry = id("/entry.js");
    let shared = id("/shared.js");
    let other = id("/other.js");
    let fs = ModuleId::new("fs", true);

    assert!(loader.add_entry(&mut graph, entry.clone()));
    assert!(!loader.add_entry(&mut graph, entry.clone()));
    assert_eq!(loader.in_flight(), 1);

    let spawn = loader.on_scanned(&mut graph, scanned("/entry.js", &[&shared, &fs, &other, &shared]));
    assert_eq!(spawn, vec![shared.clone(), other.clone()]);
    assert_eq!(loader.in_flight(), 2);
    assert!(graph.contains(&fs));
    assert!(graph.contains(&entry));

    let stray = loader.on_scanned(&mut graph, scanned("/stray.js", &[]));
    assert!(stray.is_empty());
    assert!(!graph.contains(&id("/stray.js")));

    let spawn = loader.on_scanned(&mut graph, scanned("/shared.js", &[&other, &entry]));
    assert!(spawn.is_empty());
    let spawn = loader.on_scanned(&mut graph, scanned("/other.js", &[]));
    assert!(spawn.is_empty());
    assert!(loader.is_done());
    assert_eq!(loader.visited.len(), 4);

    assert_eq!(loader.fetch_all_modules(&graph), Ok(()));
    assert_eq!(graph.modules.len(), 4);
    assert_eq!(graph.entries, vec![entry.clone(), entry]);
    assert!(graph.is_closed());
    assert_eq!(graph.generate_module_graph(), Ok(()));
}

#[test]
fn a_failed_task_does_not_stop_the_others() {
    let mut graph = Graph::new(InputOptions::with_cwd("/"));
    let mut loader = ModuleLoader::new();
    let entry = id("/entry.js");
    let broken = id("/broken.js");
    let fine = id("/fine.js");
    assert!(loader.add_entry(&mut graph, entry));
    let spawn = loader.on_scanned(&mut graph, scanned("/entry.js", &[&broken, &fine]));
    assert_eq!(spawn.len(), 2);
    loader.on_error(
        &graph,
        &broken,
        vec![BuildError::parse_js_failed("/broken.js", "unexpected token")],
    );
    assert!(!loader.is_done());
    assert!(loader.on_scanned(&mut graph, scanned("/fine.js", &[])).is_empty());
    assert!(loader.is_done());
    assert!(graph.contains(&fine));
    assert!(!graph.is_closed());
    assert_eq!(loader.failed, vec![broken]);
    assert_eq!(
        loader.fetch_all_modules(&graph),
        Err(vec![BuildError::parse_js_failed("/broken.js", "unexpected token")])
    );
}

#[test]
fn a_task_result_becomes_a_module() {
    let me = id("/entry.js");
    let a = Symbol::new(&me, "a", 0);
    let b = Symbol::new(&me, "b", 0);
    let own = Symbol::new(&me, "own", 0);
    let import_a = ImportedSpecifier { imported: "a".to_string(), imported_as: a };
    let import_b = ImportedSpecifier { imported: "b".to_string(), imported_as: b };
    let re_export = ReExportedSpecifier { imported: "x".to_string(), exported_as: "y".to_string() };
    let local = ExportedSpecifier {
        exported_as: "own".to_string(),
        local_id: own,
        owner: me.clone(),
    };
    let scan = || ScanResult {
        dependencies: vec!["./m".to_string(), "./m.js".to_string(), "fs".to_string()],
        dyn_dependencies: vec!["./lazy".to_string()],
        imports: vec![
            ("./m".to_string(), vec![import_a.clone()]),
            ("./m.js".to_string(), vec![import_b.clone(), import_a.clone()]),
        ],
        re_exported_ids: vec![("fs".to_string(), vec![re_export.clone()])],
        re_export_all: vec!["./m".to_string()],
        local_exports: vec![("own".to_string(), local.clone())],
    };
    let m = id("/m.js");
    let fs = ModuleId::new("fs", true);
    let lazy = id("/lazy.js");
    let resolved = vec![
        ("./m".to_string(), m.clone()),
        ("./m.js".to_string(), m.clone()),
        ("fs".to_string(), fs.clone()),
        ("./lazy".to_string(), lazy.clone()),
    ];
    let module = TaskResult {
        module_id: me.clone(),
        scan_result: scan(),
        resolved_ids: resolved.clone(),
        is_user_defined_entry: true,
    }
    .into_module()
    .unwrap();
    assert_eq!(module.id, me);
    assert!(module.is_user_defined_entry);
    assert_eq!(module.dependencies, vec![m.clone(), fs.clone()]);
    assert_eq!(module.dynamic_dependencies, vec![lazy.clone()]);
    assert_eq!(module.imports, vec![(m.clone(), vec![import_a.clone(), import_b.clone()])]);
    assert_eq!(module.re_exported_ids, vec![(fs.clone(), vec![re_export.clone()])]);
    assert_eq!(module.re_export_all, vec![m.clone()]);
    assert_eq!(module.linked_exports, vec![("own".to_string(), local.clone())]);
    assert!(module.linked_imports.is_empty());
    assert_eq!(references_of(&module), vec![m.clone(), fs.clone(), lazy, m.clone(), fs, m]);

    let unresolved = TaskResult {
        module_id: me,
        scan_result: scan(),
        resolved_ids: resolved[..3].to_vec(),
        is_user_defined_entry: false,
    };
    assert!(unresolved.into_module().is_none());
}

#[test]
fn union_find_joins_classes() {
    let owner = id("/a.js");
    let a = Symbol::new(&owner, "a", 0);
    let b = Symbol::new(&owner, "b", 0);
    let c = Symbol::new(&owner, "c", 0);
    let d = Symbol::new(&owner, "d", 0);
    let mut uf = UnionFind::new();
    assert!(uf.same(&a, &a));
    assert!(!uf.same(&a, &b));
    uf.union(&a, &b);
    uf.union(&c, &d);
    assert!(uf.same(&a, &b) && uf.same(&b, &a));
    assert!(uf.same(&c, &d));
    assert!(!uf.same(&a, &c));
    assert_eq!(uf.find(&a), b);
    uf.union(&b, &c);
    assert!(uf.same(&a, &d));
    assert_eq!(uf.find(&a), d);
    uf.union(&a, &a);
    assert_eq!(uf.find(&a), d);
    assert!(!uf.same(&a, &Symbol::new(&owner, "e", 0)));
    let lone = Symbol::new(&owner, "a", 1);
    assert!(!uf.same(&a, &lone));
    assert_eq!(uf.find(&lone), lone);
}

#[test]
fn identities_and_names() {
    let normal = ModuleId::new("/a.js", false);
    let external = ModuleId::new("/a.js", true);
    assert_ne!(normal, external);
    assert_eq!(normal.clone(), normal);
    assert_ne!(Symbol::new(&normal, "x", 0), Symbol::new(&normal, "x", 1));
    assert_ne!(Symbol::new(&normal, "x", 0), Symbol::new(&external, "x", 0));
    assert_ne!(Symbol::new(&normal, "x", 0), Symbol::new(&normal, "y", 0));
    assert!(!Symbol::new(&normal, "x", u64::MAX).is_synthesized());
    let made = Symbol::synthesized(&normal, "x", 3);
    assert!(made.is_synthesized());
    assert_eq!(made.disambiguator, (1u128 << 64) + 3);
    assert_eq!(made.name(), "x");
    assert!(is_star("*") && !is_star("**") && !is_star(""));
    assert!(is_default("default") && !is_default("Default"));
    assert!(str_eq("", "") && !str_eq("a", "ab"));
}

#[test]
fn warnings_are_told_from_errors() {
    assert!(BuildError::shimmed_export("a", "/m.js").is_warning());
    assert!(BuildError::ambiguous_external_namespaces("a", "/m.js", "x", vec![]).is_warning());
    assert!(!BuildError::missing_export("a", "/e.js", "/m.js").is_warning());
    assert!(!BuildError::circular_reexport("a", "/m.js").is_warning());
    assert!(!BuildError::unresolved_entry("a").is_warning());
    assert!(!BuildError::unresolved_import("a", "/m.js").is_warning());
    assert!(!BuildError::parse_js_failed("/m.js", "bad").is_warning());
    assert!(!BuildError::io_error("read", "bad").is_warning());
}

#[test]
fn resolved_ids_become_modules_or_external_modules() {
    match resove_module_by_resolved_id(ResolvedId::new("/src/a.js", false)) {
        ModOrExt::Mod(module) => {
            assert_eq!(module.id, "/src/a.js");
            assert!(module.source.is_empty());
            assert!(module.statements.is_empty());
        }
        ModOrExt::Ext(_) => panic!("a module was expected"),
    }
    match resove_module_by_resolved_id(ResolvedId::new("fs", true)) {
        ModOrExt::Ext(external) => assert_eq!(external.id, "fs"),
        ModOrExt::Mod(_) => panic!("an external module was expected"),
    }
}

#[test]
fn statements_keep_the_order_of_the_body() {
    let body = vec![
        StatementNode::Import(ImportDesc {
            source: "./a".to_string(),
            names: vec![("x".to_string(), "y".to_string())],
        }),
        StatementNode::ExportAll { source: "./b".to_string() },
        StatementNode::Other {
            dynamic_imports: vec![DynImportDesc { argument: "./c".to_string() }],
        },
    ];
    let statements = parse_to_statements(body);
    assert_eq!(statements.len(), 3);
    assert!(statements.iter().all(|statement| !statement.included));
    assert!(matches!(&statements[0].node, StatementNode::Import(import) if import.source == "./a"));
    assert!(matches!(&statements[1].node, StatementNode::ExportAll { source } if source == "./b"));
    assert!(matches!(
        &statements[2].node,
        StatementNode::Other { dynamic_imports } if dynamic_imports[0].argument == "./c"
    ));
    assert!(parse_to_statements(vec![]).is_empty());
}

#[test]
fn options_have_their_defaults() {
    assert!(!TsConfig::default().use_define_for_class_fields);
    let builtins = BuiltinsOptions::default();
    assert_eq!(builtins.tsconfig, Some(TsConfig { use_define_for_class_fields: false }));
    assert!(!builtins.detect_loader_by_ext);
    let options = InputOptions::with_cwd("/work");
    assert_eq!(options.cwd, "/work");
    assert!(options.treeshake);
    assert!(!options.shim_missing_exports);
    assert!(!options.preserve_symlinks);
    assert!(options.input.is_empty());
    let case = TestConfig {
        input: options,
        output: OutputOptions { dir: None },
        expected_error: Some(ExpectedError {
            code: "MISSING_EXPORT".to_string(),
            message: "missing".to_string(),
        }),
    };
    assert!(case.expects_failure());
}

#[test]
fn a_graph_hands_out_its_modules() {
    let mut graph = Graph::new(InputOptions::with_cwd("/"));
    let a = id("/a.js");
    assert!(graph.fetch_module(&a).is_none());
    assert_eq!(graph.index_of(&a), None);
    graph.add_module(NormOrExt::Normal(NormalModule::new(a.clone(), true)));
    assert_eq!(graph.index_of(&a), Some(0));
    let fetched = graph.fetch_module(&a).unwrap();
    assert!(!fetched.is_external());
    assert_eq!(fetched.id(), &a);
    assert_eq!(fetched.exec_order(), usize::MAX);
}

#[test]
fn a_specifier_that_is_not_found_is_an_external_module() {
    let found = resolved_or_external("./a", Some("/src/a.js".to_string()));
    assert_eq!(found.id, "/src/a.js");
    assert!(!found.external);
    let missing = resolved_or_external("fs", None);
    assert_eq!(missing.id, "fs");
    assert!(missing.external);
}

#[test]
fn an_entry_that_is_not_found_fails_the_load_in_the_end() {
    let mut graph = Graph::new(InputOptions::with_cwd("/"));
    let mut loader = ModuleLoader::new();
    loader.on_entry_error(&graph, BuildError::unresolved_entry("./gone"));
    assert!(loader.add_entry(&mut graph, id("/entry.js")));
    assert!(!loader.is_done());
    assert!(loader.on_scanned(&mut graph, scanned("/entry.js", &[])).is_empty());
    assert!(loader.is_done());
    assert!(graph.contains(&id("/entry.js")));
    assert_eq!(
        loader.fetch_all_modules(&graph),
        Err(vec![BuildError::unresolved_entry("./gone")])
    );
}
