use rolldown_core::dep_graph::{
    analyse_external_module, analyse_mod_or_ext, analyse_module, analyse_statement, Analysed,
    DynImportDesc, ExternalModule, GraphContainer, ImportCycle, ImportDesc, ModOrExt, Module, Rel,
    ReExportDesc, Statement, StatementNode,
};

fn module(id: &str) -> Module {
    Module::new(id.to_string())
}

fn import(source: &str) -> Rel {
    Rel::Import(ImportDesc { source: source.to_string(), names: vec![] })
}

#[test]
fn a_new_container_is_empty() {
    let container = GraphContainer::new("/entry.js".to_string());
    assert_eq!(container.entry_path, "/entry.js");
    assert_eq!(container.node_count(), 0);
    assert!(container.edges().is_empty());
    assert!(container.entries.is_empty());
    assert!(container.ordered_modules.is_empty());
}

#[test]
fn a_module_enters_the_graph_once() {
    let mut container = GraphContainer::new("/entry.js".to_string());
    let mut seen = Vec::new();
    let entry = analyse_module(&mut container, &mut seen, module("/entry.js"), None, Rel::ReExportAll);
    assert_eq!(entry, Analysed::Node { node: 0, first_seen: true });
    assert_eq!(container.node_count(), 1);
    assert!(container.edges().is_empty());

    let a = analyse_module(&mut container, &mut seen, module("/a.js"), Some(0), import("./a"));
    assert_eq!(a, Analysed::Node { node: 1, first_seen: true });
    let again = analyse_module(&mut container, &mut seen, module("/a.js"), Some(0), import("./a"));
    assert_eq!(again, Analysed::Node { node: 1, first_seen: false });
    assert_eq!(container.node_count(), 2);
    assert_eq!(container.edges(), vec![(0, 1), (0, 1)]);
    assert_eq!(seen, vec![("/entry.js".to_string(), 0), ("/a.js".to_string(), 1)]);

    let orphan = analyse_module(&mut container, &mut seen, module("/b.js"), Some(7), import("./b"));
    assert_eq!(orphan, Analysed::Refused);
    assert_eq!(container.node_count(), 2);
    assert_eq!(container.edges().len(), 2);
}

#[test]
fn an_external_module_is_a_node_of_its_own_each_time() {
    let mut container = GraphContainer::new("/entry.js".to_string());
    let mut seen = Vec::new();
    analyse_module(&mut container, &mut seen, module("/entry.js"), None, Rel::ReExportAll);
    let fs = ExternalModule::new("fs".to_string());
    assert_eq!(
        analyse_external_module(&mut container, fs, 0, import("fs")),
        Analysed::Node { node: 1, first_seen: true }
    );
    let fs = ModOrExt::Ext(ExternalModule::new("fs".to_string()));
    assert_eq!(
        analyse_mod_or_ext(&mut container, &mut seen, fs, 0, import("fs")),
        Analysed::Node { node: 2, first_seen: true }
    );
    let a = ModOrExt::Mod(module("/a.js"));
    assert_eq!(
        analyse_mod_or_ext(&mut container, &mut seen, a, 2, Rel::ReExportAll),
        Analysed::Node { node: 3, first_seen: true }
    );
    assert_eq!(container.edges(), vec![(0, 1), (0, 2), (2, 3)]);
    assert_eq!(
        analyse_external_module(&mut container, ExternalModule::new("os".to_string()), 9, import("os")),
        Analysed::Refused
    );
    assert_eq!(container.node_count(), 4);
}

#[test]
fn modules_are_sorted_before_what_they_refer_to() {
    let mut container = GraphContainer::new("/entry.js".to_string());
    let mut seen = Vec::new();
    analyse_module(&mut container, &mut seen, module("/entry.js"), None, Rel::ReExportAll);
    analyse_module(&mut container, &mut seen, module("/a.js"), Some(0), import("./a"));
    analyse_module(&mut container, &mut seen, module("/b.js"), Some(0), import("./b"));
    analyse_module(&mut container, &mut seen, module("/c.js"), Some(1), import("./c"));
    analyse_module(&mut container, &mut seen, module("/c.js"), Some(2), import("./c"));
    assert_eq!(container.sort_modules(), Ok(()));
    let order = container.ordered_modules.clone();
    assert_eq!(order.len(), 4);
    let position = |node: u32| order.iter().position(|&n| n == node).unwrap();
    for (from, to) in container.edges() {
        assert!(position(from) < position(to));
    }
    assert_eq!(order[0], 0);
    assert_eq!(order[3], 3);
}

#[test]
fn a_cycle_cannot_be_sorted() {
    let mut container = GraphContainer::new("/a.js".to_string());
    let mut seen = Vec::new();
    analyse_module(&mut container, &mut seen, module("/a.js"), None, Rel::ReExportAll);
    analyse_module(&mut container, &mut seen, module("/b.js"), Some(0), import("./b"));
    analyse_module(&mut container, &mut seen, module("/a.js"), Some(1), import("./a"));
    container.ordered_modules = vec![5];
    match container.sort_modules() {
        Err(ImportCycle { node }) => assert!(node < 2),
        Ok(()) => panic!("a cycle has no order"),
    }
    assert_eq!(container.ordered_modules, vec![5]);
}

#[test]
fn a_statement_asks_for_the_modules_that_it_names() {
    let requests = analyse_statement(Statement::new(StatementNode::Import(ImportDesc {
        source: "./a".to_string(),
        names: vec![("x".to_string(), "y".to_string())],
    })));
    assert_eq!(requests.len(), 1);
    assert_eq!(requests[0].0, "./a");
    assert!(matches!(&requests[0].1, Rel::Import(desc) if desc.names.len() == 1));

    let requests = analyse_statement(Statement::new(StatementNode::ReExport(ReExportDesc {
        source: "./b".to_string(),
        names: vec![],
    })));
    assert!(matches!(&requests[0], (source, Rel::ReExport(_)) if source == "./b"));

    let requests =
        analyse_statement(Statement::new(StatementNode::ExportAll { source: "./c".to_string() }));
    assert!(matches!(&requests[0], (source, Rel::ReExportAll) if source == "./c"));

    let requests = analyse_statement(Statement::new(StatementNode::Other {
        dynamic_imports: vec![
            DynImportDesc { argument: "./first".to_string() },
            DynImportDesc { argument: "./second".to_string() },
        ],
    }));
    let sources: Vec<&str> = requests.iter().map(|(source, _)| source.as_str()).collect();
    assert_eq!(sources, vec!["./first", "./second"]);
    assert!(requests.iter().all(|(_, rel)| matches!(rel, Rel::DynImport(_))));

    assert!(analyse_statement(Statement::new(StatementNode::Other { dynamic_imports: vec![] }))
        .is_empty());
}
