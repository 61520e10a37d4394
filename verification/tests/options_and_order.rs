use rolldown_core::binding::{
    resolve_input_options, BuiltinsOptions as HostBuiltins, InputOptions as HostOptions,
    TsConfigOptions,
};
use rolldown_core::graph::link_imports::{is_name_le, sorted_by_imported};
use rolldown_core::graph::order::compute_post_order;
use rolldown_core::ident::{ModuleId, Symbol};
use rolldown_core::options::TsConfig;
use rolldown_core::specifier::ImportedSpecifier;

fn host(cwd: &str, treeshake: Option<bool>) -> HostOptions {
    HostOptions {
        input: vec![
            ("main".to_string(), "./entry".to_string()),
            ("other".to_string(), "./other".to_string()),
        ],
        preserve_symlinks: true,
        shim_missing_exports: true,
        treeshake,
        cwd: cwd.to_string(),
        builtins: HostBuiltins {
            tsconfig: Some(TsConfigOptions { use_define_for_class_fields: true }),
        },
    }
}

#[test]
fn host_options_become_build_options() {
    let options = resolve_input_options(host("/work", None));
    assert!(options.treeshake);
    assert_eq!(options.cwd, "/work");
    assert!(options.preserve_symlinks);
    assert!(options.shim_missing_exports);
    assert_eq!(options.builtins.tsconfig, Some(TsConfig { use_define_for_class_fields: true }));
    assert!(!options.builtins.detect_loader_by_ext);
    let names: Vec<(&str, &str)> =
        options.input.iter().map(|item| (item.name.as_str(), item.import.as_str())).collect();
    assert_eq!(names, vec![("main", "./entry"), ("other", "./other")]);

    let copy = options.clone();
    assert_eq!(copy.cwd, options.cwd);
    assert_eq!(copy.input.len(), 2);
    assert_eq!(copy.input[1].import, "./other");
    assert_eq!(copy.treeshake, options.treeshake);

    assert!(!resolve_input_options(host("/work", Some(false))).treeshake);
    assert!(resolve_input_options(host("/work", Some(true))).treeshake);
    let mut plain = host("/work", None);
    plain.builtins = HostBuiltins::default();
    assert_eq!(resolve_input_options(plain).builtins.tsconfig, None);
}

#[test]
fn a_directory_below_the_root_is_a_working_directory() {
    assert_eq!(resolve_input_options(host("//", None)).cwd, "//");
    assert_eq!(resolve_input_options(host("/a", None)).cwd, "/a");
}

#[test]
fn names_are_ordered_like_a_dictionary() {
    assert!(is_name_le("", ""));
    assert!(is_name_le("", "a"));
    assert!(!is_name_le("a", ""));
    assert!(is_name_le("a", "a"));
    assert!(is_name_le("a", "ab"));
    assert!(!is_name_le("ab", "a"));
    assert!(is_name_le("ab", "b"));
    assert!(!is_name_le("b", "ab"));
    assert!(is_name_le("Z", "a"));
    assert!(is_name_le("default", "x"));
    assert!(is_name_le("*", "a"));
}

#[test]
fn specifiers_are_sorted_by_imported_name_and_keep_their_order_otherwise() {
    let owner = ModuleId::new("/a.js", false);
    let spec = |imported: &str, local: &str| ImportedSpecifier {
        imported: imported.to_string(),
        imported_as: Symbol::new(&owner, local, 0),
    };
    let sorted = sorted_by_imported(&vec![
        spec("b", "first"),
        spec("a", "second"),
        spec("b", "third"),
        spec("*", "fourth"),
        spec("a", "fifth"),
    ]);
    let order: Vec<(&str, &str)> = sorted
        .iter()
        .map(|s| (s.imported.as_str(), s.imported_as.name()))
        .collect();
    assert_eq!(
        order,
        vec![("*", "fourth"), ("a", "second"), ("a", "fifth"), ("b", "first"), ("b", "third")]
    );
    assert!(sorted_by_imported(&vec![]).is_empty());
}

#[test]
fn modules_are_left_after_their_dependencies() {
    // 0 -> 1, 2; 1 -> 3; 2 -> 3; 3 -> 0 closes a cycle; 4 is imported dynamically by 1.
    let edges = vec![vec![1, 2], vec![3], vec![3], vec![0], vec![]];
    let dynamic = vec![vec![], vec![4], vec![], vec![], vec![]];
    assert_eq!(compute_post_order(&edges, &dynamic, &vec![0]), vec![3, 1, 2, 0, 4]);
    assert_eq!(compute_post_order(&edges, &dynamic, &vec![2, 0]), vec![1, 0, 3, 2, 4]);
    assert_eq!(compute_post_order(&edges, &dynamic, &vec![]), Vec::<usize>::new());
    assert_eq!(compute_post_order(&vec![vec![0]], &vec![vec![0]], &vec![0, 0]), vec![0]);
}
