//! Options as a host hands them in, with everything optional that the host may leave out,
//! and the options of a build that are made of them.

use vstd::prelude::*;
use crate::options::{InputItem, TsConfig};

verus! {

/// The TypeScript settings as the host gives them.
#[derive(Debug, Clone, Copy)]
pub struct TsConfigOptions {
    pub use_define_for_class_fields: bool,
}

/// The built-in transformations as the host gives them.
#[derive(Debug, Clone, Copy)]
pub struct BuiltinsOptions {
    /// `None` switches the TypeScript built-in off.
    pub tsconfig: Option<TsConfigOptions>,
}

impl Default for BuiltinsOptions {
    fn default() -> (r: Self)
        ensures
            r.tsconfig is None,
    {
        BuiltinsOptions { tsconfig: None }
    }
}

/// The options of a build as the host gives them.
#[derive(Debug)]
pub struct InputOptions {
    /// The entries: the name of each output and the specifier to start from.
    pub input: Vec<(String, String)>,
    pub preserve_symlinks: bool,
    pub shim_missing_exports: bool,
    /// Tree shaking is on unless the host switches it off.
    pub treeshake: Option<bool>,
    pub cwd: String,
    pub builtins: BuiltinsOptions,
}

/// The entries of a build as a list of items.
pub open spec fn input_items(input: Seq<(String, String)>) -> Seq<InputItem> {
    Seq::new(input.len(), |i: int| InputItem { name: input[i].0, import: input[i].1 })
}

/// The root of the file system, which is no place for a build.
pub open spec fn root_dir() -> Seq<char> {
    seq!['/']
}

/// Makes the options of a build of what the host gives: tree shaking is on where the host
/// does not say, and the built-ins are taken over. The root of the file system is no
/// working directory for a build.
pub fn resolve_input_options(opts: InputOptions) -> (resolved: crate::options::InputOptions)
    requires
        opts.cwd@ != root_dir(),
    ensures
        resolved.cwd == opts.cwd,
        resolved.input@ == input_items(opts.input@),
        resolved.treeshake == match opts.treeshake {
            Some(treeshake) => treeshake,
            None => true,
        },
        resolved.preserve_symlinks == opts.preserve_symlinks,
        resolved.shim_missing_exports == opts.shim_missing_exports,
        resolved.builtins.tsconfig == match opts.builtins.tsconfig {
            Some(config) => Some(
                TsConfig { use_define_for_class_fields: config.use_define_for_class_fields },
            ),
            None => None,
        },
        !resolved.builtins.detect_loader_by_ext,
{
    let mut given = opts.input;
    let ghost all = given@;
    let mut reversed: Vec<InputItem> = Vec::new();
    while given.len() > 0
        invariant
            given@.len() + reversed@.len() == all.len(),
            given@ == all.take(given@.len() as int),
            forall|i: int|
                0 <= i < reversed@.len() ==> #[trigger] reversed@[i] == input_items(all)[all.len()
                    - 1 - i],
        decreases given.len(),
    {
        let (name, import) = given.pop().unwrap();
        reversed.push(InputItem { name, import });
    }
    let mut input: Vec<InputItem> = Vec::new();
    let ghost turned = reversed@;
    while reversed.len() > 0
        invariant
            turned.len() == all.len(),
            reversed@.len() + input@.len() == turned.len(),
            reversed@ == turned.take(reversed@.len() as int),
            forall|i: int|
                0 <= i < turned.len() ==> #[trigger] turned[i] == input_items(all)[all.len() - 1 - i],
            forall|i: int| 0 <= i < input@.len() ==> #[trigger] input@[i] == input_items(all)[i],
        decreases reversed.len(),
    {
        let item = reversed.pop().unwrap();
        assert(item == turned[turned.len() - 1 - input@.len()]);
        input.push(item);
    }
    assert(input@ =~= input_items(all));
    crate::options::InputOptions {
        input,
        cwd: opts.cwd,
        preserve_symlinks: opts.preserve_symlinks,
        treeshake: match opts.treeshake {
            Some(treeshake) => treeshake,
            None => true,
        },
        shim_missing_exports: opts.shim_missing_exports,
        builtins: crate::options::BuiltinsOptions {
            tsconfig: match opts.builtins.tsconfig {
                Some(config) => Some(
                    TsConfig { use_define_for_class_fields: config.use_define_for_class_fields },
                ),
                None => None,
            },
            detect_loader_by_ext: false,
        },
    }
}

} // verus!
