//! Configuration that the core recognizes.

use vstd::prelude::*;

verus! {

/// How TypeScript sources are lowered.
#[derive(Debug, Clone, Copy, PartialEq, Eq, Structural)]
pub struct TsConfig {
    pub use_define_for_class_fields: bool,
}

impl Default for TsConfig {
    fn default() -> (r: Self)
        ensures
            r == (TsConfig { use_define_for_class_fields: false }),
    {
        TsConfig { use_define_for_class_fields: false }
    }
}

/// Built-in transformations.
#[derive(Debug, Clone, Copy)]
pub struct BuiltinsOptions {
    /// `None` switches the TypeScript built-in off.
    pub tsconfig: Option<TsConfig>,
    /// Whether a file's extension chooses its loader when no plugin does.
    pub detect_loader_by_ext: bool,
}

impl Default for BuiltinsOptions {
    fn default() -> (r: Self)
        ensures
            r.tsconfig == Some(TsConfig { use_define_for_class_fields: false }),
            r.detect_loader_by_ext == false,
    {
        BuiltinsOptions { tsconfig: Some(TsConfig::default()), detect_loader_by_ext: false }
    }
}

impl BuiltinsOptions {
    /// The setting handed to the decorator pass: off unless configured.
    pub fn use_define_for_class_fields(&self) -> (r: bool)
        ensures
            r == match self.tsconfig {
                Some(config) => config.use_define_for_class_fields,
                None => false,
            },
    {
        match self.tsconfig {
            Some(config) => config.use_define_for_class_fields,
            None => false,
        }
    }
}

/// One entry of a build: the name of the output and the specifier to start from.
#[derive(Debug)]
pub struct InputItem {
    pub name: String,
    pub import: String,
}

impl Clone for InputItem {
    fn clone(&self) -> (r: Self)
        ensures
            r == *self,
    {
        InputItem { name: self.name.clone(), import: self.import.clone() }
    }
}

/// What a build is asked to do.
#[derive(Debug)]
pub struct InputOptions {
    pub input: Vec<InputItem>,
    pub cwd: String,
    pub preserve_symlinks: bool,
    pub treeshake: bool,
    pub shim_missing_exports: bool,
    pub builtins: BuiltinsOptions,
}

impl Clone for InputOptions {
    fn clone(&self) -> (r: Self)
        ensures
            r.input@ == self.input@,
            r.cwd == self.cwd,
            r.preserve_symlinks == self.preserve_symlinks,
            r.treeshake == self.treeshake,
            r.shim_missing_exports == self.shim_missing_exports,
            r.builtins == self.builtins,
    {
        let mut input: Vec<InputItem> = Vec::new();
        let mut i: usize = 0;
        while i < self.input.len()
            invariant
                i <= self.input.len(),
                input@ == self.input@.take(i as int),
            decreases self.input.len() - i,
        {
            input.push(self.input[i].clone());
            assert(input@ =~= self.input@.take(i as int + 1));
            i += 1;
        }
        assert(self.input@.take(self.input.len() as int) =~= self.input@);
        InputOptions {
            input,
            cwd: self.cwd.clone(),
            preserve_symlinks: self.preserve_symlinks,
            treeshake: self.treeshake,
            shim_missing_exports: self.shim_missing_exports,
            builtins: self.builtins,
        }
    }
}

impl InputOptions {
    /// The options of a build in `cwd` with no entries: tree shaking on, the rest off.
    pub fn with_cwd(cwd: &str) -> (r: Self)
        ensures
            r.cwd@ == cwd@,
            r.input@.len() == 0,
            r.treeshake,
            !r.preserve_symlinks,
            !r.shim_missing_exports,
            r.builtins.tsconfig == Some(TsConfig { use_define_for_class_fields: false }),
            !r.builtins.detect_loader_by_ext,
    {
        InputOptions {
            input: Vec::new(),
            cwd: cwd.to_owned(),
            preserve_symlinks: false,
            treeshake: true,
            shim_missing_exports: false,
            builtins: BuiltinsOptions::default(),
        }
    }
}

} // verus!
