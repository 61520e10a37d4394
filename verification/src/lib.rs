//! The core of a module bundler for JavaScript and TypeScript.
//!
//! Given the modules that a loader has found, the core gives them an execution order and
//! links them: it leads every import to the binding that it names, across re-exports,
//! wildcard re-exports, external modules and modules that import from themselves, and
//! joins in a union-find the symbols that stand for one binding.
//!
//! - [`ident`], [`specifier`], [`module`]: the data of the module graph.
//! - [`union_find`]: disjoint sets of symbols.
//! - [`graph`]: the graph, the ordering pass, the two passes of the linker, and what
//!   they guarantee.
//! - [`module_loader`], [`plugin_driver`], [`resolver`]: the decisions of the loader. What
//!   reads files, parses and runs plugins is not here; these modules say what is asked
//!   next and what is made of the answers.
//! - [`dep_graph`]: a dependency graph of source files over a graph library.
//! - [`options`], [`binding`], [`plugin`], [`error`], [`test_config`]: configuration,
//!   plugin interface and errors.
//!
//! Every function states what it returns and changes over the mathematical value of its
//! arguments, written `x@`.

pub mod binding;
pub mod dep_graph;
pub mod error;
pub mod graph;
pub mod ident;
pub mod module;
pub mod module_loader;
pub mod options;
pub mod plugin;
pub mod plugin_driver;
pub mod resolver;
pub mod specifier;
pub mod table;
pub mod test_config;
pub mod union_find;
