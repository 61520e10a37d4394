//! Import and export specifiers, as the scanner reports them and as the linker rewrites them.

use vstd::prelude::*;
use vstd::std_specs::cmp::PartialEqSpecImpl;
use crate::ident::{ModuleId, ModuleIdView, Symbol, SymbolView};

verus! {

/// Mathematical value of an [`ImportedSpecifier`].
pub struct ImportedSpecifierView {
    pub imported: Seq<char>,
    pub imported_as: SymbolView,
}

/// One imported binding: the name on the exporter's side and the local symbol that receives it.
#[derive(Debug)]
pub struct ImportedSpecifier {
    /// `"default"`, `"*"` or an identifier.
    pub imported: String,
    pub imported_as: Symbol,
}

impl View for ImportedSpecifier {
    type V = ImportedSpecifierView;

    open spec fn view(&self) -> ImportedSpecifierView {
        ImportedSpecifierView { imported: self.imported@, imported_as: self.imported_as@ }
    }
}

impl DeepView for ImportedSpecifier {
    type V = ImportedSpecifierView;

    open spec fn deep_view(&self) -> ImportedSpecifierView {
        self@
    }
}

impl Clone for ImportedSpecifier {
    fn clone(&self) -> (r: Self)
        ensures
            r == *self,
    {
        ImportedSpecifier { imported: self.imported.clone(), imported_as: self.imported_as.clone() }
    }
}

impl PartialEq for ImportedSpecifier {
    fn eq(&self, other: &ImportedSpecifier) -> (r: bool) {
        self.imported == other.imported && self.imported_as == other.imported_as
    }
}

impl PartialEqSpecImpl for ImportedSpecifier {
    open spec fn obeys_eq_spec() -> bool {
        true
    }

    open spec fn eq_spec(&self, other: &ImportedSpecifier) -> bool {
        self@ == other@
    }
}

/// Mathematical value of an [`ExportedSpecifier`].
pub struct ExportedSpecifierView {
    pub exported_as: Seq<char>,
    pub local_id: SymbolView,
    pub owner: ModuleIdView,
}

/// One exported binding: the exported name, the concrete binding, and the module that
/// declares it, which may differ from the module that re-exports it.
#[derive(Debug)]
pub struct ExportedSpecifier {
    pub exported_as: String,
    pub local_id: Symbol,
    pub owner: ModuleId,
}

impl View for ExportedSpecifier {
    type V = ExportedSpecifierView;

    open spec fn view(&self) -> ExportedSpecifierView {
        ExportedSpecifierView {
            exported_as: self.exported_as@,
            local_id: self.local_id@,
            owner: self.owner@,
        }
    }
}

impl DeepView for ExportedSpecifier {
    type V = ExportedSpecifierView;

    open spec fn deep_view(&self) -> ExportedSpecifierView {
        self@
    }
}

impl Clone for ExportedSpecifier {
    fn clone(&self) -> (r: Self)
        ensures
            r == *self,
    {
        ExportedSpecifier {
            exported_as: self.exported_as.clone(),
            local_id: self.local_id.clone(),
            owner: self.owner.clone(),
        }
    }
}

impl PartialEq for ExportedSpecifier {
    fn eq(&self, other: &ExportedSpecifier) -> (r: bool) {
        self.exported_as == other.exported_as && self.local_id == other.local_id && self.owner
            == other.owner
    }
}

impl PartialEqSpecImpl for ExportedSpecifier {
    open spec fn obeys_eq_spec() -> bool {
        true
    }

    open spec fn eq_spec(&self, other: &ExportedSpecifier) -> bool {
        self@ == other@
    }
}

/// Mathematical value of a [`ReExportedSpecifier`].
pub struct ReExportedSpecifierView {
    pub imported: Seq<char>,
    pub exported_as: Seq<char>,
}

/// One name of an `export { imported as exported_as } from "..."` statement.
#[derive(Debug)]
pub struct ReExportedSpecifier {
    pub imported: String,
    pub exported_as: String,
}

impl View for ReExportedSpecifier {
    type V = ReExportedSpecifierView;

    open spec fn view(&self) -> ReExportedSpecifierView {
        ReExportedSpecifierView { imported: self.imported@, exported_as: self.exported_as@ }
    }
}

impl DeepView for ReExportedSpecifier {
    type V = ReExportedSpecifierView;

    open spec fn deep_view(&self) -> ReExportedSpecifierView {
        self@
    }
}

impl Clone for ReExportedSpecifier {
    fn clone(&self) -> (r: Self)
        ensures
            r == *self,
    {
        ReExportedSpecifier {
            imported: self.imported.clone(),
            exported_as: self.exported_as.clone(),
        }
    }
}

impl PartialEq for ReExportedSpecifier {
    fn eq(&self, other: &ReExportedSpecifier) -> (r: bool) {
        self.imported == other.imported && self.exported_as == other.exported_as
    }
}

impl PartialEqSpecImpl for ReExportedSpecifier {
    open spec fn obeys_eq_spec() -> bool {
        true
    }

    open spec fn eq_spec(&self, other: &ReExportedSpecifier) -> bool {
        self@ == other@
    }
}

} // verus!
