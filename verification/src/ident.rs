//! Identities: module ids and symbols.

use vstd::prelude::*;
use vstd::std_specs::cmp::PartialEqSpecImpl;

verus! {

/// Mathematical value of a [`ModuleId`].
pub struct ModuleIdView {
    /// Resolved absolute path of a normal module, bare specifier of an external one.
    pub path: Seq<char>,
    pub external: bool,
}

/// Key of a module in the graph: a path or specifier together with the external bit.
#[derive(Debug)]
pub struct ModuleId {
    pub path: String,
    pub external: bool,
}

impl View for ModuleId {
    type V = ModuleIdView;

    open spec fn view(&self) -> ModuleIdView {
        ModuleIdView { path: self.path@, external: self.external }
    }
}

impl DeepView for ModuleId {
    type V = ModuleIdView;

    open spec fn deep_view(&self) -> ModuleIdView {
        self@
    }
}

impl Clone for ModuleId {
    fn clone(&self) -> (r: Self)
        ensures
            r == *self,
    {
        ModuleId { path: self.path.clone(), external: self.external }
    }
}

impl PartialEq for ModuleId {
    fn eq(&self, other: &ModuleId) -> (r: bool) {
        self.external == other.external && self.path == other.path
    }
}

impl PartialEqSpecImpl for ModuleId {
    open spec fn obeys_eq_spec() -> bool {
        true
    }

    open spec fn eq_spec(&self, other: &ModuleId) -> bool {
        self@ == other@
    }
}

impl ModuleId {
    pub fn new(path: &str, external: bool) -> (r: Self)
        ensures
            r@ == (ModuleIdView { path: path@, external }),
    {
        ModuleId { path: path.to_owned(), external }
    }

    /// The path or specifier.
    pub fn id(&self) -> (r: &str)
        ensures
            r@ == self@.path,
    {
        self.path.as_str()
    }

    pub fn is_external(&self) -> (r: bool)
        ensures
            r == self@.external,
    {
        self.external
    }
}

/// First disambiguator of the range reserved for symbols that the linker synthesizes.
/// Binding numbers handed out by a scanner lie below it.
pub const SYNTHESIZED_BASE: u128 = 0x1_0000_0000_0000_0000u128;

/// Mathematical value of a [`Symbol`].
pub struct SymbolView {
    pub owner: ModuleIdView,
    pub name: Seq<char>,
    pub disambiguator: nat,
}

impl SymbolView {
    /// Whether the symbol was made by the linker instead of being declared in source.
    pub open spec fn is_synthesized(self) -> bool {
        self.disambiguator >= SYNTHESIZED_BASE
    }
}

/// One declared binding: the module that owns it, its name, and a number that
/// tells apart bindings of the same name within that module.
#[derive(Debug)]
pub struct Symbol {
    pub owner: ModuleId,
    pub name: String,
    pub disambiguator: u128,
}

impl View for Symbol {
    type V = SymbolView;

    open spec fn view(&self) -> SymbolView {
        SymbolView {
            owner: self.owner@,
            name: self.name@,
            disambiguator: self.disambiguator as nat,
        }
    }
}

impl DeepView for Symbol {
    type V = SymbolView;

    open spec fn deep_view(&self) -> SymbolView {
        self@
    }
}

impl Clone for Symbol {
    fn clone(&self) -> (r: Self)
        ensures
            r == *self,
    {
        Symbol {
            owner: self.owner.clone(),
            name: self.name.clone(),
            disambiguator: self.disambiguator,
        }
    }
}

impl PartialEq for Symbol {
    fn eq(&self, other: &Symbol) -> (r: bool) {
        self.disambiguator == other.disambiguator && self.name == other.name && self.owner
            == other.owner
    }
}

impl PartialEqSpecImpl for Symbol {
    open spec fn obeys_eq_spec() -> bool {
        true
    }

    open spec fn eq_spec(&self, other: &Symbol) -> bool {
        self@ == other@
    }
}

impl Symbol {
    /// A binding declared in source; `binding` is the number the scanner gave it.
    pub fn new(owner: &ModuleId, name: &str, binding: u64) -> (r: Self)
        ensures
            r@ == (SymbolView { owner: owner@, name: name@, disambiguator: binding as nat }),
            !r@.is_synthesized(),
    {
        Symbol { owner: owner.clone(), name: name.to_owned(), disambiguator: binding as u128 }
    }

    /// The `index`-th symbol synthesized in `owner`.
    pub fn synthesized(owner: &ModuleId, name: &str, index: usize) -> (r: Self)
        ensures
            r@ == synthesized_symbol(owner@, name@, index as nat),
    {
        Symbol {
            owner: owner.clone(),
            name: name.to_owned(),
            disambiguator: SYNTHESIZED_BASE + index as u128,
        }
    }

    pub fn name(&self) -> (r: &str)
        ensures
            r@ == self@.name,
    {
        self.name.as_str()
    }

    pub fn is_synthesized(&self) -> (r: bool)
        ensures
            r == self@.is_synthesized(),
    {
        self.disambiguator >= SYNTHESIZED_BASE
    }
}

/// The `index`-th symbol synthesized in module `owner`, named `name`.
pub open spec fn synthesized_symbol(owner: ModuleIdView, name: Seq<char>, index: nat) -> SymbolView {
    SymbolView { owner, name, disambiguator: SYNTHESIZED_BASE as nat + index }
}

/// The name that stands for a module's whole namespace in a specifier.
pub open spec fn star_name() -> Seq<char> {
    seq!['*']
}

/// The name of the default export.
pub open spec fn default_name() -> Seq<char> {
    seq!['d', 'e', 'f', 'a', 'u', 'l', 't']
}

pub fn is_star(name: &str) -> (r: bool)
    ensures
        r == (name@ == star_name()),
{
    proof {
        reveal_strlit("*");
    }
    let star = "*";
    assert(star@ =~= star_name());
    str_eq(name, star)
}

pub fn is_default(name: &str) -> (r: bool)
    ensures
        r == (name@ == default_name()),
{
    proof {
        reveal_strlit("default");
    }
    let default = "default";
    assert(default@ =~= default_name());
    str_eq(name, default)
}

/// Equality of two string slices, character by character.
pub fn str_eq(a: &str, b: &str) -> (r: bool)
    ensures
        r == (a@ == b@),
{
    let n = a.unicode_len();
    if n != b.unicode_len() {
        return false;
    }
    let mut i: usize = 0;
    while i < n
        invariant
            n == a@.len(),
            n == b@.len(),
            i <= n,
            forall|j: int| 0 <= j < i ==> a@[j] == b@[j],
        decreases n - i,
    {
        if a.get_char(i) != b.get_char(i) {
            return false;
        }
        i += 1;
    }
    assert(a@ =~= b@);
    true
}

} // verus!
