use vstd::prelude::*;

verus! {

/// Visitation state of a module during a depth-first walk.
#[derive(PartialEq, Eq, Structural, Clone, Copy, Debug)]
pub enum ModuleStatus {
    Untouched,
    Touched,
    Done,
}

/// Coarse kind of a symbol-table entry.
#[derive(PartialEq, Eq, Structural, Clone, Copy, Debug)]
pub enum SymbolKind {
    Function,
    Data,
    Other,
}

/// Section index of a symbol that the module references but does not define.
pub const SHN_UNDEF: u16 = 0;

/// One entry of a module's symbol table.
#[derive(Debug)]
pub struct SymbolEntry {
    pub name: String,
    pub kind: SymbolKind,
    /// Index of the section that defines the symbol; `SHN_UNDEF` if none.
    pub section_index: u16,
}

/// A node of the module graph. Edges are indices into the owning graph's
/// module list; their meaning depends on the analysis that built them.
pub struct Module {
    pub name: String,
    pub status: ModuleStatus,
    pub max_chain_length: usize,
    pub element_count: usize,
    pub undefined_symbols: Vec<String>,
    pub edges: Vec<usize>,
}

impl Module {
    pub open spec fn is_fresh(&self) -> bool {
        &&& self.status == ModuleStatus::Untouched
        &&& self.max_chain_length == 0
        &&& self.element_count == 0
        &&& self.undefined_symbols@.len() == 0
        &&& self.edges@.len() == 0
    }

    /// A module with the given name, no symbols and no edges.
    pub fn new(name: &str) -> (m: Module)
        ensures
            m.name@ == name@,
            m.is_fresh(),
    {
        Module {
            name: name.to_owned(),
            status: ModuleStatus::Untouched,
            max_chain_length: 0,
            element_count: 0,
            undefined_symbols: Vec::new(),
            edges: Vec::new(),
        }
    }
}

} // verus!
