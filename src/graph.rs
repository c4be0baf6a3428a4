use vstd::prelude::*;
use vstd::hash_map::StringHashMap;
use crate::module::{Module, ModuleStatus, SymbolEntry, SymbolKind, SHN_UNDEF};
use crate::text::{trim, trimmed};
use crate::ordering::{adjacency, reaches, adj_grows, lemma_reaches_grows, lemma_reaches_self, lemma_reaches_step};

verus! {

/// Position of the linkage module, which owns the symbols that the linker
/// configuration provides.
pub const LINKAGE: usize = 0;

/// An entry that the module defines and that counts as one of its elements.
pub open spec fn is_export(e: SymbolEntry) -> bool {
    e.section_index != SHN_UNDEF && (e.kind == SymbolKind::Function || e.kind == SymbolKind::Data)
}

/// An entry that the module needs from elsewhere.
pub open spec fn is_import(e: SymbolEntry) -> bool {
    e.section_index == SHN_UNDEF && trimmed(e.name@).len() > 0
}

/// Number of exported function and data entries.
pub open spec fn exported_count(syms: Seq<SymbolEntry>) -> nat
    decreases syms.len(),
{
    if syms.len() == 0 {
        0
    } else {
        exported_count(syms.drop_last()) + if is_export(syms.last()) { 1nat } else { 0nat }
    }
}

/// Names of the undefined entries, trimmed, in table order; blank names dropped.
pub open spec fn imported_names(syms: Seq<SymbolEntry>) -> Seq<Seq<char>>
    decreases syms.len(),
{
    if syms.len() == 0 {
        seq![]
    } else if is_import(syms.last()) {
        imported_names(syms.drop_last()).push(trimmed(syms.last().name@))
    } else {
        imported_names(syms.drop_last())
    }
}

/// The symbol index after `owner` has defined each exported entry in turn.
pub open spec fn define_exports(
    index: Map<Seq<char>, usize>,
    syms: Seq<SymbolEntry>,
    owner: usize,
) -> Map<Seq<char>, usize>
    decreases syms.len(),
{
    if syms.len() == 0 {
        index
    } else if is_export(syms.last()) {
        define_exports(index, syms.drop_last(), owner).insert(syms.last().name@, owner)
    } else {
        define_exports(index, syms.drop_last(), owner)
    }
}

/// The symbol index after `owner` has defined each name in turn.
pub open spec fn define_names(
    index: Map<Seq<char>, usize>,
    names: Seq<Seq<char>>,
    owner: usize,
) -> Map<Seq<char>, usize>
    decreases names.len(),
{
    if names.len() == 0 {
        index
    } else {
        define_names(index, names.drop_last(), owner).insert(names.last(), owner)
    }
}

/// Trimmed configuration lines, blank ones dropped.
pub open spec fn linkage_names(lines: Seq<Seq<char>>) -> Seq<Seq<char>>
    decreases lines.len(),
{
    if lines.len() == 0 {
        seq![]
    } else if trimmed(lines.last()).len() > 0 {
        linkage_names(lines.drop_last()).push(trimmed(lines.last()))
    } else {
        linkage_names(lines.drop_last())
    }
}

/// Number of modules that still hold undefined symbols to resolve.
pub open spec fn undrained(mods: Seq<Module>) -> nat
    decreases mods.len(),
{
    if mods.len() == 0 {
        0
    } else {
        undrained(mods.drop_last()) + if mods.last().undefined_symbols@.len() > 0 { 1nat } else { 0nat }
    }
}

/// Replacing one module changes the count only through that module.
pub proof fn lemma_undrained_update(mods: Seq<Module>, i: int, m: Module)
    requires
        0 <= i < mods.len(),
    ensures
        undrained(mods.update(i, m)) + (if mods[i].undefined_symbols@.len() > 0 { 1int } else { 0int })
            == undrained(mods) + (if m.undefined_symbols@.len() > 0 { 1int } else { 0int }),
    decreases mods.len(),
{
    let u = mods.update(i, m);
    if i < mods.len() - 1 {
        lemma_undrained_update(mods.drop_last(), i, m);
        assert(u.drop_last() =~= mods.drop_last().update(i, m));
    } else {
        assert(u.drop_last() =~= mods.drop_last());
    }
}

/// Owners of the names that the index resolves, in order.
pub open spec fn resolved_owners(index: Map<Seq<char>, usize>, names: Seq<Seq<char>>) -> Seq<usize>
    decreases names.len(),
{
    if names.len() == 0 {
        seq![]
    } else if index.contains_key(names.last()) {
        resolved_owners(index, names.drop_last()).push(index[names.last()])
    } else {
        resolved_owners(index, names.drop_last())
    }
}

/// The names that the index does not resolve, in order.
pub open spec fn unresolved_names(index: Map<Seq<char>, usize>, names: Seq<Seq<char>>) -> Seq<Seq<char>>
    decreases names.len(),
{
    if names.len() == 0 {
        seq![]
    } else if index.contains_key(names.last()) {
        unresolved_names(index, names.drop_last())
    } else {
        unresolved_names(index, names.drop_last()).push(names.last())
    }
}

/// `edges` extended by each of `targets` that it does not hold yet, in order.
pub open spec fn add_targets(edges: Seq<usize>, targets: Seq<usize>) -> Seq<usize>
    decreases targets.len(),
{
    if targets.len() == 0 {
        edges
    } else {
        let e = add_targets(edges, targets.drop_last());
        if e.contains(targets.last()) {
            e
        } else {
            e.push(targets.last())
        }
    }
}

/// A module, as an ordering-mode link leaves it: its undefined symbols are
/// consumed and it depends on the owner of each symbol that resolved.
pub open spec fn linked_forward(before: Module, after: Module, index: Map<Seq<char>, usize>) -> bool {
    &&& after.undefined_symbols@.len() == 0
    &&& after.edges@ == add_targets(
        before.edges@,
        resolved_owners(index, before.undefined_symbols@.map_values(|s: String| s@)),
    )
}

/// Same module apart from its pending symbols and edges.
pub open spec fn same_attributes(a: Module, b: Module) -> bool {
    &&& a.name == b.name
    &&& a.status == b.status
    &&& a.max_chain_length == b.max_chain_length
    &&& a.element_count == b.element_count
}

/// `add_targets` keeps what `edges` held.
pub proof fn lemma_add_targets_keeps(edges: Seq<usize>, targets: Seq<usize>, v: usize)
    requires
        edges.contains(v),
    ensures
        add_targets(edges, targets).contains(v),
    decreases targets.len(),
{
    if targets.len() > 0 {
        lemma_add_targets_keeps(edges, targets.drop_last(), v);
        let e = add_targets(edges, targets.drop_last());
        if !e.contains(targets.last()) {
            let k = choose|k: int| 0 <= k < e.len() && e[k] == v;
            assert(e.push(targets.last())[k] == v);
        }
    }
}

/// Whether `v` holds `x`.
pub fn holds(v: &Vec<usize>, x: usize) -> (r: bool)
    ensures
        r == v@.contains(x),
{
    let mut i: usize = 0;
    while i < v.len()
        invariant
            0 <= i <= v@.len(),
            forall|k: int| 0 <= k < i ==> v@[k] != x,
        decreases v@.len() - i,
    {
        if v[i] == x {
            return true;
        }
        i = i + 1;
    }
    false
}

/// Why linking or ordering stopped.
pub enum GraphError {
    /// Symbols of `module` that no module owns.
    Unresolved { module: usize, symbols: Vec<String> },
    /// The edge `from -> to` closed a cycle.
    Cycle { from: usize, to: usize },
}

/// Every edge names a module of `mods`, and no module names a target twice.
pub open spec fn edges_wf(mods: Seq<Module>) -> bool {
    &&& forall|i: int, k: int|
        0 <= i < mods.len() && 0 <= k < mods[i].edges@.len() ==> #[trigger] mods[i].edges@[k] < mods.len()
    &&& forall|i: int| 0 <= i < mods.len() ==> (#[trigger] mods[i].edges@).no_duplicates()
}

/// If some exported entry of `syms` is named `name`, defining the entries
/// of `syms` for `owner` leaves `owner` as the owner of `name`.
pub proof fn lemma_export_owned(index: Map<Seq<char>, usize>, syms: Seq<SymbolEntry>, owner: usize, name: Seq<char>)
    requires
        exists|i: int| 0 <= i < syms.len() && is_export(#[trigger] syms[i]) && syms[i].name@ == name,
    ensures
        define_exports(index, syms, owner).contains_key(name),
        define_exports(index, syms, owner)[name] == owner,
    decreases syms.len(),
{
    let i = choose|i: int| 0 <= i < syms.len() && is_export(#[trigger] syms[i]) && syms[i].name@ == name;
    if !(i == syms.len() - 1) {
        let pre = syms.drop_last();
        assert(pre[i] == syms[i]);
        lemma_export_owned(index, pre, owner, name);
    }
}

/// Symbol ownership: when two modules both export `name`, the one added
/// later is its only owner, whatever the earlier one did.
pub proof fn lemma_later_export_wins(
    index: Map<Seq<char>, usize>,
    first: Seq<SymbolEntry>,
    a: usize,
    second: Seq<SymbolEntry>,
    b: usize,
    name: Seq<char>,
)
    requires
        exists|i: int| 0 <= i < second.len() && is_export(#[trigger] second[i]) && second[i].name@ == name,
    ensures
        define_exports(define_exports(index, first, a), second, b).contains_key(name),
        define_exports(define_exports(index, first, a), second, b)[name] == b,
{
    lemma_export_owned(define_exports(index, first, a), second, b, name);
}

/// Element counting: an undefined entry never adds to the exported count.
pub proof fn lemma_imports_not_counted(syms: Seq<SymbolEntry>, e: SymbolEntry)
    requires
        e.section_index == SHN_UNDEF,
    ensures
        exported_count(syms.push(e)) == exported_count(syms),
{
    assert(syms.push(e).drop_last() =~= syms);
}

/// Element counting, wherever an import stands: inserting an undefined
/// entry anywhere in a table changes neither the exported count nor the
/// definitions.
pub proof fn lemma_import_anywhere(index: Map<Seq<char>, usize>, syms: Seq<SymbolEntry>, i: int, e: SymbolEntry, owner: usize)
    requires
        0 <= i <= syms.len(),
        e.section_index == SHN_UNDEF,
    ensures
        exported_count(syms.insert(i, e)) == exported_count(syms),
        define_exports(index, syms.insert(i, e), owner) == define_exports(index, syms, owner),
    decreases syms.len(),
{
    let t = syms.insert(i, e);
    if i == syms.len() {
        assert(t.drop_last() =~= syms);
    } else {
        assert(t.drop_last() =~= syms.drop_last().insert(i, e));
        assert(t.last() == syms.last());
        lemma_import_anywhere(index, syms.drop_last(), i, e, owner);
    }
}

/// The linkage module is a leaf in every well-formed graph, whichever mode
/// built its edges.
pub proof fn lemma_linkage_is_leaf(g: ModuleGraph)
    requires
        g.wf(),
    ensures
        g.succ(LINKAGE as int).len() == 0,
        forall|b: usize| !g.has_edge(LINKAGE as int, b as int),
{
}

/// All modules of one run, the symbol index over them, and the edges of
/// one analysis. Module `LINKAGE` is the synthetic linkage module.
pub struct ModuleGraph {
    pub modules: Vec<Module>,
    pub index: StringHashMap<usize>,
}

impl ModuleGraph {
    pub open spec fn len(&self) -> int {
        self.modules@.len() as int
    }

    pub open spec fn succ(&self, i: int) -> Seq<usize> {
        self.modules@[i].edges@
    }

    pub open spec fn has_edge(&self, a: int, b: int) -> bool {
        0 <= a < self.len() && self.succ(a).contains(b as usize)
    }

    pub open spec fn status(&self, i: int) -> ModuleStatus {
        self.modules@[i].status
    }

    pub open spec fn pending(&self, i: int) -> Seq<String> {
        self.modules@[i].undefined_symbols@
    }

    /// Owner of `name` in the symbol index.
    pub open spec fn owner(&self, name: Seq<char>) -> Option<usize> {
        if self.index@.contains_key(name) {
            Some(self.index@[name])
        } else {
            None
        }
    }

    /// Edges stay inside the graph and name each target once; the linkage
    /// module is a leaf with nothing left to resolve.
    pub open spec fn wf(&self) -> bool {
        &&& self.len() >= 1
        &&& forall|s: Seq<char>| #[trigger] self.index@.contains_key(s) ==> self.index@[s] < self.len()
        &&& edges_wf(self.modules@)
        &&& self.succ(LINKAGE as int).len() == 0
        &&& self.pending(LINKAGE as int).len() == 0
    }

    /// No walk has started: every module is untouched, with no chain length.
    pub open spec fn unwalked(&self) -> bool {
        forall|i: int| 0 <= i < self.len() ==> {
            &&& #[trigger] self.status(i) == ModuleStatus::Untouched
            &&& self.modules@[i].max_chain_length == 0
        }
    }

    /// A graph holding only the linkage module, which owns every non-blank
    /// configuration line, trimmed.
    pub fn new(config_lines: &Vec<String>) -> (g: ModuleGraph)
        ensures
            g.wf(),
            g.unwalked(),
            g.len() == 1,
            g.modules@[LINKAGE as int].name@ == seq!['l', 'd', 's'],
            g.modules@[LINKAGE as int].is_fresh(),
            g.index@ == define_names(Map::empty(), linkage_names(config_lines@.map_values(|l: String| l@)), LINKAGE),
    {
        let mut modules: Vec<Module> = Vec::new();
        modules.push(Module::new("lds"));
        let mut g = ModuleGraph { modules, index: StringHashMap::new() };
        proof { reveal_strlit("lds"); }
        let ghost lines = config_lines@.map_values(|l: String| l@);
        let mut i: usize = 0;
        while i < config_lines.len()
            invariant
                0 <= i <= config_lines@.len(),
                lines == config_lines@.map_values(|l: String| l@),
                g.wf(),
                g.unwalked(),
                g.len() == 1,
                g.modules@[LINKAGE as int].name@ == seq!['l', 'd', 's'],
                g.modules@[LINKAGE as int].is_fresh(),
                g.index@ == define_names(Map::empty(), linkage_names(lines.subrange(0, i as int)), LINKAGE),
            decreases config_lines@.len() - i,
        {
            let name = trim(config_lines[i].as_str());
            let ghost before = linkage_names(lines.subrange(0, i as int));
            assert(lines.subrange(0, i + 1).drop_last() == lines.subrange(0, i as int));
            assert(lines.subrange(0, i + 1).last() == config_lines@[i as int]@);
            if !name.as_str().is_empty() {
                g.define(name, LINKAGE);
                assert(linkage_names(lines.subrange(0, i + 1)).drop_last() == before);
            }
            i = i + 1;
        }
        assert(lines.subrange(0, config_lines@.len() as int) == lines);
        g
    }

    /// Makes `owner` the owner of `name`, replacing any earlier owner.
    pub fn define(&mut self, name: String, owner: usize)
        requires
            old(self).wf(),
            owner < old(self).len(),
        ensures
            final(self).wf(),
            final(self).modules@ == old(self).modules@,
            final(self).index@ == old(self).index@.insert(name@, owner),
    {
        self.index.insert(name, owner);
        assert forall|s: Seq<char>| #[trigger] self.index@.contains_key(s) implies self.index@[s] < self.len() by {
            if s != name@ {
                assert(old(self).index@.contains_key(s));
            }
        }
    }

    /// Current owner of `name`, if any module defines it.
    pub fn lookup(&self, name: &str) -> (r: Option<usize>)
        requires
            self.wf(),
        ensures
            r == self.owner(name@),
            r matches Some(o) ==> o < self.len(),
    {
        match self.index.get(name) {
            Some(o) => Some(*o),
            None => None,
        }
    }
    /// View of a module's pending undefined symbols as character sequences.
    pub open spec fn pending_names(&self, i: int) -> Seq<Seq<char>> {
        self.pending(i).map_values(|s: String| s@)
    }

    /// Adds a module read from its symbol table: it defines each exported
    /// function or data entry, in table order, replacing earlier owners, and
    /// keeps the trimmed names of its non-blank undefined entries for linking.
    pub fn add_module(&mut self, name: &str, symbols: &Vec<SymbolEntry>) -> (id: usize)
        requires
            old(self).wf(),
            old(self).len() < usize::MAX,
        ensures
            final(self).wf(),
            id == old(self).len(),
            final(self).len() == old(self).len() + 1,
            final(self).modules@.subrange(0, id as int) == old(self).modules@,
            final(self).modules@[id as int].name@ == name@,
            final(self).modules@[id as int].status == ModuleStatus::Untouched,
            final(self).modules@[id as int].max_chain_length == 0,
            final(self).modules@[id as int].edges@.len() == 0,
            final(self).modules@[id as int].element_count == exported_count(symbols@),
            final(self).pending_names(id as int) == imported_names(symbols@),
            final(self).index@ == define_exports(old(self).index@, symbols@, id),
    {
        let id = self.modules.len();
        let mut m = Module::new(name);
        let mut count: usize = 0;
        let mut i: usize = 0;
        while i < symbols.len()
            invariant
                0 <= i <= symbols@.len(),
                id == old(self).len(),
                forall|s: Seq<char>| #[trigger] self.index@.contains_key(s) ==> self.index@[s] <= id,
                self.modules@ == old(self).modules@,
                self.index@ == define_exports(old(self).index@, symbols@.subrange(0, i as int), id),
                m.name@ == name@,
                m.status == ModuleStatus::Untouched,
                m.max_chain_length == 0,
                m.edges@.len() == 0,
                count == exported_count(symbols@.subrange(0, i as int)),
                count <= i,
                m.undefined_symbols@.map_values(|s: String| s@) == imported_names(symbols@.subrange(0, i as int)),
            decreases symbols@.len() - i,
        {
            let e = &symbols[i];
            let ghost pre = symbols@.subrange(0, i as int);
            assert(symbols@.subrange(0, i + 1).drop_last() == pre);
            assert(symbols@.subrange(0, i + 1).last() == *e);
            if e.section_index == SHN_UNDEF {
                let t = trim(e.name.as_str());
                if !t.as_str().is_empty() {
                    m.undefined_symbols.push(t);
                    assert(m.undefined_symbols@.map_values(|s: String| s@)
                        =~= imported_names(pre).push(trimmed(e.name@)));
                }
            } else if e.kind == SymbolKind::Function || e.kind == SymbolKind::Data {
                self.index.insert(e.name.clone(), id);
                count = count + 1;
            }
            i = i + 1;
        }
        assert(symbols@.subrange(0, symbols@.len() as int) == symbols@);
        m.element_count = count;
        self.modules.push(m);
        assert(self.modules@.subrange(0, id as int) =~= old(self).modules@);
        proof {
            let mods = self.modules@;
            assert forall|j: int, k: int|
                0 <= j < mods.len() && 0 <= k < mods[j].edges@.len() implies #[trigger] mods[j].edges@[k] < mods.len() by {
                assert(mods[j] == old(self).modules@[j]);
            }
            assert forall|j: int| 0 <= j < mods.len() implies (#[trigger] mods[j].edges@).no_duplicates() by {
                if j < id {
                    assert(mods[j] == old(self).modules@[j]);
                }
            }
            assert forall|s: Seq<char>| #[trigger] self.index@.contains_key(s) implies self.index@[s] < self.len() by {}
        }
        id
    }
    /// Ordering-mode link of one module: consumes its undefined symbols and
    /// adds an edge to the owner of each one that resolves, once per owner.
    /// Returns the names that no module owns, in order.
    pub fn link_module_forward(&mut self, m: usize) -> (unresolved: Vec<String>)
        requires
            old(self).wf(),
            m < old(self).len(),
            m != LINKAGE,
        ensures
            final(self).wf(),
            final(self).index@ == old(self).index@,
            final(self).len() == old(self).len(),
            linked_forward(old(self).modules@[m as int], final(self).modules@[m as int], old(self).index@),
            same_attributes(old(self).modules@[m as int], final(self).modules@[m as int]),
            forall|j: int| 0 <= j < old(self).len() && j != m ==> final(self).modules@[j] == old(self).modules@[j],
            unresolved@.map_values(|s: String| s@) == unresolved_names(old(self).index@, old(self).pending_names(m as int)),
    {
        let ghost names = old(self).pending_names(m as int);
        let ghost old_edges = old(self).succ(m as int);
        let mut pending: Vec<String> = Vec::new();
        std::mem::swap(&mut pending, &mut self.modules[m].undefined_symbols);
        assert(pending@.map_values(|s: String| s@) == names);
        let mut unresolved: Vec<String> = Vec::new();
        let mut i: usize = 0;
        while i < pending.len()
            invariant
                0 <= i <= pending@.len(),
                names == pending@.map_values(|s: String| s@),
                m < self.len(),
                m != LINKAGE,
                self.len() == old(self).len(),
                self.index@ == old(self).index@,
                forall|s: Seq<char>| #[trigger] self.index@.contains_key(s) ==> self.index@[s] < self.len(),
                forall|j: int| 0 <= j < old(self).len() && j != m ==> self.modules@[j] == old(self).modules@[j],
                same_attributes(old(self).modules@[m as int], self.modules@[m as int]),
                self.pending(m as int).len() == 0,
                self.succ(m as int) == add_targets(old_edges, resolved_owners(self.index@, names.subrange(0, i as int))),
                unresolved@.map_values(|s: String| s@) == unresolved_names(self.index@, names.subrange(0, i as int)),
                edges_wf(old(self).modules@),
                self.succ(m as int).no_duplicates(),
                forall|k: int| 0 <= k < self.succ(m as int).len() ==> #[trigger] self.succ(m as int)[k] < self.len(),
            decreases pending@.len() - i,
        {
            let ghost pre = names.subrange(0, i as int);
            assert(names.subrange(0, i + 1).drop_last() == pre);
            assert(names.subrange(0, i + 1).last() == pending@[i as int]@);
            match self.index.get(pending[i].as_str()) {
                Some(p) => {
                    let p = *p;
                    assert(resolved_owners(self.index@, names.subrange(0, i + 1))
                        == resolved_owners(self.index@, pre).push(p));
                    let ghost e = add_targets(old_edges, resolved_owners(self.index@, pre));
                    assert(resolved_owners(self.index@, pre).push(p).drop_last() =~= resolved_owners(self.index@, pre));
                    assert(self.succ(m as int) == e);
                    if !holds(&self.modules[m].edges, p) {
                        self.modules[m].edges.push(p);
                        assert(self.succ(m as int) == e.push(p));
                    } else {
                        assert(e.contains(p));
                    }
                    assert(self.succ(m as int) == add_targets(old_edges, resolved_owners(self.index@, pre).push(p)));
                },
                None => {
                    assert(resolved_owners(self.index@, names.subrange(0, i + 1))
                        == resolved_owners(self.index@, pre));
                    unresolved.push(pending[i].clone());
                    assert(unresolved@.map_values(|s: String| s@)
                        =~= unresolved_names(self.index@, pre).push(pending@[i as int]@));
                },
            }
            i = i + 1;
        }
        assert(names.subrange(0, pending@.len() as int) == names);
        proof {
            let mods = self.modules@;
            assert forall|j: int, k: int|
                0 <= j < mods.len() && 0 <= k < mods[j].edges@.len() implies #[trigger] mods[j].edges@[k] < mods.len() by {
                if j != m {
                    assert(mods[j] == old(self).modules@[j]);
                }
            }
            assert forall|j: int| 0 <= j < mods.len() implies (#[trigger] mods[j].edges@).no_duplicates() by {
                if j != m {
                    assert(mods[j] == old(self).modules@[j]);
                }
            }
        }
        unresolved
    }
    /// Ordering-mode linking from `root`: links the root and, transitively,
    /// every module that a linked module comes to depend on. A module whose
    /// symbols do not all resolve stops the run, unless `tolerate_unresolved`.
    #[verifier::loop_isolation(false)]
    pub fn link_dependencies(&mut self, root: usize, tolerate_unresolved: bool) -> (r: Result<(), GraphError>)
        requires
            old(self).wf(),
            root < old(self).len(),
        ensures
            final(self).wf(),
            final(self).index@ == old(self).index@,
            final(self).len() == old(self).len(),
            forall|j: int| 0 <= j < old(self).len() ==> {
                &&& same_attributes(old(self).modules@[j], #[trigger] final(self).modules@[j])
                &&& (final(self).modules@[j] == old(self).modules@[j]
                    || linked_forward(old(self).modules@[j], final(self).modules@[j], old(self).index@))
            },
            r is Ok ==> final(self).pending(root as int).len() == 0,
            r is Ok ==> forall|j: int, k: int|
                0 <= j < old(self).len() && old(self).pending(j).len() > 0 && final(self).pending(j).len() == 0
                    && 0 <= k < final(self).succ(j).len()
                    ==> final(self).pending(#[trigger] final(self).succ(j)[k] as int).len() == 0,
            r is Ok && !tolerate_unresolved ==> forall|j: int|
                0 <= j < old(self).len() && old(self).pending(j).len() > 0 && #[trigger] final(self).pending(j).len() == 0
                    ==> unresolved_names(old(self).index@, old(self).pending_names(j)).len() == 0,
            forall|j: int| 0 <= j < old(self).len() && #[trigger] final(self).modules@[j] != old(self).modules@[j]
                ==> reaches(adjacency(final(self).modules@), root, j as usize),
            r is Err ==> !tolerate_unresolved,
            r matches Err(GraphError::Unresolved { module, symbols }) ==> {
                &&& reaches(adjacency(final(self).modules@), root, module)
                &&& module < old(self).len()
                &&& old(self).pending(module as int).len() > 0
                &&& symbols@.len() > 0
                &&& symbols@.map_values(|s: String| s@) == unresolved_names(old(self).index@, old(self).pending_names(module as int))
            },
            !(r matches Err(GraphError::Cycle { .. })),
    {
        let mut work: Vec<usize> = Vec::new();
        work.push(root);
        assert(work@[0] == root);
        proof { lemma_reaches_self(adjacency(self.modules@), root); }
        while work.len() > 0
            invariant
                self.wf(),
                self.index@ == old(self).index@,
                self.len() == old(self).len(),
                root < self.len(),
                forall|w: int| 0 <= w < work@.len() ==> #[trigger] work@[w] < self.len(),
                forall|j: int| 0 <= j < old(self).len() ==> {
                    &&& same_attributes(old(self).modules@[j], #[trigger] self.modules@[j])
                    &&& (self.modules@[j] == old(self).modules@[j]
                        || (old(self).pending(j).len() > 0
                            && linked_forward(old(self).modules@[j], self.modules@[j], old(self).index@)))
                },
                self.pending(root as int).len() == 0 || work@.contains(root),
                forall|j: int, k: int|
                    0 <= j < old(self).len() && old(self).pending(j).len() > 0 && self.pending(j).len() == 0
                        && 0 <= k < self.succ(j).len()
                        ==> self.pending(#[trigger] self.succ(j)[k] as int).len() == 0
                            || work@.contains(self.succ(j)[k]),
                !tolerate_unresolved ==> forall|j: int|
                    0 <= j < old(self).len() && old(self).pending(j).len() > 0 && #[trigger] self.pending(j).len() == 0
                        ==> unresolved_names(old(self).index@, old(self).pending_names(j)).len() == 0,
                forall|p: int| 0 <= p < work@.len() ==> reaches(adjacency(self.modules@), root, #[trigger] work@[p]),
                forall|j: int| 0 <= j < old(self).len() && #[trigger] self.modules@[j] != old(self).modules@[j]
                    ==> reaches(adjacency(self.modules@), root, j as usize),
            decreases undrained(self.modules@), work@.len(),
        {
            let ghost w_before = work@;
            let ghost g0 = *self;
            let x = work.pop().unwrap();
            proof {
                assert forall|v: usize| w_before.contains(v) && v != x implies work@.contains(v) by {
                    let q = choose|q: int| 0 <= q < w_before.len() && w_before[q] == v;
                    assert(q < work@.len());
                    assert(work@[q] == v);
                }
            }
            if self.modules[x].undefined_symbols.len() > 0 {
                let ghost before = self.modules@;
                let unresolved = self.link_module_forward(x);
                proof {
                    lemma_undrained_update(before, x as int, self.modules@[x as int]);
                    assert(self.modules@ =~= before.update(x as int, self.modules@[x as int]));
                    let a0 = adjacency(before);
                    let a1 = adjacency(self.modules@);
                    assert(reaches(a0, root, x)) by {
                        assert(w_before[w_before.len() - 1] == x);
                    }
                    assert(adj_grows(a0, a1)) by {
                        assert forall|i: int, k: int| 0 <= i < a0.len() && 0 <= k < a0[i].len()
                            implies a1[i].contains(#[trigger] a0[i][k]) by {
                            if i == x {
                                assert(a0[i].contains(a0[i][k]));
                                lemma_add_targets_keeps(before[i].edges@,
                                    resolved_owners(old(self).index@, before[i].undefined_symbols@.map_values(|s: String| s@)),
                                    a0[i][k]);
                            } else {
                                assert(a0[i][k] == a1[i][k]);
                            }
                        }
                    }
                    lemma_reaches_grows(a0, a1, root, x);
                    assert forall|p: int| 0 <= p < work@.len() implies reaches(a1, root, #[trigger] work@[p]) by {
                        assert(work@[p] == w_before[p]);
                        lemma_reaches_grows(a0, a1, root, work@[p]);
                    }
                    assert forall|j: int| 0 <= j < old(self).len() && #[trigger] self.modules@[j] != old(self).modules@[j]
                        implies reaches(a1, root, j as usize) by {
                        if j != x {
                            assert(self.modules@[j] == before[j]);
                            lemma_reaches_grows(a0, a1, root, j as usize);
                        }
                    }
                }
                if unresolved.len() > 0 && !tolerate_unresolved {
                    return Err(GraphError::Unresolved { module: x, symbols: unresolved });
                }
                let ghost w0 = work@;
                let mut k: usize = 0;
                while k < self.modules[x].edges.len()
                    invariant
                        self.wf(),
                        x < self.len(),
                        0 <= k <= self.succ(x as int).len(),
                        forall|w: int| 0 <= w < work@.len() ==> #[trigger] work@[w] < self.len(),
                        forall|q: int| 0 <= q < k ==> self.pending(#[trigger] self.succ(x as int)[q] as int).len() == 0
                            || work@.contains(self.succ(x as int)[q]),
                        w0.len() <= work@.len(),
                        work@.subrange(0, w0.len() as int) == w0,
                        reaches(adjacency(self.modules@), root, x),
                        forall|p: int| 0 <= p < work@.len() ==> reaches(adjacency(self.modules@), root, #[trigger] work@[p]),
                    decreases self.succ(x as int).len() - k,
                {
                    let t = self.modules[x].edges[k];
                    if self.modules[t].undefined_symbols.len() > 0 {
                        let ghost wprev = work@;
                        proof {
                            assert(adjacency(self.modules@)[x as int].contains(t)) by {
                                assert(adjacency(self.modules@)[x as int][k as int] == t);
                            }
                            lemma_reaches_step(adjacency(self.modules@), root, x, t);
                        }
                        work.push(t);
                        proof {
                            assert forall|p: int| 0 <= p < work@.len() implies reaches(adjacency(self.modules@), root, #[trigger] work@[p]) by {
                                if p < wprev.len() {
                                    assert(work@[p] == wprev[p]);
                                }
                            }
                            assert forall|v: usize| wprev.contains(v) implies work@.contains(v) by {
                                let q = choose|q: int| 0 <= q < wprev.len() && wprev[q] == v;
                                assert(work@[q] == v);
                            }
                            assert(work@[wprev.len() as int] == t);
                            assert(work@.subrange(0, w0.len() as int) =~= wprev.subrange(0, w0.len() as int));
                        }
                    }
                    k = k + 1;
                }
                proof {
                    assert forall|v: usize| w0.contains(v) implies work@.contains(v) by {
                        let q = choose|q: int| 0 <= q < w0.len() && w0[q] == v;
                        assert(work@.subrange(0, w0.len() as int)[q] == v);
                    }
                    assert(g0.modules@[x as int] == old(self).modules@[x as int]);
                    assert forall|j: int, k: int|
                        0 <= j < old(self).len() && old(self).pending(j).len() > 0 && self.pending(j).len() == 0
                            && 0 <= k < self.succ(j).len()
                            implies self.pending(#[trigger] self.succ(j)[k] as int).len() == 0
                                || work@.contains(self.succ(j)[k]) by {
                        if j != x {
                            assert(self.modules@[j] == g0.modules@[j]);
                            let t = g0.succ(j)[k];
                            assert(g0.pending(t as int).len() == 0 || w_before.contains(t));
                            if t != x {
                                assert(self.modules@[t as int] == g0.modules@[t as int]);
                            }
                        }
                    }
                    assert forall|j: int|
                        0 <= j < old(self).len() && old(self).pending(j).len() > 0 && #[trigger] self.pending(j).len() == 0
                            && !tolerate_unresolved
                            implies unresolved_names(old(self).index@, old(self).pending_names(j)).len() == 0 by {
                        if j != x {
                            assert(self.modules@[j] == g0.modules@[j]);
                            assert(g0.pending(j).len() == 0);
                        } else {
                            assert(unresolved@.len() == 0);
                            assert(unresolved@.map_values(|s: String| s@).len() == 0);
                            assert(g0.pending_names(x as int) == old(self).pending_names(x as int));
                            assert(g0.index@ == old(self).index@);
                        }
                    }
                }
            }
        }
        Ok(())
    }
}

} // verus!
