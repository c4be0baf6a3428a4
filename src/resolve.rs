use vstd::prelude::*;
use crate::module::ModuleStatus;
use crate::graph::{ModuleGraph, GraphError, unresolved_names, same_attributes};
use crate::ordering::{adjacency, reaches, same_but_status, closes_open_path};
use crate::module::Module;

verus! {

/// `top` is the first real module named `name`.
pub open spec fn root_index(mods: Seq<Module>, name: Seq<char>, top: int) -> bool {
    &&& 1 <= top < mods.len()
    &&& mods[top].name@ == name
    &&& forall|j: int| 1 <= j < top ==> #[trigger] mods[j].name@ != name
}

/// Why an ordering run stopped.
pub enum OrderError {
    /// No discovered module has the requested name.
    MissingRoot,
    /// Symbols of the named module that no module owns.
    Unresolved { module: String, symbols: Vec<String> },
    /// The edge `from -> to` closed a cycle.
    Cycle { from: String, to: String },
}

impl ModuleGraph {
    /// First real module (the linkage module left out) with the given name.
    pub fn find_module(&self, name: &str) -> (r: Option<usize>)
        ensures
            r matches Some(i) ==> 1 <= i < self.len() && self.modules@[i as int].name@ == name@
                && forall|j: int| 1 <= j < i ==> #[trigger] self.modules@[j].name@ != name@,
            r is None ==> forall|j: int| 1 <= j < self.len() ==> #[trigger] self.modules@[j].name@ != name@,
    {
        let wanted = name.to_owned();
        let mut i: usize = 1;
        while i < self.modules.len()
            invariant
                1 <= i,
                i <= self.len() || self.len() == 0,
                wanted@ == name@,
                forall|j: int| 1 <= j < i && j < self.len() ==> #[trigger] self.modules@[j].name@ != name@,
            decreases self.len() - i,
        {
            if self.modules[i].name == wanted {
                return Some(i);
            }
            i = i + 1;
        }
        None
    }

    /// Ordering mode for the module named `root`: links it and everything
    /// it comes to depend on, then orders them dependencies first.
    pub fn resolve(&mut self, root: &str, tolerate_unresolved: bool) -> (r: Result<Vec<usize>, OrderError>)
        requires
            old(self).wf(),
            old(self).unwalked(),
        ensures
            final(self).wf(),
            final(self).len() == old(self).len(),
            (r matches Err(OrderError::MissingRoot)) <==>
                forall|j: int| 1 <= j < old(self).len() ==> #[trigger] old(self).modules@[j].name@ != root@,
            r matches Ok(order) ==> {
                let adj = adjacency(final(self).modules@);
                let top = order@.last();
                &&& order@.no_duplicates()
                &&& order@.len() > 0
                &&& 1 <= top < old(self).len()
                &&& old(self).modules@[top as int].name@ == root@
                &&& forall|p: int| 0 <= p < order@.len() ==> #[trigger] order@[p] < old(self).len()
                &&& forall|x: usize| x < old(self).len() ==> (order@.contains(x) <==> #[trigger] reaches(adj, top, x))
                &&& forall|p: int, k: int| 0 <= p < order@.len() && 0 <= k < adj[order@[p] as int].len()
                    ==> order@.subrange(0, p).contains(#[trigger] adj[order@[p] as int][k])
            },
            r matches Ok(order) ==> root_index(old(self).modules@, root@, order@.last() as int),
            r matches Err(OrderError::Cycle { from: a, to: b }) ==> exists|top: usize, from: usize, to: usize|
                root_index(old(self).modules@, root@, top as int)
                && from < old(self).len()
                && to < old(self).len()
                && old(self).modules@[from as int].name@ == a@
                && old(self).modules@[to as int].name@ == b@
                && adjacency(final(self).modules@)[from as int].contains(to)
                && reaches(adjacency(final(self).modules@), to, from)
                && reaches(adjacency(final(self).modules@), top, from)
                && #[trigger] closes_open_path(adjacency(final(self).modules@), top, from, to),
            r matches Err(OrderError::Unresolved { module, symbols }) ==> !tolerate_unresolved && exists|top: usize, j: usize|
                root_index(old(self).modules@, root@, top as int)
                && 1 <= j < old(self).len()
                && old(self).modules@[j as int].name@ == module@
                && old(self).pending(j as int).len() > 0
                && symbols@.len() > 0
                && symbols@.map_values(|s: String| s@) == unresolved_names(old(self).index@, old(self).pending_names(j as int))
                && #[trigger] reaches(adjacency(final(self).modules@), top, j),
    {
        let top = match self.find_module(root) {
            Some(i) => i,
            None => {
                return Err(OrderError::MissingRoot);
            },
        };
        match self.link_dependencies(top, tolerate_unresolved) {
            Ok(()) => {},
            Err(GraphError::Unresolved { module, symbols }) => {
                let name = self.modules[module].name.clone();
                proof {
                    assert(module != 0) by {
                        assert(old(self).pending(0).len() == 0);
                    }
                    assert(old(self).modules@[module as int].name@ == name@) by {
                        assert(same_attributes(old(self).modules@[module as int], self.modules@[module as int]));
                    }
                    assert(root_index(old(self).modules@, root@, top as int));
                    assert(reaches(adjacency(self.modules@), top, module));
                }
                return Err(OrderError::Unresolved { module: name, symbols });
            },
            Err(GraphError::Cycle { from, to }) => {
                let a = self.modules[from].name.clone();
                let b = self.modules[to].name.clone();
                return Err(OrderError::Cycle { from: a, to: b });
            },
        }
        let ghost linked = self.modules@;
        proof {
            assert forall|i: int| 0 <= i < self.len() implies {
                &&& #[trigger] self.status(i) == ModuleStatus::Untouched
                &&& self.modules@[i].max_chain_length == 0
            } by {
                assert(old(self).status(i) == ModuleStatus::Untouched);
                assert(old(self).modules@[i].max_chain_length == 0);
            }
        }
        match self.order(top) {
            Ok(order) => {
                proof {
                    assert(adjacency(self.modules@) =~= adjacency(linked)) by {
                        assert forall|j: int| 0 <= j < linked.len() implies
                            #[trigger] adjacency(self.modules@)[j] == adjacency(linked)[j] by {
                            assert(same_but_status(linked[j], self.modules@[j]));
                        }
                    }
                }
                Ok(order)
            },
            Err(GraphError::Cycle { from, to }) => {
                proof {
                    assert(adjacency(self.modules@) =~= adjacency(linked)) by {
                        assert forall|j: int| 0 <= j < linked.len() implies
                            #[trigger] adjacency(self.modules@)[j] == adjacency(linked)[j] by {
                            assert(same_but_status(linked[j], self.modules@[j]));
                        }
                    }
                    assert(adjacency(self.modules@)[from as int].contains(to));
                }
                let a = self.modules[from].name.clone();
                let b = self.modules[to].name.clone();
                Err(OrderError::Cycle { from: a, to: b })
            },
            Err(GraphError::Unresolved { module, symbols }) => {
                let name = self.modules[module].name.clone();
                Err(OrderError::Unresolved { module: name, symbols })
            },
        }
    }
}

} // verus!
