use vstd::prelude::*;
use crate::module::{Module, ModuleStatus};
use crate::ordering::{
    untouched, lemma_untouched_update, adjacency, reaches, is_walk, lemma_walk_push,
    lemma_closed_holds_reachable, lemma_push_contains,
};
use crate::graph::{
    ModuleGraph, LINKAGE, edges_wf, holds, resolved_owners, same_attributes, undrained,
    lemma_undrained_update,
};

verus! {

/// Names of a module's pending undefined symbols.
pub open spec fn names_of(m: Module) -> Seq<Seq<char>> {
    m.undefined_symbols@.map_values(|s: String| s@)
}

/// What diffusion-mode linking did between `before` and `after`: each module
/// either keeps its pending symbols or has consumed them; edges are only
/// appended; and `a` gained the dependent `b` exactly when `b` consumed its
/// symbols and one of them is owned by `a`, which is not the linkage module.
pub open spec fn dependents_linked(
    before: Seq<Module>,
    after: Seq<Module>,
    index: Map<Seq<char>, usize>,
) -> bool {
    &&& after.len() == before.len()
    &&& forall|j: int| 0 <= j < before.len() ==> same_attributes(before[j], #[trigger] after[j])
    &&& forall|j: int| 0 <= j < before.len() ==>
        (#[trigger] after[j].undefined_symbols == before[j].undefined_symbols
            || after[j].undefined_symbols@.len() == 0)
    &&& forall|j: int| 0 <= j < before.len() ==> {
        &&& before[j].edges@.len() <= (#[trigger] after[j]).edges@.len()
        &&& after[j].edges@.subrange(0, before[j].edges@.len() as int) == before[j].edges@
    }
    &&& forall|a: usize, b: usize| a < before.len() && b < before.len() ==>
        ((#[trigger] after[a as int].edges@.contains(b)) <==> (before[a as int].edges@.contains(b) || {
            &&& before[b as int].undefined_symbols@.len() > 0
            &&& after[b as int].undefined_symbols@.len() == 0
            &&& a != LINKAGE
            &&& resolved_owners(index, names_of(before[b as int])).contains(a)
        }))
}

/// Why `a -> b` may stand part way through linking `m`, with `done` the
/// names of `m` handled so far.
pub open spec fn edge_so_far(
    m0: Seq<Module>,
    cur: Seq<Module>,
    index: Map<Seq<char>, usize>,
    done: Seq<Seq<char>>,
    m: usize,
    a: usize,
    b: usize,
) -> bool {
    ||| m0[a as int].edges@.contains(b)
    ||| {
        &&& b != m
        &&& m0[b as int].undefined_symbols@.len() > 0
        &&& cur[b as int].undefined_symbols@.len() == 0
        &&& a != LINKAGE
        &&& resolved_owners(index, names_of(m0[b as int])).contains(a)
    }
    ||| (b == m && a != LINKAGE && resolved_owners(index, done).contains(a))
}

/// Modules holding pending symbols never outnumber the modules.
pub proof fn lemma_undrained_bounded(mods: Seq<Module>)
    ensures
        undrained(mods) <= mods.len(),
    decreases mods.len(),
{
    if mods.len() > 0 {
        lemma_undrained_bounded(mods.drop_last());
    }
}

/// Linking steps compose.
pub proof fn lemma_dependents_linked_trans(
    a: Seq<Module>,
    b: Seq<Module>,
    c: Seq<Module>,
    index: Map<Seq<char>, usize>,
)
    requires
        dependents_linked(a, b, index),
        dependents_linked(b, c, index),
    ensures
        dependents_linked(a, c, index),
{
    assert forall|j: int| 0 <= j < a.len() implies {
        &&& a[j].edges@.len() <= (#[trigger] c[j]).edges@.len()
        &&& c[j].edges@.subrange(0, a[j].edges@.len() as int) == a[j].edges@
    } by {
        assert(b[j].edges@.len() <= c[j].edges@.len());
        assert(c[j].edges@.subrange(0, a[j].edges@.len() as int)
            =~= c[j].edges@.subrange(0, b[j].edges@.len() as int).subrange(0, a[j].edges@.len() as int));
    }
    assert forall|j: int| 0 <= j < a.len() implies
        (#[trigger] c[j].undefined_symbols == a[j].undefined_symbols || c[j].undefined_symbols@.len() == 0) by {
        assert(b[j].undefined_symbols == a[j].undefined_symbols || b[j].undefined_symbols@.len() == 0);
        assert(c[j].undefined_symbols == b[j].undefined_symbols || c[j].undefined_symbols@.len() == 0);
    }
    assert forall|x: usize, y: usize| x < a.len() && y < a.len() implies
        ((#[trigger] c[x as int].edges@.contains(y)) <==> (a[x as int].edges@.contains(y) || {
            &&& a[y as int].undefined_symbols@.len() > 0
            &&& c[y as int].undefined_symbols@.len() == 0
            &&& x != LINKAGE
            &&& resolved_owners(index, names_of(a[y as int])).contains(x)
        })) by {
        assert(b[x as int].edges@.contains(y) <==> (a[x as int].edges@.contains(y) || {
            &&& a[y as int].undefined_symbols@.len() > 0
            &&& b[y as int].undefined_symbols@.len() == 0
            &&& x != LINKAGE
            &&& resolved_owners(index, names_of(a[y as int])).contains(x)
        }));
        assert(b[y as int].undefined_symbols == a[y as int].undefined_symbols || b[y as int].undefined_symbols@.len() == 0);
        assert(c[y as int].undefined_symbols == b[y as int].undefined_symbols || c[y as int].undefined_symbols@.len() == 0);
    }
}

/// Pending symbol names of each module.
pub open spec fn pending_view(mods: Seq<Module>) -> Seq<Seq<Seq<char>>> {
    mods.map_values(|m: Module| names_of(m))
}

/// Diffusion-mode linking of `m`, step by step, over the edges `adj` and the
/// pending names `pend`: `m`'s names are consumed in order; for each owned
/// by a module `p` other than the linkage module that does not yet list
/// `m`, `m` is appended to `p`'s edges and `p` is linked the same way
/// before the next name. `fuel` bounds the depth.
pub open spec fn link_node(
    adj: Seq<Seq<usize>>,
    pend: Seq<Seq<Seq<char>>>,
    index: Map<Seq<char>, usize>,
    m: int,
    fuel: nat,
) -> (Seq<Seq<usize>>, Seq<Seq<Seq<char>>>)
    decreases fuel, 0nat, 0nat,
{
    if fuel == 0 {
        (adj, pend)
    } else {
        link_names(adj, pend.update(m, seq![]), index, m, pend[m], (fuel - 1) as nat)
    }
}

/// The steps of `link_node` for the names `names` of `m`, in order.
pub open spec fn link_names(
    adj: Seq<Seq<usize>>,
    pend: Seq<Seq<Seq<char>>>,
    index: Map<Seq<char>, usize>,
    m: int,
    names: Seq<Seq<char>>,
    fuel: nat,
) -> (Seq<Seq<usize>>, Seq<Seq<Seq<char>>>)
    decreases fuel, 1nat, names.len(),
{
    if names.len() == 0 {
        (adj, pend)
    } else {
        let (a1, p1) = link_names(adj, pend, index, m, names.drop_last(), fuel);
        let s = names.last();
        if index.contains_key(s) && index[s] != LINKAGE && !a1[index[s] as int].contains(m as usize) {
            let p = index[s] as int;
            link_node(a1.update(p, a1[p].push(m as usize)), p1, index, p, fuel)
        } else {
            (a1, p1)
        }
    }
}

/// Linking modules `0..n` in turn.
pub open spec fn link_sweep(
    adj: Seq<Seq<usize>>,
    pend: Seq<Seq<Seq<char>>>,
    index: Map<Seq<char>, usize>,
    n: int,
) -> (Seq<Seq<usize>>, Seq<Seq<Seq<char>>>)
    decreases n,
{
    if n <= 0 {
        (adj, pend)
    } else {
        let (a, p) = link_sweep(adj, pend, index, n - 1);
        link_node(a, p, index, n - 1, adj.len() + 1)
    }
}

impl ModuleGraph {
    /// Diffusion-mode link of `m`: consumes its undefined symbols; for each
    /// one owned by a module `p` other than the linkage module, records `m`
    /// as a dependent of `p` (once) and, when that edge is new, links `p`
    /// the same way before going on.
    pub fn link_dependents(&mut self, m: usize)
        requires
            old(self).wf(),
            m < old(self).len(),
        ensures
            final(self).wf(),
            final(self).index@ == old(self).index@,
            final(self).pending(m as int).len() == 0,
            dependents_linked(old(self).modules@, final(self).modules@, old(self).index@),
            undrained(final(self).modules@) <= undrained(old(self).modules@),
            (adjacency(final(self).modules@), pending_view(final(self).modules@)) == link_node(
                adjacency(old(self).modules@),
                pending_view(old(self).modules@),
                old(self).index@,
                m as int,
                (old(self).len() + 1) as nat,
            ),
    {
        proof { lemma_undrained_bounded(self.modules@); }
        self.link_dependents_from(m, Ghost((self.modules@.len() + 1) as nat));
    }

    /// The linking of `link_dependents`, with `fuel` bounding its depth.
    fn link_dependents_from(&mut self, m: usize, Ghost(fuel): Ghost<nat>)
        requires
            old(self).wf(),
            m < old(self).len(),
            fuel > undrained(old(self).modules@),
        ensures
            final(self).wf(),
            final(self).index@ == old(self).index@,
            final(self).pending(m as int).len() == 0,
            dependents_linked(old(self).modules@, final(self).modules@, old(self).index@),
            undrained(final(self).modules@) <= undrained(old(self).modules@),
            (adjacency(final(self).modules@), pending_view(final(self).modules@))
                == link_node(adjacency(old(self).modules@), pending_view(old(self).modules@), old(self).index@, m as int, fuel),
        decreases undrained(old(self).modules@),
    {
        let ghost m0 = self.modules@;
        let ghost index = self.index@;
        let mut pending: Vec<String> = Vec::new();
        std::mem::swap(&mut pending, &mut self.modules[m].undefined_symbols);
        let ghost names = pending@.map_values(|s: String| s@);
        let ghost s_start = self.modules@;
        proof {
            assert(names == names_of(m0[m as int]));
            lemma_undrained_update(m0, m as int, self.modules@[m as int]);
            assert(self.modules@ =~= m0.update(m as int, self.modules@[m as int]));
            assert(adjacency(s_start) =~= adjacency(m0));
            assert(names_of(s_start[m as int]) =~= seq![]);
            assert(pending_view(s_start) =~= pending_view(m0).update(m as int, seq![]));
        }
        let mut i: usize = 0;
        while i < pending.len()
            invariant
                0 <= i <= pending@.len(),
                names == pending@.map_values(|s: String| s@),
                names == names_of(m0[m as int]),
                m < self.len(),
                self.wf(),
                self.index@ == index,
                index == old(self).index@,
                m0 == old(self).modules@,
                self.len() == m0.len(),
                self.pending(m as int).len() == 0,
                pending@.len() > 0 ==> undrained(self.modules@) < undrained(m0),
                undrained(self.modules@) <= undrained(m0),
                forall|j: int| 0 <= j < m0.len() ==> same_attributes(m0[j], #[trigger] self.modules@[j]),
                forall|j: int| 0 <= j < m0.len() ==>
                    (#[trigger] self.modules@[j].undefined_symbols == m0[j].undefined_symbols
                        || self.modules@[j].undefined_symbols@.len() == 0),
                forall|j: int| 0 <= j < m0.len() ==> {
                    &&& m0[j].edges@.len() <= (#[trigger] self.modules@[j]).edges@.len()
                    &&& self.modules@[j].edges@.subrange(0, m0[j].edges@.len() as int) == m0[j].edges@
                },
                forall|a: usize, b: usize| a < m0.len() && b < m0.len() ==>
                    ((#[trigger] self.modules@[a as int].edges@.contains(b)) <==> edge_so_far(m0, self.modules@, index, names.subrange(0, i as int), m, a, b)),
                fuel > undrained(m0),
                (adjacency(self.modules@), pending_view(self.modules@))
                    == link_names(adjacency(s_start), pending_view(s_start), index, m as int, names.subrange(0, i as int), (fuel - 1) as nat),
            decreases pending@.len() - i,
        {
            let ghost pre = names.subrange(0, i as int);
            let ghost st = self.modules@;
            assert(names.subrange(0, i + 1).drop_last() == pre);
            assert(names.subrange(0, i + 1).last() == pending@[i as int]@);
            match self.index.get(pending[i].as_str()) {
                Some(p) => {
                    let p = *p;
                    assert(resolved_owners(index, names.subrange(0, i + 1)) == resolved_owners(index, pre).push(p));
                    proof {
                        assert forall|a: usize| resolved_owners(index, pre).contains(a)
                            implies resolved_owners(index, pre).push(p).contains(a) by {
                            let q = choose|q: int| 0 <= q < resolved_owners(index, pre).len() && resolved_owners(index, pre)[q] == a;
                            assert(resolved_owners(index, pre).push(p)[q] == a);
                        }
                        assert(resolved_owners(index, pre).push(p)[resolved_owners(index, pre).len() as int] == p);
                    }
                    if p != LINKAGE && !holds(&self.modules[p].edges, m) {
                        let ghost s0 = self.modules@;
                        self.modules[p].edges.push(m);
                        let ghost s1 = self.modules@;
                        proof {
                            assert(s1 =~= s0.update(p as int, s1[p as int]));
                            lemma_undrained_update(s0, p as int, s1[p as int]);
                            assert(s1[p as int].edges@ == s0[p as int].edges@.push(m));
                            assert forall|b: usize| s1[p as int].edges@.contains(b) <==> (s0[p as int].edges@.contains(b) || b == m) by {
                                crate::ordering::lemma_push_contains(s0[p as int].edges@, m, b);
                            }
                            assert(s1[p as int].edges@.subrange(0, s0[p as int].edges@.len() as int) =~= s0[p as int].edges@);
                            assert forall|j: int| 0 <= j < m0.len() implies {
                                &&& m0[j].edges@.len() <= (#[trigger] s1[j]).edges@.len()
                                &&& s1[j].edges@.subrange(0, m0[j].edges@.len() as int) == m0[j].edges@
                            } by {
                                if j == p {
                                    assert(s1[j].edges@.subrange(0, m0[j].edges@.len() as int)
                                        =~= s0[j].edges@.subrange(0, m0[j].edges@.len() as int));
                                }
                            }
                            assert forall|jj: int| 0 <= jj < s1.len() implies (#[trigger] s1[jj].edges@).no_duplicates() by {
                                if jj == p {
                                    assert(!s0[p as int].edges@.contains(m));
                                }
                            }
                            assert forall|jj: int, k: int|
                                0 <= jj < s1.len() && 0 <= k < s1[jj].edges@.len() implies #[trigger] s1[jj].edges@[k] < s1.len() by {
                                if jj == p && k < s0[p as int].edges@.len() {
                                    assert(s1[jj].edges@[k] == s0[jj].edges@[k]);
                                }
                            }
                            assert(edges_wf(s1));
                            assert(self.wf());
                            assert(dependents_linked(s1, s1, index)) by {
                                assert forall|j: int| 0 <= j < s1.len() implies
                                    s1[j].edges@.subrange(0, s1[j].edges@.len() as int) == s1[j].edges@ by {
                                    assert(s1[j].edges@.subrange(0, s1[j].edges@.len() as int) =~= s1[j].edges@);
                                }
                            }
                        }
                        proof {
                            assert(adjacency(s1) =~= adjacency(s0).update(p as int, adjacency(s0)[p as int].push(m)));
                            assert(pending_view(s1) =~= pending_view(s0));
                        }
                        self.link_dependents_from(p, Ghost((fuel - 1) as nat));
                        proof {
                            let s2 = self.modules@;
                            assert forall|j: int| 0 <= j < m0.len() implies {
                                &&& m0[j].edges@.len() <= (#[trigger] s2[j]).edges@.len()
                                &&& s2[j].edges@.subrange(0, m0[j].edges@.len() as int) == m0[j].edges@
                            } by {
                                assert(s1[j].edges@.len() <= s2[j].edges@.len());
                                assert(s2[j].edges@.subrange(0, m0[j].edges@.len() as int)
                                    =~= s2[j].edges@.subrange(0, s1[j].edges@.len() as int).subrange(0, m0[j].edges@.len() as int));
                            }
                            assert forall|j: int| 0 <= j < m0.len() implies
                                (#[trigger] s2[j].undefined_symbols == m0[j].undefined_symbols
                                    || s2[j].undefined_symbols@.len() == 0) by {
                                assert(s1[j].undefined_symbols == s0[j].undefined_symbols);
                                assert(s2[j].undefined_symbols == s1[j].undefined_symbols || s2[j].undefined_symbols@.len() == 0);
                            }
                            let done = names.subrange(0, i + 1);
                            assert forall|a: usize, b: usize| a < m0.len() && b < m0.len() implies
                                ((#[trigger] s2[a as int].edges@.contains(b)) <==> edge_so_far(m0, s2, index, done, m, a, b)) by {
                                assert(s1[a as int].edges@.contains(b) <==> (s0[a as int].edges@.contains(b) || (a == p && b == m)));
                                assert(s0[a as int].edges@.contains(b) <==> edge_so_far(m0, s0, index, pre, m, a, b));
                                assert(s1[b as int].undefined_symbols == s0[b as int].undefined_symbols);
                                assert(s0[b as int].undefined_symbols == m0[b as int].undefined_symbols
                                    || s0[b as int].undefined_symbols@.len() == 0);
                                assert(s2[b as int].undefined_symbols == s1[b as int].undefined_symbols
                                    || s2[b as int].undefined_symbols@.len() == 0);
                                assert(resolved_owners(index, done).contains(a) <==> (resolved_owners(index, pre).contains(a) || a == p));
                            }
                        }
                    } else {
                        proof {
                            let done = names.subrange(0, i + 1);
                            assert forall|a: usize, b: usize| a < m0.len() && b < m0.len() implies
                                ((#[trigger] st[a as int].edges@.contains(b)) <==> edge_so_far(m0, st, index, done, m, a, b)) by {
                                assert(st[a as int].edges@.contains(b) <==> edge_so_far(m0, st, index, pre, m, a, b));
                                assert(resolved_owners(index, done).contains(a) <==> (resolved_owners(index, pre).contains(a) || a == p));
                            }
                        }
                    }
                },
                None => {
                    assert(resolved_owners(index, names.subrange(0, i + 1)) == resolved_owners(index, pre));
                    assert forall|a: usize, b: usize| a < m0.len() && b < m0.len() implies
                        ((#[trigger] st[a as int].edges@.contains(b)) <==> edge_so_far(m0, st, index, names.subrange(0, i + 1), m, a, b)) by {
                        assert(st[a as int].edges@.contains(b) <==> edge_so_far(m0, st, index, pre, m, a, b));
                    }
                },
            }
            i = i + 1;
        }
        assert(names.subrange(0, pending@.len() as int) == names);
        proof {
            let fin = self.modules@;
            assert forall|a: usize, b: usize| a < m0.len() && b < m0.len() implies
                ((#[trigger] fin[a as int].edges@.contains(b)) <==> (m0[a as int].edges@.contains(b) || {
                    &&& m0[b as int].undefined_symbols@.len() > 0
                    &&& fin[b as int].undefined_symbols@.len() == 0
                    &&& a != LINKAGE
                    &&& resolved_owners(index, names_of(m0[b as int])).contains(a)
                })) by {
                assert(fin[a as int].edges@.contains(b) <==> edge_so_far(m0, fin, index, names, m, a, b));
                if b == m && m0[b as int].undefined_symbols@.len() == 0 {
                    assert(names.len() == 0);
                    assert(resolved_owners(index, names).len() == 0);
                }
            }
        }
    }
}

/// Number of modules whose walk is complete.
pub open spec fn done_count(mods: Seq<Module>) -> nat
    decreases mods.len(),
{
    if mods.len() == 0 {
        0
    } else {
        done_count(mods.drop_last()) + if mods.last().status == ModuleStatus::Done { 1nat } else { 0nat }
    }
}

/// Replacing one module changes the count only through that module.
pub proof fn lemma_done_update(mods: Seq<Module>, i: int, m: Module)
    requires
        0 <= i < mods.len(),
    ensures
        done_count(mods.update(i, m)) + (if mods[i].status == ModuleStatus::Done { 1int } else { 0int })
            == done_count(mods) + (if m.status == ModuleStatus::Done { 1int } else { 0int }),
    decreases mods.len(),
{
    let u = mods.update(i, m);
    if i < mods.len() - 1 {
        lemma_done_update(mods.drop_last(), i, m);
        assert(u.drop_last() =~= mods.drop_last().update(i, m));
    } else {
        assert(u.drop_last() =~= mods.drop_last());
    }
}

/// A touched module is counted neither as done nor as untouched.
pub proof fn lemma_counts_with_touched(mods: Seq<Module>, i: int)
    requires
        0 <= i < mods.len(),
        mods[i].status == ModuleStatus::Touched,
    ensures
        done_count(mods) + untouched(mods) < mods.len(),
    decreases mods.len(),
{
    if i < mods.len() - 1 {
        lemma_counts_with_touched(mods.drop_last(), i);
    } else {
        lemma_counts_bounded(mods.drop_last());
    }
}

/// Counted modules never outnumber the modules.
pub proof fn lemma_counts_bounded(mods: Seq<Module>)
    ensures
        done_count(mods) + untouched(mods) <= mods.len(),
    decreases mods.len(),
{
    if mods.len() > 0 {
        lemma_counts_bounded(mods.drop_last());
    }
}

pub open spec fn rank(s: ModuleStatus) -> int {
    match s {
        ModuleStatus::Untouched => 0,
        ModuleStatus::Touched => 1,
        ModuleStatus::Done => 2,
    }
}

/// Every stored chain length stays under twice the module count plus the
/// number of finished modules.
pub open spec fn chains_bounded(mods: Seq<Module>) -> bool {
    forall|j: int| 0 <= j < mods.len() ==>
        #[trigger] mods[j].max_chain_length <= 2 * mods.len() + done_count(mods)
}

/// What one measuring step may change: statuses only advance, finished
/// modules keep their chain length, and nothing else moves.
pub open spec fn measure_frame(before: Seq<Module>, after: Seq<Module>) -> bool {
    &&& after.len() == before.len()
    &&& done_count(before) <= done_count(after)
    &&& untouched(after) <= untouched(before)
    &&& forall|j: int| 0 <= j < before.len() ==> {
        &&& (#[trigger] after[j]).name == before[j].name
        &&& after[j].element_count == before[j].element_count
        &&& after[j].undefined_symbols == before[j].undefined_symbols
        &&& after[j].edges == before[j].edges
        &&& rank(before[j].status) <= rank(after[j].status)
        &&& before[j].status == ModuleStatus::Touched ==> after[j].status == ModuleStatus::Touched
        &&& before[j].status == ModuleStatus::Done ==> after[j].max_chain_length == before[j].max_chain_length
    }
}

/// No module is left open that was not open before.
pub open spec fn no_new_touched(before: Seq<Module>, after: Seq<Module>) -> bool {
    forall|j: int| 0 <= j < before.len() && #[trigger] after[j].status == ModuleStatus::Touched
        ==> before[j].status == ModuleStatus::Touched
}

pub proof fn lemma_measure_frame_trans(a: Seq<Module>, b: Seq<Module>, c: Seq<Module>)
    requires
        measure_frame(a, b),
        measure_frame(b, c),
    ensures
        measure_frame(a, c),
{
    assert forall|j: int| 0 <= j < a.len() implies {
        &&& (#[trigger] c[j]).name == a[j].name
        &&& c[j].element_count == a[j].element_count
        &&& c[j].undefined_symbols == a[j].undefined_symbols
        &&& c[j].edges == a[j].edges
        &&& rank(a[j].status) <= rank(c[j].status)
        &&& a[j].status == ModuleStatus::Touched ==> c[j].status == ModuleStatus::Touched
        &&& a[j].status == ModuleStatus::Done ==> c[j].max_chain_length == a[j].max_chain_length
    } by {
        assert(b[j].name == a[j].name);
        assert(c[j].name == b[j].name);
        if a[j].status == ModuleStatus::Done {
            assert(rank(b[j].status) == 2);
        }
    }
}

/// `m` with another status.
pub open spec fn with_status(m: Module, s: ModuleStatus) -> Module {
    Module { status: s, ..m }
}

/// `m` with another chain length.
pub open spec fn with_chain(m: Module, c: int) -> Module {
    Module { max_chain_length: c as usize, ..m }
}

/// The measuring walk from `v` at `level`, step by step: its result and the
/// modules after it. A finished module gives its stored length; an open one
/// closes a cycle and stores `2 * level`; an untouched one is opened, its
/// dependents are walked in order one level deeper, and it is finished with
/// one more than the longest of theirs, unless its stored length is
/// already above that. `fuel` bounds the depth.
pub open spec fn walk_node(mods: Seq<Module>, v: int, level: int, fuel: nat) -> (int, Seq<Module>)
    decreases fuel, 0nat, 0nat,
{
    if fuel == 0 {
        (0, mods)
    } else if mods[v].status == ModuleStatus::Done {
        (mods[v].max_chain_length as int, mods)
    } else if mods[v].status == ModuleStatus::Touched {
        (2 * level, mods.update(v, with_chain(mods[v], 2 * level)))
    } else {
        let m1 = mods.update(v, with_status(mods[v], ModuleStatus::Touched));
        let (longest, m2) = walk_kids(m1, mods[v].edges@, level + 1, (fuel - 1) as nat);
        let cur = m2[v].max_chain_length as int;
        let ret = if cur <= longest { longest + 1 } else { cur };
        (ret, m2.update(v, with_chain(with_status(m2[v], ModuleStatus::Done), ret)))
    }
}

/// Walks each of `kids` in order; the longest result (0 if none) and the
/// modules after the last walk.
pub open spec fn walk_kids(mods: Seq<Module>, kids: Seq<usize>, level: int, fuel: nat) -> (int, Seq<Module>)
    decreases fuel, 1nat, kids.len(),
{
    if kids.len() == 0 {
        (0, mods)
    } else {
        let (l, m1) = walk_kids(mods, kids.drop_last(), level, fuel);
        let (c, m2) = walk_node(m1, kids.last() as int, level, fuel);
        (if l < c { c } else { l }, m2)
    }
}

/// What the measuring walk reads and writes of each module: status,
/// stored chain length and edges.
pub open spec fn walk_shape(mods: Seq<Module>) -> Seq<(ModuleStatus, usize, Seq<usize>)> {
    mods.map_values(|m: Module| (m.status, m.max_chain_length, m.edges@))
}

/// Every edge names a module of `mods`.
pub open spec fn targets_in_range(mods: Seq<Module>) -> bool {
    forall|i: int, k: int| 0 <= i < mods.len() && 0 <= k < mods[i].edges@.len() ==> #[trigger] mods[i].edges@[k] < mods.len()
}

proof fn lemma_shape_update(a: Seq<Module>, b: Seq<Module>, v: int, x: Module, y: Module)
    requires
        walk_shape(a) == walk_shape(b),
        targets_in_range(a),
        0 <= v < a.len(),
        x.status == y.status,
        x.max_chain_length == y.max_chain_length,
        x.edges == a[v].edges,
        y.edges == b[v].edges,
    ensures
        walk_shape(a.update(v, x)) == walk_shape(b.update(v, y)),
        targets_in_range(a.update(v, x)),
{
    assert(a.len() == walk_shape(a).len());
    assert(walk_shape(a)[v] == walk_shape(b)[v]);
    assert(walk_shape(a.update(v, x)) =~= walk_shape(b.update(v, y))) by {
        assert forall|i: int| 0 <= i < a.len() implies walk_shape(a.update(v, x))[i] == walk_shape(b.update(v, y))[i] by {
            assert(walk_shape(a)[i] == walk_shape(b)[i]);
        }
    }
    let u = a.update(v, x);
    assert forall|i: int, k: int| 0 <= i < u.len() && 0 <= k < u[i].edges@.len() implies #[trigger] u[i].edges@[k] < u.len() by {
        assert(u[i].edges == a[i].edges);
    }
}

/// Determinism of the measuring walk: two sets of modules that agree on
/// every status, stored chain length and edge list give the same result
/// from the same module and level, and agree on those again afterwards.
pub proof fn lemma_walk_node_shape(a: Seq<Module>, b: Seq<Module>, v: int, level: int, fuel: nat)
    requires
        walk_shape(a) == walk_shape(b),
        targets_in_range(a),
        0 <= v < a.len(),
    ensures
        walk_node(a, v, level, fuel).0 == walk_node(b, v, level, fuel).0,
        walk_shape(walk_node(a, v, level, fuel).1) == walk_shape(walk_node(b, v, level, fuel).1),
        targets_in_range(walk_node(a, v, level, fuel).1),
    decreases fuel, 0nat, 0nat,
{
    assert(a.len() == walk_shape(a).len() && b.len() == walk_shape(b).len());
    assert(walk_shape(a)[v] == walk_shape(b)[v]);
    if fuel == 0 || a[v].status == ModuleStatus::Done {
    } else if a[v].status == ModuleStatus::Touched {
        lemma_shape_update(a, b, v, with_chain(a[v], 2 * level), with_chain(b[v], 2 * level));
    } else {
        let m1a = a.update(v, with_status(a[v], ModuleStatus::Touched));
        let m1b = b.update(v, with_status(b[v], ModuleStatus::Touched));
        lemma_shape_update(a, b, v, with_status(a[v], ModuleStatus::Touched), with_status(b[v], ModuleStatus::Touched));
        assert forall|k: int| 0 <= k < a[v].edges@.len() implies #[trigger] a[v].edges@[k] < m1a.len() by {}
        lemma_walk_kids_shape(m1a, m1b, a[v].edges@, level + 1, (fuel - 1) as nat);
        let (la, m2a) = walk_kids(m1a, a[v].edges@, level + 1, (fuel - 1) as nat);
        let (lb, m2b) = walk_kids(m1b, b[v].edges@, level + 1, (fuel - 1) as nat);
        assert(m2a.len() == walk_shape(m2a).len() && m2b.len() == walk_shape(m2b).len());
        assert(walk_shape(m2a)[v] == walk_shape(m2b)[v]);
        let ca = m2a[v].max_chain_length as int;
        let ra = if ca <= la { la + 1 } else { ca };
        lemma_shape_update(m2a, m2b, v, with_chain(with_status(m2a[v], ModuleStatus::Done), ra),
            with_chain(with_status(m2b[v], ModuleStatus::Done), ra));
    }
}

/// The same for a list of dependents walked in turn.
pub proof fn lemma_walk_kids_shape(a: Seq<Module>, b: Seq<Module>, kids: Seq<usize>, level: int, fuel: nat)
    requires
        walk_shape(a) == walk_shape(b),
        targets_in_range(a),
        forall|k: int| 0 <= k < kids.len() ==> #[trigger] kids[k] < a.len(),
    ensures
        walk_kids(a, kids, level, fuel).0 == walk_kids(b, kids, level, fuel).0,
        walk_shape(walk_kids(a, kids, level, fuel).1) == walk_shape(walk_kids(b, kids, level, fuel).1),
        targets_in_range(walk_kids(a, kids, level, fuel).1),
        walk_kids(a, kids, level, fuel).1.len() == a.len(),
    decreases fuel, 1nat, kids.len(),
{
    if kids.len() > 0 {
        let pre = kids.drop_last();
        assert forall|k: int| 0 <= k < pre.len() implies #[trigger] pre[k] < a.len() by {
            assert(pre[k] == kids[k]);
        }
        lemma_walk_kids_shape(a, b, pre, level, fuel);
        let (la, m1a) = walk_kids(a, pre, level, fuel);
        let (lb, m1b) = walk_kids(b, pre, level, fuel);
        assert(kids[kids.len() - 1] < a.len());
        lemma_walk_node_shape(m1a, m1b, kids.last() as int, level, fuel);
        lemma_walk_node_len(m1a, kids.last() as int, level, fuel);
    }
}

/// The measuring walk keeps the number of modules.
pub proof fn lemma_walk_node_len(a: Seq<Module>, v: int, level: int, fuel: nat)
    requires
        targets_in_range(a),
        0 <= v < a.len(),
    ensures
        walk_node(a, v, level, fuel).1.len() == a.len(),
    decreases fuel, 0nat, 0nat,
{
    if fuel > 0 && a[v].status == ModuleStatus::Untouched {
        let m1 = a.update(v, with_status(a[v], ModuleStatus::Touched));
        lemma_shape_update(a, a, v, with_status(a[v], ModuleStatus::Touched), with_status(a[v], ModuleStatus::Touched));
        assert forall|k: int| 0 <= k < a[v].edges@.len() implies #[trigger] a[v].edges@[k] < m1.len() by {}
        lemma_walk_kids_shape(m1, m1, a[v].edges@, level + 1, (fuel - 1) as nat);
    }
}

/// Cycle tolerance: meeting a module that is still open, at any level,
/// gives twice that level and leaves the module open with that length,
/// without failing.
pub proof fn lemma_open_module_gives_twice_level(mods: Seq<Module>, v: int, level: int, fuel: nat)
    requires
        0 <= v < mods.len(),
        fuel > 0,
        mods[v].status == ModuleStatus::Touched,
    ensures
        walk_node(mods, v, level, fuel).0 == 2 * level,
        walk_node(mods, v, level, fuel).1[v].status == ModuleStatus::Touched,
        walk_node(mods, v, level, fuel).1[v].max_chain_length == (2 * level) as usize,
        walk_node(mods, v, level, fuel).1.len() == mods.len(),
{
}

/// Monotonicity, for a list of dependents: walking one more dependent
/// never lowers the longest result, which is at least that dependent's.
pub proof fn lemma_more_dependents_not_shorter(mods: Seq<Module>, kids: Seq<usize>, t: usize, level: int, fuel: nat)
    ensures
        walk_kids(mods, kids.push(t), level, fuel).0 >= walk_kids(mods, kids, level, fuel).0,
        walk_kids(mods, kids.push(t), level, fuel).0
            >= walk_node(walk_kids(mods, kids, level, fuel).1, t as int, level, fuel).0,
{
    assert(kids.push(t).drop_last() =~= kids);
}

/// Monotonicity, for one module: an untouched module's chain length is
/// more than the longest result among its dependents' walks.
pub proof fn lemma_longer_than_dependents(mods: Seq<Module>, v: int, level: int, fuel: nat)
    requires
        0 <= v < mods.len(),
        fuel > 0,
        mods[v].status == ModuleStatus::Untouched,
    ensures
        walk_node(mods, v, level, fuel).0 >= walk_kids(
            mods.update(v, with_status(mods[v], ModuleStatus::Touched)),
            mods[v].edges@,
            level + 1,
            (fuel - 1) as nat,
        ).0 + 1,
{
}

impl ModuleGraph {
    /// Longest chain of dependents below `v`, memoised; see `walk_node`.
    /// A finished module gives its stored length; one met again while
    /// still open closes a cycle and gets `2 * level`; otherwise one more
    /// than the longest chain among its dependents, kept if above the
    /// stored length.
    pub fn measure(&mut self, v: usize, level: usize) -> (r: usize)
        requires
            edges_wf(old(self).modules@),
            v < old(self).len(),
            3 * old(self).len() <= usize::MAX,
            level + untouched(old(self).modules@) <= old(self).len(),
            chains_bounded(old(self).modules@),
        ensures
            final(self).index@ == old(self).index@,
            measure_frame(old(self).modules@, final(self).modules@),
            no_new_touched(old(self).modules@, final(self).modules@),
            chains_bounded(final(self).modules@),
            (r as int, final(self).modules@)
                == walk_node(old(self).modules@, v as int, level as int, untouched(old(self).modules@) + 1),
            r == final(self).modules@[v as int].max_chain_length,
            old(self).modules@[v as int].status == ModuleStatus::Done ==> r == old(self).modules@[v as int].max_chain_length,
            old(self).modules@[v as int].status == ModuleStatus::Touched ==> {
                &&& r == 2 * level
                &&& final(self).modules@[v as int].status == ModuleStatus::Touched
            },
            old(self).modules@[v as int].status == ModuleStatus::Untouched ==> {
                &&& final(self).modules@[v as int].status == ModuleStatus::Done
                &&& r >= 1
                &&& forall|k: int| 0 <= k < final(self).succ(v as int).len()
                    && final(self).modules@[#[trigger] final(self).succ(v as int)[k] as int].status == ModuleStatus::Done
                    && final(self).succ(v as int)[k] != v
                    ==> final(self).modules@[final(self).succ(v as int)[k] as int].max_chain_length < r
            },
    {
        self.measure_from(v, level, Ghost(untouched(self.modules@) + 1))
    }

    /// The walk of `measure`, with `fuel` bounding its depth.
    fn measure_from(&mut self, v: usize, level: usize, Ghost(fuel): Ghost<nat>) -> (r: usize)
        requires
            fuel > untouched(old(self).modules@),
            edges_wf(old(self).modules@),
            v < old(self).len(),
            3 * old(self).len() <= usize::MAX,
            level + untouched(old(self).modules@) <= old(self).len(),
            chains_bounded(old(self).modules@),
        ensures
            final(self).index@ == old(self).index@,
            measure_frame(old(self).modules@, final(self).modules@),
            no_new_touched(old(self).modules@, final(self).modules@),
            chains_bounded(final(self).modules@),
            r == final(self).modules@[v as int].max_chain_length,
            old(self).modules@[v as int].status == ModuleStatus::Done ==> r == old(self).modules@[v as int].max_chain_length,
            old(self).modules@[v as int].status == ModuleStatus::Touched ==> {
                &&& r == 2 * level
                &&& final(self).modules@[v as int].status == ModuleStatus::Touched
            },
            old(self).modules@[v as int].status == ModuleStatus::Untouched ==> {
                &&& final(self).modules@[v as int].status == ModuleStatus::Done
                &&& r >= 1
                &&& forall|k: int| 0 <= k < final(self).succ(v as int).len()
                    && final(self).modules@[#[trigger] final(self).succ(v as int)[k] as int].status == ModuleStatus::Done
                    && final(self).succ(v as int)[k] != v
                    ==> final(self).modules@[final(self).succ(v as int)[k] as int].max_chain_length < r
            },
            (r as int, final(self).modules@) == walk_node(old(self).modules@, v as int, level as int, fuel),
        decreases untouched(old(self).modules@),
    {
        let ghost m0 = self.modules@;
        let ghost n = m0.len();
        proof { lemma_counts_bounded(m0); }
        match self.modules[v].status {
            ModuleStatus::Done => {
                return self.modules[v].max_chain_length;
            },
            ModuleStatus::Touched => {
                let c = level * 2;
                self.modules[v].max_chain_length = c;
                proof {
                    assert(self.modules@[v as int] == with_chain(m0[v as int], 2 * level));
                    assert(self.modules@ =~= m0.update(v as int, self.modules@[v as int]));
                    lemma_done_update(m0, v as int, self.modules@[v as int]);
                    lemma_untouched_update(m0, v as int, self.modules@[v as int]);
                }
                return c;
            },
            ModuleStatus::Untouched => {},
        }
        self.modules[v].status = ModuleStatus::Touched;
        proof {
            assert(self.modules@ =~= m0.update(v as int, self.modules@[v as int]));
            let mm = self.modules@;
            assert forall|j: int, q: int| 0 <= j < mm.len() && 0 <= q < mm[j].edges@.len()
                implies #[trigger] mm[j].edges@[q] < mm.len() by {
                assert(mm[j].edges == m0[j].edges);
            }
            assert forall|j: int| 0 <= j < mm.len() implies (#[trigger] mm[j].edges@).no_duplicates() by {
                assert(mm[j].edges == m0[j].edges);
            }
            lemma_done_update(m0, v as int, self.modules@[v as int]);
            lemma_untouched_update(m0, v as int, self.modules@[v as int]);
        }
        let ghost m1 = self.modules@;
        assert(m1[v as int] == with_status(m0[v as int], ModuleStatus::Touched));
        assert(m1 =~= m0.update(v as int, with_status(m0[v as int], ModuleStatus::Touched)));
        let mut longest: usize = 0;
        let mut k: usize = 0;
        while k < self.modules[v].edges.len()
            invariant
                edges_wf(self.modules@),
                v < self.len(),
                n == self.len(),
                3 * n <= usize::MAX,
                level + untouched(m0) <= n,
                untouched(self.modules@) < untouched(m0),
                self.index@ == old(self).index@,
                measure_frame(m1, self.modules@),
                measure_frame(m0, self.modules@),
                no_new_touched(m1, self.modules@),
                m1 == m0.update(v as int, m1[v as int]),
                chains_bounded(self.modules@),
                self.modules@[v as int].status == ModuleStatus::Touched,
                0 <= k <= self.succ(v as int).len(),
                self.succ(v as int) == m0[v as int].edges@,
                longest <= 2 * n + done_count(self.modules@),
                m0 == old(self).modules@,
                fuel > untouched(m0),
                (longest as int, self.modules@)
                    == walk_kids(m1, m0[v as int].edges@.subrange(0, k as int), level + 1, (fuel - 1) as nat),
                forall|q: int| 0 <= q < k ==> self.modules@[#[trigger] self.succ(v as int)[q] as int].status != ModuleStatus::Untouched,
                forall|q: int| 0 <= q < k
                    && self.modules@[#[trigger] self.succ(v as int)[q] as int].status == ModuleStatus::Done
                    ==> self.modules@[self.succ(v as int)[q] as int].max_chain_length <= longest,
            decreases self.succ(v as int).len() - k,
        {
            let t = self.modules[v].edges[k];
            let ghost sb = self.modules@;
            let ghost kk = m0[v as int].edges@;
            assert(kk.subrange(0, k + 1).drop_last() =~= kk.subrange(0, k as int));
            assert(kk.subrange(0, k + 1).last() == t);
            proof { lemma_counts_bounded(sb); }
            let cur = self.measure_from(t, level + 1, Ghost((fuel - 1) as nat));
            proof {
                lemma_measure_frame_trans(m1, sb, self.modules@);
                lemma_measure_frame_trans(m0, sb, self.modules@);
                let sa = self.modules@;
                assert forall|j: int| 0 <= j < m1.len() && #[trigger] sa[j].status == ModuleStatus::Touched
                    implies m1[j].status == ModuleStatus::Touched by {
                    assert(sb[j].status == ModuleStatus::Touched);
                }
            }
            if longest < cur {
                longest = cur;
            }
            proof {
                let sa = self.modules@;
                assert forall|q: int| 0 <= q < k + 1
                    && sa[#[trigger] self.succ(v as int)[q] as int].status == ModuleStatus::Done
                    implies sa[self.succ(v as int)[q] as int].max_chain_length <= longest by {
                    let x = self.succ(v as int)[q];
                    if q < k && x != t {
                        assert(sb[x as int].status != ModuleStatus::Untouched);
                        if sb[x as int].status == ModuleStatus::Done {
                            assert(sa[x as int].max_chain_length == sb[x as int].max_chain_length);
                        } else {
                            assert(sa[x as int].status == ModuleStatus::Touched);
                        }
                    }
                }
                assert forall|q: int| 0 <= q < k + 1 implies
                    sa[#[trigger] self.succ(v as int)[q] as int].status != ModuleStatus::Untouched by {
                    let x = self.succ(v as int)[q];
                    if q < k {
                        assert(sb[x as int].status != ModuleStatus::Untouched);
                        assert(rank(sb[x as int].status) <= rank(sa[x as int].status));
                    }
                }
            }
            k = k + 1;
        }
        let ghost m2 = self.modules@;
        assert(m0[v as int].edges@.subrange(0, m0[v as int].edges@.len() as int) =~= m0[v as int].edges@);
        proof { lemma_counts_with_touched(m2, v as int); }
        let mut ret = self.modules[v].max_chain_length;
        if ret <= longest {
            ret = longest + 1;
            self.modules[v].max_chain_length = ret;
        }
        self.modules[v].status = ModuleStatus::Done;
        proof {
            assert(self.modules@[v as int] == with_chain(with_status(m2[v as int], ModuleStatus::Done), ret as int));
            assert(self.modules@ =~= m2.update(v as int, self.modules@[v as int]));
            lemma_done_update(m2, v as int, self.modules@[v as int]);
            lemma_untouched_update(m2, v as int, self.modules@[v as int]);
            let f = self.modules@;
            assert forall|j: int| 0 <= j < m0.len() && #[trigger] f[j].status == ModuleStatus::Touched
                implies m0[j].status == ModuleStatus::Touched by {
                assert(f[j] == m2[j]);
                assert(m2[j].status == ModuleStatus::Touched);
                assert(m1[j].status == ModuleStatus::Touched);
            }
            assert forall|q: int| 0 <= q < self.succ(v as int).len()
                && f[#[trigger] self.succ(v as int)[q] as int].status == ModuleStatus::Done
                && self.succ(v as int)[q] != v
                implies f[self.succ(v as int)[q] as int].max_chain_length < ret by {
                let x = self.succ(v as int)[q];
                assert(f[x as int] == m2[x as int]);
            }
        }
        ret
    }
}

/// Measuring every module but the linkage module in turn, each walk from
/// level 0: the results and the modules after the last walk.
pub open spec fn sweep(mods: Seq<Module>, n: int) -> (Seq<int>, Seq<Module>)
    decreases n,
{
    if n <= 1 {
        (seq![], mods)
    } else {
        let (cs, m1) = sweep(mods, n - 1);
        let (c, m2) = walk_node(m1, n - 1, 0, untouched(m1) + 1);
        (cs.push(c), m2)
    }
}

impl ModuleGraph {
    /// Diffusion-mode linking of every module, in order.
    pub fn link_all_dependents(&mut self)
        requires
            old(self).wf(),
        ensures
            final(self).wf(),
            final(self).index@ == old(self).index@,
            dependents_linked(old(self).modules@, final(self).modules@, old(self).index@),
            forall|j: int| 0 <= j < final(self).len() ==> #[trigger] final(self).pending(j).len() == 0,
            (adjacency(final(self).modules@), pending_view(final(self).modules@))
                == link_sweep(adjacency(old(self).modules@), pending_view(old(self).modules@), old(self).index@, old(self).len()),
    {
        let ghost m0 = self.modules@;
        proof {
            assert(dependents_linked(m0, m0, self.index@)) by {
                assert forall|j: int| 0 <= j < m0.len() implies
                    m0[j].edges@.subrange(0, m0[j].edges@.len() as int) == m0[j].edges@ by {
                    assert(m0[j].edges@.subrange(0, m0[j].edges@.len() as int) =~= m0[j].edges@);
                }
            }
        }
        let mut i: usize = 0;
        while i < self.modules.len()
            invariant
                self.wf(),
                self.index@ == old(self).index@,
                m0 == old(self).modules@,
                0 <= i <= self.len(),
                dependents_linked(m0, self.modules@, self.index@),
                forall|j: int| 0 <= j < i ==> #[trigger] self.pending(j).len() == 0,
                (adjacency(self.modules@), pending_view(self.modules@))
                    == link_sweep(adjacency(m0), pending_view(m0), self.index@, i as int),
            decreases self.len() - i,
        {
            let ghost sb = self.modules@;
            let ghost gb = *self;
            self.link_dependents(i);
            proof {
                lemma_dependents_linked_trans(m0, sb, self.modules@, self.index@);
                assert forall|j: int| 0 <= j < i + 1 implies #[trigger] self.pending(j).len() == 0 by {
                    if j < i {
                        assert(gb.pending(j).len() == 0);
                        assert(sb[j].undefined_symbols@.len() == 0);
                        assert(self.modules@[j].undefined_symbols == sb[j].undefined_symbols
                            || self.modules@[j].undefined_symbols@.len() == 0);
                    }
                }
            }
            i = i + 1;
        }
    }

    /// Measures every module but the linkage module, in order, each walk
    /// starting at level 0; returns the chain length found for each
    /// (position `j - 1` for module `j`).
    pub fn measure_all(&mut self) -> (chains: Vec<usize>)
        requires
            old(self).wf(),
            old(self).unwalked(),
            3 * old(self).len() <= usize::MAX,
        ensures
            final(self).wf(),
            final(self).index@ == old(self).index@,
            measure_frame(old(self).modules@, final(self).modules@),
            chains@.len() == old(self).len() - 1,
            chains@.map_values(|c: usize| c as int) == sweep(old(self).modules@, old(self).len()).0,
            final(self).modules@ == sweep(old(self).modules@, old(self).len()).1,
            forall|j: int| 1 <= j < final(self).len() ==> {
                &&& #[trigger] final(self).modules@[j].status == ModuleStatus::Done
                &&& chains@[j - 1] == final(self).modules@[j].max_chain_length
            },
    {
        let mut chains: Vec<usize> = Vec::new();
        let ghost m0 = self.modules@;
        proof {
            assert forall|j: int| 0 <= j < m0.len() implies #[trigger] m0[j].max_chain_length <= 2 * m0.len() + done_count(m0) by {
                assert(old(self).status(j) == ModuleStatus::Untouched);
            }
            assert forall|j: int| 0 <= j < m0.len() implies #[trigger] m0[j].status != ModuleStatus::Touched by {
                assert(old(self).status(j) == ModuleStatus::Untouched);
            }
        }
        let mut i: usize = 1;
        while i < self.modules.len()
            invariant
                edges_wf(self.modules@),
                self.index@ == old(self).index@,
                m0 == old(self).modules@,
                1 <= i <= self.len(),
                self.len() == m0.len(),
                3 * m0.len() <= usize::MAX,
                measure_frame(m0, self.modules@),
                chains_bounded(self.modules@),
                chains@.len() == i - 1,
                chains@.map_values(|c: usize| c as int) == sweep(m0, i as int).0,
                self.modules@ == sweep(m0, i as int).1,
                forall|j: int| 0 <= j < m0.len() ==> #[trigger] self.modules@[j].status != ModuleStatus::Touched,
                forall|j: int| 1 <= j < i ==> {
                    &&& #[trigger] self.modules@[j].status == ModuleStatus::Done
                    &&& chains@[j - 1] == self.modules@[j].max_chain_length
                },
            decreases self.len() - i,
        {
            let ghost sb = self.modules@;
            proof { lemma_counts_bounded(sb); }
            let c = self.measure(i, 0);
            proof {
                lemma_measure_frame_trans(m0, sb, self.modules@);
                assert forall|j: int| 0 <= j < m0.len() implies #[trigger] self.modules@[j].status != ModuleStatus::Touched by {
                    assert(sb[j].status != ModuleStatus::Touched);
                }
            }
            let ghost cs0 = chains@;
            chains.push(c);
            proof {
                assert(chains@.map_values(|c: usize| c as int) =~= cs0.map_values(|c: usize| c as int).push(c as int));
                assert forall|j: int| 1 <= j < i + 1 implies {
                    &&& #[trigger] self.modules@[j].status == ModuleStatus::Done
                    &&& chains@[j - 1] == self.modules@[j].max_chain_length
                } by {
                    if j < i {
                        assert(sb[j].status == ModuleStatus::Done);
                    } else {
                        assert(sb[j].status != ModuleStatus::Touched);
                    }
                }
            }
            i = i + 1;
        }
        chains
    }
}

/// Number of entries not yet marked.
pub open spec fn unseen(s: Seq<bool>) -> nat
    decreases s.len(),
{
    if s.len() == 0 {
        0
    } else {
        unseen(s.drop_last()) + if s.last() { 0nat } else { 1nat }
    }
}

pub proof fn lemma_unseen_mark(s: Seq<bool>, i: int)
    requires
        0 <= i < s.len(),
        !s[i],
    ensures
        unseen(s.update(i, true)) + 1 == unseen(s),
    decreases s.len(),
{
    let u = s.update(i, true);
    if i < s.len() - 1 {
        lemma_unseen_mark(s.drop_last(), i);
        assert(u.drop_last() =~= s.drop_last().update(i, true));
    } else {
        assert(u.drop_last() =~= s.drop_last());
    }
}

impl ModuleGraph {
    /// Every module reachable from `m` along the edges, `m` included, each
    /// once; statuses are not consulted.
    pub fn reached_from(&self, m: usize) -> (r: Vec<usize>)
        requires
            self.wf(),
            m < self.len(),
        ensures
            r@.no_duplicates(),
            forall|x: usize| x < self.len() ==> (r@.contains(x) <==> #[trigger] reaches(adjacency(self.modules@), m, x)),
            forall|p: int| 0 <= p < r@.len() ==> #[trigger] r@[p] < self.len(),
    {
        let ghost adj = adjacency(self.modules@);
        let n = self.modules.len();
        let mut seen: Vec<bool> = Vec::new();
        let mut i: usize = 0;
        while i < n
            invariant
                n == self.len(),
                0 <= i <= n,
                seen@.len() == i,
                forall|x: int| 0 <= x < i ==> !(#[trigger] seen@[x]),
            decreases n - i,
        {
            seen.push(false);
            i = i + 1;
        }
        let mut out: Vec<usize> = Vec::new();
        let mut work: Vec<usize> = Vec::new();
        seen.set(m, true);
        out.push(m);
        work.push(m);
        proof {
            assert(is_walk(adj, seq![m]));
            assert(out@[0] == m && work@[0] == m);
            assert forall|x: int| 0 <= x < n implies (#[trigger] seen@[x] <==> out@.contains(x as usize)) by {
                if out@.contains(x as usize) {
                    assert(out@[0] == x as usize);
                }
            }
        }
        while work.len() > 0
            invariant
                self.wf(),
                n == self.len(),
                adj == adjacency(self.modules@),
                seen@.len() == n,
                out@.no_duplicates(),
                out@.contains(m),
                forall|p: int| 0 <= p < out@.len() ==> #[trigger] out@[p] < n,
                forall|p: int| 0 <= p < work@.len() ==> #[trigger] work@[p] < n,
                forall|x: int| 0 <= x < n ==> (#[trigger] seen@[x] <==> out@.contains(x as usize)),
                forall|p: int| 0 <= p < out@.len() ==> reaches(adj, m, #[trigger] out@[p]),
                forall|x: usize, k: int| out@.contains(x) && !work@.contains(x) && 0 <= k < adj[x as int].len()
                    ==> out@.contains(#[trigger] adj[x as int][k]),
                forall|p: int| 0 <= p < work@.len() ==> out@.contains(#[trigger] work@[p]),
            decreases unseen(seen@), work@.len(),
        {
            let ghost wb = work@;
            let x = work.pop().unwrap();
            proof {
                assert(wb[wb.len() - 1] == x);
                assert forall|v: usize| wb.contains(v) && v != x implies work@.contains(v) by {
                    let q = choose|q: int| 0 <= q < wb.len() && wb[q] == v;
                    assert(work@[q] == v);
                }
                assert forall|v: usize| work@.contains(v) implies wb.contains(v) by {
                    let q = choose|q: int| 0 <= q < work@.len() && work@[q] == v;
                    assert(wb[q] == v);
                }
                assert(out@.contains(x));
                let p = choose|p: int| 0 <= p < out@.len() && out@[p] == x;
                assert(reaches(adj, m, out@[p]));
            }
            let ghost out_x = out@;
            let ghost work_x = work@;
            let ghost seen_x = seen@;
            let mut k: usize = 0;
            while k < self.modules[x].edges.len()
                invariant
                    self.wf(),
                    n == self.len(),
                    x < n,
                    adj == adjacency(self.modules@),
                    reaches(adj, m, x),
                    0 <= k <= adj[x as int].len(),
                    seen@.len() == n,
                    out@.no_duplicates(),
                    out_x.len() <= out@.len(),
                    out@.subrange(0, out_x.len() as int) == out_x,
                    work_x.len() <= work@.len(),
                    work@.subrange(0, work_x.len() as int) == work_x,
                    forall|p: int| 0 <= p < out@.len() ==> #[trigger] out@[p] < n,
                    forall|p: int| 0 <= p < work@.len() ==> #[trigger] work@[p] < n,
                    forall|y: int| 0 <= y < n ==> (#[trigger] seen@[y] <==> out@.contains(y as usize)),
                    forall|p: int| 0 <= p < out@.len() ==> reaches(adj, m, #[trigger] out@[p]),
                    forall|q: int| 0 <= q < k ==> out@.contains(#[trigger] adj[x as int][q]),
                    forall|p: int| 0 <= p < work@.len() ==> out@.contains(#[trigger] work@[p]),
                    forall|p: int| out_x.len() <= p < out@.len() ==> work@.contains(#[trigger] out@[p]),
                    work@.len() - work_x.len() == out@.len() - out_x.len(),
                    unseen(seen@) <= unseen(seen_x),
                    out@.len() > out_x.len() ==> unseen(seen@) < unseen(seen_x),
                decreases adj[x as int].len() - k,
            {
                let t = self.modules[x].edges[k];
                assert(t == adj[x as int][k as int]);
                if !seen[t] {
                    let ghost ob = out@;
                    let ghost wk = work@;
                    proof { lemma_unseen_mark(seen@, t as int); }
                    seen.set(t, true);
                    out.push(t);
                    work.push(t);
                    proof {
                        let w = choose|w: Seq<usize>| #[trigger] is_walk(adj, w) && w[0] == m && w.last() == x;
                        lemma_walk_push(adj, w, t);
                        assert(w.push(t)[0] == m && w.push(t).last() == t);
                        assert forall|y: int| 0 <= y < n implies (#[trigger] seen@[y] <==> out@.contains(y as usize)) by {
                            lemma_push_contains(ob, t, y as usize);
                        }
                        assert forall|v: usize| ob.contains(v) implies out@.contains(v) by {
                            lemma_push_contains(ob, t, v);
                        }
                        assert forall|q: int| 0 <= q < k + 1 implies out@.contains(#[trigger] adj[x as int][q]) by {
                            if q < k {
                                assert(ob.contains(adj[x as int][q]));
                            } else {
                                assert(out@[ob.len() as int] == t);
                            }
                        }
                        assert forall|v: usize| wk.contains(v) || v == t implies work@.contains(v) by {
                            lemma_push_contains(wk, t, v);
                        }
                        assert(out@.subrange(0, out_x.len() as int) =~= ob.subrange(0, out_x.len() as int));
                        assert(work@.subrange(0, work_x.len() as int) =~= wk.subrange(0, work_x.len() as int));
                        assert forall|p: int| 0 <= p < out@.len() implies reaches(adj, m, #[trigger] out@[p]) by {
                            if p < ob.len() {
                                assert(out@[p] == ob[p]);
                            }
                        }
                        assert forall|p: int| out_x.len() <= p < out@.len() implies work@.contains(#[trigger] out@[p]) by {
                            if p < ob.len() {
                                assert(out@[p] == ob[p]);
                                assert(wk.contains(ob[p]));
                            } else {
                                assert(out@[p] == t);
                                assert(work@[wk.len() as int] == t);
                            }
                        }
                        assert forall|p: int| 0 <= p < work@.len() implies out@.contains(#[trigger] work@[p]) by {
                            if p < wk.len() {
                                assert(work@[p] == wk[p]);
                                assert(ob.contains(wk[p]));
                            } else {
                                assert(work@[p] == t);
                                assert(out@[ob.len() as int] == t);
                            }
                        }
                    }
                } else {
                    assert(seen@[t as int]);
                    assert(out@.contains(t));
                }
                k = k + 1;
            }
            proof {
                assert forall|v: usize, q: int| out@.contains(v) && !work@.contains(v) && 0 <= q < adj[v as int].len()
                    implies out@.contains(#[trigger] adj[v as int][q]) by {
                    if v != x {
                        if out_x.contains(v) {
                            assert(!work_x.contains(v)) by {
                                if work_x.contains(v) {
                                    let q2 = choose|q2: int| 0 <= q2 < work_x.len() && work_x[q2] == v;
                                    assert(work@[q2] == v);
                                }
                            }
                            assert(!wb.contains(v));
                            let e = adj[v as int][q];
                            assert(out_x.contains(e));
                            let q3 = choose|q3: int| 0 <= q3 < out_x.len() && out_x[q3] == e;
                            assert(out@[q3] == e);
                        } else {
                            let p = choose|p: int| 0 <= p < out@.len() && out@[p] == v;
                            if p < out_x.len() {
                                assert(out_x[p] == v);
                            }
                            assert(work@.contains(out@[p]));
                        }
                    }
                }
            }
        }
        proof {
            assert forall|x: usize| x < self.len() implies (out@.contains(x) <==> #[trigger] reaches(adj, m, x)) by {
                if reaches(adj, m, x) {
                    let w = choose|w: Seq<usize>| #[trigger] is_walk(adj, w) && w[0] == m && w.last() == x;
                    assert forall|y: usize, q: int| out@.contains(y) && 0 <= q < adj[y as int].len()
                        implies out@.contains(#[trigger] adj[y as int][q]) by {
                        assert(!work@.contains(y));
                    }
                    lemma_closed_holds_reachable(adj, out@, m, w);
                }
                if out@.contains(x) {
                    let p = choose|p: int| 0 <= p < out@.len() && out@[p] == x;
                    assert(reaches(adj, m, out@[p]));
                }
            }
        }
        out
    }
}

/// Sum of the element counts of modules `1..hi`.
pub open spec fn sum_elements(mods: Seq<Module>, hi: int) -> int
    decreases hi,
{
    if hi <= 1 {
        0
    } else {
        sum_elements(mods, hi - 1) + mods[hi - 1].element_count
    }
}

/// Sum of the direct widths (edge counts) of modules `1..hi`.
pub open spec fn sum_widths(mods: Seq<Module>, hi: int) -> int
    decreases hi,
{
    if hi <= 1 {
        0
    } else {
        sum_widths(mods, hi - 1) + mods[hi - 1].edges@.len()
    }
}

/// Sum of the chain lengths of modules `1..hi`.
pub open spec fn sum_chains(mods: Seq<Module>, hi: int) -> int
    decreases hi,
{
    if hi <= 1 {
        0
    } else {
        sum_chains(mods, hi - 1) + mods[hi - 1].max_chain_length
    }
}

/// Coupling figures of one module.
pub struct ModuleMetrics {
    pub module: usize,
    pub element_count: usize,
    /// Number of direct dependents.
    pub direct_width: usize,
    pub max_chain_length: usize,
}

/// Whole-graph sums over the real modules (the linkage module left out).
pub struct DiffusionTotals {
    pub modules: usize,
    pub elements: u128,
    pub width: u128,
    pub chain: u128,
}

impl ModuleGraph {
    /// Figures of each real module, in order, and their sums.
    pub fn collect_metrics(&self) -> (r: (Vec<ModuleMetrics>, DiffusionTotals))
        requires
            self.wf(),
        ensures
            r.0@.len() == self.len() - 1,
            forall|j: int| 1 <= j < self.len() ==> {
                &&& (#[trigger] r.0@[j - 1]).module == j
                &&& r.0@[j - 1].element_count == self.modules@[j].element_count
                &&& r.0@[j - 1].direct_width == self.succ(j).len()
                &&& r.0@[j - 1].max_chain_length == self.modules@[j].max_chain_length
            },
            r.1.modules == self.len() - 1,
            r.1.elements == sum_elements(self.modules@, self.len()),
            r.1.width == sum_widths(self.modules@, self.len()),
            r.1.chain == sum_chains(self.modules@, self.len()),
    {
        let mut records: Vec<ModuleMetrics> = Vec::new();
        let mut elements: u128 = 0;
        let mut width: u128 = 0;
        let mut chain: u128 = 0;
        let mut i: usize = 1;
        while i < self.modules.len()
            invariant
                self.wf(),
                1 <= i <= self.len(),
                records@.len() == i - 1,
                forall|j: int| 1 <= j < i ==> {
                    &&& (#[trigger] records@[j - 1]).module == j
                    &&& records@[j - 1].element_count == self.modules@[j].element_count
                    &&& records@[j - 1].direct_width == self.succ(j).len()
                    &&& records@[j - 1].max_chain_length == self.modules@[j].max_chain_length
                },
                elements == sum_elements(self.modules@, i as int),
                width == sum_widths(self.modules@, i as int),
                chain == sum_chains(self.modules@, i as int),
                elements <= i * 0xffff_ffff_ffff_ffff,
                width <= i * 0xffff_ffff_ffff_ffff,
                chain <= i * 0xffff_ffff_ffff_ffff,
            decreases self.len() - i,
        {
            let m = &self.modules[i];
            let w = m.edges.len();
            records.push(ModuleMetrics {
                module: i,
                element_count: m.element_count,
                direct_width: w,
                max_chain_length: m.max_chain_length,
            });
            assert(i * 0xffff_ffff_ffff_ffffu128 <= 0xffff_ffff_ffff_ffff * 0xffff_ffff_ffff_ffffu128) by (nonlinear_arith)
                requires i <= 0xffff_ffff_ffff_ffffu128;
            elements = elements + m.element_count as u128;
            width = width + w as u128;
            chain = chain + m.max_chain_length as u128;
            i = i + 1;
        }
        let totals = DiffusionTotals { modules: self.modules.len() - 1, elements, width, chain };
        (records, totals)
    }
}

/// What a diffusion run reports.
pub struct DiffusionReport {
    pub modules: Vec<ModuleMetrics>,
    pub totals: DiffusionTotals,
}

impl ModuleGraph {
    /// Diffusion mode on a freshly built graph: links every module to its
    /// dependents, measures every real module in order, and reports each
    /// one's figures and their sums. Never fails, cycles included.
    pub fn analyze_diffusion(&mut self) -> (r: DiffusionReport)
        requires
            old(self).wf(),
            old(self).unwalked(),
            3 * old(self).len() <= usize::MAX,
        ensures
            final(self).wf(),
            final(self).len() == old(self).len(),
            final(self).index@ == old(self).index@,
            forall|a: usize, b: usize| a < old(self).len() && b < old(self).len() ==>
                ((#[trigger] final(self).modules@[a as int].edges@.contains(b)) <==> (old(self).modules@[a as int].edges@.contains(b) || {
                    &&& old(self).modules@[b as int].undefined_symbols@.len() > 0
                    &&& a != LINKAGE
                    &&& resolved_owners(old(self).index@, names_of(old(self).modules@[b as int])).contains(a)
                })),
            forall|j: int| 0 <= j < final(self).len() ==> #[trigger] final(self).pending(j).len() == 0,
            forall|j: int| 1 <= j < final(self).len() ==> #[trigger] final(self).modules@[j].status == ModuleStatus::Done,
            r.modules@.len() == old(self).len() - 1,
            forall|j: int| 1 <= j < final(self).len() ==> {
                &&& (#[trigger] r.modules@[j - 1]).module == j
                &&& r.modules@[j - 1].element_count == old(self).modules@[j].element_count
                &&& r.modules@[j - 1].direct_width == final(self).succ(j).len()
                &&& r.modules@[j - 1].max_chain_length == final(self).modules@[j].max_chain_length
            },
            exists|linked: Seq<Module>| {
                &&& #[trigger] adjacency(linked) == link_sweep(
                    adjacency(old(self).modules@),
                    pending_view(old(self).modules@),
                    old(self).index@,
                    old(self).len(),
                ).0
                &&& linked.len() == old(self).len()
                &&& final(self).modules@ == sweep(linked, old(self).len()).1
                &&& forall|j: int| 1 <= j < old(self).len() ==>
                    (#[trigger] r.modules@[j - 1]).max_chain_length == sweep(linked, old(self).len()).0[j - 1]
            },
            r.totals.modules == old(self).len() - 1,
            r.totals.elements == sum_elements(final(self).modules@, final(self).len()),
            r.totals.width == sum_widths(final(self).modules@, final(self).len()),
            r.totals.chain == sum_chains(final(self).modules@, final(self).len()),
    {
        let ghost m0 = self.modules@;
        self.link_all_dependents();
        let ghost m1 = self.modules@;
        let ghost g1 = *self;
        proof {
            assert forall|i: int| 0 <= i < self.len() implies {
                &&& #[trigger] self.status(i) == ModuleStatus::Untouched
                &&& self.modules@[i].max_chain_length == 0
            } by {
                assert(same_attributes(m0[i], m1[i]));
                assert(old(self).status(i) == ModuleStatus::Untouched);
            }
        }
        let chains = self.measure_all();
        proof {
            let f = self.modules@;
            assert forall|a: usize, b: usize| a < m0.len() && b < m0.len() implies
                ((#[trigger] f[a as int].edges@.contains(b)) <==> (m0[a as int].edges@.contains(b) || {
                    &&& m0[b as int].undefined_symbols@.len() > 0
                    &&& a != LINKAGE
                    &&& resolved_owners(old(self).index@, names_of(m0[b as int])).contains(a)
                })) by {
                assert(f[a as int].edges == m1[a as int].edges);
                assert(g1.pending(b as int).len() == 0);
            }
            assert forall|j: int| 0 <= j < f.len() implies #[trigger] self.pending(j).len() == 0 by {
                assert(f[j].undefined_symbols == m1[j].undefined_symbols);
                assert(g1.pending(j).len() == 0);
            }
            assert forall|j: int| 1 <= j < f.len() implies #[trigger] f[j].element_count == m0[j].element_count by {
                assert(same_attributes(m0[j], m1[j]));
            }
        }
        let (modules, totals) = self.collect_metrics();
        let r = DiffusionReport { modules, totals };
        proof {
            let n = old(self).len();
            assert forall|j: int| 1 <= j < n implies
                (#[trigger] r.modules@[j - 1]).max_chain_length == sweep(m1, n).0[j - 1] by {
                assert(chains@.map_values(|c: usize| c as int)[j - 1] == chains@[j - 1] as int);
            }
            assert(adjacency(m1) == link_sweep(adjacency(m0), pending_view(m0), old(self).index@, n).0);
        }
        r
    }
}

} // verus!
