use vstd::prelude::*;
use crate::module::{Module, ModuleStatus};
use crate::graph::{ModuleGraph, GraphError, LINKAGE, edges_wf};

verus! {

/// Targets of each module's edges.
pub open spec fn adjacency(mods: Seq<Module>) -> Seq<Seq<usize>> {
    mods.map_values(|m: Module| m.edges@)
}

/// `p` is a walk along `adj`: every step follows an edge.
pub open spec fn is_walk(adj: Seq<Seq<usize>>, p: Seq<usize>) -> bool {
    &&& p.len() >= 1
    &&& forall|i: int| 0 <= i < p.len() ==> #[trigger] p[i] < adj.len()
    &&& forall|i: int| 0 <= i < p.len() - 1 ==> adj[p[i] as int].contains(#[trigger] p[i + 1])
}

/// `b` can be reached from `a` by following zero or more edges.
pub open spec fn reaches(adj: Seq<Seq<usize>>, a: usize, b: usize) -> bool {
    exists|p: Seq<usize>| #[trigger] is_walk(adj, p) && p[0] == a && p.last() == b
}

/// Number of untouched modules.
pub open spec fn untouched(mods: Seq<Module>) -> nat
    decreases mods.len(),
{
    if mods.len() == 0 {
        0
    } else {
        untouched(mods.drop_last()) + if mods.last().status == ModuleStatus::Untouched { 1nat } else { 0nat }
    }
}

/// Replacing one module changes the count only through that module.
pub proof fn lemma_untouched_update(mods: Seq<Module>, i: int, m: Module)
    requires
        0 <= i < mods.len(),
    ensures
        untouched(mods.update(i, m)) + (if mods[i].status == ModuleStatus::Untouched { 1int } else { 0int })
            == untouched(mods) + (if m.status == ModuleStatus::Untouched { 1int } else { 0int }),
    decreases mods.len(),
{
    let u = mods.update(i, m);
    if i < mods.len() - 1 {
        lemma_untouched_update(mods.drop_last(), i, m);
        assert(u.drop_last() =~= mods.drop_last().update(i, m));
    } else {
        assert(u.drop_last() =~= mods.drop_last());
    }
}

/// A walk extended by one edge is a walk.
pub proof fn lemma_walk_push(adj: Seq<Seq<usize>>, p: Seq<usize>, t: usize)
    requires
        is_walk(adj, p),
        adj[p.last() as int].contains(t),
        t < adj.len(),
    ensures
        is_walk(adj, p.push(t)),
{
    let q = p.push(t);
    assert forall|i: int| 0 <= i < q.len() - 1 implies adj[q[i] as int].contains(#[trigger] q[i + 1]) by {
        if i < p.len() - 1 {
            assert(q[i] == p[i] && q[i + 1] == p[i + 1]);
        }
    }
}

/// What a depth-first ordering walk keeps true: done modules are exactly
/// those placed, each after all of its targets; touched ones are exactly
/// those on the current stack, a walk from the root.
pub open spec fn walk_state(
    mods: Seq<Module>,
    adj: Seq<Seq<usize>>,
    out: Seq<usize>,
    stack: Seq<usize>,
    root: usize,
) -> bool {
    &&& adjacency(mods) == adj
    &&& mods.len() <= usize::MAX
    &&& out.no_duplicates()
    &&& forall|p: int| 0 <= p < out.len() ==> #[trigger] out[p] < mods.len()
    &&& forall|i: int| 0 <= i < mods.len() ==> ((#[trigger] mods[i].status == ModuleStatus::Done) <==> out.contains(i as usize))
    &&& forall|i: int| 0 <= i < mods.len() ==> ((#[trigger] mods[i].status == ModuleStatus::Touched) <==> stack.contains(i as usize))
    &&& forall|p: int, k: int| 0 <= p < out.len() && 0 <= k < adj[out[p] as int].len()
        ==> out.subrange(0, p).contains(#[trigger] adj[out[p] as int][k])
    &&& forall|p: int| 0 <= p < out.len() ==> reaches(adj, root, #[trigger] out[p])
    &&& stack.len() > 0 ==> is_walk(adj, stack) && stack[0] == root
    &&& stack.no_duplicates()
}

/// The edge `from -> to` leads back onto a path from `root` to `from` that
/// repeats no module: `to` was still being placed when it was met again.
pub open spec fn closes_open_path(adj: Seq<Seq<usize>>, root: usize, from: usize, to: usize) -> bool {
    exists|w: Seq<usize>| #[trigger] is_walk(adj, w) && w[0] == root && w.last() == from && w.no_duplicates() && w.contains(to)
}

/// What a sequence holds after one push.
pub proof fn lemma_push_contains(s: Seq<usize>, x: usize, y: usize)
    ensures
        s.push(x).contains(y) <==> (s.contains(y) || y == x),
{
    if s.contains(y) {
        let p = choose|p: int| 0 <= p < s.len() && s[p] == y;
        assert(s.push(x)[p] == y);
    }
    if y == x {
        assert(s.push(x)[s.len() as int] == y);
    }
    if s.push(x).contains(y) {
        let p = choose|p: int| 0 <= p < s.push(x).len() && s.push(x)[p] == y;
        if p < s.len() {
            assert(s[p] == y);
        }
    }
}

/// A suffix of a walk is a walk.
pub proof fn lemma_walk_suffix(adj: Seq<Seq<usize>>, p: Seq<usize>, q: int)
    requires
        is_walk(adj, p),
        0 <= q < p.len(),
    ensures
        is_walk(adj, p.subrange(q, p.len() as int)),
{
    let s = p.subrange(q, p.len() as int);
    assert forall|i: int| 0 <= i < s.len() implies #[trigger] s[i] < adj.len() by {
        assert(s[i] == p[q + i]);
    }
    assert forall|i: int| 0 <= i < s.len() - 1 implies adj[s[i] as int].contains(#[trigger] s[i + 1]) by {
        assert(s[i] == p[q + i] && s[i + 1] == p[q + i + 1]);
    }
}

/// The same module apart from its status.
pub open spec fn same_but_status(a: Module, b: Module) -> bool {
    &&& a.name == b.name
    &&& a.max_chain_length == b.max_chain_length
    &&& a.element_count == b.element_count
    &&& a.undefined_symbols == b.undefined_symbols
    &&& a.edges == b.edges
}

/// Along a walk whose first module is placed at `q0` in a sound ordering,
/// every later module is placed strictly before `q0`.
proof fn lemma_walk_descends(adj: Seq<Seq<usize>>, order: Seq<usize>, w: Seq<usize>, q0: int, i: int)
    requires
        forall|p: int, k: int| 0 <= p < order.len() && 0 <= k < adj[order[p] as int].len()
            ==> order.subrange(0, p).contains(#[trigger] adj[order[p] as int][k]),
        is_walk(adj, w),
        0 <= q0 < order.len(),
        order[q0] == w[0],
        0 <= i < w.len(),
    ensures
        exists|q: int| 0 <= q < order.len() && order[q] == w[i] && (if i == 0 { q == q0 } else { q < q0 }),
    decreases i,
{
    if i > 0 {
        lemma_walk_descends(adj, order, w, q0, i - 1);
        let q = choose|q: int| 0 <= q < order.len() && order[q] == w[i - 1] && (if i - 1 == 0 { q == q0 } else { q < q0 });
        assert(adj[w[i - 1] as int].contains(w[(i - 1) + 1]));
        let row = adj[w[i - 1] as int];
        let k = choose|k: int| 0 <= k < row.len() && #[trigger] row[k] == w[i];
        assert(order.subrange(0, q).contains(adj[order[q] as int][k]));
        let q2 = choose|q2: int| 0 <= q2 < q && order.subrange(0, q)[q2] == w[i];
        assert(order[q2] == w[i]);
    }
}

/// Cycle rejection: an ordering that places each module after all of its
/// targets, each once, holds no module that lies on a cycle. So `order`
/// can succeed only where no cycle is reachable from the root.
pub proof fn lemma_sound_order_excludes_cycles(adj: Seq<Seq<usize>>, order: Seq<usize>, w: Seq<usize>)
    requires
        order.no_duplicates(),
        forall|p: int, k: int| 0 <= p < order.len() && 0 <= k < adj[order[p] as int].len()
            ==> order.subrange(0, p).contains(#[trigger] adj[order[p] as int][k]),
        is_walk(adj, w),
        w.len() >= 2,
        w[0] == w.last(),
    ensures
        !order.contains(w[0]),
{
    if order.contains(w[0]) {
        let q0 = choose|q0: int| 0 <= q0 < order.len() && order[q0] == w[0];
        lemma_walk_descends(adj, order, w, q0, w.len() - 1);
        let q = choose|q: int| 0 <= q < order.len() && order[q] == w[w.len() - 1] && q < q0;
        assert(order[q] == order[q0]);
    }
}

/// Every edge of `a1` is also an edge of `a2`.
pub open spec fn adj_grows(a1: Seq<Seq<usize>>, a2: Seq<Seq<usize>>) -> bool {
    &&& a1.len() == a2.len()
    &&& forall|i: int, k: int| 0 <= i < a1.len() && 0 <= k < a1[i].len() ==> a2[i].contains(#[trigger] a1[i][k])
}

/// Adding edges keeps everything reachable.
pub proof fn lemma_reaches_grows(a1: Seq<Seq<usize>>, a2: Seq<Seq<usize>>, x: usize, y: usize)
    requires
        adj_grows(a1, a2),
        reaches(a1, x, y),
    ensures
        reaches(a2, x, y),
{
    let w = choose|w: Seq<usize>| #[trigger] is_walk(a1, w) && w[0] == x && w.last() == y;
    assert forall|i: int| 0 <= i < w.len() - 1 implies a2[w[i] as int].contains(#[trigger] w[i + 1]) by {
        assert(a1[w[i] as int].contains(w[i + 1]));
        let k = choose|k: int| 0 <= k < a1[w[i] as int].len() && a1[w[i] as int][k] == w[i + 1];
        assert(a2[w[i] as int].contains(a1[w[i] as int][k]));
    }
    assert(is_walk(a2, w));
}

/// A module reaches itself.
pub proof fn lemma_reaches_self(adj: Seq<Seq<usize>>, x: usize)
    requires
        x < adj.len(),
    ensures
        reaches(adj, x, x),
{
    assert(is_walk(adj, seq![x]));
}

/// One more edge from a reached module reaches its target.
pub proof fn lemma_reaches_step(adj: Seq<Seq<usize>>, r: usize, x: usize, t: usize)
    requires
        reaches(adj, r, x),
        adj[x as int].contains(t),
        t < adj.len(),
    ensures
        reaches(adj, r, t),
{
    let w = choose|w: Seq<usize>| #[trigger] is_walk(adj, w) && w[0] == r && w.last() == x;
    lemma_walk_push(adj, w, t);
    assert(w.push(t)[0] == r && w.push(t).last() == t);
}

impl ModuleGraph {
    /// Places `v` after everything it depends on, depth first; stops at an
    /// edge that leads back to a module still being placed.
    fn place(
        &mut self,
        v: usize,
        out: &mut Vec<usize>,
        Ghost(stack): Ghost<Seq<usize>>,
        Ghost(root): Ghost<usize>,
        Ghost(adj): Ghost<Seq<Seq<usize>>>,
    ) -> (r: Result<(), GraphError>)
        requires
            edges_wf(old(self).modules@),
            v < old(self).len(),
            old(self).modules@[v as int].status == ModuleStatus::Untouched,
            walk_state(old(self).modules@, adj, old(out)@, stack, root),
            stack.len() == 0 ==> v == root,
            stack.len() > 0 ==> adj[stack.last() as int].contains(v),
            root < old(self).len(),
        ensures
            final(self).len() == old(self).len(),
            final(self).index@ == old(self).index@,
            forall|j: int| 0 <= j < old(self).len() ==> same_but_status(old(self).modules@[j], #[trigger] final(self).modules@[j]),
            untouched(final(self).modules@) <= untouched(old(self).modules@),
            r is Ok ==> {
                &&& walk_state(final(self).modules@, adj, final(out)@, stack, root)
                &&& final(out)@.contains(v)
                &&& final(out)@.last() == v
                &&& final(out)@.subrange(0, old(out)@.len() as int) == old(out)@
                &&& old(out)@.len() <= final(out)@.len()
            },
            r matches Err(GraphError::Cycle { from, to }) ==> {
                &&& from < old(self).len()
                &&& adj[from as int].contains(to)
                &&& reaches(adj, to, from)
                &&& reaches(adj, root, from)
                &&& closes_open_path(adj, root, from, to)
            },
            !(r matches Err(GraphError::Unresolved { .. })),
        decreases untouched(old(self).modules@),
    {
        let ghost s2 = stack.push(v);
        let ghost m0 = self.modules@;
        let ghost out0 = out@;
        proof {
            if stack.len() == 0 {
                assert(is_walk(adj, seq![v]));
                assert(s2 =~= seq![v]);
            } else {
                lemma_walk_push(adj, stack, v);
            }
            assert(is_walk(adj, s2) && s2[0] == root && s2.last() == v);
            assert(!stack.contains(v)) by {
                assert(old(self).modules@[v as int].status == ModuleStatus::Untouched);
            }
            assert forall|a: int, c: int| 0 <= a < s2.len() && 0 <= c < s2.len() && a != c implies s2[a] != s2[c] by {
                if a < stack.len() && c < stack.len() {
                    assert(s2[a] == stack[a] && s2[c] == stack[c]);
                } else if a < stack.len() {
                    assert(s2[a] == stack[a]);
                } else if c < stack.len() {
                    assert(s2[c] == stack[c]);
                }
            }
        }
        self.modules[v].status = ModuleStatus::Touched;
        proof {
            lemma_untouched_update(m0, v as int, self.modules@[v as int]);
            assert(self.modules@ =~= m0.update(v as int, self.modules@[v as int]));
            assert(adjacency(self.modules@) =~= adj);
            assert forall|i: int| 0 <= i < self.modules@.len() implies
                ((#[trigger] self.modules@[i].status == ModuleStatus::Touched) <==> s2.contains(i as usize)) by {
                lemma_push_contains(stack, v, i as usize);
                if i != v {
                    assert(self.modules@[i] == m0[i]);
                    assert((m0[i].status == ModuleStatus::Touched) <==> stack.contains(i as usize));
                }
            }
        }
        let mut k: usize = 0;
        while k < self.modules[v].edges.len()
            invariant
                edges_wf(self.modules@),
                v < self.len(),
                self.len() == old(self).len(),
                self.index@ == old(self).index@,
                forall|j: int| 0 <= j < old(self).len() ==> same_but_status(old(self).modules@[j], #[trigger] self.modules@[j]),
                self.modules@[v as int].status == ModuleStatus::Touched,
                walk_state(self.modules@, adj, out@, s2, root),
                is_walk(adj, s2) && s2[0] == root && s2.last() == v,
                0 <= k <= adj[v as int].len(),
                forall|q: int| 0 <= q < k ==> out@.contains(#[trigger] adj[v as int][q]),
                untouched(self.modules@) < untouched(old(self).modules@),
                out0.len() <= out@.len(),
                out@.subrange(0, out0.len() as int) == out0,
            decreases adj[v as int].len() - k,
        {
            let t = self.modules[v].edges[k];
            assert(t == adj[v as int][k as int]);
            match self.modules[t].status {
                ModuleStatus::Done => {},
                ModuleStatus::Touched => {
                    proof {
                        let q = choose|q: int| 0 <= q < s2.len() && s2[q] == t;
                        lemma_walk_suffix(adj, s2, q);
                        let w = s2.subrange(q, s2.len() as int);
                        assert(w[0] == t && w.last() == v);
                        assert(s2[0] == root && s2.last() == v);
                        assert(s2.contains(t));
                        assert(closes_open_path(adj, root, v, t));
                    }
                    return Err(GraphError::Cycle { from: v, to: t });
                },
                ModuleStatus::Untouched => {
                    let ghost outb = out@;
                    match self.place(t, out, Ghost(s2), Ghost(root), Ghost(adj)) {
                        Ok(()) => {},
                        Err(e) => {
                            return Err(e);
                        },
                    }
                    proof {
                        assert forall|q: int| 0 <= q < k implies out@.contains(#[trigger] adj[v as int][q]) by {
                            let x = adj[v as int][q];
                            let i = choose|i: int| 0 <= i < outb.len() && outb[i] == x;
                            assert(out@.subrange(0, outb.len() as int)[i] == x);
                        }
                        assert(out@.subrange(0, out0.len() as int) =~= outb.subrange(0, out0.len() as int));
                    }
                },
            }
            k = k + 1;
        }
        let ghost m1 = self.modules@;
        let ghost out1 = out@;
        self.modules[v].status = ModuleStatus::Done;
        out.push(v);
        proof {
            assert(self.modules@ =~= m1.update(v as int, self.modules@[v as int]));
            lemma_untouched_update(m1, v as int, self.modules@[v as int]);
            assert(adjacency(self.modules@) =~= adj);
            assert(!out1.contains(v));
            assert(out@[out1.len() as int] == v);
            assert(out@.subrange(0, out1.len() as int) =~= out1);
            assert forall|i: int| 0 <= i < self.modules@.len() implies
                ((#[trigger] self.modules@[i].status == ModuleStatus::Done) <==> out@.contains(i as usize)) by {
                lemma_push_contains(out1, v, i as usize);
                if i != v {
                    assert(self.modules@[i] == m1[i]);
                    assert((m1[i].status == ModuleStatus::Done) <==> out1.contains(i as usize));
                }
            }
            assert forall|i: int| 0 <= i < self.modules@.len() implies
                ((#[trigger] self.modules@[i].status == ModuleStatus::Touched) <==> stack.contains(i as usize)) by {
                lemma_push_contains(stack, v, i as usize);
                if i == v {
                    assert(!stack.contains(v)) by {
                        assert(m0[v as int].status == ModuleStatus::Untouched);
                    }
                }
            }
            assert forall|p: int, j: int| 0 <= p < out@.len() && 0 <= j < adj[out@[p] as int].len()
                implies out@.subrange(0, p).contains(#[trigger] adj[out@[p] as int][j]) by {
                if p < out1.len() {
                    assert(out@.subrange(0, p) =~= out1.subrange(0, p));
                    assert(out@[p] == out1[p]);
                } else {
                    assert(out@.subrange(0, p) =~= out1);
                }
            }
            assert forall|p: int| 0 <= p < out@.len() implies reaches(adj, root, #[trigger] out@[p]) by {
                if p < out1.len() {
                    assert(out@[p] == out1[p]);
                } else {
                    assert(is_walk(adj, s2) && s2[0] == root && s2.last() == v);
                }
            }
            assert(out@.subrange(0, out0.len() as int) =~= out1.subrange(0, out0.len() as int));
        }
        Ok(())
    }
}

/// A set that holds `root` and every target of its members holds every
/// module reachable from `root`.
pub proof fn lemma_closed_holds_reachable(adj: Seq<Seq<usize>>, out: Seq<usize>, root: usize, w: Seq<usize>)
    requires
        out.contains(root),
        forall|x: usize, k: int| out.contains(x) && 0 <= k < adj[x as int].len() ==> out.contains(#[trigger] adj[x as int][k]),
        is_walk(adj, w),
        w[0] == root,
    ensures
        out.contains(w.last()),
    decreases w.len(),
{
    if w.len() > 1 {
        let v = w.drop_last();
        assert forall|i: int| 0 <= i < v.len() - 1 implies adj[v[i] as int].contains(#[trigger] v[i + 1]) by {
            assert(v[i] == w[i] && v[i + 1] == w[i + 1]);
        }
        assert(is_walk(adj, v));
        lemma_closed_holds_reachable(adj, out, root, v);
        let x = v.last();
        let i = w.len() - 2;
        assert(adj[w[i] as int].contains(w[i + 1]));
        let k = choose|k: int| 0 <= k < adj[x as int].len() && adj[x as int][k] == w.last();
        assert(out.contains(adj[x as int][k]));
    }
}

impl ModuleGraph {
    /// The modules that `root` needs, dependencies first and `root` last,
    /// each once: every module reachable from `root` along the edges, placed
    /// after all of its targets. An edge back to a module still being
    /// placed is a cycle, and nothing is ordered.
    pub fn order(&mut self, root: usize) -> (r: Result<Vec<usize>, GraphError>)
        requires
            old(self).wf(),
            root < old(self).len(),
            old(self).unwalked(),
        ensures
            final(self).wf(),
            final(self).len() == old(self).len(),
            final(self).index@ == old(self).index@,
            forall|j: int| 0 <= j < old(self).len() ==> same_but_status(old(self).modules@[j], #[trigger] final(self).modules@[j]),
            r matches Ok(order) ==> {
                let adj = adjacency(old(self).modules@);
                &&& order@.no_duplicates()
                &&& order@.len() > 0 && order@.last() == root
                &&& forall|p: int| 0 <= p < order@.len() ==> #[trigger] order@[p] < old(self).len()
                &&& forall|x: usize| x < old(self).len() ==> (order@.contains(x) <==> #[trigger] reaches(adj, root, x))
                &&& forall|p: int, k: int| 0 <= p < order@.len() && 0 <= k < adj[order@[p] as int].len()
                    ==> order@.subrange(0, p).contains(#[trigger] adj[order@[p] as int][k])
            },
            r matches Err(GraphError::Cycle { from, to }) ==> {
                let adj = adjacency(old(self).modules@);
                &&& from < old(self).len()
                &&& adj[from as int].contains(to)
                &&& reaches(adj, to, from)
                &&& reaches(adj, root, from)
                &&& closes_open_path(adj, root, from, to)
            },
            !(r matches Err(GraphError::Unresolved { .. })),
    {
        let ghost adj = adjacency(self.modules@);
        let ghost m0 = self.modules@;
        let _n = self.modules.len();
        let mut out: Vec<usize> = Vec::new();
        proof {
            assert forall|i: int| 0 <= i < m0.len() implies
                ((#[trigger] m0[i].status == ModuleStatus::Touched) <==> Seq::<usize>::empty().contains(i as usize)) by {
                assert(old(self).status(i) == ModuleStatus::Untouched);
            }
            assert forall|i: int| 0 <= i < m0.len() implies
                ((#[trigger] m0[i].status == ModuleStatus::Done) <==> out@.contains(i as usize)) by {
                assert(old(self).status(i) == ModuleStatus::Untouched);
            }
            assert(walk_state(m0, adj, out@, Seq::empty(), root));
        }
        let r = self.place(root, &mut out, Ghost(Seq::empty()), Ghost(root), Ghost(adj));
        proof {
            let mods = self.modules@;
            assert forall|i: int| 0 <= i < mods.len() implies (#[trigger] mods[i].edges@).no_duplicates() by {
                assert(same_but_status(m0[i], mods[i]));
            }
            assert forall|i: int, k: int|
                0 <= i < mods.len() && 0 <= k < mods[i].edges@.len() implies #[trigger] mods[i].edges@[k] < mods.len() by {
                assert(same_but_status(m0[i], mods[i]));
            }
            assert(same_but_status(m0[LINKAGE as int], mods[LINKAGE as int]));
        }
        match r {
            Ok(()) => {
                proof {
                    let o = out@;
                    assert(o.len() > 0);
                    assert forall|x: usize, k: int| o.contains(x) && 0 <= k < adj[x as int].len()
                        implies o.contains(#[trigger] adj[x as int][k]) by {
                        let p = choose|p: int| 0 <= p < o.len() && o[p] == x;
                        assert(o.subrange(0, p).contains(adj[o[p] as int][k]));
                        let q = choose|q: int| 0 <= q < p && o.subrange(0, p)[q] == adj[x as int][k];
                        assert(o[q] == adj[x as int][k]);
                    }
                    assert forall|x: usize| x < old(self).len() implies (o.contains(x) <==> #[trigger] reaches(adj, root, x)) by {
                        if reaches(adj, root, x) {
                            let w = choose|w: Seq<usize>| #[trigger] is_walk(adj, w) && w[0] == root && w.last() == x;
                            lemma_closed_holds_reachable(adj, o, root, w);
                        }
                        if o.contains(x) {
                            let p = choose|p: int| 0 <= p < o.len() && o[p] == x;
                            assert(reaches(adj, root, o[p]));
                        }
                    }
                }
                Ok(out)
            },
            Err(e) => Err(e),
        }
    }
}

} // verus!
