use vstd::prelude::*;
use vstd::string::{StringExecFns, StrSliceExecFns};
use crate::artifacts::{DependencyEntry, entry_view};
use crate::diffusion::{unseen, lemma_unseen_mark};
use crate::discovery::starts_with;

verus! {

/// A dependency map as plain values: each entry's name and its direct
/// dependencies' names.
pub type DepMap = Seq<(Seq<char>, Seq<Seq<char>>)>;

/// First entry named `name` that is not expanded yet.
pub open spec fn find_open(es: DepMap, ex: Seq<bool>, name: Seq<char>, from: int) -> Option<int>
    decreases es.len() - from,
{
    if from < 0 || from >= es.len() || from >= ex.len() {
        None
    } else if !ex[from] && es[from].0 == name {
        Some(from)
    } else {
        find_open(es, ex, name, from + 1)
    }
}

/// Whether a walk at `level` is cut off by `max`.
pub open spec fn too_deep(level: nat, max: Option<nat>) -> bool {
    match max {
        Some(m) => level >= m,
        None => false,
    }
}

/// Edge lines for the graph below `name`: each entry is expanded once, its
/// dependencies in order, the linkage module skipped; `fuel` bounds the
/// depth. Returns the text and the expanded flags after the walk.
pub open spec fn dot_node(es: DepMap, ex: Seq<bool>, name: Seq<char>, level: nat, max: Option<nat>, fuel: nat) -> (Seq<char>, Seq<bool>)
    decreases fuel, 0nat, 0nat,
{
    if fuel == 0 || too_deep(level, max) {
        (seq![], ex)
    } else {
        match find_open(es, ex, name, 0) {
            None => (seq![], ex),
            Some(i) => dot_kids(es, ex.update(i, true), name, es[i].1, level + 1, max, (fuel - 1) as nat),
        }
    }
}

/// Edge lines for the dependencies `kids` of `name`, in order.
pub open spec fn dot_kids(
    es: DepMap,
    ex: Seq<bool>,
    name: Seq<char>,
    kids: Seq<Seq<char>>,
    level: nat,
    max: Option<nat>,
    fuel: nat,
) -> (Seq<char>, Seq<bool>)
    decreases fuel, 1nat, kids.len(),
{
    if kids.len() == 0 {
        (seq![], ex)
    } else {
        let (t, ex1) = dot_kids(es, ex, name, kids.drop_last(), level, max, fuel);
        let child = kids.last();
        if child == "lds"@ {
            (t, ex1)
        } else {
            let (t2, ex2) = dot_node(es, ex1, child, level, max, fuel);
            (t + name + "->"@ + child + "\n"@ + t2, ex2)
        }
    }
}

/// The DOT graph of everything below `root`.
pub open spec fn dot_text(es: DepMap, root: Seq<char>, max: Option<nat>) -> Seq<char> {
    "digraph DOT {\n"@ + dot_node(es, Seq::new(es.len(), |i: int| false), root, 0, max, es.len() + 1).0 + "}\n"@
}

/// `names` joined by " & ".
pub open spec fn joined(names: Seq<Seq<char>>) -> Seq<char>
    decreases names.len(),
{
    if names.len() == 0 {
        seq![]
    } else if names.len() == 1 {
        names[0]
    } else {
        joined(names.drop_last()) + " & "@ + names.last()
    }
}

/// Mermaid lines for the graph below `name`: one line per expanded entry
/// that has dependencies, naming them all, then their own lines in order.
pub open spec fn md_node(es: DepMap, ex: Seq<bool>, name: Seq<char>, level: nat, max: Option<nat>, fuel: nat) -> (Seq<char>, Seq<bool>)
    decreases fuel, 0nat, 0nat,
{
    if fuel == 0 || too_deep(level, max) {
        (seq![], ex)
    } else {
        match find_open(es, ex, name, 0) {
            None => (seq![], ex),
            Some(i) => if es[i].1.len() == 0 {
                (seq![], ex.update(i, true))
            } else {
                let (t, ex2) = md_kids(es, ex.update(i, true), es[i].1, level + 1, max, (fuel - 1) as nat);
                (name + " --> "@ + joined(es[i].1) + "\n"@ + t, ex2)
            },
        }
    }
}

/// Mermaid lines below each of `kids`, in order.
pub open spec fn md_kids(es: DepMap, ex: Seq<bool>, kids: Seq<Seq<char>>, level: nat, max: Option<nat>, fuel: nat) -> (Seq<char>, Seq<bool>)
    decreases fuel, 1nat, kids.len(),
{
    if kids.len() == 0 {
        (seq![], ex)
    } else {
        let (t, ex1) = md_kids(es, ex, kids.drop_last(), level, max, fuel);
        let (t2, ex2) = md_node(es, ex1, kids.last(), level, max, fuel);
        (t + t2, ex2)
    }
}

/// The Mermaid diagram of everything below `root`, titled by `root`.
pub open spec fn markdown_text(es: DepMap, root: Seq<char>, max: Option<nat>) -> Seq<char> {
    "### Profile: "@ + root + ".md\n"@ + "```mermaid\n"@ + "graph TD\n"@
        + md_node(es, Seq::new(es.len(), |i: int| false), root, 0, max, es.len() + 1).0 + "```\n"@
}

pub open spec fn map_view(entries: Seq<DependencyEntry>) -> DepMap {
    entries.map_values(|e: DependencyEntry| entry_view(e))
}

pub open spec fn opt_nat(max: Option<usize>) -> Option<nat> {
    match max {
        Some(m) => Some(m as nat),
        None => None,
    }
}

/// Whether two strings hold the same characters.
pub(crate) fn same_text(a: &str, b: &str) -> (r: bool)
    ensures
        r == (a@ == b@),
{
    let r = a.unicode_len() == b.unicode_len() && starts_with(a, b);
    proof {
        if a@.len() == b@.len() && a@.subrange(0, b@.len() as int) == b@ {
            assert(a@ =~= a@.subrange(0, b@.len() as int));
        }
        if a@ == b@ {
            assert(a@.subrange(0, b@.len() as int) =~= b@);
        }
    }
    r
}

/// Position of the first entry named `name` not expanded yet.
fn find_entry(entries: &Vec<DependencyEntry>, expanded: &Vec<bool>, name: &str) -> (r: Option<usize>)
    requires
        expanded@.len() == entries@.len(),
    ensures
        r matches Some(i) ==> find_open(map_view(entries@), expanded@, name@, 0) == Some(i as int)
            && i < entries@.len() && !expanded@[i as int],
        r is None ==> find_open(map_view(entries@), expanded@, name@, 0) is None,
{
    let ghost es = map_view(entries@);
    let mut i: usize = 0;
    while i < entries.len()
        invariant
            0 <= i <= entries@.len(),
            expanded@.len() == entries@.len(),
            es == map_view(entries@),
            find_open(es, expanded@, name@, 0) == find_open(es, expanded@, name@, i as int),
        decreases entries@.len() - i,
    {
        assert(es[i as int] == entry_view(entries@[i as int]));
        if !expanded[i] && same_text(entries[i].name.as_str(), name) {
            return Some(i);
        }
        i = i + 1;
    }
    None
}

/// Marks never outnumber the entries.
proof fn lemma_unseen_bounded(s: Seq<bool>)
    ensures
        unseen(s) <= s.len(),
    decreases s.len(),
{
    if s.len() > 0 {
        lemma_unseen_bounded(s.drop_last());
    }
}

fn dot_walk(
    entries: &Vec<DependencyEntry>,
    expanded: &mut Vec<bool>,
    name: &str,
    level: usize,
    max: Option<usize>,
    out: &mut String,
    Ghost(fuel): Ghost<nat>,
)
    requires
        old(expanded)@.len() == entries@.len(),
        fuel > unseen(old(expanded)@),
        level + fuel <= entries@.len() + 1,
        entries@.len() < usize::MAX,
    ensures
        final(expanded)@.len() == entries@.len(),
        unseen(final(expanded)@) <= unseen(old(expanded)@),
        final(out)@ == old(out)@ + dot_node(map_view(entries@), old(expanded)@, name@, level as nat, opt_nat(max), fuel).0,
        final(expanded)@ == dot_node(map_view(entries@), old(expanded)@, name@, level as nat, opt_nat(max), fuel).1,
    decreases unseen(old(expanded)@),
{
    let ghost es = map_view(entries@);
    if let Some(m) = max {
        if level >= m {
            return;
        }
    }
    let i = match find_entry(entries, expanded, name) {
        Some(i) => i,
        None => {
            return;
        },
    };
    proof { lemma_unseen_mark(expanded@, i as int); }
    expanded.set(i, true);
    let ghost ex_mark = expanded@;
    let ghost out0 = out@;
    let kids = &entries[i].depends_on;
    let ghost kv = kids@.map_values(|s: String| s@);
    assert(es[i as int] == entry_view(entries@[i as int]));
    assert(es[i as int].1 == kv);
    let mut k: usize = 0;
    while k < kids.len()
        invariant
            0 <= k <= kids@.len(),
            kv == kids@.map_values(|s: String| s@),
            es == map_view(entries@),
            expanded@.len() == entries@.len(),
            unseen(expanded@) <= unseen(ex_mark),
            unseen(ex_mark) < unseen(old(expanded)@),
            fuel > unseen(old(expanded)@),
            level + fuel <= entries@.len() + 1,
            entries@.len() < usize::MAX,
            out@ == out0 + dot_kids(es, ex_mark, name@, kv.subrange(0, k as int), (level + 1) as nat, opt_nat(max), (fuel - 1) as nat).0,
            expanded@ == dot_kids(es, ex_mark, name@, kv.subrange(0, k as int), (level + 1) as nat, opt_nat(max), (fuel - 1) as nat).1,
        decreases kids@.len() - k,
    {
        let child = kids[k].as_str();
        assert(kv.subrange(0, k + 1).drop_last() =~= kv.subrange(0, k as int));
        assert(kv.subrange(0, k + 1).last() == child@);
        if !same_text(child, "lds") {
            let ghost before = out@;
            out.append(name);
            out.append("->");
            out.append(child);
            out.append("\n");
            let ghost mid = out@;
            dot_walk(entries, expanded, child, level + 1, max, out, Ghost((fuel - 1) as nat));
            proof {
                assert(out@ =~= before + name@ + "->"@ + child@ + "\n"@
                    + dot_node(es, dot_kids(es, ex_mark, name@, kv.subrange(0, k as int), (level + 1) as nat, opt_nat(max), (fuel - 1) as nat).1,
                        child@, (level + 1) as nat, opt_nat(max), (fuel - 1) as nat).0);
            }
        }
        k = k + 1;
    }
    assert(kv.subrange(0, kids@.len() as int) =~= kv);
}

/// The DOT graph of the dependencies below `root`, each entry expanded
/// once, at most `max` levels deep when given.
pub fn dependency_dot(entries: &Vec<DependencyEntry>, root: &str, max: Option<usize>) -> (r: String)
    requires
        entries@.len() < usize::MAX,
    ensures
        r@ == dot_text(map_view(entries@), root@, opt_nat(max)),
{
    let mut expanded: Vec<bool> = Vec::new();
    let mut i: usize = 0;
    while i < entries.len()
        invariant
            0 <= i <= entries@.len(),
            expanded@ =~= Seq::new(i as nat, |j: int| false),
        decreases entries@.len() - i,
    {
        expanded.push(false);
        i = i + 1;
    }
    let mut out = String::new();
    out.append("digraph DOT {\n");
    proof { lemma_unseen_bounded(expanded@); }
    dot_walk(entries, &mut expanded, root, 0, max, &mut out, Ghost((entries@.len() + 1) as nat));
    out.append("}\n");
    out
}

/// `names` joined by " & ".
fn join_names(names: &Vec<String>) -> (r: String)
    ensures
        r@ == joined(names@.map_values(|s: String| s@)),
{
    let ghost v = names@.map_values(|s: String| s@);
    let mut r = String::new();
    let mut i: usize = 0;
    while i < names.len()
        invariant
            0 <= i <= names@.len(),
            v == names@.map_values(|s: String| s@),
            r@ == joined(v.subrange(0, i as int)),
        decreases names@.len() - i,
    {
        assert(v.subrange(0, i + 1).drop_last() =~= v.subrange(0, i as int));
        assert(v.subrange(0, i + 1).last() == names@[i as int]@);
        if i > 0 {
            r.append(" & ");
        }
        r.append(names[i].as_str());
        proof {
            if i == 0 {
                assert(v.subrange(0, 1)[0] == names@[0]@);
                assert(r@ =~= joined(v.subrange(0, 1)));
            } else {
                assert(r@ =~= joined(v.subrange(0, i + 1)));
            }
        }
        i = i + 1;
    }
    assert(v.subrange(0, names@.len() as int) =~= v);
    r
}

fn md_walk(
    entries: &Vec<DependencyEntry>,
    expanded: &mut Vec<bool>,
    name: &str,
    level: usize,
    max: Option<usize>,
    out: &mut String,
    Ghost(fuel): Ghost<nat>,
)
    requires
        old(expanded)@.len() == entries@.len(),
        fuel > unseen(old(expanded)@),
        level + fuel <= entries@.len() + 1,
        entries@.len() < usize::MAX,
    ensures
        final(expanded)@.len() == entries@.len(),
        unseen(final(expanded)@) <= unseen(old(expanded)@),
        final(out)@ == old(out)@ + md_node(map_view(entries@), old(expanded)@, name@, level as nat, opt_nat(max), fuel).0,
        final(expanded)@ == md_node(map_view(entries@), old(expanded)@, name@, level as nat, opt_nat(max), fuel).1,
    decreases unseen(old(expanded)@),
{
    let ghost es = map_view(entries@);
    if let Some(m) = max {
        if level >= m {
            return;
        }
    }
    let i = match find_entry(entries, expanded, name) {
        Some(i) => i,
        None => {
            return;
        },
    };
    proof { lemma_unseen_mark(expanded@, i as int); }
    expanded.set(i, true);
    let ghost ex_mark = expanded@;
    let kids = &entries[i].depends_on;
    let ghost kv = kids@.map_values(|s: String| s@);
    assert(es[i as int] == entry_view(entries@[i as int]));
    assert(es[i as int].1 == kv);
    if kids.len() == 0 {
        return;
    }
    out.append(name);
    out.append(" --> ");
    let all = join_names(kids);
    out.append(all.as_str());
    out.append("\n");
    let ghost out0 = out@;
    let mut k: usize = 0;
    while k < kids.len()
        invariant
            0 <= k <= kids@.len(),
            kv == kids@.map_values(|s: String| s@),
            es == map_view(entries@),
            expanded@.len() == entries@.len(),
            unseen(expanded@) <= unseen(ex_mark),
            unseen(ex_mark) < unseen(old(expanded)@),
            fuel > unseen(old(expanded)@),
            level + fuel <= entries@.len() + 1,
            entries@.len() < usize::MAX,
            out@ == out0 + md_kids(es, ex_mark, kv.subrange(0, k as int), (level + 1) as nat, opt_nat(max), (fuel - 1) as nat).0,
            expanded@ == md_kids(es, ex_mark, kv.subrange(0, k as int), (level + 1) as nat, opt_nat(max), (fuel - 1) as nat).1,
        decreases kids@.len() - k,
    {
        let child = kids[k].as_str();
        assert(kv.subrange(0, k + 1).drop_last() =~= kv.subrange(0, k as int));
        assert(kv.subrange(0, k + 1).last() == child@);
        let ghost before = out@;
        md_walk(entries, expanded, child, level + 1, max, out, Ghost((fuel - 1) as nat));
        proof {
            assert(out@ =~= before
                + md_node(es, md_kids(es, ex_mark, kv.subrange(0, k as int), (level + 1) as nat, opt_nat(max), (fuel - 1) as nat).1,
                    child@, (level + 1) as nat, opt_nat(max), (fuel - 1) as nat).0);
        }
        k = k + 1;
    }
    assert(kv.subrange(0, kids@.len() as int) =~= kv);
}

/// The Mermaid diagram of the dependencies below `root`: one line per
/// expanded module with dependencies, each entry expanded once, at most
/// `max` levels deep when given.
pub fn dependency_markdown(entries: &Vec<DependencyEntry>, root: &str, max: Option<usize>) -> (r: String)
    requires
        entries@.len() < usize::MAX,
    ensures
        r@ == markdown_text(map_view(entries@), root@, opt_nat(max)),
{
    let mut expanded: Vec<bool> = Vec::new();
    let mut i: usize = 0;
    while i < entries.len()
        invariant
            0 <= i <= entries@.len(),
            expanded@ =~= Seq::new(i as nat, |j: int| false),
        decreases entries@.len() - i,
    {
        expanded.push(false);
        i = i + 1;
    }
    let mut out = String::new();
    out.append("### Profile: ");
    out.append(root);
    out.append(".md\n");
    out.append("```mermaid\n");
    out.append("graph TD\n");
    proof { lemma_unseen_bounded(expanded@); }
    md_walk(entries, &mut expanded, root, 0, max, &mut out, Ghost((entries@.len() + 1) as nat));
    out.append("```\n");
    out
}

/// The dependency map under member `key` of a JSON text, as the `json`
/// crate parses it: each member's name and the strings of its array, in
/// order; nothing if the text, the member or an array is not as expected.
pub uninterp spec fn parsed_dependency_map(text: Seq<char>, key: Seq<char>) -> Option<Seq<(Seq<char>, Seq<Seq<char>>)>>;

/// Relies on `json`: `parse`, indexing an object by key, `Object::iter`,
/// and `JsonValue::as_str` on array members. The result depends on the text
/// and the key alone.
#[verifier::external_body]
fn parse_dependencies(text: &str, key: &str) -> (r: Option<Vec<DependencyEntry>>)
    ensures
        (r is Some) == (parsed_dependency_map(text@, key@) is Some),
        r matches Some(v) ==> map_view(v@) == parsed_dependency_map(text@, key@).unwrap(),
{
    let doc = json::parse(text).ok()?;
    let json::JsonValue::Object(deps) = &doc[key] else {
        return None;
    };
    let mut out = Vec::new();
    for (name, value) in deps.iter() {
        let json::JsonValue::Array(items) = value else {
            return None;
        };
        let depends_on = items.iter().map(|v| v.as_str().map(|s| s.to_string())).collect::<Option<Vec<_>>>()?;
        out.push(DependencyEntry { name: name.to_string(), depends_on });
    }
    Some(out)
}

/// The map of a dependency document written by `dependencies_document`.
pub fn read_dependency_map(text: &str) -> (r: Option<Vec<DependencyEntry>>)
    ensures
        (r is Some) == (parsed_dependency_map(text@, "dependencies"@) is Some),
        r matches Some(v) ==> map_view(v@) == parsed_dependency_map(text@, "dependencies"@).unwrap(),
{
    parse_dependencies(text, "dependencies")
}

} // verus!
