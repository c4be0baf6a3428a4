use vstd::prelude::*;
use vstd::string::StringExecFns;
use crate::graph::{ModuleGraph, LINKAGE};
use crate::module::Module;
use crate::render::same_text;

verus! {

/// One module of an ordering and the names of its direct dependencies.
pub struct DependencyEntry {
    pub name: String,
    pub depends_on: Vec<String>,
}

pub open spec fn entry_view(e: DependencyEntry) -> (Seq<char>, Seq<Seq<char>>) {
    (e.name@, e.depends_on@.map_values(|s: String| s@))
}

/// Space-separated list of `dir + name + ".ko"`, one per name.
pub open spec fn components_text(dir: Seq<char>, names: Seq<Seq<char>>) -> Seq<char>
    decreases names.len(),
{
    if names.len() == 0 {
        seq![]
    } else if names.len() == 1 {
        dir + names[0] + ".ko"@
    } else {
        components_text(dir, names.drop_last()) + " "@ + dir + names.last() + ".ko"@
    }
}

/// One declaration line per name.
pub open spec fn init_declarations(names: Seq<Seq<char>>) -> Seq<char>
    decreases names.len(),
{
    if names.len() == 0 {
        seq![]
    } else {
        init_declarations(names.drop_last()) + "extern int cl_"@ + names.last() + "_init();\n"@
    }
}

/// One call line per name.
pub open spec fn init_calls(names: Seq<Seq<char>>) -> Seq<char>
    decreases names.len(),
{
    if names.len() == 0 {
        seq![]
    } else {
        init_calls(names.drop_last()) + "    cl_"@ + names.last() + "_init();\n"@
    }
}

/// A C fragment that declares each module's init function and calls them
/// all, in the given order, from `cl_init`.
pub open spec fn init_source_text(names: Seq<Seq<char>>) -> Seq<char> {
    init_declarations(names) + "\n"@ + "int cl_init()\n"@ + "{\n"@ + init_calls(names) + "    return 0;\n"@ + "}\n"@
}

/// The linker input list: each module's file under `dir`, in order.
pub fn components_list(dir: &str, names: &Vec<String>) -> (r: String)
    ensures
        r@ == components_text(dir@, names@.map_values(|s: String| s@)),
{
    let ghost v = names@.map_values(|s: String| s@);
    let mut r = String::new();
    let mut i: usize = 0;
    while i < names.len()
        invariant
            0 <= i <= names@.len(),
            v == names@.map_values(|s: String| s@),
            r@ == components_text(dir@, v.subrange(0, i as int)),
        decreases names@.len() - i,
    {
        assert(v.subrange(0, i + 1).drop_last() =~= v.subrange(0, i as int));
        assert(v.subrange(0, i + 1).last() == names@[i as int]@);
        if i > 0 {
            r.append(" ");
        }
        r.append(dir);
        r.append(names[i].as_str());
        r.append(".ko");
        proof {
            if i == 0 {
                assert(v.subrange(0, 1)[0] == names@[0]@);
                assert(r@ =~= components_text(dir@, v.subrange(0, 1)));
            } else {
                assert(r@ =~= components_text(dir@, v.subrange(0, i + 1)));
            }
        }
        i = i + 1;
    }
    assert(v.subrange(0, names@.len() as int) =~= v);
    r
}

/// The init source for the given module names, in order.
pub fn init_source(names: &Vec<String>) -> (r: String)
    ensures
        r@ == init_source_text(names@.map_values(|s: String| s@)),
{
    let ghost v = names@.map_values(|s: String| s@);
    let mut decls = String::new();
    let mut calls = String::new();
    let mut i: usize = 0;
    while i < names.len()
        invariant
            0 <= i <= names@.len(),
            v == names@.map_values(|s: String| s@),
            decls@ == init_declarations(v.subrange(0, i as int)),
            calls@ == init_calls(v.subrange(0, i as int)),
        decreases names@.len() - i,
    {
        assert(v.subrange(0, i + 1).drop_last() =~= v.subrange(0, i as int));
        assert(v.subrange(0, i + 1).last() == names@[i as int]@);
        decls.append("extern int cl_");
        decls.append(names[i].as_str());
        decls.append("_init();\n");
        calls.append("    cl_");
        calls.append(names[i].as_str());
        calls.append("_init();\n");
        proof {
            assert(decls@ =~= init_declarations(v.subrange(0, i + 1)));
            assert(calls@ =~= init_calls(v.subrange(0, i + 1)));
        }
        i = i + 1;
    }
    assert(v.subrange(0, names@.len() as int) =~= v);
    let mut r = decls;
    r.append("\n");
    r.append("int cl_init()\n");
    r.append("{\n");
    r.append(calls.as_str());
    r.append("    return 0;\n");
    r.append("}\n");
    proof {
        assert(r@ =~= init_source_text(v));
    }
    r
}

impl ModuleGraph {
    /// For each module of `order`, its name and the names of its direct
    /// dependencies, in edge order.
    pub fn dependency_map(&self, order: &Vec<usize>) -> (r: Vec<DependencyEntry>)
        requires
            self.wf(),
            forall|p: int| 0 <= p < order@.len() ==> #[trigger] order@[p] < self.len(),
        ensures
            r@.len() == order@.len(),
            forall|p: int| 0 <= p < order@.len() ==> {
                &&& (#[trigger] r@[p]).name@ == self.modules@[order@[p] as int].name@
                &&& r@[p].depends_on@.len() == self.succ(order@[p] as int).len()
                &&& forall|k: int| 0 <= k < r@[p].depends_on@.len() ==>
                    (#[trigger] r@[p].depends_on@[k])@ == self.modules@[self.succ(order@[p] as int)[k] as int].name@
            },
    {
        let mut r: Vec<DependencyEntry> = Vec::new();
        let mut p: usize = 0;
        while p < order.len()
            invariant
                self.wf(),
                forall|q: int| 0 <= q < order@.len() ==> #[trigger] order@[q] < self.len(),
                0 <= p <= order@.len(),
                r@.len() == p,
                forall|q: int| 0 <= q < p ==> {
                    &&& (#[trigger] r@[q]).name@ == self.modules@[order@[q] as int].name@
                    &&& r@[q].depends_on@.len() == self.succ(order@[q] as int).len()
                    &&& forall|k: int| 0 <= k < r@[q].depends_on@.len() ==>
                        (#[trigger] r@[q].depends_on@[k])@ == self.modules@[self.succ(order@[q] as int)[k] as int].name@
                },
            decreases order@.len() - p,
        {
            let m = order[p];
            let mut deps: Vec<String> = Vec::new();
            let mut k: usize = 0;
            while k < self.modules[m].edges.len()
                invariant
                    self.wf(),
                    m < self.len(),
                    0 <= k <= self.succ(m as int).len(),
                    deps@.len() == k,
                    forall|q: int| 0 <= q < k ==>
                        (#[trigger] deps@[q])@ == self.modules@[self.succ(m as int)[q] as int].name@,
                decreases self.succ(m as int).len() - k,
            {
                let t = self.modules[m].edges[k];
                assert(t == self.succ(m as int)[k as int]);
                deps.push(self.modules[t].name.clone());
                k = k + 1;
            }
            r.push(DependencyEntry { name: self.modules[m].name.clone(), depends_on: deps });
            p = p + 1;
        }
        r
    }
}

/// The JSON text of an object whose one member `key` maps each entry's name
/// to the array of its dependencies' names, as the `json` crate builds and
/// dumps it.
pub uninterp spec fn dependencies_json(key: Seq<char>, entries: Seq<(Seq<char>, Seq<Seq<char>>)>) -> Seq<char>;

/// Relies on `json`: `object::Object::new` and `insert`, `JsonValue::from`
/// for a string, and `JsonValue::dump`. The text depends on the key and
/// the entries alone.
#[verifier::external_body]
fn dump_dependencies(key: &str, entries: &Vec<DependencyEntry>) -> (r: String)
    ensures
        r@ == dependencies_json(key@, entries@.map_values(|e: DependencyEntry| entry_view(e))),
{
    let mut deps = json::object::Object::new();
    for e in entries {
        let names = e.depends_on.iter().map(|n| json::JsonValue::from(n.as_str())).collect();
        deps.insert(&e.name, json::JsonValue::Array(names));
    }
    let mut root = json::object::Object::new();
    root.insert(key, json::JsonValue::Object(deps));
    json::JsonValue::Object(root).dump()
}

/// The structured dependency map: `{"dependencies": {name: [deps...]}}`.
pub fn dependencies_document(entries: &Vec<DependencyEntry>) -> (r: String)
    ensures
        r@ == dependencies_json("dependencies"@, entries@.map_values(|e: DependencyEntry| entry_view(e))),
{
    dump_dependencies("dependencies", entries)
}

/// Names of the modules of `order`, the linkage module left out, in order.
pub open spec fn real_names(mods: Seq<Module>, order: Seq<usize>) -> Seq<Seq<char>>
    decreases order.len(),
{
    if order.len() == 0 {
        seq![]
    } else if order.last() == LINKAGE {
        real_names(mods, order.drop_last())
    } else {
        real_names(mods, order.drop_last()).push(mods[order.last() as int].name@)
    }
}

impl ModuleGraph {
    /// The names that the linker list and the init source are made of: the
    /// modules of `order` without the linkage module.
    pub fn real_module_names(&self, order: &Vec<usize>) -> (r: Vec<String>)
        requires
            forall|p: int| 0 <= p < order@.len() ==> #[trigger] order@[p] < self.len(),
        ensures
            r@.map_values(|s: String| s@) == real_names(self.modules@, order@),
    {
        let mut r: Vec<String> = Vec::new();
        let mut p: usize = 0;
        while p < order.len()
            invariant
                0 <= p <= order@.len(),
                forall|q: int| 0 <= q < order@.len() ==> #[trigger] order@[q] < self.len(),
                r@.map_values(|s: String| s@) == real_names(self.modules@, order@.subrange(0, p as int)),
            decreases order@.len() - p,
        {
            assert(order@.subrange(0, p + 1).drop_last() =~= order@.subrange(0, p as int));
            let m = order[p];
            if m != LINKAGE {
                let ghost before = r@;
                r.push(self.modules[m].name.clone());
                assert(r@.map_values(|s: String| s@) =~= before.map_values(|s: String| s@).push(self.modules@[m as int].name@));
            }
            p = p + 1;
        }
        assert(order@.subrange(0, order@.len() as int) =~= order@);
        r
    }
}

/// The modules that get an init call: all but the boot module, which must
/// come first and starts itself. Nothing if the list does not start with
/// `booter`.
pub fn init_modules(names: &Vec<String>) -> (r: Option<Vec<String>>)
    ensures
        (r is Some) == (names@.len() > 0 && names@[0]@ == "booter"@),
        r matches Some(v) ==> v@.map_values(|s: String| s@) == names@.map_values(|s: String| s@).drop_first(),
{
    if names.len() == 0 || !same_text(names[0].as_str(), "booter") {
        return None;
    }
    let mut v: Vec<String> = Vec::new();
    let mut i: usize = 1;
    while i < names.len()
        invariant
            1 <= i <= names@.len(),
            v@.map_values(|s: String| s@) == names@.map_values(|s: String| s@).subrange(1, i as int),
        decreases names@.len() - i,
    {
        let ghost before = v@;
        v.push(names[i].clone());
        assert(v@ == before.push(names@[i as int]));
        assert(v@.map_values(|s: String| s@) =~= before.map_values(|s: String| s@).push(names@[i as int]@));
        assert(v@.map_values(|s: String| s@) =~= names@.map_values(|s: String| s@).subrange(1, i + 1));
        i = i + 1;
    }
    assert(names@.map_values(|s: String| s@).subrange(1, names@.len() as int) =~= names@.map_values(|s: String| s@).drop_first());
    Some(v)
}

} // verus!
