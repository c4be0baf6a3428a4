use deptool::graph::{ModuleGraph, LINKAGE};
use deptool::module::{Module, ModuleStatus, SymbolEntry, SymbolKind, SHN_UNDEF};
use deptool::resolve::OrderError;

fn sym(name: &str, kind: SymbolKind, section: u16) -> SymbolEntry {
    SymbolEntry { name: name.to_string(), kind, section_index: section }
}

fn func(name: &str) -> SymbolEntry {
    sym(name, SymbolKind::Function, 1)
}

fn data(name: &str) -> SymbolEntry {
    sym(name, SymbolKind::Data, 2)
}

fn needs(name: &str) -> SymbolEntry {
    sym(name, SymbolKind::Other, SHN_UNDEF)
}

fn graph(config: &[&str], modules: &[(&str, Vec<SymbolEntry>)]) -> ModuleGraph {
    let lines: Vec<String> = config.iter().map(|s| s.to_string()).collect();
    let mut g = ModuleGraph::new(&lines);
    for (name, syms) in modules {
        g.add_module(name, syms);
    }
    g
}

fn names(g: &ModuleGraph, order: &[usize]) -> Vec<String> {
    order.iter().map(|&i| g.modules[i].name.clone()).collect()
}

#[test]
fn module_new_is_empty() {
    let m = Module::new("mm/slab_common");
    assert_eq!(m.name, "mm/slab_common");
    assert_eq!(m.status, ModuleStatus::Untouched);
    assert_eq!(m.max_chain_length, 0);
    assert_eq!(m.element_count, 0);
    assert!(m.undefined_symbols.is_empty());
    assert!(m.edges.is_empty());
}

#[test]
fn element_count_ignores_imports() {
    let syms = vec![func("f1"), func("f2"), func("f3"), data("d1"), data("d2"), needs("printk")];
    let g = graph(&[], &[("m", syms)]);
    assert_eq!(g.modules[1].element_count, 5);
    assert_eq!(g.modules[1].undefined_symbols, vec!["printk".to_string()]);
}

#[test]
fn other_kinds_and_blank_imports_are_skipped() {
    let syms = vec![sym("sec", SymbolKind::Other, 3), needs("   "), needs(" kmalloc "), func("f")];
    let g = graph(&[], &[("m", syms)]);
    assert_eq!(g.modules[1].element_count, 1);
    assert_eq!(g.modules[1].undefined_symbols, vec!["kmalloc".to_string()]);
    assert_eq!(g.lookup("sec"), None);
    assert_eq!(g.lookup("f"), Some(1));
}

#[test]
fn later_definition_wins() {
    let g = graph(&[], &[("a", vec![func("g")]), ("b", vec![func("g")])]);
    assert_eq!(g.lookup("g"), Some(2));
    assert_eq!(g.lookup("h"), None);
}

#[test]
fn define_replaces_owner() {
    let mut g = graph(&[], &[("a", vec![func("g")]), ("b", vec![])]);
    g.define("g".to_string(), 2);
    assert_eq!(g.lookup("g"), Some(2));
}

#[test]
fn linkage_module_owns_config_lines() {
    let g = graph(&["  printk ", "", "   ", "memcpy"], &[]);
    assert_eq!(g.modules.len(), 1);
    assert_eq!(g.modules[LINKAGE].name, "lds");
    assert_eq!(g.lookup("printk"), Some(LINKAGE));
    assert_eq!(g.lookup("memcpy"), Some(LINKAGE));
    assert_eq!(g.lookup(""), None);
}

#[test]
fn ordering_places_provider_first() {
    let mut g = graph(&[], &[("X", vec![needs("f")]), ("Y", vec![func("f")])]);
    let order = g.resolve("X", false).ok().unwrap();
    assert_eq!(names(&g, &order), vec!["Y", "X"]);
    assert_eq!(g.modules[1].edges, vec![2]);
}

#[test]
fn ordering_chain_is_reversed() {
    let mut g = graph(
        &[],
        &[("A", vec![needs("b")]), ("B", vec![func("b"), needs("c")]), ("C", vec![func("c")])],
    );
    let order = g.resolve("A", false).ok().unwrap();
    assert_eq!(names(&g, &order), vec!["C", "B", "A"]);
}

#[test]
fn ordering_shared_dependency_once() {
    let mut g = graph(
        &["printk"],
        &[
            ("top", vec![needs("l"), needs("r")]),
            ("left", vec![func("l"), needs("s")]),
            ("right", vec![func("r"), needs("s"), needs("printk")]),
            ("shared", vec![func("s")]),
            ("unused", vec![func("u")]),
        ],
    );
    let order = g.resolve("top", false).ok().unwrap();
    assert_eq!(names(&g, &order), vec!["shared", "left", "lds", "right", "top"]);
    assert!(g.modules[LINKAGE].edges.is_empty());
}

#[test]
fn ordering_rejects_cycle() {
    let mut g = graph(&[], &[("A", vec![func("a"), needs("b")]), ("B", vec![func("b"), needs("a")])]);
    match g.resolve("A", false) {
        Err(OrderError::Cycle { from, to }) => {
            assert_eq!(from, "B");
            assert_eq!(to, "A");
        }
        _ => panic!("expected a cycle"),
    }
}

#[test]
fn ordering_rejects_self_dependency() {
    let mut g = graph(&[], &[("A", vec![func("a"), needs("a")])]);
    assert!(matches!(g.resolve("A", false), Err(OrderError::Cycle { .. })));
}

#[test]
fn ordering_reports_unresolved() {
    let mut g = graph(&[], &[("X", vec![needs("missing"), needs("f")]), ("Y", vec![func("f")])]);
    match g.resolve("X", false) {
        Err(OrderError::Unresolved { module, symbols }) => {
            assert_eq!(module, "X");
            assert_eq!(symbols, vec!["missing".to_string()]);
        }
        _ => panic!("expected unresolved symbols"),
    }
}

#[test]
fn ordering_tolerates_unresolved_on_request() {
    let mut g = graph(&[], &[("X", vec![needs("missing"), needs("f")]), ("Y", vec![func("f")])]);
    let order = g.resolve("X", true).ok().unwrap();
    assert_eq!(names(&g, &order), vec!["Y", "X"]);
}

#[test]
fn ordering_missing_root() {
    let mut g = graph(&[], &[("X", vec![])]);
    assert!(matches!(g.resolve("nope", false), Err(OrderError::MissingRoot)));
    let mut g = graph(&[], &[("X", vec![])]);
    assert!(matches!(g.resolve("lds", false), Err(OrderError::MissingRoot)));
}

#[test]
fn find_module_skips_linkage() {
    let g = graph(&[], &[("a", vec![]), ("b", vec![])]);
    assert_eq!(g.find_module("b"), Some(2));
    assert_eq!(g.find_module("lds"), None);
}

#[test]
fn forward_link_of_one_module() {
    let mut g = graph(&[], &[("X", vec![needs("f"), needs("g"), needs("f"), needs("zz")]), ("Y", vec![func("f"), func("g")])]);
    let unresolved = g.link_module_forward(1);
    assert_eq!(unresolved, vec!["zz".to_string()]);
    assert_eq!(g.modules[1].edges, vec![2]);
    assert!(g.modules[1].undefined_symbols.is_empty());
}

#[test]
fn diffusion_tolerates_cycle() {
    let mut g = graph(&[], &[("A", vec![func("a"), needs("b")]), ("B", vec![func("b"), needs("a")])]);
    let report = g.analyze_diffusion();
    assert_eq!(g.modules[1].edges, vec![2]);
    assert_eq!(g.modules[2].edges, vec![1]);
    let chains: Vec<usize> = report.modules.iter().map(|m| m.max_chain_length).collect();
    assert_eq!(chains, vec![6, 5]);
    assert_eq!(report.totals.chain, 11);
}

#[test]
fn measure_reports_twice_the_level_on_a_cycle() {
    let mut g = graph(&[], &[("A", vec![func("a"), needs("b")]), ("B", vec![func("b"), needs("a")])]);
    g.link_all_dependents();
    g.modules[1].status = ModuleStatus::Touched;
    assert_eq!(g.measure(1, 3), 6);
    assert_eq!(g.modules[1].max_chain_length, 6);
    assert_eq!(g.modules[1].status, ModuleStatus::Touched);
}

#[test]
fn diffusion_longer_chain_measures_higher() {
    let mut g = graph(
        &[],
        &[
            ("P", vec![func("p")]),
            ("M1", vec![needs("p")]),
            ("M2", vec![needs("p"), func("m2")]),
            ("M3", vec![needs("m2")]),
            ("Q", vec![func("q")]),
            ("N1", vec![needs("q")]),
        ],
    );
    let report = g.analyze_diffusion();
    let chains: Vec<usize> = report.modules.iter().map(|m| m.max_chain_length).collect();
    assert_eq!(chains, vec![3, 1, 2, 1, 2, 1]);
    assert!(chains[0] >= chains[4]);
    let widths: Vec<usize> = report.modules.iter().map(|m| m.direct_width).collect();
    assert_eq!(widths, vec![2, 0, 1, 0, 1, 0]);
}

#[test]
fn diffusion_totals_and_linkage_leaf() {
    let mut g = graph(
        &["printk"],
        &[("a", vec![func("f1"), func("f2"), needs("printk")]), ("b", vec![data("d"), needs("f1"), needs("f2")])],
    );
    let report = g.analyze_diffusion();
    assert!(g.modules[LINKAGE].edges.is_empty());
    assert_eq!(report.totals.modules, 2);
    assert_eq!(report.totals.elements, 3);
    assert_eq!(report.totals.width, 1);
    assert_eq!(report.totals.chain, 3);
    assert_eq!(report.modules[0].module, 1);
    assert_eq!(report.modules[0].element_count, 2);
    assert_eq!(report.modules[0].direct_width, 1);
    assert_eq!(report.modules[0].max_chain_length, 2);
}

#[test]
fn reached_counts_dependents_walk() {
    let mut g = graph(
        &[],
        &[("P", vec![func("p")]), ("M1", vec![needs("p")]), ("M2", vec![needs("p"), func("m2")]), ("M3", vec![needs("m2")])],
    );
    g.link_all_dependents();
    let mut reached = g.reached_from(1);
    reached.sort();
    assert_eq!(reached, vec![1, 2, 3, 4]);
    assert_eq!(g.reached_from(4), vec![4]);
}

#[test]
fn ordering_linkage_in_order() {
    let mut g = graph(&["printk"], &[("X", vec![needs("printk")])]);
    let order = g.resolve("X", false).ok().unwrap();
    assert_eq!(names(&g, &order), vec!["lds", "X"]);
}

#[test]
fn forward_linking_leaves_unreached_modules_alone() {
    let mut g = graph(
        &[],
        &[("A", vec![needs("b")]), ("B", vec![func("b"), needs("c")]), ("C", vec![func("c")]), ("D", vec![needs("b")])],
    );
    assert!(g.link_dependencies(1, false).is_ok());
    assert_eq!(g.modules[1].edges, vec![2]);
    assert_eq!(g.modules[2].edges, vec![3]);
    assert!(g.modules[4].edges.is_empty());
    assert_eq!(g.modules[4].undefined_symbols, vec!["b".to_string()]);
    let order = g.order(1).ok().unwrap();
    assert_eq!(order, vec![3, 2, 1]);
}

#[test]
fn unreached_unresolved_module_does_not_matter() {
    let mut g = graph(
        &[],
        &[("A", vec![needs("b")]), ("B", vec![func("b")]), ("D", vec![needs("missing")])],
    );
    let order = g.resolve("A", false).ok().unwrap();
    assert_eq!(names(&g, &order), vec!["B", "A"]);
    assert_eq!(g.modules[3].undefined_symbols, vec!["missing".to_string()]);
}

#[test]
fn unresolved_error_names_reached_module() {
    let mut g = graph(
        &[],
        &[("A", vec![needs("b")]), ("B", vec![func("b"), needs("gone")]), ("D", vec![needs("missing")])],
    );
    match g.resolve("A", false) {
        Err(OrderError::Unresolved { module, symbols }) => {
            assert_eq!(module, "B");
            assert_eq!(symbols, vec!["gone".to_string()]);
        }
        _ => panic!("expected unresolved symbols"),
    }
}

#[test]
fn module_names_without_linkage() {
    let mut g = graph(&["printk"], &[("booter", vec![func("boot")]), ("X", vec![needs("printk"), needs("boot")])]);
    let order = g.resolve("X", false).ok().unwrap();
    let names = g.real_module_names(&order);
    assert_eq!(names, vec!["lds".to_string(), "booter".to_string(), "X".to_string()][1..].to_vec());
    assert_eq!(deptool::artifacts::init_modules(&names), Some(vec!["X".to_string()]));
    assert_eq!(deptool::artifacts::init_modules(&vec!["X".to_string()]), None);
}
