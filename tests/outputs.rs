use deptool::artifacts::{components_list, dependencies_document, init_source, DependencyEntry};
use deptool::console::puts;
use deptool::discovery::{be_in_black_list, get_last, module_name};
use deptool::elf::module_symbols;
use deptool::graph::ModuleGraph;
use deptool::irq::{set_enable, IrqController, IrqHandler, S_EXT, S_TIMER};
use deptool::logging::{set_max_level, LogLevel};
use deptool::module::{SymbolEntry, SymbolKind, SHN_UNDEF};

fn strings(v: &[&str]) -> Vec<String> {
    v.iter().map(|s| s.to_string()).collect()
}

#[test]
fn components_list_joins_paths() {
    assert_eq!(components_list("/k/", &strings(&["a", "b/c"])), "/k/a.ko /k/b/c.ko");
    assert_eq!(components_list("/k/", &Vec::new()), "");
}

#[test]
fn init_source_calls_in_order() {
    let text = init_source(&strings(&["a", "b"]));
    assert_eq!(
        text,
        "extern int cl_a_init();\nextern int cl_b_init();\n\nint cl_init()\n{\n    cl_a_init();\n    cl_b_init();\n    return 0;\n}\n"
    );
}

#[test]
fn dependency_document_json() {
    let entries = vec![
        DependencyEntry { name: "B".to_string(), depends_on: vec![] },
        DependencyEntry { name: "A".to_string(), depends_on: strings(&["B"]) },
    ];
    assert_eq!(dependencies_document(&entries), "{\"dependencies\":{\"B\":[],\"A\":[\"B\"]}}");
}

#[test]
fn dependency_map_of_order() {
    let mut g = ModuleGraph::new(&Vec::new());
    let x = vec![SymbolEntry { name: "f".to_string(), kind: SymbolKind::Other, section_index: SHN_UNDEF }];
    let y = vec![SymbolEntry { name: "f".to_string(), kind: SymbolKind::Function, section_index: 1 }];
    g.add_module("X", &x);
    g.add_module("Y", &y);
    let order = g.resolve("X", false).ok().unwrap();
    let map = g.dependency_map(&order);
    assert_eq!(map.len(), 2);
    assert_eq!(map[0].name, "Y");
    assert!(map[0].depends_on.is_empty());
    assert_eq!(map[1].name, "X");
    assert_eq!(map[1].depends_on, strings(&["Y"]));
}

#[test]
fn module_name_strips_root_and_extension() {
    assert_eq!(module_name("/k/mm/slab_common.ko", "/k/", ".ko"), Some("mm/slab_common".to_string()));
    assert_eq!(module_name("/k/lib/bitmap.o", "/k/", ".ko"), None);
    assert_eq!(module_name("/x/lib/bitmap.o", "/k/", ".o"), None);
}

#[test]
fn deny_list_prefixes_and_names() {
    assert!(be_in_black_list("vmlinux"));
    assert!(be_in_black_list(".vmlinux.export"));
    assert!(be_in_black_list("scripts/mod/modpost"));
    assert!(!be_in_black_list("scripts/modx"));
    assert!(!be_in_black_list("vmlinux2"));
    assert!(!be_in_black_list("mm/slab_common"));
}

#[test]
fn last_component_of_path() {
    assert_eq!(get_last("/a/b/linux-6.1/"), "linux-6.1");
    assert_eq!(get_last("net/socket"), "socket");
    assert_eq!(get_last("plain"), "plain");
}

#[test]
fn puts_translates_newlines() {
    assert_eq!(puts("a\nb"), vec![97, 13, 10, 98]);
    assert_eq!(puts(""), Vec::<u8>::new());
}

#[test]
fn log_level_by_name() {
    assert_eq!(set_max_level("warn"), LogLevel::Warn);
    assert_eq!(set_max_level("TRACE"), LogLevel::Trace);
    assert_eq!(set_max_level("Off"), LogLevel::Off);
    assert_eq!(set_max_level("verbose"), LogLevel::Off);
}

fn on_irq() {}

#[test]
fn irq_registration() {
    let mut c = IrqController::new();
    assert!(!c.dispatch_irq(S_EXT));
    assert!(c.register_handler(S_TIMER, IrqHandler(on_irq)));
    assert!(!c.register_handler(S_TIMER, IrqHandler(on_irq)));
    assert!(c.dispatch_irq(S_TIMER));
    assert!(c.register_handler(S_EXT, IrqHandler(on_irq)));
    assert!(!c.register_handler(S_EXT, IrqHandler(on_irq)));
    assert!(!c.dispatch_irq(S_EXT));
    set_enable(S_EXT, true);
}

#[test]
fn malformed_image_has_no_symbols() {
    assert!(module_symbols(b"not an elf image").is_none());
    let mut g = ModuleGraph::new(&Vec::new());
    assert_eq!(g.load_module("bad", b"\x7fELF"), None);
    assert_eq!(g.modules.len(), 1);
}

#[test]
fn preemption_switch_is_accepted() {
    deptool::irq::set_preemptiable(true);
    deptool::irq::set_preemptiable(false);
}
