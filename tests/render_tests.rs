use deptool::artifacts::{dependencies_document, DependencyEntry};
use deptool::render::{dependency_dot, dependency_markdown, read_dependency_map};

fn entry(name: &str, deps: &[&str]) -> DependencyEntry {
    DependencyEntry { name: name.to_string(), depends_on: deps.iter().map(|s| s.to_string()).collect() }
}

fn sample() -> Vec<DependencyEntry> {
    vec![entry("c", &[]), entry("a", &["c"]), entry("b", &["c"]), entry("top", &["a", "lds", "b"])]
}

#[test]
fn dot_expands_each_module_once() {
    assert_eq!(dependency_dot(&sample(), "top", None), "digraph DOT {\ntop->a\na->c\ntop->b\nb->c\n}\n");
}

#[test]
fn dot_respects_max_level() {
    assert_eq!(dependency_dot(&sample(), "top", Some(1)), "digraph DOT {\ntop->a\ntop->b\n}\n");
    assert_eq!(dependency_dot(&sample(), "top", Some(0)), "digraph DOT {\n}\n");
}

#[test]
fn markdown_lists_dependencies() {
    assert_eq!(
        dependency_markdown(&sample(), "top", None),
        "### Profile: top.md\n```mermaid\ngraph TD\ntop --> a & lds & b\na --> c\nb --> c\n```\n"
    );
    assert_eq!(
        dependency_markdown(&sample(), "top", Some(1)),
        "### Profile: top.md\n```mermaid\ngraph TD\ntop --> a & lds & b\n```\n"
    );
}

#[test]
fn dependency_document_round_trip() {
    let text = dependencies_document(&sample());
    let back = read_dependency_map(&text).unwrap();
    let view: Vec<(String, Vec<String>)> = back.iter().map(|e| (e.name.clone(), e.depends_on.clone())).collect();
    let want: Vec<(String, Vec<String>)> = sample().iter().map(|e| (e.name.clone(), e.depends_on.clone())).collect();
    assert_eq!(view, want);
    assert!(read_dependency_map("{\"other\": {}}").is_none());
    assert!(read_dependency_map("not json").is_none());
}
