use tree_logicalizer_core::grammar::ParseError;
use tree_logicalizer_core::parser::parse_dsl;
use tree_logicalizer_core::simulation::{SimGraph, SimState};
use tree_logicalizer_core::CircuitSimulator;

#[test]
fn graph_holds_both_module_names() {
    let (_, ast) = parse_dsl("module A {}\nmodule B (In x) {}").unwrap();
    assert_eq!(ast.modules.len(), 2);
    let graph = SimGraph::from_ast(ast);
    assert_eq!(graph.len(), 2);
    assert_eq!(graph.get(&"A".to_string()).unwrap().name, "A");
    assert_eq!(graph.get(&"B".to_string()).unwrap().ports.len(), 1);
    assert!(graph.get(&"C".to_string()).is_none());
}

#[test]
fn duplicate_names_keep_the_last_module() {
    let (_, ast) = parse_dsl("module A (In x) {}\nmodule B {}\nmodule A { wire w; }").unwrap();
    assert_eq!(ast.modules.len(), 3);
    let graph = SimGraph::from_ast(ast);
    assert_eq!(graph.len(), 2);
    let a = graph.get(&"A".to_string()).unwrap();
    assert!(a.ports.is_empty());
    assert_eq!(a.body.len(), 1);
}

#[test]
fn empty_ast_gives_empty_graph() {
    let graph = SimGraph::from_ast(parse_dsl("").unwrap().1);
    assert_eq!(graph.len(), 0);
}

#[test]
fn new_state_is_empty() {
    let state = SimState::new();
    assert!(state.wire_values.is_empty());
}

#[test]
fn simulator_reports_module_count() {
    let sim = CircuitSimulator::new("module A {} module B {} module A {}".to_string()).unwrap();
    assert_eq!(sim.get_info(), "Module definitions parsed: 2");
    let none = CircuitSimulator::new(String::new()).unwrap();
    assert_eq!(none.get_info(), "Module definitions parsed: 0");
}

#[test]
fn simulator_count_has_several_digits() {
    let mut code = String::new();
    for i in 0..123 {
        code.push_str(&format!("module M{} {{}}\n", i));
    }
    let sim = CircuitSimulator::new(code).unwrap();
    assert_eq!(sim.get_info(), "Module definitions parsed: 123");
}

#[test]
fn simulator_rejects_bad_source() {
    assert_eq!(
        CircuitSimulator::new("module A {} x".to_string()).err(),
        Some(ParseError::Incomplete { offset: 12 })
    );
}

#[test]
fn step_is_not_implemented() {
    let mut sim = CircuitSimulator::new("module A {}".to_string()).unwrap();
    let r = sim.step_manual("{}");
    assert!(!r.success);
    assert_eq!(r.log, "Not implemented yet.");
    assert_eq!(sim.get_info(), "Module definitions parsed: 1");
}

#[test]
fn simulator_accepts_trailing_whitespace() {
    let sim = CircuitSimulator::new("module A {}\n  \t\n".to_string()).unwrap();
    assert_eq!(sim.get_info(), "Module definitions parsed: 1");
}

#[test]
fn cloned_module_is_equal() {
    let (_, ast) = parse_dsl("module C<N> (In a[N], Out b[3]) { bus x[N]; }").unwrap();
    let copy = ast.clone();
    assert_eq!(copy, ast);
}
