use tree_logicalizer_core::ast::{Expr, ModuleDef, Port, PortType, Statement};
use tree_logicalizer_core::grammar::ParseError;
use tree_logicalizer_core::parser::{parse_dsl, parse_module_def};
use tree_logicalizer_core::CircuitSimulator;

fn round_trip(code: &str) {
    let (_, ast) = parse_dsl(code).unwrap();
    assert!(!ast.modules.is_empty());
    for m in &ast.modules {
        let text = m.to_source();
        let (rest, again) = parse_module_def(&text).unwrap();
        assert_eq!(rest, text.len());
        assert_eq!(again.name, m.name);
        assert_eq!(again.generic_args, m.generic_args);
        assert_eq!(again.ports, m.ports);
        assert_eq!(again.body.len(), m.body.len());
        assert_eq!(&again, m);
    }
}

#[test]
fn writes_module_text() {
    let (_, m) = parse_module_def("module  Adder<N>(In A[N],In B[N],Out S[N],InOut c){wire t;bus q[16];}")
        .unwrap();
    assert_eq!(
        m.to_source(),
        "module Adder<N> (In A[N], In B[N], Out S[N], InOut c) { wire t; bus q[16]; }"
    );
}

#[test]
fn writes_empty_module() {
    let m = ModuleDef { name: "Empty".to_string(), generic_args: vec![], ports: vec![], body: vec![] };
    assert_eq!(m.to_source(), "module Empty () { }");
}

#[test]
fn writes_binary_width() {
    let m = ModuleDef {
        name: "X".to_string(),
        generic_args: vec!["N".to_string(), "M".to_string()],
        ports: vec![Port {
            port_type: PortType::Out,
            name: "o".to_string(),
            width: Some(Expr::BinaryOp {
                op: "+".to_string(),
                left: Box::new(Expr::Identifier("N".to_string())),
                right: Box::new(Expr::Number(1)),
            }),
        }],
        body: vec![Statement::WireDef { is_bus: true, name: "b".to_string(), width: Some(Expr::Number(0)) }],
    };
    assert_eq!(m.to_source(), "module X<N, M> (Out o[(N + 1)]) { bus b[0]; }");
}

#[test]
fn round_trip_keeps_modules() {
    round_trip("module Empty {}");
    round_trip("module Generic<N, M> (In A[N]) {}");
    round_trip("module SinglePort (In clk, Out data) {}");
    round_trip("module BusPort (In DataBus[8], Out Result[N]) {}");
    round_trip("module InternalWires (In A) { wire internal_clk; bus State[16]; }");
    round_trip("module A {}\nmodule B<M>(In C[1]) {\n wire X;\n}\n");
    round_trip("module W (InOut p[4294967295]) { bus x[0]; wire y; bus z[K]; }");
}

#[test]
fn written_module_then_garbage_is_incomplete() {
    let (_, m) = parse_module_def("module T<N> (In a[N]) { wire w; }").unwrap();
    let text = m.to_source();
    for tail in ["42", "garbage", "}"] {
        let source = format!("{}{}", text, tail);
        let (rest, ast) = parse_dsl(&source).unwrap();
        assert_eq!(rest, text.len());
        assert_eq!(ast.modules, vec![m.clone()]);
        assert_eq!(
            CircuitSimulator::new(source).err(),
            Some(ParseError::Incomplete { offset: text.len() })
        );
    }
}

#[test]
fn whole_source_round_trip() {
    let code = "module A {}\n  module B<M>(In C[1], Out D) { wire X; bus Y[M]; }\nmodule A (InOut z) {}";
    let (_, ast) = parse_dsl(code).unwrap();
    let text = ast.to_source();
    assert_eq!(
        text,
        "module A () { }\nmodule B<M> (In C[1], Out D) { wire X; bus Y[M]; }\nmodule A (InOut z) { }\n"
    );
    let (rest, again) = parse_dsl(&text).unwrap();
    assert_eq!(rest, text.len());
    assert_eq!(again, ast);
    assert!(CircuitSimulator::new(text).is_ok());
}

#[test]
fn concatenated_sources_give_both_module_lists() {
    let (_, x) = parse_dsl("module A {} module B (In c) {}").unwrap();
    let (_, y) = parse_dsl("module C<N> { bus d[N]; }").unwrap();
    let joined = format!("{}{}", x.to_source(), y.to_source());
    let (rest, z) = parse_dsl(&joined).unwrap();
    assert_eq!(rest, joined.len());
    let mut expected = x.modules.clone();
    expected.extend(y.modules.clone());
    assert_eq!(z.modules, expected);
    let raw = format!("{}\n{}", "module A {} module B (In c) {}", "module C<N> { bus d[N]; }");
    let (_, w) = parse_dsl(&raw).unwrap();
    assert_eq!(w.modules, expected);
}
