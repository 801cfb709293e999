use tree_logicalizer_core::ast::{Expr, Port, PortType, Statement};
use tree_logicalizer_core::grammar::{Expected, ParseError};
use tree_logicalizer_core::parser::{parse_dsl, parse_module_def};
use tree_logicalizer_core::CircuitSimulator;

#[test]
fn test_simple_module() {
    let code = "module Empty {}";
    let (rest, module) = parse_module_def(code).unwrap();
    assert_eq!(rest, code.len(), "Did not consume all input.");
    assert_eq!(module.name, "Empty".to_string());
}

#[test]
fn test_generic_args() {
    let code = "module Generic<N, M> (In A[N]) {}";
    let (_, module) = parse_module_def(code).unwrap();
    assert_eq!(module.generic_args, vec!["N".to_string(), "M".to_string()]);
}

#[test]
fn test_ports_single_wire() {
    let code = "module SinglePort (In clk, Out data) {}";
    let (_, module) = parse_module_def(code).unwrap();

    assert_eq!(module.ports.len(), 2);
    assert_eq!(
        module.ports[0],
        Port { port_type: PortType::In, name: "clk".to_string(), width: None }
    );
    assert_eq!(module.ports[1].port_type, PortType::Out);
    assert!(module.ports[1].width.is_none());
}

#[test]
fn test_ports_with_bus() {
    let code = "module BusPort (In DataBus[8], Out Result[N]) {}";
    let (_, module) = parse_module_def(code).unwrap();

    assert_eq!(module.ports.len(), 2);
    assert_eq!(module.ports[0].name, "DataBus");
    assert_eq!(module.ports[0].width, Some(Expr::Number(8)));
    assert_eq!(module.ports[1].name, "Result");
    assert_eq!(module.ports[1].width, Some(Expr::Identifier("N".to_string())));
}

#[test]
fn test_body_wire_defs() {
    let code = "module InternalWires (In A) {
            wire internal_clk;
            bus State[16];
        }";
    let (_, module) = parse_module_def(code).unwrap();

    assert_eq!(module.body.len(), 2);
    assert_eq!(
        module.body[0],
        Statement::WireDef { is_bus: false, name: "internal_clk".to_string(), width: None }
    );
    assert_eq!(
        module.body[1],
        Statement::WireDef { is_bus: true, name: "State".to_string(), width: Some(Expr::Number(16)) }
    );
}

#[test]
fn test_full_dsl_ast() {
    let code = "
            module A {}
            module B<M>(In C[1]) {
                wire X;
            }
        ";
    let (_, ast) = parse_dsl(code).unwrap();
    assert_eq!(ast.modules.len(), 2);
    assert_eq!(ast.modules[0].name, "A");
    assert_eq!(ast.modules[1].name, "B");
    assert_eq!(ast.modules[1].ports.len(), 1);
    assert_eq!(ast.modules[1].body.len(), 1);
}

#[test]
fn empty_module_has_nothing_inside() {
    let (rest, ast) = parse_dsl("module Empty {}").unwrap();
    assert_eq!(rest, 15);
    assert_eq!(ast.modules.len(), 1);
    let m = &ast.modules[0];
    assert_eq!(m.name, "Empty");
    assert!(m.generic_args.is_empty());
    assert!(m.ports.is_empty());
    assert!(m.body.is_empty());
}

#[test]
fn empty_port_list_is_accepted() {
    let (rest, m) = parse_module_def("module P () {}").unwrap();
    assert_eq!(rest, 14);
    assert!(m.ports.is_empty());
}

#[test]
fn inout_direction_is_recognised() {
    let (_, m) = parse_module_def("module D (InOut pad[W]) {}").unwrap();
    assert_eq!(m.ports[0].port_type, PortType::InOut);
    assert_eq!(m.ports[0].name, "pad");
    assert_eq!(m.ports[0].width, Some(Expr::Identifier("W".to_string())));
}

#[test]
fn module_stops_after_closing_brace() {
    let code = "module A {} module B {}";
    let (rest, m) = parse_module_def(code).unwrap();
    assert_eq!(m.name, "A");
    assert_eq!(rest, 11);
}

#[test]
fn identifiers_take_digits_and_underscores() {
    let (_, m) = parse_module_def("module a_1B2 (In x_y9) { wire w_0; }").unwrap();
    assert_eq!(m.name, "a_1B2");
    assert_eq!(m.ports[0].name, "x_y9");
    assert_eq!(
        m.body[0],
        Statement::WireDef { is_bus: false, name: "w_0".to_string(), width: None }
    );
}

#[test]
fn two_modules_in_source_order() {
    let (rest, ast) = parse_dsl("module First {}\nmodule Second (Out q) {}").unwrap();
    assert_eq!(rest, 40);
    assert_eq!(ast.modules.len(), 2);
    assert_eq!(ast.modules[0].name, "First");
    assert_eq!(ast.modules[1].name, "Second");
}

#[test]
fn empty_and_blank_sources_give_no_modules() {
    let (rest, ast) = parse_dsl("").unwrap();
    assert_eq!(rest, 0);
    assert!(ast.modules.is_empty());
    let (rest, ast) = parse_dsl(" \n\t\r ").unwrap();
    assert_eq!(rest, 5);
    assert!(ast.modules.is_empty());
}

#[test]
fn name_starting_with_digit_is_a_syntax_error() {
    assert_eq!(
        parse_dsl("module 123Invalid {}"),
        Err(ParseError::Syntax { offset: 7, expected: Expected::Identifier })
    );
    assert_eq!(
        parse_module_def("module 123Invalid {}").map(|(k, _)| k),
        Err(ParseError::Syntax { offset: 7, expected: Expected::Identifier })
    );
}

#[test]
fn trailing_garbage_is_incomplete() {
    let (rest, ast) = parse_dsl("module A {} garbage").unwrap();
    assert_eq!(rest, 12);
    assert_eq!(ast.modules.len(), 1);
    assert_eq!(ast.modules[0].name, "A");
    let (rest, ast) = parse_dsl("module A {}}").unwrap();
    assert_eq!(rest, 11);
    assert_eq!(ast.modules.len(), 1);
    assert_eq!(
        CircuitSimulator::new("module A {} garbage".to_string()).err(),
        Some(ParseError::Incomplete { offset: 12 })
    );
    assert_eq!(
        CircuitSimulator::new("module A {}}".to_string()).err(),
        Some(ParseError::Incomplete { offset: 11 })
    );
}

#[test]
fn missing_semicolon_is_a_syntax_error() {
    assert_eq!(
        parse_dsl("module A { wire x }"),
        Err(ParseError::Syntax { offset: 18, expected: Expected::Symbol(b';') })
    );
}

#[test]
fn generic_list_errors() {
    assert_eq!(
        parse_dsl("module G<N,> {}"),
        Err(ParseError::Syntax { offset: 11, expected: Expected::Identifier })
    );
    assert_eq!(
        parse_dsl("module G<N {}"),
        Err(ParseError::Syntax { offset: 11, expected: Expected::Symbol(b'>') })
    );
    assert_eq!(
        parse_dsl("module G<> {}"),
        Err(ParseError::Syntax { offset: 9, expected: Expected::Identifier })
    );
}

#[test]
fn port_errors() {
    assert_eq!(
        parse_dsl("module P (Input a) {}"),
        Err(ParseError::Syntax { offset: 10, expected: Expected::PortDirection })
    );
    assert_eq!(
        parse_dsl("module P (In a,) {}"),
        Err(ParseError::Syntax { offset: 15, expected: Expected::PortDirection })
    );
    assert_eq!(
        parse_dsl("module P (In a[4) {}"),
        Err(ParseError::Syntax { offset: 16, expected: Expected::Symbol(b']') })
    );
    assert_eq!(
        parse_dsl("module P (In a[]) {}"),
        Err(ParseError::Syntax { offset: 15, expected: Expected::Expression })
    );
    assert_eq!(
        parse_dsl("module P (In a {}"),
        Err(ParseError::Syntax { offset: 15, expected: Expected::Symbol(b')') })
    );
}

#[test]
fn body_errors() {
    assert_eq!(
        parse_dsl("module B { reg r; }"),
        Err(ParseError::Syntax { offset: 11, expected: Expected::StatementKeyword })
    );
    assert_eq!(
        parse_dsl("module B { wire r;"),
        Err(ParseError::Syntax { offset: 18, expected: Expected::StatementKeyword })
    );
    assert_eq!(
        parse_dsl("module B (In a) wire r; }"),
        Err(ParseError::Syntax { offset: 16, expected: Expected::Symbol(b'{') })
    );
}

#[test]
fn keyword_must_be_a_whole_word() {
    let (rest, ast) = parse_dsl("modules A {}").unwrap();
    assert_eq!(rest, 0);
    assert!(ast.modules.is_empty());
    assert_eq!(
        CircuitSimulator::new("modules A {}".to_string()).err(),
        Some(ParseError::Incomplete { offset: 0 })
    );
    assert_eq!(
        parse_module_def("modules A {}").map(|(k, _)| k),
        Err(ParseError::Syntax { offset: 0, expected: Expected::ModuleKeyword })
    );
}

#[test]
fn number_widths() {
    let (_, m) = parse_module_def("module W (In a[4294967295], In b[007]) {}").unwrap();
    assert_eq!(m.ports[0].width, Some(Expr::Number(4294967295)));
    assert_eq!(m.ports[1].width, Some(Expr::Number(7)));
    assert_eq!(
        parse_dsl("module W (In a[4294967296]) {}"),
        Err(ParseError::Syntax { offset: 15, expected: Expected::NumberInRange })
    );
}

#[test]
fn parsing_twice_gives_equal_asts() {
    let code = "module A<N> (In x[N], Out y) { bus b[N]; wire w; }\nmodule B {}";
    assert_eq!(parse_dsl(code), parse_dsl(code));
    assert!(parse_dsl(code).is_ok());
}

#[test]
fn reparsing_a_written_module_keeps_it() {
    let code = "module   R<N,M>(In a[N] ,Out b){wire c;bus d[3];}";
    let (_, m) = parse_module_def(code).unwrap();
    let written = "module R<N, M> (In a[N], Out b) { wire c; bus d[3]; }";
    let (_, again) = parse_module_def(written).unwrap();
    assert_eq!(m, again);
}
