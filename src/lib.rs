//! Front end of a small hardware description language: parsing of module
//! definitions into an AST, and the graph of modules indexed by name.
use vstd::prelude::*;
use vstd::utf8::encode_utf8;

pub mod ast;
pub mod grammar;
pub mod parser;
pub mod printer;
pub mod roundtrip;
pub mod simulation;

use crate::grammar::{dsl_rule, lemma_modules_end, lemma_skip_ws, source_rule, ParseError};
use crate::simulation::{graph_of, SimGraph, SimState};

verus! {

/// Decimal digits of `n`, without leading zeros.
pub open spec fn decimal(n: nat) -> Seq<char>
    decreases n,
{
    if n < 10 {
        seq![((n + 48) as u8) as char]
    } else {
        decimal(n / 10).push(((n % 10 + 48) as u8) as char)
    }
}

fn push_decimal(s: &mut String, n: usize)
    ensures
        final(s)@ == old(s)@ + decimal(n as nat),
    decreases n,
{
    if n >= 10 {
        push_decimal(s, n / 10);
    }
    crate::parser::push_char(s, ((n % 10) as u8 + 48) as char);
    assert(final(s)@ =~= old(s)@ + decimal(n as nat));
}

/// Outcome of a simulation step.
pub struct SimResult {
    pub success: bool,
    pub log: String,
}

/// A circuit built from source text: its module graph and its state.
pub struct CircuitSimulator {
    graph: SimGraph,
    state: SimState,
}

impl CircuitSimulator {
    /// The module graph, by name.
    pub closed spec fn modules(&self) -> Map<Seq<char>, crate::ast::ModuleModel> {
        self.graph@
    }

    /// Current wire values.
    pub closed spec fn wire_values(&self) -> Map<usize, u64> {
        self.state.wire_values@
    }

    /// The graph holds each name once.
    pub closed spec fn wf(&self) -> bool {
        self.graph.wf()
    }

    /// Parses `dsl_code` and indexes its modules by name. Fails with the
    /// parse error where a module is malformed, and with `Incomplete` at the
    /// offset where the modules end when anything but whitespace follows them.
    pub fn new(dsl_code: String) -> (r: Result<CircuitSimulator, ParseError>)
        ensures
            match source_rule(encode_utf8(dsl_code@)) {
                Ok(mods) => {
                    &&& r is Ok
                    &&& r->Ok_0.wf()
                    &&& r->Ok_0.modules() == graph_of(mods)
                    &&& r->Ok_0.wire_values() == Map::<usize, u64>::empty()
                },
                Err(e) => r == Err::<CircuitSimulator, ParseError>(e),
            },
    {
        let (k, ast) = match crate::parser::parse_dsl(dsl_code.as_str()) {
            Ok(x) => x,
            Err(e) => return Err(e),
        };
        let bytes = dsl_code.as_str().as_bytes();
        proof {
            lemma_skip_ws(bytes@, 0);
            if let Ok((_, n)) = dsl_rule(bytes@) {
                lemma_modules_end(bytes@, 0);
            }
        }
        if crate::parser::sp(bytes, k) < bytes.len() {
            return Err(ParseError::Incomplete { offset: k });
        }
        let graph = SimGraph::from_ast(ast);
        let state = SimState::new();
        Ok(CircuitSimulator { graph, state })
    }

    /// `Module definitions parsed: ` and the number of distinct module names.
    pub fn get_info(&self) -> (r: String)
        requires
            self.wf(),
        ensures
            r@ == "Module definitions parsed: "@ + decimal(self.modules().dom().len()),
    {
        let mut r = "Module definitions parsed: ".to_owned();
        push_decimal(&mut r, self.graph.len());
        r
    }

    /// Stepping is not available yet: reports failure and changes nothing.
    pub fn step_manual(&mut self, _inputs_json: &str) -> (r: SimResult)
        ensures
            !r.success,
            r.log@ == "Not implemented yet."@,
            *final(self) == *old(self),
    {
        SimResult { success: false, log: "Not implemented yet.".to_owned() }
    }
}

} // verus!
