//! The grammar of the circuit description language, as spec functions over
//! the bytes of the source text. Every rule takes a byte position and gives
//! either its value and the position after it, or the error at that point.
use vstd::prelude::*;
use crate::ast::{ExprModel, ModuleModel, PortModel, PortType, StatementModel};

verus! {

pub const SPACE: u8 = 32;
pub const TAB: u8 = 9;
pub const LF: u8 = 10;
pub const CR: u8 = 13;
pub const LOWER_A: u8 = 97;
pub const LOWER_Z: u8 = 122;
pub const UPPER_A: u8 = 65;
pub const UPPER_Z: u8 = 90;
pub const DIGIT_0: u8 = 48;
pub const DIGIT_9: u8 = 57;
pub const UNDERSCORE: u8 = 95;
pub const LT: u8 = 60;
pub const GT: u8 = 62;
pub const COMMA: u8 = 44;
pub const LPAREN: u8 = 40;
pub const RPAREN: u8 = 41;
pub const LBRACKET: u8 = 91;
pub const RBRACKET: u8 = 93;
pub const LBRACE: u8 = 123;
pub const RBRACE: u8 = 125;
pub const SEMI: u8 = 59;

/// What a rule expected where it failed.
#[derive(Debug, Clone, Copy, PartialEq, Eq, Structural)]
pub enum Expected {
    Identifier,
    Expression,
    Digit,
    NumberInRange,
    PortDirection,
    ModuleKeyword,
    StatementKeyword,
    Symbol(u8),
}

/// Why a source text was not accepted. `offset` is a byte offset into it.
#[derive(Debug, Clone, Copy, PartialEq, Eq, Structural)]
pub enum ParseError {
    /// A rule could not match at `offset`.
    Syntax { offset: usize, expected: Expected },
    /// The modules before `offset` parsed, but text that is not a module follows.
    Incomplete { offset: usize },
}

pub open spec fn is_space(b: u8) -> bool {
    b == SPACE || b == TAB || b == LF || b == CR
}

pub open spec fn is_alpha(b: u8) -> bool {
    (LOWER_A <= b && b <= LOWER_Z) || (UPPER_A <= b && b <= UPPER_Z)
}

pub open spec fn is_digit(b: u8) -> bool {
    DIGIT_0 <= b && b <= DIGIT_9
}

pub open spec fn is_ident_char(b: u8) -> bool {
    is_alpha(b) || is_digit(b) || b == UNDERSCORE
}

/// Byte `c` stands at position `j`.
pub open spec fn at(s: Seq<u8>, j: int, c: u8) -> bool {
    0 <= j < s.len() && s[j] == c
}

/// A letter stands at position `j`.
pub open spec fn alpha_at(s: Seq<u8>, j: int) -> bool {
    0 <= j < s.len() && is_alpha(s[j])
}

pub open spec fn digit_at(s: Seq<u8>, j: int) -> bool {
    0 <= j < s.len() && is_digit(s[j])
}

/// First position at or after `i` that is not whitespace.
pub open spec fn skip_ws(s: Seq<u8>, i: int) -> int
    decreases s.len() - i,
{
    if 0 <= i < s.len() && is_space(s[i]) {
        skip_ws(s, i + 1)
    } else {
        i
    }
}

/// End of the run of identifier characters that starts at `i`.
pub open spec fn ident_end(s: Seq<u8>, i: int) -> int
    decreases s.len() - i,
{
    if 0 <= i < s.len() && is_ident_char(s[i]) {
        ident_end(s, i + 1)
    } else {
        i
    }
}

/// End of the run of digits that starts at `i`.
pub open spec fn digits_end(s: Seq<u8>, i: int) -> int
    decreases s.len() - i,
{
    if digit_at(s, i) {
        digits_end(s, i + 1)
    } else {
        i
    }
}

/// End of the word at `j`: the longest `[A-Za-z][A-Za-z0-9_]*` there, empty if none.
pub open spec fn word_end(s: Seq<u8>, j: int) -> int {
    if alpha_at(s, j) {
        ident_end(s, j + 1)
    } else {
        j
    }
}

pub open spec fn word(s: Seq<u8>, j: int) -> Seq<u8> {
    s.subrange(j, word_end(s, j))
}

/// Decimal value of a run of digits.
pub open spec fn digits_value(d: Seq<u8>) -> nat
    decreases d.len(),
{
    if d.len() == 0 {
        0
    } else {
        digits_value(d.drop_last()) * 10 + (d.last() - DIGIT_0) as nat
    }
}

pub open spec fn chars_of(b: Seq<u8>) -> Seq<char> {
    b.map_values(|x: u8| x as char)
}

/// The keyword `module`, in ASCII.
pub open spec fn kw_module() -> Seq<u8> {
    seq![109, 111, 100, 117, 108, 101]
}

/// The keyword `wire`, in ASCII.
pub open spec fn kw_wire() -> Seq<u8> {
    seq![119, 105, 114, 101]
}

/// The keyword `bus`, in ASCII.
pub open spec fn kw_bus() -> Seq<u8> {
    seq![98, 117, 115]
}

/// The keyword `In`, in ASCII.
pub open spec fn kw_in() -> Seq<u8> {
    seq![73, 110]
}

/// The keyword `Out`, in ASCII.
pub open spec fn kw_out() -> Seq<u8> {
    seq![79, 117, 116]
}

/// The keyword `InOut`, in ASCII.
pub open spec fn kw_inout() -> Seq<u8> {
    seq![73, 110, 79, 117, 116]
}

pub open spec fn syntax<T>(j: int, e: Expected) -> Result<(T, int), ParseError> {
    Err(ParseError::Syntax { offset: j as usize, expected: e })
}

/// A successful result ends after `i` and within the text.
pub open spec fn advances<T>(r: Result<(T, int), ParseError>, i: int, n: int) -> bool {
    r is Ok ==> i < r->Ok_0.1 <= n
}

/// A successful result ends at or after `i` and within the text.
pub open spec fn stays<T>(r: Result<(T, int), ParseError>, i: int, n: int) -> bool {
    r is Ok ==> i <= r->Ok_0.1 <= n
}

/// `acc` followed by the items of a successful list result.
pub open spec fn prefixed<V>(acc: Seq<V>, r: Result<(Seq<V>, int), ParseError>) -> Result<(Seq<V>, int), ParseError> {
    match r {
        Ok((vs, m)) => Ok((acc + vs, m)),
        Err(e) => Err(e),
    }
}

/// Identifier after optional whitespace.
pub open spec fn identifier_rule(s: Seq<u8>, i: int) -> Result<(Seq<char>, int), ParseError> {
    let j = skip_ws(s, i);
    if alpha_at(s, j) {
        Ok((chars_of(word(s, j)), word_end(s, j)))
    } else {
        syntax(j, Expected::Identifier)
    }
}

/// One byte `c` after optional whitespace.
pub open spec fn symbol_rule(s: Seq<u8>, i: int, c: u8) -> Result<((), int), ParseError> {
    let j = skip_ws(s, i);
    if at(s, j, c) {
        Ok(((), j + 1))
    } else {
        syntax(j, Expected::Symbol(c))
    }
}

/// An unsigned 32-bit decimal literal after optional whitespace.
pub open spec fn number_rule(s: Seq<u8>, i: int) -> Result<(u32, int), ParseError> {
    let j = skip_ws(s, i);
    if !digit_at(s, j) {
        syntax(j, Expected::Digit)
    } else {
        let k = digits_end(s, j);
        let v = digits_value(s.subrange(j, k));
        if v <= u32::MAX {
            Ok((v as u32, k))
        } else {
            syntax(j, Expected::NumberInRange)
        }
    }
}

/// A numeric literal or an identifier, after optional whitespace.
pub open spec fn expr_rule(s: Seq<u8>, i: int) -> Result<(ExprModel, int), ParseError> {
    let j = skip_ws(s, i);
    if digit_at(s, j) {
        match number_rule(s, i) {
            Ok((v, k)) => Ok((ExprModel::Number(v), k)),
            Err(e) => Err(e),
        }
    } else if alpha_at(s, j) {
        Ok((ExprModel::Identifier(chars_of(word(s, j))), word_end(s, j)))
    } else {
        syntax(j, Expected::Expression)
    }
}

/// Optional `[ expr ]`; absent, it consumes nothing.
pub open spec fn bus_width_rule(s: Seq<u8>, i: int) -> Result<(Option<ExprModel>, int), ParseError> {
    let j = skip_ws(s, i);
    if at(s, j, LBRACKET) {
        match expr_rule(s, j + 1) {
            Ok((e, k)) => match symbol_rule(s, k, RBRACKET) {
                Ok((_, m)) => Ok((Some(e), m)),
                Err(er) => Err(er),
            },
            Err(er) => Err(er),
        }
    } else {
        Ok((None, i))
    }
}

pub open spec fn direction_of(w: Seq<u8>) -> Option<PortType> {
    if w == kw_in() {
        Some(PortType::In)
    } else if w == kw_out() {
        Some(PortType::Out)
    } else if w == kw_inout() {
        Some(PortType::InOut)
    } else {
        None
    }
}

/// `In` | `Out` | `InOut`, after optional whitespace.
pub open spec fn port_type_rule(s: Seq<u8>, i: int) -> Result<(PortType, int), ParseError> {
    let j = skip_ws(s, i);
    match direction_of(word(s, j)) {
        Some(d) => Ok((d, word_end(s, j))),
        None => syntax(j, Expected::PortDirection),
    }
}

/// direction identifier width?
pub open spec fn port_rule(s: Seq<u8>, i: int) -> Result<(PortModel, int), ParseError> {
    match port_type_rule(s, i) {
        Ok((d, k)) => match identifier_rule(s, k) {
            Ok((n, m)) => match bus_width_rule(s, m) {
                Ok((w, p)) => Ok((PortModel { port_type: d, name: n, width: w }, p)),
                Err(e) => Err(e),
            },
            Err(e) => Err(e),
        },
        Err(e) => Err(e),
    }
}

/// The ports after the first one: `(, port)* )`.
pub open spec fn port_rest_rule(s: Seq<u8>, i: int) -> Result<(Seq<PortModel>, int), ParseError>
    decreases s.len() - i,
{
    let j = skip_ws(s, i);
    if at(s, j, COMMA) {
        match port_rule(s, j + 1) {
            Ok((p, k)) => {
                proof {
                    lemma_skip_ws(s, i);
                    lemma_port(s, j + 1);
                }
                prefixed(seq![p], port_rest_rule(s, k))
            },
            Err(e) => Err(e),
        }
    } else if at(s, j, RPAREN) {
        Ok((seq![], j + 1))
    } else {
        syntax(j, Expected::Symbol(RPAREN))
    }
}

/// `( )` or `( port (, port)* )`.
pub open spec fn port_list_rule(s: Seq<u8>, i: int) -> Result<(Seq<PortModel>, int), ParseError> {
    match symbol_rule(s, i, LPAREN) {
        Ok((_, j)) => {
            let k = skip_ws(s, j);
            if at(s, k, RPAREN) {
                Ok((seq![], k + 1))
            } else {
                match port_rule(s, j) {
                    Ok((p, m)) => prefixed(seq![p], port_rest_rule(s, m)),
                    Err(e) => Err(e),
                }
            }
        },
        Err(e) => Err(e),
    }
}

/// The generic names after the first one: `(, identifier)* >`.
pub open spec fn generic_rest_rule(s: Seq<u8>, i: int) -> Result<(Seq<Seq<char>>, int), ParseError>
    decreases s.len() - i,
{
    let j = skip_ws(s, i);
    if at(s, j, COMMA) {
        match identifier_rule(s, j + 1) {
            Ok((g, k)) => {
                proof {
                    lemma_skip_ws(s, i);
                    lemma_identifier(s, j + 1);
                }
                prefixed(seq![g], generic_rest_rule(s, k))
            },
            Err(e) => Err(e),
        }
    } else if at(s, j, GT) {
        Ok((seq![], j + 1))
    } else {
        syntax(j, Expected::Symbol(GT))
    }
}

/// Optional `< identifier (, identifier)* >`; absent, it consumes nothing.
pub open spec fn generic_args_rule(s: Seq<u8>, i: int) -> Result<(Seq<Seq<char>>, int), ParseError> {
    let j = skip_ws(s, i);
    if at(s, j, LT) {
        match identifier_rule(s, j + 1) {
            Ok((g, k)) => prefixed(seq![g], generic_rest_rule(s, k)),
            Err(e) => Err(e),
        }
    } else {
        Ok((seq![], i))
    }
}

/// `(wire | bus) identifier width? ;`
pub open spec fn wire_def_rule(s: Seq<u8>, i: int) -> Result<(StatementModel, int), ParseError> {
    let j = skip_ws(s, i);
    let w = word(s, j);
    if w == kw_wire() || w == kw_bus() {
        match identifier_rule(s, word_end(s, j)) {
            Ok((n, m)) => match bus_width_rule(s, m) {
                Ok((wd, p)) => match symbol_rule(s, p, SEMI) {
                    Ok((_, q)) => Ok(
                        (StatementModel::WireDef { is_bus: w == kw_bus(), name: n, width: wd }, q),
                    ),
                    Err(e) => Err(e),
                },
                Err(e) => Err(e),
            },
            Err(e) => Err(e),
        }
    } else {
        syntax(j, Expected::StatementKeyword)
    }
}

/// Statements up to and including the closing `}`.
pub open spec fn body_rule(s: Seq<u8>, i: int) -> Result<(Seq<StatementModel>, int), ParseError>
    decreases s.len() - i,
{
    let j = skip_ws(s, i);
    if at(s, j, RBRACE) {
        Ok((seq![], j + 1))
    } else {
        match wire_def_rule(s, j) {
            Ok((st, k)) => {
                proof {
                    lemma_skip_ws(s, i);
                    lemma_wire_def(s, j);
                }
                prefixed(seq![st], body_rule(s, k))
            },
            Err(e) => Err(e),
        }
    }
}

/// Port list, or none at all when no `(` follows.
pub open spec fn module_ports_rule(s: Seq<u8>, i: int) -> Result<(Seq<PortModel>, int), ParseError> {
    if at(s, skip_ws(s, i), LPAREN) {
        port_list_rule(s, i)
    } else {
        Ok((seq![], i))
    }
}

/// `module identifier generics? ports? { statement* }`
pub open spec fn module_rule(s: Seq<u8>, i: int) -> Result<(ModuleModel, int), ParseError> {
    let j = skip_ws(s, i);
    if word(s, j) == kw_module() {
        match identifier_rule(s, word_end(s, j)) {
            Ok((n, k)) => match generic_args_rule(s, k) {
                Ok((g, m)) => match module_ports_rule(s, m) {
                    Ok((ps, p)) => match symbol_rule(s, p, LBRACE) {
                        Ok((_, q)) => match body_rule(s, q) {
                            Ok((b, r)) => Ok(
                                (ModuleModel { name: n, generic_args: g, ports: ps, body: b }, r),
                            ),
                            Err(e) => Err(e),
                        },
                        Err(e) => Err(e),
                    },
                    Err(e) => Err(e),
                },
                Err(e) => Err(e),
            },
            Err(e) => Err(e),
        }
    } else {
        syntax(j, Expected::ModuleKeyword)
    }
}

/// Modules from `i` on. The list ends, with no error, at the end of the text
/// or where the next word is not `module`; the position given is where it
/// ended. Once `module` is read, a failure in that module is an error.
pub open spec fn modules_rule(s: Seq<u8>, i: int) -> Result<(Seq<ModuleModel>, int), ParseError>
    decreases s.len() - i,
{
    let j = skip_ws(s, i);
    if j < 0 || j >= s.len() || word(s, j) != kw_module() {
        Ok((seq![], j))
    } else {
        match module_rule(s, j) {
            Ok((m, k)) => {
                proof {
                    lemma_skip_ws(s, i);
                    lemma_module(s, j);
                }
                prefixed(seq![m], modules_rule(s, k))
            },
            Err(e) => Err(e),
        }
    }
}

/// The modules at the start of a source text, and where they end.
pub open spec fn dsl_rule(s: Seq<u8>) -> Result<(Seq<ModuleModel>, int), ParseError> {
    modules_rule(s, 0)
}

/// A whole source text: its modules, with nothing but whitespace after them;
/// other text after them is `Incomplete` where it starts.
pub open spec fn source_rule(s: Seq<u8>) -> Result<Seq<ModuleModel>, ParseError> {
    match dsl_rule(s) {
        Ok((ms, k)) => if skip_ws(s, k) < s.len() {
            Err(ParseError::Incomplete { offset: k as usize })
        } else {
            Ok(ms)
        },
        Err(e) => Err(e),
    }
}

/// Parsing depends on the text alone: equal texts give equal results, for a
/// whole source and for a single module.
pub proof fn lemma_parse_deterministic(a: Seq<u8>, b: Seq<u8>)
    requires
        a == b,
    ensures
        dsl_rule(a) == dsl_rule(b),
        module_rule(a, 0) == module_rule(b, 0),
{
}

pub proof fn lemma_prefixed_push<V>(acc: Seq<V>, v: V, r: Result<(Seq<V>, int), ParseError>)
    ensures
        prefixed(acc, prefixed(seq![v], r)) == prefixed(acc.push(v), r),
{
    if let Ok((vs, m)) = r {
        assert(acc + (seq![v] + vs) =~= acc.push(v) + vs);
    }
}

/// Where the module list stops lies within the text.
pub proof fn lemma_modules_end(s: Seq<u8>, i: int)
    requires
        0 <= i <= s.len(),
    ensures
        modules_rule(s, i) is Ok ==> i <= modules_rule(s, i)->Ok_0.1 <= s.len(),
    decreases s.len() - i,
{
    let j = skip_ws(s, i);
    lemma_skip_ws(s, i);
    if 0 <= j < s.len() && word(s, j) == kw_module() {
        lemma_module(s, j);
        if let Ok((_, k)) = module_rule(s, j) {
            lemma_modules_end(s, k);
        }
    }
}

pub proof fn lemma_skip_ws(s: Seq<u8>, i: int)
    ensures
        i <= skip_ws(s, i),
        0 <= i <= s.len() ==> skip_ws(s, i) <= s.len(),
        i < 0 ==> skip_ws(s, i) == i,
    decreases s.len() - i,
{
    if 0 <= i < s.len() && is_space(s[i]) {
        lemma_skip_ws(s, i + 1);
    }
}

pub proof fn lemma_ident_end(s: Seq<u8>, i: int)
    ensures
        i <= ident_end(s, i),
        0 <= i <= s.len() ==> ident_end(s, i) <= s.len(),
    decreases s.len() - i,
{
    if 0 <= i < s.len() && is_ident_char(s[i]) {
        lemma_ident_end(s, i + 1);
    }
}

pub proof fn lemma_digits_end(s: Seq<u8>, i: int)
    ensures
        i <= digits_end(s, i),
        0 <= i <= s.len() ==> digits_end(s, i) <= s.len(),
        digit_at(s, i) ==> i < digits_end(s, i),
    decreases s.len() - i,
{
    if digit_at(s, i) {
        lemma_digits_end(s, i + 1);
    }
}

/// A prefix of a run of digits is worth no more than the whole run.
pub proof fn lemma_digits_value_prefix(d: Seq<u8>, n: int)
    requires
        0 <= n <= d.len(),
    ensures
        digits_value(d.subrange(0, n)) <= digits_value(d),
    decreases d.len(),
{
    if n == d.len() {
        assert(d.subrange(0, n) =~= d);
    } else {
        lemma_digits_value_prefix(d.drop_last(), n);
        assert(d.drop_last().subrange(0, n) =~= d.subrange(0, n));
    }
}

pub proof fn lemma_word_end(s: Seq<u8>, j: int)
    ensures
        j <= word_end(s, j),
        0 <= j <= s.len() ==> word_end(s, j) <= s.len(),
        alpha_at(s, j) ==> j < word_end(s, j),
{
    lemma_ident_end(s, j + 1);
}

pub proof fn lemma_identifier(s: Seq<u8>, i: int)
    ensures
        advances(identifier_rule(s, i), i, s.len() as int),
{
    lemma_skip_ws(s, i);
    lemma_word_end(s, skip_ws(s, i));
}

pub proof fn lemma_symbol(s: Seq<u8>, i: int, c: u8)
    ensures
        advances(symbol_rule(s, i, c), i, s.len() as int),
{
    lemma_skip_ws(s, i);
}

pub proof fn lemma_expr(s: Seq<u8>, i: int)
    ensures
        advances(expr_rule(s, i), i, s.len() as int),
{
    lemma_skip_ws(s, i);
    lemma_word_end(s, skip_ws(s, i));
    lemma_digits_end(s, skip_ws(s, i));
}

pub proof fn lemma_bus_width(s: Seq<u8>, i: int)
    ensures
        0 <= i <= s.len() ==> stays(bus_width_rule(s, i), i, s.len() as int),
{
    let j = skip_ws(s, i);
    lemma_skip_ws(s, i);
    lemma_expr(s, j + 1);
    if let Ok((_, k)) = expr_rule(s, j + 1) {
        lemma_symbol(s, k, RBRACKET);
    }
}

pub proof fn lemma_port(s: Seq<u8>, i: int)
    ensures
        advances(port_rule(s, i), i, s.len() as int),
{
    let j = skip_ws(s, i);
    lemma_skip_ws(s, i);
    lemma_word_end(s, j);
    if let Ok((_, k)) = port_type_rule(s, i) {
        assert(word(s, j).len() > 0);
        lemma_identifier(s, k);
        if let Ok((_, m)) = identifier_rule(s, k) {
            lemma_bus_width(s, m);
        }
    }
}

pub proof fn lemma_wire_def(s: Seq<u8>, i: int)
    ensures
        advances(wire_def_rule(s, i), i, s.len() as int),
{
    let j = skip_ws(s, i);
    lemma_skip_ws(s, i);
    lemma_word_end(s, j);
    lemma_identifier(s, word_end(s, j));
    if let Ok((_, m)) = identifier_rule(s, word_end(s, j)) {
        lemma_bus_width(s, m);
        if let Ok((_, p)) = bus_width_rule(s, m) {
            lemma_symbol(s, p, SEMI);
        }
    }
}

pub proof fn lemma_port_rest(s: Seq<u8>, i: int)
    ensures
        advances(port_rest_rule(s, i), i, s.len() as int),
    decreases s.len() - i,
{
    let j = skip_ws(s, i);
    lemma_skip_ws(s, i);
    if at(s, j, COMMA) {
        lemma_port(s, j + 1);
        if let Ok((_, k)) = port_rule(s, j + 1) {
            lemma_port_rest(s, k);
        }
    }
}

pub proof fn lemma_generic_rest(s: Seq<u8>, i: int)
    ensures
        advances(generic_rest_rule(s, i), i, s.len() as int),
    decreases s.len() - i,
{
    let j = skip_ws(s, i);
    lemma_skip_ws(s, i);
    if at(s, j, COMMA) {
        lemma_identifier(s, j + 1);
        if let Ok((_, k)) = identifier_rule(s, j + 1) {
            lemma_generic_rest(s, k);
        }
    }
}

pub proof fn lemma_body(s: Seq<u8>, i: int)
    ensures
        advances(body_rule(s, i), i, s.len() as int),
    decreases s.len() - i,
{
    let j = skip_ws(s, i);
    lemma_skip_ws(s, i);
    if !at(s, j, RBRACE) {
        lemma_wire_def(s, j);
        if let Ok((_, k)) = wire_def_rule(s, j) {
            lemma_body(s, k);
        }
    }
}

pub proof fn lemma_module(s: Seq<u8>, i: int)
    ensures
        advances(module_rule(s, i), i, s.len() as int),
{
    let j = skip_ws(s, i);
    lemma_skip_ws(s, i);
    lemma_word_end(s, j);
    let w = word_end(s, j);
    lemma_identifier(s, w);
    if let Ok((_, k)) = identifier_rule(s, w) {
        let jg = skip_ws(s, k);
        lemma_skip_ws(s, k);
        lemma_identifier(s, jg + 1);
        if let Ok((_, k2)) = identifier_rule(s, jg + 1) {
            lemma_generic_rest(s, k2);
        }
        if let Ok((_, m)) = generic_args_rule(s, k) {
            let jp = skip_ws(s, m);
            lemma_skip_ws(s, m);
            lemma_symbol(s, m, LPAREN);
            if let Ok((_, a)) = symbol_rule(s, m, LPAREN) {
                lemma_skip_ws(s, a);
                lemma_port(s, a);
                if let Ok((_, b)) = port_rule(s, a) {
                    lemma_port_rest(s, b);
                }
            }
            if let Ok((_, p)) = module_ports_rule(s, m) {
                lemma_symbol(s, p, LBRACE);
                if let Ok((_, q)) = symbol_rule(s, p, LBRACE) {
                    lemma_body(s, q);
                }
            }
        }
    }
}

} // verus!
