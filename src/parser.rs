//! Recursive-descent parser over the bytes of a source text. Each function
//! returns exactly what the matching rule of `grammar` gives.
use vstd::prelude::*;
use vstd::string::StringSliceAdditionalSpecFns;
use crate::ast::{
    body_model, modules_model, ModuleModel, PortModel, names_model, ports_model, width_model, Ast, Expr, ModuleDef, Port,
    PortType, Statement,
};
use crate::grammar::{
    at, bus_width_rule, chars_of, digit_at, digits_end, digits_value, dsl_rule, expr_rule, generic_args_rule, generic_rest_rule, ident_end, identifier_rule,
    is_alpha, is_digit, is_space, kw_bus, kw_in, kw_inout, kw_module, kw_out, kw_wire,
    lemma_digits_end, lemma_identifier, lemma_port, lemma_wire_def, lemma_prefixed_push, lemma_digits_value_prefix, lemma_module, module_ports_rule, module_rule, modules_rule,
    number_rule, port_list_rule, port_rest_rule, port_rule, port_type_rule, prefixed, skip_ws,
    symbol_rule, wire_def_rule, body_rule, word, word_end, Expected, ParseError, COMMA, CR,
    DIGIT_0, DIGIT_9, GT, LBRACE, LBRACKET, LF, LOWER_A, LOWER_Z, LPAREN, LT, RBRACE, RBRACKET,
    RPAREN, SEMI, SPACE, TAB, UNDERSCORE, UPPER_A, UPPER_Z,
};

verus! {

/// Relies on String::push: the character is appended at the end.
#[verifier::external_body]
pub(crate) fn push_char(s: &mut String, c: char)
    ensures
        final(s)@ == old(s)@.push(c),
{
    s.push(c);
}

/// The executable result `r` is the rule result `m`, with `f` giving the value's model.
pub open spec fn same_result<T, V>(
    r: Result<(T, usize), ParseError>,
    m: Result<(V, int), ParseError>,
    f: spec_fn(T) -> V,
) -> bool {
    match r {
        Ok((x, k)) => m == Ok::<(V, int), ParseError>((f(x), k as int)),
        Err(e) => m == Err::<(V, int), ParseError>(e),
    }
}

fn is_space_byte(b: u8) -> (r: bool)
    ensures
        r == is_space(b),
{
    b == SPACE || b == TAB || b == LF || b == CR
}

fn is_alpha_byte(b: u8) -> (r: bool)
    ensures
        r == is_alpha(b),
{
    (LOWER_A <= b && b <= LOWER_Z) || (UPPER_A <= b && b <= UPPER_Z)
}

fn is_digit_byte(b: u8) -> (r: bool)
    ensures
        r == is_digit(b),
{
    DIGIT_0 <= b && b <= DIGIT_9
}

/// Byte `c` stands at position `j`.
fn byte_at(s: &[u8], j: usize, c: u8) -> (r: bool)
    ensures
        r == at(s@, j as int, c),
        r ==> j < s@.len() && j < usize::MAX,
{
    j < s.len() && s[j] == c
}

/// Skips whitespace from `i`.
pub(crate) fn sp(s: &[u8], i: usize) -> (j: usize)
    requires
        i <= s@.len(),
    ensures
        j as int == skip_ws(s@, i as int),
        i <= j <= s@.len(),
{
    let mut j = i;
    while j < s.len() && is_space_byte(s[j])
        invariant
            i <= j <= s@.len(),
            skip_ws(s@, j as int) == skip_ws(s@, i as int),
        decreases s@.len() - j,
    {
        j = j + 1;
    }
    j
}

/// End of the run of identifier characters from `i`.
fn scan_ident(s: &[u8], i: usize) -> (k: usize)
    requires
        i <= s@.len(),
    ensures
        k as int == ident_end(s@, i as int),
        i <= k <= s@.len(),
{
    let mut k = i;
    while k < s.len() && (is_alpha_byte(s[k]) || is_digit_byte(s[k]) || s[k] == UNDERSCORE)
        invariant
            i <= k <= s@.len(),
            ident_end(s@, k as int) == ident_end(s@, i as int),
        decreases s@.len() - k,
    {
        k = k + 1;
    }
    k
}

/// End of the word at `j`.
fn scan_word(s: &[u8], j: usize) -> (k: usize)
    requires
        j <= s@.len(),
    ensures
        k as int == word_end(s@, j as int),
        j <= k <= s@.len(),
{
    if j < s.len() && is_alpha_byte(s[j]) {
        scan_ident(s, j + 1)
    } else {
        j
    }
}

/// Whether the bytes from `j` to `k` spell `w`.
fn spells(s: &[u8], j: usize, k: usize, w: &Vec<u8>) -> (r: bool)
    requires
        j <= k <= s@.len(),
    ensures
        r == (s@.subrange(j as int, k as int) == w@),
{
    if k - j != w.len() {
        return false;
    }
    let mut t: usize = 0;
    while t < w.len()
        invariant
            j <= k <= s@.len(),
            k - j == w@.len(),
            t <= w@.len(),
            forall|u: int| 0 <= u < t ==> s@[j + u] == w@[u],
        decreases w@.len() - t,
    {
        if s[j + t] != w[t] {
            assert(s@.subrange(j as int, k as int)[t as int] != w@[t as int]);
            return false;
        }
        t = t + 1;
    }
    assert(s@.subrange(j as int, k as int) =~= w@);
    true
}

/// The text between `j` and `k` as a `String`.
fn text_of(s: &[u8], j: usize, k: usize) -> (r: String)
    requires
        j <= k <= s@.len(),
    ensures
        r@ == chars_of(s@.subrange(j as int, k as int)),
{
    let mut r = String::new();
    let mut t = j;
    while t < k
        invariant
            j <= t <= k <= s@.len(),
            r@ == chars_of(s@.subrange(j as int, t as int)),
        decreases k - t,
    {
        push_char(&mut r, s[t] as char);
        t = t + 1;
        assert(chars_of(s@.subrange(j as int, t as int)) =~= r@);
    }
    r
}

/// Identifier after optional whitespace.
fn identifier(s: &[u8], i: usize) -> (r: Result<(String, usize), ParseError>)
    requires
        i <= s@.len(),
    ensures
        same_result(r, identifier_rule(s@, i as int), |x: String| x@),
        r is Ok ==> r->Ok_0.1 <= s@.len(),
{
    let j = sp(s, i);
    if j < s.len() && is_alpha_byte(s[j]) {
        let k = scan_word(s, j);
        Ok((text_of(s, j, k), k))
    } else {
        Err(ParseError::Syntax { offset: j, expected: Expected::Identifier })
    }
}

/// An unsigned 32-bit decimal literal after optional whitespace.
fn number(s: &[u8], i: usize) -> (r: Result<(u32, usize), ParseError>)
    requires
        i <= s@.len(),
    ensures
        same_result(r, number_rule(s@, i as int), |v: u32| v),
        r is Ok ==> r->Ok_0.1 <= s@.len(),
{
    let j = sp(s, i);
    if !(j < s.len() && is_digit_byte(s[j])) {
        return Err(ParseError::Syntax { offset: j, expected: Expected::Digit });
    }
    let ghost e = digits_end(s@, j as int);
    let mut v: u64 = 0;
    let mut t = j;
    while t < s.len() && is_digit_byte(s[t])
        invariant
            j <= t <= s@.len(),
            digits_end(s@, t as int) == e,
            e == digits_end(s@, j as int),
            j as int == skip_ws(s@, i as int),
            digit_at(s@, j as int),
            v == digits_value(s@.subrange(j as int, t as int)),
            v <= u32::MAX,
        decreases s@.len() - t,
    {
        proof {
            lemma_digits_end(s@, t as int);
            assert(s@.subrange(j as int, t + 1).drop_last() =~= s@.subrange(j as int, t as int));
        }
        let w = v * 10 + (s[t] - DIGIT_0) as u64;
        if w > u32::MAX as u64 {
            proof {
                lemma_digits_end(s@, j as int);
                assert(digits_value(s@.subrange(j as int, t + 1)) == w);
                lemma_digits_value_prefix(s@.subrange(j as int, e), t + 1 - j);
                assert(s@.subrange(j as int, e).subrange(0, t + 1 - j) =~= s@.subrange(
                    j as int,
                    t + 1,
                ));
            }
            return Err(ParseError::Syntax { offset: j, expected: Expected::NumberInRange });
        }
        v = w;
        t = t + 1;
    }
    assert(digits_end(s@, t as int) == t as int);
    Ok((v as u32, t))
}

/// A numeric literal or an identifier, after optional whitespace.
fn parse_expr(s: &[u8], i: usize) -> (r: Result<(Expr, usize), ParseError>)
    requires
        i <= s@.len(),
    ensures
        same_result(r, expr_rule(s@, i as int), |e: Expr| e.model()),
        r is Ok ==> r->Ok_0.1 <= s@.len(),
{
    let j = sp(s, i);
    if j < s.len() && is_digit_byte(s[j]) {
        match number(s, i) {
            Ok((v, k)) => Ok((Expr::Number(v), k)),
            Err(e) => Err(e),
        }
    } else if j < s.len() && is_alpha_byte(s[j]) {
        let k = scan_word(s, j);
        Ok((Expr::Identifier(text_of(s, j, k)), k))
    } else {
        Err(ParseError::Syntax { offset: j, expected: Expected::Expression })
    }
}

/// One byte `c` after optional whitespace; gives the position after it.
fn symbol(s: &[u8], i: usize, c: u8) -> (r: Result<usize, ParseError>)
    requires
        i <= s@.len(),
    ensures
        match r {
            Ok(k) => symbol_rule(s@, i as int, c) == Ok::<((), int), ParseError>(((), k as int)),
            Err(e) => symbol_rule(s@, i as int, c) == Err::<((), int), ParseError>(e),
        },
        r is Ok ==> r->Ok_0 <= s@.len(),
{
    let j = sp(s, i);
    if byte_at(s, j, c) {
        Ok(j + 1)
    } else {
        Err(ParseError::Syntax { offset: j, expected: Expected::Symbol(c) })
    }
}

/// Optional `[ expr ]`.
fn parse_bus_width(s: &[u8], i: usize) -> (r: Result<(Option<Expr>, usize), ParseError>)
    requires
        i <= s@.len(),
    ensures
        same_result(r, bus_width_rule(s@, i as int), |w: Option<Expr>| width_model(w)),
        r is Ok ==> r->Ok_0.1 <= s@.len(),
{
    let j = sp(s, i);
    if byte_at(s, j, LBRACKET) {
        match parse_expr(s, j + 1) {
            Ok((e, k)) => match symbol(s, k, RBRACKET) {
                Ok(m) => Ok((Some(e), m)),
                Err(er) => Err(er),
            },
            Err(er) => Err(er),
        }
    } else {
        Ok((None, i))
    }
}

/// `In`, `Out` or `InOut`, after optional whitespace.
fn parse_port_type(s: &[u8], i: usize) -> (r: Result<(PortType, usize), ParseError>)
    requires
        i <= s@.len(),
    ensures
        same_result(r, port_type_rule(s@, i as int), |d: PortType| d),
        r is Ok ==> r->Ok_0.1 <= s@.len(),
{
    let j = sp(s, i);
    let k = scan_word(s, j);
    let kin: Vec<u8> = vec![73, 110];
    let kout: Vec<u8> = vec![79, 117, 116];
    let kinout: Vec<u8> = vec![73, 110, 79, 117, 116];
    proof {
        assert(kin@ =~= kw_in());
        assert(kout@ =~= kw_out());
        assert(kinout@ =~= kw_inout());
    }
    if spells(s, j, k, &kin) {
        Ok((PortType::In, k))
    } else if spells(s, j, k, &kout) {
        Ok((PortType::Out, k))
    } else if spells(s, j, k, &kinout) {
        Ok((PortType::InOut, k))
    } else {
        Err(ParseError::Syntax { offset: j, expected: Expected::PortDirection })
    }
}

/// A port: direction, name, optional width.
fn parse_port(s: &[u8], i: usize) -> (r: Result<(Port, usize), ParseError>)
    requires
        i <= s@.len(),
    ensures
        same_result(r, port_rule(s@, i as int), |p: Port| p@),
        r is Ok ==> r->Ok_0.1 <= s@.len(),
{
    match parse_port_type(s, i) {
        Ok((port_type, k)) => match identifier(s, k) {
            Ok((name, m)) => match parse_bus_width(s, m) {
                Ok((width, p)) => Ok((Port { port_type, name, width }, p)),
                Err(e) => Err(e),
            },
            Err(e) => Err(e),
        },
        Err(e) => Err(e),
    }
}

/// Optional `< identifier (, identifier)* >`.
fn parse_generic_args(s: &[u8], i: usize) -> (r: Result<(Vec<String>, usize), ParseError>)
    requires
        i <= s@.len(),
    ensures
        same_result(r, generic_args_rule(s@, i as int), |v: Vec<String>| names_model(v@)),
        r is Ok ==> r->Ok_0.1 <= s@.len(),
{
    let j = sp(s, i);
    if !byte_at(s, j, LT) {
        let none: Vec<String> = Vec::new();
        assert(names_model(none@) =~= seq![]);
        return Ok((none, i));
    }
    let (g, k) = match identifier(s, j + 1) {
        Ok(x) => x,
        Err(e) => return Err(e),
    };
    let mut names: Vec<String> = Vec::new();
    names.push(g);
    assert(names_model(names@) =~= seq![g@]);
    let mut pos = k;
    loop
        invariant
            pos <= s@.len(),
            generic_args_rule(s@, i as int) == prefixed(
                names_model(names@),
                generic_rest_rule(s@, pos as int),
            ),
        decreases s@.len() - pos,
    {
        let j = sp(s, pos);
        if byte_at(s, j, COMMA) {
            match identifier(s, j + 1) {
                Ok((g, k)) => {
                    let ghost before = names@;
                    proof {
                        lemma_identifier(s@, j + 1);
                        lemma_prefixed_push(names_model(before), g@, generic_rest_rule(s@, k as int));
                    }
                    names.push(g);
                    assert(names_model(names@) =~= names_model(before).push(g@));
                    pos = k;
                },
                Err(e) => return Err(e),
            }
        } else if byte_at(s, j, GT) {
            assert(names_model(names@) + seq![] =~= names_model(names@));
            return Ok((names, j + 1));
        } else {
            return Err(ParseError::Syntax { offset: j, expected: Expected::Symbol(GT) });
        }
    }
}

/// `( )` or `( port (, port)* )`.
fn parse_port_list(s: &[u8], i: usize) -> (r: Result<(Vec<Port>, usize), ParseError>)
    requires
        i <= s@.len(),
    ensures
        same_result(r, port_list_rule(s@, i as int), |v: Vec<Port>| ports_model(v@)),
        r is Ok ==> r->Ok_0.1 <= s@.len(),
{
    let j = match symbol(s, i, LPAREN) {
        Ok(j) => j,
        Err(e) => return Err(e),
    };
    let k = sp(s, j);
    if byte_at(s, k, RPAREN) {
        let none: Vec<Port> = Vec::new();
        assert(ports_model(none@) =~= seq![]);
        return Ok((none, k + 1));
    }
    let (p, m) = match parse_port(s, j) {
        Ok(x) => x,
        Err(e) => return Err(e),
    };
    let mut ports: Vec<Port> = Vec::new();
    ports.push(p);
    assert(ports_model(ports@) =~= seq![p@]);
    let mut pos = m;
    loop
        invariant
            pos <= s@.len(),
            port_list_rule(s@, i as int) == prefixed(
                ports_model(ports@),
                port_rest_rule(s@, pos as int),
            ),
        decreases s@.len() - pos,
    {
        let j = sp(s, pos);
        if byte_at(s, j, COMMA) {
            match parse_port(s, j + 1) {
                Ok((p, k)) => {
                    let ghost before = ports@;
                    proof {
                        lemma_port(s@, j + 1);
                        lemma_prefixed_push(ports_model(before), p@, port_rest_rule(s@, k as int));
                    }
                    ports.push(p);
                    assert(ports_model(ports@) =~= ports_model(before).push(p@));
                    pos = k;
                },
                Err(e) => return Err(e),
            }
        } else if byte_at(s, j, RPAREN) {
            assert(ports_model(ports@) + seq![] =~= ports_model(ports@));
            return Ok((ports, j + 1));
        } else {
            return Err(ParseError::Syntax { offset: j, expected: Expected::Symbol(RPAREN) });
        }
    }
}

/// `wire name width? ;` or `bus name width? ;`.
fn parse_wire_def(s: &[u8], i: usize) -> (r: Result<(Statement, usize), ParseError>)
    requires
        i <= s@.len(),
    ensures
        same_result(r, wire_def_rule(s@, i as int), |st: Statement| st@),
        r is Ok ==> r->Ok_0.1 <= s@.len(),
{
    let j = sp(s, i);
    let k = scan_word(s, j);
    let kwire: Vec<u8> = vec![119, 105, 114, 101];
    let kbus: Vec<u8> = vec![98, 117, 115];
    proof {
        assert(kwire@ =~= kw_wire());
        assert(kbus@ =~= kw_bus());
    }
    let is_wire = spells(s, j, k, &kwire);
    let is_bus = spells(s, j, k, &kbus);
    if !is_wire && !is_bus {
        return Err(ParseError::Syntax { offset: j, expected: Expected::StatementKeyword });
    }
    match identifier(s, k) {
        Ok((name, m)) => match parse_bus_width(s, m) {
            Ok((width, p)) => match symbol(s, p, SEMI) {
                Ok(q) => Ok((Statement::WireDef { is_bus, name, width }, q)),
                Err(e) => Err(e),
            },
            Err(e) => Err(e),
        },
        Err(e) => Err(e),
    }
}

/// Statements up to and including the closing `}`.
fn parse_body(s: &[u8], i: usize) -> (r: Result<(Vec<Statement>, usize), ParseError>)
    requires
        i <= s@.len(),
    ensures
        same_result(r, body_rule(s@, i as int), |v: Vec<Statement>| body_model(v@)),
        r is Ok ==> r->Ok_0.1 <= s@.len(),
{
    let mut body: Vec<Statement> = Vec::new();
    assert(prefixed(body_model(body@), body_rule(s@, i as int)) == body_rule(s@, i as int)) by {
        assert(body_model(body@) =~= seq![]);
        if let Ok((v, m)) = body_rule(s@, i as int) {
            assert(seq![] + v =~= v);
        }
    }
    let mut pos = i;
    loop
        invariant
            pos <= s@.len(),
            body_rule(s@, i as int) == prefixed(body_model(body@), body_rule(s@, pos as int)),
        decreases s@.len() - pos,
    {
        let j = sp(s, pos);
        if byte_at(s, j, RBRACE) {
            assert(body_model(body@) + seq![] =~= body_model(body@));
            return Ok((body, j + 1));
        }
        match parse_wire_def(s, j) {
            Ok((st, k)) => {
                let ghost before = body@;
                proof {
                    lemma_wire_def(s@, j as int);
                    lemma_prefixed_push(body_model(before), st@, body_rule(s@, k as int));
                }
                body.push(st);
                assert(body_model(body@) =~= body_model(before).push(st@));
                pos = k;
            },
            Err(e) => return Err(e),
        }
    }
}

/// `module name generics? ports? { statement* }` from position `i`.
fn module_at(s: &[u8], i: usize) -> (r: Result<(ModuleDef, usize), ParseError>)
    requires
        i <= s@.len(),
    ensures
        same_result(r, module_rule(s@, i as int), |m: ModuleDef| m@),
        r is Ok ==> r->Ok_0.1 <= s@.len(),
{
    let j = sp(s, i);
    let k = scan_word(s, j);
    let kmodule: Vec<u8> = vec![109, 111, 100, 117, 108, 101];
    assert(kmodule@ =~= kw_module());
    if !spells(s, j, k, &kmodule) {
        return Err(ParseError::Syntax { offset: j, expected: Expected::ModuleKeyword });
    }
    let (name, m) = match identifier(s, k) {
        Ok(x) => x,
        Err(e) => return Err(e),
    };
    let (generic_args, n) = match parse_generic_args(s, m) {
        Ok(x) => x,
        Err(e) => return Err(e),
    };
    let (ports, p) = if byte_at(s, sp(s, n), LPAREN) {
        match parse_port_list(s, n) {
            Ok(x) => x,
            Err(e) => return Err(e),
        }
    } else {
        let none: Vec<Port> = Vec::new();
        assert(ports_model(none@) =~= seq![]);
        (none, n)
    };
    assert(module_ports_rule(s@, n as int) == Ok::<(Seq<PortModel>, int), ParseError>(
        (ports_model(ports@), p as int),
    ));
    let q = match symbol(s, p, LBRACE) {
        Ok(q) => q,
        Err(e) => return Err(e),
    };
    let (body, t) = match parse_body(s, q) {
        Ok(x) => x,
        Err(e) => return Err(e),
    };
    Ok((ModuleDef { name, generic_args, ports, body }, t))
}

/// Parses one module definition at the start of `input`, and gives it with
/// the byte offset where the unconsumed rest of `input` begins.
pub fn parse_module_def(input: &str) -> (r: Result<(usize, ModuleDef), ParseError>)
    ensures
        match r {
            Ok((k, m)) => module_rule(input.spec_bytes(), 0) == Ok::<(ModuleModel, int), ParseError>(
                (m@, k as int),
            ),
            Err(e) => module_rule(input.spec_bytes(), 0) == Err::<(ModuleModel, int), ParseError>(e),
        },
{
    let s = input.as_bytes();
    match module_at(s, 0) {
        Ok((m, k)) => Ok((k, m)),
        Err(e) => Err(e),
    }
}

/// Parses the module definitions at the start of `input`. Parsing stops
/// without error at the end of the text or where the next word is not
/// `module`; the byte offset where it stopped comes with the modules.
pub fn parse_dsl(input: &str) -> (r: Result<(usize, Ast), ParseError>)
    ensures
        match r {
            Ok((k, a)) => dsl_rule(input.spec_bytes()) == Ok::<(Seq<ModuleModel>, int), ParseError>(
                (a@, k as int),
            ),
            Err(e) => dsl_rule(input.spec_bytes()) == Err::<(Seq<ModuleModel>, int), ParseError>(e),
        },
{
    let s = input.as_bytes();
    let mut modules: Vec<ModuleDef> = Vec::new();
    assert(prefixed(modules_model(modules@), modules_rule(s@, 0)) == modules_rule(s@, 0)) by {
        assert(modules_model(modules@) =~= seq![]);
        if let Ok((v, k)) = modules_rule(s@, 0) {
            assert(seq![] + v =~= v);
        }
    }
    let mut pos: usize = 0;
    let kmodule: Vec<u8> = vec![109, 111, 100, 117, 108, 101];
    assert(kmodule@ =~= kw_module());
    loop
        invariant
            pos <= s@.len(),
            s@ == input.spec_bytes(),
            kmodule@ == kw_module(),
            modules_rule(s@, 0) == prefixed(modules_model(modules@), modules_rule(s@, pos as int)),
        decreases s@.len() - pos,
    {
        let j = sp(s, pos);
        if j >= s.len() || !spells(s, j, scan_word(s, j), &kmodule) {
            assert(modules_model(modules@) + seq![] =~= modules_model(modules@));
            return Ok((j, Ast { modules }));
        }
        match module_at(s, j) {
            Ok((m, k)) => {
                let ghost before = modules@;
                proof {
                    lemma_module(s@, j as int);
                    lemma_prefixed_push(modules_model(before), m@, modules_rule(s@, k as int));
                }
                modules.push(m);
                assert(modules_model(modules@) =~= modules_model(before).push(m@));
                pos = k;
            },
            Err(e) => return Err(e),
        }
    }
}

} // verus!
