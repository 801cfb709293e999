//! Reading back what the printer writes: a parsed module, written as text
//! and parsed again, is the same module.
use vstd::prelude::*;
use vstd::utf8::encode_utf8;
use crate::ast::{ExprModel, ModuleModel, PortModel, StatementModel};
use crate::decimal;
use crate::printer::{
    ast_text, body_text, direction_text, expr_text, generics_text, module_text, names_joined, port_text,
    ports_joined, statement_text, width_text,
};
use crate::grammar::{
    alpha_at, at, body_rule, bus_width_rule, chars_of, digit_at, digits_end, digits_value,
    direction_of, dsl_rule, expr_rule, generic_args_rule, generic_rest_rule, ident_end,
    identifier_rule, is_alpha, is_digit, is_ident_char, is_space, kw_bus, kw_in, kw_inout,
    kw_module, kw_out, kw_wire, lemma_ident_end, lemma_identifier, lemma_port, lemma_skip_ws,
    lemma_wire_def, module_ports_rule, module_rule, modules_rule, number_rule, port_rest_rule,
    port_rule, port_type_rule, prefixed, source_rule, skip_ws, symbol_rule, wire_def_rule, word, word_end,
    COMMA, LBRACE, LPAREN, ParseError, RBRACE, RPAREN, SEMI, SPACE,
};

verus! {

/// The bytes of an ASCII text.
pub open spec fn ascii(t: Seq<char>) -> Seq<u8> {
    t.map_values(|c: char| c as u8)
}

/// `x` stands in `s` from position `i`.
pub open spec fn occurs(s: Seq<u8>, i: int, x: Seq<u8>) -> bool {
    0 <= i && i + x.len() <= s.len() && forall|k: int| 0 <= k < x.len() ==> s[i + k] == x[k]
}

/// No identifier character stands at `j`.
pub open spec fn stops(s: Seq<u8>, j: int) -> bool {
    j >= s.len() || !is_ident_char(s[j])
}

pub open spec fn is_ascii_char(c: char) -> bool {
    (c as u32) < 128
}

/// A name the grammar reads as one identifier.
pub open spec fn is_name(n: Seq<char>) -> bool {
    n.len() > 0 && is_alpha(n[0] as u8) && forall|k: int|
        0 <= k < n.len() ==> is_ascii_char(#[trigger] n[k]) && is_ident_char(n[k] as u8)
}

pub proof fn lemma_ascii_concat(a: Seq<char>, b: Seq<char>)
    ensures
        ascii(a + b) == ascii(a) + ascii(b),
{
    assert(ascii(a + b) =~= ascii(a) + ascii(b));
}

pub proof fn lemma_occurs_split(s: Seq<u8>, i: int, a: Seq<u8>, b: Seq<u8>)
    requires
        occurs(s, i, a + b),
    ensures
        occurs(s, i, a),
        occurs(s, i + a.len(), b),
{
    assert forall|k: int| 0 <= k < a.len() implies s[i + k] == a[k] by {
        assert((a + b)[k] == a[k]);
    }
    assert forall|k: int| 0 <= k < b.len() implies s[i + a.len() + k] == b[k] by {
        assert((a + b)[a.len() + k] == b[k]);
    }
}

proof fn lemma_ident_run(s: Seq<u8>, k: int, e: int)
    requires
        0 <= k <= e <= s.len(),
        forall|t: int| k <= t < e ==> is_ident_char(s[t]),
        stops(s, e),
    ensures
        ident_end(s, k) == e,
    decreases e - k,
{
    if k < e {
        lemma_ident_run(s, k + 1, e);
    }
}

proof fn lemma_ascii_cast(c: char)
    requires
        is_ascii_char(c),
    ensures
        (c as u8) as char == c,
        (c as u8) as u32 == c as u32,
{
    assert((c as u32) as u8 == c as u8);
    assert(((c as u32) as u8) as u32 == c as u32);
    vstd::utf8::char_u32_cast(c, c as u32);
}

proof fn lemma_ascii_name(n: Seq<char>)
    requires
        forall|k: int| 0 <= k < n.len() ==> is_ascii_char(#[trigger] n[k]),
    ensures
        crate::grammar::chars_of(ascii(n)) == n,
{
    assert forall|k: int| 0 <= k < n.len() implies (#[trigger] n[k] as u8) as char == n[k] by {
        lemma_ascii_cast(n[k]);
    }
    assert(crate::grammar::chars_of(ascii(n)) =~= n);
}

/// A name written at `i` is read back whole.
pub proof fn lemma_read_name(s: Seq<u8>, i: int, n: Seq<char>)
    requires
        is_name(n),
        occurs(s, i, ascii(n)),
        stops(s, i + n.len()),
    ensures
        skip_ws(s, i) == i,
        alpha_at(s, i),
        word_end(s, i) == i + n.len(),
        word(s, i) == ascii(n),
        identifier_rule(s, i) == Ok::<(Seq<char>, int), crate::grammar::ParseError>((n, i + n.len())),
        crate::grammar::chars_of(word(s, i)) == n,
{
    assert(s[i + 0] == ascii(n)[0]);
    assert forall|t: int| i + 1 <= t < i + n.len() implies is_ident_char(s[t]) by {
        assert(s[i + (t - i)] == ascii(n)[t - i]);
    }
    lemma_ident_run(s, i + 1, i + n.len());
    assert(word(s, i) =~= ascii(n));
    lemma_ascii_name(n);
}

proof fn lemma_byte_char(x: u8)
    requires
        x < 128,
    ensures
        (x as char) as u8 == x,
        is_ascii_char(x as char),
{
    assert((x as char) as u32 == x as u32);
    assert(((x as char) as u32) as u8 == (x as char) as u8);
}

pub proof fn lemma_decimal(n: nat)
    ensures
        decimal(n).len() > 0,
        forall|k: int| 0 <= k < decimal(n).len() ==> is_ascii_char(#[trigger] decimal(n)[k])
            && is_digit(decimal(n)[k] as u8),
        digits_value(ascii(decimal(n))) == n,
    decreases n,
{
    if n >= 10 {
        lemma_decimal(n / 10);
        let d = decimal(n / 10);
        let x = ((n % 10 + 48) as u8);
        lemma_byte_char(x);
        assert(ascii(decimal(n)).drop_last() =~= ascii(d));
        assert(ascii(decimal(n)).last() == x);
        assert(decimal(n).last() == x as char);
        assert forall|k: int| 0 <= k < decimal(n).len() implies is_ascii_char(
            #[trigger] decimal(n)[k],
        ) && is_digit(decimal(n)[k] as u8) by {
            if k < d.len() {
                assert(decimal(n)[k] == d[k]);
            }
        }
        assert((n / 10) * 10 + n % 10 == n);
        assert(x as int == n % 10 + 48);
        assert(digits_value(ascii(decimal(n))) == digits_value(ascii(d)) * 10 + (x - 48) as nat);
    } else {
        let x = ((n + 48) as u8);
        lemma_byte_char(x);
        assert(ascii(decimal(n)).drop_last() =~= seq![]);
        assert(ascii(decimal(n)).last() == x);
        assert(x as int == n + 48);
        assert(digits_value(ascii(decimal(n))) == digits_value(seq![]) * 10 + (x - 48) as nat);
    }
}

proof fn lemma_digit_run(s: Seq<u8>, k: int, e: int)
    requires
        0 <= k <= e <= s.len(),
        forall|t: int| k <= t < e ==> is_digit(s[t]),
        stops(s, e),
    ensures
        digits_end(s, k) == e,
    decreases e - k,
{
    if k < e {
        lemma_digit_run(s, k + 1, e);
    }
}

/// A number written in decimal at `i` is read back.
pub proof fn lemma_read_number(s: Seq<u8>, i: int, n: u32)
    requires
        occurs(s, i, ascii(decimal(n as nat))),
        stops(s, i + decimal(n as nat).len()),
    ensures
        skip_ws(s, i) == i,
        digit_at(s, i),
        number_rule(s, i) == Ok::<(u32, int), crate::grammar::ParseError>(
            (n, i + decimal(n as nat).len()),
        ),
{
    let d = decimal(n as nat);
    lemma_decimal(n as nat);
    assert(s[i + 0] == ascii(d)[0]);
    assert forall|t: int| i <= t < i + d.len() implies is_digit(s[t]) by {
        assert(s[i + (t - i)] == ascii(d)[t - i]);
    }
    lemma_digit_run(s, i, i + d.len());
    assert(s.subrange(i, i + d.len()) =~= ascii(d));
}


pub open spec fn valid_expr(e: ExprModel) -> bool {
    match e {
        ExprModel::Number(_) => true,
        ExprModel::Identifier(x) => is_name(x),
        ExprModel::BinaryOp { .. } => false,
    }
}

pub open spec fn valid_width(w: Option<ExprModel>) -> bool {
    match w {
        Some(e) => valid_expr(e),
        None => true,
    }
}

pub open spec fn valid_port(p: PortModel) -> bool {
    is_name(p.name) && valid_width(p.width)
}

/// A byte that may follow a port or a declaration.
pub open spec fn is_closer(b: u8) -> bool {
    b == COMMA || b == RPAREN || b == SEMI
}

pub proof fn lemma_occurs_cat(s: Seq<u8>, i: int, a: Seq<char>, b: Seq<char>)
    requires
        occurs(s, i, ascii(a + b)),
    ensures
        occurs(s, i, ascii(a)),
        occurs(s, i + a.len(), ascii(b)),
{
    lemma_ascii_concat(a, b);
    lemma_occurs_split(s, i, ascii(a), ascii(b));
}

/// One space at `k`, then something that is not whitespace.
pub proof fn lemma_one_space(s: Seq<u8>, k: int)
    requires
        0 <= k,
        k + 1 < s.len(),
        s[k] == SPACE,
        !is_space(s[k + 1]),
    ensures
        skip_ws(s, k) == k + 1,
{
    assert(skip_ws(s, k + 1) == k + 1);
}

pub proof fn lemma_read_expr(s: Seq<u8>, i: int, e: ExprModel)
    requires
        valid_expr(e),
        occurs(s, i, ascii(expr_text(e))),
        stops(s, i + expr_text(e).len()),
    ensures
        expr_rule(s, i) == Ok::<(ExprModel, int), ParseError>((e, i + expr_text(e).len())),
{
    match e {
        ExprModel::Number(n) => {
            lemma_read_number(s, i, n);
        },
        ExprModel::Identifier(x) => {
            lemma_read_name(s, i, x);
        },
        ExprModel::BinaryOp { .. } => {},
    }
}

pub proof fn lemma_read_width(s: Seq<u8>, i: int, w: Option<ExprModel>)
    requires
        valid_width(w),
        occurs(s, i, ascii(width_text(w))),
        i + width_text(w).len() < s.len(),
        is_closer(s[i + width_text(w).len()]),
    ensures
        bus_width_rule(s, i) == Ok::<(Option<ExprModel>, int), ParseError>(
            (w, i + width_text(w).len()),
        ),
{
    reveal_strlit("[");
    reveal_strlit("]");
    match w {
        Some(e) => {
            let x = expr_text(e);
            lemma_occurs_cat(s, i, "["@ + x, "]"@);
            lemma_occurs_cat(s, i, "["@, x);
            assert(s[i + 0] == ascii("["@)[0]);
            assert(s[i + 1 + x.len() + 0] == ascii("]"@)[0]);
            lemma_read_expr(s, i + 1, e);
        },
        None => {},
    }
}

proof fn lemma_direction(d: crate::ast::PortType)
    ensures
        is_name(direction_text(d)),
        direction_of(ascii(direction_text(d))) == Some(d),
{
    reveal_strlit("In");
    reveal_strlit("Out");
    reveal_strlit("InOut");
    assert(ascii("In"@) =~= kw_in());
    assert(ascii("Out"@) =~= kw_out());
    assert(ascii("InOut"@) =~= kw_inout());
}

pub proof fn lemma_read_port(s: Seq<u8>, i: int, p: PortModel)
    requires
        valid_port(p),
        occurs(s, i, ascii(port_text(p))),
        i + port_text(p).len() < s.len(),
        is_closer(s[i + port_text(p).len()]),
    ensures
        port_rule(s, i) == Ok::<(PortModel, int), ParseError>((p, i + port_text(p).len())),
{
    reveal_strlit(" ");
    let d = direction_text(p.port_type);
    let w = width_text(p.width);
    lemma_occurs_cat(s, i, d + " "@ + p.name, w);
    lemma_occurs_cat(s, i, d + " "@, p.name);
    lemma_occurs_cat(s, i, d, " "@);
    lemma_direction(p.port_type);
    let k = i + d.len();
    assert(s[k + 0] == ascii(" "@)[0]);
    assert(s[k + 1 + 0] == ascii(p.name)[0]);
    lemma_read_name(s, i, d);
    let m = k + 1 + p.name.len();
    if w.len() > 0 {
        reveal_strlit("[");
        lemma_occurs_cat(s, m, "["@ + expr_text(p.width->Some_0), "]"@);
        lemma_occurs_cat(s, m, "["@, expr_text(p.width->Some_0));
        assert(s[m + 0] == ascii("["@)[0]);
    }
    lemma_read_name(s, k + 1, p.name);
    lemma_one_space(s, k);
    lemma_read_width(s, m, p.width);
}


/// Each text preceded by `, `.
pub open spec fn sep_names(ns: Seq<Seq<char>>) -> Seq<char>
    decreases ns.len(),
{
    if ns.len() == 0 {
        seq![]
    } else {
        ", "@ + ns[0] + sep_names(ns.drop_first())
    }
}

proof fn lemma_sep_push(xs: Seq<Seq<char>>, x: Seq<char>)
    ensures
        sep_names(xs.push(x)) == sep_names(xs) + ", "@ + x,
    decreases xs.len(),
{
    if xs.len() == 0 {
        assert(xs.push(x).drop_first() =~= seq![]);
        assert(xs.push(x)[0] == x);
        assert(sep_names(xs.push(x).drop_first()) == Seq::<char>::empty());
        assert(sep_names(xs) == Seq::<char>::empty());
        assert(sep_names(xs.push(x)) =~= sep_names(xs) + ", "@ + x);
    } else {
        assert(xs.push(x).drop_first() =~= xs.drop_first().push(x));
        lemma_sep_push(xs.drop_first(), x);
        assert(sep_names(xs.push(x)) =~= sep_names(xs) + ", "@ + x);
    }
}

proof fn lemma_names_joined(ns: Seq<Seq<char>>)
    requires
        ns.len() > 0,
    ensures
        names_joined(ns) == ns[0] + sep_names(ns.drop_first()),
    decreases ns.len(),
{
    if ns.len() == 1 {
        assert(ns.drop_first() =~= seq![]);
        assert(names_joined(ns) =~= ns[0] + sep_names(ns.drop_first()));
    } else {
        lemma_names_joined(ns.drop_last());
        lemma_sep_push(ns.drop_last().drop_first(), ns.last());
        assert(ns.drop_last().drop_first().push(ns.last()) =~= ns.drop_first());
        assert(names_joined(ns) =~= ns[0] + sep_names(ns.drop_first()));
    }
}

pub open spec fn rendered(ps: Seq<PortModel>) -> Seq<Seq<char>> {
    ps.map_values(|p: PortModel| port_text(p))
}

proof fn lemma_ports_joined(ps: Seq<PortModel>)
    ensures
        ports_joined(ps) == names_joined(rendered(ps)),
    decreases ps.len(),
{
    if ps.len() > 1 {
        lemma_ports_joined(ps.drop_last());
        assert(rendered(ps).drop_last() =~= rendered(ps.drop_last()));
    }
}

/// `, name` for each name, then `>`, read from `k`.
proof fn lemma_read_generic_rest(s: Seq<u8>, k: int, ns: Seq<Seq<char>>)
    requires
        forall|t: int| 0 <= t < ns.len() ==> is_name(#[trigger] ns[t]),
        occurs(s, k, ascii(sep_names(ns) + ">"@)),
    ensures
        generic_rest_rule(s, k) == Ok::<(Seq<Seq<char>>, int), ParseError>(
            (ns, k + sep_names(ns).len() + 1),
        ),
    decreases ns.len(),
{
    reveal_strlit(">");
    reveal_strlit(", ");
    if ns.len() == 0 {
        assert(s[k + 0] == ascii(sep_names(ns) + ">"@)[0]);
        assert(skip_ws(s, k) == k);
        assert(ns =~= seq![]);
    } else {
        let n = ns[0];
        let r = ns.drop_first();
        assert(sep_names(ns) + ">"@ =~= ", "@ + n + (sep_names(r) + ">"@));
        lemma_occurs_cat(s, k, ", "@ + n, sep_names(r) + ">"@);
        lemma_occurs_cat(s, k, ", "@, n);
        assert(s[k + 0] == ascii(", "@)[0]);
        assert(s[k + 1] == ascii(", "@)[1]);
        assert(skip_ws(s, k) == k);
        let e = k + 2 + n.len();
        assert(s[e + 0] == ascii(sep_names(r) + ">"@)[0]);
        if r.len() > 0 {
            assert((sep_names(r) + ">"@)[0] == ',');
        }
        lemma_read_name(s, k + 2, n);
        lemma_one_space(s, k + 1);
        assert forall|t: int| 0 <= t < r.len() implies is_name(#[trigger] r[t]) by {
            assert(r[t] == ns[t + 1]);
        }
        lemma_read_generic_rest(s, e, r);
        assert(seq![n] + r =~= ns);
    }
}


pub proof fn lemma_occurs_join(s: Seq<u8>, i: int, a: Seq<char>, b: Seq<char>)
    requires
        occurs(s, i, ascii(a)),
        occurs(s, i + a.len(), ascii(b)),
    ensures
        occurs(s, i, ascii(a + b)),
{
    lemma_ascii_concat(a, b);
    assert forall|k: int| 0 <= k < a.len() + b.len() implies s[i + k] == ascii(a + b)[k] by {
        if k < a.len() {
            assert(ascii(a + b)[k] == ascii(a)[k]);
        } else {
            assert(ascii(a + b)[k] == ascii(b)[k - a.len()]);
            assert(s[i + a.len() + (k - a.len())] == ascii(b)[k - a.len()]);
        }
    }
}

proof fn lemma_read_generics(s: Seq<u8>, i: int, ns: Seq<Seq<char>>)
    requires
        forall|t: int| 0 <= t < ns.len() ==> is_name(#[trigger] ns[t]),
        occurs(s, i, ascii(generics_text(ns) + " ("@)),
    ensures
        generic_args_rule(s, i) == Ok::<(Seq<Seq<char>>, int), ParseError>(
            (ns, i + generics_text(ns).len()),
        ),
{
    reveal_strlit(" (");
    reveal_strlit("<");
    reveal_strlit(">");
    reveal_strlit(", ");
    if ns.len() == 0 {
        assert(generics_text(ns) + " ("@ =~= " ("@);
        assert(s[i + 0] == ascii(" ("@)[0]);
        assert(s[i + 1] == ascii(" ("@)[1]);
        lemma_one_space(s, i);
        assert(ns =~= seq![]);
    } else {
        let n = ns[0];
        let r = ns.drop_first();
        lemma_names_joined(ns);
        assert(generics_text(ns) + " ("@ =~= "<"@ + n + (sep_names(r) + ">"@ + " ("@));
        lemma_occurs_cat(s, i, "<"@ + n, sep_names(r) + ">"@ + " ("@);
        lemma_occurs_cat(s, i, "<"@, n);
        lemma_occurs_cat(s, i + 1 + n.len(), sep_names(r) + ">"@, " ("@);
        assert(s[i + 0] == ascii("<"@)[0]);
        let e = i + 1 + n.len();
        assert(s[e + 0] == ascii(sep_names(r) + ">"@)[0]);
        if r.len() > 0 {
            assert((sep_names(r) + ">"@)[0] == ',');
        }
        lemma_read_name(s, i + 1, n);
        assert forall|t: int| 0 <= t < r.len() implies is_name(#[trigger] r[t]) by {
            assert(r[t] == ns[t + 1]);
        }
        lemma_read_generic_rest(s, e, r);
        assert(seq![n] + r =~= ns);
    }
}

proof fn lemma_port_at(s: Seq<u8>, k: int, p: PortModel)
    requires
        valid_port(p),
        0 <= k,
        k + 1 < s.len(),
        s[k] == SPACE,
        occurs(s, k + 1, ascii(port_text(p))),
        k + 1 + port_text(p).len() < s.len(),
        is_closer(s[k + 1 + port_text(p).len()]),
    ensures
        port_rule(s, k) == Ok::<(PortModel, int), ParseError>((p, k + 1 + port_text(p).len())),
{
    lemma_read_port(s, k + 1, p);
    let d = direction_text(p.port_type);
    reveal_strlit(" ");
    lemma_occurs_cat(s, k + 1, d + " "@ + p.name, width_text(p.width));
    lemma_occurs_cat(s, k + 1, d + " "@, p.name);
    lemma_occurs_cat(s, k + 1, d, " "@);
    lemma_direction(p.port_type);
    assert(s[k + 1 + d.len() + 0] == ascii(" "@)[0]);
    lemma_read_name(s, k + 1, d);
    lemma_one_space(s, k);
    assert(port_type_rule(s, k) == port_type_rule(s, k + 1));
}

proof fn lemma_read_port_rest(s: Seq<u8>, k: int, ps: Seq<PortModel>)
    requires
        forall|t: int| 0 <= t < ps.len() ==> valid_port(#[trigger] ps[t]),
        occurs(s, k, ascii(sep_names(rendered(ps)) + ")"@)),
    ensures
        port_rest_rule(s, k) == Ok::<(Seq<PortModel>, int), ParseError>(
            (ps, k + sep_names(rendered(ps)).len() + 1),
        ),
    decreases ps.len(),
{
    reveal_strlit(")");
    reveal_strlit(", ");
    if ps.len() == 0 {
        assert(s[k + 0] == ascii(sep_names(rendered(ps)) + ")"@)[0]);
        assert(skip_ws(s, k) == k);
        assert(ps =~= seq![]);
    } else {
        let p = ps[0];
        let r = ps.drop_first();
        assert(rendered(ps).drop_first() =~= rendered(r));
        let x = port_text(p);
        assert(sep_names(rendered(ps)) + ")"@ =~= ", "@ + x + (sep_names(rendered(r)) + ")"@));
        lemma_occurs_cat(s, k, ", "@ + x, sep_names(rendered(r)) + ")"@);
        lemma_occurs_cat(s, k, ", "@, x);
        assert(s[k + 0] == ascii(", "@)[0]);
        assert(s[k + 1] == ascii(", "@)[1]);
        assert(skip_ws(s, k) == k);
        let e = k + 2 + x.len();
        assert(s[e + 0] == ascii(sep_names(rendered(r)) + ")"@)[0]);
        if r.len() > 0 {
            assert((sep_names(rendered(r)) + ")"@)[0] == ',');
        }
        lemma_port_at(s, k + 1, p);
        assert forall|t: int| 0 <= t < r.len() implies valid_port(#[trigger] r[t]) by {
            assert(r[t] == ps[t + 1]);
        }
        lemma_read_port_rest(s, e, r);
        assert(seq![p] + r =~= ps);
    }
}

proof fn lemma_read_ports(s: Seq<u8>, m: int, ps: Seq<PortModel>)
    requires
        forall|t: int| 0 <= t < ps.len() ==> valid_port(#[trigger] ps[t]),
        occurs(s, m, ascii(" ("@ + ports_joined(ps) + ") {"@)),
    ensures
        module_ports_rule(s, m) == Ok::<(Seq<PortModel>, int), ParseError>(
            (ps, m + 3 + ports_joined(ps).len()),
        ),
{
    reveal_strlit(" (");
    reveal_strlit(") {");
    reveal_strlit(")");
    reveal_strlit(", ");
    let j = ports_joined(ps);
    lemma_occurs_cat(s, m, " ("@ + j, ") {"@);
    lemma_occurs_cat(s, m, " ("@, j);
    assert(s[m + 0] == ascii(" ("@)[0]);
    assert(s[m + 1] == ascii(" ("@)[1]);
    lemma_one_space(s, m);
    assert(symbol_rule(s, m, LPAREN) == Ok::<((), int), ParseError>(((), m + 2)));
    let q = m + 2 + j.len();
    assert(s[q + 0] == ascii(") {"@)[0]);
    lemma_ports_joined(ps);
    if ps.len() == 0 {
        assert(skip_ws(s, m + 2) == m + 2);
        assert(ps =~= seq![]);
    } else {
        let p = ps[0];
        let r = ps.drop_first();
        lemma_names_joined(rendered(ps));
        assert(rendered(ps).drop_first() =~= rendered(r));
        let x = port_text(p);
        lemma_occurs_cat(s, m + 2, x, sep_names(rendered(r)));
        lemma_occurs_join(s, m + 2 + x.len(), sep_names(rendered(r)), ")"@);
        let e = m + 2 + x.len();
        assert(s[e + 0] == ascii(sep_names(rendered(r)) + ")"@)[0]);
        if r.len() > 0 {
            assert((sep_names(rendered(r)) + ")"@)[0] == ',');
        }
        lemma_read_port(s, m + 2, p);
        assert(!at(s, m + 2, RPAREN));
        lemma_read_port_rest(s, e, r);
        assert(seq![p] + r =~= ps);
    }
}


pub open spec fn valid_statement(st: StatementModel) -> bool {
    match st {
        StatementModel::WireDef { is_bus, name, width } => is_name(name) && valid_width(width),
    }
}

/// A module that the grammar can express: names are identifiers and widths
/// are literals or identifiers.
pub open spec fn valid_module(m: ModuleModel) -> bool {
    &&& is_name(m.name)
    &&& forall|t: int| 0 <= t < m.generic_args.len() ==> is_name(#[trigger] m.generic_args[t])
    &&& forall|t: int| 0 <= t < m.ports.len() ==> valid_port(#[trigger] m.ports[t])
    &&& forall|t: int| 0 <= t < m.body.len() ==> valid_statement(#[trigger] m.body[t])
}

proof fn lemma_read_statement(s: Seq<u8>, i: int, st: StatementModel)
    requires
        valid_statement(st),
        occurs(s, i, ascii(statement_text(st))),
    ensures
        alpha_at(s, i),
        wire_def_rule(s, i) == Ok::<(StatementModel, int), ParseError>(
            (st, i + statement_text(st).len()),
        ),
{
    reveal_strlit("wire ");
    reveal_strlit("bus ");
    reveal_strlit("wire");
    reveal_strlit("bus");
    reveal_strlit(" ");
    reveal_strlit(";");
    let StatementModel::WireDef { is_bus, name, width } = st;
    let kw = if is_bus { "bus"@ } else { "wire"@ };
    assert((if is_bus { "bus "@ } else { "wire "@ }) =~= kw + " "@);
    let w = width_text(width);
    assert(statement_text(st) =~= kw + " "@ + name + w + ";"@);
    lemma_occurs_cat(s, i, kw + " "@ + name + w, ";"@);
    lemma_occurs_cat(s, i, kw + " "@ + name, w);
    lemma_occurs_cat(s, i, kw + " "@, name);
    lemma_occurs_cat(s, i, kw, " "@);
    assert(ascii("wire"@) =~= kw_wire());
    assert(ascii("bus"@) =~= kw_bus());
    assert(s[i + kw.len() + 0] == ascii(" "@)[0]);
    lemma_read_name(s, i, kw);
    let k = i + kw.len();
    assert(s[k + 1 + 0] == ascii(name)[0]);
    lemma_one_space(s, k);
    let m = k + 1 + name.len();
    let p = m + w.len();
    assert(s[p + 0] == ascii(";"@)[0]);
    if w.len() > 0 {
        reveal_strlit("[");
        lemma_occurs_cat(s, m, "["@ + expr_text(width->Some_0), "]"@);
        lemma_occurs_cat(s, m, "["@, expr_text(width->Some_0));
        assert(s[m + 0] == ascii("["@)[0]);
    }
    lemma_read_name(s, k + 1, name);
    lemma_read_width(s, m, width);
    assert(skip_ws(s, p) == p);
}

/// Each statement preceded by a space, built from the front.
pub open spec fn body_from_front(b: Seq<StatementModel>) -> Seq<char>
    decreases b.len(),
{
    if b.len() == 0 {
        seq![]
    } else {
        " "@ + statement_text(b[0]) + body_from_front(b.drop_first())
    }
}

proof fn lemma_body_push(b: Seq<StatementModel>, x: StatementModel)
    ensures
        body_from_front(b.push(x)) == body_from_front(b) + " "@ + statement_text(x),
    decreases b.len(),
{
    if b.len() == 0 {
        assert(b.push(x).drop_first() =~= seq![]);
        assert(b.push(x)[0] == x);
        assert(body_from_front(b.push(x).drop_first()) == Seq::<char>::empty());
        assert(body_from_front(b) == Seq::<char>::empty());
        assert(body_from_front(b.push(x)) =~= body_from_front(b) + " "@ + statement_text(x));
    } else {
        assert(b.push(x).drop_first() =~= b.drop_first().push(x));
        lemma_body_push(b.drop_first(), x);
        assert(body_from_front(b.push(x)) =~= body_from_front(b) + " "@ + statement_text(x));
    }
}

proof fn lemma_body_text(b: Seq<StatementModel>)
    ensures
        body_text(b) == body_from_front(b),
    decreases b.len(),
{
    if b.len() > 0 {
        lemma_body_text(b.drop_last());
        lemma_body_push(b.drop_last(), b.last());
        assert(b.drop_last().push(b.last()) =~= b);
    }
}

proof fn lemma_read_body(s: Seq<u8>, q: int, b: Seq<StatementModel>)
    requires
        forall|t: int| 0 <= t < b.len() ==> valid_statement(#[trigger] b[t]),
        occurs(s, q, ascii(body_from_front(b) + " }"@)),
    ensures
        body_rule(s, q) == Ok::<(Seq<StatementModel>, int), ParseError>(
            (b, q + body_from_front(b).len() + 2),
        ),
    decreases b.len(),
{
    reveal_strlit(" }");
    reveal_strlit(" ");
    if b.len() == 0 {
        assert(s[q + 0] == ascii(body_from_front(b) + " }"@)[0]);
        assert(s[q + 1] == ascii(body_from_front(b) + " }"@)[1]);
        lemma_one_space(s, q);
        assert(b =~= seq![]);
    } else {
        let x = statement_text(b[0]);
        let r = b.drop_first();
        assert(body_from_front(b) + " }"@ =~= " "@ + x + (body_from_front(r) + " }"@));
        lemma_occurs_cat(s, q, " "@ + x, body_from_front(r) + " }"@);
        lemma_occurs_cat(s, q, " "@, x);
        assert(s[q + 0] == ascii(" "@)[0]);
        lemma_read_statement(s, q + 1, b[0]);
        lemma_one_space(s, q);
        assert forall|t: int| 0 <= t < r.len() implies valid_statement(#[trigger] r[t]) by {
            assert(r[t] == b[t + 1]);
        }
        lemma_read_body(s, q + 1 + x.len(), r);
        assert(seq![b[0]] + r =~= b);
    }
}

/// A module written by the printer reads back as the same module, using the
/// whole text, whatever follows it.
#[verifier::rlimit(100)]
#[verifier::spinoff_prover]
pub proof fn lemma_module_round_trip(s: Seq<u8>, i: int, m: ModuleModel)
    requires
        0 <= i,
        valid_module(m),
        occurs(s, i, ascii(module_text(m))),
    ensures
        skip_ws(s, i) == i,
        word(s, i) == kw_module(),
        module_rule(s, i) == Ok::<(ModuleModel, int), ParseError>(
            (m, i + module_text(m).len()),
        ),
{
    reveal_strlit("module ");
    reveal_strlit("module");
    reveal_strlit(" ");
    reveal_strlit(" (");
    reveal_strlit(") {");
    reveal_strlit(" }");
    reveal_strlit("<");
    let t1 = "module "@;
    let t2 = m.name;
    let t3 = generics_text(m.generic_args);
    let t4 = " ("@;
    let t5 = ports_joined(m.ports);
    let t6 = ") {"@;
    let t7 = body_text(m.body);
    let t8 = " }"@;
    let o3: int = i + t1.len() + t2.len();
    let o4: int = o3 + t3.len();
    let p: int = o4 + 3 + t5.len();
    let o7: int = p + 2;
    lemma_occurs_cat(s, i, t1 + t2 + t3 + t4 + t5 + t6 + t7, t8);
    lemma_occurs_cat(s, i, t1 + t2 + t3 + t4 + t5 + t6, t7);
    lemma_occurs_cat(s, i, t1 + t2 + t3 + t4 + t5, t6);
    lemma_occurs_cat(s, i, t1 + t2 + t3 + t4, t5);
    lemma_occurs_cat(s, i, t1 + t2 + t3, t4);
    lemma_occurs_cat(s, i, t1 + t2, t3);
    lemma_occurs_cat(s, i, t1, t2);
    assert(skip_ws(s, i) == i && word(s, i) == kw_module() && word_end(s, i) == i + 6) by {
        assert(t1 =~= "module"@ + " "@);
        lemma_occurs_cat(s, i, "module"@, " "@);
        assert(ascii("module"@) =~= kw_module());
        assert(s[i + 6 + 0] == ascii(" "@)[0]);
        lemma_read_name(s, i, "module"@);
    }
    assert(identifier_rule(s, i + 6) == Ok::<(Seq<char>, int), ParseError>((t2, o3))) by {
        assert(s[i + 6 + 0] == ascii(t1)[6]);
        assert(s[i + 7 + 0] == ascii(t2)[0]);
        lemma_one_space(s, i + 6);
        lemma_occurs_join(s, o3, t3, t4);
        if t3.len() > 0 {
            assert(s[o3 + 0] == ascii(t3)[0]);
        } else {
            assert(s[o3 + 0] == ascii(t4)[0]);
        }
        lemma_read_name(s, i + 7, t2);
    }
    assert(generic_args_rule(s, o3) == Ok::<(Seq<Seq<char>>, int), ParseError>(
        (m.generic_args, o4),
    )) by {
        lemma_occurs_join(s, o3, t3, t4);
        lemma_read_generics(s, o3, m.generic_args);
    }
    assert(module_ports_rule(s, o4) == Ok::<(Seq<PortModel>, int), ParseError>((m.ports, p))) by {
        lemma_occurs_join(s, o4, t4, t5);
        lemma_occurs_join(s, o4, t4 + t5, t6);
        lemma_read_ports(s, o4, m.ports);
    }
    assert(symbol_rule(s, p, LBRACE) == Ok::<((), int), ParseError>(((), o7))) by {
        assert(s[o4 + 2 + t5.len() + 1] == ascii(t6)[1]);
        assert(s[o4 + 2 + t5.len() + 2] == ascii(t6)[2]);
        lemma_one_space(s, p);
    }
    assert(body_rule(s, o7) == Ok::<(Seq<StatementModel>, int), ParseError>(
        (m.body, i + module_text(m).len()),
    )) by {
        lemma_occurs_join(s, o7, t7, t8);
        lemma_body_text(m.body);
        lemma_read_body(s, o7, m.body);
    }
}


proof fn lemma_ident_chars(s: Seq<u8>, i: int)
    requires
        0 <= i,
    ensures
        forall|t: int| i <= t < ident_end(s, i) ==> is_ident_char(#[trigger] s[t]),
    decreases s.len() - i,
{
    if 0 <= i < s.len() && is_ident_char(s[i]) {
        lemma_ident_chars(s, i + 1);
    }
}

/// The word at an identifier's start is a name.
proof fn lemma_word_is_name(s: Seq<u8>, j: int)
    requires
        alpha_at(s, j),
    ensures
        is_name(chars_of(word(s, j))),
{
    lemma_ident_chars(s, j + 1);
    lemma_ident_end(s, j + 1);
    let w = word(s, j);
    let n = chars_of(w);
    assert forall|k: int| 0 <= k < n.len() implies is_ascii_char(#[trigger] n[k]) && is_ident_char(
        n[k] as u8,
    ) by {
        assert(w[k] == s[j + k]);
        lemma_byte_char(w[k]);
    }
    lemma_byte_char(w[0]);
}

proof fn lemma_identifier_name(s: Seq<u8>, i: int)
    ensures
        identifier_rule(s, i) is Ok ==> is_name(identifier_rule(s, i)->Ok_0.0),
{
    if identifier_rule(s, i) is Ok {
        lemma_word_is_name(s, skip_ws(s, i));
    }
}

proof fn lemma_width_valid(s: Seq<u8>, i: int)
    ensures
        bus_width_rule(s, i) is Ok ==> valid_width(bus_width_rule(s, i)->Ok_0.0),
{
    let j = skip_ws(s, i);
    let k = skip_ws(s, j + 1);
    if alpha_at(s, k) {
        lemma_word_is_name(s, k);
    }
}

proof fn lemma_port_valid(s: Seq<u8>, i: int)
    ensures
        port_rule(s, i) is Ok ==> valid_port(port_rule(s, i)->Ok_0.0),
{
    if let Ok((_, k)) = port_type_rule(s, i) {
        lemma_identifier_name(s, k);
        if let Ok((_, m)) = identifier_rule(s, k) {
            lemma_width_valid(s, m);
        }
    }
}

proof fn lemma_port_rest_valid(s: Seq<u8>, i: int)
    ensures
        port_rest_rule(s, i) is Ok ==> forall|t: int|
            0 <= t < port_rest_rule(s, i)->Ok_0.0.len() ==> valid_port(
                #[trigger] port_rest_rule(s, i)->Ok_0.0[t],
            ),
    decreases s.len() - i,
{
    let j = skip_ws(s, i);
    lemma_skip_ws(s, i);
    if at(s, j, COMMA) {
        lemma_port(s, j + 1);
        lemma_port_valid(s, j + 1);
        if let Ok((p, k)) = port_rule(s, j + 1) {
            lemma_port_rest_valid(s, k);
            if let Ok((ps, _)) = port_rest_rule(s, k) {
                assert forall|t: int| 0 <= t < (seq![p] + ps).len() implies valid_port(
                    #[trigger] (seq![p] + ps)[t],
                ) by {
                    if t > 0 {
                        assert((seq![p] + ps)[t] == ps[t - 1]);
                    }
                }
            }
        }
    }
}

proof fn lemma_ports_valid(s: Seq<u8>, i: int)
    ensures
        module_ports_rule(s, i) is Ok ==> forall|t: int|
            0 <= t < module_ports_rule(s, i)->Ok_0.0.len() ==> valid_port(
                #[trigger] module_ports_rule(s, i)->Ok_0.0[t],
            ),
{
    if let Ok((_, j)) = symbol_rule(s, i, LPAREN) {
        lemma_port_valid(s, j);
        if let Ok((p, m)) = port_rule(s, j) {
            lemma_port_rest_valid(s, m);
            if let Ok((ps, _)) = port_rest_rule(s, m) {
                assert forall|t: int| 0 <= t < (seq![p] + ps).len() implies valid_port(
                    #[trigger] (seq![p] + ps)[t],
                ) by {
                    if t > 0 {
                        assert((seq![p] + ps)[t] == ps[t - 1]);
                    }
                }
            }
        }
    }
}

proof fn lemma_generic_rest_valid(s: Seq<u8>, i: int)
    ensures
        generic_rest_rule(s, i) is Ok ==> forall|t: int|
            0 <= t < generic_rest_rule(s, i)->Ok_0.0.len() ==> is_name(
                #[trigger] generic_rest_rule(s, i)->Ok_0.0[t],
            ),
    decreases s.len() - i,
{
    let j = skip_ws(s, i);
    lemma_skip_ws(s, i);
    if at(s, j, COMMA) {
        lemma_identifier(s, j + 1);
        lemma_identifier_name(s, j + 1);
        if let Ok((g, k)) = identifier_rule(s, j + 1) {
            lemma_generic_rest_valid(s, k);
            if let Ok((gs, _)) = generic_rest_rule(s, k) {
                assert forall|t: int| 0 <= t < (seq![g] + gs).len() implies is_name(
                    #[trigger] (seq![g] + gs)[t],
                ) by {
                    if t > 0 {
                        assert((seq![g] + gs)[t] == gs[t - 1]);
                    }
                }
            }
        }
    }
}

proof fn lemma_generics_valid(s: Seq<u8>, i: int)
    ensures
        generic_args_rule(s, i) is Ok ==> forall|t: int|
            0 <= t < generic_args_rule(s, i)->Ok_0.0.len() ==> is_name(
                #[trigger] generic_args_rule(s, i)->Ok_0.0[t],
            ),
{
    let j = skip_ws(s, i);
    lemma_identifier_name(s, j + 1);
    if let Ok((g, k)) = identifier_rule(s, j + 1) {
        lemma_generic_rest_valid(s, k);
        if let Ok((gs, _)) = generic_rest_rule(s, k) {
            assert forall|t: int| 0 <= t < (seq![g] + gs).len() implies is_name(
                #[trigger] (seq![g] + gs)[t],
            ) by {
                if t > 0 {
                    assert((seq![g] + gs)[t] == gs[t - 1]);
                }
            }
        }
    }
}

proof fn lemma_statement_valid(s: Seq<u8>, i: int)
    ensures
        wire_def_rule(s, i) is Ok ==> valid_statement(wire_def_rule(s, i)->Ok_0.0),
{
    let j = skip_ws(s, i);
    let k = word_end(s, j);
    lemma_identifier_name(s, k);
    if let Ok((_, m)) = identifier_rule(s, k) {
        lemma_width_valid(s, m);
    }
}

proof fn lemma_body_valid(s: Seq<u8>, i: int)
    ensures
        body_rule(s, i) is Ok ==> forall|t: int|
            0 <= t < body_rule(s, i)->Ok_0.0.len() ==> valid_statement(
                #[trigger] body_rule(s, i)->Ok_0.0[t],
            ),
    decreases s.len() - i,
{
    let j = skip_ws(s, i);
    lemma_skip_ws(s, i);
    if !at(s, j, RBRACE) {
        lemma_wire_def(s, j);
        lemma_statement_valid(s, j);
        if let Ok((st, k)) = wire_def_rule(s, j) {
            lemma_body_valid(s, k);
            if let Ok((sts, _)) = body_rule(s, k) {
                assert forall|t: int| 0 <= t < (seq![st] + sts).len() implies valid_statement(
                    #[trigger] (seq![st] + sts)[t],
                ) by {
                    if t > 0 {
                        assert((seq![st] + sts)[t] == sts[t - 1]);
                    }
                }
            }
        }
    }
}

/// Every module the parser accepts is one the printer can write back.
pub proof fn lemma_parsed_module_valid(s: Seq<u8>, i: int)
    ensures
        module_rule(s, i) is Ok ==> valid_module(module_rule(s, i)->Ok_0.0),
{
    let j = skip_ws(s, i);
    let w = word_end(s, j);
    lemma_identifier_name(s, w);
    if let Ok((_, k)) = identifier_rule(s, w) {
        lemma_generics_valid(s, k);
        if let Ok((_, m)) = generic_args_rule(s, k) {
            lemma_ports_valid(s, m);
            if let Ok((_, p)) = module_ports_rule(s, m) {
                if let Ok((_, q)) = symbol_rule(s, p, LBRACE) {
                    lemma_body_valid(s, q);
                }
            }
        }
    }
}


/// Every character is ASCII.
pub open spec fn all_ascii(t: Seq<char>) -> bool {
    forall|k: int| 0 <= k < t.len() ==> is_ascii_char(#[trigger] t[k])
}

proof fn lemma_all_ascii_cat(a: Seq<char>, b: Seq<char>)
    requires
        all_ascii(a),
        all_ascii(b),
    ensures
        all_ascii(a + b),
{
    assert forall|k: int| 0 <= k < (a + b).len() implies is_ascii_char(#[trigger] (a + b)[k]) by {
        if k < a.len() {
            assert((a + b)[k] == a[k]);
        } else {
            assert((a + b)[k] == b[k - a.len()]);
        }
    }
}

proof fn lemma_literals_ascii()
    ensures
        all_ascii("module "@),
        all_ascii(" ("@),
        all_ascii(") {"@),
        all_ascii(" }"@),
        all_ascii("<"@),
        all_ascii(">"@),
        all_ascii(", "@),
        all_ascii("["@),
        all_ascii("]"@),
        all_ascii(" "@),
        all_ascii(";"@),
        all_ascii("In"@),
        all_ascii("Out"@),
        all_ascii("InOut"@),
        all_ascii("wire "@),
        all_ascii("bus "@),
{
    reveal_strlit("module ");
    reveal_strlit(" (");
    reveal_strlit(") {");
    reveal_strlit(" }");
    reveal_strlit("<");
    reveal_strlit(">");
    reveal_strlit(", ");
    reveal_strlit("[");
    reveal_strlit("]");
    reveal_strlit(" ");
    reveal_strlit(";");
    reveal_strlit("In");
    reveal_strlit("Out");
    reveal_strlit("InOut");
    reveal_strlit("wire ");
    reveal_strlit("bus ");
}

proof fn lemma_width_ascii(w: Option<ExprModel>)
    requires
        valid_width(w),
    ensures
        all_ascii(width_text(w)),
{
    lemma_literals_ascii();
    if let Some(e) = w {
        if let ExprModel::Number(n) = e {
            lemma_decimal(n as nat);
        }
        lemma_all_ascii_cat("["@, expr_text(e));
        lemma_all_ascii_cat("["@ + expr_text(e), "]"@);
    }
}

proof fn lemma_port_ascii(p: PortModel)
    requires
        valid_port(p),
    ensures
        all_ascii(port_text(p)),
{
    lemma_literals_ascii();
    let d = direction_text(p.port_type);
    lemma_width_ascii(p.width);
    lemma_all_ascii_cat(d, " "@);
    lemma_all_ascii_cat(d + " "@, p.name);
    lemma_all_ascii_cat(d + " "@ + p.name, width_text(p.width));
}

proof fn lemma_names_ascii(ns: Seq<Seq<char>>)
    requires
        forall|t: int| 0 <= t < ns.len() ==> all_ascii(#[trigger] ns[t]),
    ensures
        all_ascii(names_joined(ns)),
    decreases ns.len(),
{
    lemma_literals_ascii();
    if ns.len() > 1 {
        lemma_names_ascii(ns.drop_last());
        lemma_all_ascii_cat(names_joined(ns.drop_last()), ", "@);
        lemma_all_ascii_cat(names_joined(ns.drop_last()) + ", "@, ns.last());
    } else if ns.len() == 1 {
        assert(all_ascii(ns[0]));
    }
}

proof fn lemma_body_ascii(b: Seq<StatementModel>)
    requires
        forall|t: int| 0 <= t < b.len() ==> valid_statement(#[trigger] b[t]),
    ensures
        all_ascii(body_text(b)),
    decreases b.len(),
{
    lemma_literals_ascii();
    if b.len() > 0 {
        lemma_body_ascii(b.drop_last());
        let st = b.last();
        assert(valid_statement(b[b.len() - 1]));
        let StatementModel::WireDef { is_bus, name, width } = st;
        let kw = if is_bus { "bus "@ } else { "wire "@ };
        lemma_width_ascii(width);
        lemma_all_ascii_cat(kw, name);
        lemma_all_ascii_cat(kw + name, width_text(width));
        lemma_all_ascii_cat(kw + name + width_text(width), ";"@);
        lemma_all_ascii_cat(body_text(b.drop_last()), " "@);
        lemma_all_ascii_cat(body_text(b.drop_last()) + " "@, statement_text(st));
    }
}

proof fn lemma_module_ascii(m: ModuleModel)
    requires
        valid_module(m),
    ensures
        all_ascii(module_text(m)),
{
    lemma_literals_ascii();
    let g = m.generic_args;
    assert forall|t: int| 0 <= t < g.len() implies all_ascii(#[trigger] g[t]) by {
        assert(is_name(g[t]));
    }
    lemma_names_ascii(g);
    if g.len() > 0 {
        lemma_all_ascii_cat("<"@, names_joined(g));
        lemma_all_ascii_cat("<"@ + names_joined(g), ">"@);
    }
    let r = rendered(m.ports);
    assert forall|t: int| 0 <= t < r.len() implies all_ascii(#[trigger] r[t]) by {
        lemma_port_ascii(m.ports[t]);
    }
    lemma_names_ascii(r);
    lemma_ports_joined(m.ports);
    lemma_body_ascii(m.body);
    let t3 = generics_text(g);
    let t5 = ports_joined(m.ports);
    let t7 = body_text(m.body);
    lemma_all_ascii_cat("module "@, m.name);
    lemma_all_ascii_cat("module "@ + m.name, t3);
    lemma_all_ascii_cat("module "@ + m.name + t3, " ("@);
    lemma_all_ascii_cat("module "@ + m.name + t3 + " ("@, t5);
    lemma_all_ascii_cat("module "@ + m.name + t3 + " ("@ + t5, ") {"@);
    lemma_all_ascii_cat("module "@ + m.name + t3 + " ("@ + t5 + ") {"@, t7);
    lemma_all_ascii_cat("module "@ + m.name + t3 + " ("@ + t5 + ") {"@ + t7, " }"@);
}

proof fn lemma_char_range(c: char)
    requires
        is_ascii_char(c),
    ensures
        '\0' <= c && c <= '\u{7f}',
{
    assert(c as u32 <= '\u{7f}' as u32);
}

/// The UTF-8 bytes of an ASCII text are its characters, one byte each.
proof fn lemma_encode_ascii(t: Seq<char>)
    requires
        all_ascii(t),
    ensures
        encode_utf8(t) == ascii(t),
{
    assert forall|k: int| 0 <= k < t.len() implies '\0' <= #[trigger] t[k] && t[k] <= '\u{7f}' by {
        lemma_char_range(t[k]);
    }
    vstd::utf8::is_ascii_chars_encode_utf8(t);
    assert(encode_utf8(t) =~= ascii(t));
}

/// Writing a parsed module back as text (`ModuleDef::to_source`) and parsing
/// that text (`parse_module_def`) gives the same module and consumes the text.
pub proof fn lemma_source_round_trip(s: Seq<u8>, i: int)
    requires
        module_rule(s, i) is Ok,
    ensures
        module_rule(encode_utf8(module_text(module_rule(s, i)->Ok_0.0)), 0) == Ok::<
            (ModuleModel, int),
            ParseError,
        >((module_rule(s, i)->Ok_0.0, module_text(module_rule(s, i)->Ok_0.0).len() as int)),
{
    let m = module_rule(s, i)->Ok_0.0;
    lemma_parsed_module_valid(s, i);
    lemma_module_ascii(m);
    lemma_encode_ascii(module_text(m));
    let w = encode_utf8(module_text(m));
    assert(occurs(w, 0, ascii(module_text(m))));
    lemma_module_round_trip(w, 0, m);
}

proof fn lemma_ident_end_shift(a: Seq<u8>, g: Seq<u8>, k: int)
    requires
        0 <= k <= g.len(),
    ensures
        ident_end(a + g, a.len() + k) == a.len() + ident_end(g, k),
    decreases g.len() - k,
{
    if k < g.len() {
        assert((a + g)[a.len() + k] == g[k]);
        lemma_ident_end_shift(a, g, k + 1);
    }
}

/// A written module followed by text that starts with neither whitespace
/// nor the word `module`: the module list stops at the end of the module,
/// and the source as a whole is `Incomplete` there.
pub proof fn lemma_trailing_text(m: ModuleModel, g: Seq<u8>)
    requires
        valid_module(m),
        g.len() > 0,
        !is_space(g[0]),
        word(g, 0) != kw_module(),
    ensures
        dsl_rule(ascii(module_text(m)) + g) == Ok::<(Seq<ModuleModel>, int), ParseError>(
            (seq![m], module_text(m).len() as int),
        ),
        source_rule(ascii(module_text(m)) + g) == Err::<Seq<ModuleModel>, ParseError>(
            ParseError::Incomplete { offset: module_text(m).len() as usize },
        ),
{
    let a = ascii(module_text(m));
    let s = a + g;
    let n = a.len() as int;
    assert forall|k: int| 0 <= k < a.len() implies s[0 + k] == a[k] by {}
    lemma_module_round_trip(s, 0, m);
    assert(s[n] == g[0]);
    assert(skip_ws(s, n) == n);
    if alpha_at(g, 0) {
        lemma_ident_end_shift(a, g, 1);
        lemma_ident_end(g, 1);
    }
    assert(word(s, n) =~= word(g, 0));
    assert(skip_ws(s, 0) == 0) by {
        reveal_strlit("module ");
        assert(s[0] == a[0]);
    }
    assert(n == module_text(m).len());
    assert(modules_rule(s, n) == Ok::<(Seq<ModuleModel>, int), ParseError>((seq![], n)));
    assert(modules_rule(s, 0) == prefixed(seq![m], modules_rule(s, n)));
    assert(seq![m] + seq![] =~= seq![m]);
}


/// Each module written and followed by a line break, built from the front.
pub open spec fn ast_from_front(ms: Seq<ModuleModel>) -> Seq<char>
    decreases ms.len(),
{
    if ms.len() == 0 {
        seq![]
    } else {
        module_text(ms[0]) + "\n"@ + ast_from_front(ms.drop_first())
    }
}

proof fn lemma_ast_push(ms: Seq<ModuleModel>, x: ModuleModel)
    ensures
        ast_from_front(ms.push(x)) == ast_from_front(ms) + module_text(x) + "\n"@,
    decreases ms.len(),
{
    if ms.len() == 0 {
        assert(ms.push(x).drop_first() =~= seq![]);
        assert(ms.push(x)[0] == x);
        assert(ast_from_front(ms.push(x).drop_first()) == Seq::<char>::empty());
        assert(ast_from_front(ms) == Seq::<char>::empty());
        assert(ast_from_front(ms.push(x)) =~= ast_from_front(ms) + module_text(x) + "\n"@);
    } else {
        assert(ms.push(x).drop_first() =~= ms.drop_first().push(x));
        lemma_ast_push(ms.drop_first(), x);
        assert(ast_from_front(ms.push(x)) =~= ast_from_front(ms) + module_text(x) + "\n"@);
    }
}

proof fn lemma_ast_text(ms: Seq<ModuleModel>)
    ensures
        ast_text(ms) == ast_from_front(ms),
    decreases ms.len(),
{
    if ms.len() > 0 {
        lemma_ast_text(ms.drop_last());
        lemma_ast_push(ms.drop_last(), ms.last());
        assert(ms.drop_last().push(ms.last()) =~= ms);
    }
}

proof fn lemma_read_modules(s: Seq<u8>, i: int, ms: Seq<ModuleModel>)
    requires
        0 <= i,
        forall|t: int| 0 <= t < ms.len() ==> valid_module(#[trigger] ms[t]),
        occurs(s, i, ascii(ast_from_front(ms))),
        i + ast_from_front(ms).len() == s.len(),
    ensures
        modules_rule(s, i) == Ok::<(Seq<ModuleModel>, int), ParseError>((ms, s.len() as int)),
    decreases ms.len(),
{
    reveal_strlit("\n");
    if ms.len() == 0 {
        assert(ms =~= seq![]);
    } else {
        let m = ms[0];
        let r = ms.drop_first();
        let x = module_text(m);
        lemma_occurs_cat(s, i, x + "\n"@, ast_from_front(r));
        lemma_occurs_cat(s, i, x, "\n"@);
        assert(valid_module(ms[0]));
        lemma_module_round_trip(s, i, m);
        let e = i + x.len();
        assert(s[e + 0] == ascii("\n"@)[0]);
        assert(skip_ws(s, e) == skip_ws(s, e + 1));
        assert(modules_rule(s, e) == modules_rule(s, e + 1));
        assert forall|t: int| 0 <= t < r.len() implies valid_module(#[trigger] r[t]) by {
            assert(r[t] == ms[t + 1]);
        }
        lemma_read_modules(s, e + 1, r);
        assert(seq![m] + r =~= ms);
    }
}

proof fn lemma_parsed_modules_valid(s: Seq<u8>, i: int)
    ensures
        modules_rule(s, i) is Ok ==> forall|t: int|
            0 <= t < modules_rule(s, i)->Ok_0.0.len() ==> valid_module(
                #[trigger] modules_rule(s, i)->Ok_0.0[t],
            ),
    decreases s.len() - i,
{
    let j = skip_ws(s, i);
    crate::grammar::lemma_skip_ws(s, i);
    if 0 <= j < s.len() && word(s, j) == kw_module() {
        crate::grammar::lemma_module(s, j);
        lemma_parsed_module_valid(s, j);
        if let Ok((m, k)) = module_rule(s, j) {
            lemma_parsed_modules_valid(s, k);
            if let Ok((ms, _)) = modules_rule(s, k) {
                assert forall|t: int| 0 <= t < (seq![m] + ms).len() implies valid_module(
                    #[trigger] (seq![m] + ms)[t],
                ) by {
                    if t > 0 {
                        assert((seq![m] + ms)[t] == ms[t - 1]);
                    }
                }
            }
        }
    }
}

proof fn lemma_ast_ascii(ms: Seq<ModuleModel>)
    requires
        forall|t: int| 0 <= t < ms.len() ==> valid_module(#[trigger] ms[t]),
    ensures
        all_ascii(ast_text(ms)),
    decreases ms.len(),
{
    reveal_strlit("\n");
    if ms.len() > 0 {
        lemma_ast_ascii(ms.drop_last());
        assert(valid_module(ms[ms.len() - 1]));
        lemma_module_ascii(ms.last());
        assert(all_ascii("\n"@));
        lemma_all_ascii_cat(ast_text(ms.drop_last()), module_text(ms.last()));
        lemma_all_ascii_cat(ast_text(ms.drop_last()) + module_text(ms.last()), "\n"@);
    }
}

/// Valid modules, written one after another, read back as the same list
/// and use the whole text.
proof fn lemma_modules_round_trip(ms: Seq<ModuleModel>)
    requires
        forall|t: int| 0 <= t < ms.len() ==> valid_module(#[trigger] ms[t]),
    ensures
        dsl_rule(encode_utf8(ast_text(ms))) == Ok::<(Seq<ModuleModel>, int), ParseError>(
            (ms, encode_utf8(ast_text(ms)).len() as int),
        ),
        source_rule(encode_utf8(ast_text(ms))) == Ok::<Seq<ModuleModel>, ParseError>(ms),
{
    lemma_ast_ascii(ms);
    lemma_encode_ascii(ast_text(ms));
    let w = encode_utf8(ast_text(ms));
    lemma_ast_text(ms);
    assert(occurs(w, 0, ascii(ast_from_front(ms))));
    lemma_read_modules(w, 0, ms);
    crate::grammar::lemma_skip_ws(w, w.len() as int);
}

/// Writing the modules of a source (`Ast::to_source`) and parsing that text
/// (`parse_dsl`) gives the same modules, in order, and consumes the whole
/// text; as a source it is accepted with those modules.
pub proof fn lemma_source_text_round_trip(s: Seq<u8>)
    requires
        dsl_rule(s) is Ok,
    ensures
        dsl_rule(encode_utf8(ast_text(dsl_rule(s)->Ok_0.0))) == Ok::<
            (Seq<ModuleModel>, int),
            ParseError,
        >((dsl_rule(s)->Ok_0.0, encode_utf8(ast_text(dsl_rule(s)->Ok_0.0)).len() as int)),
        source_rule(encode_utf8(ast_text(dsl_rule(s)->Ok_0.0))) == Ok::<
            Seq<ModuleModel>,
            ParseError,
        >(dsl_rule(s)->Ok_0.0),
{
    lemma_parsed_modules_valid(s, 0);
    lemma_modules_round_trip(dsl_rule(s)->Ok_0.0);
}

proof fn lemma_ast_text_concat(x: Seq<ModuleModel>, y: Seq<ModuleModel>)
    ensures
        ast_text(x + y) == ast_text(x) + ast_text(y),
    decreases y.len(),
{
    if y.len() == 0 {
        assert(x + y =~= x);
        assert(ast_text(x) + ast_text(y) =~= ast_text(x));
    } else {
        assert((x + y).drop_last() =~= x + y.drop_last());
        lemma_ast_text_concat(x, y.drop_last());
        assert(ast_text(x + y) =~= ast_text(x) + ast_text(y));
    }
}

/// The modules of two sources, written one after the other, parse to the
/// first source's modules followed by the second's, one entry per module.
pub proof fn lemma_concatenated_sources(a: Seq<u8>, b: Seq<u8>)
    requires
        dsl_rule(a) is Ok,
        dsl_rule(b) is Ok,
    ensures
        dsl_rule(encode_utf8(ast_text(dsl_rule(a)->Ok_0.0) + ast_text(dsl_rule(b)->Ok_0.0)))
            is Ok,
        dsl_rule(encode_utf8(ast_text(dsl_rule(a)->Ok_0.0) + ast_text(dsl_rule(b)->Ok_0.0)))->Ok_0.0
            == dsl_rule(a)->Ok_0.0 + dsl_rule(b)->Ok_0.0,
{
    let x = dsl_rule(a)->Ok_0.0;
    let y = dsl_rule(b)->Ok_0.0;
    lemma_parsed_modules_valid(a, 0);
    lemma_parsed_modules_valid(b, 0);
    assert forall|t: int| 0 <= t < (x + y).len() implies valid_module(#[trigger] (x + y)[t]) by {
        if t < x.len() {
            assert((x + y)[t] == x[t]);
        } else {
            assert((x + y)[t] == y[t - x.len()]);
        }
    }
    lemma_ast_text_concat(x, y);
    lemma_modules_round_trip(x + y);
}

} // verus!
