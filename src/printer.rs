//! Writing a module definition back as source text.
use vstd::prelude::*;
use vstd::string::StringExecFns;
use crate::ast::{Ast, ExprModel, Expr, ModuleDef, ModuleModel, Port, PortModel, PortType, Statement, StatementModel};
use crate::parser::push_char;
use crate::{decimal, push_decimal};

verus! {

pub open spec fn expr_text(e: ExprModel) -> Seq<char>
    decreases e,
{
    match e {
        ExprModel::Number(n) => decimal(n as nat),
        ExprModel::Identifier(x) => x,
        ExprModel::BinaryOp { op, left, right } => "("@ + expr_text(*left) + " "@ + op + " "@
            + expr_text(*right) + ")"@,
    }
}

pub open spec fn width_text(w: Option<ExprModel>) -> Seq<char> {
    match w {
        Some(e) => "["@ + expr_text(e) + "]"@,
        None => seq![],
    }
}

pub open spec fn direction_text(d: PortType) -> Seq<char> {
    match d {
        PortType::In => "In"@,
        PortType::Out => "Out"@,
        PortType::InOut => "InOut"@,
    }
}

pub open spec fn port_text(p: PortModel) -> Seq<char> {
    direction_text(p.port_type) + " "@ + p.name + width_text(p.width)
}

/// The ports separated by `, `.
pub open spec fn ports_joined(ps: Seq<PortModel>) -> Seq<char>
    decreases ps.len(),
{
    if ps.len() == 0 {
        seq![]
    } else if ps.len() == 1 {
        port_text(ps[0])
    } else {
        ports_joined(ps.drop_last()) + ", "@ + port_text(ps.last())
    }
}

/// The names separated by `, `.
pub open spec fn names_joined(ns: Seq<Seq<char>>) -> Seq<char>
    decreases ns.len(),
{
    if ns.len() == 0 {
        seq![]
    } else if ns.len() == 1 {
        ns[0]
    } else {
        names_joined(ns.drop_last()) + ", "@ + ns.last()
    }
}

pub open spec fn generics_text(ns: Seq<Seq<char>>) -> Seq<char> {
    if ns.len() == 0 {
        seq![]
    } else {
        "<"@ + names_joined(ns) + ">"@
    }
}

pub open spec fn statement_text(st: StatementModel) -> Seq<char> {
    match st {
        StatementModel::WireDef { is_bus, name, width } => (if is_bus {
            "bus "@
        } else {
            "wire "@
        }) + name + width_text(width) + ";"@,
    }
}

/// Each statement preceded by a space.
pub open spec fn body_text(b: Seq<StatementModel>) -> Seq<char>
    decreases b.len(),
{
    if b.len() == 0 {
        seq![]
    } else {
        body_text(b.drop_last()) + " "@ + statement_text(b.last())
    }
}

/// `module Name<G, ...> (Dir port[w], ...) { statement; ... }`
pub open spec fn module_text(m: ModuleModel) -> Seq<char> {
    "module "@ + m.name + generics_text(m.generic_args) + " ("@ + ports_joined(m.ports) + ") {"@
        + body_text(m.body) + " }"@
}

/// Each module written and followed by a line break.
pub open spec fn ast_text(ms: Seq<ModuleModel>) -> Seq<char>
    decreases ms.len(),
{
    if ms.len() == 0 {
        seq![]
    } else {
        ast_text(ms.drop_last()) + module_text(ms.last()) + "\n"@
    }
}

fn write_expr(out: &mut String, e: &Expr)
    ensures
        final(out)@ == old(out)@ + expr_text(e.model()),
    decreases e,
{
    match e {
        Expr::Number(n) => push_decimal(out, *n as usize),
        Expr::Identifier(x) => out.append(x.as_str()),
        Expr::BinaryOp { op, left, right } => {
            out.append("(");
            write_expr(out, left);
            out.append(" ");
            out.append(op.as_str());
            out.append(" ");
            write_expr(out, right);
            out.append(")");
        },
    }
    assert(final(out)@ =~= old(out)@ + expr_text(e.model()));
}

fn write_width(out: &mut String, w: &Option<Expr>)
    ensures
        final(out)@ == old(out)@ + width_text(crate::ast::width_model(*w)),
{
    match w {
        Some(e) => {
            out.append("[");
            write_expr(out, e);
            out.append("]");
        },
        None => {},
    }
    assert(final(out)@ =~= old(out)@ + width_text(crate::ast::width_model(*w)));
}

fn write_port(out: &mut String, p: &Port)
    ensures
        final(out)@ == old(out)@ + port_text(p@),
{
    match p.port_type {
        PortType::In => out.append("In"),
        PortType::Out => out.append("Out"),
        PortType::InOut => out.append("InOut"),
    }
    out.append(" ");
    out.append(p.name.as_str());
    write_width(out, &p.width);
    assert(final(out)@ =~= old(out)@ + port_text(p@));
}

fn write_statement(out: &mut String, st: &Statement)
    ensures
        final(out)@ == old(out)@ + statement_text(st@),
{
    match st {
        Statement::WireDef { is_bus, name, width } => {
            if *is_bus {
                out.append("bus ");
            } else {
                out.append("wire ");
            }
            out.append(name.as_str());
            write_width(out, width);
            out.append(";");
        },
    }
    assert(final(out)@ =~= old(out)@ + statement_text(st@));
}

impl ModuleDef {
    /// The module as source text; see `module_text`.
    pub fn to_source(&self) -> (r: String)
        ensures
            r@ == module_text(self@),
    {
        let mut out = String::new();
        out.append("module ");
        out.append(self.name.as_str());
        let ghost head = out@;
        let gs = &self.generic_args;
        let ghost gm = crate::ast::names_model(gs@);
        if gs.len() > 0 {
            out.append("<");
        }
        let ghost open = out@;
        let mut i: usize = 0;
        while i < gs.len()
            invariant
                i <= gs@.len(),
                gm == crate::ast::names_model(gs@),
                out@ == open + names_joined(gm.subrange(0, i as int)),
            decreases gs@.len() - i,
        {
            if i > 0 {
                out.append(", ");
            }
            out.append(gs[i].as_str());
            assert(gm.subrange(0, i + 1).drop_last() =~= gm.subrange(0, i as int));
            i = i + 1;
        }
        if gs.len() > 0 {
            out.append(">");
        }
        assert(gm.subrange(0, gm.len() as int) =~= gm);
        assert(out@ =~= head + generics_text(gm));
        out.append(" (");
        let ghost open = out@;
        let ps = &self.ports;
        let ghost pm = crate::ast::ports_model(ps@);
        let mut i: usize = 0;
        while i < ps.len()
            invariant
                i <= ps@.len(),
                pm == crate::ast::ports_model(ps@),
                out@ == open + ports_joined(pm.subrange(0, i as int)),
            decreases ps@.len() - i,
        {
            if i > 0 {
                out.append(", ");
            }
            write_port(&mut out, &ps[i]);
            assert(pm.subrange(0, i + 1).drop_last() =~= pm.subrange(0, i as int));
            i = i + 1;
        }
        assert(pm.subrange(0, pm.len() as int) =~= pm);
        out.append(") {");
        let ghost open = out@;
        let b = &self.body;
        let ghost bm = crate::ast::body_model(b@);
        let mut i: usize = 0;
        while i < b.len()
            invariant
                i <= b@.len(),
                bm == crate::ast::body_model(b@),
                out@ == open + body_text(bm.subrange(0, i as int)),
            decreases b@.len() - i,
        {
            out.append(" ");
            write_statement(&mut out, &b[i]);
            assert(bm.subrange(0, i + 1).drop_last() =~= bm.subrange(0, i as int));
            i = i + 1;
        }
        assert(bm.subrange(0, bm.len() as int) =~= bm);
        out.append(" }");
        assert(out@ =~= module_text(self@));
        out
    }
}


impl Ast {
    /// The whole source as text; see `ast_text`.
    pub fn to_source(&self) -> (r: String)
        ensures
            r@ == ast_text(self@),
    {
        let mut out = String::new();
        let ms = &self.modules;
        let ghost mm = crate::ast::modules_model(ms@);
        let mut i: usize = 0;
        while i < ms.len()
            invariant
                i <= ms@.len(),
                mm == crate::ast::modules_model(ms@),
                out@ == ast_text(mm.subrange(0, i as int)),
            decreases ms@.len() - i,
        {
            let text = ms[i].to_source();
            out.append(text.as_str());
            out.append("\n");
            assert(mm.subrange(0, i + 1).drop_last() =~= mm.subrange(0, i as int));
            i = i + 1;
        }
        assert(mm.subrange(0, mm.len() as int) =~= mm);
        out
    }
}

} // verus!
