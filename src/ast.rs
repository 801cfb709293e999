use vstd::prelude::*;

verus! {

/// Direction of a module port.
#[derive(Debug, Clone, Copy, PartialEq, Eq, Structural)]
pub enum PortType {
    In,
    Out,
    InOut,
}

/// A width or other value expression. The grammar produces only the two
/// leaves; `BinaryOp` is kept for operators added later.
#[derive(Debug, PartialEq)]
pub enum Expr {
    Number(u32),
    Identifier(String),
    BinaryOp { op: String, left: Box<Expr>, right: Box<Expr> },
}

/// A port of a module: `None` as width is a single wire, `Some` a bus.
#[derive(Debug, PartialEq, Clone)]
pub struct Port {
    pub port_type: PortType,
    pub name: String,
    pub width: Option<Expr>,
}

/// A declaration inside a module body.
#[derive(Debug, PartialEq, Clone)]
pub enum Statement {
    WireDef { is_bus: bool, name: String, width: Option<Expr> },
}

/// One parsed `module` block.
#[derive(Debug, PartialEq, Clone)]
pub struct ModuleDef {
    pub name: String,
    pub generic_args: Vec<String>,
    pub ports: Vec<Port>,
    pub body: Vec<Statement>,
}

/// The modules of a whole source text, in source order.
#[derive(Debug, PartialEq, Clone)]
pub struct Ast {
    pub modules: Vec<ModuleDef>,
}

/// Mathematical value of an `Expr`: names become character sequences.
pub enum ExprModel {
    Number(u32),
    Identifier(Seq<char>),
    BinaryOp { op: Seq<char>, left: Box<ExprModel>, right: Box<ExprModel> },
}

pub struct PortModel {
    pub port_type: PortType,
    pub name: Seq<char>,
    pub width: Option<ExprModel>,
}

pub enum StatementModel {
    WireDef { is_bus: bool, name: Seq<char>, width: Option<ExprModel> },
}

pub struct ModuleModel {
    pub name: Seq<char>,
    pub generic_args: Seq<Seq<char>>,
    pub ports: Seq<PortModel>,
    pub body: Seq<StatementModel>,
}

impl Clone for Expr {
    fn clone(&self) -> (r: Expr)
        ensures
            r.model() == self.model(),
        decreases self,
    {
        match self {
            Expr::Number(n) => Expr::Number(*n),
            Expr::Identifier(s) => Expr::Identifier(s.clone()),
            Expr::BinaryOp { op, left, right } => {
                let l: Expr = (**left).clone();
                let r: Expr = (**right).clone();
                Expr::BinaryOp { op: op.clone(), left: Box::new(l), right: Box::new(r) }
            },
        }
    }
}

impl Expr {
    pub open spec fn model(&self) -> ExprModel
        decreases self,
    {
        match self {
            Expr::Number(n) => ExprModel::Number(*n),
            Expr::Identifier(s) => ExprModel::Identifier(s@),
            Expr::BinaryOp { op, left, right } => ExprModel::BinaryOp {
                op: op@,
                left: Box::new(left.model()),
                right: Box::new(right.model()),
            },
        }
    }
}

pub open spec fn width_model(w: Option<Expr>) -> Option<ExprModel> {
    match w {
        Some(e) => Some(e.model()),
        None => None,
    }
}

impl View for Port {
    type V = PortModel;

    open spec fn view(&self) -> PortModel {
        PortModel { port_type: self.port_type, name: self.name@, width: width_model(self.width) }
    }
}

impl View for Statement {
    type V = StatementModel;

    open spec fn view(&self) -> StatementModel {
        match self {
            Statement::WireDef { is_bus, name, width } => StatementModel::WireDef {
                is_bus: *is_bus,
                name: name@,
                width: width_model(*width),
            },
        }
    }
}

pub open spec fn names_model(v: Seq<String>) -> Seq<Seq<char>> {
    v.map_values(|s: String| s@)
}

pub open spec fn ports_model(v: Seq<Port>) -> Seq<PortModel> {
    v.map_values(|p: Port| p@)
}

pub open spec fn body_model(v: Seq<Statement>) -> Seq<StatementModel> {
    v.map_values(|st: Statement| st@)
}

pub open spec fn modules_model(v: Seq<ModuleDef>) -> Seq<ModuleModel> {
    v.map_values(|m: ModuleDef| m@)
}

impl View for ModuleDef {
    type V = ModuleModel;

    open spec fn view(&self) -> ModuleModel {
        ModuleModel {
            name: self.name@,
            generic_args: names_model(self.generic_args@),
            ports: ports_model(self.ports@),
            body: body_model(self.body@),
        }
    }
}

impl View for Ast {
    type V = Seq<ModuleModel>;

    open spec fn view(&self) -> Seq<ModuleModel> {
        modules_model(self.modules@)
    }
}

} // verus!
