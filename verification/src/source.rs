use vstd::prelude::*;

verus! {

/// The direction of a module port.
#[derive(Debug, Clone, Copy, PartialEq, Eq, Structural)]
pub enum PortDirection {
    Input,
    Output,
    /// Any direction the simulator does not support; such a port is
    /// skipped.
    Other,
}

/// The type-category tag of an input port.
#[derive(Debug, Clone, Copy, PartialEq, Eq, Structural)]
pub enum PortClass {
    /// A plain data signal.
    Plain,
    /// A clock signal.
    Clock,
    /// A reset signal.
    Reset,
}

/// One port of the module, as the front end resolved it.
#[derive(Debug)]
pub struct Port {
    pub name: String,
    pub direction: PortDirection,
    pub class: PortClass,
}

/// A signal reference as written in the source: a plain unqualified
/// identifier, or some qualified or hierarchical form, which the
/// compiler skips.
#[derive(Debug)]
pub enum NameRef {
    Ident(String),
    Qualified,
}

/// The token of a numeric literal, as its bytes.
#[derive(Debug)]
pub enum SrcNumber {
    /// A based literal token such as `32'h10`: width, a quote, a radix
    /// letter, then digits.
    Based(Vec<u8>),
    /// A plain decimal token such as `42`.
    Plain(Vec<u8>),
    /// Any other number form (a real number, say); it reads as zero.
    Other,
}

/// The leaf of an expression.
#[derive(Debug)]
pub enum SrcFactor {
    Name(NameRef),
    Number(SrcNumber),
    /// Any unsupported factor form; it reads as zero.
    Other,
}

/// A unary operator token.
#[derive(Debug, Clone, Copy, PartialEq, Eq, Structural)]
pub enum SrcUnaryOp {
    /// The `~` token, read as the toggle operation.
    Toggle,
    /// Any other unary operator; it is dropped.
    Other,
}

/// A multiplicative operator token.
#[derive(Debug, Clone, Copy, PartialEq, Eq, Structural)]
pub enum SrcMulOp {
    Times,
    Divide,
    /// Any other operator at this precedence level; it and its right
    /// operand are dropped.
    Other,
}

/// An additive operator token.
#[derive(Debug, Clone, Copy, PartialEq, Eq, Structural)]
pub enum SrcAddOp {
    Plus,
    Minus,
    /// Any other operator at this precedence level; it and its right
    /// operand are dropped.
    Other,
}

/// A factor under a stack of unary operators, written outermost first.
#[derive(Debug)]
pub struct SrcUnary {
    pub ops: Vec<SrcUnaryOp>,
    pub factor: SrcFactor,
}

/// One trailing multiplicative operation of a term.
#[derive(Debug)]
pub struct SrcTermOp {
    pub op: SrcMulOp,
    pub operand: SrcUnary,
}

/// A product: a first operand and trailing multiplicative operations,
/// associating to the left.
#[derive(Debug)]
pub struct SrcTerm {
    pub first: SrcUnary,
    pub rest: Vec<SrcTermOp>,
}

/// One trailing additive operation of an expression.
#[derive(Debug)]
pub struct SrcExprOp {
    pub op: SrcAddOp,
    pub term: SrcTerm,
}

/// A sum: a first operand and trailing additive operations, associating
/// to the left. Operators of other precedence levels are not
/// represented; the front end hands over only the supported subset.
#[derive(Debug)]
pub struct SrcExpr {
    pub first: SrcTerm,
    pub rest: Vec<SrcExprOp>,
}

/// One statement inside a statement block.
#[derive(Debug)]
pub enum BlockStatement {
    /// An identifier statement carrying an assignment.
    Assign { target: NameRef, value: SrcExpr },
    /// Any other statement shape (a call, a nested block); it is
    /// skipped.
    Other,
}

/// One braced statement block.
#[derive(Debug)]
pub struct StatementBlock {
    pub statements: Vec<BlockStatement>,
}

/// One statement of a clocked process body.
#[derive(Debug)]
pub enum ProcessStatement {
    /// An if-reset/else statement: the reset branch's blocks and the
    /// optional else block.
    IfReset { reset_blocks: Vec<StatementBlock>, else_block: Option<StatementBlock> },
    /// Any other statement inside the process; it is skipped.
    Other,
}

/// One item of a module body.
#[derive(Debug)]
pub enum ModuleItem {
    /// A continuous assignment.
    ContinuousAssign { target: NameRef, value: SrcExpr },
    /// A clocked process.
    ClockedProcess { body: Vec<ProcessStatement> },
    /// Any other declaration; it is skipped.
    Other,
}

/// A resolved module as the front end hands it over: its name, its
/// ports, and its body items, all in source order.
#[derive(Debug)]
pub struct SourceModule {
    pub name: String,
    pub ports: Vec<Port>,
    pub items: Vec<ModuleItem>,
}

} // verus!
