use vstd::prelude::*;

use crate::signals::SignalStore;

verus! {

/// An arithmetic expression over named signals: the expression half of
/// the compiled intermediate representation.
#[derive(Debug)]
pub enum Expr {
    /// A constant value.
    Const(usize),
    /// A variable read by signal name; an unknown name reads as zero.
    Var(String),
    /// Addition, wrapping around on overflow.
    Add(Box<Expr>, Box<Expr>),
    /// Subtraction, saturating at zero.
    Sub(Box<Expr>, Box<Expr>),
    /// Multiplication, wrapping around on overflow.
    Mul(Box<Expr>, Box<Expr>),
    /// Division; a zero divisor makes the whole quotient zero instead of
    /// faulting.
    Div(Box<Expr>, Box<Expr>),
    /// The toggle operation: a zero operand becomes one, anything else
    /// becomes zero. This is not a bitwise complement; it expresses
    /// toggle-type sequential updates.
    Not(Box<Expr>),
}

/// The value of an expression under an environment mapping signal names
/// to values. Evaluation is total: unknown names read as zero and a zero
/// divisor yields zero.
pub open spec fn spec_eval(e: Expr, env: Map<Seq<char>, usize>) -> usize
    decreases e,
{
    match e {
        Expr::Const(v) => v,
        Expr::Var(name) => if env.contains_key(name@) {
            env[name@]
        } else {
            0
        },
        Expr::Add(l, r) => vstd::wrapping::usize_specs::wrapping_add(
            spec_eval(*l, env),
            spec_eval(*r, env),
        ),
        Expr::Sub(l, r) => {
            let a = spec_eval(*l, env);
            let b = spec_eval(*r, env);
            if a >= b {
                (a - b) as usize
            } else {
                0
            }
        },
        Expr::Mul(l, r) => vstd::wrapping::usize_specs::wrapping_mul(
            spec_eval(*l, env),
            spec_eval(*r, env),
        ),
        Expr::Div(l, r) => {
            let b = spec_eval(*r, env);
            if b == 0 {
                0
            } else {
                spec_eval(*l, env) / b
            }
        },
        Expr::Not(a) => if spec_eval(*a, env) == 0 {
            1
        } else {
            0
        },
    }
}

impl Expr {
    /// Evaluates the expression against an environment. Binary operands
    /// are evaluated left to right; the result is exactly `spec_eval`,
    /// and evaluation never panics.
    pub fn eval(&self, env: &SignalStore) -> (r: usize)
        requires
            env.wf(),
        ensures
            r == spec_eval(*self, env@),
        decreases *self,
    {
        match self {
            Expr::Const(val) => *val,
            Expr::Var(name) => match env.get(name.as_str()) {
                Some(v) => v,
                None => 0,
            },
            Expr::Add(left, right) => {
                let a = left.eval(env);
                let b = right.eval(env);
                a.wrapping_add(b)
            },
            Expr::Sub(left, right) => {
                let a = left.eval(env);
                let b = right.eval(env);
                a.saturating_sub(b)
            },
            Expr::Mul(left, right) => {
                let a = left.eval(env);
                let b = right.eval(env);
                a.wrapping_mul(b)
            },
            Expr::Div(left, right) => {
                let right_val = right.eval(env);
                if right_val != 0 {
                    left.eval(env) / right_val
                } else {
                    0
                }
            },
            Expr::Not(expr) => {
                let val = expr.eval(env);
                if val == 0 {
                    1
                } else {
                    0
                }
            },
        }
    }
}

/// Zero-safety: an expression whose top node is a division with a zero
/// divisor evaluates to zero as a whole, whatever its dividend is; it
/// never faults.
pub proof fn lemma_div_by_zero_is_zero(e: Expr, env: Map<Seq<char>, usize>)
    requires
        e is Div,
        spec_eval(*e->Div_1, env) == 0,
    ensures
        spec_eval(e, env) == 0,
{
}

} // verus!
