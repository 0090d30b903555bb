use vstd::prelude::*;

use crate::expr::Expr;
use crate::model::Assignment;
use crate::model::Model;
use crate::model::SequentialBlock;
use crate::model::SignalState;
use crate::model::spec_comb_pass;
use crate::signals::SignalStore;
use crate::source::BlockStatement;
use crate::source::ModuleItem;
use crate::source::NameRef;
use crate::source::Port;
use crate::source::PortClass;
use crate::source::PortDirection;
use crate::source::ProcessStatement;
use crate::source::SourceModule;
use crate::source::StatementBlock;
use crate::source::SrcAddOp;
use crate::source::SrcExpr;
use crate::source::SrcExprOp;
use crate::source::SrcFactor;
use crate::source::SrcMulOp;
use crate::source::SrcNumber;
use crate::source::SrcTerm;
use crate::source::SrcTermOp;
use crate::source::SrcUnary;
use crate::source::SrcUnaryOp;

verus! {

// ---------------------------------------------------------------------
// Numeric literals
// ---------------------------------------------------------------------

/// The numeric value of one ASCII digit byte, letters counting from
/// ten whatever their case; 255 marks a byte that is no digit at all.
pub open spec fn spec_digit_value(c: u8) -> u8 {
    if 48 <= c && c <= 57 {  // '0' ..= '9'
        (c - 48) as u8
    } else if 97 <= c && c <= 122 {  // 'a' ..= 'z'
        (c - 97 + 10) as u8
    } else if 65 <= c && c <= 90 {  // 'A' ..= 'Z'
        (c - 65 + 10) as u8
    } else {
        255
    }
}

fn digit_value(c: u8) -> (r: u8)
    ensures
        r == spec_digit_value(c),
{
    if 48 <= c && c <= 57 {
        c - 48
    } else if 97 <= c && c <= 122 {
        c - 97 + 10
    } else if 65 <= c && c <= 90 {
        c - 65 + 10
    } else {
        255
    }
}

/// The unbounded value of a digit string in the given radix, or nothing
/// if some byte is no digit of that radix. The empty string counts as
/// zero here; whole-token emptiness is rejected one level up.
pub open spec fn spec_digits_value(digits: Seq<u8>, radix: int) -> Option<int>
    decreases digits.len(),
{
    if digits.len() == 0 {
        Some(0 as int)
    } else {
        match spec_digits_value(digits.drop_last(), radix) {
            Some(v) => {
                let d = spec_digit_value(digits.last());
                if d < radix {
                    Some(v * radix + d)
                } else {
                    None
                }
            },
            None => None,
        }
    }
}

/// What parsing an unsigned number token in a radix yields: an optional
/// leading `+`, then at least one digit of the radix, with a value that
/// fits the machine word; any other form is nothing.
pub open spec fn spec_parse_radix(tok: Seq<u8>, radix: int) -> Option<usize> {
    let body = if tok.len() > 0 && tok[0] == 43 {  // '+'
        tok.subrange(1, tok.len() as int)
    } else {
        tok
    };
    if body.len() == 0 {
        None
    } else {
        match spec_digits_value(body, radix) {
            Some(v) => if v <= usize::MAX {
                Some(v as usize)
            } else {
                None
            },
            None => None,
        }
    }
}

/// A digit string's value only grows with more digits, and a bad byte
/// anywhere spoils the whole string.
proof fn lemma_digits_prefix(digits: Seq<u8>, radix: int, k: int)
    requires
        2 <= radix,
        0 <= k <= digits.len(),
    ensures
        spec_digits_value(digits, radix) is Some ==> {
            &&& spec_digits_value(digits.take(k), radix) is Some
            &&& 0 <= spec_digits_value(digits.take(k), radix)->Some_0
                <= spec_digits_value(digits, radix)->Some_0
        },
        spec_digits_value(digits.take(k), radix) is None ==> spec_digits_value(
            digits,
            radix,
        ) is None,
    decreases digits.len() - k,
{
    if k == digits.len() {
        assert(digits.take(k) =~= digits);
        lemma_digits_nonneg(digits, radix);
    } else {
        lemma_digits_prefix(digits, radix, k + 1);
        assert(digits.take(k + 1).drop_last() =~= digits.take(k));
        if spec_digits_value(digits.take(k + 1), radix) is Some {
            let v = spec_digits_value(digits.take(k), radix)->Some_0;
            let d = spec_digit_value(digits.take(k + 1).last());
            lemma_digits_nonneg(digits.take(k), radix);
            assert(v * radix + d >= v) by (nonlinear_arith)
                requires
                    v >= 0,
                    radix >= 2,
                    d >= 0,
            ;
        }
    }
}

/// A parsed digit string's value is never negative.
proof fn lemma_digits_nonneg(digits: Seq<u8>, radix: int)
    requires
        2 <= radix,
    ensures
        spec_digits_value(digits, radix) is Some ==> spec_digits_value(digits, radix)->Some_0
            >= 0,
    decreases digits.len(),
{
    if digits.len() > 0 {
        lemma_digits_nonneg(digits.drop_last(), radix);
        if spec_digits_value(digits, radix) is Some {
            let v = spec_digits_value(digits.drop_last(), radix)->Some_0;
            let d = spec_digit_value(digits.last());
            assert(v * radix + d >= 0) by (nonlinear_arith)
                requires
                    v >= 0,
                    radix >= 2,
                    d >= 0,
            ;
        }
    }
}

/// Parses the token's bytes from `start` on as an unsigned number in
/// the given radix, exactly as `spec_parse_radix` describes: optional
/// leading `+`, at least one digit, value within the machine word.
#[verifier::loop_isolation(false)]
fn parse_radix(tok: &Vec<u8>, start: usize, radix: usize) -> (r: Option<usize>)
    requires
        start <= tok@.len(),
        2 <= radix <= 36,
    ensures
        r == spec_parse_radix(tok@.skip(start as int), radix as int),
{
    let ghost whole = tok@.skip(start as int);
    let n = tok.len();
    let mut i = start;
    if i < n && tok[i] == 43 {
        i += 1;
        proof {
            assert(whole.subrange(1, whole.len() as int) =~= tok@.skip(i as int));
        }
    }
    let ghost body = tok@.skip(i as int);
    proof {
        assert(body =~= tok@.subrange(i as int, n as int));
    }
    if i == n {
        return None;
    }
    let ghost bstart = i as int;
    let mut acc: usize = 0;
    proof {
        assert(tok@.subrange(bstart, bstart) =~= Seq::<u8>::empty());
    }
    while i < n
        invariant
            n == tok@.len(),
            2 <= radix <= 36,
            0 <= bstart <= i <= n,
            body == tok@.subrange(bstart, n as int),
            spec_digits_value(tok@.subrange(bstart, i as int), radix as int) == Some(acc as int),
        decreases n - i,
    {
        let d = digit_value(tok[i]);
        proof {
            assert(tok@.subrange(bstart, i as int + 1).drop_last() =~= tok@.subrange(
                bstart,
                i as int,
            ));
            assert(tok@.subrange(bstart, i as int + 1).last() == tok@[i as int]);
            assert(body.take(i as int + 1 - bstart) =~= tok@.subrange(bstart, i as int + 1));
        }
        if d as usize >= radix {
            proof {
                lemma_digits_prefix(body, radix as int, i as int + 1 - bstart);
            }
            return None;
        }
        let stepped = match acc.checked_mul(radix) {
            Some(m) => m.checked_add(d as usize),
            None => None,
        };
        match stepped {
            Some(a2) => {
                acc = a2;
            },
            None => {
                proof {
                    lemma_digits_prefix(body, radix as int, i as int + 1 - bstart);
                }
                return None;
            },
        }
        i += 1;
    }
    proof {
        assert(tok@.subrange(bstart, n as int) =~= body);
    }
    Some(acc)
}

/// The index of the token's last quote byte, or -1 if it has none.
pub open spec fn spec_last_quote(tok: Seq<u8>) -> int
    decreases tok.len(),
{
    if tok.len() == 0 {
        -1
    } else if tok.last() == 39 {  // '\''
        tok.len() - 1
    } else {
        spec_last_quote(tok.drop_last())
    }
}

/// The value of a based literal token such as `32'h10`: the byte after
/// the last quote selects the radix (16, 10, 2 or 8; anything else
/// reads as ten), and the remaining bytes are the digits. A token
/// without a quote, without room for digits after it, or whose digits
/// do not parse, reads as zero.
pub open spec fn spec_based_value(tok: Seq<u8>) -> usize {
    let q = spec_last_quote(tok);
    if q < 0 || q + 2 > tok.len() {
        0
    } else {
        let b = tok[q + 1];
        let radix: int = if b == 104 || b == 72 {  // 'h' 'H'
            16
        } else if b == 100 || b == 68 {  // 'd' 'D'
            10
        } else if b == 98 || b == 66 {  // 'b' 'B'
            2
        } else if b == 111 || b == 79 {  // 'o' 'O'
            8
        } else {
            10
        };
        match spec_parse_radix(tok.skip(q + 2), radix) {
            Some(v) => v,
            None => 0,
        }
    }
}

/// The value of a plain decimal token; a malformed one reads as zero.
pub open spec fn spec_plain_value(tok: Seq<u8>) -> usize {
    match spec_parse_radix(tok, 10) {
        Some(v) => v,
        None => 0,
    }
}

fn based_value(tok: &Vec<u8>) -> (r: usize)
    ensures
        r == spec_based_value(tok@),
{
    let n = tok.len();
    let mut k = n;
    proof {
        assert(tok@.take(n as int) =~= tok@);
    }
    while k > 0
        invariant
            k <= n,
            n == tok@.len(),
            spec_last_quote(tok@) == spec_last_quote(tok@.take(k as int)),
        decreases k,
    {
        proof {
            assert(tok@.take(k as int).drop_last() =~= tok@.take(k as int - 1));
            assert(tok@.take(k as int).last() == tok@[k as int - 1]);
        }
        if tok[k - 1] == 39 {
            // k - 1 is the last quote
            if k == n {
                return 0;
            }
            let b = tok[k];
            let radix: usize = if b == 104 || b == 72 {
                16
            } else if b == 100 || b == 68 {
                10
            } else if b == 98 || b == 66 {
                2
            } else if b == 111 || b == 79 {
                8
            } else {
                10
            };
            let parsed = parse_radix(tok, k + 1, radix);
            return match parsed {
                Some(v) => v,
                None => 0,
            };
        }
        k -= 1;
    }
    proof {
        assert(tok@.take(0) =~= Seq::<u8>::empty());
    }
    0
}

fn plain_value(tok: &Vec<u8>) -> (r: usize)
    ensures
        r == spec_plain_value(tok@),
{
    proof {
        assert(tok@.skip(0) =~= tok@);
    }
    match parse_radix(tok, 0, 10) {
        Some(v) => v,
        None => 0,
    }
}

// ---------------------------------------------------------------------
// Expression translation
// ---------------------------------------------------------------------

/// The expression a factor compiles to: an identifier becomes a
/// variable read, a literal its constant value, and every unsupported
/// form the constant zero.
pub open spec fn spec_convert_factor(f: SrcFactor) -> Expr {
    match f {
        SrcFactor::Name(NameRef::Ident(s)) => Expr::Var(s),
        SrcFactor::Name(NameRef::Qualified) => Expr::Const(0),
        SrcFactor::Number(SrcNumber::Based(tok)) => Expr::Const(spec_based_value(tok@)),
        SrcFactor::Number(SrcNumber::Plain(tok)) => Expr::Const(spec_plain_value(tok@)),
        SrcFactor::Number(SrcNumber::Other) => Expr::Const(0),
        SrcFactor::Other => Expr::Const(0),
    }
}

fn convert_factor(f: &SrcFactor) -> (r: Expr)
    ensures
        r == spec_convert_factor(*f),
{
    match f {
        SrcFactor::Name(NameRef::Ident(s)) => Expr::Var(s.clone()),
        SrcFactor::Name(NameRef::Qualified) => Expr::Const(0),
        SrcFactor::Number(SrcNumber::Based(tok)) => Expr::Const(based_value(tok)),
        SrcFactor::Number(SrcNumber::Plain(tok)) => Expr::Const(plain_value(tok)),
        SrcFactor::Number(SrcNumber::Other) => Expr::Const(0),
        SrcFactor::Other => Expr::Const(0),
    }
}

/// Unary operators wrap the inner expression from the inside out: the
/// rightmost written operator applies first. A `~` becomes the toggle
/// node; any other unary operator is dropped.
pub open spec fn spec_apply_unaries(ops: Seq<SrcUnaryOp>, inner: Expr) -> Expr
    decreases ops.len(),
{
    if ops.len() == 0 {
        inner
    } else {
        let rest = spec_apply_unaries(ops.drop_first(), inner);
        match ops.first() {
            SrcUnaryOp::Toggle => Expr::Not(Box::new(rest)),
            SrcUnaryOp::Other => rest,
        }
    }
}

/// The expression a unary-operator stack over a factor compiles to.
pub open spec fn spec_convert_unary(u: SrcUnary) -> Expr {
    spec_apply_unaries(u.ops@, spec_convert_factor(u.factor))
}

fn convert_unary(u: &SrcUnary) -> (r: Expr)
    ensures
        r == spec_convert_unary(*u),
{
    let mut result = convert_factor(&u.factor);
    let n = u.ops.len();
    let mut i = n;
    proof {
        assert(u.ops@.skip(n as int) =~= Seq::<SrcUnaryOp>::empty());
    }
    while i > 0
        invariant
            i <= n,
            n == u.ops@.len(),
            result == spec_apply_unaries(u.ops@.skip(i as int), spec_convert_factor(u.factor)),
        decreases i,
    {
        i -= 1;
        proof {
            assert(u.ops@.skip(i as int).first() == u.ops@[i as int]);
            assert(u.ops@.skip(i as int).drop_first() =~= u.ops@.skip(i as int + 1));
        }
        match u.ops[i] {
            SrcUnaryOp::Toggle => {
                result = Expr::Not(Box::new(result));
            },
            SrcUnaryOp::Other => {},
        }
    }
    proof {
        assert(u.ops@.skip(0) =~= u.ops@);
    }
    result
}

/// Trailing multiplicative operations fold onto the first operand from
/// the left: `*` multiplies, `/` divides, and any other operator is
/// dropped together with its right operand.
pub open spec fn spec_fold_term_ops(acc: Expr, rest: Seq<SrcTermOp>) -> Expr
    decreases rest.len(),
{
    if rest.len() == 0 {
        acc
    } else {
        let prev = spec_fold_term_ops(acc, rest.drop_last());
        let rhs = spec_convert_unary(rest.last().operand);
        match rest.last().op {
            SrcMulOp::Times => Expr::Mul(Box::new(prev), Box::new(rhs)),
            SrcMulOp::Divide => Expr::Div(Box::new(prev), Box::new(rhs)),
            SrcMulOp::Other => prev,
        }
    }
}

/// The expression a term compiles to.
pub open spec fn spec_convert_term(t: SrcTerm) -> Expr {
    spec_fold_term_ops(spec_convert_unary(t.first), t.rest@)
}

fn convert_term(t: &SrcTerm) -> (r: Expr)
    ensures
        r == spec_convert_term(*t),
{
    let mut result = convert_unary(&t.first);
    let n = t.rest.len();
    let mut i: usize = 0;
    proof {
        assert(t.rest@.take(0) =~= Seq::<SrcTermOp>::empty());
    }
    while i < n
        invariant
            i <= n,
            n == t.rest@.len(),
            result == spec_fold_term_ops(spec_convert_unary(t.first), t.rest@.take(i as int)),
        decreases n - i,
    {
        proof {
            assert(t.rest@.take(i as int + 1).drop_last() =~= t.rest@.take(i as int));
            assert(t.rest@.take(i as int + 1).last() == t.rest@[i as int]);
        }
        let rhs = convert_unary(&t.rest[i].operand);
        match t.rest[i].op {
            SrcMulOp::Times => {
                result = Expr::Mul(Box::new(result), Box::new(rhs));
            },
            SrcMulOp::Divide => {
                result = Expr::Div(Box::new(result), Box::new(rhs));
            },
            SrcMulOp::Other => {},
        }
        i += 1;
    }
    proof {
        assert(t.rest@.take(n as int) =~= t.rest@);
    }
    result
}

/// Trailing additive operations fold onto the first operand from the
/// left: `+` adds, `-` subtracts, and any other operator is dropped
/// together with its right operand.
pub open spec fn spec_fold_expr_ops(acc: Expr, rest: Seq<SrcExprOp>) -> Expr
    decreases rest.len(),
{
    if rest.len() == 0 {
        acc
    } else {
        let prev = spec_fold_expr_ops(acc, rest.drop_last());
        let rhs = spec_convert_term(rest.last().term);
        match rest.last().op {
            SrcAddOp::Plus => Expr::Add(Box::new(prev), Box::new(rhs)),
            SrcAddOp::Minus => Expr::Sub(Box::new(prev), Box::new(rhs)),
            SrcAddOp::Other => prev,
        }
    }
}

/// The expression a source expression compiles to, descending the
/// precedence levels: addition and subtraction over terms, terms over
/// unary-wrapped factors.
pub open spec fn spec_convert_expr(e: SrcExpr) -> Expr {
    spec_fold_expr_ops(spec_convert_term(e.first), e.rest@)
}

/// Compiles one source expression into the expression IR.
pub fn convert_expr(e: &SrcExpr) -> (r: Expr)
    ensures
        r == spec_convert_expr(*e),
{
    let mut result = convert_term(&e.first);
    let n = e.rest.len();
    let mut i: usize = 0;
    proof {
        assert(e.rest@.take(0) =~= Seq::<SrcExprOp>::empty());
    }
    while i < n
        invariant
            i <= n,
            n == e.rest@.len(),
            result == spec_fold_expr_ops(spec_convert_term(e.first), e.rest@.take(i as int)),
        decreases n - i,
    {
        proof {
            assert(e.rest@.take(i as int + 1).drop_last() =~= e.rest@.take(i as int));
            assert(e.rest@.take(i as int + 1).last() == e.rest@[i as int]);
        }
        let rhs = convert_term(&e.rest[i].term);
        match e.rest[i].op {
            SrcAddOp::Plus => {
                result = Expr::Add(Box::new(result), Box::new(rhs));
            },
            SrcAddOp::Minus => {
                result = Expr::Sub(Box::new(result), Box::new(rhs));
            },
            SrcAddOp::Other => {},
        }
        i += 1;
    }
    proof {
        assert(e.rest@.take(n as int) =~= e.rest@);
    }
    result
}

// ---------------------------------------------------------------------
// Statement extraction
// ---------------------------------------------------------------------

/// The assignment one block statement yields: an identifier statement
/// with a plain target carrying an assignment; any other shape yields
/// nothing and is skipped without a diagnostic.
pub open spec fn spec_extract_statement(st: BlockStatement) -> Option<Assignment> {
    match st {
        BlockStatement::Assign { target: NameRef::Ident(name), value } => Some(
            Assignment { target: name, expression: spec_convert_expr(value) },
        ),
        BlockStatement::Assign { target: NameRef::Qualified, .. } => None,
        BlockStatement::Other => None,
    }
}

/// The first assignment-shaped statement of a statement list, if any;
/// further assignments in the same block are not taken.
pub open spec fn spec_first_assignment(sts: Seq<BlockStatement>) -> Option<Assignment>
    decreases sts.len(),
{
    if sts.len() == 0 {
        None
    } else {
        match spec_extract_statement(sts.first()) {
            Some(a) => Some(a),
            None => spec_first_assignment(sts.drop_first()),
        }
    }
}

/// The reset branch of an if-reset statement: from each of its blocks,
/// the first assignment-shaped statement.
pub open spec fn spec_reset_branch(blocks: Seq<StatementBlock>) -> Seq<Assignment>
    decreases blocks.len(),
{
    if blocks.len() == 0 {
        Seq::empty()
    } else {
        spec_reset_branch(blocks.drop_last()) + (match spec_first_assignment(
            blocks.last().statements@,
        ) {
            Some(a) => seq![a],
            None => Seq::empty(),
        })
    }
}

/// The clock branch of an if-reset statement: every assignment-shaped
/// statement of the else block, in order.
pub open spec fn spec_clock_branch(sts: Seq<BlockStatement>) -> Seq<Assignment>
    decreases sts.len(),
{
    if sts.len() == 0 {
        Seq::empty()
    } else {
        spec_clock_branch(sts.drop_last()) + (match spec_extract_statement(sts.last()) {
            Some(a) => seq![a],
            None => Seq::empty(),
        })
    }
}

/// The reset assignments one clocked process collects, over all of its
/// if-reset statements in order.
pub open spec fn spec_process_resets(body: Seq<ProcessStatement>) -> Seq<Assignment>
    decreases body.len(),
{
    if body.len() == 0 {
        Seq::empty()
    } else {
        spec_process_resets(body.drop_last()) + (match body.last() {
            ProcessStatement::IfReset { reset_blocks, .. } => spec_reset_branch(reset_blocks@),
            ProcessStatement::Other => Seq::empty(),
        })
    }
}

/// The clock assignments one clocked process collects, over all of its
/// if-reset statements' else blocks in order.
pub open spec fn spec_process_clocks(body: Seq<ProcessStatement>) -> Seq<Assignment>
    decreases body.len(),
{
    if body.len() == 0 {
        Seq::empty()
    } else {
        spec_process_clocks(body.drop_last()) + (match body.last() {
            ProcessStatement::IfReset { else_block: Some(b), .. } => spec_clock_branch(
                b.statements@,
            ),
            ProcessStatement::IfReset { else_block: None, .. } => Seq::empty(),
            ProcessStatement::Other => Seq::empty(),
        })
    }
}

/// The continuous assignments of the module body, in source order;
/// qualified targets and unsupported items are skipped.
pub open spec fn spec_comb_items(items: Seq<ModuleItem>) -> Seq<Assignment>
    decreases items.len(),
{
    if items.len() == 0 {
        Seq::empty()
    } else {
        spec_comb_items(items.drop_last()) + (match items.last() {
            ModuleItem::ContinuousAssign { target: NameRef::Ident(name), value } => seq![
                Assignment { target: name, expression: spec_convert_expr(value) },
            ],
            ModuleItem::ContinuousAssign { target: NameRef::Qualified, .. } => Seq::empty(),
            ModuleItem::ClockedProcess { .. } => Seq::empty(),
            ModuleItem::Other => Seq::empty(),
        })
    }
}

/// The (reset, clock) assignment-list pairs of the clocked processes,
/// in source order. Every clocked process yields one pair, empty or
/// not.
pub open spec fn spec_seq_items(items: Seq<ModuleItem>) -> Seq<(Seq<Assignment>, Seq<Assignment>)>
    decreases items.len(),
{
    if items.len() == 0 {
        Seq::empty()
    } else {
        spec_seq_items(items.drop_last()) + (match items.last() {
            ModuleItem::ClockedProcess { body } => seq![
                (spec_process_resets(body@), spec_process_clocks(body@)),
            ],
            ModuleItem::ContinuousAssign { .. } => Seq::empty(),
            ModuleItem::Other => Seq::empty(),
        })
    }
}

fn extract_statement(st: &BlockStatement) -> (r: Option<Assignment>)
    ensures
        r == spec_extract_statement(*st),
{
    match st {
        BlockStatement::Assign { target: NameRef::Ident(name), value } => Some(
            Assignment { target: name.clone(), expression: convert_expr(value) },
        ),
        BlockStatement::Assign { target: NameRef::Qualified, .. } => None,
        BlockStatement::Other => None,
    }
}

fn first_assignment(blk: &StatementBlock) -> (r: Option<Assignment>)
    ensures
        r == spec_first_assignment(blk.statements@),
{
    let n = blk.statements.len();
    let mut i: usize = 0;
    proof {
        assert(blk.statements@.skip(0) =~= blk.statements@);
    }
    while i < n
        invariant
            i <= n,
            n == blk.statements@.len(),
            spec_first_assignment(blk.statements@) == spec_first_assignment(
                blk.statements@.skip(i as int),
            ),
        decreases n - i,
    {
        proof {
            assert(blk.statements@.skip(i as int).first() == blk.statements@[i as int]);
            assert(blk.statements@.skip(i as int).drop_first() =~= blk.statements@.skip(
                i as int + 1,
            ));
        }
        let r = extract_statement(&blk.statements[i]);
        if r.is_some() {
            return r;
        }
        i += 1;
    }
    proof {
        assert(blk.statements@.skip(n as int) =~= Seq::<BlockStatement>::empty());
    }
    None
}

/// Collects one clocked process into a sequential block: per if-reset
/// statement, the reset branch's first assignment per block and the
/// else block's assignments.
fn collect_process(body: &Vec<ProcessStatement>) -> (blk: SequentialBlock)
    ensures
        blk.reset_assignments@ == spec_process_resets(body@),
        blk.clock_assignments@ == spec_process_clocks(body@),
{
    let mut reset_assignments: Vec<Assignment> = Vec::new();
    let mut clock_assignments: Vec<Assignment> = Vec::new();
    let n = body.len();
    let mut i: usize = 0;
    proof {
        assert(body@.take(0) =~= Seq::<ProcessStatement>::empty());
    }
    while i < n
        invariant
            i <= n,
            n == body@.len(),
            reset_assignments@ == spec_process_resets(body@.take(i as int)),
            clock_assignments@ == spec_process_clocks(body@.take(i as int)),
        decreases n - i,
    {
        let ghost done_r = reset_assignments@;
        let ghost done_c = clock_assignments@;
        match &body[i] {
            ProcessStatement::IfReset { reset_blocks, else_block } => {
                let nb = reset_blocks.len();
                let mut j: usize = 0;
                proof {
                    assert(reset_blocks@.take(0) =~= Seq::<StatementBlock>::empty());
                    assert(done_r + spec_reset_branch(reset_blocks@.take(0)) =~= done_r);
                }
                while j < nb
                    invariant
                        j <= nb,
                        nb == reset_blocks@.len(),
                        reset_assignments@ == done_r + spec_reset_branch(
                            reset_blocks@.take(j as int),
                        ),
                    decreases nb - j,
                {
                    proof {
                        assert(reset_blocks@.take(j as int + 1).drop_last() =~= reset_blocks@.take(
                            j as int,
                        ));
                        assert(reset_blocks@.take(j as int + 1).last() == reset_blocks@[j as int]);
                    }
                    match first_assignment(&reset_blocks[j]) {
                        Some(a) => {
                            reset_assignments.push(a);
                        },
                        None => {},
                    }
                    proof {
                        assert(reset_assignments@ =~= done_r + spec_reset_branch(
                            reset_blocks@.take(j as int + 1),
                        ));
                    }
                    j += 1;
                }
                proof {
                    assert(reset_blocks@.take(nb as int) =~= reset_blocks@);
                }
                match else_block {
                    Some(b) => {
                        let ns = b.statements.len();
                        let mut k: usize = 0;
                        proof {
                            assert(b.statements@.take(0) =~= Seq::<BlockStatement>::empty());
                            assert(done_c + spec_clock_branch(b.statements@.take(0)) =~= done_c);
                        }
                        while k < ns
                            invariant
                                k <= ns,
                                ns == b.statements@.len(),
                                clock_assignments@ == done_c + spec_clock_branch(
                                    b.statements@.take(k as int),
                                ),
                            decreases ns - k,
                        {
                            proof {
                                assert(b.statements@.take(k as int + 1).drop_last()
                                    =~= b.statements@.take(k as int));
                                assert(b.statements@.take(k as int + 1).last()
                                    == b.statements@[k as int]);
                            }
                            match extract_statement(&b.statements[k]) {
                                Some(a) => {
                                    clock_assignments.push(a);
                                },
                                None => {},
                            }
                            proof {
                                assert(clock_assignments@ =~= done_c + spec_clock_branch(
                                    b.statements@.take(k as int + 1),
                                ));
                            }
                            k += 1;
                        }
                        proof {
                            assert(b.statements@.take(ns as int) =~= b.statements@);
                        }
                    },
                    None => {},
                }
            },
            ProcessStatement::Other => {},
        }
        proof {
            assert(body@.take(i as int + 1).drop_last() =~= body@.take(i as int));
            assert(body@.take(i as int + 1).last() == body@[i as int]);
            assert(reset_assignments@ =~= spec_process_resets(body@.take(i as int + 1)));
            assert(clock_assignments@ =~= spec_process_clocks(body@.take(i as int + 1)));
        }
        i += 1;
    }
    proof {
        assert(body@.take(n as int) =~= body@);
    }
    SequentialBlock { reset_assignments, clock_assignments }
}

// ---------------------------------------------------------------------
// Port classification and model construction
// ---------------------------------------------------------------------

/// How a port list splits into the model's categories.
pub struct PortSplit {
    pub inputs: Map<Seq<char>, usize>,
    pub outputs: Map<Seq<char>, usize>,
    pub clocks: Seq<String>,
    pub resets: Seq<String>,
}

/// Splits the ports in order: an input port takes its caller-supplied
/// initial value (zero if the caller gave none) and, if its type marks
/// it as a clock or reset, is remembered by name; an output port starts
/// at zero. A port with an unsupported direction, or whose name some
/// earlier port already claimed, is skipped, keeping the categories
/// disjoint.
pub open spec fn spec_split_ports(ports: Seq<Port>, init: Map<Seq<char>, usize>) -> PortSplit
    decreases ports.len(),
{
    if ports.len() == 0 {
        PortSplit {
            inputs: Map::empty(),
            outputs: Map::empty(),
            clocks: Seq::empty(),
            resets: Seq::empty(),
        }
    } else {
        let acc = spec_split_ports(ports.drop_last(), init);
        let p = ports.last();
        if acc.inputs.contains_key(p.name@) || acc.outputs.contains_key(p.name@) {
            acc
        } else {
            match p.direction {
                PortDirection::Input => {
                    let v = if init.contains_key(p.name@) {
                        init[p.name@]
                    } else {
                        0
                    };
                    PortSplit {
                        inputs: acc.inputs.insert(p.name@, v),
                        outputs: acc.outputs,
                        clocks: if p.class is Clock {
                            acc.clocks.push(p.name)
                        } else {
                            acc.clocks
                        },
                        resets: if p.class is Reset {
                            acc.resets.push(p.name)
                        } else {
                            acc.resets
                        },
                    }
                },
                PortDirection::Output => PortSplit {
                    outputs: acc.outputs.insert(p.name@, 0),
                    ..acc
                },
                PortDirection::Other => acc,
            }
        }
    }
}

/// The split's input and output name sets never overlap: the model's
/// category invariant holds from construction on.
pub proof fn lemma_split_ports_disjoint(ports: Seq<Port>, init: Map<Seq<char>, usize>)
    ensures
        spec_split_ports(ports, init).inputs.dom().disjoint(
            spec_split_ports(ports, init).outputs.dom(),
        ),
    decreases ports.len(),
{
    if ports.len() == 0 {
        assert forall|k: Seq<char>| !(spec_split_ports(ports, init).inputs.dom().contains(k)
            && spec_split_ports(ports, init).outputs.dom().contains(k)) by {}
    } else {
        lemma_split_ports_disjoint(ports.drop_last(), init);
        let acc = spec_split_ports(ports.drop_last(), init);
        let r = spec_split_ports(ports, init);
        assert forall|k: Seq<char>| !(r.inputs.dom().contains(k) && r.outputs.dom().contains(
            k,
        )) by {
            assert(!(acc.inputs.dom().contains(k) && acc.outputs.dom().contains(k)));
        }
    }
}

impl Model {
    /// Compiles a resolved module into an evaluation model: ports are
    /// classified into inputs (with their caller-supplied initial
    /// values) and outputs, continuous assignments and clocked
    /// processes are collected into the intermediate representation,
    /// and one combinational pass runs so the fresh model already
    /// reflects its initial inputs. Internal signals start empty: the
    /// front end registers none.
    pub fn new(module: &SourceModule, init: &SignalStore) -> (model: Model)
        requires
            init.wf(),
        ensures
            model.wf(),
            model.module_name@ == module.name@,
            model.clocks@ == spec_split_ports(module.ports@, init@).clocks,
            model.resets@ == spec_split_ports(module.ports@, init@).resets,
            model.combinational@ == spec_comb_items(module.items@),
            model.sequential@.map_values(
                |b: SequentialBlock| (b.reset_assignments@, b.clock_assignments@),
            ) == spec_seq_items(module.items@),
            model.is_reset == false,
            model.state() == spec_comb_pass(
                SignalState {
                    inputs: spec_split_ports(module.ports@, init@).inputs,
                    outputs: spec_split_ports(module.ports@, init@).outputs,
                    internals: Map::empty(),
                },
                spec_comb_items(module.items@),
            ),
    {
        let ghost f = |b: SequentialBlock| (b.reset_assignments@, b.clock_assignments@);
        let mut inputs = SignalStore::new();
        let mut outputs = SignalStore::new();
        let mut clocks: Vec<String> = Vec::new();
        let mut resets: Vec<String> = Vec::new();
        let np = module.ports.len();
        let mut i: usize = 0;
        proof {
            assert(module.ports@.take(0) =~= Seq::<Port>::empty());
        }
        while i < np
            invariant
                i <= np,
                np == module.ports@.len(),
                init.wf(),
                inputs.wf(),
                outputs.wf(),
                inputs@ == spec_split_ports(module.ports@.take(i as int), init@).inputs,
                outputs@ == spec_split_ports(module.ports@.take(i as int), init@).outputs,
                clocks@ == spec_split_ports(module.ports@.take(i as int), init@).clocks,
                resets@ == spec_split_ports(module.ports@.take(i as int), init@).resets,
            decreases np - i,
        {
            proof {
                assert(module.ports@.take(i as int + 1).drop_last() =~= module.ports@.take(
                    i as int,
                ));
                assert(module.ports@.take(i as int + 1).last() == module.ports@[i as int]);
            }
            let p = &module.ports[i];
            let known = inputs.contains(p.name.as_str()) || outputs.contains(p.name.as_str());
            if !known {
                match p.direction {
                    PortDirection::Input => {
                        let v = match init.get(p.name.as_str()) {
                            Some(v) => v,
                            None => 0,
                        };
                        inputs.set(p.name.as_str(), v);
                        match p.class {
                            PortClass::Clock => clocks.push(p.name.clone()),
                            PortClass::Reset => resets.push(p.name.clone()),
                            PortClass::Plain => {},
                        }
                    },
                    PortDirection::Output => {
                        outputs.set(p.name.as_str(), 0);
                    },
                    PortDirection::Other => {},
                }
            }
            i += 1;
        }
        proof {
            assert(module.ports@.take(np as int) =~= module.ports@);
        }
        let mut combinational: Vec<Assignment> = Vec::new();
        let mut sequential: Vec<SequentialBlock> = Vec::new();
        let ni = module.items.len();
        let mut i: usize = 0;
        proof {
            assert(module.items@.take(0) =~= Seq::<ModuleItem>::empty());
            assert(sequential@.map_values(f) =~= Seq::<(Seq<Assignment>, Seq<Assignment>)>::empty());
        }
        while i < ni
            invariant
                i <= ni,
                ni == module.items@.len(),
                combinational@ == spec_comb_items(module.items@.take(i as int)),
                sequential@.map_values(f) == spec_seq_items(module.items@.take(i as int)),
                f == (|b: SequentialBlock| (b.reset_assignments@, b.clock_assignments@)),
            decreases ni - i,
        {
            proof {
                assert(module.items@.take(i as int + 1).drop_last() =~= module.items@.take(
                    i as int,
                ));
                assert(module.items@.take(i as int + 1).last() == module.items@[i as int]);
            }
            let ghost prev_seq = sequential@;
            match &module.items[i] {
                ModuleItem::ContinuousAssign { target, value } => {
                    match target {
                        NameRef::Ident(name) => {
                            let expression = convert_expr(value);
                            combinational.push(Assignment { target: name.clone(), expression });
                        },
                        NameRef::Qualified => {},
                    }
                },
                ModuleItem::ClockedProcess { body } => {
                    let blk = collect_process(body);
                    sequential.push(blk);
                    proof {
                        assert(sequential@.map_values(f) =~= prev_seq.map_values(f).push(
                            f(sequential@.last()),
                        ));
                    }
                },
                ModuleItem::Other => {},
            }
            proof {
                assert(combinational@ =~= spec_comb_items(module.items@.take(i as int + 1)));
                assert(sequential@.map_values(f) =~= spec_seq_items(
                    module.items@.take(i as int + 1),
                ));
            }
            i += 1;
        }
        proof {
            assert(module.items@.take(ni as int) =~= module.items@);
        }
        let mut model = Model {
            module_name: module.name.clone(),
            clocks,
            resets,
            inputs,
            outputs,
            internals: SignalStore::new(),
            combinational,
            sequential,
            is_reset: false,
        };
        proof {
            lemma_split_ports_disjoint(module.ports@, init@);
            assert(model.inputs@.dom().disjoint(model.internals@.dom()));
            assert(model.outputs@.dom().disjoint(model.internals@.dom()));
        }
        model.evaluate_combinational();
        model
    }
}

} // verus!
