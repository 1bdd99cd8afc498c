// The part of a process body's syntax that scheduling looks at.
//
// Expressions and statements as the parser hands them over, reduced to what
// the walks here read: which names appear, and where a blocking `@rcv` or
// `@send` sits.

use vstd::prelude::*;
use crate::diag::Span;
use crate::ir_match::MatchCase;
use crate::ty::Ty;

verus! {

/// The builtins a call can name. Only the two blocking ones matter to a
/// schedule; the rest are told apart by their spelling.
#[derive(Debug, Clone, PartialEq, Eq)]
pub enum Builtin {
    /// `@rcv(pipe)`: waits for an item.
    BlockingReceive,
    /// `@send(pipe, value)`: waits for room.
    BlockingSend,
    /// Any other builtin, by name.
    Other(String),
}

/// An expression.
#[derive(Debug)]
pub enum Expr {
    /// A name.
    Ref(String),
    /// An integer literal.
    Literal(u128),
    /// A builtin, as the head of a call.
    Builtin(Builtin),
    /// `base(args..)`.
    Call { base: Box<Expr>, args: Vec<Expr> },
    /// `base.field`.
    Field { base: Box<Expr>, field: String },
    /// `base[index]`.
    Index { base: Box<Expr>, index: Box<Expr> },
    /// `{a, b, c}`.
    Splice(Vec<Expr>),
    /// An indented block of statements used as a value.
    Block(Vec<Stmt>),
}

/// A statement of a process body.
#[derive(Debug)]
pub enum Stmt {
    /// `let name = value`, `let (a, b) = value`, or a name alone; `var`
    /// when `mutable`.
    Let { names: Vec<String>, mutable: bool, value: Option<Expr> },
    /// A call in statement position.
    Call { base: Expr, args: Vec<Expr> },
    /// `target = value`.
    Assign { target: Expr, value: Expr },
    /// `if cond then .. else ..`.
    If { cond: Expr, then_arm: Expr, else_arm: Option<Expr> },
    /// `match scrutinees`: each case's patterns, and one expression per arm.
    Match { scrutinees: Vec<Expr>, cases: Vec<MatchCase>, arms: Vec<Expr> },
    /// The value a block ends with.
    Tail(Expr),
    /// A nested `loop`.
    Loop { body: Expr },
    /// `for binding in target` with a body.
    For { binding: String, target: Expr, body: Expr },
    /// `return`, with or without a value.
    Return(Option<Expr>),
    /// `break`.
    Break,
}

/// How a parameter is declared.
#[derive(Debug, Clone, Copy, PartialEq, Eq, Structural)]
pub enum Qualifier {
    /// A plain parameter.
    In,
    /// `out`.
    Out,
    /// `inout`.
    Inout,
    /// `buffer in`: a pipe read from.
    BufferIn,
    /// `buffer out`: a pipe written to.
    BufferOut,
    /// `wire in`: a bare signal read.
    WireIn,
    /// `wire out`: a bare signal driven.
    WireOut,
}

/// One declared parameter: its name, where the name stands, and how it is
/// declared.
#[derive(Debug)]
pub struct Param {
    pub name: String,
    pub span: Span,
    pub qualifier: Qualifier,
}

/// A call head that waits: `@rcv` or `@send`.
pub open spec fn blocking(e: Expr) -> bool {
    e matches Expr::Builtin(b) && (b is BlockingReceive || b is BlockingSend)
}

/// Whether an expression holds a blocking call anywhere inside it.
pub open spec fn expr_blocks(e: Expr) -> bool
    decreases e, 0nat,
{
    match e {
        Expr::Call { base, args } => blocking(*base) || exprs_block(args@, 0),
        Expr::Block(stmts) => stmts_block(stmts@, 0),
        Expr::Field { base, .. } => expr_blocks(*base),
        Expr::Index { base, index } => expr_blocks(*base) || expr_blocks(*index),
        Expr::Splice(parts) => exprs_block(parts@, 0),
        _ => false,
    }
}

/// Whether one of `es`, from `i` on, holds a blocking call.
pub open spec fn exprs_block(es: Seq<Expr>, i: int) -> bool
    decreases es, es.len() - i,
{
    if 0 <= i < es.len() {
        expr_blocks(es[i]) || exprs_block(es, i + 1)
    } else {
        false
    }
}

/// Whether one of `ss`, from `i` on, holds a blocking call.
pub open spec fn stmts_block(ss: Seq<Stmt>, i: int) -> bool
    decreases ss, ss.len() - i,
{
    if 0 <= i < ss.len() {
        stmt_blocks(ss[i]) || stmts_block(ss, i + 1)
    } else {
        false
    }
}

/// Whether a statement holds a blocking call anywhere inside it.
pub open spec fn stmt_blocks(s: Stmt) -> bool
    decreases s, 0nat,
{
    match s {
        Stmt::Let { value, .. } => match value {
            Some(e) => expr_blocks(e),
            None => false,
        },
        Stmt::Call { base, args } => blocking(base) || exprs_block(args@, 0),
        Stmt::Assign { value, .. } => expr_blocks(value),
        Stmt::If { cond, then_arm, else_arm } => expr_blocks(cond) || expr_blocks(then_arm) || match else_arm {
            Some(e) => expr_blocks(e),
            None => false,
        },
        Stmt::Match { scrutinees, arms, .. } => exprs_block(scrutinees@, 0) || exprs_block(arms@, 0),
        Stmt::Tail(e) => expr_blocks(e),
        Stmt::Loop { body } => expr_blocks(body),
        Stmt::For { target, body, .. } => expr_blocks(target) || expr_blocks(body),
        Stmt::Return(value) => match value {
            Some(e) => expr_blocks(e),
            None => false,
        },
        Stmt::Break => false,
    }
}

/// Whether name `x` is read somewhere in an expression.
pub open spec fn expr_reads(e: Expr, x: Seq<char>) -> bool
    decreases e, 0nat,
{
    match e {
        Expr::Ref(n) => n@ == x,
        Expr::Call { base, args } => expr_reads(*base, x) || exprs_read(args@, 0, x),
        Expr::Field { base, .. } => expr_reads(*base, x),
        Expr::Index { base, index } => expr_reads(*base, x) || expr_reads(*index, x),
        Expr::Splice(parts) => exprs_read(parts@, 0, x),
        Expr::Block(stmts) => stmts_read(stmts@, 0, x),
        _ => false,
    }
}

/// Whether name `x` is read in one of `es`, from `i` on.
pub open spec fn exprs_read(es: Seq<Expr>, i: int, x: Seq<char>) -> bool
    decreases es, es.len() - i,
{
    if 0 <= i < es.len() {
        expr_reads(es[i], x) || exprs_read(es, i + 1, x)
    } else {
        false
    }
}

/// Whether name `x` is read in one of `ss`, from `i` on.
pub open spec fn stmts_read(ss: Seq<Stmt>, i: int, x: Seq<char>) -> bool
    decreases ss, ss.len() - i,
{
    if 0 <= i < ss.len() {
        stmt_reads(ss[i], x) || stmts_read(ss, i + 1, x)
    } else {
        false
    }
}

/// Whether name `x` is read somewhere in a statement. An assignment's target
/// counts: the base of `m[i] = v` is named there.
pub open spec fn stmt_reads(s: Stmt, x: Seq<char>) -> bool
    decreases s, 0nat,
{
    match s {
        Stmt::Let { value, .. } => match value {
            Some(e) => expr_reads(e, x),
            None => false,
        },
        Stmt::Call { args, .. } => exprs_read(args@, 0, x),
        Stmt::Assign { target, value } => expr_reads(value, x) || expr_reads(target, x),
        Stmt::If { cond, then_arm, else_arm } => expr_reads(cond, x) || expr_reads(then_arm, x) || match else_arm {
            Some(e) => expr_reads(e, x),
            None => false,
        },
        Stmt::Match { scrutinees, arms, .. } => exprs_read(scrutinees@, 0, x) || exprs_read(arms@, 0, x),
        Stmt::Tail(e) => expr_reads(e, x),
        Stmt::Loop { body } => expr_reads(body, x),
        Stmt::For { target, body, .. } => expr_reads(target, x) || expr_reads(body, x),
        Stmt::Return(value) => match value {
            Some(e) => expr_reads(e, x),
            None => false,
        },
        Stmt::Break => false,
    }
}



/// `c` is one of the expressions `e` is built from: a call's head or one of
/// its arguments, the base of a field access, the base or the index of an
/// index, one part of a splice.
pub open spec fn expr_part(e: Expr, c: Expr) -> bool {
    match e {
        Expr::Call { base, args } => c == *base || args@.contains(c),
        Expr::Field { base, .. } => c == *base,
        Expr::Index { base, index } => c == *base || c == *index,
        Expr::Splice(parts) => parts@.contains(c),
        _ => false,
    }
}

/// `c` is one of the expressions statement `s` holds.
pub open spec fn stmt_part(s: Stmt, c: Expr) -> bool {
    match s {
        Stmt::Let { value, .. } => value == Some(c),
        Stmt::Call { args, .. } => args@.contains(c),
        Stmt::Assign { target, value } => c == target || c == value,
        Stmt::If { cond, then_arm, else_arm } => c == cond || c == then_arm || else_arm == Some(c),
        Stmt::Match { scrutinees, arms, .. } => scrutinees@.contains(c) || arms@.contains(c),
        Stmt::Tail(e) => c == e,
        Stmt::Loop { body } => c == body,
        Stmt::For { target, body, .. } => c == target || c == body,
        Stmt::Return(value) => value == Some(c),
        Stmt::Break => false,
    }
}

proof fn lemma_exprs_read_from(es: Seq<Expr>, i: int, k: int, x: Seq<char>)
    requires
        0 <= i <= k < es.len(),
        expr_reads(es[k], x),
    ensures
        exprs_read(es, i, x),
    decreases k - i,
{
    if i < k {
        lemma_exprs_read_from(es, i + 1, k, x);
    }
}

proof fn lemma_stmts_read_from(ss: Seq<Stmt>, i: int, k: int, x: Seq<char>)
    requires
        0 <= i <= k < ss.len(),
        stmt_reads(ss[k], x),
    ensures
        stmts_read(ss, i, x),
    decreases k - i,
{
    if i < k {
        lemma_stmts_read_from(ss, i + 1, k, x);
    }
}

proof fn lemma_exprs_read_contains(es: Seq<Expr>, c: Expr, x: Seq<char>)
    requires
        es.contains(c),
        expr_reads(c, x),
    ensures
        exprs_read(es, 0, x),
{
    let k = choose|k: int| 0 <= k < es.len() && es[k] == c;
    lemma_exprs_read_from(es, 0, k, x);
}

/// A name is read where it is written.
pub proof fn law_a_name_reads_itself(n: String)
    ensures
        expr_reads(Expr::Ref(n), n@),
{
}

/// An expression reads every name its parts read: the head and arguments of
/// a call, the base of a field access, the base and index of an index, the
/// parts of a splice.
pub proof fn law_an_expression_reads_what_its_parts_read(e: Expr, c: Expr, x: Seq<char>)
    requires
        expr_part(e, c),
        expr_reads(c, x),
    ensures
        expr_reads(e, x),
{
    match e {
        Expr::Call { base, args } => {
            if c != *base {
                lemma_exprs_read_contains(args@, c, x);
            }
        },
        Expr::Splice(parts) => {
            lemma_exprs_read_contains(parts@, c, x);
        },
        _ => {},
    }
}

/// A statement reads every name the expressions it holds read.
pub proof fn law_a_statement_reads_what_its_expressions_read(s: Stmt, c: Expr, x: Seq<char>)
    requires
        stmt_part(s, c),
        expr_reads(c, x),
    ensures
        stmt_reads(s, x),
{
    match s {
        Stmt::Call { args, .. } => {
            lemma_exprs_read_contains(args@, c, x);
        },
        Stmt::Match { scrutinees, arms, .. } => {
            if scrutinees@.contains(c) {
                lemma_exprs_read_contains(scrutinees@, c, x);
            } else {
                lemma_exprs_read_contains(arms@, c, x);
            }
        },
        _ => {},
    }
}

/// A block reads every name one of its statements reads.
pub proof fn law_a_block_reads_what_its_statements_read(ss: Vec<Stmt>, k: int, x: Seq<char>)
    requires
        0 <= k < ss@.len(),
        stmt_reads(ss@[k], x),
    ensures
        expr_reads(Expr::Block(ss), x),
{
    lemma_stmts_read_from(ss@, 0, k, x);
}

/// One statement of a graph body.
#[derive(Debug)]
pub enum GraphStmt {
    /// `let name: buffer T`: a pipe between two instances.
    Pipe { name: String, span: Span },
    /// `module(args..)`: an instance of `module`, named where `span` is, with
    /// the pipes and wires it connects.
    Instance { module: String, span: Span, args: Vec<String> },
}

/// A graph parameter: its name, where the name stands, how it is declared,
/// and its type as the front end resolved it.
#[derive(Debug)]
pub struct GraphArg {
    pub name: String,
    pub span: Span,
    pub qualifier: Qualifier,
    pub ty: Ty,
}

/// A graph declaration: its name, its parameters and its body.
#[derive(Debug)]
pub struct GraphDecl {
    pub name: String,
    pub span: Span,
    pub args: Vec<GraphArg>,
    pub body: Vec<GraphStmt>,
}

} // verus!
