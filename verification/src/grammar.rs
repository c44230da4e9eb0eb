//! The grammar, written down as a mathematical model of the parser: one spec
//! function per grammar rule, each a function from the lexer's model to the
//! node produced and the model after the rule. The functions carry a fuel
//! parameter so that they are total; `fuel_at` gives a bound above which the
//! fuel never runs out (the exec parser proves that bound). Every exec method
//! of the parser is proved to follow its spec function exactly, at every
//! sufficient fuel.

use vstd::prelude::*;

use crate::ast::NodeModel;
use crate::lexer::{
    err_at, lemma_next_token_range, lex_eof, lex_measure, spec_get_token, spec_next_token,
    spec_peek, LexStep, LexerModel, TokenModel,
};
use crate::util::ErrorModel;

verus! {

// ===== Binary operators =====

/// The operator texts the grammar accepts in binary position.
pub open spec fn spec_is_binary_op(op: Seq<char>) -> bool {
    op == "="@ || op == "||"@ || op == "&&"@ || op == "<"@ || op == "<="@ || op == ">"@ || op
        == ">="@ || op == "=="@ || op == "!="@ || op == "+"@ || op == "-"@ || op == "*"@ || op
        == "/"@ || op == "%"@
}

/// Binding strength of a binary operator; higher binds tighter. Texts outside
/// the table get 0, below every real precedence.
pub open spec fn spec_precedence(op: Seq<char>) -> int {
    if op == "="@ {
        1
    } else if op == "||"@ {
        2
    } else if op == "&&"@ {
        3
    } else if op == "<"@ || op == "<="@ || op == ">"@ || op == ">="@ || op == "=="@ || op
        == "!="@ {
        4
    } else if op == "+"@ || op == "-"@ {
        5
    } else if op == "*"@ || op == "/"@ || op == "%"@ {
        6
    } else {
        0
    }
}

pub proof fn lemma_precedence_positive(op: Seq<char>)
    requires
        spec_is_binary_op(op),
    ensures
        1 <= spec_precedence(op) <= 6,
{
}

// ===== Parse results =====

/// Result of a fueled parse rule: out of fuel, or done with a node (or an
/// error) and the lexer model after the rule.
pub enum Step {
    OutOfFuel,
    Done(Result<NodeModel, ErrorModel>, LexerModel),
}

/// Like [`Step`], for the rules that produce a list of nodes.
pub enum StepVec {
    OutOfFuel,
    Done(Result<Seq<NodeModel>, ErrorModel>, LexerModel),
}

/// Which rule parses one element of a delimited list.
#[derive(Clone, Copy, Debug)]
pub enum ElemKind {
    Expression,
    VariableName,
}

/// Which rule runs under the invocation check: the expression body or the
/// atom body.
#[derive(Clone, Copy, Debug)]
pub enum InnerParse {
    ExprHelper,
    AtomHelper,
}

/// Fuel that suffices for a rule with headroom `k` at lexer state `l`: the
/// rules consume at most 16 levels of nesting per character of input.
pub open spec fn fuel_at(l: LexerModel, k: int) -> int {
    16 * lex_measure(l) + k
}

// ===== Token-level steps (no fuel needed) =====

/// Reading one token and requiring it to equal `expected`: a mismatch, like a
/// failure of the lexer itself, is reported at the lexer's position after the
/// read.
pub open spec fn spec_consume(expected: TokenModel, l: LexerModel) -> (Result<
    TokenModel,
    ErrorModel,
>, LexerModel) {
    let (r, l2) = spec_get_token(l);
    match r {
        Ok(t) => if t == expected {
            (Ok(t), l2)
        } else {
            (Err(err_at(l2.input, l2.pos)), l2)
        },
        Err(_) => (Err(err_at(l2.input, l2.pos)), l2),
    }
}

/// One token read and classified as a leaf node: a name, an integer, a float
/// or a string literal; anything else cannot begin an atom.
pub open spec fn sp_classify(l: LexerModel) -> (Result<NodeModel, ErrorModel>, LexerModel) {
    let (r, l2) = spec_get_token(l);
    match r {
        Err(e) => (Err(e), l2),
        Ok(t) => match t {
            TokenModel::Variable(name) => (Ok(NodeModel::Name(name)), l2),
            TokenModel::Integral(v) => (Ok(NodeModel::Integer(v)), l2),
            TokenModel::FloatingPoint(tx) => (Ok(NodeModel::Float(tx)), l2),
            TokenModel::StringLiteral(tx) => (Ok(NodeModel::StringLiteral(tx)), l2),
            _ => (Err(err_at(l2.input, l2.pos)), l2),
        },
    }
}

/// One token read and required to be a variable, as a `Name` node.
pub open spec fn sp_variable_name(l: LexerModel) -> (Result<NodeModel, ErrorModel>, LexerModel) {
    let (r, l2) = spec_get_token(l);
    match r {
        Err(e) => (Err(e), l2),
        Ok(t) => match t {
            TokenModel::Variable(name) => (Ok(NodeModel::Name(name)), l2),
            _ => (Err(err_at(l2.input, l2.pos)), l2),
        },
    }
}

/// One token read and required to be the keyword `true` or `false`.
pub open spec fn sp_bool(l: LexerModel) -> (Result<NodeModel, ErrorModel>, LexerModel) {
    let (r, l2) = spec_get_token(l);
    match r {
        Err(e) => (Err(e), l2),
        Ok(t) => match t {
            TokenModel::Keyword(kw) => if kw == "true"@ {
                (Ok(NodeModel::Boolean(true)), l2)
            } else if kw == "false"@ {
                (Ok(NodeModel::Boolean(false)), l2)
            } else {
                (Err(err_at(l2.input, l2.pos)), l2)
            },
            _ => (Err(err_at(l2.input, l2.pos)), l2),
        },
    }
}

// ===== The grammar rules =====

/// Top level: a `;`-separated run of expressions to end of input, as a
/// `Sequence`. A delimiter after the last expression is not required.
pub open spec fn sp_top_level(l: LexerModel, fuel: nat) -> Step
    decreases fuel,
{
    if fuel == 0 {
        Step::OutOfFuel
    } else {
        sp_top_rest(Seq::empty(), l, (fuel - 1) as nat)
    }
}

/// The top-level loop: expressions already parsed are in `acc`.
pub open spec fn sp_top_rest(acc: Seq<NodeModel>, l: LexerModel, fuel: nat) -> Step
    decreases fuel,
{
    if fuel == 0 {
        Step::OutOfFuel
    } else if lex_eof(l) {
        Step::Done(Ok(NodeModel::Sequence(acc)), l)
    } else {
        match sp_expression(l, (fuel - 1) as nat) {
            Step::OutOfFuel => Step::OutOfFuel,
            Step::Done(r, l2) => match r {
                Err(e) => Step::Done(Err(e), l2),
                Ok(n) => if lex_eof(l2) {
                    sp_top_rest(acc.push(n), l2, (fuel - 1) as nat)
                } else {
                    let (rc, l3) = spec_consume(TokenModel::Delimiter(';'), l2);
                    match rc {
                        Err(e) => Step::Done(Err(e), l3),
                        Ok(_) => sp_top_rest(acc.push(n), l3, (fuel - 1) as nat),
                    }
                },
            },
        }
    }
}

/// An expression: the expression body under the invocation check.
pub open spec fn sp_expression(l: LexerModel, fuel: nat) -> Step
    decreases fuel,
{
    if fuel == 0 {
        Step::OutOfFuel
    } else {
        sp_inv_or_expr(InnerParse::ExprHelper, l, (fuel - 1) as nat)
    }
}

/// An atom: the atom body under the invocation check.
pub open spec fn sp_atom(l: LexerModel, fuel: nat) -> Step
    decreases fuel,
{
    if fuel == 0 {
        Step::OutOfFuel
    } else {
        sp_inv_or_expr(InnerParse::AtomHelper, l, (fuel - 1) as nat)
    }
}

/// The invocation check: parse with the inner rule, then, if a `(` follows,
/// reinterpret the parsed node as the callee of an invocation whose arguments
/// are a parenthesized comma-separated expression list. The look-ahead runs
/// even when the inner rule failed, and a look-ahead failure wins.
pub open spec fn sp_inv_or_expr(k: InnerParse, l: LexerModel, fuel: nat) -> Step
    decreases fuel,
{
    if fuel == 0 {
        Step::OutOfFuel
    } else {
        let inner = match k {
            InnerParse::ExprHelper => sp_expression_helper(l, (fuel - 1) as nat),
            InnerParse::AtomHelper => sp_atom_helper(l, (fuel - 1) as nat),
        };
        match inner {
            Step::OutOfFuel => Step::OutOfFuel,
            Step::Done(res, l2) => {
                let (rp, l3) = spec_peek(l2);
                match rp {
                    Err(e) => Step::Done(Err(e), l3),
                    Ok(t) => if t == TokenModel::Delimiter('(') {
                        match res {
                            Err(e) => Step::Done(Err(e), l3),
                            Ok(n) => match sp_delimited(
                                '(',
                                ',',
                                ')',
                                ElemKind::Expression,
                                l3,
                                (fuel - 1) as nat,
                            ) {
                                StepVec::OutOfFuel => Step::OutOfFuel,
                                StepVec::Done(ra, l4) => match ra {
                                    Err(e) => Step::Done(Err(e), l4),
                                    Ok(args) => Step::Done(
                                        Ok(NodeModel::Invocation { func: Box::new(n), args }),
                                        l4,
                                    ),
                                },
                            },
                        }
                    } else {
                        Step::Done(res, l3)
                    },
                }
            },
        }
    }
}

/// The expression body: an atom, then precedence climbing from minimum 0.
pub open spec fn sp_expression_helper(l: LexerModel, fuel: nat) -> Step
    decreases fuel,
{
    if fuel == 0 {
        Step::OutOfFuel
    } else {
        match sp_atom(l, (fuel - 1) as nat) {
            Step::OutOfFuel => Step::OutOfFuel,
            Step::Done(r, l2) => match r {
                Err(e) => Step::Done(Err(e), l2),
                Ok(a) => sp_binary(a, 0, l2, (fuel - 1) as nat),
            },
        }
    }
}

/// The atom body, dispatching on the peeked token: a parenthesized
/// expression, a brace sequence, a keyword-led construct, or a leaf.
pub open spec fn sp_atom_helper(l: LexerModel, fuel: nat) -> Step
    decreases fuel,
{
    if fuel == 0 {
        Step::OutOfFuel
    } else {
        let (rp, l2) = spec_peek(l);
        match rp {
            Err(e) => Step::Done(Err(e), l2),
            Ok(t) => match t {
                TokenModel::Delimiter(d) => if d == '(' {
                    let (rc, l3) = spec_consume(TokenModel::Delimiter('('), l2);
                    match rc {
                        Err(e) => Step::Done(Err(e), l3),
                        Ok(_) => match sp_expression(l3, (fuel - 1) as nat) {
                            Step::OutOfFuel => Step::OutOfFuel,
                            Step::Done(re, l4) => {
                                let (rc2, l5) = spec_consume(TokenModel::Delimiter(')'), l4);
                                match rc2 {
                                    Err(e) => Step::Done(Err(e), l5),
                                    Ok(_) => Step::Done(re, l5),
                                }
                            },
                        },
                    }
                } else if d == '{' {
                    sp_sequence(l2, (fuel - 1) as nat)
                } else {
                    let (r, l3) = sp_classify(l2);
                    Step::Done(r, l3)
                },
                TokenModel::Keyword(kw) => if kw == "if"@ {
                    sp_conditional(l2, (fuel - 1) as nat)
                } else if kw == "true"@ || kw == "false"@ {
                    let (r, l3) = sp_bool(l2);
                    Step::Done(r, l3)
                } else if kw == "fn"@ {
                    sp_declaration(l2, (fuel - 1) as nat)
                } else {
                    Step::Done(Err(err_at(l2.input, l2.pos)), l2)
                },
                _ => {
                    let (r, l3) = sp_classify(l2);
                    Step::Done(r, l3)
                },
            },
        }
    }
}

/// Precedence climbing. With `lhs` parsed and `min_prec` accumulated: peek;
/// if no operator follows, or the operator's precedence is not strictly
/// greater than `min_prec`, `lhs` is returned unchanged and the operator, if
/// any, stays unconsumed (this gives left associativity at equal precedence).
/// Otherwise the operator is consumed, a fresh atom seeds the right-hand
/// side, the seed is climbed with the operator's precedence as the new
/// minimum, and the resulting `Binary` node continues climbing at the
/// original minimum. An operator text outside the precedence table is a
/// parse error, reported without consuming it.
pub open spec fn sp_binary(lhs: NodeModel, min_prec: int, l: LexerModel, fuel: nat) -> Step
    decreases fuel,
{
    if fuel == 0 {
        Step::OutOfFuel
    } else {
        let (rp, l2) = spec_peek(l);
        match rp {
            Err(e) => Step::Done(Err(e), l2),
            Ok(t) => match t {
                TokenModel::Operator(op) => if !spec_is_binary_op(op) {
                    Step::Done(Err(err_at(l2.input, l2.pos)), l2)
                } else if spec_precedence(op) > min_prec {
                    let (rg, l3) = spec_get_token(l2);
                    match rg {
                        Err(e) => Step::Done(Err(e), l3),
                        Ok(_) => match sp_atom(l3, (fuel - 1) as nat) {
                            Step::OutOfFuel => Step::OutOfFuel,
                            Step::Done(ra, l4) => match ra {
                                Err(e) => Step::Done(Err(e), l4),
                                Ok(a) => match sp_binary(
                                    a,
                                    spec_precedence(op),
                                    l4,
                                    (fuel - 1) as nat,
                                ) {
                                    Step::OutOfFuel => Step::OutOfFuel,
                                    Step::Done(rr, l5) => match rr {
                                        Err(e) => Step::Done(Err(e), l5),
                                        Ok(rhs) => sp_binary(
                                            NodeModel::Binary {
                                                op: TokenModel::Operator(op),
                                                lhs: Box::new(lhs),
                                                rhs: Box::new(rhs),
                                            },
                                            min_prec,
                                            l5,
                                            (fuel - 1) as nat,
                                        ),
                                    },
                                },
                            },
                        },
                    }
                } else {
                    Step::Done(Ok(lhs), l2)
                },
                _ => Step::Done(Ok(lhs), l2),
            },
        }
    }
}

/// A conditional: `if <cond> [then] <if-body> [else <else-body>]`. After the
/// condition, a keyword other than `then` is a parse error naming it, and so
/// is running out of input where the if-body should begin; any other token
/// lets the if-body start directly (so brace bodies need no `then`). An
/// absent else-branch leaves `else_body` empty.
pub open spec fn sp_conditional(l: LexerModel, fuel: nat) -> Step
    decreases fuel,
{
    if fuel == 0 {
        Step::OutOfFuel
    } else {
        let (rc, l2) = spec_consume(TokenModel::Keyword("if"@), l);
        match rc {
            Err(e) => Step::Done(Err(e), l2),
            Ok(_) => match sp_expression(l2, (fuel - 1) as nat) {
                Step::OutOfFuel => Step::OutOfFuel,
                Step::Done(rcond, l3) => match rcond {
                    Err(e) => Step::Done(Err(e), l3),
                    Ok(cond) => {
                        let (rp, l4) = spec_peek(l3);
                        match rp {
                            Err(e) => Step::Done(Err(e), l4),
                            Ok(t) => match t {
                                TokenModel::Keyword(kw) => if kw == "then"@ {
                                    let (rt, l5) = spec_consume(TokenModel::Keyword("then"@), l4);
                                    match rt {
                                        Err(e) => Step::Done(Err(e), l5),
                                        Ok(_) => sp_if_body(cond, l5, (fuel - 1) as nat),
                                    }
                                } else {
                                    Step::Done(Err(err_at(l4.input, l4.pos)), l4)
                                },
                                TokenModel::EOF => Step::Done(Err(err_at(l4.input, l4.pos)), l4),
                                _ => sp_if_body(cond, l4, (fuel - 1) as nat),
                            },
                        }
                    },
                },
            },
        }
    }
}

/// The body of a conditional after its condition (and `then`, if written):
/// the if-body expression, and an else-body exactly when the keyword `else`
/// follows.
pub open spec fn sp_if_body(cond: NodeModel, l: LexerModel, fuel: nat) -> Step
    decreases fuel,
{
    if fuel == 0 {
        Step::OutOfFuel
    } else {
        match sp_expression(l, (fuel - 1) as nat) {
            Step::OutOfFuel => Step::OutOfFuel,
            Step::Done(ri, l2) => match ri {
                Err(e) => Step::Done(Err(e), l2),
                Ok(ib) => {
                    let (rp, l3) = spec_peek(l2);
                    match rp {
                        Err(e) => Step::Done(Err(e), l3),
                        Ok(t) => if t == TokenModel::Keyword("else"@) {
                            let (rc, l4) = spec_consume(TokenModel::Keyword("else"@), l3);
                            match rc {
                                Err(e) => Step::Done(Err(e), l4),
                                Ok(_) => match sp_expression(l4, (fuel - 1) as nat) {
                                    Step::OutOfFuel => Step::OutOfFuel,
                                    Step::Done(re, l5) => match re {
                                        Err(e) => Step::Done(Err(e), l5),
                                        Ok(eb) => Step::Done(
                                            Ok(
                                                NodeModel::Conditional {
                                                    cond: Box::new(cond),
                                                    if_body: Box::new(ib),
                                                    else_body: Some(Box::new(eb)),
                                                },
                                            ),
                                            l5,
                                        ),
                                    },
                                },
                            }
                        } else {
                            Step::Done(
                                Ok(
                                    NodeModel::Conditional {
                                        cond: Box::new(cond),
                                        if_body: Box::new(ib),
                                        else_body: None,
                                    },
                                ),
                                l3,
                            )
                        },
                    }
                },
            },
        }
    }
}

/// A function declaration: `fn [name] ( arg, … ) { … }`. The name is a
/// variable token if one follows `fn`, else the function is anonymous.
pub open spec fn sp_declaration(l: LexerModel, fuel: nat) -> Step
    decreases fuel,
{
    if fuel == 0 {
        Step::OutOfFuel
    } else {
        let (rc, l2) = spec_consume(TokenModel::Keyword("fn"@), l);
        match rc {
            Err(e) => Step::Done(Err(e), l2),
            Ok(_) => {
                let (rp, l3) = spec_peek(l2);
                match rp {
                    Err(e) => Step::Done(Err(e), l3),
                    Ok(t) => match t {
                        TokenModel::Variable(nm) => {
                            let (rg, l4) = spec_get_token(l3);
                            match rg {
                                Err(e) => Step::Done(Err(e), l4),
                                Ok(_) => sp_decl_args(
                                    Some(Box::new(NodeModel::Name(nm))),
                                    l4,
                                    (fuel - 1) as nat,
                                ),
                            }
                        },
                        _ => sp_decl_args(None, l3, (fuel - 1) as nat),
                    },
                }
            },
        }
    }
}

/// The argument list and body of a declaration whose (optional) name is
/// already parsed: bare variable names between parentheses, then a brace
/// sequence as the body.
pub open spec fn sp_decl_args(name: Option<Box<NodeModel>>, l: LexerModel, fuel: nat) -> Step
    decreases fuel,
{
    if fuel == 0 {
        Step::OutOfFuel
    } else {
        match sp_delimited('(', ',', ')', ElemKind::VariableName, l, (fuel - 1) as nat) {
            StepVec::OutOfFuel => Step::OutOfFuel,
            StepVec::Done(ra, l2) => match ra {
                Err(e) => Step::Done(Err(e), l2),
                Ok(args) => match sp_sequence(l2, (fuel - 1) as nat) {
                    Step::OutOfFuel => Step::OutOfFuel,
                    Step::Done(rb, l3) => match rb {
                        Err(e) => Step::Done(Err(e), l3),
                        Ok(body) => Step::Done(
                            Ok(NodeModel::Function { name, args, body: Box::new(body) }),
                            l3,
                        ),
                    },
                },
            },
        }
    }
}

/// A brace-delimited sequence block, with collapsing: zero elements make a
/// `Boolean(false)` node, one element stands alone, two or more make a
/// `Sequence` in order.
pub open spec fn sp_sequence(l: LexerModel, fuel: nat) -> Step
    decreases fuel,
{
    if fuel == 0 {
        Step::OutOfFuel
    } else {
        match sp_delimited('{', ';', '}', ElemKind::Expression, l, (fuel - 1) as nat) {
            StepVec::OutOfFuel => Step::OutOfFuel,
            StepVec::Done(r, l2) => match r {
                Err(e) => Step::Done(Err(e), l2),
                Ok(items) => if items.len() == 0 {
                    Step::Done(Ok(NodeModel::Boolean(false)), l2)
                } else if items.len() == 1 {
                    Step::Done(Ok(items[0]), l2)
                } else {
                    Step::Done(Ok(NodeModel::Sequence(items)), l2)
                },
            },
        }
    }
}

/// A delimited list: `open`, elements separated by `sep` (none between an
/// element and `close`; a separator directly before `close` is not
/// permitted), then `close`.
pub open spec fn sp_delimited(
    od: char,
    sep: char,
    cd: char,
    k: ElemKind,
    l: LexerModel,
    fuel: nat,
) -> StepVec
    decreases fuel,
{
    if fuel == 0 {
        StepVec::OutOfFuel
    } else {
        let (rc, l2) = spec_consume(TokenModel::Delimiter(od), l);
        match rc {
            Err(e) => StepVec::Done(Err(e), l2),
            Ok(_) => match sp_delim_rest(sep, cd, k, true, l2, (fuel - 1) as nat) {
                StepVec::OutOfFuel => StepVec::OutOfFuel,
                StepVec::Done(r, l3) => match r {
                    Err(e) => StepVec::Done(Err(e), l3),
                    Ok(items) => {
                        let (rc2, l4) = spec_consume(TokenModel::Delimiter(cd), l3);
                        match rc2 {
                            Err(e) => StepVec::Done(Err(e), l4),
                            Ok(_) => StepVec::Done(Ok(items), l4),
                        }
                    },
                },
            },
        }
    }
}

/// The element loop of a delimited list: stop before `close` (or at end of
/// input, leaving the missing `close` to be reported); between elements,
/// after the first, a separator is required.
pub open spec fn sp_delim_rest(
    sep: char,
    cd: char,
    k: ElemKind,
    first: bool,
    l: LexerModel,
    fuel: nat,
) -> StepVec
    decreases fuel,
{
    if fuel == 0 {
        StepVec::OutOfFuel
    } else if lex_eof(l) {
        StepVec::Done(Ok(Seq::empty()), l)
    } else {
        let (rp, l2) = spec_peek(l);
        match rp {
            Err(e) => StepVec::Done(Err(e), l2),
            Ok(t) => if t == TokenModel::Delimiter(cd) {
                StepVec::Done(Ok(Seq::empty()), l2)
            } else if first {
                sp_delim_elems(sep, cd, k, l2, (fuel - 1) as nat)
            } else {
                let (rc, l3) = spec_consume(TokenModel::Delimiter(sep), l2);
                match rc {
                    Err(e) => StepVec::Done(Err(e), l3),
                    Ok(_) => sp_delim_elems(sep, cd, k, l3, (fuel - 1) as nat),
                }
            },
        }
    }
}

/// One element of a delimited list, then the rest of the list.
pub open spec fn sp_delim_elems(
    sep: char,
    cd: char,
    k: ElemKind,
    l: LexerModel,
    fuel: nat,
) -> StepVec
    decreases fuel,
{
    if fuel == 0 {
        StepVec::OutOfFuel
    } else {
        match sp_element(k, l, (fuel - 1) as nat) {
            Step::OutOfFuel => StepVec::OutOfFuel,
            Step::Done(r, l2) => match r {
                Err(e) => StepVec::Done(Err(e), l2),
                Ok(n) => match sp_delim_rest(sep, cd, k, false, l2, (fuel - 1) as nat) {
                    StepVec::OutOfFuel => StepVec::OutOfFuel,
                    StepVec::Done(rr, l3) => match rr {
                        Err(e) => StepVec::Done(Err(e), l3),
                        Ok(rest) => StepVec::Done(Ok(seq![n] + rest), l3),
                    },
                },
            },
        }
    }
}

/// One element of a delimited list: an expression, or a bare variable name.
pub open spec fn sp_element(k: ElemKind, l: LexerModel, fuel: nat) -> Step
    decreases fuel,
{
    if fuel == 0 {
        Step::OutOfFuel
    } else {
        match k {
            ElemKind::Expression => sp_expression(l, (fuel - 1) as nat),
            ElemKind::VariableName => {
                let (r, l2) = sp_variable_name(l);
                Step::Done(r, l2)
            },
        }
    }
}

// ===== The precedence law =====

/// Precedence law. For any two binary operators `a` and `b` where `a` binds
/// at least as tightly as `b`, an input whose tokens are
/// `p a q b r` (three names and the two operators, then end of input) parses
/// so that `a` joins `p` and `q` first, and `b` then joins that node with
/// `r`. With `a` and `b` of equal precedence this is exactly left
/// associativity: `p - q - r` parses as `(p - q) - r`.
pub proof fn lemma_precedence_climbing(
    l0: LexerModel,
    pn: Seq<char>,
    a: Seq<char>,
    qn: Seq<char>,
    b: Seq<char>,
    rn: Seq<char>,
    p1: int,
    p2: int,
    p3: int,
    p4: int,
    p5: int,
    p6: int,
)
    requires
        l0.peeked is None,
        0 <= l0.pos <= l0.input.len(),
        spec_next_token(l0.input, l0.pos) == (LexStep {
            tok: Some(TokenModel::Variable(pn)),
            end: p1,
        }),
        spec_next_token(l0.input, p1) == (LexStep { tok: Some(TokenModel::Operator(a)), end: p2 }),
        spec_next_token(l0.input, p2) == (LexStep { tok: Some(TokenModel::Variable(qn)), end: p3 }),
        spec_next_token(l0.input, p3) == (LexStep { tok: Some(TokenModel::Operator(b)), end: p4 }),
        spec_next_token(l0.input, p4) == (LexStep { tok: Some(TokenModel::Variable(rn)), end: p5 }),
        spec_next_token(l0.input, p5) == (LexStep { tok: Some(TokenModel::EOF), end: p6 }),
        spec_is_binary_op(a),
        spec_is_binary_op(b),
        spec_precedence(a) >= spec_precedence(b),
    ensures
        forall|f: nat|
            f >= fuel_at(l0, 11) ==> sp_expression(l0, f) == Step::Done(
                Ok(
                    NodeModel::Binary {
                        op: TokenModel::Operator(b),
                        lhs: Box::new(
                            NodeModel::Binary {
                                op: TokenModel::Operator(a),
                                lhs: Box::new(NodeModel::Name(pn)),
                                rhs: Box::new(NodeModel::Name(qn)),
                            },
                        ),
                        rhs: Box::new(NodeModel::Name(rn)),
                    },
                ),
                (LexerModel { input: l0.input, pos: p6, peeked: Some(TokenModel::EOF) }),
            ),
{
    let s = l0.input;
    lemma_next_token_range(s, l0.pos);
    lemma_next_token_range(s, p1);
    lemma_next_token_range(s, p2);
    lemma_next_token_range(s, p3);
    lemma_next_token_range(s, p4);
    lemma_next_token_range(s, p5);
    lemma_precedence_positive(a);
    lemma_precedence_positive(b);
    assert(lex_measure(l0) >= 5);
    let name_p = NodeModel::Name(pn);
    let name_q = NodeModel::Name(qn);
    let name_r = NodeModel::Name(rn);
    let bin_a = NodeModel::Binary {
        op: TokenModel::Operator(a),
        lhs: Box::new(name_p),
        rhs: Box::new(name_q),
    };
    let bin_b = NodeModel::Binary {
        op: TokenModel::Operator(b),
        lhs: Box::new(bin_a),
        rhs: Box::new(name_r),
    };
    let lB = LexerModel { input: s, pos: p1, peeked: None };
    let lC = LexerModel { input: s, pos: p2, peeked: Some(TokenModel::Operator(a)) };
    let lD = LexerModel { input: s, pos: p2, peeked: None };
    let lE = LexerModel { input: s, pos: p3, peeked: None };
    let lF = LexerModel { input: s, pos: p4, peeked: Some(TokenModel::Operator(b)) };
    let lG = LexerModel { input: s, pos: p4, peeked: None };
    let lH = LexerModel { input: s, pos: p5, peeked: None };
    let lZ = LexerModel { input: s, pos: p6, peeked: Some(TokenModel::EOF) };
    assert forall|f: nat| f >= fuel_at(l0, 11) implies sp_expression(l0, f) == Step::Done(
        Ok(bin_b),
        lZ,
    ) by {
        assert(f >= 91);
        let g1 = (f - 1) as nat;
        let g2 = (g1 - 1) as nat;
        let g3 = (g2 - 1) as nat;
        let g4 = (g3 - 1) as nat;
        let g5 = (g4 - 1) as nat;
        let g6 = (g5 - 1) as nat;
        let g7 = (g6 - 1) as nat;
        assert(g7 >= 1);
        // the atom `p`, with the operator `a` peeked after it
        assert(spec_peek(l0) == (
            Ok::<TokenModel, ErrorModel>(TokenModel::Variable(pn)),
            (LexerModel { input: s, pos: p1, peeked: Some(TokenModel::Variable(pn)) }),
        ));
        assert(sp_atom_helper(l0, g5) == Step::Done(Ok(name_p), lB));
        assert(sp_inv_or_expr(InnerParse::AtomHelper, l0, g4) == Step::Done(Ok(name_p), lC));
        assert(sp_atom(l0, g3) == Step::Done(Ok(name_p), lC));
        // the atom `q`, with the operator `b` peeked after it
        assert(spec_peek(lD) == (
            Ok::<TokenModel, ErrorModel>(TokenModel::Variable(qn)),
            (LexerModel { input: s, pos: p3, peeked: Some(TokenModel::Variable(qn)) }),
        ));
        assert(sp_atom_helper(lD, g6) == Step::Done(Ok(name_q), lE));
        assert(sp_inv_or_expr(InnerParse::AtomHelper, lD, g5) == Step::Done(Ok(name_q), lF));
        assert(sp_atom(lD, g4) == Step::Done(Ok(name_q), lF));
        // `b` does not bind tighter than `a`, so climbing from `q` stops and
        // leaves `b` unconsumed
        assert(sp_binary(name_q, spec_precedence(a), lF, g4) == Step::Done(Ok(name_q), lF));
        // the atom `r`, with end of input peeked after it
        assert(spec_peek(lG) == (
            Ok::<TokenModel, ErrorModel>(TokenModel::Variable(rn)),
            (LexerModel { input: s, pos: p5, peeked: Some(TokenModel::Variable(rn)) }),
        ));
        assert(sp_atom_helper(lG, g7) == Step::Done(Ok(name_r), lH));
        assert(spec_peek(lH) == (Ok::<TokenModel, ErrorModel>(TokenModel::EOF), lZ));
        assert(sp_inv_or_expr(InnerParse::AtomHelper, lG, g6) == Step::Done(Ok(name_r), lZ));
        assert(sp_atom(lG, g5) == Step::Done(Ok(name_r), lZ));
        // nothing follows `r`, so climbing stops at end of input
        assert(sp_binary(name_r, spec_precedence(b), lZ, g5) == Step::Done(Ok(name_r), lZ));
        assert(sp_binary(bin_b, 0, lZ, g5) == Step::Done(Ok(bin_b), lZ));
        // `b` joins the finished `a`-node with `r`
        assert(sp_binary(bin_a, 0, lF, g4) == Step::Done(Ok(bin_b), lZ));
        // `a` joins `p` and `q` first, then climbing continues at minimum 0
        assert(sp_binary(name_p, 0, lC, g3) == Step::Done(Ok(bin_b), lZ));
        assert(sp_expression_helper(l0, g2) == Step::Done(Ok(bin_b), lZ));
        assert(sp_inv_or_expr(InnerParse::ExprHelper, l0, g1) == Step::Done(Ok(bin_b), lZ));
        assert(sp_expression(l0, f) == Step::Done(Ok(bin_b), lZ));
    }
}

} // verus!
