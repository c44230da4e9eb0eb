//! The emitter: renders a finished syntax tree as target-host-language text
//! in one pass over the tree. `spec_emit` is the mathematical form of the
//! rendering, and `emit` is proved to produce exactly that text.

use vstd::prelude::*;

use crate::ast::{views_of, ASTNode, NodeModel};
use crate::lexer::TokenModel;

verus! {

broadcast use
    vstd::std_specs::vec::axiom_vec_index_decreases,
    vstd::seq::axiom_seq_index_decreases;

/// A failure during emission: a `Binary` node whose operator slot does not
/// hold an operator token (the parser never builds one, but the tree type
/// admits it).
#[derive(Debug, PartialEq)]
pub struct Error {
    pub msg: String,
}

// ===== Decimal rendering =====

/// The decimal digit character for `d` (0 to 9).
pub open spec fn spec_digit_char(d: int) -> char {
    if d == 0 {
        '0'
    } else if d == 1 {
        '1'
    } else if d == 2 {
        '2'
    } else if d == 3 {
        '3'
    } else if d == 4 {
        '4'
    } else if d == 5 {
        '5'
    } else if d == 6 {
        '6'
    } else if d == 7 {
        '7'
    } else if d == 8 {
        '8'
    } else {
        '9'
    }
}

/// The decimal digits of a nonnegative integer, most significant first.
pub open spec fn spec_digits(n: int) -> Seq<char>
    decreases n,
{
    if n < 10 {
        seq![spec_digit_char(n)]
    } else {
        spec_digits(n / 10).push(spec_digit_char(n % 10))
    }
}

/// The decimal text of an integer, with a leading minus sign when negative.
pub open spec fn spec_int_str(v: int) -> Seq<char> {
    if v < 0 {
        seq!['-'] + spec_digits(-v)
    } else {
        spec_digits(v)
    }
}

fn digit_char(d: u64) -> (c: char)
    requires
        d < 10,
    ensures
        c == spec_digit_char(d as int),
{
    if d == 0 {
        '0'
    } else if d == 1 {
        '1'
    } else if d == 2 {
        '2'
    } else if d == 3 {
        '3'
    } else if d == 4 {
        '4'
    } else if d == 5 {
        '5'
    } else if d == 6 {
        '6'
    } else if d == 7 {
        '7'
    } else if d == 8 {
        '8'
    } else {
        '9'
    }
}

fn digits_of(u: u64) -> (s: String)
    ensures
        s@ == spec_digits(u as int),
    decreases u,
{
    if u < 10 {
        let mut s = String::new();
        s.push(digit_char(u));
        proof {
            assert(s@ =~= seq![spec_digit_char(u as int)]);
        }
        s
    } else {
        let mut s = digits_of(u / 10);
        s.push(digit_char(u % 10));
        s
    }
}

/// The decimal text of a 32-bit integer, as std would print it.
fn int_to_string(v: i32) -> (s: String)
    ensures
        s@ == spec_int_str(v as int),
{
    if v >= 0 {
        digits_of(v as u64)
    } else {
        let u: u64 = (-(v as i64)) as u64;
        let mut s = String::from_str("-");
        let d = digits_of(u);
        s.append(d.as_str());
        proof {
            reveal_strlit("-");
            assert("-"@ =~= seq!['-']);
            assert(u as int == -(v as int));
        }
        s
    }
}

// ===== The rendering, as a function of the model =====

/// The text `emit` produces for a node; `Err` exactly when some `Binary` node
/// in the tree carries a non-operator token.
pub open spec fn spec_emit(n: NodeModel) -> Result<Seq<char>, ()>
    decreases n, 0int, 1int,
{
    match n {
        NodeModel::Integer(v) => Ok(spec_int_str(v)),
        NodeModel::Float(t) => Ok(t),
        NodeModel::StringLiteral(t) => Ok("\""@ + t + "\""@),
        NodeModel::Boolean(b) => Ok(
            if b {
                "true"@
            } else {
                "false"@
            },
        ),
        NodeModel::Name(t) => Ok(t),
        NodeModel::Function { name, args, body } => {
            let nm = match name {
                Some(bx) => match *bx {
                    NodeModel::Name(t) => t,
                    _ => Seq::empty(),
                },
                None => Seq::empty(),
            };
            match spec_emit_list(args, 0, ","@) {
                Err(e) => Err(e),
                Ok(ar) => match spec_emit(*body) {
                    Err(e) => Err(e),
                    Ok(bd) => Ok(
                        "function "@ + nm + "("@ + ar + ") { return ("@ + bd + ") }"@,
                    ),
                },
            }
        },
        NodeModel::Invocation { func, args } => match spec_emit(*func) {
            Err(e) => Err(e),
            Ok(fs) => match spec_emit_list(args, 0, ","@) {
                Err(e) => Err(e),
                Ok(ar) => Ok(fs + "("@ + ar + ")"@),
            },
        },
        NodeModel::Conditional { cond, if_body, else_body } => match spec_emit(*cond) {
            Err(e) => Err(e),
            Ok(cs) => match spec_emit(*if_body) {
                Err(e) => Err(e),
                Ok(bs) => {
                    let alt = match else_body {
                        Some(bx) => spec_emit(*bx),
                        None => Ok("false"@),
                    };
                    match alt {
                        Err(e) => Err(e),
                        Ok(es) => Ok("("@ + cs + "!== false ? "@ + bs + " : "@ + es + ")"@),
                    }
                },
            },
        },
        NodeModel::Binary { op, lhs, rhs } => match op {
            TokenModel::Operator(o) => match spec_emit(*lhs) {
                Err(e) => Err(e),
                Ok(ls) => match spec_emit(*rhs) {
                    Err(e) => Err(e),
                    Ok(rs) => Ok("("@ + ls + " "@ + o + " "@ + rs + ")"@),
                },
            },
            _ => Err(()),
        },
        NodeModel::Sequence(v) => spec_emit_list(v, 0, ","@),
    }
}

/// The texts of the nodes from index `i` on, joined by `sep`.
pub open spec fn spec_emit_list(v: Seq<NodeModel>, i: int, sep: Seq<char>) -> Result<
    Seq<char>,
    (),
>
    decreases v, v.len() - i, 0int,
{
    if i < 0 || i >= v.len() {
        Ok(Seq::empty())
    } else {
        match spec_emit(v[i]) {
            Err(e) => Err(e),
            Ok(s) => if i + 1 >= v.len() {
                Ok(s)
            } else {
                match spec_emit_list(v, i + 1, sep) {
                    Err(e) => Err(e),
                    Ok(rest) => Ok(s + sep + rest),
                }
            },
        }
    }
}

// ===== The rendering =====

/// Renders a finished syntax tree as target-language text: literals pass
/// through (booleans as `true`/`false`, strings re-quoted), names pass
/// through, and the composite nodes translate structurally. Produces exactly
/// `spec_emit` of the tree's model.
pub fn emit(ast: ASTNode) -> (r: Result<String, Error>)
    ensures
        ({
            let sp = spec_emit(ast@);
            match r {
                Ok(s) => sp matches Ok(t) && s@ == t,
                Err(_) => sp is Err,
            }
        }),
{
    emit_node(&ast)
}

fn emit_node(n: &ASTNode) -> (r: Result<String, Error>)
    ensures
        ({
            let sp = spec_emit(n@);
            match r {
                Ok(s) => sp matches Ok(t) && s@ == t,
                Err(_) => sp is Err,
            }
        }),
    decreases n, 0int, 1int,
{
    match n {
        ASTNode::Integer(v) => Ok(int_to_string(*v)),
        ASTNode::Float(s) => Ok(s.clone()),
        ASTNode::StringLiteral(s) => {
            let mut out = String::from_str("\"");
            out.append(s.as_str());
            out.append("\"");
            Ok(out)
        },
        ASTNode::Boolean(b) => Ok(
            if *b {
                String::from_str("true")
            } else {
                String::from_str("false")
            },
        ),
        ASTNode::Name(s) => Ok(s.clone()),
        ASTNode::Function { .. } => emit_function(n),
        ASTNode::Invocation { .. } => emit_invocation(n),
        ASTNode::Conditional { .. } => emit_conditional(n),
        ASTNode::Binary { .. } => emit_binary(n),
        ASTNode::Sequence(v) => emit_map_helper(v, 0, ","),
    }
}

/// `function name(arg,…) { return (body) }`; the name is left out when the
/// declaration is anonymous.
fn emit_function(n: &ASTNode) -> (r: Result<String, Error>)
    requires
        n is Function,
    ensures
        ({
            let sp = spec_emit(n@);
            match r {
                Ok(s) => sp matches Ok(t) && s@ == t,
                Err(_) => sp is Err,
            }
        }),
    decreases n, 0int, 0int,
{
    match n {
        ASTNode::Function { name, args, body } => {
            let mut function = String::from_str("function ");
            match &**name {
                Some(nm) => match nm {
                    ASTNode::Name(name_str) => {
                        function.append(name_str.as_str());
                    },
                    _ => (),
                },
                None => (),
            };
            proof {
                reveal_with_fuel(crate::ast::node_model, 3);
                let spname = match n@ {
                    NodeModel::Function { name: nn, .. } => match nn {
                        Some(bx) => match *bx {
                            NodeModel::Name(t) => t,
                            _ => Seq::empty(),
                        },
                        None => Seq::empty(),
                    },
                    _ => Seq::empty(),
                };
                assert(function@ =~= "function "@ + spname);
            }
            function.append("(");
            let ar = match emit_map_helper(args, 0, ",") {
                Ok(s) => s,
                Err(e) => {
                    return Err(e);
                },
            };
            function.append(ar.as_str());
            function.append(") { return (");
            let bd = match emit_node(body) {
                Ok(s) => s,
                Err(e) => {
                    return Err(e);
                },
            };
            function.append(bd.as_str());
            function.append(") }");
            Ok(function)
        },
        _ => {
            proof {
                assert(false);
            }
            Err(Error { msg: String::new() })
        },
    }
}

/// `callee(arg,…)`.
fn emit_invocation(n: &ASTNode) -> (r: Result<String, Error>)
    requires
        n is Invocation,
    ensures
        ({
            let sp = spec_emit(n@);
            match r {
                Ok(s) => sp matches Ok(t) && s@ == t,
                Err(_) => sp is Err,
            }
        }),
    decreases n, 0int, 0int,
{
    match n {
        ASTNode::Invocation { func, args } => {
            let fs = match emit_node(func) {
                Ok(s) => s,
                Err(e) => {
                    return Err(e);
                },
            };
            let ar = match emit_map_helper(args, 0, ",") {
                Ok(s) => s,
                Err(e) => {
                    return Err(e);
                },
            };
            let mut out = fs;
            out.append("(");
            out.append(ar.as_str());
            out.append(")");
            Ok(out)
        },
        _ => {
            proof {
                assert(false);
            }
            Err(Error { msg: String::new() })
        },
    }
}

/// A conditional is an expression, so it renders as a ternary; an absent
/// else-branch yields `false`, the only falsey value.
fn emit_conditional(n: &ASTNode) -> (r: Result<String, Error>)
    requires
        n is Conditional,
    ensures
        ({
            let sp = spec_emit(n@);
            match r {
                Ok(s) => sp matches Ok(t) && s@ == t,
                Err(_) => sp is Err,
            }
        }),
    decreases n, 0int, 0int,
{
    match n {
        ASTNode::Conditional { cond, if_body, else_body } => {
            let cs = match emit_node(cond) {
                Ok(s) => s,
                Err(e) => {
                    return Err(e);
                },
            };
            let bs = match emit_node(if_body) {
                Ok(s) => s,
                Err(e) => {
                    return Err(e);
                },
            };
            let es = match &**else_body {
                Some(node) => match emit_node(node) {
                    Ok(s) => s,
                    Err(e) => {
                        return Err(e);
                    },
                },
                None => String::from_str("false"),
            };
            let mut out = String::from_str("(");
            out.append(cs.as_str());
            out.append("!== false ? ");
            out.append(bs.as_str());
            out.append(" : ");
            out.append(es.as_str());
            out.append(")");
            Ok(out)
        },
        _ => {
            proof {
                assert(false);
            }
            Err(Error { msg: String::new() })
        },
    }
}

/// `(lhs op rhs)`; a non-operator token in the operator slot is the one
/// emission failure.
fn emit_binary(n: &ASTNode) -> (r: Result<String, Error>)
    requires
        n is Binary,
    ensures
        ({
            let sp = spec_emit(n@);
            match r {
                Ok(s) => sp matches Ok(t) && s@ == t,
                Err(_) => sp is Err,
            }
        }),
    decreases n, 0int, 0int,
{
    match n {
        ASTNode::Binary { op, lhs, rhs } => match op {
            crate::lexer::Token::Operator(o) => {
                let ls = match emit_node(lhs) {
                    Ok(s) => s,
                    Err(e) => {
                        return Err(e);
                    },
                };
                let rs = match emit_node(rhs) {
                    Ok(s) => s,
                    Err(e) => {
                        return Err(e);
                    },
                };
                let mut out = String::from_str("(");
                out.append(ls.as_str());
                out.append(" ");
                out.append(o.as_str());
                out.append(" ");
                out.append(rs.as_str());
                out.append(")");
                Ok(out)
            },
            _ => Err(Error { msg: String::from_str("Malformed binary node") }),
        },
        _ => {
            proof {
                assert(false);
            }
            Err(Error { msg: String::new() })
        },
    }
}

/// Maps the rendering over the nodes from index `i` on, joining with the
/// delimiter as a separator.
fn emit_map_helper(nodes: &Vec<ASTNode>, i: usize, delimiter: &str) -> (r: Result<String, Error>)
    ensures
        ({
            let sp = spec_emit_list(views_of(nodes@), i as int, delimiter@);
            match r {
                Ok(s) => sp matches Ok(t) && s@ == t,
                Err(_) => sp is Err,
            }
        }),
    decreases nodes, nodes@.len() - i, 0int,
{
    proof {
        crate::ast::lemma_views_of_index(nodes@);
    }
    if i >= nodes.len() {
        return Ok(String::new());
    }
    let s = match emit_node(&nodes[i]) {
        Ok(s) => s,
        Err(e) => {
            return Err(e);
        },
    };
    if i + 1 >= nodes.len() {
        return Ok(s);
    }
    let rest = match emit_map_helper(nodes, i + 1, delimiter) {
        Ok(s) => s,
        Err(e) => {
            return Err(e);
        },
    };
    let mut out = s;
    out.append(delimiter);
    out.append(rest.as_str());
    Ok(out)
}

} // verus!
