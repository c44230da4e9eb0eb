//! The parser: consumes tokens from a [`Lexer`] and builds an [`ASTNode`],
//! combining recursive descent for structural constructs with precedence
//! climbing for binary expressions. Every method is proved to follow the
//! grammar's model (the `sp_` functions of [`crate::grammar`]) exactly.

use vstd::prelude::*;

pub use crate::ast::ASTNode;

use crate::ast::{
    lemma_views_of_index, lemma_views_of_insert_front, lemma_views_of_push, views_of, NodeModel,
};
use crate::grammar::{
    fuel_at, sp_atom, sp_atom_helper, sp_binary, sp_bool, sp_classify, sp_conditional,
    sp_decl_args, sp_declaration, sp_delim_elems, sp_delim_rest, sp_delimited, sp_element,
    sp_expression, sp_expression_helper, sp_if_body, sp_inv_or_expr, sp_sequence, sp_top_level,
    sp_top_rest, sp_variable_name, spec_consume, spec_is_binary_op, spec_precedence, ElemKind,
    InnerParse, Step, StepVec,
};
use crate::lexer::{lex_eof, lex_measure, str_eq_lit, LexerModel, Token, TokenModel};
use crate::lexer;
use crate::util::{Error, ErrorModel};

verus! {

/// The result of a parse method, at the model level.
pub open spec fn res_of(r: Result<ASTNode, Error>) -> Result<NodeModel, ErrorModel> {
    match r {
        Ok(n) => Ok(n@),
        Err(e) => Err(e@),
    }
}

/// The result of a list-parsing method, at the model level.
pub open spec fn resv_of(r: Result<Vec<ASTNode>, Error>) -> Result<Seq<NodeModel>, ErrorModel> {
    match r {
        Ok(v) => Ok(views_of(v@)),
        Err(e) => Err(e@),
    }
}

/// A recursive-descent parser over a lexer. The parser holds no state of its
/// own beyond the lexer's cursor and peek buffer.
pub struct Parser {
    pub lexer: lexer::Lexer,
}

impl View for Parser {
    type V = LexerModel;

    open spec fn view(&self) -> LexerModel {
        self.lexer@
    }
}

impl Parser {
    pub open spec fn wf(self) -> bool {
        self.lexer.wf()
    }

    /// Reads the next token and requires it to equal `token`; on a mismatch,
    /// or when the lexer itself fails, reports an error at the position after
    /// the read. Follows `spec_consume` exactly.
    fn consume(&mut self, token: Token) -> (r: Result<Token, Error>)
        requires
            old(self).wf(),
        ensures
            final(self).wf(),
            ({
                let (r2, l2) = spec_consume(token@, old(self)@);
                final(self)@ == l2 && match (r, r2) {
                    (Ok(t), Ok(t2)) => t@ == t2,
                    (Err(e), Err(e2)) => e@ == e2,
                    _ => false,
                }
            }),
            lex_measure(final(self)@) <= lex_measure(old(self)@),
            (r is Ok && !(token@ is EOF)) ==> lex_measure(final(self)@) < lex_measure(
                old(self)@,
            ),
    {
        let next = self.lexer.get_token();
        match next {
            Ok(tok) => {
                if token == tok {
                    Ok(tok)
                } else {
                    let m = String::from_str("Unexpected token: another token stands where ");
                    let mut msg = m;
                    msg.append("the grammar requires a specific one");
                    Err(self.lexer.get_error(msg))
                }
            },
            Err(_) => {
                let m = String::from_str("get_token failed");
                Err(self.lexer.get_error(m))
            },
        }
    }

    /// Reads one token and requires it to be a variable, as a `Name` node.
    /// Follows `sp_variable_name` exactly.
    fn parse_variable_name(&mut self) -> (r: Result<ASTNode, Error>)
        requires
            old(self).wf(),
        ensures
            final(self).wf(),
            ({
                let (r2, l2) = sp_variable_name(old(self)@);
                final(self)@ == l2 && res_of(r) == r2
            }),
            lex_measure(final(self)@) <= lex_measure(old(self)@),
            r is Ok ==> lex_measure(final(self)@) < lex_measure(old(self)@),
    {
        match self.lexer.get_token() {
            Err(e) => Err(e),
            Ok(t) => match t {
                Token::Variable(name) => Ok(ASTNode::Name(name)),
                _ => {
                    let m = String::from_str("Expected a variable name");
                    Err(self.lexer.get_error(m))
                },
            },
        }
    }

    /// Reads one token and requires it to be the keyword `true` or `false`.
    /// Follows `sp_bool` exactly.
    fn parse_bool(&mut self) -> (r: Result<ASTNode, Error>)
        requires
            old(self).wf(),
        ensures
            final(self).wf(),
            ({
                let (r2, l2) = sp_bool(old(self)@);
                final(self)@ == l2 && res_of(r) == r2
            }),
            lex_measure(final(self)@) <= lex_measure(old(self)@),
            r is Ok ==> lex_measure(final(self)@) < lex_measure(old(self)@),
    {
        match self.lexer.get_token() {
            Err(e) => Err(e),
            Ok(t) => match t {
                Token::Keyword(kw) => {
                    if str_eq_lit(kw.as_str(), "true") {
                        Ok(ASTNode::Boolean(true))
                    } else if str_eq_lit(kw.as_str(), "false") {
                        Ok(ASTNode::Boolean(false))
                    } else {
                        let m = String::from_str("Expected a boolean literal");
                        Err(self.lexer.get_error(m))
                    }
                },
                _ => {
                    let m = String::from_str("Expected a boolean literal");
                    Err(self.lexer.get_error(m))
                },
            },
        }
    }

    /// Reads one token and classifies it as a leaf node: a name, an integer,
    /// a float, or a string literal. Follows `sp_classify` exactly.
    fn classify_token(&mut self) -> (r: Result<ASTNode, Error>)
        requires
            old(self).wf(),
        ensures
            final(self).wf(),
            ({
                let (r2, l2) = sp_classify(old(self)@);
                final(self)@ == l2 && res_of(r) == r2
            }),
            lex_measure(final(self)@) <= lex_measure(old(self)@),
            r is Ok ==> lex_measure(final(self)@) < lex_measure(old(self)@),
    {
        match self.lexer.get_token() {
            Err(e) => Err(e),
            Ok(t) => match t {
                Token::Variable(name) => Ok(ASTNode::Name(name)),
                Token::Integral(val) => Ok(ASTNode::Integer(val)),
                Token::FloatingPoint(val) => Ok(ASTNode::Float(val)),
                Token::StringLiteral(val) => Ok(ASTNode::StringLiteral(val)),
                _ => {
                    let m = String::from_str("Unexpected element in parse_atom");
                    Err(self.lexer.get_error(m))
                },
            },
        }
    }

    /// Binding strength of a binary operator; higher binds tighter.
    pub fn get_precedence(op: &str) -> (p: u32)
        requires
            spec_is_binary_op(op@),
        ensures
            p as int == spec_precedence(op@),
    {
        if str_eq_lit(op, "=") {
            1
        } else if str_eq_lit(op, "||") {
            2
        } else if str_eq_lit(op, "&&") {
            3
        } else if str_eq_lit(op, "<") || str_eq_lit(op, "<=") || str_eq_lit(op, ">") || str_eq_lit(
            op,
            ">=",
        ) || str_eq_lit(op, "==") || str_eq_lit(op, "!=") {
            4
        } else if str_eq_lit(op, "+") || str_eq_lit(op, "-") {
            5
        } else {
            6
        }
    }
}

impl Parser {
    /// Parses a run of expressions separated by `;` to end of input, as a
    /// `Sequence` node (empty input gives the empty sequence). The first
    /// failure anywhere aborts the whole parse and is returned unchanged.
    /// Follows `sp_top_level` exactly, at every sufficient fuel.
    #[verifier::rlimit(100)]
    #[verifier::spinoff_prover]
    pub fn parse_top_level(&mut self) -> (r: Result<ASTNode, Error>)
        requires
            old(self).wf(),
        ensures
            final(self).wf(),
            forall|f: nat|
                sp_top_level(old(self)@, f) == Step::OutOfFuel || sp_top_level(old(self)@, f)
                    == Step::Done(res_of(r), final(self)@),
            forall|f: nat|
                f >= fuel_at(old(self)@, 16) ==> sp_top_level(old(self)@, f) == Step::Done(
                    res_of(r),
                    final(self)@,
                ),
            lex_measure(final(self)@) <= lex_measure(old(self)@),
            (old(self)@.input.len() == 0 && old(self)@.peeked is None) ==> (r matches Ok(n)
                && n@ == NodeModel::Sequence(Seq::empty())),
        decreases lex_measure(self@), 16int,
    {
        let ghost l0 = self@;
        let empty_args: Vec<ASTNode> = Vec::new();
        let ghost av = views_of(empty_args@);
        proof {
            assert(av =~= Seq::<NodeModel>::empty());
        }
        let r = self.parse_top_rest(empty_args);
        proof {
            assert forall|f: nat|
                sp_top_level(l0, f) == Step::OutOfFuel || sp_top_level(l0, f) == Step::Done(
                    res_of(r),
                    self@,
                ) by {
                if f > 0 {
                    let g = (f - 1) as nat;
                    assert(sp_top_rest(av, l0, g) == Step::OutOfFuel || sp_top_rest(av, l0, g)
                        == Step::Done(res_of(r), self@));
                    assert(sp_top_level(l0, f) == sp_top_rest(av, l0, g));
                }
            }
            assert forall|f: nat| f >= fuel_at(l0, 16) implies sp_top_level(l0, f) == Step::Done(
                res_of(r),
                self@,
            ) by {
                let g = (f - 1) as nat;
                assert(g >= fuel_at(l0, 15));
                assert(sp_top_rest(av, l0, g) == Step::Done(res_of(r), self@));
                assert(sp_top_level(l0, f) == sp_top_rest(av, l0, g));
            }
            if l0.input.len() == 0 && l0.peeked is None {
                assert(lex_eof(l0));
                let f0: nat = fuel_at(l0, 16) as nat;
                assert(f0 >= fuel_at(l0, 16));
                assert(sp_top_level(l0, f0) == Step::Done(res_of(r), self@));
                assert(sp_top_rest(av, l0, (f0 - 1) as nat) == Step::Done(
                    Ok(NodeModel::Sequence(av)),
                    l0,
                ));
                assert(res_of(r) == Ok::<NodeModel, ErrorModel>(NodeModel::Sequence(av)));
            }
        }
        r
    }

    /// The top-level loop, with the expressions parsed so far in `acc`.
    /// Follows `sp_top_rest` exactly.
    #[verifier::rlimit(100)]
    #[verifier::spinoff_prover]
    fn parse_top_rest(&mut self, acc: Vec<ASTNode>) -> (r: Result<ASTNode, Error>)
        requires
            old(self).wf(),
        ensures
            final(self).wf(),
            forall|f: nat|
                sp_top_rest(views_of(acc@), old(self)@, f) == Step::OutOfFuel || sp_top_rest(
                    views_of(acc@),
                    old(self)@,
                    f,
                ) == Step::Done(res_of(r), final(self)@),
            forall|f: nat|
                f >= fuel_at(old(self)@, 15) ==> sp_top_rest(views_of(acc@), old(self)@, f)
                    == Step::Done(res_of(r), final(self)@),
            lex_measure(final(self)@) <= lex_measure(old(self)@),
        decreases lex_measure(self@), 15int,
    {
        let ghost l0 = self@;
        if self.lexer.eof() {
            return Ok(ASTNode::Sequence(acc));
        }
        let n = match self.parse_expression() {
            Ok(n) => n,
            Err(e) => {
                return Err(e);
            },
        };
        let ghost nm = n@;
        let ghost l1 = self@;
        let mut acc2 = acc;
        let ghost a0 = acc2@;
        acc2.push(n);
        proof {
            lemma_views_of_push(a0, n);
        }
        if !self.lexer.eof() {
            match self.consume(Token::Delimiter(';')) {
                Ok(_) => (),
                Err(e) => {
                    return Err(e);
                },
            };
        }
        let ghost l2 = self@;
        let ghost am = views_of(acc2@);
        let r = self.parse_top_rest(acc2);
        proof {
            assert(am == views_of(a0).push(nm));
            assert forall|f: nat|
                sp_top_rest(views_of(a0), l0, f) == Step::OutOfFuel || sp_top_rest(
                    views_of(a0),
                    l0,
                    f,
                ) == Step::Done(res_of(r), self@) by {
                if f > 0 {
                    let g = (f - 1) as nat;
                    assert(sp_expression(l0, g) == Step::OutOfFuel || sp_expression(l0, g)
                        == Step::Done(Ok(nm), l1));
                    assert(sp_top_rest(am, l2, g) == Step::OutOfFuel || sp_top_rest(am, l2, g)
                        == Step::Done(res_of(r), self@));
                }
            }
            assert forall|f: nat| f >= fuel_at(l0, 15) implies sp_top_rest(views_of(a0), l0, f)
                == Step::Done(res_of(r), self@) by {
                let g = (f - 1) as nat;
                assert(g >= fuel_at(l0, 11));
                assert(sp_expression(l0, g) == Step::Done(Ok(nm), l1));
                assert(g >= fuel_at(l2, 15));
                assert(sp_top_rest(am, l2, g) == Step::Done(res_of(r), self@));
            }
        }
        r
    }

    /// An expression: the expression body under the invocation check.
    /// Follows `sp_expression` exactly.
    #[verifier::rlimit(100)]
    #[verifier::spinoff_prover]
    fn parse_expression(&mut self) -> (r: Result<ASTNode, Error>)
        requires
            old(self).wf(),
        ensures
            final(self).wf(),
            forall|f: nat|
                sp_expression(old(self)@, f) == Step::OutOfFuel || sp_expression(old(self)@, f)
                    == Step::Done(res_of(r), final(self)@),
            forall|f: nat|
                f >= fuel_at(old(self)@, 11) ==> sp_expression(old(self)@, f) == Step::Done(
                    res_of(r),
                    final(self)@,
                ),
            lex_measure(final(self)@) <= lex_measure(old(self)@),
            r is Ok ==> lex_measure(final(self)@) < lex_measure(old(self)@),
        decreases lex_measure(self@), 11int,
    {
        let ghost l0 = self@;
        let r = self.parse_inv_or_expr(InnerParse::ExprHelper);
        proof {
            assert forall|f: nat|
                sp_expression(l0, f) == Step::OutOfFuel || sp_expression(l0, f) == Step::Done(
                    res_of(r),
                    self@,
                ) by {
                if f > 0 {
                    let g = (f - 1) as nat;
                    assert(sp_inv_or_expr(InnerParse::ExprHelper, l0, g) == Step::OutOfFuel
                        || sp_inv_or_expr(InnerParse::ExprHelper, l0, g) == Step::Done(
                        res_of(r),
                        self@,
                    ));
                }
            }
            assert forall|f: nat| f >= fuel_at(l0, 11) implies sp_expression(l0, f) == Step::Done(
                res_of(r),
                self@,
            ) by {
                let g = (f - 1) as nat;
                assert(g >= fuel_at(l0, 10));
                assert(sp_inv_or_expr(InnerParse::ExprHelper, l0, g) == Step::Done(
                    res_of(r),
                    self@,
                ));
            }
        }
        r
    }

    /// An atom: the atom body under the invocation check. Follows `sp_atom`
    /// exactly.
    #[verifier::rlimit(100)]
    #[verifier::spinoff_prover]
    fn parse_atom(&mut self) -> (r: Result<ASTNode, Error>)
        requires
            old(self).wf(),
        ensures
            final(self).wf(),
            forall|f: nat|
                sp_atom(old(self)@, f) == Step::OutOfFuel || sp_atom(old(self)@, f) == Step::Done(
                    res_of(r),
                    final(self)@,
                ),
            forall|f: nat|
                f >= fuel_at(old(self)@, 8) ==> sp_atom(old(self)@, f) == Step::Done(
                    res_of(r),
                    final(self)@,
                ),
            lex_measure(final(self)@) <= lex_measure(old(self)@),
            r is Ok ==> lex_measure(final(self)@) < lex_measure(old(self)@),
        decreases lex_measure(self@), 8int,
    {
        let ghost l0 = self@;
        let r = self.parse_inv_or_expr(InnerParse::AtomHelper);
        proof {
            assert forall|f: nat|
                sp_atom(l0, f) == Step::OutOfFuel || sp_atom(l0, f) == Step::Done(
                    res_of(r),
                    self@,
                ) by {
                if f > 0 {
                    let g = (f - 1) as nat;
                    assert(sp_inv_or_expr(InnerParse::AtomHelper, l0, g) == Step::OutOfFuel
                        || sp_inv_or_expr(InnerParse::AtomHelper, l0, g) == Step::Done(
                        res_of(r),
                        self@,
                    ));
                }
            }
            assert forall|f: nat| f >= fuel_at(l0, 8) implies sp_atom(l0, f) == Step::Done(
                res_of(r),
                self@,
            ) by {
                let g = (f - 1) as nat;
                assert(g >= fuel_at(l0, 7));
                assert(sp_inv_or_expr(InnerParse::AtomHelper, l0, g) == Step::Done(
                    res_of(r),
                    self@,
                ));
            }
        }
        r
    }

    /// The invocation check around an inner rule: if a `(` follows what the
    /// inner rule parsed, that node becomes the callee of an invocation whose
    /// arguments are a parenthesized comma-separated expression list. The
    /// look-ahead runs even when the inner rule failed, and a look-ahead
    /// failure wins. Follows `sp_inv_or_expr` exactly.
    #[verifier::rlimit(100)]
    #[verifier::spinoff_prover]
    fn parse_inv_or_expr(&mut self, k: InnerParse) -> (r: Result<ASTNode, Error>)
        requires
            old(self).wf(),
        ensures
            final(self).wf(),
            forall|f: nat|
                sp_inv_or_expr(k, old(self)@, f) == Step::OutOfFuel || sp_inv_or_expr(
                    k,
                    old(self)@,
                    f,
                ) == Step::Done(res_of(r), final(self)@),
            forall|f: nat|
                f >= fuel_at(old(self)@, inv_headroom(k)) ==> sp_inv_or_expr(k, old(self)@, f)
                    == Step::Done(res_of(r), final(self)@),
            lex_measure(final(self)@) <= lex_measure(old(self)@),
            r is Ok ==> lex_measure(final(self)@) < lex_measure(old(self)@),
        decreases lex_measure(self@), inv_headroom(k),
    {
        let ghost l0 = self@;
        let inner: Result<ASTNode, Error> = match k {
            InnerParse::ExprHelper => self.parse_expression_helper(),
            InnerParse::AtomHelper => self.parse_atom_helper(),
        };
        let ghost rm = res_of(inner);
        let ghost l2 = self@;
        let p = match self.lexer.peek() {
            Ok(t) => t,
            Err(e) => {
                proof {
                    assert forall|f: nat|
                        sp_inv_or_expr(k, l0, f) == Step::OutOfFuel || sp_inv_or_expr(k, l0, f)
                            == Step::Done(Err(e@), self@) by {
                        if f > 0 {
                            let g = (f - 1) as nat;
                            match k {
                                InnerParse::ExprHelper => {
                                    assert(sp_expression_helper(l0, g) == Step::OutOfFuel
                                        || sp_expression_helper(l0, g) == Step::Done(rm, l2));
                                },
                                InnerParse::AtomHelper => {
                                    assert(sp_atom_helper(l0, g) == Step::OutOfFuel
                                        || sp_atom_helper(l0, g) == Step::Done(rm, l2));
                                },
                            }
                        }
                    }
                    assert forall|f: nat| f >= fuel_at(l0, inv_headroom(k)) implies sp_inv_or_expr(
                        k,
                        l0,
                        f,
                    ) == Step::Done(Err(e@), self@) by {
                        let g = (f - 1) as nat;
                        match k {
                            InnerParse::ExprHelper => {
                                assert(g >= fuel_at(l0, 9));
                                assert(sp_expression_helper(l0, g) == Step::Done(rm, l2));
                            },
                            InnerParse::AtomHelper => {
                                assert(g >= fuel_at(l0, 6));
                                assert(sp_atom_helper(l0, g) == Step::Done(rm, l2));
                            },
                        }
                    }
                }
                return Err(e);
            },
        };
        let ghost l3 = self@;
        if p == Token::Delimiter('(') {
            let func = match inner {
                Ok(n) => n,
                Err(e) => {
                    proof {
                        assert forall|f: nat|
                            sp_inv_or_expr(k, l0, f) == Step::OutOfFuel || sp_inv_or_expr(
                                k,
                                l0,
                                f,
                            ) == Step::Done(Err(e@), self@) by {
                            if f > 0 {
                                let g = (f - 1) as nat;
                                match k {
                                    InnerParse::ExprHelper => {
                                        assert(sp_expression_helper(l0, g) == Step::OutOfFuel
                                            || sp_expression_helper(l0, g) == Step::Done(rm, l2));
                                    },
                                    InnerParse::AtomHelper => {
                                        assert(sp_atom_helper(l0, g) == Step::OutOfFuel
                                            || sp_atom_helper(l0, g) == Step::Done(rm, l2));
                                    },
                                }
                            }
                        }
                        assert forall|f: nat| f >= fuel_at(l0, inv_headroom(k))
                            implies sp_inv_or_expr(k, l0, f) == Step::Done(Err(e@), self@) by {
                            let g = (f - 1) as nat;
                            match k {
                                InnerParse::ExprHelper => {
                                    assert(g >= fuel_at(l0, 9));
                                    assert(sp_expression_helper(l0, g) == Step::Done(rm, l2));
                                },
                                InnerParse::AtomHelper => {
                                    assert(g >= fuel_at(l0, 6));
                                    assert(sp_atom_helper(l0, g) == Step::Done(rm, l2));
                                },
                            }
                        }
                    }
                    return Err(e);
                },
            };
            let ghost fm = func@;
            let args_res = self.parse_delimited('(', ',', ')', ElemKind::Expression);
            let ghost am = resv_of(args_res);
            let r: Result<ASTNode, Error> = match args_res {
                Ok(args) => Ok(ASTNode::Invocation { func: Box::new(func), args }),
                Err(e) => Err(e),
            };
            proof {
                assert forall|f: nat|
                    sp_inv_or_expr(k, l0, f) == Step::OutOfFuel || sp_inv_or_expr(k, l0, f)
                        == Step::Done(res_of(r), self@) by {
                    if f > 0 {
                        let g = (f - 1) as nat;
                        match k {
                            InnerParse::ExprHelper => {
                                assert(sp_expression_helper(l0, g) == Step::OutOfFuel
                                    || sp_expression_helper(l0, g) == Step::Done(rm, l2));
                            },
                            InnerParse::AtomHelper => {
                                assert(sp_atom_helper(l0, g) == Step::OutOfFuel
                                    || sp_atom_helper(l0, g) == Step::Done(rm, l2));
                            },
                        }
                        assert(sp_delimited('(', ',', ')', ElemKind::Expression, l3, g)
                            == StepVec::OutOfFuel || sp_delimited(
                            '(',
                            ',',
                            ')',
                            ElemKind::Expression,
                            l3,
                            g,
                        ) == StepVec::Done(am, self@));
                    }
                }
                assert forall|f: nat| f >= fuel_at(l0, inv_headroom(k)) implies sp_inv_or_expr(
                    k,
                    l0,
                    f,
                ) == Step::Done(res_of(r), self@) by {
                    let g = (f - 1) as nat;
                    match k {
                        InnerParse::ExprHelper => {
                            assert(g >= fuel_at(l0, 9));
                            assert(sp_expression_helper(l0, g) == Step::Done(rm, l2));
                        },
                        InnerParse::AtomHelper => {
                            assert(g >= fuel_at(l0, 6));
                            assert(sp_atom_helper(l0, g) == Step::Done(rm, l2));
                        },
                    }
                    assert(g >= fuel_at(l3, 4));
                    assert(sp_delimited('(', ',', ')', ElemKind::Expression, l3, g)
                        == StepVec::Done(am, self@));
                }
            }
            r
        } else {
            proof {
                assert forall|f: nat|
                    sp_inv_or_expr(k, l0, f) == Step::OutOfFuel || sp_inv_or_expr(k, l0, f)
                        == Step::Done(rm, self@) by {
                    if f > 0 {
                        let g = (f - 1) as nat;
                        match k {
                            InnerParse::ExprHelper => {
                                assert(sp_expression_helper(l0, g) == Step::OutOfFuel
                                    || sp_expression_helper(l0, g) == Step::Done(rm, l2));
                            },
                            InnerParse::AtomHelper => {
                                assert(sp_atom_helper(l0, g) == Step::OutOfFuel
                                    || sp_atom_helper(l0, g) == Step::Done(rm, l2));
                            },
                        }
                    }
                }
                assert forall|f: nat| f >= fuel_at(l0, inv_headroom(k)) implies sp_inv_or_expr(
                    k,
                    l0,
                    f,
                ) == Step::Done(rm, self@) by {
                    let g = (f - 1) as nat;
                    match k {
                        InnerParse::ExprHelper => {
                            assert(g >= fuel_at(l0, 9));
                            assert(sp_expression_helper(l0, g) == Step::Done(rm, l2));
                        },
                        InnerParse::AtomHelper => {
                            assert(g >= fuel_at(l0, 6));
                            assert(sp_atom_helper(l0, g) == Step::Done(rm, l2));
                        },
                    }
                }
            }
            inner
        }
    }

    /// The expression body: an atom, then precedence climbing from minimum 0.
    /// Follows `sp_expression_helper` exactly.
    #[verifier::rlimit(100)]
    #[verifier::spinoff_prover]
    fn parse_expression_helper(&mut self) -> (r: Result<ASTNode, Error>)
        requires
            old(self).wf(),
        ensures
            final(self).wf(),
            forall|f: nat|
                sp_expression_helper(old(self)@, f) == Step::OutOfFuel || sp_expression_helper(
                    old(self)@,
                    f,
                ) == Step::Done(res_of(r), final(self)@),
            forall|f: nat|
                f >= fuel_at(old(self)@, 9) ==> sp_expression_helper(old(self)@, f) == Step::Done(
                    res_of(r),
                    final(self)@,
                ),
            lex_measure(final(self)@) <= lex_measure(old(self)@),
            r is Ok ==> lex_measure(final(self)@) < lex_measure(old(self)@),
        decreases lex_measure(self@), 9int,
    {
        let ghost l0 = self@;
        let atom_res = self.parse_atom();
        let ghost arm = res_of(atom_res);
        let ghost l1 = self@;
        let next_atom = match atom_res {
            Ok(n) => n,
            Err(e) => {
                proof {
                    assert forall|f: nat|
                        sp_expression_helper(l0, f) == Step::OutOfFuel || sp_expression_helper(
                            l0,
                            f,
                        ) == Step::Done(Err(e@), self@) by {
                        if f > 0 {
                            let g = (f - 1) as nat;
                            assert(sp_atom(l0, g) == Step::OutOfFuel || sp_atom(l0, g)
                                == Step::Done(arm, self@));
                        }
                    }
                    assert forall|f: nat| f >= fuel_at(l0, 9) implies sp_expression_helper(l0, f)
                        == Step::Done(Err(e@), self@) by {
                        let g = (f - 1) as nat;
                        assert(g >= fuel_at(l0, 8));
                        assert(sp_atom(l0, g) == Step::Done(arm, self@));
                    }
                }
                return Err(e);
            },
        };
        let ghost am = next_atom@;
        let r = self.parse_binary(next_atom, 0);
        proof {
            assert forall|f: nat|
                sp_expression_helper(l0, f) == Step::OutOfFuel || sp_expression_helper(l0, f)
                    == Step::Done(res_of(r), self@) by {
                if f > 0 {
                    let g = (f - 1) as nat;
                    assert(sp_atom(l0, g) == Step::OutOfFuel || sp_atom(l0, g) == Step::Done(
                        Ok(am),
                        l1,
                    ));
                    assert(sp_binary(am, 0, l1, g) == Step::OutOfFuel || sp_binary(am, 0, l1, g)
                        == Step::Done(res_of(r), self@));
                }
            }
            assert forall|f: nat| f >= fuel_at(l0, 9) implies sp_expression_helper(l0, f)
                == Step::Done(res_of(r), self@) by {
                let g = (f - 1) as nat;
                assert(g >= fuel_at(l0, 8));
                assert(sp_atom(l0, g) == Step::Done(Ok(am), l1));
                assert(g >= fuel_at(l1, 2));
                assert(sp_binary(am, 0, l1, g) == Step::Done(res_of(r), self@));
            }
        }
        r
    }

    /// The atom body, dispatching on the peeked token: a parenthesized
    /// expression, a brace sequence, a keyword-led construct, or a leaf
    /// token. Follows `sp_atom_helper` exactly.
    #[verifier::rlimit(100)]
    #[verifier::spinoff_prover]
    fn parse_atom_helper(&mut self) -> (r: Result<ASTNode, Error>)
        requires
            old(self).wf(),
        ensures
            final(self).wf(),
            forall|f: nat|
                sp_atom_helper(old(self)@, f) == Step::OutOfFuel || sp_atom_helper(old(self)@, f)
                    == Step::Done(res_of(r), final(self)@),
            forall|f: nat|
                f >= fuel_at(old(self)@, 6) ==> sp_atom_helper(old(self)@, f) == Step::Done(
                    res_of(r),
                    final(self)@,
                ),
            lex_measure(final(self)@) <= lex_measure(old(self)@),
            r is Ok ==> lex_measure(final(self)@) < lex_measure(old(self)@),
        decreases lex_measure(self@), 6int,
    {
        let ghost l0 = self@;
        let t = match self.lexer.peek() {
            Ok(t) => t,
            Err(e) => {
                return Err(e);
            },
        };
        let ghost l2 = self@;
        match t {
            Token::Delimiter(d) => {
                if d == '(' {
                    match self.consume(Token::Delimiter('(')) {
                        Ok(_) => (),
                        Err(e) => {
                            return Err(e);
                        },
                    };
                    let ghost l3 = self@;
                    let exp = self.parse_expression();
                    let ghost em = res_of(exp);
                    let ghost l4 = self@;
                    match self.consume(Token::Delimiter(')')) {
                        Ok(_) => (),
                        Err(e) => {
                            proof {
                                assert forall|f: nat|
                                    sp_atom_helper(l0, f) == Step::OutOfFuel || sp_atom_helper(
                                        l0,
                                        f,
                                    ) == Step::Done(Err(e@), self@) by {
                                    if f > 0 {
                                        let g = (f - 1) as nat;
                                        assert(sp_expression(l3, g) == Step::OutOfFuel
                                            || sp_expression(l3, g) == Step::Done(em, l4));
                                    }
                                }
                                assert forall|f: nat| f >= fuel_at(l0, 6) implies sp_atom_helper(
                                    l0,
                                    f,
                                ) == Step::Done(Err(e@), self@) by {
                                    let g = (f - 1) as nat;
                                    assert(g >= fuel_at(l3, 11));
                                    assert(sp_expression(l3, g) == Step::Done(em, l4));
                                }
                            }
                            return Err(e);
                        },
                    };
                    proof {
                        assert forall|f: nat|
                            sp_atom_helper(l0, f) == Step::OutOfFuel || sp_atom_helper(l0, f)
                                == Step::Done(em, self@) by {
                            if f > 0 {
                                let g = (f - 1) as nat;
                                assert(sp_expression(l3, g) == Step::OutOfFuel || sp_expression(
                                    l3,
                                    g,
                                ) == Step::Done(em, l4));
                            }
                        }
                        assert forall|f: nat| f >= fuel_at(l0, 6) implies sp_atom_helper(l0, f)
                            == Step::Done(em, self@) by {
                            let g = (f - 1) as nat;
                            assert(g >= fuel_at(l3, 11));
                            assert(sp_expression(l3, g) == Step::Done(em, l4));
                        }
                    }
                    exp
                } else if d == '{' {
                    let r = self.parse_sequence();
                    proof {
                        assert forall|f: nat|
                            sp_atom_helper(l0, f) == Step::OutOfFuel || sp_atom_helper(l0, f)
                                == Step::Done(res_of(r), self@) by {
                            if f > 0 {
                                let g = (f - 1) as nat;
                                assert(sp_sequence(l2, g) == Step::OutOfFuel || sp_sequence(l2, g)
                                    == Step::Done(res_of(r), self@));
                            }
                        }
                        assert forall|f: nat| f >= fuel_at(l0, 6) implies sp_atom_helper(l0, f)
                            == Step::Done(res_of(r), self@) by {
                            let g = (f - 1) as nat;
                            assert(g >= fuel_at(l2, 5));
                            assert(sp_sequence(l2, g) == Step::Done(res_of(r), self@));
                        }
                    }
                    r
                } else {
                    self.classify_token()
                }
            },
            Token::Keyword(kw) => {
                if str_eq_lit(kw.as_str(), "if") {
                    let r = self.parse_conditional();
                    proof {
                        assert forall|f: nat|
                            sp_atom_helper(l0, f) == Step::OutOfFuel || sp_atom_helper(l0, f)
                                == Step::Done(res_of(r), self@) by {
                            if f > 0 {
                                let g = (f - 1) as nat;
                                assert(sp_conditional(l2, g) == Step::OutOfFuel || sp_conditional(
                                    l2,
                                    g,
                                ) == Step::Done(res_of(r), self@));
                            }
                        }
                        assert forall|f: nat| f >= fuel_at(l0, 6) implies sp_atom_helper(l0, f)
                            == Step::Done(res_of(r), self@) by {
                            let g = (f - 1) as nat;
                            assert(g >= fuel_at(l2, 3));
                            assert(sp_conditional(l2, g) == Step::Done(res_of(r), self@));
                        }
                    }
                    r
                } else if str_eq_lit(kw.as_str(), "true") || str_eq_lit(kw.as_str(), "false") {
                    self.parse_bool()
                } else if str_eq_lit(kw.as_str(), "fn") {
                    let r = self.parse_declaration();
                    proof {
                        assert forall|f: nat|
                            sp_atom_helper(l0, f) == Step::OutOfFuel || sp_atom_helper(l0, f)
                                == Step::Done(res_of(r), self@) by {
                            if f > 0 {
                                let g = (f - 1) as nat;
                                assert(sp_declaration(l2, g) == Step::OutOfFuel || sp_declaration(
                                    l2,
                                    g,
                                ) == Step::Done(res_of(r), self@));
                            }
                        }
                        assert forall|f: nat| f >= fuel_at(l0, 6) implies sp_atom_helper(l0, f)
                            == Step::Done(res_of(r), self@) by {
                            let g = (f - 1) as nat;
                            assert(g >= fuel_at(l2, 3));
                            assert(sp_declaration(l2, g) == Step::Done(res_of(r), self@));
                        }
                    }
                    r
                } else {
                    let mut m = String::from_str("Unexpected keyword ");
                    m.append(kw.as_str());
                    Err(self.lexer.get_error(m))
                }
            },
            _ => self.classify_token(),
        }
    }

    /// Precedence climbing: see `sp_binary`, which this follows exactly. An
    /// operator of insufficient precedence is left unconsumed, which makes
    /// equal-precedence chains group to the left; an operator text outside
    /// the table is a parse error.
    #[verifier::rlimit(100)]
    #[verifier::spinoff_prover]
    fn parse_binary(&mut self, lhs: ASTNode, lhs_prec: u32) -> (r: Result<ASTNode, Error>)
        requires
            old(self).wf(),
        ensures
            final(self).wf(),
            forall|f: nat|
                sp_binary(lhs@, lhs_prec as int, old(self)@, f) == Step::OutOfFuel || sp_binary(
                    lhs@,
                    lhs_prec as int,
                    old(self)@,
                    f,
                ) == Step::Done(res_of(r), final(self)@),
            forall|f: nat|
                f >= fuel_at(old(self)@, 2) ==> sp_binary(lhs@, lhs_prec as int, old(self)@, f)
                    == Step::Done(res_of(r), final(self)@),
            lex_measure(final(self)@) <= lex_measure(old(self)@),
        decreases lex_measure(self@), 2int,
    {
        let ghost l0 = self@;
        let ghost lm = lhs@;
        let ghost mp = lhs_prec as int;
        let t = match self.lexer.peek() {
            Ok(t) => t,
            Err(e) => {
                return Err(e);
            },
        };
        let ghost l2 = self@;
        match t {
            Token::Operator(op) => {
                let ghost opm = op@;
                if !is_known_operator(op.as_str()) {
                    let mut m = String::from_str("Unknown operator ");
                    m.append(op.as_str());
                    return Err(self.lexer.get_error(m));
                }
                let rhs_prec = Parser::get_precedence(op.as_str());
                let ghost pr = spec_precedence(opm);
                if rhs_prec > lhs_prec {
                    match self.lexer.get_token() {
                        Ok(_) => (),
                        Err(e) => {
                            return Err(e);
                        },
                    };
                    let ghost l3 = self@;
                    let next_atom = match self.parse_atom() {
                        Ok(n) => n,
                        Err(e) => {
                            proof {
                                assert forall|f: nat|
                                    sp_binary(lm, mp, l0, f) == Step::OutOfFuel || sp_binary(
                                        lm,
                                        mp,
                                        l0,
                                        f,
                                    ) == Step::Done(Err(e@), self@) by {
                                    if f > 0 {
                                        let g = (f - 1) as nat;
                                        assert(sp_atom(l3, g) == Step::OutOfFuel || sp_atom(l3, g)
                                            == Step::Done(Err(e@), self@));
                                    }
                                }
                                assert forall|f: nat| f >= fuel_at(l0, 2) implies sp_binary(
                                    lm,
                                    mp,
                                    l0,
                                    f,
                                ) == Step::Done(Err(e@), self@) by {
                                    let g = (f - 1) as nat;
                                    assert(g >= fuel_at(l3, 8));
                                    assert(sp_atom(l3, g) == Step::Done(Err(e@), self@));
                                }
                            }
                            return Err(e);
                        },
                    };
                    let ghost am = next_atom@;
                    let ghost l4 = self@;
                    let next_binary = match self.parse_binary(next_atom, rhs_prec) {
                        Ok(n) => n,
                        Err(e) => {
                            proof {
                                assert forall|f: nat|
                                    sp_binary(lm, mp, l0, f) == Step::OutOfFuel || sp_binary(
                                        lm,
                                        mp,
                                        l0,
                                        f,
                                    ) == Step::Done(Err(e@), self@) by {
                                    if f > 0 {
                                        let g = (f - 1) as nat;
                                        assert(sp_atom(l3, g) == Step::OutOfFuel || sp_atom(l3, g)
                                            == Step::Done(Ok(am), l4));
                                        assert(sp_binary(am, pr, l4, g) == Step::OutOfFuel
                                            || sp_binary(am, pr, l4, g) == Step::Done(
                                            Err(e@),
                                            self@,
                                        ));
                                    }
                                }
                                assert forall|f: nat| f >= fuel_at(l0, 2) implies sp_binary(
                                    lm,
                                    mp,
                                    l0,
                                    f,
                                ) == Step::Done(Err(e@), self@) by {
                                    let g = (f - 1) as nat;
                                    assert(g >= fuel_at(l3, 8));
                                    assert(sp_atom(l3, g) == Step::Done(Ok(am), l4));
                                    assert(g >= fuel_at(l4, 2));
                                    assert(sp_binary(am, pr, l4, g) == Step::Done(Err(e@), self@));
                                }
                            }
                            return Err(e);
                        },
                    };
                    let ghost bm = next_binary@;
                    let ghost l5 = self@;
                    let big = ASTNode::Binary {
                        op: Token::Operator(op),
                        lhs: Box::new(lhs),
                        rhs: Box::new(next_binary),
                    };
                    let ghost bigm = big@;
                    let r = self.parse_binary(big, lhs_prec);
                    proof {
                        assert(bigm == (NodeModel::Binary {
                            op: TokenModel::Operator(opm),
                            lhs: Box::new(lm),
                            rhs: Box::new(bm),
                        }));
                        assert forall|f: nat|
                            sp_binary(lm, mp, l0, f) == Step::OutOfFuel || sp_binary(
                                lm,
                                mp,
                                l0,
                                f,
                            ) == Step::Done(res_of(r), self@) by {
                            if f > 0 {
                                let g = (f - 1) as nat;
                                assert(sp_atom(l3, g) == Step::OutOfFuel || sp_atom(l3, g)
                                    == Step::Done(Ok(am), l4));
                                assert(sp_binary(am, pr, l4, g) == Step::OutOfFuel || sp_binary(
                                    am,
                                    pr,
                                    l4,
                                    g,
                                ) == Step::Done(Ok(bm), l5));
                                assert(sp_binary(bigm, mp, l5, g) == Step::OutOfFuel || sp_binary(
                                    bigm,
                                    mp,
                                    l5,
                                    g,
                                ) == Step::Done(res_of(r), self@));
                            }
                        }
                        assert forall|f: nat| f >= fuel_at(l0, 2) implies sp_binary(lm, mp, l0, f)
                            == Step::Done(res_of(r), self@) by {
                            let g = (f - 1) as nat;
                            assert(g >= fuel_at(l3, 8));
                            assert(sp_atom(l3, g) == Step::Done(Ok(am), l4));
                            assert(g >= fuel_at(l4, 2));
                            assert(sp_binary(am, pr, l4, g) == Step::Done(Ok(bm), l5));
                            assert(g >= fuel_at(l5, 2));
                            assert(sp_binary(bigm, mp, l5, g) == Step::Done(res_of(r), self@));
                        }
                    }
                    r
                } else {
                    Ok(lhs)
                }
            },
            _ => Ok(lhs),
        }
    }

    /// A conditional: `if <cond> [then] <if-body> [else <else-body>]`. After
    /// the condition, a keyword other than `then` is an error naming it, and
    /// so is running out of input; any other token begins the if-body
    /// directly. Follows `sp_conditional` exactly.
    #[verifier::rlimit(100)]
    #[verifier::spinoff_prover]
    fn parse_conditional(&mut self) -> (r: Result<ASTNode, Error>)
        requires
            old(self).wf(),
        ensures
            final(self).wf(),
            forall|f: nat|
                sp_conditional(old(self)@, f) == Step::OutOfFuel || sp_conditional(old(self)@, f)
                    == Step::Done(res_of(r), final(self)@),
            forall|f: nat|
                f >= fuel_at(old(self)@, 3) ==> sp_conditional(old(self)@, f) == Step::Done(
                    res_of(r),
                    final(self)@,
                ),
            lex_measure(final(self)@) <= lex_measure(old(self)@),
            r is Ok ==> lex_measure(final(self)@) < lex_measure(old(self)@),
        decreases lex_measure(old(self)@), 3int,
    {
        let ghost l0 = self@;
        let tok_if = Token::Keyword(String::from_str("if"));
        let ghost tv = tok_if@;
        match self.consume(tok_if) {
            Ok(_) => (),
            Err(e) => {
                return Err(e);
            },
        };
        proof {
            assert(lex_measure(self@) < lex_measure(l0));
        }
        let ghost l1 = self@;
        let cond_res = self.parse_expression();
        let ghost crm = res_of(cond_res);
        let cond = match cond_res {
            Ok(n) => n,
            Err(e) => {
                proof {
                    assert forall|f: nat|
                        sp_conditional(l0, f) == Step::OutOfFuel || sp_conditional(l0, f)
                            == Step::Done(Err(e@), self@) by {
                        if f > 0 {
                            let g = (f - 1) as nat;
                            assert(sp_expression(l1, g) == Step::OutOfFuel || sp_expression(l1, g)
                                == Step::Done(crm, self@));
                        }
                    }
                    assert forall|f: nat| f >= fuel_at(l0, 3) implies sp_conditional(l0, f)
                        == Step::Done(Err(e@), self@) by {
                        let g = (f - 1) as nat;
                        assert(g >= fuel_at(l1, 11));
                        assert(sp_expression(l1, g) == Step::Done(crm, self@));
                    }
                }
                return Err(e);
            },
        };
        let ghost cm = cond@;
        let ghost l2 = self@;
        let t = match self.lexer.peek() {
            Ok(t) => t,
            Err(e) => {
                proof {
                    assert forall|f: nat|
                        sp_conditional(l0, f) == Step::OutOfFuel || sp_conditional(l0, f)
                            == Step::Done(Err(e@), self@) by {
                        if f > 0 {
                            let g = (f - 1) as nat;
                            assert(sp_expression(l1, g) == Step::OutOfFuel || sp_expression(l1, g)
                                == Step::Done(Ok(cm), l2));
                        }
                    }
                    assert forall|f: nat| f >= fuel_at(l0, 3) implies sp_conditional(l0, f)
                        == Step::Done(Err(e@), self@) by {
                        let g = (f - 1) as nat;
                        assert(g >= fuel_at(l1, 11));
                        assert(sp_expression(l1, g) == Step::Done(Ok(cm), l2));
                    }
                }
                return Err(e);
            },
        };
        let ghost l3 = self@;
        match t {
            Token::Keyword(kw) => {
                if str_eq_lit(kw.as_str(), "then") {
                    match self.consume(Token::Keyword(String::from_str("then"))) {
                        Ok(_) => (),
                        Err(e) => {
                            proof {
                                assert forall|f: nat|
                                    sp_conditional(l0, f) == Step::OutOfFuel || sp_conditional(
                                        l0,
                                        f,
                                    ) == Step::Done(Err(e@), self@) by {
                                    if f > 0 {
                                        let g = (f - 1) as nat;
                                        assert(sp_expression(l1, g) == Step::OutOfFuel
                                            || sp_expression(l1, g) == Step::Done(Ok(cm), l2));
                                    }
                                }
                                assert forall|f: nat| f >= fuel_at(l0, 3) implies sp_conditional(
                                    l0,
                                    f,
                                ) == Step::Done(Err(e@), self@) by {
                                    let g = (f - 1) as nat;
                                    assert(g >= fuel_at(l1, 11));
                                    assert(sp_expression(l1, g) == Step::Done(Ok(cm), l2));
                                }
                            }
                            return Err(e);
                        },
                    };
                } else {
                    let mut m = String::from_str("Unexpected keyword ");
                    m.append(kw.as_str());
                    m.append(" after if, expected then");
                    let e = self.lexer.get_error(m);
                    proof {
                        assert forall|f: nat|
                            sp_conditional(l0, f) == Step::OutOfFuel || sp_conditional(l0, f)
                                == Step::Done(Err(e@), self@) by {
                            if f > 0 {
                                let g = (f - 1) as nat;
                                assert(sp_expression(l1, g) == Step::OutOfFuel || sp_expression(
                                    l1,
                                    g,
                                ) == Step::Done(Ok(cm), l2));
                            }
                        }
                        assert forall|f: nat| f >= fuel_at(l0, 3) implies sp_conditional(l0, f)
                            == Step::Done(Err(e@), self@) by {
                            let g = (f - 1) as nat;
                            assert(g >= fuel_at(l1, 11));
                            assert(sp_expression(l1, g) == Step::Done(Ok(cm), l2));
                        }
                    }
                    return Err(e);
                }
            },
            Token::EOF => {
                let m = String::from_str("Missing keyword then after if condition");
                let e = self.lexer.get_error(m);
                proof {
                    assert forall|f: nat|
                        sp_conditional(l0, f) == Step::OutOfFuel || sp_conditional(l0, f)
                            == Step::Done(Err(e@), self@) by {
                        if f > 0 {
                            let g = (f - 1) as nat;
                            assert(sp_expression(l1, g) == Step::OutOfFuel || sp_expression(l1, g)
                                == Step::Done(Ok(cm), l2));
                        }
                    }
                    assert forall|f: nat| f >= fuel_at(l0, 3) implies sp_conditional(l0, f)
                        == Step::Done(Err(e@), self@) by {
                        let g = (f - 1) as nat;
                        assert(g >= fuel_at(l1, 11));
                        assert(sp_expression(l1, g) == Step::Done(Ok(cm), l2));
                    }
                }
                return Err(e);
            },
            _ => (),
        };
        let ghost l4 = self@;
        let r = self.parse_if_body(cond);
        proof {
            assert forall|f: nat|
                sp_conditional(l0, f) == Step::OutOfFuel || sp_conditional(l0, f) == Step::Done(
                    res_of(r),
                    self@,
                ) by {
                if f > 0 {
                    let g = (f - 1) as nat;
                    assert(sp_expression(l1, g) == Step::OutOfFuel || sp_expression(l1, g)
                        == Step::Done(Ok(cm), l2));
                    assert(sp_if_body(cm, l4, g) == Step::OutOfFuel || sp_if_body(cm, l4, g)
                        == Step::Done(res_of(r), self@));
                }
            }
            assert forall|f: nat| f >= fuel_at(l0, 3) implies sp_conditional(l0, f) == Step::Done(
                res_of(r),
                self@,
            ) by {
                let g = (f - 1) as nat;
                assert(g >= fuel_at(l1, 11));
                assert(sp_expression(l1, g) == Step::Done(Ok(cm), l2));
                assert(g >= fuel_at(l4, 12));
                assert(sp_if_body(cm, l4, g) == Step::Done(res_of(r), self@));
            }
        }
        r
    }

    /// The body of a conditional whose condition (and `then`, if written) is
    /// already parsed: the if-body expression, and an else-body exactly when
    /// the keyword `else` follows. Follows `sp_if_body` exactly.
    #[verifier::rlimit(100)]
    #[verifier::spinoff_prover]
    fn parse_if_body(&mut self, cond: ASTNode) -> (r: Result<ASTNode, Error>)
        requires
            old(self).wf(),
        ensures
            final(self).wf(),
            forall|f: nat|
                sp_if_body(cond@, old(self)@, f) == Step::OutOfFuel || sp_if_body(
                    cond@,
                    old(self)@,
                    f,
                ) == Step::Done(res_of(r), final(self)@),
            forall|f: nat|
                f >= fuel_at(old(self)@, 12) ==> sp_if_body(cond@, old(self)@, f) == Step::Done(
                    res_of(r),
                    final(self)@,
                ),
            lex_measure(final(self)@) <= lex_measure(old(self)@),
        decreases lex_measure(self@), 12int,
    {
        let ghost l0 = self@;
        let ghost cm = cond@;
        let ib_res = self.parse_expression();
        let ghost ibm = res_of(ib_res);
        let if_body = match ib_res {
            Ok(n) => n,
            Err(e) => {
                proof {
                    assert forall|f: nat|
                        sp_if_body(cm, l0, f) == Step::OutOfFuel || sp_if_body(cm, l0, f)
                            == Step::Done(Err(e@), self@) by {
                        if f > 0 {
                            let g = (f - 1) as nat;
                            assert(sp_expression(l0, g) == Step::OutOfFuel || sp_expression(l0, g)
                                == Step::Done(ibm, self@));
                        }
                    }
                    assert forall|f: nat| f >= fuel_at(l0, 12) implies sp_if_body(cm, l0, f)
                        == Step::Done(Err(e@), self@) by {
                        let g = (f - 1) as nat;
                        assert(g >= fuel_at(l0, 11));
                        assert(sp_expression(l0, g) == Step::Done(ibm, self@));
                    }
                }
                return Err(e);
            },
        };
        let ghost im = if_body@;
        let ghost l1 = self@;
        let t2 = match self.lexer.peek() {
            Ok(t) => t,
            Err(e) => {
                proof {
                    assert forall|f: nat|
                        sp_if_body(cm, l0, f) == Step::OutOfFuel || sp_if_body(cm, l0, f)
                            == Step::Done(Err(e@), self@) by {
                        if f > 0 {
                            let g = (f - 1) as nat;
                            assert(sp_expression(l0, g) == Step::OutOfFuel || sp_expression(l0, g)
                                == Step::Done(Ok(im), l1));
                        }
                    }
                    assert forall|f: nat| f >= fuel_at(l0, 12) implies sp_if_body(cm, l0, f)
                        == Step::Done(Err(e@), self@) by {
                        let g = (f - 1) as nat;
                        assert(g >= fuel_at(l0, 11));
                        assert(sp_expression(l0, g) == Step::Done(Ok(im), l1));
                    }
                }
                return Err(e);
            },
        };
        let ghost l2 = self@;
        let else_body: Option<ASTNode>;
        if t2 == Token::Keyword(String::from_str("else")) {
            match self.consume(Token::Keyword(String::from_str("else"))) {
                Ok(_) => (),
                Err(e) => {
                    proof {
                        assert forall|f: nat|
                            sp_if_body(cm, l0, f) == Step::OutOfFuel || sp_if_body(cm, l0, f)
                                == Step::Done(Err(e@), self@) by {
                            if f > 0 {
                                let g = (f - 1) as nat;
                                assert(sp_expression(l0, g) == Step::OutOfFuel || sp_expression(
                                    l0,
                                    g,
                                ) == Step::Done(Ok(im), l1));
                            }
                        }
                        assert forall|f: nat| f >= fuel_at(l0, 12) implies sp_if_body(cm, l0, f)
                            == Step::Done(Err(e@), self@) by {
                            let g = (f - 1) as nat;
                            assert(g >= fuel_at(l0, 11));
                            assert(sp_expression(l0, g) == Step::Done(Ok(im), l1));
                        }
                    }
                    return Err(e);
                },
            };
            let ghost l3 = self@;
            let eb = match self.parse_expression() {
                Ok(n) => n,
                Err(e) => {
                    proof {
                        assert forall|f: nat|
                            sp_if_body(cm, l0, f) == Step::OutOfFuel || sp_if_body(cm, l0, f)
                                == Step::Done(Err(e@), self@) by {
                            if f > 0 {
                                let g = (f - 1) as nat;
                                assert(sp_expression(l0, g) == Step::OutOfFuel || sp_expression(
                                    l0,
                                    g,
                                ) == Step::Done(Ok(im), l1));
                                assert(sp_expression(l3, g) == Step::OutOfFuel || sp_expression(
                                    l3,
                                    g,
                                ) == Step::Done(Err(e@), self@));
                            }
                        }
                        assert forall|f: nat| f >= fuel_at(l0, 12) implies sp_if_body(cm, l0, f)
                            == Step::Done(Err(e@), self@) by {
                            let g = (f - 1) as nat;
                            assert(g >= fuel_at(l0, 11));
                            assert(sp_expression(l0, g) == Step::Done(Ok(im), l1));
                            assert(g >= fuel_at(l3, 11));
                            assert(sp_expression(l3, g) == Step::Done(Err(e@), self@));
                        }
                    }
                    return Err(e);
                },
            };
            let ghost em = eb@;
            let r = Ok(
                ASTNode::Conditional {
                    cond: Box::new(cond),
                    if_body: Box::new(if_body),
                    else_body: Box::new(Some(eb)),
                },
            );
            proof {
                assert forall|f: nat|
                    sp_if_body(cm, l0, f) == Step::OutOfFuel || sp_if_body(cm, l0, f)
                        == Step::Done(res_of(r), self@) by {
                    if f > 0 {
                        let g = (f - 1) as nat;
                        assert(sp_expression(l0, g) == Step::OutOfFuel || sp_expression(l0, g)
                            == Step::Done(Ok(im), l1));
                        assert(sp_expression(l3, g) == Step::OutOfFuel || sp_expression(l3, g)
                            == Step::Done(Ok(em), self@));
                    }
                }
                assert forall|f: nat| f >= fuel_at(l0, 12) implies sp_if_body(cm, l0, f)
                    == Step::Done(res_of(r), self@) by {
                    let g = (f - 1) as nat;
                    assert(g >= fuel_at(l0, 11));
                    assert(sp_expression(l0, g) == Step::Done(Ok(im), l1));
                    assert(g >= fuel_at(l3, 11));
                    assert(sp_expression(l3, g) == Step::Done(Ok(em), self@));
                }
            }
            return r;
        } else {
            else_body = None;
        }
        let r = Ok(
            ASTNode::Conditional {
                cond: Box::new(cond),
                if_body: Box::new(if_body),
                else_body: Box::new(else_body),
            },
        );
        proof {
            assert forall|f: nat|
                sp_if_body(cm, l0, f) == Step::OutOfFuel || sp_if_body(cm, l0, f) == Step::Done(
                    res_of(r),
                    self@,
                ) by {
                if f > 0 {
                    let g = (f - 1) as nat;
                    assert(sp_expression(l0, g) == Step::OutOfFuel || sp_expression(l0, g)
                        == Step::Done(Ok(im), l1));
                }
            }
            assert forall|f: nat| f >= fuel_at(l0, 12) implies sp_if_body(cm, l0, f) == Step::Done(
                res_of(r),
                self@,
            ) by {
                let g = (f - 1) as nat;
                assert(g >= fuel_at(l0, 11));
                assert(sp_expression(l0, g) == Step::Done(Ok(im), l1));
            }
        }
        r
    }

    /// A function declaration: `fn [name] ( arg, … ) { … }`; the name is a
    /// variable token if one follows `fn`, else the function is anonymous.
    /// Follows `sp_declaration` exactly.
    #[verifier::rlimit(100)]
    #[verifier::spinoff_prover]
    fn parse_declaration(&mut self) -> (r: Result<ASTNode, Error>)
        requires
            old(self).wf(),
        ensures
            final(self).wf(),
            forall|f: nat|
                sp_declaration(old(self)@, f) == Step::OutOfFuel || sp_declaration(old(self)@, f)
                    == Step::Done(res_of(r), final(self)@),
            forall|f: nat|
                f >= fuel_at(old(self)@, 3) ==> sp_declaration(old(self)@, f) == Step::Done(
                    res_of(r),
                    final(self)@,
                ),
            lex_measure(final(self)@) <= lex_measure(old(self)@),
            r is Ok ==> lex_measure(final(self)@) < lex_measure(old(self)@),
        decreases lex_measure(self@), 3int,
    {
        let ghost l0 = self@;
        match self.consume(Token::Keyword(String::from_str("fn"))) {
            Ok(_) => (),
            Err(e) => {
                return Err(e);
            },
        };
        let t = match self.lexer.peek() {
            Ok(t) => t,
            Err(e) => {
                return Err(e);
            },
        };
        let name: Option<ASTNode> = match t {
            Token::Variable(nm) => {
                match self.lexer.get_token() {
                    Ok(_) => (),
                    Err(e) => {
                        return Err(e);
                    },
                };
                Some(ASTNode::Name(nm))
            },
            _ => None,
        };
        let ghost nmod = name_model(name);
        let ghost l3 = self@;
        let r = self.parse_decl_args(name);
        proof {
            assert forall|f: nat|
                sp_declaration(l0, f) == Step::OutOfFuel || sp_declaration(l0, f) == Step::Done(
                    res_of(r),
                    self@,
                ) by {
                if f > 0 {
                    let g = (f - 1) as nat;
                    assert(sp_decl_args(nmod, l3, g) == Step::OutOfFuel || sp_decl_args(
                        nmod,
                        l3,
                        g,
                    ) == Step::Done(res_of(r), self@));
                }
            }
            assert forall|f: nat| f >= fuel_at(l0, 3) implies sp_declaration(l0, f) == Step::Done(
                res_of(r),
                self@,
            ) by {
                let g = (f - 1) as nat;
                assert(g >= fuel_at(l3, 6));
                assert(sp_decl_args(nmod, l3, g) == Step::Done(res_of(r), self@));
            }
        }
        r
    }

    /// The argument list and body of a declaration whose (optional) name is
    /// already parsed. Follows `sp_decl_args` exactly.
    #[verifier::rlimit(100)]
    #[verifier::spinoff_prover]
    fn parse_decl_args(&mut self, name: Option<ASTNode>) -> (r: Result<ASTNode, Error>)
        requires
            old(self).wf(),
        ensures
            final(self).wf(),
            forall|f: nat|
                sp_decl_args(name_model(name), old(self)@, f) == Step::OutOfFuel || sp_decl_args(
                    name_model(name),
                    old(self)@,
                    f,
                ) == Step::Done(res_of(r), final(self)@),
            forall|f: nat|
                f >= fuel_at(old(self)@, 6) ==> sp_decl_args(name_model(name), old(self)@, f)
                    == Step::Done(res_of(r), final(self)@),
            lex_measure(final(self)@) <= lex_measure(old(self)@),
        decreases lex_measure(self@), 6int,
    {
        let ghost l0 = self@;
        let ghost nmod = name_model(name);
        let args_res = self.parse_delimited('(', ',', ')', ElemKind::VariableName);
        let ghost am = resv_of(args_res);
        let args = match args_res {
            Ok(v) => v,
            Err(e) => {
                proof {
                    assert forall|f: nat|
                        sp_decl_args(nmod, l0, f) == Step::OutOfFuel || sp_decl_args(nmod, l0, f)
                            == Step::Done(Err(e@), self@) by {
                        if f > 0 {
                            let g = (f - 1) as nat;
                            assert(sp_delimited('(', ',', ')', ElemKind::VariableName, l0, g)
                                == StepVec::OutOfFuel || sp_delimited(
                                '(',
                                ',',
                                ')',
                                ElemKind::VariableName,
                                l0,
                                g,
                            ) == StepVec::Done(am, self@));
                        }
                    }
                    assert forall|f: nat| f >= fuel_at(l0, 6) implies sp_decl_args(nmod, l0, f)
                        == Step::Done(Err(e@), self@) by {
                        let g = (f - 1) as nat;
                        assert(g >= fuel_at(l0, 4));
                        assert(sp_delimited('(', ',', ')', ElemKind::VariableName, l0, g)
                            == StepVec::Done(am, self@));
                    }
                }
                return Err(e);
            },
        };
        let ghost avm = views_of(args@);
        let ghost l2 = self@;
        let body_res = self.parse_sequence();
        let ghost bm = res_of(body_res);
        let r: Result<ASTNode, Error> = match body_res {
            Ok(body) => Ok(ASTNode::Function { name: Box::new(name), args, body: Box::new(body) }),
            Err(e) => Err(e),
        };
        proof {
            assert forall|f: nat|
                sp_decl_args(nmod, l0, f) == Step::OutOfFuel || sp_decl_args(nmod, l0, f)
                    == Step::Done(res_of(r), self@) by {
                if f > 0 {
                    let g = (f - 1) as nat;
                    assert(sp_delimited('(', ',', ')', ElemKind::VariableName, l0, g)
                        == StepVec::OutOfFuel || sp_delimited(
                        '(',
                        ',',
                        ')',
                        ElemKind::VariableName,
                        l0,
                        g,
                    ) == StepVec::Done(Ok(avm), l2));
                    assert(sp_sequence(l2, g) == Step::OutOfFuel || sp_sequence(l2, g)
                        == Step::Done(bm, self@));
                }
            }
            assert forall|f: nat| f >= fuel_at(l0, 6) implies sp_decl_args(nmod, l0, f)
                == Step::Done(res_of(r), self@) by {
                let g = (f - 1) as nat;
                assert(g >= fuel_at(l0, 4));
                assert(sp_delimited('(', ',', ')', ElemKind::VariableName, l0, g) == StepVec::Done(
                    Ok(avm),
                    l2,
                ));
                assert(g >= fuel_at(l2, 5));
                assert(sp_sequence(l2, g) == Step::Done(bm, self@));
            }
        }
        r
    }

    /// A brace-delimited sequence block with collapsing: zero elements give
    /// `Boolean(false)`, one element stands alone, more make a `Sequence`.
    /// Follows `sp_sequence` exactly.
    #[verifier::rlimit(100)]
    #[verifier::spinoff_prover]
    fn parse_sequence(&mut self) -> (r: Result<ASTNode, Error>)
        requires
            old(self).wf(),
        ensures
            final(self).wf(),
            forall|f: nat|
                sp_sequence(old(self)@, f) == Step::OutOfFuel || sp_sequence(old(self)@, f)
                    == Step::Done(res_of(r), final(self)@),
            forall|f: nat|
                f >= fuel_at(old(self)@, 5) ==> sp_sequence(old(self)@, f) == Step::Done(
                    res_of(r),
                    final(self)@,
                ),
            lex_measure(final(self)@) <= lex_measure(old(self)@),
            r is Ok ==> lex_measure(final(self)@) < lex_measure(old(self)@),
        decreases lex_measure(self@), 5int,
    {
        let ghost l0 = self@;
        let res = self.parse_delimited('{', ';', '}', ElemKind::Expression);
        let ghost rm = resv_of(res);
        let items = match res {
            Ok(v) => v,
            Err(e) => {
                proof {
                    assert forall|f: nat|
                        sp_sequence(l0, f) == Step::OutOfFuel || sp_sequence(l0, f) == Step::Done(
                            Err(e@),
                            self@,
                        ) by {
                        if f > 0 {
                            let g = (f - 1) as nat;
                            assert(sp_delimited('{', ';', '}', ElemKind::Expression, l0, g)
                                == StepVec::OutOfFuel || sp_delimited(
                                '{',
                                ';',
                                '}',
                                ElemKind::Expression,
                                l0,
                                g,
                            ) == StepVec::Done(rm, self@));
                        }
                    }
                    assert forall|f: nat| f >= fuel_at(l0, 5) implies sp_sequence(l0, f)
                        == Step::Done(Err(e@), self@) by {
                        let g = (f - 1) as nat;
                        assert(g >= fuel_at(l0, 4));
                        assert(sp_delimited('{', ';', '}', ElemKind::Expression, l0, g)
                            == StepVec::Done(rm, self@));
                    }
                }
                return Err(e);
            },
        };
        let ghost vm = views_of(items@);
        proof {
            lemma_views_of_index(items@);
        }
        let r: Result<ASTNode, Error>;
        if items.len() == 0 {
            r = Ok(ASTNode::Boolean(false));
        } else if items.len() == 1 {
            let mut v = items;
            match v.pop() {
                Some(n) => {
                    r = Ok(n);
                },
                None => {
                    proof {
                        assert(false);
                    }
                    let m = String::new();
                    r = Err(self.lexer.get_error(m));
                },
            }
        } else {
            r = Ok(ASTNode::Sequence(items));
        }
        proof {
            assert forall|f: nat|
                sp_sequence(l0, f) == Step::OutOfFuel || sp_sequence(l0, f) == Step::Done(
                    res_of(r),
                    self@,
                ) by {
                if f > 0 {
                    let g = (f - 1) as nat;
                    assert(sp_delimited('{', ';', '}', ElemKind::Expression, l0, g)
                        == StepVec::OutOfFuel || sp_delimited(
                        '{',
                        ';',
                        '}',
                        ElemKind::Expression,
                        l0,
                        g,
                    ) == StepVec::Done(Ok(vm), self@));
                }
            }
            assert forall|f: nat| f >= fuel_at(l0, 5) implies sp_sequence(l0, f) == Step::Done(
                res_of(r),
                self@,
            ) by {
                let g = (f - 1) as nat;
                assert(g >= fuel_at(l0, 4));
                assert(sp_delimited('{', ';', '}', ElemKind::Expression, l0, g) == StepVec::Done(
                    Ok(vm),
                    self@,
                ));
            }
        }
        r
    }

    /// A delimited list: `open`, elements separated by `sep` (a separator
    /// directly before `close` is not permitted), then `close`. Follows
    /// `sp_delimited` exactly.
    #[verifier::rlimit(100)]
    #[verifier::spinoff_prover]
    fn parse_delimited(&mut self, od: char, sep: char, cd: char, k: ElemKind) -> (r: Result<
        Vec<ASTNode>,
        Error,
    >)
        requires
            old(self).wf(),
        ensures
            final(self).wf(),
            forall|f: nat|
                sp_delimited(od, sep, cd, k, old(self)@, f) == StepVec::OutOfFuel || sp_delimited(
                    od,
                    sep,
                    cd,
                    k,
                    old(self)@,
                    f,
                ) == StepVec::Done(resv_of(r), final(self)@),
            forall|f: nat|
                f >= fuel_at(old(self)@, 4) ==> sp_delimited(od, sep, cd, k, old(self)@, f)
                    == StepVec::Done(resv_of(r), final(self)@),
            lex_measure(final(self)@) <= lex_measure(old(self)@),
            r is Ok ==> lex_measure(final(self)@) < lex_measure(old(self)@),
        decreases lex_measure(self@), 4int,
    {
        let ghost l0 = self@;
        match self.consume(Token::Delimiter(od)) {
            Ok(_) => (),
            Err(e) => {
                return Err(e);
            },
        };
        let ghost l1 = self@;
        let items_res = self.parse_delim_rest(sep, cd, k, true);
        let ghost irm = resv_of(items_res);
        let items = match items_res {
            Ok(v) => v,
            Err(e) => {
                proof {
                    assert forall|f: nat|
                        sp_delimited(od, sep, cd, k, l0, f) == StepVec::OutOfFuel || sp_delimited(
                            od,
                            sep,
                            cd,
                            k,
                            l0,
                            f,
                        ) == StepVec::Done(Err(e@), self@) by {
                        if f > 0 {
                            let g = (f - 1) as nat;
                            assert(sp_delim_rest(sep, cd, k, true, l1, g) == StepVec::OutOfFuel
                                || sp_delim_rest(sep, cd, k, true, l1, g) == StepVec::Done(
                                irm,
                                self@,
                            ));
                        }
                    }
                    assert forall|f: nat| f >= fuel_at(l0, 4) implies sp_delimited(
                        od,
                        sep,
                        cd,
                        k,
                        l0,
                        f,
                    ) == StepVec::Done(Err(e@), self@) by {
                        let g = (f - 1) as nat;
                        assert(g >= fuel_at(l1, 14));
                        assert(sp_delim_rest(sep, cd, k, true, l1, g) == StepVec::Done(
                            irm,
                            self@,
                        ));
                    }
                }
                return Err(e);
            },
        };
        let ghost ivm = views_of(items@);
        let ghost l2 = self@;
        let r: Result<Vec<ASTNode>, Error> = match self.consume(Token::Delimiter(cd)) {
            Ok(_) => Ok(items),
            Err(e) => Err(e),
        };
        proof {
            assert forall|f: nat|
                sp_delimited(od, sep, cd, k, l0, f) == StepVec::OutOfFuel || sp_delimited(
                    od,
                    sep,
                    cd,
                    k,
                    l0,
                    f,
                ) == StepVec::Done(resv_of(r), self@) by {
                if f > 0 {
                    let g = (f - 1) as nat;
                    assert(sp_delim_rest(sep, cd, k, true, l1, g) == StepVec::OutOfFuel
                        || sp_delim_rest(sep, cd, k, true, l1, g) == StepVec::Done(Ok(ivm), l2));
                }
            }
            assert forall|f: nat| f >= fuel_at(l0, 4) implies sp_delimited(od, sep, cd, k, l0, f)
                == StepVec::Done(resv_of(r), self@) by {
                let g = (f - 1) as nat;
                assert(g >= fuel_at(l1, 14));
                assert(sp_delim_rest(sep, cd, k, true, l1, g) == StepVec::Done(Ok(ivm), l2));
            }
        }
        r
    }

    /// The element loop of a delimited list: stop before `close` or at end of
    /// input; between elements, after the first, a separator is required.
    /// Follows `sp_delim_rest` exactly.
    #[verifier::rlimit(100)]
    #[verifier::spinoff_prover]
    fn parse_delim_rest(&mut self, sep: char, cd: char, k: ElemKind, first: bool) -> (r: Result<
        Vec<ASTNode>,
        Error,
    >)
        requires
            old(self).wf(),
        ensures
            final(self).wf(),
            forall|f: nat|
                sp_delim_rest(sep, cd, k, first, old(self)@, f) == StepVec::OutOfFuel
                    || sp_delim_rest(sep, cd, k, first, old(self)@, f) == StepVec::Done(
                    resv_of(r),
                    final(self)@,
                ),
            forall|f: nat|
                f >= fuel_at(old(self)@, 14) ==> sp_delim_rest(sep, cd, k, first, old(self)@, f)
                    == StepVec::Done(resv_of(r), final(self)@),
            lex_measure(final(self)@) <= lex_measure(old(self)@),
        decreases lex_measure(self@), 14int,
    {
        if self.lexer.eof() {
            proof {
                lemma_views_of_empty();
            }
            return Ok(Vec::new());
        }
        let t = match self.lexer.peek() {
            Ok(t) => t,
            Err(e) => {
                return Err(e);
            },
        };
        if t == Token::Delimiter(cd) {
            proof {
                lemma_views_of_empty();
            }
            return Ok(Vec::new());
        }
        let ghost l0 = self@;
        let ghost lentry = old(self)@;
        if !first {
            match self.consume(Token::Delimiter(sep)) {
                Ok(_) => (),
                Err(e) => {
                    return Err(e);
                },
            };
        }
        let ghost l3 = self@;
        let r = self.parse_delim_elems(sep, cd, k);
        proof {
            assert forall|f: nat|
                sp_delim_rest(sep, cd, k, first, lentry, f) == StepVec::OutOfFuel || sp_delim_rest(
                    sep,
                    cd,
                    k,
                    first,
                    lentry,
                    f,
                ) == StepVec::Done(resv_of(r), self@) by {
                if f > 0 {
                    let g = (f - 1) as nat;
                    assert(sp_delim_elems(sep, cd, k, l3, g) == StepVec::OutOfFuel
                        || sp_delim_elems(sep, cd, k, l3, g) == StepVec::Done(resv_of(r), self@));
                }
            }
            assert forall|f: nat| f >= fuel_at(lentry, 14) implies sp_delim_rest(
                sep,
                cd,
                k,
                first,
                lentry,
                f,
            ) == StepVec::Done(resv_of(r), self@) by {
                let g = (f - 1) as nat;
                assert(g >= fuel_at(l3, 13));
                assert(sp_delim_elems(sep, cd, k, l3, g) == StepVec::Done(resv_of(r), self@));
            }
        }
        r
    }

    /// One element of a delimited list, then the rest of the list. Follows
    /// `sp_delim_elems` exactly.
    #[verifier::rlimit(100)]
    #[verifier::spinoff_prover]
    fn parse_delim_elems(&mut self, sep: char, cd: char, k: ElemKind) -> (r: Result<
        Vec<ASTNode>,
        Error,
    >)
        requires
            old(self).wf(),
        ensures
            final(self).wf(),
            forall|f: nat|
                sp_delim_elems(sep, cd, k, old(self)@, f) == StepVec::OutOfFuel || sp_delim_elems(
                    sep,
                    cd,
                    k,
                    old(self)@,
                    f,
                ) == StepVec::Done(resv_of(r), final(self)@),
            forall|f: nat|
                f >= fuel_at(old(self)@, 13) ==> sp_delim_elems(sep, cd, k, old(self)@, f)
                    == StepVec::Done(resv_of(r), final(self)@),
            lex_measure(final(self)@) <= lex_measure(old(self)@),
        decreases lex_measure(self@), 13int,
    {
        let ghost l0 = self@;
        let elem_res = self.parse_element(k);
        let ghost erm = res_of(elem_res);
        let n = match elem_res {
            Ok(n) => n,
            Err(e) => {
                proof {
                    assert forall|f: nat|
                        sp_delim_elems(sep, cd, k, l0, f) == StepVec::OutOfFuel || sp_delim_elems(
                            sep,
                            cd,
                            k,
                            l0,
                            f,
                        ) == StepVec::Done(Err(e@), self@) by {
                        if f > 0 {
                            let g = (f - 1) as nat;
                            assert(sp_element(k, l0, g) == Step::OutOfFuel || sp_element(k, l0, g)
                                == Step::Done(erm, self@));
                        }
                    }
                    assert forall|f: nat| f >= fuel_at(l0, 13) implies sp_delim_elems(
                        sep,
                        cd,
                        k,
                        l0,
                        f,
                    ) == StepVec::Done(Err(e@), self@) by {
                        let g = (f - 1) as nat;
                        assert(g >= fuel_at(l0, 12));
                        assert(sp_element(k, l0, g) == Step::Done(erm, self@));
                    }
                }
                return Err(e);
            },
        };
        let ghost nm = n@;
        let ghost l1 = self@;
        let rest_res = self.parse_delim_rest(sep, cd, k, false);
        let ghost rm = resv_of(rest_res);
        let r: Result<Vec<ASTNode>, Error> = match rest_res {
            Ok(rest) => {
                let mut out = rest;
                let ghost r0 = out@;
                out.insert(0, n);
                proof {
                    lemma_views_of_insert_front(r0, n);
                }
                Ok(out)
            },
            Err(e) => Err(e),
        };
        proof {
            assert forall|f: nat|
                sp_delim_elems(sep, cd, k, l0, f) == StepVec::OutOfFuel || sp_delim_elems(
                    sep,
                    cd,
                    k,
                    l0,
                    f,
                ) == StepVec::Done(resv_of(r), self@) by {
                if f > 0 {
                    let g = (f - 1) as nat;
                    assert(sp_element(k, l0, g) == Step::OutOfFuel || sp_element(k, l0, g)
                        == Step::Done(Ok(nm), l1));
                    assert(sp_delim_rest(sep, cd, k, false, l1, g) == StepVec::OutOfFuel
                        || sp_delim_rest(sep, cd, k, false, l1, g) == StepVec::Done(rm, self@));
                }
            }
            assert forall|f: nat| f >= fuel_at(l0, 13) implies sp_delim_elems(sep, cd, k, l0, f)
                == StepVec::Done(resv_of(r), self@) by {
                let g = (f - 1) as nat;
                assert(g >= fuel_at(l0, 12));
                assert(sp_element(k, l0, g) == Step::Done(Ok(nm), l1));
                assert(g >= fuel_at(l1, 14));
                assert(sp_delim_rest(sep, cd, k, false, l1, g) == StepVec::Done(rm, self@));
            }
        }
        r
    }

    /// One element of a delimited list: an expression, or a bare variable
    /// name. Follows `sp_element` exactly.
    #[verifier::rlimit(100)]
    #[verifier::spinoff_prover]
    fn parse_element(&mut self, k: ElemKind) -> (r: Result<ASTNode, Error>)
        requires
            old(self).wf(),
        ensures
            final(self).wf(),
            forall|f: nat|
                sp_element(k, old(self)@, f) == Step::OutOfFuel || sp_element(k, old(self)@, f)
                    == Step::Done(res_of(r), final(self)@),
            forall|f: nat|
                f >= fuel_at(old(self)@, 12) ==> sp_element(k, old(self)@, f) == Step::Done(
                    res_of(r),
                    final(self)@,
                ),
            lex_measure(final(self)@) <= lex_measure(old(self)@),
            r is Ok ==> lex_measure(final(self)@) < lex_measure(old(self)@),
        decreases lex_measure(self@), 12int,
    {
        let ghost l0 = self@;
        let r = match k {
            ElemKind::Expression => self.parse_expression(),
            ElemKind::VariableName => self.parse_variable_name(),
        };
        proof {
            assert forall|f: nat|
                sp_element(k, l0, f) == Step::OutOfFuel || sp_element(k, l0, f) == Step::Done(
                    res_of(r),
                    self@,
                ) by {
                if f > 0 {
                    let g = (f - 1) as nat;
                    match k {
                        ElemKind::Expression => {
                            assert(sp_expression(l0, g) == Step::OutOfFuel || sp_expression(l0, g)
                                == Step::Done(res_of(r), self@));
                        },
                        ElemKind::VariableName => {},
                    }
                }
            }
            assert forall|f: nat| f >= fuel_at(l0, 12) implies sp_element(k, l0, f) == Step::Done(
                res_of(r),
                self@,
            ) by {
                let g = (f - 1) as nat;
                match k {
                    ElemKind::Expression => {
                        assert(g >= fuel_at(l0, 11));
                        assert(sp_expression(l0, g) == Step::Done(res_of(r), self@));
                    },
                    ElemKind::VariableName => {},
                }
            }
        }
        r
    }
}

/// The model of an optional function name.
pub open spec fn name_model(name: Option<ASTNode>) -> Option<Box<NodeModel>> {
    match name {
        Some(n) => Some(Box::new(n@)),
        None => None,
    }
}

/// Fuel headroom of the invocation check, by the inner rule it wraps.
pub open spec fn inv_headroom(k: InnerParse) -> int {
    match k {
        InnerParse::ExprHelper => 10,
        InnerParse::AtomHelper => 7,
    }
}

proof fn lemma_views_of_empty()
    ensures
        views_of(Seq::<ASTNode>::empty()) == Seq::<NodeModel>::empty(),
        forall|v: Vec<ASTNode>| v@.len() == 0 ==> views_of(#[trigger] v@)
            == Seq::<NodeModel>::empty(),
{
    assert forall|v: Vec<ASTNode>| v@.len() == 0 implies views_of(#[trigger] v@)
        == Seq::<NodeModel>::empty() by {
        assert(views_of(v@) =~= Seq::<NodeModel>::empty());
    }
    assert(views_of(Seq::<ASTNode>::empty()) =~= Seq::<NodeModel>::empty());
}

/// Whether an operator text is in the precedence table.
fn is_known_operator(op: &str) -> (r: bool)
    ensures
        r == spec_is_binary_op(op@),
{
    str_eq_lit(op, "=") || str_eq_lit(op, "||") || str_eq_lit(op, "&&") || str_eq_lit(op, "<")
        || str_eq_lit(op, "<=") || str_eq_lit(op, ">") || str_eq_lit(op, ">=") || str_eq_lit(
        op,
        "==",
    ) || str_eq_lit(op, "!=") || str_eq_lit(op, "+") || str_eq_lit(op, "-") || str_eq_lit(op, "*")
        || str_eq_lit(op, "/") || str_eq_lit(op, "%")
}

} // verus!
