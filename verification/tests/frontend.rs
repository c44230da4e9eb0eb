use minilang::ast::ASTNode;
use minilang::lexer::{Lexer, Token};
use minilang::parser::Parser;

#[test]
fn test_lex_variable() {
    let mut lexer = Lexer::new("varname");

    assert_eq!(
        lexer.get_token().unwrap(),
        Token::Variable(String::from("varname"))
    );
    assert_eq!(lexer.get_token().unwrap(), Token::EOF);
}

#[test]
fn test_lex_keyword() {
    let mut lexer = Lexer::new("if");

    assert_eq!(
        lexer.get_token().unwrap(),
        Token::Keyword(String::from("if"))
    );
    assert_eq!(lexer.get_token().unwrap(), Token::EOF);
}

#[test]
fn test_lex_string_literal() {
    let mut lexer = Lexer::new("\"string literal wow\"");

    assert_eq!(
        lexer.get_token().unwrap(),
        Token::StringLiteral(String::from("string literal wow"))
    );
    assert_eq!(lexer.get_token().unwrap(), Token::EOF);
}

#[test]
fn test_lex_integral() {
    let mut lexer = Lexer::new("22312");

    assert_eq!(lexer.get_token().unwrap(), Token::Integral(22312));
    assert_eq!(lexer.get_token().unwrap(), Token::EOF);
}

#[test]
fn test_lex_floating_point() {
    let mut lexer = Lexer::new("22.312");

    assert_eq!(
        lexer.get_token().unwrap(),
        Token::FloatingPoint(String::from("22.312"))
    );
    assert_eq!(lexer.get_token().unwrap(), Token::EOF);

    let mut lexer = Lexer::new("22.312.2");

    assert_eq!(
        lexer.get_token().unwrap(),
        Token::FloatingPoint(String::from("22.312"))
    );
    assert!(!lexer.eof());
}

#[test]
fn test_lex_delimiter() {
    let mut lexer = Lexer::new(")");

    assert_eq!(lexer.get_token().unwrap(), Token::Delimiter(')'));
    assert_eq!(lexer.get_token().unwrap(), Token::EOF);
}

#[test]
fn test_lex_empty() {
    let mut lexer = Lexer::new("");

    assert_eq!(lexer.get_token().unwrap(), Token::EOF);
}

#[test]
fn test_peek_and_get_token() {
    let mut lexer = Lexer::new("abc\"bc\"");

    // Peek should be idempotent
    assert_eq!(lexer.peek().unwrap(), Token::Variable(String::from("abc")));
    assert_eq!(lexer.peek().unwrap(), Token::Variable(String::from("abc")));

    // get_token should equal the last result of peek
    assert_eq!(
        lexer.get_token().unwrap(),
        Token::Variable(String::from("abc"))
    );

    assert_eq!(
        lexer.peek().unwrap(),
        Token::StringLiteral(String::from("bc"))
    );
    assert_eq!(
        lexer.get_token().unwrap(),
        Token::StringLiteral(String::from("bc"))
    );

    assert_eq!(lexer.peek().unwrap(), Token::EOF);
    assert_eq!(lexer.get_token().unwrap(), Token::EOF);
    assert!(lexer.eof());
}

#[test]
fn test_parse_empty() {
    let inp = "";
    let lexer = Lexer::new(inp);
    let mut parser = Parser { lexer };

    if let Ok(ASTNode::Sequence(ref vec)) = parser.parse_top_level() {
        assert_eq!(*vec, Vec::new())
    } else {
        panic!("Expected parse_top_level to return sequence")
    }
}

#[test]
fn test_parse_primative_sequence() {
    let inp = "3; 3.1; \"stringliteralwow\"; true; false";
    let lexer = Lexer::new(inp);
    let mut parser = Parser { lexer };

    let expected: ASTNode = ASTNode::Sequence(vec![
        ASTNode::Integer(3),
        ASTNode::Float(String::from("3.1")),
        ASTNode::StringLiteral(String::from("stringliteralwow")),
        ASTNode::Boolean(true),
        ASTNode::Boolean(false),
    ]);

    if let Ok(res) = parser.parse_top_level() {
        assert_eq!(res, expected);
    } else {
        panic!("Primative sequence failed to parse");
    }
}

#[test]
fn test_parse_name_sequence() {
    // Lots of extra whitespace, and none
    let inp = "foo;          bar;baz";
    let lexer = Lexer::new(inp);
    let mut parser = Parser { lexer };

    let expected = ASTNode::Sequence(vec![
        ASTNode::Name(String::from("foo")),
        ASTNode::Name(String::from("bar")),
        ASTNode::Name(String::from("baz")),
    ]);

    if let Ok(res) = parser.parse_top_level() {
        assert_eq!(res, expected);
    } else {
        panic!("Name failed to parse");
    }
}

#[test]
fn test_parse_if() {
    let inp = "if x then y";
    let lexer = Lexer::new(inp);
    let mut parser = Parser { lexer };

    let expected = ASTNode::Sequence(vec![ASTNode::Conditional {
        cond: Box::new(ASTNode::Name(String::from("x"))),
        if_body: Box::new(ASTNode::Name(String::from("y"))),
        else_body: Box::new(None),
    }]);

    if let Ok(res) = parser.parse_top_level() {
        assert_eq!(res, expected);
    } else {
        panic!("Conditional failed to parse");
    }
}

#[test]
fn test_parse_invocation() {
    let inp = "x(a,b,   c)";
    let lexer = Lexer::new(inp);
    let mut parser = Parser { lexer };

    let expected = ASTNode::Sequence(vec![ASTNode::Invocation {
        func: Box::new(ASTNode::Name(String::from("x"))),
        args: vec![
            ASTNode::Name(String::from("a")),
            ASTNode::Name(String::from("b")),
            ASTNode::Name(String::from("c")),
        ],
    }]);

    if let Ok(res) = parser.parse_top_level() {
        assert_eq!(res, expected);
    } else {
        panic!("Invocation failed to parse");
    }
}

#[test]
fn test_parse_simple_binary() {
    let inp = "x = y";
    let lexer = Lexer::new(inp);
    let mut parser = Parser { lexer };

    let expected = ASTNode::Sequence(vec![ASTNode::Binary {
        op: Token::Operator(String::from("=")),
        lhs: Box::new(ASTNode::Name(String::from("x"))),
        rhs: Box::new(ASTNode::Name(String::from("y"))),
    }]);

    if let Ok(res) = parser.parse_top_level() {
        assert_eq!(res, expected);
    } else {
        panic!("Simple binary failed to parse");
    }
}

#[test]
fn test_parse_complex_parenthesized_binary() {
    let inp = "a = (b + c) * d";
    let lexer = Lexer::new(inp);
    let mut parser = Parser { lexer };

    let expected = ASTNode::Sequence(vec![ASTNode::Binary {
        op: Token::Operator(String::from("=")),
        lhs: Box::new(ASTNode::Name(String::from("a"))),
        rhs: Box::new(ASTNode::Binary {
            op: Token::Operator(String::from("*")),
            lhs: Box::new(ASTNode::Binary {
                op: Token::Operator(String::from("+")),
                lhs: Box::new(ASTNode::Name(String::from("b"))),
                rhs: Box::new(ASTNode::Name(String::from("c"))),
            }),
            rhs: Box::new(ASTNode::Name(String::from("d"))),
        }),
    }]);

    if let Ok(res) = parser.parse_top_level() {
        assert_eq!(res, expected);
    } else {
        panic!("Simple binary failed to parse");
    }
}

#[test]
fn test_function_declaration() {
    let inp = "fn a (b,c) {
                   if b {
                       c = b
                   } else {
                       b = c
                   };
                   b
               }";
    let lexer = Lexer::new(inp);
    let mut parser = Parser { lexer };

    let expected = ASTNode::Sequence(vec![ASTNode::Function {
        name: Box::new(Some(ASTNode::Name(String::from("a")))),
        args: vec![
            ASTNode::Name(String::from("b")),
            ASTNode::Name(String::from("c")),
        ],
        body: Box::new(ASTNode::Sequence(vec![
            ASTNode::Conditional {
                cond: Box::new(ASTNode::Name(String::from("b"))),
                if_body: Box::new(ASTNode::Binary {
                    op: Token::Operator(String::from("=")),
                    lhs: Box::new(ASTNode::Name(String::from("c"))),
                    rhs: Box::new(ASTNode::Name(String::from("b"))),
                }),
                else_body: Box::new(Some(ASTNode::Binary {
                    op: Token::Operator(String::from("=")),
                    lhs: Box::new(ASTNode::Name(String::from("b"))),
                    rhs: Box::new(ASTNode::Name(String::from("c"))),
                })),
            },
            ASTNode::Name(String::from("b")),
        ])),
    }]);

    if let Ok(res) = parser.parse_top_level() {
        assert_eq!(res, expected);
    } else {
        panic!("Function declaration failed to parse");
    }
}
