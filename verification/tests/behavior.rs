use minilang::ast::ASTNode;
use minilang::emitter::emit;
use minilang::lexer::{Lexer, Token};
use minilang::parser::Parser;

fn parse(input: &str) -> Result<ASTNode, minilang::util::Error> {
    let lexer = Lexer::new(input);
    let mut parser = Parser { lexer };
    parser.parse_top_level()
}

#[test]
fn test_missing_branch_keyword_is_reported() {
    // An `if` whose input ends after the condition fails with a parse error
    // that names the missing branch keyword; it does not panic.
    let res = parse("if x");
    let err = res.expect_err("expected a parse error");
    assert!(err.msg.contains("then"));
}

#[test]
fn test_unexpected_keyword_after_condition() {
    let res = parse("if x else y");
    let err = res.expect_err("expected a parse error");
    assert!(err.msg.contains("else"));
    assert!(err.msg.contains("then"));
}

#[test]
fn test_unterminated_string_runs_to_end_of_input() {
    // The documented lenient behavior: an unterminated literal consumes to
    // the end of input.
    let mut lexer = Lexer::new("\"abc");
    assert_eq!(
        lexer.get_token().unwrap(),
        Token::StringLiteral(String::from("abc"))
    );
    assert_eq!(lexer.get_token().unwrap(), Token::EOF);
}

#[test]
fn test_escaped_characters_in_string() {
    // A backslash is dropped and the next character is taken verbatim.
    let mut lexer = Lexer::new("\"a\\\"b\\\\c\"");
    assert_eq!(
        lexer.get_token().unwrap(),
        Token::StringLiteral(String::from("a\"b\\c"))
    );
    assert_eq!(lexer.get_token().unwrap(), Token::EOF);
}

#[test]
fn test_equal_precedence_groups_left() {
    // "p - q - r" parses as "(p - q) - r".
    let expected = ASTNode::Sequence(vec![ASTNode::Binary {
        op: Token::Operator(String::from("-")),
        lhs: Box::new(ASTNode::Binary {
            op: Token::Operator(String::from("-")),
            lhs: Box::new(ASTNode::Name(String::from("p"))),
            rhs: Box::new(ASTNode::Name(String::from("q"))),
        }),
        rhs: Box::new(ASTNode::Name(String::from("r"))),
    }]);
    assert_eq!(parse("p - q - r").unwrap(), expected);
}

#[test]
fn test_higher_precedence_binds_first() {
    // "p + q * r" parses as "p + (q * r)".
    let expected = ASTNode::Sequence(vec![ASTNode::Binary {
        op: Token::Operator(String::from("+")),
        lhs: Box::new(ASTNode::Name(String::from("p"))),
        rhs: Box::new(ASTNode::Binary {
            op: Token::Operator(String::from("*")),
            lhs: Box::new(ASTNode::Name(String::from("q"))),
            rhs: Box::new(ASTNode::Name(String::from("r"))),
        }),
    }]);
    assert_eq!(parse("p + q * r").unwrap(), expected);
}

#[test]
fn test_unknown_operator_is_a_parse_error() {
    // `&` lexes as an operator but stands in no precedence table row.
    let res = parse("x & y");
    let err = res.expect_err("expected a parse error");
    assert!(err.msg.contains("&"));
}

#[test]
fn test_trailing_separator_is_rejected() {
    assert!(parse("x(a,)").is_err());
}

#[test]
fn test_empty_argument_list() {
    let expected = ASTNode::Sequence(vec![ASTNode::Invocation {
        func: Box::new(ASTNode::Name(String::from("x"))),
        args: vec![],
    }]);
    assert_eq!(parse("x()").unwrap(), expected);
}

#[test]
fn test_chained_invocation() {
    // One level of chaining is supported: the atom-level check builds
    // f(x), and the expression-level check applies (y) to it.
    let expected = ASTNode::Sequence(vec![ASTNode::Invocation {
        func: Box::new(ASTNode::Invocation {
            func: Box::new(ASTNode::Name(String::from("f"))),
            args: vec![ASTNode::Name(String::from("x"))],
        }),
        args: vec![ASTNode::Name(String::from("y"))],
    }]);
    assert_eq!(parse("f(x)(y)").unwrap(), expected);
}

#[test]
fn test_sequence_collapsing() {
    // Zero elements are falsey, one element stands alone, two make a Sequence.
    assert_eq!(
        parse("{}").unwrap(),
        ASTNode::Sequence(vec![ASTNode::Boolean(false)])
    );
    assert_eq!(
        parse("{x}").unwrap(),
        ASTNode::Sequence(vec![ASTNode::Name(String::from("x"))])
    );
    assert_eq!(
        parse("{x; y}").unwrap(),
        ASTNode::Sequence(vec![ASTNode::Sequence(vec![
            ASTNode::Name(String::from("x")),
            ASTNode::Name(String::from("y")),
        ])])
    );
}

#[test]
fn test_comments_are_skipped() {
    let expected = ASTNode::Sequence(vec![
        ASTNode::Name(String::from("foo")),
        ASTNode::Name(String::from("bar")),
    ]);
    assert_eq!(parse("foo; # a comment\nbar").unwrap(), expected);
}

#[test]
fn test_comment_at_end_of_input() {
    let mut lexer = Lexer::new("# only a comment");
    assert_eq!(lexer.get_token().unwrap(), Token::EOF);
}

#[test]
fn test_integer_bounds() {
    let mut lexer = Lexer::new("2147483647");
    assert_eq!(lexer.get_token().unwrap(), Token::Integral(2147483647));

    let mut lexer = Lexer::new("2147483648");
    let err = lexer.get_token().expect_err("expected a lexing error");
    assert_eq!(err.line, 1);
    assert_eq!(err.col, 10);
}

#[test]
fn test_unrecognized_character_position() {
    // The error reports the cursor position at the offending character.
    let mut lexer = Lexer::new("ab\n  @");
    assert_eq!(
        lexer.get_token().unwrap(),
        Token::Variable(String::from("ab"))
    );
    let err = lexer.get_token().expect_err("expected a lexing error");
    assert!(err.msg.contains("@"));
    assert_eq!(err.line, 2);
    assert_eq!(err.col, 2);
}

#[test]
fn test_identifier_special_characters() {
    // Identifiers may contain `? ! - < > =` after the first character, so
    // `x=y` without spaces is a single variable token.
    let mut lexer = Lexer::new("x=y");
    assert_eq!(
        lexer.get_token().unwrap(),
        Token::Variable(String::from("x=y"))
    );

    let mut lexer = Lexer::new("empty?");
    assert_eq!(
        lexer.get_token().unwrap(),
        Token::Variable(String::from("empty?"))
    );
}

#[test]
fn test_multi_character_operator() {
    let mut lexer = Lexer::new("a == b");
    assert_eq!(
        lexer.get_token().unwrap(),
        Token::Variable(String::from("a"))
    );
    assert_eq!(
        lexer.get_token().unwrap(),
        Token::Operator(String::from("=="))
    );
    assert_eq!(
        lexer.get_token().unwrap(),
        Token::Variable(String::from("b"))
    );
}

#[test]
fn test_precedence_table() {
    assert_eq!(Parser::get_precedence("="), 1);
    assert_eq!(Parser::get_precedence("||"), 2);
    assert_eq!(Parser::get_precedence("&&"), 3);
    assert_eq!(Parser::get_precedence("<"), 4);
    assert_eq!(Parser::get_precedence("<="), 4);
    assert_eq!(Parser::get_precedence(">"), 4);
    assert_eq!(Parser::get_precedence(">="), 4);
    assert_eq!(Parser::get_precedence("=="), 4);
    assert_eq!(Parser::get_precedence("!="), 4);
    assert_eq!(Parser::get_precedence("+"), 5);
    assert_eq!(Parser::get_precedence("-"), 5);
    assert_eq!(Parser::get_precedence("*"), 6);
    assert_eq!(Parser::get_precedence("/"), 6);
    assert_eq!(Parser::get_precedence("%"), 6);
}

#[test]
fn test_conditional_without_branch_keyword() {
    // A brace body may follow the condition directly; `then` is written only
    // where the branch is a bare expression.
    let expected = ASTNode::Sequence(vec![ASTNode::Conditional {
        cond: Box::new(ASTNode::Name(String::from("x"))),
        if_body: Box::new(ASTNode::Name(String::from("y"))),
        else_body: Box::new(None),
    }]);
    assert_eq!(parse("if x { y }").unwrap(), expected);
}

#[test]
fn test_trailing_top_level_delimiter() {
    // A delimiter after the last expression is not required, and one is
    // tolerated.
    let expected = ASTNode::Sequence(vec![ASTNode::Name(String::from("foo"))]);
    assert_eq!(parse("foo;").unwrap(), expected);
}

#[test]
fn test_float_then_second_dot() {
    // A second dot ends the number without being consumed; a bare dot is not
    // a token of the language, so reading on from it fails.
    let mut lexer = Lexer::new("1.5.2");
    assert_eq!(
        lexer.get_token().unwrap(),
        Token::FloatingPoint(String::from("1.5"))
    );
    assert!(!lexer.eof());
    let err = lexer.get_token().expect_err("expected a lexing error");
    assert!(err.msg.contains("."));
}

#[test]
fn test_anonymous_function() {
    let expected = ASTNode::Sequence(vec![ASTNode::Function {
        name: Box::new(None),
        args: vec![ASTNode::Name(String::from("x"))],
        body: Box::new(ASTNode::Name(String::from("x"))),
    }]);
    assert_eq!(parse("fn (x) { x }").unwrap(), expected);
}

#[test]
fn test_emit_literals() {
    assert_eq!(emit(ASTNode::Integer(42)).unwrap(), "42");
    assert_eq!(emit(ASTNode::Integer(-7)).unwrap(), "-7");
    assert_eq!(emit(ASTNode::Integer(0)).unwrap(), "0");
    assert_eq!(emit(ASTNode::Integer(i32::MIN)).unwrap(), "-2147483648");
    assert_eq!(emit(ASTNode::Float(String::from("3.1"))).unwrap(), "3.1");
    assert_eq!(
        emit(ASTNode::StringLiteral(String::from("hi"))).unwrap(),
        "\"hi\""
    );
    assert_eq!(emit(ASTNode::Boolean(true)).unwrap(), "true");
    assert_eq!(emit(ASTNode::Name(String::from("x"))).unwrap(), "x");
}

#[test]
fn test_emit_structures() {
    let cond = parse("if x then y else z").unwrap();
    assert_eq!(emit(cond).unwrap(), "(x!== false ? y : z)");

    let call = parse("f(a, b)").unwrap();
    assert_eq!(emit(call).unwrap(), "f(a,b)");

    let fun = parse("fn a (b) { b }").unwrap();
    assert_eq!(emit(fun).unwrap(), "function a(b) { return (b) }");

    let bin = parse("a = b + c").unwrap();
    assert_eq!(emit(bin).unwrap(), "(a = (b + c))");
}

#[test]
fn test_emit_malformed_binary() {
    // The tree type admits a Binary whose operator slot holds a non-operator
    // token; emission reports it rather than rendering nonsense.
    let bad = ASTNode::Binary {
        op: Token::EOF,
        lhs: Box::new(ASTNode::Name(String::from("a"))),
        rhs: Box::new(ASTNode::Name(String::from("b"))),
    };
    assert!(emit(bad).is_err());
}
