use ql::{decode_escapes, ParseError, Statement, TokenKind, Tokenizer, Value, AST};

fn render(s: &Statement) -> String {
    match s {
        Statement::Expression { span, expression } => {
            let items: Vec<String> = expression.iter().map(|b| render(b)).collect();
            format!("Seq({}..{}, [{}])", span.start, span.end, items.join(", "))
        }
        Statement::Identifier { span, value } => {
            let Value::String(text) = value;
            format!("Ident({}..{}, {:?})", span.start, span.end, text)
        }
        Statement::MemberExpression { span, object, property } => {
            format!("Member({}..{}, {}, {})", span.start, span.end, render(object), render(property))
        }
    }
}

fn parse_text(payload: &str) -> Result<AST, ParseError> {
    AST::parse(Tokenizer::lexer(payload).unwrap())
}

#[test]
fn ast_parse_identifier_1() {
    let payload = "$.a";
    let tokens = Tokenizer::lexer(payload).unwrap();
    let ast = AST::parse(tokens).unwrap();
    assert_eq!(
        render(&ast.0),
        r#"Seq(0..3, [Member(0..3, Ident(0..1, "$"), Ident(2..3, "a"))])"#
    );
}

#[test]
fn ast_parse_identifier_2() {
    let payload = "$.a.b";
    let tokens = Tokenizer::lexer(payload).unwrap();
    let ast = AST::parse(tokens).unwrap();
    assert_eq!(
        render(&ast.0),
        r#"Seq(0..5, [Member(0..5, Ident(0..1, "$"), Member(2..5, Ident(2..3, "a"), Ident(4..5, "b")))])"#
    );
}

#[test]
fn ast_parse_identifier_3() {
    let payload = r#"$.a["as\"d"]"#;
    let tokens = Tokenizer::lexer(payload).unwrap();
    let ast = AST::parse(tokens).unwrap();
    assert_eq!(
        render(&ast.0),
        r#"Seq(0..12, [Member(0..10, Ident(0..1, "$"), Member(2..10, Ident(2..3, "a"), Ident(5..10, "as\\\"d")))])"#
    );
}

#[test]
fn parse_several_paths_in_a_row() {
    let ast = parse_text("$.a[\"k\"]b").unwrap();
    assert_eq!(
        render(&ast.0),
        r#"Seq(0..9, [Member(0..6, Ident(0..1, "$"), Member(2..6, Ident(2..3, "a"), Ident(5..6, "k"))), Ident(8..9, "b")])"#
    );
}

#[test]
fn parse_empty_stream() {
    let ast = AST::parse(Vec::new()).unwrap();
    assert_eq!(render(&ast.0), "Seq(0..0, [])");
}

#[test]
fn parse_rejects_non_keyword_at_top_level() {
    assert_eq!(
        parse_text("$.a 1").err(),
        Some(ParseError::UnsupportedToken { kind: TokenKind::Space, position: 3 })
    );
    assert_eq!(
        parse_text("(a)").err(),
        Some(ParseError::UnsupportedToken { kind: TokenKind::OpenParenthesis, position: 0 })
    );
}

#[test]
fn parse_rejects_non_string_key() {
    assert_eq!(parse_text("$.a[b]").err(), Some(ParseError::ExpectedStringLiteral { position: 4 }));
}

#[test]
fn parse_rejects_missing_property() {
    assert_eq!(parse_text("$.").err(), Some(ParseError::UnexpectedEnd));
    assert_eq!(parse_text("$.a[").err(), Some(ParseError::UnexpectedEnd));
    assert_eq!(
        parse_text("$.*").err(),
        Some(ParseError::UnsupportedToken { kind: TokenKind::Operation, position: 2 })
    );
}

#[test]
fn decode_drops_each_escaping_backslash() {
    assert_eq!(decode_escapes(r#"as\"d"#), r#"as"d"#);
    assert_eq!(decode_escapes(r"a\\b\n"), r"a\bn");
    assert_eq!(decode_escapes(r"end\"), r"end\");
    assert_eq!(decode_escapes("é\\ü"), "éü");
    assert_eq!(decode_escapes(""), "");
}
