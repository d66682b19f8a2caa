use ql::{Direction, LexerError, LexerOptions, SourceCursor, ToDirection, Token, TokenKind, Tokenizer, QL};

fn kinds(tokens: &[Token]) -> Vec<TokenKind> {
    tokens.iter().map(|t| t.kind).collect()
}

#[test]
fn select_is_one_keyword() {
    let tokens = QL::lexer("SELECT").unwrap();
    assert_eq!(tokens.len(), 1);
    assert_eq!(tokens[0].kind, TokenKind::Keyword);
    assert_eq!(tokens[0].raw, "SELECT");
    assert_eq!((tokens[0].span.start, tokens[0].span.end), (0, 6));
}

#[test]
fn invalid_symbol_reports_its_offset() {
    assert_eq!(Tokenizer::lexer("@").err(), Some(LexerError::SymbolInvalid(0, Some('@'))));
    assert_eq!(Tokenizer::lexer("abc @").err(), Some(LexerError::SymbolInvalid(4, Some('@'))));
    assert_eq!(Tokenizer::lexer("a ; b").err(), Some(LexerError::SymbolInvalid(2, Some(';'))));
    // a non-ASCII character outside strings is no symbol either; offsets count bytes
    assert_eq!(Tokenizer::lexer("\"é\" é").err(), Some(LexerError::SymbolInvalid(5, Some('é'))));
    assert_eq!(Tokenizer::lexer("`${ü}`").err(), Some(LexerError::SymbolInvalid(3, Some('ü'))));
}

#[test]
fn empty_source_gives_no_tokens() {
    assert_eq!(Tokenizer::lexer("").unwrap().len(), 0);
}

#[test]
fn spans_are_byte_offsets_and_raw_matches() {
    let tokens = Tokenizer::lexer(r#"x "grüße" y"#).unwrap();
    assert_eq!(tokens[2].raw, "grüße");
    assert_eq!((tokens[2].span.start, tokens[2].span.end), (3, 10));
    let src = "k: \"grüße\" `x${\"ü\"}é` b(c)";
    let tokens = Tokenizer::lexer(src).unwrap();
    for t in &tokens {
        assert!(t.span.start <= t.span.end && t.span.end <= src.len());
        assert_eq!(t.raw.as_bytes(), &src.as_bytes()[t.span.start..t.span.end]);
    }
}

fn rejoin(src: &str, tokens: &[Token]) -> String {
    let mut out = String::new();
    for t in tokens {
        if t.kind == TokenKind::StringLiteral {
            out.push('"');
            out.push_str(&t.raw);
            if t.span.end < src.len() {
                out.push('"');
            }
        } else {
            out.push_str(&t.raw);
        }
    }
    out
}

#[test]
fn raws_with_string_quotes_rebuild_the_source() {
    for src in [
        " \"any world\" try",
        "`a${`b${\"c\"}d`}e`",
        "ctx.var_name:123 \r\n x = (a[\"b\\\"\"]) && {c}",
        "\"open",
        "`open ${ x",
        "]}) stray",
    ] {
        let tokens = Tokenizer::lexer(src).unwrap();
        assert_eq!(rejoin(src, &tokens), src);
    }
}

fn balanced(tokens: &[Token]) -> bool {
    let mut open: Vec<TokenKind> = Vec::new();
    for t in tokens {
        let closes = match t.kind {
            TokenKind::OpenParenthesis
            | TokenKind::OpenSquareBracket
            | TokenKind::OpenCurlyBracket
            | TokenKind::TemplateStart
            | TokenKind::TemplateStartExpression => {
                open.push(t.kind);
                continue;
            }
            TokenKind::CloseParenthesis => TokenKind::OpenParenthesis,
            TokenKind::CloseSquareBracket => TokenKind::OpenSquareBracket,
            TokenKind::CloseCurlyBracket => TokenKind::OpenCurlyBracket,
            TokenKind::TemplateClose => TokenKind::TemplateStart,
            TokenKind::TemplateCloseExpression => TokenKind::TemplateStartExpression,
            _ => continue,
        };
        if open.pop() != Some(closes) {
            return false;
        }
    }
    open.is_empty()
}

#[test]
fn well_formed_nesting_is_balanced() {
    let tokens = Tokenizer::lexer("({[`a${ (b) }c`]})").unwrap();
    assert!(balanced(&tokens));
    let tokens = Tokenizer::lexer("`a${`b${\"c\"}d`}e` [x(y)]").unwrap();
    assert!(balanced(&tokens));
}

#[test]
fn stray_closers_are_still_tokenized() {
    let tokens = Tokenizer::lexer("(]").unwrap();
    assert_eq!(kinds(&tokens), vec![TokenKind::OpenParenthesis, TokenKind::CloseSquareBracket]);
    assert!(!balanced(&tokens));
    let tokens = Tokenizer::lexer("}").unwrap();
    assert_eq!(kinds(&tokens), vec![TokenKind::CloseCurlyBracket]);
}

#[test]
fn unterminated_template_closes_at_the_end() {
    let tokens = Tokenizer::lexer("`ab").unwrap();
    assert_eq!(kinds(&tokens), vec![TokenKind::TemplateStart, TokenKind::Template, TokenKind::TemplateClose]);
    assert_eq!((tokens[2].span.start, tokens[2].span.end), (3, 3));
    assert_eq!(tokens[2].raw, "");
}

#[test]
fn single_tokens_retokenize_to_themselves() {
    let src = "  sel_1 $x 12_3 . : = ** \r\n ( ) [ ] { } a";
    let tokens = Tokenizer::lexer(src).unwrap();
    for t in &tokens {
        let again = Tokenizer::lexer(&t.raw).unwrap();
        assert_eq!(again.len(), 1);
        assert_eq!(again[0].kind, t.kind);
        assert_eq!(again[0].raw, t.raw);
        assert_eq!((again[0].span.start, again[0].span.end), (0, t.raw.len()));
    }
}

#[test]
fn escapes_stay_verbatim_in_strings() {
    let tokens = Tokenizer::lexer(r#""a\"b" c"#).unwrap();
    assert_eq!(tokens[0].raw, r#"a\"b"#);
    let tokens = Tokenizer::lexer("\"ab\\").unwrap();
    assert_eq!(tokens[0].raw, "ab\\");
    assert_eq!((tokens[0].span.start, tokens[0].span.end), (1, 4));
}

#[test]
fn directions_resolve_against_the_position() {
    assert_eq!(Direction::Current.resolve(7), 7);
    assert_eq!(Direction::Pos(3).resolve(7), 3);
    assert_eq!(Direction::Prev(2).resolve(7), 5);
    assert_eq!(Direction::Next(2).resolve(7), 9);
    assert_eq!(ToDirection::resolve(-2i32, 7), 5);
    assert_eq!(ToDirection::resolve(0i32, 7), 7);
    assert_eq!(ToDirection::resolve(4i32, 7), 11);
}

#[test]
fn cursor_walks_bytes() {
    let mut cursor = SourceCursor::new("ab");
    assert_eq!(cursor.current(), Some((0, b'a')));
    assert_eq!(cursor.next(), Some((0, b'a')));
    assert_eq!(cursor.get_current_char(), b'b');
    assert_eq!(cursor.peek_slice(5), b"b".to_vec());
    assert_eq!(cursor.next(), Some((1, b'b')));
    assert_eq!(cursor.next(), None);
    assert_eq!(cursor.pos(), 3);
    assert_eq!(cursor.at_current_char(), None);
    assert_eq!(cursor.get_at_char(None), 0);
    assert_eq!(cursor.prev(), None);
    assert_eq!(cursor.pos(), 2);
    assert_eq!(cursor.get(Direction::Prev(1), Direction::Next(3)), "b");
    assert_eq!(cursor.get(Direction::Next(1), Direction::Current), "");
    cursor.forward(Direction::Pos(0));
    let t = cursor.create_token(TokenKind::Keyword, Direction::Current, Direction::Next(2));
    assert_eq!((t.raw.as_str(), t.span.start, t.span.end), ("ab", 0, 2));
    assert_eq!(cursor.pos(), 2);
}

#[test]
fn cursor_reads_the_character_at_a_boundary() {
    let mut cursor = SourceCursor::new("éx");
    assert_eq!(cursor.current_character(), Some('é'));
    cursor.forward(Direction::Pos(2));
    assert_eq!(cursor.current_character(), Some('x'));
    cursor.forward(Direction::Pos(3));
    assert_eq!(cursor.current_character(), None);
}

fn triples(tokens: &[Token]) -> Vec<(TokenKind, String, usize, usize)> {
    tokens.iter().map(|t| (t.kind, t.raw.clone(), t.span.start, t.span.end)).collect()
}

fn owned(v: &[(TokenKind, &str, usize, usize)]) -> Vec<(TokenKind, String, usize, usize)> {
    v.iter().map(|(k, r, s, e)| (*k, r.to_string(), *s, *e)).collect()
}

#[test]
fn level_ends_at_its_own_closer() {
    let mut cursor = SourceCursor::new("a(b])c)d");
    let options = LexerOptions::default().set_break_by_close_parenthesis(true);
    let tokens = Tokenizer::lexer_w(&mut cursor, options).unwrap();
    assert_eq!(
        triples(&tokens),
        owned(&[
            (TokenKind::Keyword, "a", 0, 1),
            (TokenKind::OpenParenthesis, "(", 1, 2),
            (TokenKind::Keyword, "b", 2, 3),
            (TokenKind::CloseSquareBracket, "]", 3, 4),
            (TokenKind::CloseParenthesis, ")", 4, 5),
            (TokenKind::Keyword, "c", 5, 6),
            (TokenKind::CloseParenthesis, ")", 6, 7),
        ])
    );
    assert_eq!(cursor.pos(), 7);
}

#[test]
fn expression_level_ends_at_its_curly() {
    let mut cursor = SourceCursor::new("x{y}z}w");
    let options = LexerOptions::default().set_template_break_by_close_curly_bracket(true);
    let tokens = Tokenizer::lexer_w(&mut cursor, options).unwrap();
    assert_eq!(
        triples(&tokens),
        owned(&[
            (TokenKind::Keyword, "x", 0, 1),
            (TokenKind::OpenCurlyBracket, "{", 1, 2),
            (TokenKind::Keyword, "y", 2, 3),
            (TokenKind::CloseCurlyBracket, "}", 3, 4),
            (TokenKind::Keyword, "z", 4, 5),
            (TokenKind::TemplateCloseExpression, "}", 5, 6),
        ])
    );
    assert_eq!(cursor.pos(), 6);
}

#[test]
fn top_level_runs_to_the_end() {
    let mut cursor = SourceCursor::new("a) b");
    let tokens = Tokenizer::lexer_w(&mut cursor, LexerOptions::default()).unwrap();
    assert_eq!(tokens.len(), 4);
    assert_eq!(cursor.pos(), 4);
}

fn whole_template(src: &str) -> (Vec<(TokenKind, String, usize, usize)>, usize) {
    let mut cursor = SourceCursor::new(src);
    let tokens = Tokenizer::lexer_model_by_char_bind_template(&mut cursor).unwrap();
    (triples(&tokens), cursor.pos())
}

#[test]
fn whole_template_with_nested_braces() {
    let (tokens, end) = whole_template("`a${b{c}d}e` rest");
    assert_eq!(
        tokens,
        owned(&[
            (TokenKind::TemplateStart, "`", 0, 1),
            (TokenKind::Template, "a", 1, 2),
            (TokenKind::TemplateStartExpression, "${", 2, 4),
            (TokenKind::Keyword, "b", 4, 5),
            (TokenKind::OpenCurlyBracket, "{", 5, 6),
            (TokenKind::Keyword, "c", 6, 7),
            (TokenKind::CloseCurlyBracket, "}", 7, 8),
            (TokenKind::Keyword, "d", 8, 9),
            (TokenKind::TemplateCloseExpression, "}", 9, 10),
            (TokenKind::Template, "e", 10, 11),
            (TokenKind::TemplateClose, "`", 11, 12),
        ])
    );
    assert_eq!(end, 12);
}

#[test]
fn whole_template_with_escaped_backticks() {
    let (tokens, end) = whole_template(r#"`a$\`b$"c"}d\`}e`"#);
    assert_eq!(
        tokens,
        owned(&[
            (TokenKind::TemplateStart, "`", 0, 1),
            (TokenKind::Template, r#"a$\`b$"c"}d\`}e"#, 1, 16),
            (TokenKind::TemplateClose, "`", 16, 17),
        ])
    );
    assert_eq!(end, 17);
}

#[test]
fn whole_template_nested_in_template() {
    let (tokens, end) = whole_template(r#"`a${`b${"c"}d`}e`"#);
    let kinds: Vec<TokenKind> = tokens.iter().map(|t| t.0).collect();
    assert_eq!(
        kinds,
        vec![
            TokenKind::TemplateStart,
            TokenKind::Template,
            TokenKind::TemplateStartExpression,
            TokenKind::TemplateStart,
            TokenKind::Template,
            TokenKind::TemplateStartExpression,
            TokenKind::StringLiteral,
            TokenKind::TemplateCloseExpression,
            TokenKind::Template,
            TokenKind::TemplateClose,
            TokenKind::TemplateCloseExpression,
            TokenKind::Template,
            TokenKind::TemplateClose,
        ]
    );
    assert_eq!(tokens[6], (TokenKind::StringLiteral, "c".to_string(), 9, 10));
    assert_eq!(tokens[8], (TokenKind::Template, "d".to_string(), 12, 13));
    assert_eq!(end, 17);
}

#[test]
fn whole_template_with_two_expressions() {
    let (tokens, end) = whole_template(r#"`first string ${keyword} second string ${12_20 + `${"hola"}`}`"#);
    assert_eq!(tokens[1], (TokenKind::Template, "first string ".to_string(), 1, 14));
    assert_eq!(tokens[3], (TokenKind::Keyword, "keyword".to_string(), 16, 23));
    assert_eq!(tokens[5], (TokenKind::Template, " second string ".to_string(), 24, 39));
    assert_eq!(tokens[14], (TokenKind::StringLiteral, "hola".to_string(), 53, 57));
    assert_eq!(tokens.len(), 21);
    assert_eq!(tokens[20].0, TokenKind::TemplateClose);
    assert_eq!(end, 62);
}

#[test]
fn options_setters_set_one_flag() {
    let o = LexerOptions::default().set_break_by_close_parenthesis(true);
    assert!(o.break_by_close_parenthesis && !o.break_by_close_square_bracket);
    let o = o.set_break_by_close_square_bracket(true).set_break_by_close_curly_bracket(true);
    assert!(o.break_by_close_square_bracket && o.break_by_close_curly_bracket);
    let o = o.set_template_break_by_close_curly_bracket(true);
    assert!(o.template_break_by_close_curly_bracket);
    assert_eq!(TokenKind::TemplateStartExpression.name(), "template_start_expression");
}
