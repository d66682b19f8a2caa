use ql::{Direction, LexerError, SourceCursor, Token, TokenKind, Tokenizer, QL};

fn triples(tokens: &[Token]) -> Vec<(&'static str, String, usize, usize)> {
    tokens
        .iter()
        .map(|t| (t.kind.name(), t.raw.clone(), t.span.start, t.span.end))
        .collect()
}

fn expect(payload: &str, expected: &[(&str, &str, usize, usize)]) {
    let tokens = Tokenizer::lexer(payload).expect("tokenizes");
    let got = triples(&tokens);
    let want: Vec<(&str, String, usize, usize)> =
        expected.iter().map(|(k, r, s, e)| (*k, r.to_string(), *s, *e)).collect();
    assert_eq!(got.len(), want.len(), "{:?}", got);
    for (g, w) in got.iter().zip(want.iter()) {
        assert_eq!((g.0, g.1.as_str(), g.2, g.3), (w.0, w.1.as_str(), w.2, w.3));
    }
}

#[test]
fn tekenizer() {
    let payload = r#"   SELECT  * FROM cars   "#;
    let tokens = Tokenizer::lexer(payload);
    assert!(matches!(tokens, Ok(_)));
    expect(
        payload,
        &[
            ("space", "   ", 0, 3),
            ("keyword", "SELECT", 3, 9),
            ("space", "  ", 9, 11),
            ("operation", "*", 11, 12),
            ("space", " ", 12, 13),
            ("keyword", "FROM", 13, 17),
            ("space", " ", 17, 18),
            ("keyword", "cars", 18, 22),
            ("space", "   ", 22, 25),
        ],
    );
}

#[test]
fn tekenizer_2() {
    let payload = r#"SELECT"#;
    let tokens = Tokenizer::lexer(payload);
    assert!(matches!(tokens, Ok(_)));
    expect(payload, &[("keyword", "SELECT", 0, 6)]);
}

#[test]
fn tekenizer_lexer_string() {
    let payload = r#" "any world" try"#;
    let tokens = Tokenizer::lexer(payload);
    assert!(matches!(tokens, Ok(_)));
    expect(
        payload,
        &[("space", " ", 0, 1), ("string", "any world", 2, 11), ("space", " ", 12, 13), ("keyword", "try", 13, 16)],
    );
}

#[test]
fn tekenizer_lexer_numeric() {
    expect("9", &[("numeric", "9", 0, 1)]);
}

#[test]
fn tekenizer_lexer_numeric_2() {
    expect("9.12", &[("numeric", "9", 0, 1), ("dot", ".", 1, 2), ("numeric", "12", 2, 4)]);
}

#[test]
fn tekenizer_lexer_numeric_3() {
    expect(
        "9_123_123.122_123_943",
        &[("numeric", "9_123_123", 0, 9), ("dot", ".", 9, 10), ("numeric", "122_123_943", 10, 21)],
    );
}

#[test]
fn tekenizer_lexer_parenthesis_and_bracket() {
    expect(
        "(var_1)[var_2]",
        &[
            ("open_parenthesis", "(", 0, 1),
            ("keyword", "var_1", 1, 6),
            ("close_parenthesis", ")", 6, 7),
            ("open_square_bracket", "[", 7, 8),
            ("keyword", "var_2", 8, 13),
            ("close_square_bracket", "]", 13, 14),
        ],
    );
}

#[test]
fn tekenizer_lexer_newline() {
    expect("abc\ndef", &[("keyword", "abc", 0, 3), ("newline", "\n", 3, 4), ("keyword", "def", 4, 7)]);
}

#[test]
fn tekenizer_lexer_newline_2() {
    expect("abc\r\ndef", &[("keyword", "abc", 0, 3), ("newline", "\r\n", 3, 5), ("keyword", "def", 5, 8)]);
}

#[test]
fn tekenizer_lexer_query_1() {
    expect(
        "ctx.var_name:123 ",
        &[
            ("keyword", "ctx", 0, 3),
            ("dot", ".", 3, 4),
            ("keyword", "var_name", 4, 12),
            ("colon", ":", 12, 13),
            ("numeric", "123", 13, 16),
            ("space", " ", 16, 17),
        ],
    );
}

#[test]
fn tokenizer_lexer_sample_1() {
    expect("search value", &[("keyword", "search", 0, 6), ("space", " ", 6, 7), ("keyword", "value", 7, 12)]);
}

#[test]
fn tokenizer_lexer_sample_2() {
    expect(
        "search value condition:",
        &[
            ("keyword", "search", 0, 6),
            ("space", " ", 6, 7),
            ("keyword", "value", 7, 12),
            ("space", " ", 12, 13),
            ("keyword", "condition", 13, 22),
            ("colon", ":", 22, 23),
        ],
    );
}

#[test]
fn tokenizer_lexer_sample_3() {
    expect(
        r#"search value condition: "value""#,
        &[
            ("keyword", "search", 0, 6),
            ("space", " ", 6, 7),
            ("keyword", "value", 7, 12),
            ("space", " ", 12, 13),
            ("keyword", "condition", 13, 22),
            ("colon", ":", 22, 23),
            ("space", " ", 23, 24),
            ("string", "value", 25, 30),
        ],
    );
}

#[test]
fn tokenizer_lexer_sample_4() {
    let payload = r#"
            search value
            condition: "value"
            context.condition > "value"
        "#;
    let twelve = "            ";
    expect(
        payload,
        &[
            ("newline", "\n", 0, 1),
            ("space", twelve, 1, 13),
            ("keyword", "search", 13, 19),
            ("space", " ", 19, 20),
            ("keyword", "value", 20, 25),
            ("newline", "\n", 25, 26),
            ("space", twelve, 26, 38),
            ("keyword", "condition", 38, 47),
            ("colon", ":", 47, 48),
            ("space", " ", 48, 49),
            ("string", "value", 50, 55),
            ("newline", "\n", 56, 57),
            ("space", twelve, 57, 69),
            ("keyword", "context", 69, 76),
            ("dot", ".", 76, 77),
            ("keyword", "condition", 77, 86),
            ("space", " ", 86, 87),
            ("operation", ">", 87, 88),
            ("space", " ", 88, 89),
            ("string", "value", 90, 95),
            ("newline", "\n", 96, 97),
            ("space", "        ", 97, 105),
        ],
    );
}

#[test]
fn tokenizer_lexer_string_with_scape_char() {
    expect(r#""i'm string \"""#, &[("string", r#"i'm string \""#, 1, 14)]);
}

#[test]
fn tokenizer_lexer_template_1() {
    expect(
        "`abc${3}def`",
        &[
            ("template_start", "`", 0, 1),
            ("template", "abc", 1, 4),
            ("template_start_expression", "${", 4, 6),
            ("numeric", "3", 6, 7),
            ("template_close_expression", "}", 7, 8),
            ("template", "def", 8, 11),
            ("template_close", "`", 11, 12),
        ],
    );
}

#[test]
fn tokenizer_lexer_string_template_1() {
    expect(
        "`a${`b${\"c\"}d`}e`",
        &[
            ("template_start", "`", 0, 1),
            ("template", "a", 1, 2),
            ("template_start_expression", "${", 2, 4),
            ("template_start", "`", 4, 5),
            ("template", "b", 5, 6),
            ("template_start_expression", "${", 6, 8),
            ("string", "c", 9, 10),
            ("template_close_expression", "}", 11, 12),
            ("template", "d", 12, 13),
            ("template_close", "`", 13, 14),
            ("template_close_expression", "}", 14, 15),
            ("template", "e", 15, 16),
            ("template_close", "`", 16, 17),
        ],
    );
}

#[test]
fn tokenizer_lexer_string_template_2() {
    expect(
        "`a$\\`b$\"c\"}d\\`}e`",
        &[
            ("template_start", "`", 0, 1),
            ("template", "a$\\`b$\"c\"}d\\`}e", 1, 16),
            ("template_close", "`", 16, 17),
        ],
    );
}

#[test]
fn tokenizer_lexer_string_template_3() {
    expect(
        r#"`first string ${keyword} second string ${12_20 + `${"hola"}`}`"#,
        &[
            ("template_start", "`", 0, 1),
            ("template", "first string ", 1, 14),
            ("template_start_expression", "${", 14, 16),
            ("keyword", "keyword", 16, 23),
            ("template_close_expression", "}", 23, 24),
            ("template", " second string ", 24, 39),
            ("template_start_expression", "${", 39, 41),
            ("numeric", "12_20", 41, 46),
            ("space", " ", 46, 47),
            ("operation", "+", 47, 48),
            ("space", " ", 48, 49),
            ("template_start", "`", 49, 50),
            ("template", "", 50, 50),
            ("template_start_expression", "${", 50, 52),
            ("string", "hola", 53, 57),
            ("template_close_expression", "}", 58, 59),
            ("template", "", 59, 59),
            ("template_close", "`", 59, 60),
            ("template_close_expression", "}", 60, 61),
            ("template", "", 61, 61),
            ("template_close", "`", 61, 62),
        ],
    );
}

#[test]
fn tokenizer_lexer_string_template_4() {
    expect(
        r#"`a${b{c}d}e`"#,
        &[
            ("template_start", "`", 0, 1),
            ("template", "a", 1, 2),
            ("template_start_expression", "${", 2, 4),
            ("keyword", "b", 4, 5),
            ("open_curly_bracket", "{", 5, 6),
            ("keyword", "c", 6, 7),
            ("close_curly_bracket", "}", 7, 8),
            ("keyword", "d", 8, 9),
            ("template_close_expression", "}", 9, 10),
            ("template", "e", 10, 11),
            ("template_close", "`", 11, 12),
        ],
    );
}

#[test]
fn tokenizer_lexer_selector_with_variables() {
    let payload = r#"
            selector1.[$variable1].name
        "#;
    expect(
        payload,
        &[
            ("newline", "\n", 0, 1),
            ("space", "            ", 1, 13),
            ("keyword", "selector1", 13, 22),
            ("dot", ".", 22, 23),
            ("open_square_bracket", "[", 23, 24),
            ("keyword", "$variable1", 24, 34),
            ("close_square_bracket", "]", 34, 35),
            ("dot", ".", 35, 36),
            ("keyword", "name", 36, 40),
            ("newline", "\n", 40, 41),
            ("space", "        ", 41, 49),
        ],
    );
}

#[test]
fn tokenizer_lexer_selector_with_variables_2() {
    let payload = r#"
            $.user = $VAR && (
                $.tag[$TAG_NAME] = true ||
                $.tag[`${TAG_NAME}_alt`] = true
            )
        "#;
    let tokens = Tokenizer::lexer(payload).expect("tokenizes");
    let got = triples(&tokens);
    assert_eq!(got.len(), 50);
    assert_eq!(got[10], ("operation", "&&".to_string(), 27, 29));
    assert_eq!(got[12], ("open_parenthesis", "(".to_string(), 30, 31));
    assert_eq!(got[19], ("keyword", "$TAG_NAME".to_string(), 54, 63));
    assert_eq!(got[35], ("template_start_expression", "${".to_string(), 98, 100));
    assert_eq!(got[38], ("template", "_alt".to_string(), 109, 113));
    assert_eq!(got[47], ("close_parenthesis", ")".to_string(), 135, 136));
}

#[test]
fn a() {
    let cursor = SourceCursor::new("123456");
    assert_eq!(cursor.get(Direction::Pos(0), Direction::Pos(83)), "123456");
}
