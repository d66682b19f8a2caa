use vstd::prelude::*;
use vstd::utf8::encode_utf8;

verus! {

/// The closed set of token tags the tokenizer produces.
#[derive(Debug, Clone, Copy, PartialEq, Eq, Structural)]
pub enum TokenKind {
    Space,
    Colon,
    Equal,
    Newline,
    OpenParenthesis,
    CloseParenthesis,
    OpenSquareBracket,
    CloseSquareBracket,
    OpenCurlyBracket,
    CloseCurlyBracket,
    Dot,
    Keyword,
    Numeric,
    Operation,
    StringLiteral,
    TemplateStart,
    Template,
    TemplateStartExpression,
    TemplateCloseExpression,
    TemplateClose,
}

impl TokenKind {
    /// The tag under which consumers know this kind.
    pub open spec fn tag(self) -> Seq<char> {
        match self {
            TokenKind::Space => "space"@,
            TokenKind::Colon => "colon"@,
            TokenKind::Equal => "equal"@,
            TokenKind::Newline => "newline"@,
            TokenKind::OpenParenthesis => "open_parenthesis"@,
            TokenKind::CloseParenthesis => "close_parenthesis"@,
            TokenKind::OpenSquareBracket => "open_square_bracket"@,
            TokenKind::CloseSquareBracket => "close_square_bracket"@,
            TokenKind::OpenCurlyBracket => "open_curly_bracket"@,
            TokenKind::CloseCurlyBracket => "close_curly_bracket"@,
            TokenKind::Dot => "dot"@,
            TokenKind::Keyword => "keyword"@,
            TokenKind::Numeric => "numeric"@,
            TokenKind::Operation => "operation"@,
            TokenKind::StringLiteral => "string"@,
            TokenKind::TemplateStart => "template_start"@,
            TokenKind::Template => "template"@,
            TokenKind::TemplateStartExpression => "template_start_expression"@,
            TokenKind::TemplateCloseExpression => "template_close_expression"@,
            TokenKind::TemplateClose => "template_close"@,
        }
    }

    pub fn name(&self) -> (r: &'static str)
        ensures
            r@ == self.tag(),
    {
        match self {
            TokenKind::Space => "space",
            TokenKind::Colon => "colon",
            TokenKind::Equal => "equal",
            TokenKind::Newline => "newline",
            TokenKind::OpenParenthesis => "open_parenthesis",
            TokenKind::CloseParenthesis => "close_parenthesis",
            TokenKind::OpenSquareBracket => "open_square_bracket",
            TokenKind::CloseSquareBracket => "close_square_bracket",
            TokenKind::OpenCurlyBracket => "open_curly_bracket",
            TokenKind::CloseCurlyBracket => "close_curly_bracket",
            TokenKind::Dot => "dot",
            TokenKind::Keyword => "keyword",
            TokenKind::Numeric => "numeric",
            TokenKind::Operation => "operation",
            TokenKind::StringLiteral => "string",
            TokenKind::TemplateStart => "template_start",
            TokenKind::Template => "template",
            TokenKind::TemplateStartExpression => "template_start_expression",
            TokenKind::TemplateCloseExpression => "template_close_expression",
            TokenKind::TemplateClose => "template_close",
        }
    }
}

/// A half-open range `[start, end)` of byte offsets into the source.
#[derive(Debug, Clone, Copy, PartialEq, Eq, Structural)]
pub struct Span {
    pub start: usize,
    pub end: usize,
}

/// What the model of the scanner knows of a token: its kind and its span.
pub struct Lexeme {
    pub kind: TokenKind,
    pub start: int,
    pub end: int,
}

/// A classified, span-tagged piece of the source. `raw` holds the source
/// bytes of the span, escapes left as written.
#[derive(Debug, Clone)]
pub struct Token {
    pub kind: TokenKind,
    pub raw: String,
    pub span: Span,
}

impl View for Token {
    type V = Lexeme;

    open spec fn view(&self) -> Lexeme {
        Lexeme { kind: self.kind, start: self.span.start as int, end: self.span.end as int }
    }
}

/// The kinds and spans of a sequence of tokens.
pub open spec fn views(ts: Seq<Token>) -> Seq<Lexeme> {
    ts.map_values(|t: Token| t@)
}

/// A token's span lies in the source and its `raw` is exactly the source
/// bytes of the span.
pub open spec fn token_faithful(t: Token, src: Seq<u8>) -> bool {
    &&& t.span.start <= t.span.end <= src.len()
    &&& encode_utf8(t.raw@) == src.subrange(t.span.start as int, t.span.end as int)
}

pub open spec fn faithful(ts: Seq<Token>, src: Seq<u8>) -> bool {
    forall|i: int| 0 <= i < ts.len() ==> token_faithful(#[trigger] ts[i], src)
}

pub proof fn lemma_push_token(ts: Seq<Token>, t: Token, src: Seq<u8>)
    ensures
        views(ts.push(t)) == views(ts) + seq![t@],
        faithful(ts, src) && token_faithful(t, src) ==> faithful(ts.push(t), src),
{
    assert(views(ts.push(t)) =~= views(ts) + seq![t@]);
    if faithful(ts, src) && token_faithful(t, src) {
        assert forall|i: int| 0 <= i < ts.push(t).len() implies token_faithful(
            #[trigger] ts.push(t)[i],
            src,
        ) by {
            if i < ts.len() {
                assert(ts.push(t)[i] == ts[i]);
            }
        }
    }
}

} // verus!
