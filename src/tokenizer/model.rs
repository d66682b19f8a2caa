use vstd::prelude::*;

use super::classify::{
    CharClass, BACKSLASH, BACKTICK, CLOSE_CURLY_BRACKET, CLOSE_PARENTHESIS, CLOSE_SQUARE_BRACKET,
    COLON, DOLLAR, DOT, EQUAL, OPEN_CURLY_BRACKET, OPEN_PARENTHESIS, OPEN_SQUARE_BRACKET, QUOTE,
};
use super::lexer_options::LexerOptions;
use super::token::{Lexeme, TokenKind};

verus! {

/// One entry of the scanner's stack of active contexts: a general scanning
/// level with its options, or the literal part of a template.
#[derive(Debug, Clone, Copy, PartialEq, Eq, Structural)]
pub enum ScanFrame {
    Scope(LexerOptions),
    Template,
}

/// What one step of the scanner does: fail at an offset, or emit some
/// tokens and move to a new position and stack.
pub enum ScanStep {
    Fail(int),
    Next(Seq<Lexeme>, int, Seq<ScanFrame>),
}

pub open spec fn lexeme(kind: TokenKind, start: int, end: int) -> Lexeme {
    Lexeme { kind, start, end }
}

/// The position after an escape that starts at `pos`: the backslash and the
/// byte after it, or only the backslash at the end of input.
pub open spec fn escape_skip(src: Seq<u8>, pos: int) -> int {
    if pos + 2 <= src.len() {
        pos + 2
    } else {
        src.len() as int
    }
}

/// End of the maximal run of `class` bytes from `pos`; with `escapes`, a
/// backslash and the byte after it belong to the run whatever they are.
pub open spec fn bind_end(src: Seq<u8>, pos: int, class: CharClass, escapes: bool) -> int
    decreases src.len() - pos,
{
    if pos < 0 || pos >= src.len() {
        pos
    } else if escapes && src[pos] == BACKSLASH {
        bind_end(src, escape_skip(src, pos), class, escapes)
    } else if class.spec_matches(src[pos]) {
        bind_end(src, pos + 1, class, escapes)
    } else {
        pos
    }
}

/// Whether the two bytes at `pos` are `${`, the opening of an embedded expression.
pub open spec fn opens_expression(src: Seq<u8>, pos: int) -> bool {
    0 <= pos && pos + 1 < src.len() && src[pos] == DOLLAR && src[pos + 1] == OPEN_CURLY_BRACKET
}

/// End of the literal text of a template from `pos`: the first `${` or
/// backtick that no backslash escapes, or the end of input.
pub open spec fn template_end(src: Seq<u8>, pos: int) -> int
    decreases src.len() - pos,
{
    if pos < 0 || pos >= src.len() {
        pos
    } else if src[pos] == BACKSLASH {
        template_end(src, escape_skip(src, pos))
    } else if opens_expression(src, pos) || src[pos] == BACKTICK {
        pos
    } else {
        template_end(src, pos + 1)
    }
}

/// The options of the level opened by `{`, `(` or `[`, or by `${` in a template.
pub open spec fn curly_scope() -> LexerOptions {
    LexerOptions { break_by_close_curly_bracket: true, ..LexerOptions::spec_default() }
}

pub open spec fn parenthesis_scope() -> LexerOptions {
    LexerOptions { break_by_close_parenthesis: true, ..LexerOptions::spec_default() }
}

pub open spec fn square_scope() -> LexerOptions {
    LexerOptions { break_by_close_square_bracket: true, ..LexerOptions::spec_default() }
}

pub open spec fn expression_scope() -> LexerOptions {
    LexerOptions { template_break_by_close_curly_bracket: true, ..LexerOptions::spec_default() }
}

/// A run token of `kind` over the class bytes from `pos`.
pub open spec fn run_step(
    src: Seq<u8>,
    pos: int,
    stack: Seq<ScanFrame>,
    kind: TokenKind,
    class: CharClass,
) -> ScanStep {
    let e = bind_end(src, pos, class, false);
    ScanStep::Next(seq![lexeme(kind, pos, e)], e, stack)
}

/// A token of one byte; the level ends when `stops` holds.
pub open spec fn closer_step(
    pos: int,
    stack: Seq<ScanFrame>,
    kind: TokenKind,
    stops: bool,
) -> ScanStep {
    ScanStep::Next(
        seq![lexeme(kind, pos, pos + 1)],
        pos + 1,
        if stops {
            stack.drop_last()
        } else {
            stack
        },
    )
}

/// A token of one byte that opens the nested context `frame`.
pub open spec fn opener_step(
    pos: int,
    stack: Seq<ScanFrame>,
    kind: TokenKind,
    frame: ScanFrame,
) -> ScanStep {
    ScanStep::Next(seq![lexeme(kind, pos, pos + 1)], pos + 1, stack.push(frame))
}

/// One step of a general level with `options` on top of `stack`, at a
/// position inside the input.
pub open spec fn scope_step(
    src: Seq<u8>,
    pos: int,
    options: LexerOptions,
    stack: Seq<ScanFrame>,
) -> ScanStep {
    let c = src[pos];
    if CharClass::Space.spec_matches(c) {
        run_step(src, pos, stack, TokenKind::Space, CharClass::Space)
    } else if c == CLOSE_CURLY_BRACKET {
        if options.template_break_by_close_curly_bracket {
            closer_step(pos, stack, TokenKind::TemplateCloseExpression, true)
        } else {
            closer_step(pos, stack, TokenKind::CloseCurlyBracket, options.break_by_close_curly_bracket)
        }
    } else if c == CLOSE_PARENTHESIS {
        closer_step(pos, stack, TokenKind::CloseParenthesis, options.break_by_close_parenthesis)
    } else if c == CLOSE_SQUARE_BRACKET {
        closer_step(pos, stack, TokenKind::CloseSquareBracket, options.break_by_close_square_bracket)
    } else if c == OPEN_CURLY_BRACKET {
        opener_step(pos, stack, TokenKind::OpenCurlyBracket, ScanFrame::Scope(curly_scope()))
    } else if c == OPEN_PARENTHESIS {
        opener_step(pos, stack, TokenKind::OpenParenthesis, ScanFrame::Scope(parenthesis_scope()))
    } else if c == OPEN_SQUARE_BRACKET {
        opener_step(pos, stack, TokenKind::OpenSquareBracket, ScanFrame::Scope(square_scope()))
    } else if c == BACKTICK {
        opener_step(pos, stack, TokenKind::TemplateStart, ScanFrame::Template)
    } else if c == COLON {
        closer_step(pos, stack, TokenKind::Colon, false)
    } else if c == EQUAL {
        closer_step(pos, stack, TokenKind::Equal, false)
    } else if CharClass::Newline.spec_matches(c) {
        run_step(src, pos, stack, TokenKind::Newline, CharClass::Newline)
    } else if c == DOT {
        closer_step(pos, stack, TokenKind::Dot, false)
    } else if CharClass::KeywordStart.spec_matches(c) {
        run_step(src, pos, stack, TokenKind::Keyword, CharClass::KeywordPart)
    } else if CharClass::Digit.spec_matches(c) {
        run_step(src, pos, stack, TokenKind::Numeric, CharClass::NumericPart)
    } else if CharClass::Operator.spec_matches(c) {
        run_step(src, pos, stack, TokenKind::Operation, CharClass::Operator)
    } else if c == QUOTE {
        let e = bind_end(src, pos + 1, CharClass::StringBody, true);
        ScanStep::Next(
            seq![lexeme(TokenKind::StringLiteral, pos + 1, e)],
            if e < src.len() {
                e + 1
            } else {
                e
            },
            stack,
        )
    } else {
        ScanStep::Fail(pos)
    }
}

/// One step of the literal part of a template: its text up to the next
/// marker, then the marker.
pub open spec fn template_step(src: Seq<u8>, pos: int, stack: Seq<ScanFrame>) -> ScanStep {
    let e = template_end(src, pos);
    let text = lexeme(TokenKind::Template, pos, e);
    if opens_expression(src, e) {
        ScanStep::Next(
            seq![text, lexeme(TokenKind::TemplateStartExpression, e, e + 2)],
            e + 2,
            stack.push(ScanFrame::Scope(expression_scope())),
        )
    } else if e < src.len() {
        ScanStep::Next(seq![text, lexeme(TokenKind::TemplateClose, e, e + 1)], e + 1, stack.drop_last())
    } else {
        ScanStep::Next(seq![text, lexeme(TokenKind::TemplateClose, e, e)], e, stack.drop_last())
    }
}

/// One step of the scanner on a non-empty stack.
pub open spec fn step(src: Seq<u8>, pos: int, stack: Seq<ScanFrame>) -> ScanStep {
    match stack.last() {
        ScanFrame::Scope(options) => {
            if pos >= src.len() {
                ScanStep::Next(seq![], pos, stack.drop_last())
            } else {
                scope_step(src, pos, options, stack)
            }
        },
        ScanFrame::Template => template_step(src, pos, stack),
    }
}

/// The tokens that the scanner emits from a position and a stack of
/// contexts until the stack is empty, or the offset of the first byte that
/// no classifier accepts.
pub open spec fn scan(src: Seq<u8>, pos: int, stack: Seq<ScanFrame>) -> Result<Seq<Lexeme>, int>
    decreases src.len() - pos, stack.len(),
    when 0 <= pos <= src.len()
{
    if stack.len() == 0 {
        Ok(seq![])
    } else {
        match step(src, pos, stack) {
            ScanStep::Fail(p) => Err(p),
            ScanStep::Next(out, next, rest) => {
                proof {
                    lemma_step_progress(src, pos, stack);
                }
                match scan(src, next, rest) {
                    Ok(more) => Ok(out + more),
                    Err(p) => Err(p),
                }
            },
        }
    }
}

/// The position at which a scan from a position and a stack of contexts
/// stops: where the stack becomes empty, or the offset of the failing byte.
pub open spec fn scan_end(src: Seq<u8>, pos: int, stack: Seq<ScanFrame>) -> int
    decreases src.len() - pos, stack.len(),
    when 0 <= pos <= src.len()
{
    if stack.len() == 0 {
        pos
    } else {
        match step(src, pos, stack) {
            ScanStep::Fail(_) => pos,
            ScanStep::Next(out, next, rest) => {
                proof {
                    lemma_step_progress(src, pos, stack);
                }
                scan_end(src, next, rest)
            },
        }
    }
}

/// The tokens of a whole source, scanned from its start at one level with
/// no break condition.
pub open spec fn tokenize(src: Seq<u8>) -> Result<Seq<Lexeme>, int> {
    scan(src, 0, seq![ScanFrame::Scope(LexerOptions::spec_default())])
}

pub proof fn lemma_bind_end(src: Seq<u8>, pos: int, class: CharClass, escapes: bool)
    requires
        0 <= pos <= src.len(),
    ensures
        pos <= bind_end(src, pos, class, escapes) <= src.len(),
        bind_end(src, pos, class, escapes) < src.len() ==> !class.spec_matches(
            src[bind_end(src, pos, class, escapes)],
        ) && !(escapes && src[bind_end(src, pos, class, escapes)] == BACKSLASH),
        !escapes ==> forall|i: int|
            pos <= i < bind_end(src, pos, class, escapes) ==> class.spec_matches(#[trigger] src[i]),
    decreases src.len() - pos,
{
    if pos < src.len() {
        if escapes && src[pos] == BACKSLASH {
            lemma_bind_end(src, escape_skip(src, pos), class, escapes);
        } else if class.spec_matches(src[pos]) {
            lemma_bind_end(src, pos + 1, class, escapes);
        }
    }
}

pub proof fn lemma_template_end(src: Seq<u8>, pos: int)
    requires
        0 <= pos <= src.len(),
    ensures
        pos <= template_end(src, pos) <= src.len(),
        template_end(src, pos) < src.len() ==> opens_expression(src, template_end(src, pos))
            || src[template_end(src, pos)] == BACKTICK,
    decreases src.len() - pos,
{
    if pos < src.len() {
        if src[pos] == BACKSLASH {
            lemma_template_end(src, escape_skip(src, pos));
        } else if !(opens_expression(src, pos) || src[pos] == BACKTICK) {
            lemma_template_end(src, pos + 1);
        }
    }
}

/// Every step moves forward, or stays and pops a context.
pub proof fn lemma_step_progress(src: Seq<u8>, pos: int, stack: Seq<ScanFrame>)
    requires
        0 <= pos <= src.len(),
        stack.len() > 0,
    ensures
        match step(src, pos, stack) {
            ScanStep::Fail(p) => p == pos,
            ScanStep::Next(out, next, rest) => pos <= next <= src.len() && (pos < next || rest.len()
                < stack.len()),
        },
{
    match stack.last() {
        ScanFrame::Scope(options) => {
            if pos < src.len() {
                lemma_bind_end(src, pos, CharClass::Space, false);
                lemma_bind_end(src, pos, CharClass::Newline, false);
                lemma_bind_end(src, pos, CharClass::KeywordPart, false);
                lemma_bind_end(src, pos, CharClass::NumericPart, false);
                lemma_bind_end(src, pos, CharClass::Operator, false);
                lemma_bind_end(src, pos + 1, CharClass::StringBody, true);
            }
        },
        ScanFrame::Template => {
            lemma_template_end(src, pos);
        },
    }
}

} // verus!
