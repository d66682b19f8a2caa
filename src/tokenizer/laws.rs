use vstd::prelude::*;

use super::classify::{
    CharClass, CLOSE_CURLY_BRACKET, CLOSE_PARENTHESIS, CLOSE_SQUARE_BRACKET, COLON, DOT, EQUAL,
    OPEN_CURLY_BRACKET, OPEN_PARENTHESIS, OPEN_SQUARE_BRACKET,
};
use super::lexer_options::LexerOptions;
use super::model::{
    bind_end, curly_scope, expression_scope, lemma_bind_end, lemma_step_progress,
    lemma_template_end, lexeme, parenthesis_scope, scan, scan_end, square_scope, step,
    template_end,
    tokenize, ScanFrame, ScanStep,
};
use super::token::{Lexeme, TokenKind};

verus! {

/// The stack has the outermost level, with no break condition, at its bottom.
pub open spec fn based(stack: Seq<ScanFrame>) -> bool {
    stack.len() > 0 && stack[0] == ScanFrame::Scope(LexerOptions::spec_default())
}

/// A step from a stack with the outermost level at its bottom keeps it
/// there, or pops it at the end of input.
pub proof fn lemma_step_keeps_base(src: Seq<u8>, pos: int, stack: Seq<ScanFrame>)
    requires
        0 <= pos <= src.len(),
        based(stack),
        step(src, pos, stack) is Next,
    ensures
        ({
            let (next, rest) = (step(src, pos, stack)->Next_1, step(src, pos, stack)->Next_2);
            based(rest) || (rest.len() == 0 && pos == src.len() && next == src.len())
        }),
{
    lemma_step_progress(src, pos, stack);
    let rest = step(src, pos, stack)->Next_2;
    if stack.len() > 1 {
        assert(rest.len() >= 1);
        if rest.len() < stack.len() {
            assert(rest =~= stack.drop_last());
            assert(rest[0] == stack[0]);
        } else if rest.len() > stack.len() {
            assert(rest[0] == stack[0]);
        } else {
            assert(rest =~= stack);
        }
    }
}

/// The source text a token was cut from: its span, and for a string
/// literal also the quotes around it (the closing one only where the
/// literal is closed).
pub open spec fn lexeme_source(src: Seq<u8>, l: Lexeme) -> Seq<u8> {
    if l.kind == TokenKind::StringLiteral {
        src.subrange(
            l.start - 1,
            if l.end < src.len() {
                l.end + 1
            } else {
                l.end
            },
        )
    } else {
        src.subrange(l.start, l.end)
    }
}

/// The source texts of the tokens, concatenated in order.
pub open spec fn joined(src: Seq<u8>, ls: Seq<Lexeme>) -> Seq<u8>
    decreases ls.len(),
{
    if ls.len() == 0 {
        seq![]
    } else {
        lexeme_source(src, ls[0]) + joined(src, ls.drop_first())
    }
}

pub proof fn lemma_joined_append(src: Seq<u8>, a: Seq<Lexeme>, b: Seq<Lexeme>)
    ensures
        joined(src, a + b) == joined(src, a) + joined(src, b),
    decreases a.len(),
{
    if a.len() == 0 {
        assert(a + b =~= b);
        assert(joined(src, a) + joined(src, b) =~= joined(src, b));
    } else {
        assert((a + b).drop_first() =~= a.drop_first() + b);
        assert((a + b)[0] == a[0]);
        lemma_joined_append(src, a.drop_first(), b);
        assert(lexeme_source(src, a[0]) + (joined(src, a.drop_first()) + joined(src, b))
            =~= (lexeme_source(src, a[0]) + joined(src, a.drop_first())) + joined(src, b));
    }
}

proof fn lemma_joined_one(src: Seq<u8>, l: Lexeme)
    ensures
        joined(src, seq![l]) == lexeme_source(src, l),
{
    assert(seq![l].drop_first() =~= Seq::<Lexeme>::empty());
    assert(seq![l][0] == l);
    assert(joined(src, Seq::<Lexeme>::empty()) == Seq::<u8>::empty());
    assert(lexeme_source(src, l) + Seq::<u8>::empty() =~= lexeme_source(src, l));
}

proof fn lemma_joined_two(src: Seq<u8>, l: Lexeme, m: Lexeme)
    ensures
        joined(src, seq![l, m]) == lexeme_source(src, l) + lexeme_source(src, m),
{
    assert(seq![l, m] =~= seq![l] + seq![m]);
    lemma_joined_append(src, seq![l], seq![m]);
    lemma_joined_one(src, l);
    lemma_joined_one(src, m);
}

/// The tokens of one step cover exactly the bytes the step moves over.
proof fn lemma_step_covers(src: Seq<u8>, pos: int, stack: Seq<ScanFrame>)
    requires
        0 <= pos <= src.len(),
        stack.len() > 0,
        step(src, pos, stack) is Next,
    ensures
        joined(src, step(src, pos, stack)->Next_0) == src.subrange(pos, step(src, pos, stack)->Next_1),
{
    lemma_step_progress(src, pos, stack);
    let out = step(src, pos, stack)->Next_0;
    let next = step(src, pos, stack)->Next_1;
    match stack.last() {
        ScanFrame::Scope(options) => {
            if pos >= src.len() {
                assert(src.subrange(pos, next) =~= Seq::<u8>::empty());
            } else {
                assert(out.len() == 1);
                assert(out =~= seq![out[0]]);
                lemma_joined_one(src, out[0]);
                if out[0].kind == TokenKind::StringLiteral {
                    lemma_bind_end(src, pos + 1, CharClass::StringBody, true);
                }
                assert(lexeme_source(src, out[0]) =~= src.subrange(pos, next));
            }
        },
        ScanFrame::Template => {
            lemma_template_end(src, pos);
            let e = template_end(src, pos);
            assert(out =~= seq![out[0], out[1]]);
            lemma_joined_two(src, out[0], out[1]);
            assert(src.subrange(pos, e) + src.subrange(e, next) =~= src.subrange(pos, next));
        },
    }
}

/// What a scan from a reachable state gives covers the rest of the source.
proof fn lemma_scan_covers(src: Seq<u8>, pos: int, stack: Seq<ScanFrame>)
    requires
        0 <= pos <= src.len(),
        based(stack) || (stack.len() == 0 && pos == src.len()),
        scan(src, pos, stack) is Ok,
    ensures
        joined(src, scan(src, pos, stack)->Ok_0) == src.subrange(pos, src.len() as int),
    decreases src.len() - pos, stack.len(),
{
    if stack.len() == 0 {
        assert(src.subrange(pos, src.len() as int) =~= Seq::<u8>::empty());
    } else {
        lemma_step_progress(src, pos, stack);
        let (out, next, rest) = (
            step(src, pos, stack)->Next_0,
            step(src, pos, stack)->Next_1,
            step(src, pos, stack)->Next_2,
        );
        lemma_step_keeps_base(src, pos, stack);
        lemma_scan_covers(src, next, rest);
        lemma_step_covers(src, pos, stack);
        lemma_joined_append(src, out, scan(src, next, rest)->Ok_0);
        assert(src.subrange(pos, next) + src.subrange(next, src.len() as int) =~= src.subrange(
            pos,
            src.len() as int,
        ));
    }
}

/// Concatenating, in order, the source text of every token (its raw text,
/// with the quotes of a string literal put back) gives the source exactly.
pub proof fn lemma_tokens_cover_source(src: Seq<u8>)
    requires
        tokenize(src) is Ok,
    ensures
        joined(src, tokenize(src)->Ok_0) == src,
{
    lemma_scan_covers(src, 0, seq![ScanFrame::Scope(LexerOptions::spec_default())]);
    assert(src.subrange(0, src.len() as int) =~= src);
}

/// The kinds whose raw text is a single token on its own: runs of one
/// class and one-byte delimiters.
pub open spec fn is_simple(k: TokenKind) -> bool {
    ||| k == TokenKind::Space
    ||| k == TokenKind::Newline
    ||| k == TokenKind::Keyword
    ||| k == TokenKind::Numeric
    ||| k == TokenKind::Operation
    ||| k == TokenKind::Dot
    ||| k == TokenKind::Colon
    ||| k == TokenKind::Equal
    ||| k == TokenKind::OpenParenthesis
    ||| k == TokenKind::CloseParenthesis
    ||| k == TokenKind::OpenSquareBracket
    ||| k == TokenKind::CloseSquareBracket
    ||| k == TokenKind::OpenCurlyBracket
    ||| k == TokenKind::CloseCurlyBracket
}

/// A run of `class` bytes that starts with a `first` byte.
pub open spec fn is_run(bytes: Seq<u8>, first: CharClass, class: CharClass) -> bool {
    &&& bytes.len() > 0
    &&& first.spec_matches(bytes[0])
    &&& forall|i: int| 0 <= i < bytes.len() ==> class.spec_matches(#[trigger] bytes[i])
}

/// The bytes a token of a simple kind may have.
pub open spec fn shaped(k: TokenKind, bytes: Seq<u8>) -> bool {
    match k {
        TokenKind::Space => is_run(bytes, CharClass::Space, CharClass::Space),
        TokenKind::Newline => is_run(bytes, CharClass::Newline, CharClass::Newline),
        TokenKind::Keyword => is_run(bytes, CharClass::KeywordStart, CharClass::KeywordPart),
        TokenKind::Numeric => is_run(bytes, CharClass::Digit, CharClass::NumericPart),
        TokenKind::Operation => is_run(bytes, CharClass::Operator, CharClass::Operator),
        TokenKind::Dot => bytes == seq![DOT],
        TokenKind::Colon => bytes == seq![COLON],
        TokenKind::Equal => bytes == seq![EQUAL],
        TokenKind::OpenParenthesis => bytes == seq![OPEN_PARENTHESIS],
        TokenKind::CloseParenthesis => bytes == seq![CLOSE_PARENTHESIS],
        TokenKind::OpenSquareBracket => bytes == seq![OPEN_SQUARE_BRACKET],
        TokenKind::CloseSquareBracket => bytes == seq![CLOSE_SQUARE_BRACKET],
        TokenKind::OpenCurlyBracket => bytes == seq![OPEN_CURLY_BRACKET],
        TokenKind::CloseCurlyBracket => bytes == seq![CLOSE_CURLY_BRACKET],
        _ => true,
    }
}

/// A token's span lies in the source, and a simple token has the bytes
/// of its kind.
pub open spec fn classified(src: Seq<u8>, l: Lexeme) -> bool {
    &&& 0 <= l.start <= l.end <= src.len()
    &&& shaped(l.kind, src.subrange(l.start, l.end))
}

proof fn lemma_run_shaped(src: Seq<u8>, pos: int, first: CharClass, class: CharClass)
    requires
        0 <= pos < src.len(),
        first.spec_matches(src[pos]),
        forall|b: u8| first.spec_matches(b) ==> class.spec_matches(b),
    ensures
        is_run(src.subrange(pos, bind_end(src, pos, class, false)), first, class),
        pos < bind_end(src, pos, class, false) <= src.len(),
{
    lemma_bind_end(src, pos, class, false);
    let e = bind_end(src, pos, class, false);
    let bytes = src.subrange(pos, e);
    assert(bytes[0] == src[pos]);
    assert forall|i: int| 0 <= i < bytes.len() implies class.spec_matches(#[trigger] bytes[i]) by {
        assert(bytes[i] == src[pos + i]);
    }
}

/// Every token of one step is classified.
proof fn lemma_step_classified(src: Seq<u8>, pos: int, stack: Seq<ScanFrame>)
    requires
        0 <= pos <= src.len(),
        stack.len() > 0,
        step(src, pos, stack) is Next,
    ensures
        forall|i: int|
            0 <= i < step(src, pos, stack)->Next_0.len() ==> classified(
                src,
                #[trigger] step(src, pos, stack)->Next_0[i],
            ),
{
    lemma_step_progress(src, pos, stack);
    let out = step(src, pos, stack)->Next_0;
    match stack.last() {
        ScanFrame::Scope(options) => {
            if pos < src.len() {
                let c = src[pos];
                lemma_bind_end(src, pos + 1, CharClass::StringBody, true);
                if CharClass::Space.spec_matches(c) {
                    lemma_run_shaped(src, pos, CharClass::Space, CharClass::Space);
                } else if CharClass::Newline.spec_matches(c) {
                    lemma_run_shaped(src, pos, CharClass::Newline, CharClass::Newline);
                } else if CharClass::KeywordStart.spec_matches(c) {
                    lemma_run_shaped(src, pos, CharClass::KeywordStart, CharClass::KeywordPart);
                } else if CharClass::Digit.spec_matches(c) {
                    lemma_run_shaped(src, pos, CharClass::Digit, CharClass::NumericPart);
                } else if CharClass::Operator.spec_matches(c) {
                    lemma_run_shaped(src, pos, CharClass::Operator, CharClass::Operator);
                }
                assert(src.subrange(pos, pos + 1) =~= seq![c]);
                assert(classified(src, out[0]));
            }
        },
        ScanFrame::Template => {
            lemma_template_end(src, pos);
            assert(classified(src, out[0]));
            assert(classified(src, out[1]));
        },
    }
}

/// Every token of a scan is classified.
proof fn lemma_scan_classified(src: Seq<u8>, pos: int, stack: Seq<ScanFrame>)
    requires
        0 <= pos <= src.len(),
        scan(src, pos, stack) is Ok,
    ensures
        forall|i: int|
            0 <= i < scan(src, pos, stack)->Ok_0.len() ==> classified(
                src,
                #[trigger] scan(src, pos, stack)->Ok_0[i],
            ),
    decreases src.len() - pos, stack.len(),
{
    if stack.len() > 0 {
        lemma_step_progress(src, pos, stack);
        let (out, next, rest) = (
            step(src, pos, stack)->Next_0,
            step(src, pos, stack)->Next_1,
            step(src, pos, stack)->Next_2,
        );
        lemma_step_classified(src, pos, stack);
        lemma_scan_classified(src, next, rest);
        let more = scan(src, next, rest)->Ok_0;
        assert forall|i: int| 0 <= i < (out + more).len() implies classified(
            src,
            #[trigger] (out + more)[i],
        ) by {
            if i < out.len() {
                assert((out + more)[i] == out[i]);
            } else {
                assert((out + more)[i] == more[i - out.len()]);
            }
        }
    }
}

proof fn lemma_bind_end_whole(bytes: Seq<u8>, pos: int, class: CharClass)
    requires
        0 <= pos <= bytes.len(),
        forall|i: int| 0 <= i < bytes.len() ==> class.spec_matches(#[trigger] bytes[i]),
    ensures
        bind_end(bytes, pos, class, false) == bytes.len(),
    decreases bytes.len() - pos,
{
    if pos < bytes.len() {
        lemma_bind_end_whole(bytes, pos + 1, class);
    }
}

/// A source of one simple token's bytes tokenizes to that one token.
proof fn lemma_shaped_tokenizes(k: TokenKind, bytes: Seq<u8>)
    requires
        is_simple(k),
        shaped(k, bytes),
    ensures
        tokenize(bytes) == Ok::<Seq<Lexeme>, int>(seq![lexeme(k, 0, bytes.len() as int)]),
{
    let base = seq![ScanFrame::Scope(LexerOptions::spec_default())];
    let n = bytes.len() as int;
    let one = seq![lexeme(k, 0, n)];
    assert(base.drop_last() =~= Seq::<ScanFrame>::empty());
    assert(scan(bytes, n, Seq::<ScanFrame>::empty()) == Ok::<Seq<Lexeme>, int>(seq![]));
    assert(scan(bytes, n, base) == Ok::<Seq<Lexeme>, int>(seq![] + seq![]));
    assert(Seq::<Lexeme>::empty() + Seq::<Lexeme>::empty() =~= Seq::<Lexeme>::empty());
    assert(one + Seq::<Lexeme>::empty() =~= one);
    if k == TokenKind::Space {
        lemma_bind_end_whole(bytes, 0, CharClass::Space);
    } else if k == TokenKind::Newline {
        lemma_bind_end_whole(bytes, 0, CharClass::Newline);
    } else if k == TokenKind::Keyword {
        lemma_bind_end_whole(bytes, 0, CharClass::KeywordPart);
    } else if k == TokenKind::Numeric {
        lemma_bind_end_whole(bytes, 0, CharClass::NumericPart);
    } else if k == TokenKind::Operation {
        lemma_bind_end_whole(bytes, 0, CharClass::Operator);
    }
    if k == TokenKind::OpenParenthesis || k == TokenKind::OpenSquareBracket || k
        == TokenKind::OpenCurlyBracket {
        let opened = step(bytes, 0, base)->Next_2;
        assert(opened.len() == 2);
        assert(opened.drop_last() =~= base);
        assert(scan(bytes, 1, opened) == Ok::<Seq<Lexeme>, int>(seq![] + seq![]));
        assert(scan(bytes, 0, base) == Ok::<Seq<Lexeme>, int>(one + (seq![] + seq![])));
    } else {
        assert(scan(bytes, 0, base) == Ok::<Seq<Lexeme>, int>(one + (seq![] + seq![])));
    }
}

/// Tokenizing the raw text of a simple token on its own gives exactly one
/// token, of the same kind, over the whole text.
pub proof fn lemma_simple_token_retokenizes(src: Seq<u8>, i: int)
    requires
        tokenize(src) is Ok,
        0 <= i < tokenize(src)->Ok_0.len(),
        is_simple(tokenize(src)->Ok_0[i].kind),
    ensures
        ({
            let l = tokenize(src)->Ok_0[i];
            let raw = src.subrange(l.start, l.end);
            tokenize(raw) == Ok::<Seq<Lexeme>, int>(
                seq![Lexeme { kind: l.kind, start: 0, end: raw.len() as int }],
            )
        }),
{
    lemma_scan_classified(src, 0, seq![ScanFrame::Scope(LexerOptions::spec_default())]);
    let l = tokenize(src)->Ok_0[i];
    assert(classified(src, l));
    lemma_shaped_tokenizes(l.kind, src.subrange(l.start, l.end));
}

pub open spec fn is_opener(k: TokenKind) -> bool {
    ||| k == TokenKind::OpenParenthesis
    ||| k == TokenKind::OpenSquareBracket
    ||| k == TokenKind::OpenCurlyBracket
    ||| k == TokenKind::TemplateStart
    ||| k == TokenKind::TemplateStartExpression
}

/// The opener that a closing kind pairs with.
pub open spec fn opener_of(k: TokenKind) -> Option<TokenKind> {
    match k {
        TokenKind::CloseParenthesis => Some(TokenKind::OpenParenthesis),
        TokenKind::CloseSquareBracket => Some(TokenKind::OpenSquareBracket),
        TokenKind::CloseCurlyBracket => Some(TokenKind::OpenCurlyBracket),
        TokenKind::TemplateClose => Some(TokenKind::TemplateStart),
        TokenKind::TemplateCloseExpression => Some(TokenKind::TemplateStartExpression),
        _ => None,
    }
}

/// Read with a stack of open delimiters `open`, every closing token of
/// `ls` closes the innermost open one of its family, and nothing is left
/// open at the end.
pub open spec fn brackets_match(ls: Seq<Lexeme>, open: Seq<TokenKind>) -> bool
    decreases ls.len(),
{
    if ls.len() == 0 {
        open.len() == 0
    } else {
        let k = ls[0].kind;
        if is_opener(k) {
            brackets_match(ls.drop_first(), open.push(k))
        } else if opener_of(k) is Some {
            open.len() > 0 && open.last() == opener_of(k)->Some_0 && brackets_match(
                ls.drop_first(),
                open.drop_last(),
            )
        } else {
            brackets_match(ls.drop_first(), open)
        }
    }
}

pub open spec fn balanced(ls: Seq<Lexeme>) -> bool {
    brackets_match(ls, seq![])
}

/// A step at which the input is not well-formed: a closing delimiter that
/// does not end the level it stands in, or the end of input inside a
/// nested level or a template.
pub open spec fn stray(src: Seq<u8>, pos: int, stack: Seq<ScanFrame>) -> bool {
    match stack.last() {
        ScanFrame::Scope(o) => if pos >= src.len() {
            stack.len() > 1
        } else {
            let c = src[pos];
            ||| (c == CLOSE_CURLY_BRACKET && !o.template_break_by_close_curly_bracket
                && !o.break_by_close_curly_bracket)
            ||| (c == CLOSE_PARENTHESIS && !o.break_by_close_parenthesis)
            ||| (c == CLOSE_SQUARE_BRACKET && !o.break_by_close_square_bracket)
        },
        ScanFrame::Template => template_end(src, pos) >= src.len(),
    }
}

/// Scanning from this state succeeds and never takes a stray step.
pub open spec fn scan_clean(src: Seq<u8>, pos: int, stack: Seq<ScanFrame>) -> bool
    decreases src.len() - pos, stack.len(),
    when 0 <= pos <= src.len()
{
    if stack.len() == 0 {
        true
    } else {
        match step(src, pos, stack) {
            ScanStep::Fail(_) => false,
            ScanStep::Next(out, next, rest) => {
                proof {
                    lemma_step_progress(src, pos, stack);
                }
                !stray(src, pos, stack) && scan_clean(src, next, rest)
            },
        }
    }
}

/// Well-formed input: every closing delimiter ends the level that its
/// opener began, and the input ends with every level and template closed.
pub open spec fn well_formed(src: Seq<u8>) -> bool {
    scan_clean(src, 0, seq![ScanFrame::Scope(LexerOptions::spec_default())])
}

/// The opening token kind of a nested context.
pub open spec fn frame_opener(f: ScanFrame) -> TokenKind {
    if f == ScanFrame::Scope(curly_scope()) {
        TokenKind::OpenCurlyBracket
    } else if f == ScanFrame::Scope(parenthesis_scope()) {
        TokenKind::OpenParenthesis
    } else if f == ScanFrame::Scope(square_scope()) {
        TokenKind::OpenSquareBracket
    } else if f == ScanFrame::Scope(expression_scope()) {
        TokenKind::TemplateStartExpression
    } else {
        TokenKind::TemplateStart
    }
}

pub open spec fn nested_frame(f: ScanFrame) -> bool {
    ||| f == ScanFrame::Scope(curly_scope())
    ||| f == ScanFrame::Scope(parenthesis_scope())
    ||| f == ScanFrame::Scope(square_scope())
    ||| f == ScanFrame::Scope(expression_scope())
    ||| f == ScanFrame::Template
}

pub open spec fn frames_ok(stack: Seq<ScanFrame>) -> bool {
    &&& based(stack)
    &&& forall|i: int| 1 <= i < stack.len() ==> nested_frame(#[trigger] stack[i])
}

/// The openers of the nested contexts, innermost last.
pub open spec fn opens(stack: Seq<ScanFrame>) -> Seq<TokenKind> {
    stack.subrange(1, stack.len() as int).map_values(|f: ScanFrame| frame_opener(f))
}

proof fn lemma_match_one(l: Lexeme, more: Seq<Lexeme>, open: Seq<TokenKind>)
    ensures
        brackets_match(seq![l] + more, open) == if is_opener(l.kind) {
            brackets_match(more, open.push(l.kind))
        } else if opener_of(l.kind) is Some {
            open.len() > 0 && open.last() == opener_of(l.kind)->Some_0 && brackets_match(
                more,
                open.drop_last(),
            )
        } else {
            brackets_match(more, open)
        },
{
    assert((seq![l] + more)[0] == l);
    assert((seq![l] + more).drop_first() =~= more);
}

/// One clean step from a well-shaped stack keeps the bracket reading in
/// line with the stack.
proof fn lemma_clean_step(src: Seq<u8>, pos: int, stack: Seq<ScanFrame>, more: Seq<Lexeme>)
    requires
        0 <= pos <= src.len(),
        frames_ok(stack),
        step(src, pos, stack) is Next,
        !stray(src, pos, stack),
        step(src, pos, stack)->Next_2.len() > 0,
    ensures
        frames_ok(step(src, pos, stack)->Next_2),
        brackets_match(more, opens(step(src, pos, stack)->Next_2)) ==> brackets_match(
            step(src, pos, stack)->Next_0 + more,
            opens(stack),
        ),
{
    lemma_step_progress(src, pos, stack);
    lemma_step_keeps_base(src, pos, stack);
    let (out, rest) = (step(src, pos, stack)->Next_0, step(src, pos, stack)->Next_2);
    let o = opens(stack);
    assert forall|i: int| 1 <= i < rest.len() implies nested_frame(#[trigger] rest[i]) by {
        if i < stack.len() {
            assert(rest[i] == stack[i]);
        }
    }
    if rest.len() == stack.len() + 1 {
        assert(opens(rest) =~= o.push(frame_opener(rest.last())));
    } else if rest.len() + 1 == stack.len() {
        assert(rest =~= stack.drop_last());
        assert(opens(rest) =~= o.drop_last());
        assert(o.last() == frame_opener(stack.last()));
    } else {
        assert(rest =~= stack);
    }
    if out.len() == 1 {
        assert(out =~= seq![out[0]]);
        lemma_match_one(out[0], more, o);
    } else if out.len() == 2 {
        assert(out + more =~= seq![out[0]] + (seq![out[1]] + more));
        lemma_match_one(out[0], seq![out[1]] + more, o);
        lemma_match_one(out[1], more, o);
        lemma_match_one(out[1], more, o.push(out[0].kind));
    } else {
        assert(out + more =~= more);
    }
}

proof fn lemma_clean_scan_balanced(src: Seq<u8>, pos: int, stack: Seq<ScanFrame>)
    requires
        0 <= pos <= src.len(),
        frames_ok(stack),
        scan_clean(src, pos, stack),
    ensures
        scan(src, pos, stack) is Ok,
        brackets_match(scan(src, pos, stack)->Ok_0, opens(stack)),
    decreases src.len() - pos, stack.len(),
{
    lemma_step_progress(src, pos, stack);
    lemma_step_keeps_base(src, pos, stack);
    let (out, next, rest) = (
        step(src, pos, stack)->Next_0,
        step(src, pos, stack)->Next_1,
        step(src, pos, stack)->Next_2,
    );
    if rest.len() == 0 {
        assert(opens(stack) =~= Seq::<TokenKind>::empty());
        assert(out =~= Seq::<Lexeme>::empty());
        assert(out + Seq::<Lexeme>::empty() =~= Seq::<Lexeme>::empty());
    } else {
        lemma_clean_step(src, pos, stack, Seq::empty());
        lemma_clean_scan_balanced(src, next, rest);
        lemma_clean_step(src, pos, stack, scan(src, next, rest)->Ok_0);
    }
}

/// Well-formed input tokenizes, and its opening and closing delimiter
/// tokens are balanced and paired by kind.
pub proof fn lemma_well_formed_is_balanced(src: Seq<u8>)
    requires
        well_formed(src),
    ensures
        tokenize(src) is Ok,
        balanced(tokenize(src)->Ok_0),
{
    let base = seq![ScanFrame::Scope(LexerOptions::spec_default())];
    assert(opens(base) =~= Seq::<TokenKind>::empty());
    lemma_clean_scan_balanced(src, 0, base);
}

/// The tokens lie, in order and without overlap, between `lo` and `hi`.
pub open spec fn ordered_within(ls: Seq<Lexeme>, lo: int, hi: int) -> bool {
    &&& forall|i: int| 0 <= i < ls.len() ==> lo <= (#[trigger] ls[i]).start <= ls[i].end <= hi
    &&& forall|i: int, j: int|
        #![trigger ls[i], ls[j]]
        0 <= i < j < ls.len() ==> ls[i].end <= ls[j].start
}

proof fn lemma_ordered_append(a: Seq<Lexeme>, b: Seq<Lexeme>, lo: int, mid: int, hi: int)
    requires
        lo <= mid <= hi,
        ordered_within(a, lo, mid),
        ordered_within(b, mid, hi),
    ensures
        ordered_within(a + b, lo, hi),
{
    let c = a + b;
    assert forall|i: int| 0 <= i < c.len() implies lo <= (#[trigger] c[i]).start <= c[i].end <= hi by {
        if i < a.len() {
            assert(c[i] == a[i]);
        } else {
            assert(c[i] == b[i - a.len()]);
        }
    }
    assert forall|i: int, j: int| #![trigger c[i], c[j]] 0 <= i < j < c.len() implies c[i].end
        <= c[j].start by {
        if j < a.len() {
            assert(c[i] == a[i] && c[j] == a[j]);
        } else if i < a.len() {
            assert(c[i] == a[i] && c[j] == b[j - a.len()]);
        } else {
            assert(c[i] == b[i - a.len()] && c[j] == b[j - a.len()]);
        }
    }
}

proof fn lemma_step_ordered(src: Seq<u8>, pos: int, stack: Seq<ScanFrame>)
    requires
        0 <= pos <= src.len(),
        stack.len() > 0,
        step(src, pos, stack) is Next,
    ensures
        ordered_within(step(src, pos, stack)->Next_0, pos, step(src, pos, stack)->Next_1),
{
    lemma_step_progress(src, pos, stack);
    let out = step(src, pos, stack)->Next_0;
    match stack.last() {
        ScanFrame::Scope(options) => {
            if pos < src.len() {
                lemma_bind_end(src, pos, CharClass::Space, false);
                lemma_bind_end(src, pos, CharClass::Newline, false);
                lemma_bind_end(src, pos, CharClass::KeywordPart, false);
                lemma_bind_end(src, pos, CharClass::NumericPart, false);
                lemma_bind_end(src, pos, CharClass::Operator, false);
                lemma_bind_end(src, pos + 1, CharClass::StringBody, true);
                assert(out.len() == 1);
            } else {
                assert(out.len() == 0);
            }
        },
        ScanFrame::Template => {
            lemma_template_end(src, pos);
            assert(out.len() == 2);
        },
    }
}

/// A successful scan stops inside the source, and its tokens lie in order
/// between where it started and where it stopped.
pub proof fn lemma_scan_ordered(src: Seq<u8>, pos: int, stack: Seq<ScanFrame>)
    requires
        0 <= pos <= src.len(),
        scan(src, pos, stack) is Ok,
    ensures
        pos <= scan_end(src, pos, stack) <= src.len(),
        ordered_within(scan(src, pos, stack)->Ok_0, pos, scan_end(src, pos, stack)),
    decreases src.len() - pos, stack.len(),
{
    if stack.len() == 0 {
        assert(scan(src, pos, stack)->Ok_0.len() == 0);
    } else {
        lemma_step_progress(src, pos, stack);
        let (out, next, rest) = (
            step(src, pos, stack)->Next_0,
            step(src, pos, stack)->Next_1,
            step(src, pos, stack)->Next_2,
        );
        lemma_step_ordered(src, pos, stack);
        lemma_scan_ordered(src, next, rest);
        lemma_ordered_append(out, scan(src, next, rest)->Ok_0, pos, next, scan_end(src, pos, stack));
    }
}

/// A successful scan from a stack with the outermost level at its bottom
/// runs to the end of input.
pub proof fn lemma_scan_end_based(src: Seq<u8>, pos: int, stack: Seq<ScanFrame>)
    requires
        0 <= pos <= src.len(),
        based(stack) || (stack.len() == 0 && pos == src.len()),
        scan(src, pos, stack) is Ok,
    ensures
        scan_end(src, pos, stack) == src.len(),
    decreases src.len() - pos, stack.len(),
{
    if stack.len() > 0 {
        lemma_step_progress(src, pos, stack);
        lemma_step_keeps_base(src, pos, stack);
        let (next, rest) = (step(src, pos, stack)->Next_1, step(src, pos, stack)->Next_2);
        lemma_scan_end_based(src, next, rest);
    }
}

} // verus!
