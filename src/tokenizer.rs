pub mod classify;
pub mod direction;
pub mod laws;
pub mod lexer_error;
pub mod lexer_options;
pub mod model;
pub mod source_cursor;
pub mod to_direction;
pub mod token;

use vstd::prelude::*;
use vstd::utf8::{encode_utf8, is_char_boundary};

use self::classify::{
    CharClass, BACKSLASH, BACKTICK, CLOSE_CURLY_BRACKET, CLOSE_PARENTHESIS, CLOSE_SQUARE_BRACKET,
    COLON, DOLLAR, DOT, EQUAL, OPEN_CURLY_BRACKET, OPEN_PARENTHESIS, OPEN_SQUARE_BRACKET, QUOTE,
};
use self::direction::Direction;
use self::laws::{
    joined, lemma_scan_end_based, lemma_scan_ordered, lemma_tokens_cover_source, ordered_within,
};
use self::lexer_error::LexerError;
use self::lexer_options::LexerOptions;
use self::model::{
    bind_end, lemma_bind_end, lemma_step_progress, lemma_template_end, lexeme, scan, scan_end,
    scope_step, step, template_end, template_step, tokenize, ScanFrame, ScanStep,
};
use self::source_cursor::{char_at, SourceCursor};
use self::token::{faithful, lemma_push_token, token_faithful, views, Lexeme, Token, TokenKind};

verus! {

/// The tokens `out` put before what the rest of a scan gives.
pub open spec fn prepend(out: Seq<Lexeme>, r: Result<Seq<Lexeme>, int>) -> Result<
    Seq<Lexeme>,
    int,
> {
    match r {
        Ok(more) => Ok(out + more),
        Err(p) => Err(p),
    }
}

/// Putting `b` and then `a` before a result is putting `a + b` before it.
pub proof fn lemma_prepend_assoc(a: Seq<Lexeme>, b: Seq<Lexeme>, r: Result<Seq<Lexeme>, int>)
    ensures
        prepend(a, prepend(b, r)) == prepend(a + b, r),
{
    match r {
        Ok(m) => {
            assert(a + (b + m) =~= (a + b) + m);
        },
        Err(p) => {},
    }
}

/// The cursor, the stack and the token vector went through `s`.
pub open spec fn performed(
    s: ScanStep,
    r: Result<(), LexerError>,
    before: Seq<Token>,
    after: Seq<Token>,
    cursor: SourceCursor,
    stack: Seq<ScanFrame>,
) -> bool {
    match s {
        ScanStep::Fail(p) => r == Err::<(), LexerError>(
            LexerError::SymbolInvalid(p as usize, Some(char_at(cursor.src(), p))),
        ) && cursor.position() == p,
        ScanStep::Next(out, next, rest) => {
            &&& r is Ok
            &&& views(after) == views(before) + out
            &&& faithful(after, cursor.src())
            &&& cursor.position() == next
            &&& next <= cursor.src().len()
            &&& is_char_boundary(cursor.src(), next)
            &&& stack == rest
        },
    }
}

/// The context-aware tokenizer. Nested scopes (brackets, and expressions
/// embedded in templates) are tracked with an explicit stack of contexts,
/// so the depth of nesting in the source does not bound the call stack.
pub struct Tokenizer;

impl Tokenizer {
    /// Tokenizes `payload` from its start at a level with no break condition:
    /// the tokens of the scan model, each with its exact source text, or the
    /// offset of the first byte that no classifier accepts.
    pub fn lexer(payload: &str) -> (r: Result<Vec<Token>, LexerError>)
        ensures
            match tokenize(encode_utf8(payload@)) {
                Ok(ls) => r is Ok && views(r->Ok_0@) == ls,
                Err(p) => r == Err::<Vec<Token>, LexerError>(
                    LexerError::SymbolInvalid(p as usize, Some(char_at(encode_utf8(payload@), p))),
                ),
            },
            r is Ok ==> faithful(r->Ok_0@, encode_utf8(payload@)),
            r is Ok ==> joined(encode_utf8(payload@), views(r->Ok_0@)) == encode_utf8(payload@),
    {
        let mut source_cursor = SourceCursor::new(payload);
        let lexer_options = LexerOptions::default();
        proof {
            source_cursor.lemma_cut(0);
        }
        let r = Tokenizer::lexer_w(&mut source_cursor, lexer_options);
        proof {
            if r is Ok {
                lemma_tokens_cover_source(encode_utf8(payload@));
            }
        }
        r
    }

    /// Scans from the cursor's position at a level with `options` until
    /// that level ends: by a closer that the options name, or at the end of
    /// input. The cursor is left where the level ended.
    pub fn lexer_w(source_cursor: &mut SourceCursor, options: LexerOptions) -> (r: Result<
        Vec<Token>,
        LexerError,
    >)
        requires
            old(source_cursor).wf(),
            0 <= old(source_cursor).position() <= old(source_cursor).src().len(),
            is_char_boundary(old(source_cursor).src(), old(source_cursor).position()),
        ensures
            final(source_cursor).wf(),
            final(source_cursor).src() == old(source_cursor).src(),
            final(source_cursor).position() == scan_end(
                old(source_cursor).src(),
                old(source_cursor).position(),
                seq![ScanFrame::Scope(options)],
            ),
            match scan(
                old(source_cursor).src(),
                old(source_cursor).position(),
                seq![ScanFrame::Scope(options)],
            ) {
                Ok(ls) => r is Ok && views(r->Ok_0@) == ls,
                Err(p) => r == Err::<Vec<Token>, LexerError>(
                    LexerError::SymbolInvalid(p as usize, Some(char_at(old(source_cursor).src(), p))),
                ),
            },
            r is Ok ==> faithful(r->Ok_0@, old(source_cursor).src()),
            r is Ok ==> ordered_within(
                views(r->Ok_0@),
                old(source_cursor).position(),
                final(source_cursor).position(),
            ),
            r is Ok && options == LexerOptions::spec_default() ==> final(source_cursor).position()
                == old(source_cursor).src().len(),
    {
        let r = Tokenizer::lexer_run(source_cursor, ScanFrame::Scope(options));
        proof {
            if r is Ok && options == LexerOptions::spec_default() {
                lemma_scan_end_based(
                    old(source_cursor).src(),
                    old(source_cursor).position(),
                    seq![ScanFrame::Scope(options)],
                );
            }
        }
        r
    }

    /// Scans from the cursor's position, starting with the one context
    /// `frame`, until that context ends.
    fn lexer_run(source_cursor: &mut SourceCursor, frame: ScanFrame) -> (r: Result<
        Vec<Token>,
        LexerError,
    >)
        requires
            old(source_cursor).wf(),
            0 <= old(source_cursor).position() <= old(source_cursor).src().len(),
            is_char_boundary(old(source_cursor).src(), old(source_cursor).position()),
        ensures
            final(source_cursor).wf(),
            final(source_cursor).src() == old(source_cursor).src(),
            final(source_cursor).position() == scan_end(
                old(source_cursor).src(),
                old(source_cursor).position(),
                seq![frame],
            ),
            match scan(
                old(source_cursor).src(),
                old(source_cursor).position(),
                seq![frame],
            ) {
                Ok(ls) => r is Ok && views(r->Ok_0@) == ls,
                Err(p) => r == Err::<Vec<Token>, LexerError>(
                    LexerError::SymbolInvalid(p as usize, Some(char_at(old(source_cursor).src(), p))),
                ),
            },
            r is Ok ==> faithful(r->Ok_0@, old(source_cursor).src()),
            r is Ok ==> ordered_within(
                views(r->Ok_0@),
                old(source_cursor).position(),
                final(source_cursor).position(),
            ),
    {
        let ghost src = source_cursor.src();
        let ghost start = source_cursor.position();
        let mut stack: Vec<ScanFrame> = Vec::new();
        stack.push(frame);
        let mut tokens: Vec<Token> = Vec::new();
        proof {
            assert(stack@ =~= seq![frame]);
            assert(views(tokens@) =~= Seq::<Lexeme>::empty());
            assert(prepend(views(tokens@), scan(src, start, stack@)) =~= scan(src, start, stack@))
                by {
                match scan(src, start, stack@) {
                    Ok(more) => {
                        assert(views(tokens@) + more =~= more);
                    },
                    Err(p) => {},
                }
            }
        }
        while stack.len() > 0
            invariant
                source_cursor.wf(),
                source_cursor.src() == src,
                src == old(source_cursor).src(),
                start == old(source_cursor).position(),
                0 <= source_cursor.position() <= src.len(),
                is_char_boundary(src, source_cursor.position()),
                faithful(tokens@, src),
                scan_end(src, start, seq![frame]) == scan_end(src, source_cursor.position(), stack@),
                scan(src, start, seq![frame]) == prepend(
                    views(tokens@),
                    scan(src, source_cursor.position(), stack@),
                ),
            decreases src.len() - source_cursor.position(), stack.len(),
        {
            let ghost pos = source_cursor.position();
            let ghost before = tokens@;
            let ghost frames = stack@;
            let top = stack[stack.len() - 1];
            let done: Result<(), LexerError> = match top {
                ScanFrame::Scope(level) => {
                    if source_cursor.current().is_none() {
                        stack.pop();
                        proof {
                            assert(views(tokens@) =~= views(before) + Seq::<Lexeme>::empty());
                        }
                        Ok(())
                    } else {
                        Tokenizer::lexer_scope_step(source_cursor, level, &mut stack, &mut tokens)
                    }
                },
                ScanFrame::Template => {
                    Tokenizer::lexer_template_step(
                        source_cursor,
                        &mut stack,
                        &mut tokens,
                    );
                    Ok(())
                },
            };
            proof {
                lemma_step_progress(src, pos, frames);
                assert(performed(step(src, pos, frames), done, before, tokens@, *source_cursor, stack@));
                match step(src, pos, frames) {
                    ScanStep::Fail(p) => {
                        assert(scan(src, pos, frames) == Err::<Seq<Lexeme>, int>(p));
                        assert(scan_end(src, pos, frames) == pos);
                    },
                    ScanStep::Next(out, next, rest) => {
                        assert(scan(src, pos, frames) == prepend(out, scan(src, next, rest)));
                        assert(scan_end(src, pos, frames) == scan_end(src, next, rest));
                        lemma_prepend_assoc(views(before), out, scan(src, next, rest));
                    },
                }
            }
            if let Err(e) = done {
                proof {
                    let p = step(src, pos, frames)->Fail_0;
                    assert(e == LexerError::SymbolInvalid(p as usize, Some(char_at(src, p))));
                    assert(scan(src, start, seq![frame]) == Err::<Seq<Lexeme>, int>(p));
                }
                return Err(e);
            }
        }
        proof {
            assert(views(tokens@) + Seq::<Lexeme>::empty() =~= views(tokens@));
            lemma_scan_ordered(src, start, seq![frame]);
        }
        Ok(tokens)
    }

    /// Whether the byte at the cursor belongs to `class`.
    fn lexer_model_by_char_test(source_cursor: &SourceCursor, class: CharClass) -> (r: bool)
        ensures
            r == (source_cursor.position() < source_cursor.src().len() && class.spec_matches(
                source_cursor.src()[source_cursor.position()],
            )),
    {
        match source_cursor.at_current_char() {
            Some(c) => class.matches(c),
            None => false,
        }
    }

    /// A token of `kind` over the maximal run of `class` bytes at the
    /// cursor; with `scape_char`, a backslash takes the byte after it into
    /// the run verbatim. Escapes go only with the string body: an escape may
    /// take the first byte of a multi-byte character, and only a class that
    /// takes every non-ASCII byte then finishes that character, so that the
    /// run ends where the source can be cut.
    fn lexer_model_by_char_bind(
        source_cursor: &mut SourceCursor,
        kind: TokenKind,
        class: CharClass,
        scape_char: bool,
    ) -> (t: Token)
        requires
            old(source_cursor).wf(),
            0 <= old(source_cursor).position() <= old(source_cursor).src().len(),
            is_char_boundary(old(source_cursor).src(), old(source_cursor).position()),
            scape_char ==> class == CharClass::StringBody,
        ensures
            final(source_cursor).wf(),
            final(source_cursor).src() == old(source_cursor).src(),
            final(source_cursor).position() == bind_end(
                old(source_cursor).src(),
                old(source_cursor).position(),
                class,
                scape_char,
            ),
            is_char_boundary(old(source_cursor).src(), final(source_cursor).position()),
            t@ == (Lexeme {
                kind,
                start: old(source_cursor).position(),
                end: final(source_cursor).position(),
            }),
            token_faithful(t, old(source_cursor).src()),
    {
        let ghost src = source_cursor.src();
        let span_start = source_cursor.pos();
        proof {
            source_cursor.lemma_src_bounded();
        }
        proof {
            lemma_bind_end(src, span_start as int, class, scape_char);
        }
        loop
            invariant
                source_cursor.wf(),
                source_cursor.src() == src,
                src.len() <= usize::MAX,
                span_start <= source_cursor.position() <= src.len(),
                bind_end(src, source_cursor.position(), class, scape_char) == bind_end(
                    src,
                    span_start as int,
                    class,
                    scape_char,
                ),
            ensures
                source_cursor.position() == bind_end(src, span_start as int, class, scape_char),
            decreases src.len() - source_cursor.position(),
        {
            match source_cursor.current() {
                None => {
                    break ;
                },
                Some((_, c)) => {
                    if scape_char && c == BACKSLASH {
                        let ahead = source_cursor.peek_slice(2);
                        source_cursor.forward(Direction::Next(ahead.len()));
                    } else if class.matches(c) {
                        source_cursor.next();
                    } else {
                        break ;
                    }
                },
            }
        }
        let ghost e = source_cursor.position();
        proof {
            if e < src.len() && e > span_start && class.is_ascii_only() {
                assert(class.spec_matches(src[e - 1]));
            }
            if e > span_start {
                source_cursor.lemma_cut(e);
            }
        }
        source_cursor.create_token(kind, Direction::Pos(span_start), Direction::Current)
    }

    /// Scans one whole template from its opening backtick: the
    /// `template_start` marker, then the template's text and embedded
    /// expressions, to its closing backtick or the end of input. The cursor
    /// is left after the template.
    pub fn lexer_model_by_char_bind_template(source_cursor: &mut SourceCursor) -> (r: Result<
        Vec<Token>,
        LexerError,
    >)
        requires
            old(source_cursor).wf(),
            0 <= old(source_cursor).position() < old(source_cursor).src().len(),
            old(source_cursor).src()[old(source_cursor).position()] == BACKTICK,
        ensures
            final(source_cursor).wf(),
            final(source_cursor).src() == old(source_cursor).src(),
            final(source_cursor).position() == scan_end(
                old(source_cursor).src(),
                old(source_cursor).position() + 1,
                seq![ScanFrame::Template],
            ),
            match scan(
                old(source_cursor).src(),
                old(source_cursor).position() + 1,
                seq![ScanFrame::Template],
            ) {
                Ok(ls) => r is Ok && views(r->Ok_0@) == seq![
                    lexeme(
                        TokenKind::TemplateStart,
                        old(source_cursor).position(),
                        old(source_cursor).position() + 1,
                    ),
                ] + ls,
                Err(p) => r == Err::<Vec<Token>, LexerError>(
                    LexerError::SymbolInvalid(p as usize, Some(char_at(old(source_cursor).src(), p))),
                ),
            },
            r is Ok ==> faithful(r->Ok_0@, old(source_cursor).src()),
            r is Ok ==> ordered_within(
                views(r->Ok_0@),
                old(source_cursor).position(),
                final(source_cursor).position(),
            ),
    {
        let ghost src = source_cursor.src();
        let ghost p = source_cursor.position();
        proof {
            source_cursor.lemma_src_bounded();
            source_cursor.lemma_cut(p);
            source_cursor.lemma_cut(p + 1);
        }
        let start = source_cursor.create_token(
            TokenKind::TemplateStart,
            Direction::Current,
            Direction::Next(1),
        );
        let mut tokens = match Tokenizer::lexer_run(source_cursor, ScanFrame::Template) {
            Ok(tokens) => tokens,
            Err(e) => {
                return Err(e);
            },
        };
        let ghost rest = tokens@;
        tokens.insert(0, start);
        proof {
            assert(tokens@ =~= seq![start] + rest);
            assert(views(tokens@) =~= seq![start@] + views(rest));
            assert forall|i: int| 0 <= i < tokens@.len() implies token_faithful(
                #[trigger] tokens@[i],
                src,
            ) by {
                if i > 0 {
                    assert(tokens@[i] == rest[i - 1]);
                }
            }
            let vs = views(tokens@);
            let e = source_cursor.position();
            assert(ordered_within(views(rest), p + 1, e));
            lemma_scan_ordered(src, p + 1, seq![ScanFrame::Template]);
            assert forall|i: int| 0 <= i < vs.len() implies p <= (#[trigger] vs[i]).start <= vs[i].end
                <= e by {
                if i > 0 {
                    assert(vs[i] == views(rest)[i - 1]);
                }
            }
            assert forall|i: int, j: int| #![trigger vs[i], vs[j]] 0 <= i < j < vs.len() implies vs[i].end
                <= vs[j].start by {
                assert(vs[j] == views(rest)[j - 1]);
                if i > 0 {
                    assert(vs[i] == views(rest)[i - 1]);
                }
            }
        }
        Ok(tokens)
    }

    /// One step of the literal part of a template: its text up to the next
    /// `${` or backtick, then that marker.
    fn lexer_template_step(
        source_cursor: &mut SourceCursor,
        stack: &mut Vec<ScanFrame>,
        tokens: &mut Vec<Token>,
    )
        requires
            old(source_cursor).wf(),
            0 <= old(source_cursor).position() <= old(source_cursor).src().len(),
            is_char_boundary(old(source_cursor).src(), old(source_cursor).position()),
            old(stack)@.len() > 0,
            old(stack)@.last() == ScanFrame::Template,
            faithful(old(tokens)@, old(source_cursor).src()),
        ensures
            final(source_cursor).wf(),
            final(source_cursor).src() == old(source_cursor).src(),
            performed(
                template_step(old(source_cursor).src(), old(source_cursor).position(), old(stack)@),
                Ok(()),
                old(tokens)@,
                final(tokens)@,
                *final(source_cursor),
                final(stack)@,
            ),
    {
        let ghost src = source_cursor.src();
        let ghost before = tokens@;
        let span_start = source_cursor.pos();
        proof {
            source_cursor.lemma_src_bounded();
        }
        proof {
            lemma_template_end(src, span_start as int);
        }
        loop
            invariant
                source_cursor.wf(),
                source_cursor.src() == src,
                src.len() <= usize::MAX,
                span_start <= source_cursor.position() <= src.len(),
                template_end(src, source_cursor.position()) == template_end(src, span_start as int),
            ensures
                source_cursor.position() == template_end(src, span_start as int),
            decreases src.len() - source_cursor.position(),
        {
            match source_cursor.current() {
                None => {
                    break ;
                },
                Some((_, c)) => {
                    let ahead = source_cursor.peek_slice(2);
                    if c == BACKSLASH {
                        source_cursor.forward(Direction::Next(ahead.len()));
                    } else if ahead.len() == 2 && ahead[0] == DOLLAR && ahead[1]
                        == OPEN_CURLY_BRACKET {
                        break ;
                    } else if c == BACKTICK {
                        break ;
                    } else {
                        source_cursor.next();
                    }
                },
            }
        }
        proof {
            let e = source_cursor.position();
            source_cursor.lemma_cut(e);
            if e < src.len() {
                source_cursor.lemma_cut(e + 1);
                if e + 1 < src.len() && src[e + 1] < 0x80 {
                    source_cursor.lemma_cut(e + 2);
                }
            }
        }
        let text = source_cursor.create_token(
            TokenKind::Template,
            Direction::Pos(span_start),
            Direction::Current,
        );
        tokens.push(text);
        proof {
            lemma_push_token(before, text, src);
        }
        let ghost mid = tokens@;
        let ghost e = source_cursor.position();
        let ahead = source_cursor.peek_slice(2);
        let marker = if ahead.len() == 2 && ahead[0] == DOLLAR && ahead[1] == OPEN_CURLY_BRACKET {
            stack.push(
                ScanFrame::Scope(
                    LexerOptions::default().set_template_break_by_close_curly_bracket(true),
                ),
            );
            source_cursor.create_token(
                TokenKind::TemplateStartExpression,
                Direction::Current,
                Direction::Next(2),
            )
        } else if ahead.len() > 0 {
            stack.pop();
            source_cursor.create_token(TokenKind::TemplateClose, Direction::Current, Direction::Next(1))
        } else {
            stack.pop();
            source_cursor.create_token(TokenKind::TemplateClose, Direction::Current, Direction::Current)
        };
        tokens.push(marker);
        proof {
            lemma_push_token(mid, marker, src);
            assert(views(before) + seq![text@] + seq![marker@] =~= views(before) + seq![
                text@,
                marker@,
            ]);
        }
    }

    /// One step of a general level with `options`, at a byte of the input.
    fn lexer_scope_step(
        source_cursor: &mut SourceCursor,
        options: LexerOptions,
        stack: &mut Vec<ScanFrame>,
        tokens: &mut Vec<Token>,
    ) -> (r: Result<(), LexerError>)
        requires
            old(source_cursor).wf(),
            0 <= old(source_cursor).position() < old(source_cursor).src().len(),
            is_char_boundary(old(source_cursor).src(), old(source_cursor).position()),
            old(stack)@.len() > 0,
            old(stack)@.last() == ScanFrame::Scope(options),
            faithful(old(tokens)@, old(source_cursor).src()),
        ensures
            final(source_cursor).wf(),
            final(source_cursor).src() == old(source_cursor).src(),
            performed(
                scope_step(old(source_cursor).src(), old(source_cursor).position(), options, old(stack)@),
                r,
                old(tokens)@,
                final(tokens)@,
                *final(source_cursor),
                final(stack)@,
            ),
    {
        let ghost src = source_cursor.src();
        let ghost before = tokens@;
        let ghost pos = source_cursor.position();
        proof {
            source_cursor.lemma_src_bounded();
        }
        let c = source_cursor.get_current_char();
        proof {
            if c < 0x80 {
                source_cursor.lemma_cut(pos + 1);
            }
        }
        if Tokenizer::lexer_model_by_char_test(source_cursor, CharClass::Space) {
            let t = Tokenizer::lexer_model_by_char_bind(
                source_cursor,
                TokenKind::Space,
                CharClass::Space,
                false,
            );
            tokens.push(t);
            proof {
                lemma_push_token(before, t, src);
            }
            return Ok(());
        }
        if c == CLOSE_CURLY_BRACKET {
            if options.template_break_by_close_curly_bracket {
                let t = source_cursor.create_token(
                    TokenKind::TemplateCloseExpression,
                    Direction::Current,
                    Direction::Next(1),
                );
                tokens.push(t);
                stack.pop();
                proof {
                    lemma_push_token(before, t, src);
                }
                return Ok(());
            }
            let t = source_cursor.create_token(
                TokenKind::CloseCurlyBracket,
                Direction::Current,
                Direction::Next(1),
            );
            tokens.push(t);
            if options.break_by_close_curly_bracket {
                stack.pop();
            }
            proof {
                lemma_push_token(before, t, src);
            }
            return Ok(());
        }
        if c == CLOSE_PARENTHESIS {
            let t = source_cursor.create_token(
                TokenKind::CloseParenthesis,
                Direction::Current,
                Direction::Next(1),
            );
            tokens.push(t);
            if options.break_by_close_parenthesis {
                stack.pop();
            }
            proof {
                lemma_push_token(before, t, src);
            }
            return Ok(());
        }
        if c == CLOSE_SQUARE_BRACKET {
            let t = source_cursor.create_token(
                TokenKind::CloseSquareBracket,
                Direction::Current,
                Direction::Next(1),
            );
            tokens.push(t);
            if options.break_by_close_square_bracket {
                stack.pop();
            }
            proof {
                lemma_push_token(before, t, src);
            }
            return Ok(());
        }
        if c == OPEN_CURLY_BRACKET {
            let t = source_cursor.create_token(
                TokenKind::OpenCurlyBracket,
                Direction::Current,
                Direction::Next(1),
            );
            tokens.push(t);
            stack.push(
                ScanFrame::Scope(LexerOptions::default().set_break_by_close_curly_bracket(true)),
            );
            proof {
                lemma_push_token(before, t, src);
            }
            return Ok(());
        }
        if c == OPEN_PARENTHESIS {
            let t = source_cursor.create_token(
                TokenKind::OpenParenthesis,
                Direction::Current,
                Direction::Next(1),
            );
            tokens.push(t);
            stack.push(
                ScanFrame::Scope(LexerOptions::default().set_break_by_close_parenthesis(true)),
            );
            proof {
                lemma_push_token(before, t, src);
            }
            return Ok(());
        }
        if c == OPEN_SQUARE_BRACKET {
            let t = source_cursor.create_token(
                TokenKind::OpenSquareBracket,
                Direction::Current,
                Direction::Next(1),
            );
            tokens.push(t);
            stack.push(
                ScanFrame::Scope(LexerOptions::default().set_break_by_close_square_bracket(true)),
            );
            proof {
                lemma_push_token(before, t, src);
            }
            return Ok(());
        }
        if c == BACKTICK {
            let t = source_cursor.create_token(
                TokenKind::TemplateStart,
                Direction::Current,
                Direction::Next(1),
            );
            tokens.push(t);
            stack.push(ScanFrame::Template);
            proof {
                lemma_push_token(before, t, src);
            }
            return Ok(());
        }
        if c == COLON || c == EQUAL || c == DOT {
            let kind = if c == COLON {
                TokenKind::Colon
            } else if c == EQUAL {
                TokenKind::Equal
            } else {
                TokenKind::Dot
            };
            let t = source_cursor.create_token(kind, Direction::Current, Direction::Next(1));
            tokens.push(t);
            proof {
                lemma_push_token(before, t, src);
            }
            return Ok(());
        }
        let run = if Tokenizer::lexer_model_by_char_test(source_cursor, CharClass::Newline) {
            Some((TokenKind::Newline, CharClass::Newline))
        } else if Tokenizer::lexer_model_by_char_test(source_cursor, CharClass::KeywordStart) {
            Some((TokenKind::Keyword, CharClass::KeywordPart))
        } else if Tokenizer::lexer_model_by_char_test(source_cursor, CharClass::Digit) {
            Some((TokenKind::Numeric, CharClass::NumericPart))
        } else if Tokenizer::lexer_model_by_char_test(source_cursor, CharClass::Operator) {
            Some((TokenKind::Operation, CharClass::Operator))
        } else {
            None
        };
        if let Some((kind, class)) = run {
            let t = Tokenizer::lexer_model_by_char_bind(source_cursor, kind, class, false);
            tokens.push(t);
            proof {
                lemma_push_token(before, t, src);
            }
            return Ok(());
        }
        if c == QUOTE {
            source_cursor.forward(Direction::Next(1));
            let t = Tokenizer::lexer_model_by_char_bind(
                source_cursor,
                TokenKind::StringLiteral,
                CharClass::StringBody,
                true,
            );
            proof {
                lemma_bind_end(src, pos + 1, CharClass::StringBody, true);
            }
            if source_cursor.current().is_some() {
                source_cursor.forward(Direction::Next(1));
            }
            tokens.push(t);
            proof {
                source_cursor.lemma_cut(source_cursor.position());
                lemma_push_token(before, t, src);
            }
            return Ok(());
        }
        Err(LexerError::SymbolInvalid(source_cursor.pos(), source_cursor.current_character()))
    }
}

} // verus!
