pub mod statement;
pub mod value;

use vstd::prelude::*;
use vstd::string::StrSliceExecFns;
use vstd::string::StringExecFns;

use self::statement::{Node, Statement};
use self::value::Value;
use crate::tokenizer::token::{Span, Token, TokenKind};

verus! {

/// Why a token stream is not a sequence of paths.
#[derive(Debug, Clone, Copy, PartialEq, Eq, Structural)]
pub enum ParseError {
    /// A token of this kind stands where an identifier was due.
    UnsupportedToken { kind: TokenKind, position: usize },
    /// The key of a computed member access is not a string literal.
    ExpectedStringLiteral { position: usize },
    /// The tokens ran out where an identifier or a key was due.
    UnexpectedEnd,
}

/// The identifier that a token stands for: its span and its raw text.
pub open spec fn identifier_node(t: Token) -> Node {
    Node::Identifier { start: t.span.start as int, end: t.span.end as int, value: t.raw@ }
}

pub open spec fn member_node(object: Node, property: Node) -> Node {
    Node::Member {
        start: object.start(),
        end: property.end(),
        object: Box::new(object),
        property: Box::new(property),
    }
}

/// The path that starts at token `i`, and the index of the first token
/// after it.
pub open spec fn parse_path(ts: Seq<Token>, i: int) -> Result<(Node, int), ParseError>
    decreases ts.len() - i,
{
    if i < 0 || i >= ts.len() {
        Err(ParseError::UnexpectedEnd)
    } else if ts[i].kind != TokenKind::Keyword {
        Err(ParseError::UnsupportedToken { kind: ts[i].kind, position: ts[i].span.start })
    } else {
        let id = identifier_node(ts[i]);
        if i + 1 < ts.len() && ts[i + 1].kind == TokenKind::Dot {
            match parse_path(ts, i + 2) {
                Ok((property, j)) => Ok((member_node(id, property), j)),
                Err(e) => Err(e),
            }
        } else if i + 1 < ts.len() && ts[i + 1].kind == TokenKind::OpenSquareBracket {
            if i + 2 >= ts.len() {
                Err(ParseError::UnexpectedEnd)
            } else if ts[i + 2].kind != TokenKind::StringLiteral {
                Err(ParseError::ExpectedStringLiteral { position: ts[i + 2].span.start })
            } else {
                // the token after the key closes the access
                let next = if i + 4 <= ts.len() {
                    i + 4
                } else {
                    ts.len() as int
                };
                Ok((member_node(id, identifier_node(ts[i + 2])), next))
            }
        } else {
            Ok((id, i + 1))
        }
    }
}

pub proof fn lemma_parse_path_advances(ts: Seq<Token>, i: int)
    requires
        0 <= i,
    ensures
        parse_path(ts, i) is Ok ==> i < parse_path(ts, i)->Ok_0.1 <= ts.len(),
    decreases ts.len() - i,
{
    if 0 <= i < ts.len() && ts[i].kind == TokenKind::Keyword && i + 1 < ts.len() && ts[i + 1].kind
        == TokenKind::Dot {
        lemma_parse_path_advances(ts, i + 2);
    }
}

/// The paths from token `i` to the end of the stream.
pub open spec fn parse_paths(ts: Seq<Token>, i: int) -> Result<Seq<Node>, ParseError>
    decreases ts.len() - i,
{
    if i < 0 || i >= ts.len() {
        Ok(seq![])
    } else {
        match parse_path(ts, i) {
            Err(e) => Err(e),
            Ok((n, j)) => {
                proof {
                    lemma_parse_path_advances(ts, i);
                }
                match parse_paths(ts, j) {
                    Ok(ns) => Ok(seq![n] + ns),
                    Err(e) => Err(e),
                }
            },
        }
    }
}

/// The paths that statements hold.
pub open spec fn nodes(v: Seq<Box<Statement>>) -> Seq<Node> {
    v.map_values(|b: Box<Statement>| b.node())
}

/// The span from the first token's start to the last token's end; zero
/// for no tokens.
pub open spec fn stream_span(ts: Seq<Token>) -> Span {
    Span {
        start: if ts.len() > 0 {
            ts[0].span.start
        } else {
            0
        },
        end: if ts.len() > 0 {
            ts[ts.len() - 1].span.end
        } else {
            0
        },
    }
}

/// A forward-only walk over a token stream.
struct IterToken<'a> {
    index: usize,
    tokens: &'a Vec<Token>,
}

impl<'a> IterToken<'a> {
    fn current(&self) -> (r: Option<&'a Token>)
        ensures
            r is Some <==> self.index < self.tokens@.len(),
            r is Some ==> *r->Some_0 == self.tokens@[self.index as int],
    {
        if self.index < self.tokens.len() {
            Some(&self.tokens[self.index])
        } else {
            None
        }
    }

    fn current_kind(&self) -> (r: Option<TokenKind>)
        ensures
            r is Some <==> self.index < self.tokens@.len(),
            r is Some ==> r->Some_0 == self.tokens@[self.index as int].kind,
    {
        match self.current() {
            Some(k) => Some(k.kind),
            None => None,
        }
    }

    fn current_with_kind(&self, compare: TokenKind) -> (r: Option<&'a Token>)
        ensures
            r is Some <==> self.index < self.tokens@.len() && self.tokens@[self.index as int].kind
                == compare,
            r is Some ==> *r->Some_0 == self.tokens@[self.index as int],
    {
        match self.current() {
            Some(token) => {
                if token.kind == compare {
                    Some(token)
                } else {
                    None
                }
            },
            None => None,
        }
    }

    fn current_is_kind(&self, compare: TokenKind) -> (r: bool)
        ensures
            r == (self.index < self.tokens@.len() && self.tokens@[self.index as int].kind
                == compare),
    {
        match self.current() {
            Some(k) => k.kind == compare,
            None => false,
        }
    }

    /// Moves to the next token; past the last one it stays at the end.
    fn forward(&mut self)
        requires
            old(self).index <= old(self).tokens@.len(),
        ensures
            final(self).tokens == old(self).tokens,
            final(self).index == if old(self).index < old(self).tokens@.len() {
                old(self).index + 1
            } else {
                old(self).index as int
            },
    {
        if self.index < self.tokens.len() {
            self.index = self.index + 1;
        }
    }
}

/// A parsed token stream: a sequence of paths under one root.
#[derive(Debug)]
pub struct AST(pub Statement);

impl AST {
    /// Parses a sequence of paths such as `$.a.b` or `$.a["key"]`.
    pub fn parse(tokens: Vec<Token>) -> (r: Result<AST, ParseError>)
        ensures
            match parse_paths(tokens@, 0) {
                Ok(ns) => r matches Ok(AST(Statement::Expression { span, expression }))
                    && span == stream_span(tokens@) && nodes(expression@) == ns,
                Err(e) => r == Err::<AST, ParseError>(e),
            },
    {
        let first_span: usize = if tokens.len() > 0 {
            tokens[0].span.start
        } else {
            0
        };
        let last_span: usize = if tokens.len() > 0 {
            tokens[tokens.len() - 1].span.end
        } else {
            0
        };
        let mut iter = IterToken { index: 0, tokens: &tokens };
        match AST::parse_main(&mut iter) {
            Ok(main_statements) => Ok(
                AST(
                    Statement::Expression {
                        span: Span { start: first_span, end: last_span },
                        expression: main_statements,
                    },
                ),
            ),
            Err(e) => Err(e),
        }
    }

    fn parse_main(iter_tokens: &mut IterToken) -> (r: Result<Vec<Box<Statement>>, ParseError>)
        requires
            old(iter_tokens).index == 0,
        ensures
            match parse_paths(old(iter_tokens).tokens@, 0) {
                Ok(ns) => r is Ok && nodes(r->Ok_0@) == ns,
                Err(e) => r == Err::<Vec<Box<Statement>>, ParseError>(e),
            },
    {
        let ghost ts = iter_tokens.tokens@;
        let mut statements: Vec<Box<Statement>> = Vec::new();
        proof {
            lemma_prepend_nodes_empty(parse_paths(ts, 0));
        }
        loop
            invariant
                iter_tokens.tokens@ == ts,
                ts == old(iter_tokens).tokens@,
                iter_tokens.index <= ts.len(),
                parse_paths(ts, 0) == prepend_nodes(nodes(statements@), parse_paths(ts, iter_tokens.index as int)),
            ensures
                iter_tokens.index >= ts.len(),
            decreases ts.len() - iter_tokens.index,
        {
            if iter_tokens.current().is_none() {
                break ;
            }
            let ghost i = iter_tokens.index as int;
            let ghost before = statements@;
            proof {
                lemma_parse_path_advances(ts, i);
            }
            match AST::parse_indetifier(iter_tokens) {
                Ok(statement) => {
                    statements.push(Box::new(statement));
                    proof {
                        let (n, j) = parse_path(ts, i)->Ok_0;
                        assert(nodes(statements@) =~= nodes(before) + seq![n]);
                        match parse_paths(ts, j) {
                            Ok(ns) => {
                                assert(nodes(before) + (seq![n] + ns) =~= nodes(statements@) + ns);
                            },
                            Err(e) => {},
                        }
                    }
                },
                Err(e) => {
                    return Err(e);
                },
            }
        }
        proof {
            assert(nodes(statements@) + Seq::<Node>::empty() =~= nodes(statements@));
        }
        Ok(statements)
    }

    fn parse_indetifier(iter_tokens: &mut IterToken) -> (r: Result<Statement, ParseError>)
        requires
            old(iter_tokens).index <= old(iter_tokens).tokens@.len(),
        ensures
            final(iter_tokens).tokens == old(iter_tokens).tokens,
            final(iter_tokens).index <= final(iter_tokens).tokens@.len(),
            match parse_path(old(iter_tokens).tokens@, old(iter_tokens).index as int) {
                Ok((n, j)) => r is Ok && r->Ok_0.node() == n && final(iter_tokens).index == j,
                Err(e) => r == Err::<Statement, ParseError>(e),
            },
        decreases old(iter_tokens).tokens@.len() - old(iter_tokens).index, 0int,
    {
        let token = match iter_tokens.current_with_kind(TokenKind::Keyword) {
            Some(token) => token,
            None => {
                return match iter_tokens.current() {
                    Some(t) => Err(ParseError::UnsupportedToken { kind: t.kind, position: t.span.start }),
                    None => Err(ParseError::UnexpectedEnd),
                };
            },
        };
        let identifier = Statement::Identifier {
            span: token.span,
            value: Value::from_str(token.raw.as_str()),
        };
        iter_tokens.forward();
        if iter_tokens.current_is_kind(TokenKind::Dot) {
            iter_tokens.forward();
            return AST::parse_member_expression(iter_tokens, identifier);
        }
        if iter_tokens.current_is_kind(TokenKind::OpenSquareBracket) {
            return AST::parse_square_bracket_computer_expression(iter_tokens, identifier);
        }
        Ok(identifier)
    }

    /// The key of a computed member access: a string literal.
    fn parse_compute(iter_tokens: &IterToken) -> (r: Result<Statement, ParseError>)
        ensures
            ({
                let ts = iter_tokens.tokens@;
                let i = iter_tokens.index as int;
                if i >= ts.len() {
                    r == Err::<Statement, ParseError>(ParseError::UnexpectedEnd)
                } else if ts[i].kind != TokenKind::StringLiteral {
                    r == Err::<Statement, ParseError>(
                        ParseError::ExpectedStringLiteral { position: ts[i].span.start },
                    )
                } else {
                    r is Ok && r->Ok_0.node() == identifier_node(ts[i]) && r->Ok_0.spec_span()
                        == ts[i].span
                }
            }),
    {
        match iter_tokens.current() {
            Some(token) => {
                if token.kind == TokenKind::StringLiteral {
                    Ok(
                        Statement::Identifier {
                            span: token.span,
                            value: Value::from_str(token.raw.as_str()),
                        },
                    )
                } else {
                    Err(ParseError::ExpectedStringLiteral { position: token.span.start })
                }
            },
            None => Err(ParseError::UnexpectedEnd),
        }
    }

    /// The property after a dot, and the member access it makes with `object`.
    fn parse_member_expression(iter_tokens: &mut IterToken, object: Statement) -> (r: Result<
        Statement,
        ParseError,
    >)
        requires
            old(iter_tokens).index <= old(iter_tokens).tokens@.len(),
        ensures
            final(iter_tokens).tokens == old(iter_tokens).tokens,
            final(iter_tokens).index <= final(iter_tokens).tokens@.len(),
            match parse_path(old(iter_tokens).tokens@, old(iter_tokens).index as int) {
                Ok((p, j)) => r is Ok && r->Ok_0.node() == member_node(object.node(), p)
                    && final(iter_tokens).index == j,
                Err(e) => r == Err::<Statement, ParseError>(e),
            },
        decreases old(iter_tokens).tokens@.len() - old(iter_tokens).index, 1int,
    {
        let p = match AST::parse_indetifier(iter_tokens) {
            Ok(p) => p,
            Err(e) => {
                return Err(e);
            },
        };
        proof {
            lemma_node_span(object);
            lemma_node_span(p);
        }
        let span = Span { start: object.to_span().start, end: p.to_span().end };
        Ok(Statement::MemberExpression { span, object: Box::new(object), property: Box::new(p) })
    }

    /// A computed member access `[ "key" ]` on `object`.
    fn parse_square_bracket_computer_expression(
        iter_tokens: &mut IterToken,
        object: Statement,
    ) -> (r: Result<Statement, ParseError>)
        requires
            old(iter_tokens).index < old(iter_tokens).tokens@.len(),
            old(iter_tokens).tokens@[old(iter_tokens).index as int].kind
                == TokenKind::OpenSquareBracket,
        ensures
            final(iter_tokens).tokens == old(iter_tokens).tokens,
            final(iter_tokens).index <= final(iter_tokens).tokens@.len(),
            ({
                let ts = old(iter_tokens).tokens@;
                let i = old(iter_tokens).index as int;
                if i + 1 >= ts.len() {
                    r == Err::<Statement, ParseError>(ParseError::UnexpectedEnd)
                } else if ts[i + 1].kind != TokenKind::StringLiteral {
                    r == Err::<Statement, ParseError>(
                        ParseError::ExpectedStringLiteral { position: ts[i + 1].span.start },
                    )
                } else {
                    &&& r is Ok
                    &&& r->Ok_0.node() == member_node(object.node(), identifier_node(ts[i + 1]))
                    &&& final(iter_tokens).index == if i + 3 <= ts.len() {
                        i + 3
                    } else {
                        ts.len() as int
                    }
                }
            }),
    {
        iter_tokens.forward();
        let p = match AST::parse_compute(iter_tokens) {
            Ok(p) => p,
            Err(e) => {
                return Err(e);
            },
        };
        iter_tokens.forward();
        proof {
            lemma_node_span(object);
        }
        let span = Span { start: object.to_span().start, end: p.to_span().end };
        let m = Statement::MemberExpression {
            span,
            object: Box::new(object),
            property: Box::new(p),
        };
        iter_tokens.forward();
        Ok(m)
    }
}

/// A statement's span is the span of the path it holds.
proof fn lemma_node_span(s: Statement)
    ensures
        s.node().start() == s.spec_span().start,
        s.node().end() == s.spec_span().end,
{
}

/// The nodes `out` put before what the rest of a parse gives.
pub open spec fn prepend_nodes(out: Seq<Node>, r: Result<Seq<Node>, ParseError>) -> Result<
    Seq<Node>,
    ParseError,
> {
    match r {
        Ok(more) => Ok(out + more),
        Err(e) => Err(e),
    }
}

proof fn lemma_prepend_nodes_empty(r: Result<Seq<Node>, ParseError>)
    ensures
        prepend_nodes(Seq::empty(), r) == r,
{
    match r {
        Ok(more) => {
            assert(Seq::<Node>::empty() + more =~= more);
        },
        Err(e) => {},
    }
}

/// The text with each backslash escape `\X` replaced by `X`; a backslash
/// at the very end stays.
pub open spec fn decoded(s: Seq<char>) -> Seq<char>
    decreases s.len(),
{
    if s.len() == 0 {
        seq![]
    } else if s[0] == '\\' && s.len() >= 2 {
        seq![s[1]] + decoded(s.subrange(2, s.len() as int))
    } else {
        seq![s[0]] + decoded(s.subrange(1, s.len() as int))
    }
}

/// Decodes the backslash escapes of a raw string literal: each `\X`
/// becomes `X`, every other character is copied.
pub fn decode_escapes(raw: &str) -> (r: String)
    ensures
        r@ == decoded(raw@),
{
    let n = raw.unicode_len();
    let mut d = String::new();
    let mut i: usize = 0;
    proof {
        assert(raw@.subrange(0, n as int) =~= raw@);
        assert(d@ + decoded(raw@) =~= decoded(raw@));
    }
    while i < n
        invariant
            n == raw@.len(),
            i <= n,
            d@ + decoded(raw@.subrange(i as int, n as int)) == decoded(raw@),
        decreases n - i,
    {
        let c = raw.get_char(i);
        let ghost rest = raw@.subrange(i as int, n as int);
        let ghost d0 = d@;
        if c == '\\' && i + 1 < n {
            let x = raw.substring_char(i + 1, i + 2);
            d.append(x);
            proof {
                let tail = raw@.subrange(i + 2, n as int);
                assert(rest.subrange(2, rest.len() as int) =~= tail);
                assert(x@ =~= seq![rest[1]]);
                assert(decoded(rest) == seq![rest[1]] + decoded(tail));
                assert(d0 + (x@ + decoded(tail)) =~= d@ + decoded(tail));
            }
            i = i + 2;
        } else {
            let x = raw.substring_char(i, i + 1);
            d.append(x);
            proof {
                let tail = raw@.subrange(i + 1, n as int);
                assert(rest.subrange(1, rest.len() as int) =~= tail);
                assert(x@ =~= seq![rest[0]]);
                assert(decoded(rest) == seq![rest[0]] + decoded(tail));
                assert(d0 + (x@ + decoded(tail)) =~= d@ + decoded(tail));
            }
            i = i + 1;
        }
    }
    proof {
        assert(raw@.subrange(n as int, n as int) =~= Seq::<char>::empty());
        assert(d@ + Seq::<char>::empty() =~= d@);
    }
    d
}

} // verus!
