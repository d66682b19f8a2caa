use vstd::prelude::*;
use vstd::string::{StrSliceExecFns, StringSliceAdditionalSpecFns};
use vstd::utf8::{
    decode_utf8, encode_utf8, encode_utf8_decode_utf8, encode_utf8_valid_utf8, is_char_boundary, is_char_boundary_iff_not_is_continuation_byte,
    is_char_boundary_start_end_of_seq, valid_utf8, valid_utf8_split,
};

use super::to_direction::ToDirection;
use super::token::{Span, Token, TokenKind};

verus! {

/// Whether `p` is an offset that the scanner may cut the source at: an end
/// of the source, or next to an ASCII byte.
pub open spec fn boundary_ok(src: Seq<u8>, p: int) -> bool {
    ||| p == 0
    ||| p == src.len()
    ||| (0 < p <= src.len() && src[p - 1] < 0x80)
    ||| (0 <= p < src.len() && src[p] < 0x80)
}

/// In valid UTF-8, an offset next to an ASCII byte starts a character.
pub proof fn lemma_boundary_ok(src: Seq<u8>, p: int)
    requires
        valid_utf8(src),
        0 <= p <= src.len(),
        boundary_ok(src, p),
    ensures
        is_char_boundary(src, p),
{
    is_char_boundary_start_end_of_seq(src);
    if 0 < p < src.len() {
        is_char_boundary_iff_not_is_continuation_byte(src, p);
        if src[p - 1] < 0x80 {
            is_char_boundary_iff_not_is_continuation_byte(src, p - 1);
            valid_utf8_split(src, p - 1);
            let suffix = src.subrange(p - 1, src.len() as int);
            assert(suffix[0] == src[p - 1]);
            assert(vstd::utf8::pop_first_scalar(suffix) =~= src.subrange(p, src.len() as int));
            let rest = src.subrange(p, src.len() as int);
            assert(valid_utf8(rest));
            assert(rest[0] == src[p]);
        }
    }
}

/// The character whose encoding starts at offset `p` of `src`.
pub open spec fn char_at(src: Seq<u8>, p: int) -> char {
    decode_utf8(src.subrange(p, src.len() as int))[0]
}

/// A scan position over an immutable source. Offsets count bytes of the
/// source's UTF-8 encoding.
pub struct SourceCursor {
    pub(crate) source: String,
    pub(crate) bytes: Vec<u8>,
    pub(crate) pos: usize,
}

impl SourceCursor {
    /// The bytes of the source.
    pub closed spec fn src(&self) -> Seq<u8> {
        self.bytes@
    }

    /// The current position.
    pub closed spec fn position(&self) -> int {
        self.pos as int
    }

    /// The bytes are the UTF-8 encoding of the source text.
    pub closed spec fn wf(&self) -> bool {
        self.bytes@ == encode_utf8(self.source@)
    }

    pub fn new(payload: &str) -> (r: SourceCursor)
        ensures
            r.wf(),
            r.src() == encode_utf8(payload@),
            r.position() == 0,
    {
        let source = payload.to_string();
        let bytes = source.as_str().as_bytes_vec();
        SourceCursor { source, bytes, pos: 0 }
    }

    /// The source fits in memory, so every offset into it is a `usize`.
    pub proof fn lemma_src_bounded(&self)
        ensures
            self.src().len() <= usize::MAX,
    {
        assert(self.bytes@.len() == self.bytes.len());
    }

    /// An offset next to an ASCII byte starts a character of the source.
    pub proof fn lemma_cut(&self, p: int)
        requires
            self.wf(),
            0 <= p <= self.src().len(),
            boundary_ok(self.src(), p),
        ensures
            is_char_boundary(self.src(), p),
    {
        encode_utf8_valid_utf8(self.source@);
        lemma_boundary_ok(self.src(), p);
    }

    /// The current position.
    pub fn pos(&self) -> (r: usize)
        ensures
            r == self.position(),
    {
        self.pos
    }

    /// The character that starts at the current position, if any.
    pub fn current_character(&self) -> (r: Option<char>)
        requires
            self.wf(),
            self.position() <= self.src().len(),
            is_char_boundary(self.src(), self.position()),
        ensures
            r == (if self.position() < self.src().len() {
                Some(char_at(self.src(), self.position()))
            } else {
                None::<char>
            }),
    {
        let s = self.source.as_str();
        proof {
            encode_utf8_valid_utf8(self.source@);
        }
        let (_, rest) = s.split_at(self.pos);
        proof {
            assert(rest.spec_bytes() == self.src().subrange(self.position(), self.src().len() as int));
            encode_utf8_decode_utf8(rest@);
            if rest@.len() == 0 {
                assert(encode_utf8(rest@) =~= Seq::<u8>::empty()) by {
                    reveal_with_fuel(encode_utf8, 1);
                }
            }
        }
        if rest.is_empty() {
            None
        } else {
            Some(rest.get_char(0))
        }
    }

    /// The byte at the current position, if any.
    pub fn at_current_char(&self) -> (r: Option<u8>)
        ensures
            r == (if self.position() < self.src().len() {
                Some(self.src()[self.position()])
            } else {
                None::<u8>
            }),
    {
        if self.pos < self.bytes.len() {
            Some(self.bytes[self.pos])
        } else {
            None
        }
    }

    /// The byte at `option_from`, or at the current position when it is
    /// `None`; zero past the end.
    pub fn get_at_char(&self, option_from: Option<usize>) -> (r: u8)
        ensures
            ({
                let at = match option_from {
                    Some(from) => from,
                    None => self.position() as usize,
                };
                r == if at < self.src().len() {
                    self.src()[at as int]
                } else {
                    0u8
                }
            }),
    {
        let from = match option_from {
            Some(from) => from,
            None => self.pos,
        };
        if from < self.bytes.len() {
            self.bytes[from]
        } else {
            0
        }
    }

    /// The byte at the current position; zero past the end.
    pub fn get_current_char(&self) -> (r: u8)
        ensures
            r == if self.position() < self.src().len() {
                self.src()[self.position()]
            } else {
                0u8
            },
    {
        self.get_at_char(Some(self.pos))
    }

    /// The current position and the byte there, if any.
    pub fn current(&self) -> (r: Option<(usize, u8)>)
        ensures
            r == (if self.position() < self.src().len() {
                Some((self.position() as usize, self.src()[self.position()]))
            } else {
                None::<(usize, u8)>
            }),
    {
        match self.at_current_char() {
            Some(c) => Some((self.pos, c)),
            None => None,
        }
    }

    /// Moves one byte forward and gives what was current before, or `None`
    /// at the end of input.
    pub fn next(&mut self) -> (r: Option<(usize, u8)>)
        requires
            old(self).position() < usize::MAX,
        ensures
            final(self).wf() == old(self).wf(),
            final(self).src() == old(self).src(),
            r == (if old(self).position() < old(self).src().len() {
                Some((old(self).position() as usize, old(self).src()[old(self).position()]))
            } else {
                None::<(usize, u8)>
            }),
            final(self).position() == old(self).position() + 1,
    {
        let current = self.current();
        self.pos = self.pos + 1;
        current
    }

    /// Moves one byte back and gives what was current before.
    pub fn prev(&mut self) -> (r: Option<(usize, u8)>)
        requires
            old(self).position() > 0,
        ensures
            final(self).wf() == old(self).wf(),
            final(self).src() == old(self).src(),
            r == (if old(self).position() < old(self).src().len() {
                Some((old(self).position() as usize, old(self).src()[old(self).position()]))
            } else {
                None::<(usize, u8)>
            }),
            final(self).position() == old(self).position() - 1,
    {
        let current = self.current();
        self.pos = self.pos - 1;
        current
    }

    /// Up to `chunk_len` bytes from the current position, fewer at the end
    /// of input.
    pub fn peek_slice(&self, chunk_len: usize) -> (r: Vec<u8>)
        ensures
            r@ == self.src().subrange(
                vstd::math::min(self.position(), self.src().len() as int),
                vstd::math::min(self.position() + chunk_len, self.src().len() as int),
            ),
    {
        let len = self.bytes.len();
        let from = if self.pos < len {
            self.pos
        } else {
            len
        };
        let to = if chunk_len <= len - from {
            from + chunk_len
        } else {
            len
        };
        let mut r: Vec<u8> = Vec::new();
        let mut i: usize = from;
        while i < to
            invariant
                from <= i <= to <= len,
                len == self.bytes@.len(),
                r@ == self.src().subrange(from as int, i as int),
            decreases to - i,
        {
            r.push(self.bytes[i]);
            i = i + 1;
            assert(r@ =~= self.src().subrange(from as int, i as int));
        }
        assert(from as int == vstd::math::min(self.pos as int, len as int));
        assert(to as int == vstd::math::min(self.pos + chunk_len, len as int));
        r
    }

    /// The source text of `[from, to)`, both clamped to the source; empty
    /// where `to` lies before `from`.
    pub fn get<A: ToDirection>(&self, position_from: A, position_at: A) -> (r: &str)
        requires
            self.wf(),
            position_from.resolvable(self.position()),
            position_at.resolvable(self.position()),
            position_from.spec_resolve(self.position()) <= position_at.spec_resolve(self.position())
                ==> is_char_boundary(
                self.src(),
                vstd::math::min(position_from.spec_resolve(self.position()), self.src().len() as int),
            ) && is_char_boundary(
                self.src(),
                vstd::math::min(position_at.spec_resolve(self.position()), self.src().len() as int),
            ),
        ensures
            ({
                let from = position_from.spec_resolve(self.position());
                let at = position_at.spec_resolve(self.position());
                let len = self.src().len() as int;
                encode_utf8(r@) == if at < from {
                    Seq::<u8>::empty()
                } else {
                    self.src().subrange(vstd::math::min(from, len), vstd::math::min(at, len))
                }
            }),
    {
        let from = position_from.resolve(self.pos);
        let at = position_at.resolve(self.pos);
        if at < from {
            proof {
                vstd::utf8::encode_utf8_decode_utf8(""@);
                assert(""@.len() == 0) by {
                    reveal_strlit("");
                }
                assert(encode_utf8(""@) =~= Seq::<u8>::empty()) by {
                    reveal_strlit("");
                    reveal_with_fuel(encode_utf8, 1);
                }
            }
            return "";
        }
        let len = self.bytes.len();
        let real_from = if from < len {
            from
        } else {
            len
        };
        let real_at = if at < len {
            at
        } else {
            len
        };
        self.slice(real_from, real_at)
    }

    /// The source text of `[from, to)`.
    fn slice(&self, from: usize, to: usize) -> (r: &str)
        requires
            self.wf(),
            from <= to <= self.src().len(),
            is_char_boundary(self.src(), from as int),
            is_char_boundary(self.src(), to as int),
        ensures
            encode_utf8(r@) == self.src().subrange(from as int, to as int),
    {
        let s = self.source.as_str();
        proof {
            encode_utf8_valid_utf8(self.source@);
        }
        let (_, rest) = s.split_at(from);
        proof {
            let src = self.src();
            let rb = src.subrange(from as int, src.len() as int);
            assert(rest.spec_bytes() == rb);
            encode_utf8_valid_utf8(rest@);
            is_char_boundary_start_end_of_seq(rb);
            if to < src.len() {
                is_char_boundary_iff_not_is_continuation_byte(src, to as int);
                is_char_boundary_iff_not_is_continuation_byte(rb, to - from);
                assert(rb[to - from] == src[to as int]);
            }
        }
        let (mid, _) = rest.split_at(to - from);
        proof {
            assert(mid.spec_bytes() =~= self.src().subrange(from as int, to as int));
        }
        mid
    }

    /// Moves to the offset that `direction` names.
    pub fn forward<A: ToDirection>(&mut self, direction: A)
        requires
            direction.resolvable(old(self).position()),
        ensures
            final(self).wf() == old(self).wf(),
            final(self).src() == old(self).src(),
            final(self).position() == direction.spec_resolve(old(self).position()),
    {
        self.pos = direction.resolve(self.pos);
    }

    /// A token of `token_kind` over `[from, at)` of the source; the cursor
    /// moves to `at`.
    pub fn create_token<A: ToDirection, B: ToDirection>(
        &mut self,
        token_kind: TokenKind,
        direction_from: A,
        direction_at: B,
    ) -> (t: Token)
        requires
            old(self).wf(),
            direction_from.resolvable(old(self).position()),
            direction_at.resolvable(old(self).position()),
            0 <= direction_from.spec_resolve(old(self).position()) <= direction_at.spec_resolve(
                old(self).position(),
            ) <= old(self).src().len(),
            is_char_boundary(old(self).src(), direction_from.spec_resolve(old(self).position())),
            is_char_boundary(old(self).src(), direction_at.spec_resolve(old(self).position())),
        ensures
            final(self).wf() == old(self).wf(),
            final(self).src() == old(self).src(),
            final(self).position() == direction_at.spec_resolve(old(self).position()),
            t.kind == token_kind,
            t.span.start == direction_from.spec_resolve(old(self).position()),
            t.span.end == direction_at.spec_resolve(old(self).position()),
            encode_utf8(t.raw@) == old(self).src().subrange(t.span.start as int, t.span.end as int),
    {
        let from = direction_from.resolve(self.pos);
        let at = direction_at.resolve(self.pos);
        let raw = self.slice(from, at).to_string();
        self.pos = at;
        Token { kind: token_kind, raw, span: Span { start: from, end: at } }
    }
}

} // verus!
