use vstd::prelude::*;
use vstd::string::StringSliceAdditionalSpecFns;

use crate::lexer::{classified_stream, start_state, step_outcome, LexState, Lexer};
use crate::token::{type_of, Token, TokenType};

verus! {

/// Bytewise cursor over assembly source.
///
/// The model is the whole input and the position of the current byte:
/// `-1` before the first `next`, `input().len()` once the input is
/// exhausted. The current byte is `0` outside the input.
pub trait SourceIter: Sized {
    /// All bytes of the source.
    spec fn input(&self) -> Seq<u8>;

    /// Position of the current byte.
    spec fn position(&self) -> int;

    /// The current byte.
    fn get(&self) -> (r: u8)
        requires
            -1 <= self.position() <= self.input().len(),
        ensures
            r == byte_at(self.input(), self.position()),
    ;

    /// Moves to the following byte and returns it (`0` at the end).
    fn next(&mut self) -> (r: u8)
        requires
            -1 <= old(self).position() <= old(self).input().len(),
        ensures
            -1 <= final(self).position() <= final(self).input().len(),
            final(self).input() == old(self).input(),
            final(self).position() == if old(self).position() < old(self).input().len() {
                old(self).position() + 1
            } else {
                old(self).position()
            },
            r == byte_at(final(self).input(), final(self).position()),
    ;

    /// The byte after the current one, without moving.
    fn peek(&mut self) -> (r: u8)
        requires
            -1 <= old(self).position() <= old(self).input().len(),
        ensures
            -1 <= final(self).position() <= final(self).input().len(),
            final(self).input() == old(self).input(),
            final(self).position() == old(self).position(),
            r == byte_at(old(self).input(), old(self).position() + 1),
    ;

    /// Whether the input is exhausted.
    fn is_empty(&self) -> (r: bool)
        requires
            -1 <= self.position() <= self.input().len(),
        ensures
            r == (self.position() == self.input().len()),
    ;
}

/// Model invariant of a cursor.
pub open spec fn cursor_ok<S: SourceIter>(s: &S) -> bool {
    -1 <= s.position() <= s.input().len()
}

/// The byte under a cursor, `0` outside the input.
pub open spec fn current_of<S: SourceIter>(s: &S) -> u8 {
    byte_at(s.input(), s.position())
}

/// The byte at position `i` of `s`, or `0` outside it.
pub open spec fn byte_at(s: Seq<u8>, i: int) -> u8 {
    if 0 <= i < s.len() {
        s[i]
    } else {
        0
    }
}

/// Assembly source held in memory.
pub struct SourceString {
    path: String,
    bytes: Vec<u8>,
    /// Index of the byte that the next `next` reads; the current byte sits
    /// just before it.
    next_index: usize,
}

impl SourceString {
    #[verifier::type_invariant]
    spec fn inv(self) -> bool {
        self.bytes@.len() < usize::MAX && self.next_index <= self.bytes@.len() + 1
    }

    /// Name under which the source is reported.
    pub closed spec fn path_view(&self) -> Seq<char> {
        self.path@
    }

    pub fn new(path: &str, source: &str) -> (r: SourceString)
        requires
            source.spec_bytes().len() < usize::MAX,
        ensures
            cursor_ok(&r),
            r.input() == source.spec_bytes(),
            r.position() == -1,
            r.path_view() == path@,
    {
        let src = source.as_bytes();
        let mut bytes: Vec<u8> = Vec::new();
        let mut i: usize = 0;
        while i < src.len()
            invariant
                i <= src@.len(),
                bytes@ == src@.subrange(0, i as int),
            decreases src@.len() - i,
        {
            bytes.push(src[i]);
            i = i + 1;
            assert(bytes@ =~= src@.subrange(0, i as int));
        }
        assert(bytes@ =~= src@);
        SourceString { path: String::from_str(path), bytes, next_index: 0 }
    }

    /// Classified tokens of this source, up to and including the first `Eof`
    /// or `Error`.
    pub fn parse(self) -> (r: Vec<Token>)
        ensures
            classified_stream(
                self.input(),
                start_state(
                    if self.position() < self.input().len() {
                        self.position() + 1
                    } else {
                        self.position()
                    },
                ),
                r@,
            ),
            r@.len() >= 1,
            r@.last() == Token::Eof || type_of(r@.last()) == TokenType::Error,
            forall|i: int|
                0 <= i < r@.len() - 1 ==> r@[i] != Token::Eof && type_of(r@[i])
                    != TokenType::Error,
    {
        proof {
            use_type_invariant(&self);
        }
        let ghost inp = self.input();
        let mut lexer = Lexer::new(self);
        let mut out: Vec<Token> = Vec::new();
        let ghost mut states: Seq<LexState> = seq![lexer.state()];
        loop
            invariant
                lexer.wf(),
                lexer.input() == inp,
                states.len() == out@.len() + 1,
                states[0] == start_state(
                    if self.position() < self.input().len() {
                        self.position() + 1
                    } else {
                        self.position()
                    },
                ),
                inp == self.input(),
                states.last() == lexer.state(),
                forall|i: int|
                    0 <= i < out@.len() ==> step_outcome(inp, #[trigger] states[i], out@[i], states[i + 1]),
                forall|i: int|
                    0 <= i < out@.len() ==> out@[i] != Token::Eof && type_of(out@[i])
                        != TokenType::Error,
            decreases lexer.measure(),
        {
            let t = lexer.next();
            let ghost olds = states;
            proof {
                states = states.push(lexer.state());
                assert forall|i: int| 0 <= i < out@.len() + 1 implies step_outcome(
                    inp,
                    #[trigger] states[i],
                    out@.push(t)[i],
                    states[i + 1],
                ) by {
                    if i < out@.len() {
                        assert(states[i] == olds[i] && states[i + 1] == olds[i + 1]);
                    }
                }
            }
            let done = matches!(t, Token::Eof) || matches!(t, Token::Error(_));
            out.push(t);
            if done {
                return out;
            }
        }
    }

    /// Name under which the source is reported.
    pub fn path(&self) -> (r: &str)
        ensures
            r@ == self.path_view(),
    {
        self.path.as_str()
    }
}

impl SourceIter for SourceString {
    closed spec fn input(&self) -> Seq<u8> {
        self.bytes@
    }

    closed spec fn position(&self) -> int {
        if self.next_index <= self.bytes@.len() + 1 {
            self.next_index - 1
        } else {
            self.bytes@.len() as int
        }
    }

    fn get(&self) -> (r: u8) {
        if 0 < self.next_index && self.next_index <= self.bytes.len() {
            self.bytes[self.next_index - 1]
        } else {
            0
        }
    }

    fn next(&mut self) -> (r: u8) {
        proof {
            use_type_invariant(&*self);
        }
        if self.next_index <= self.bytes.len() {
            self.next_index = self.next_index + 1;
        }
        self.get()
    }

    fn peek(&mut self) -> (r: u8) {
        if self.next_index < self.bytes.len() {
            self.bytes[self.next_index]
        } else {
            0
        }
    }

    fn is_empty(&self) -> (r: bool) {
        self.next_index > self.bytes.len()
    }
}

} // verus!
