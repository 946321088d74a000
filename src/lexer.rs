use vstd::prelude::*;

use crate::base_lexer::{is_raw_kind, number_in_range, raw_token_at, skip_all, BaseLexer};
use crate::expression::{build, tree, Expression};
use crate::source::SourceIter;
use crate::token::{type_of, Token, TokenType};

verus! {

/// Kinds that can stand as an operand.
pub open spec fn is_operand(k: TokenType) -> bool {
    k == TokenType::Name || k == TokenType::String || k == TokenType::Number
        || k == TokenType::MacroArg
}

/// Whether a token of kind `next`, read after one of kind `last` at
/// parenthesis depth `depth`, continues an expression.
pub open spec fn continues_expression(last: TokenType, next: TokenType, depth: u8) -> bool {
    if depth == 0 && (last == TokenType::Comma || next == TokenType::Comma) {
        false
    } else if last == TokenType::LParen {
        is_operand(next) || next == TokenType::LocalLabelRef || next == TokenType::Operator
            || next == TokenType::LParen || next == TokenType::RParen
    } else if last == TokenType::RParen {
        next == TokenType::RParen || next == TokenType::Operator
    } else if last == TokenType::Operator {
        is_operand(next) || next == TokenType::LocalLabelRef || next == TokenType::LParen
    } else if is_operand(last) || last == TokenType::LocalLabelRef {
        next == TokenType::RParen || next == TokenType::Operator || ((last == TokenType::Name
            || last == TokenType::MacroArg) && next == TokenType::LParen) || (next
            == TokenType::Comma && depth > 0)
    } else if last == TokenType::Comma || last == TokenType::Directive || last
        == TokenType::Instruction {
        is_operand(next) || next == TokenType::LParen
    } else if last == TokenType::Begin || last == TokenType::Newline {
        next == TokenType::LParen || next == TokenType::Name || next == TokenType::String || next
            == TokenType::Number
    } else {
        false
    }
}

/// Whether a token of kind `next` continues the expression after one of kind
/// `last` at parenthesis depth `depth`.
pub fn is_expression(last: TokenType, next: TokenType, depth: u8) -> (r: bool)
    ensures
        r == continues_expression(last, next, depth),
{
    match (last, next) {
        // Commas separate expressions outside of parentheses
        (TokenType::Comma, _) if depth == 0 => false,
        (_, TokenType::Comma) if depth == 0 => false,
        (TokenType::LParen, TokenType::Name) => true,
        (TokenType::LParen, TokenType::LocalLabelRef) => true,
        (TokenType::LParen, TokenType::Number) => true,
        (TokenType::LParen, TokenType::String) => true,
        (TokenType::LParen, TokenType::Operator) => true,
        (TokenType::LParen, TokenType::LParen) => true,
        (TokenType::LParen, TokenType::RParen) => true,
        (TokenType::LParen, TokenType::MacroArg) => true,
        (TokenType::RParen, TokenType::RParen) => true,
        (TokenType::RParen, TokenType::Operator) => true,
        (TokenType::Operator, TokenType::LParen) => true,
        (TokenType::Operator, TokenType::Number) => true,
        (TokenType::Operator, TokenType::String) => true,
        (TokenType::Operator, TokenType::LocalLabelRef) => true,
        (TokenType::Operator, TokenType::Name) => true,
        (TokenType::Operator, TokenType::MacroArg) => true,
        (TokenType::Number, TokenType::RParen) => true,
        (TokenType::Number, TokenType::Operator) => true,
        (TokenType::Number, TokenType::Comma) => true,
        (TokenType::String, TokenType::RParen) => true,
        (TokenType::String, TokenType::Operator) => true,
        (TokenType::String, TokenType::Comma) => true,
        (TokenType::LocalLabelRef, TokenType::RParen) => true,
        (TokenType::LocalLabelRef, TokenType::Operator) => true,
        (TokenType::LocalLabelRef, TokenType::Comma) => true,
        (TokenType::Name, TokenType::LParen) => true,
        (TokenType::Name, TokenType::RParen) => true,
        (TokenType::Name, TokenType::Operator) => true,
        (TokenType::Name, TokenType::Comma) => true,
        (TokenType::MacroArg, TokenType::LParen) => true,
        (TokenType::MacroArg, TokenType::RParen) => true,
        (TokenType::MacroArg, TokenType::Operator) => true,
        (TokenType::MacroArg, TokenType::Comma) => true,
        (TokenType::Comma, TokenType::LParen) => true,
        (TokenType::Comma, TokenType::Name) => true,
        (TokenType::Comma, TokenType::String) => true,
        (TokenType::Comma, TokenType::Number) => true,
        (TokenType::Comma, TokenType::MacroArg) => true,
        (TokenType::Directive, TokenType::LParen) => true,
        (TokenType::Directive, TokenType::Name) => true,
        (TokenType::Directive, TokenType::String) => true,
        (TokenType::Directive, TokenType::Number) => true,
        (TokenType::Directive, TokenType::MacroArg) => true,
        (TokenType::Instruction, TokenType::LParen) => true,
        (TokenType::Instruction, TokenType::Name) => true,
        (TokenType::Instruction, TokenType::String) => true,
        (TokenType::Instruction, TokenType::Number) => true,
        (TokenType::Instruction, TokenType::MacroArg) => true,
        // A line may start with an expression
        (TokenType::Begin, TokenType::LParen) => true,
        (TokenType::Begin, TokenType::Name) => true,
        (TokenType::Begin, TokenType::String) => true,
        (TokenType::Begin, TokenType::Number) => true,
        (TokenType::Newline, TokenType::LParen) => true,
        (TokenType::Newline, TokenType::Name) => true,
        (TokenType::Newline, TokenType::String) => true,
        (TokenType::Newline, TokenType::Number) => true,
        (_, _) => false,
    }
}

/// `t` is the token read from position `p` on, and the scan then stands at
/// `e`.
#[verifier::opaque]
pub open spec fn reads_to(inp: Seq<u8>, p: int, t: Token, e: int) -> bool {
    raw_token_at(inp, skip_all(inp, p), e, t)
}

/// Parenthesis depth after `d` once the tokens `ts` are read: `(` raises it,
/// `)` lowers it, and it stays within `0..=255`.
pub open spec fn depth_after(d: u8, ts: Seq<Token>) -> u8
    decreases ts.len(),
{
    if ts.len() == 0 {
        d
    } else {
        let before = depth_after(d, ts.drop_last());
        if type_of(ts.last()) == TokenType::LParen {
            if before < 255 {
                (before + 1) as u8
            } else {
                before
            }
        } else if type_of(ts.last()) == TokenType::RParen {
            if before > 0 {
                (before - 1) as u8
            } else {
                before
            }
        } else {
            before
        }
    }
}

/// Each token of `run` after the first is read where the one before it
/// ended (`ends`) and continues the expression after it, the depth starting
/// at `d`.
pub open spec fn run_links(inp: Seq<u8>, d: u8, run: Seq<Token>, ends: Seq<int>) -> bool {
    forall|i: int|
        1 <= i < run.len() ==> reads_to(inp, ends[i - 1], #[trigger] run[i], ends[i])
            && continues_expression(type_of(run[i - 1]), type_of(run[i]), depth_after(d, run.take(i)))
}

proof fn lemma_run_extend(inp: Seq<u8>, d: u8, run: Seq<Token>, ends: Seq<int>, t: Token, e: int)
    requires
        run.len() >= 1,
        ends.len() == run.len(),
        run_links(inp, d, run, ends),
        reads_to(inp, ends.last(), t, e),
        continues_expression(type_of(run.last()), type_of(t), depth_after(d, run)),
    ensures
        run_links(inp, d, run.push(t), ends.push(e)),
{
    let r2 = run.push(t);
    let e2 = ends.push(e);
    assert(r2.take(run.len() as int) =~= run);
    assert forall|i: int| 1 <= i < r2.len() implies reads_to(inp, e2[i - 1], #[trigger] r2[i], e2[i])
        && continues_expression(type_of(r2[i - 1]), type_of(r2[i]), depth_after(d, r2.take(i))) by {
        if i < run.len() {
            assert(r2.take(i) =~= run.take(i));
            assert(r2[i] == run[i] && r2[i - 1] == run[i - 1]);
        }
    }
}

/// Visible state of the classifier: kind of the last token handed out,
/// parenthesis depth, whether a macro parameter list and a macro body are
/// open, and the position from which the next token is read.
pub struct LexState {
    pub last: TokenType,
    pub depth: u8,
    pub in_args: bool,
    pub in_body: bool,
    pub pos: int,
}

/// The run of expression tokens `run` read from `s.pos` on (its first token
/// read before, ending at `ends[0]`), each continuing the expression after
/// the one before, up to a token that does not continue it. A top-level
/// comma that ends an operand of an instruction or directive is read with
/// the run.
#[verifier::opaque]
pub open spec fn expression_run(
    inp: Seq<u8>,
    s: LexState,
    run: Seq<Token>,
    ends: Seq<int>,
    r: Token,
    f: LexState,
) -> bool {
    &&& run.len() >= 1
    &&& ends.len() == run.len()
    &&& run_links(inp, s.depth, run, ends)
    &&& f.depth == depth_after(s.depth, run)
    &&& f.in_args == s.in_args
    &&& f.in_body == s.in_body
    &&& r matches Token::Expression(x) && tree(x) == build(seq![Token::LParen] + run + seq![Token::RParen])
    &&& exists|stop: Token, e: int|
        reads_to(inp, ends.last(), stop, e) && !continues_expression(
            type_of(run.last()),
            type_of(stop),
            f.depth,
        ) && if stop == Token::Comma && f.depth == 0 && (s.last == TokenType::Instruction || s.last
            == TokenType::Directive) {
            f.pos == e && f.last == s.last
        } else {
            f.pos == ends.last() && f.last == TokenType::Expression
        }
}

/// What one call of [`Lexer::next`] does from state `s` on the input `inp`:
/// the token `r` it hands out and the state `f` it leaves.
#[verifier::opaque]
pub open spec fn step_outcome(inp: Seq<u8>, s: LexState, r: Token, f: LexState) -> bool {
    exists|t: Token, e: int|
        reads_to(inp, s.pos, t, e) && {
            let same = f.depth == s.depth && f.in_args == s.in_args && f.in_body == s.in_body;
            let single = same && f.pos == e && f.last == type_of(r);
            match t {
                Token::PositiveOffset | Token::NegativeOffset => exists|t2: Token, e2: int|
                    reads_to(inp, e, t2, e2) && same && f.pos == e2 && f.last == type_of(r) && match t2 {
                        Token::Number(n) => r == Token::Offset(
                            if t == Token::PositiveOffset {
                                n.whole_part() as i32
                            } else {
                                -n.whole_part() as i32
                            },
                        ),
                        _ => r matches Token::Error(m) && m@ == "Expected number after offset sign"@,
                    },
                Token::MacroDef => exists|t2: Token, e2: int|
                    reads_to(inp, e, t2, e2) && f.depth == s.depth && f.in_body == s.in_body
                        && f.pos == e2 && f.last == type_of(r) && match t2 {
                        Token::Name(name) => if s.in_args {
                            f.in_args && (r matches Token::Error(m) && m@
                                == "Already inside a MACRO arguments signature"@)
                        } else {
                            f.in_args && r == Token::Macro(name)
                        },
                        _ => f.in_args == s.in_args && (r matches Token::Error(m) && m@
                            == "Expected name after MACRO directive"@),
                    },
                Token::MacroEnd => f.depth == s.depth && f.in_args == s.in_args && f.pos == e
                    && f.last == type_of(r) && !f.in_body && if s.in_body {
                    r == Token::MacroEnd
                } else {
                    r matches Token::Error(m) && m@
                        == "Unexpected ENDMACRO directive outside of macro"@
                },
                Token::MacroArg(name) => if !s.in_args && !s.in_body {
                    single && (r matches Token::Error(m) && m@ == "Unexpected macro argument @"@
                        + name@ + " outside of macro arguments or macro body"@)
                } else if s.in_args {
                    single && r == t
                } else if continues_expression(s.last, type_of(t), s.depth) {
                    exists|run: Seq<Token>, ends: Seq<int>|
                        run[0] == t && ends[0] == e && expression_run(inp, s, run, ends, r, f)
                } else {
                    single && r == t
                },
                _ => if s.in_args {
                    f.depth == s.depth && f.pos == e && f.last == type_of(r) && r == t && if t
                        == Token::RParen {
                        !f.in_args && f.in_body
                    } else {
                        f.in_args == s.in_args && f.in_body == s.in_body
                    }
                } else if continues_expression(s.last, type_of(t), s.depth) {
                    exists|run: Seq<Token>, ends: Seq<int>|
                        run[0] == t && ends[0] == e && expression_run(inp, s, run, ends, r, f)
                } else {
                    single && r == t
                },
            }
        }
}

/// `rs` is the classified token stream of `inp` read from state `s`: each
/// token is what [`Lexer::next`] hands out in the state the ones before it
/// left.
pub open spec fn classified_stream(inp: Seq<u8>, s: LexState, rs: Seq<Token>) -> bool {
    exists|states: Seq<LexState>|
        states.len() == rs.len() + 1 && states[0] == s && forall|i: int|
            0 <= i < rs.len() ==> step_outcome(inp, #[trigger] states[i], rs[i], states[i + 1])
}

/// The state of a classifier at the start of `inp`, its scan standing at
/// `pos`.
pub open spec fn start_state(pos: int) -> LexState {
    LexState { last: TokenType::Begin, depth: 0, in_args: false, in_body: false, pos }
}

/// Assembly tokenizer that folds runs of expression tokens into expression
/// trees and applies the macro context rules.
pub struct Lexer<S: SourceIter> {
    lexer: BaseLexer<S>,
    peeked: Option<Token>,
    /// Where the scan stood before the buffered token was read.
    peek_from: Ghost<int>,
    in_macro_args: bool,
    in_macro_body: bool,
    paren_depth: u8,
    last_token_type: TokenType,
}

/// What the scanner guarantees of every token it hands out.
pub open spec fn scanned(t: Token) -> bool {
    &&& is_raw_kind(type_of(t))
    &&& type_of(t) != TokenType::Whitespace
    &&& type_of(t) != TokenType::Comment
    &&& number_in_range(t)
}

impl<S: SourceIter> Lexer<S> {
    /// The classifier's invariant.
    pub closed spec fn wf(&self) -> bool {
        &&& self.lexer.wf()
        &&& self.peeked matches Some(t) ==> scanned(t) && (t == Token::Eof ==> self.lexer.cur()
            == 0) && reads_to(self.lexer.input(), self.peek_from@, t, self.lexer.pos())
    }

    /// All bytes of the source.
    pub closed spec fn input(&self) -> Seq<u8> {
        self.lexer.input()
    }

    /// The classifier's visible state.
    pub closed spec fn state(&self) -> LexState {
        LexState {
            last: self.last_token_type,
            depth: self.paren_depth,
            in_args: self.in_macro_args,
            in_body: self.in_macro_body,
            pos: if self.peeked is Some {
                self.peek_from@
            } else {
                self.lexer.pos()
            },
        }
    }

    /// A bound on the number of tokens still to come before `Eof`.
    pub closed spec fn measure(&self) -> nat {
        2 * self.lexer.remaining() + if self.peeked matches Some(t) && t != Token::Eof {
            1nat
        } else {
            0nat
        }
    }

    /// Whether the input is used up: every further token is `Eof`.
    pub closed spec fn at_end(&self) -> bool {
        &&& self.lexer.cur() == 0
        &&& self.peeked matches Some(t) ==> t == Token::Eof
    }

    /// A classifier at the start of `source`; its scanner moves onto the
    /// first byte.
    pub fn new(source: S) -> (r: Lexer<S>)
        requires
            -1 <= source.position() <= source.input().len(),
        ensures
            r.wf(),
            r.input() == source.input(),
            r.state() == start_state(
                if source.position() < source.input().len() {
                    source.position() + 1
                } else {
                    source.position()
                },
            ),
    {
        Lexer {
            lexer: BaseLexer::new(source),
            peeked: None,
            peek_from: Ghost(0),
            in_macro_args: false,
            in_macro_body: false,
            paren_depth: 0,
            last_token_type: TokenType::Begin,
        }
    }

    fn next_token(&mut self) -> (r: Token)
        requires
            old(self).wf(),
        ensures
            final(self).wf(),
            final(self).input() == old(self).input(),
            scanned(r),
            final(self).peeked is None,
            reads_to(old(self).input(), old(self).state().pos, r, final(self).state().pos),
            final(self).in_macro_args == old(self).in_macro_args,
            final(self).in_macro_body == old(self).in_macro_body,
            final(self).paren_depth == old(self).paren_depth,
            final(self).last_token_type == old(self).last_token_type,
            r != Token::Eof ==> final(self).measure() < old(self).measure(),
            r == Token::Eof ==> final(self).measure() <= old(self).measure() && final(self).at_end(),
            old(self).at_end() ==> r == Token::Eof,
            old(self).peeked is Some ==> final(self).lexer.pos() == old(self).lexer.pos(),
            old(self).peeked matches Some(t) ==> r == t,
    {
        proof {
            reveal(reads_to);
        }
        match self.peeked.take() {
            Some(t) => t,
            None => self.lexer.next(),
        }
    }

    fn peek_type(&mut self) -> (r: TokenType)
        requires
            old(self).wf(),
        ensures
            final(self).wf(),
            final(self).input() == old(self).input(),
            final(self).peeked matches Some(t) && r == type_of(t) && reads_to(
                final(self).input(),
                old(self).state().pos,
                t,
                final(self).lexer.pos(),
            ),
            final(self).state() == old(self).state(),
            final(self).measure() <= old(self).measure(),
            old(self).at_end() ==> final(self).at_end() && r == TokenType::Eof,
            r == TokenType::Eof ==> final(self).at_end(),
    {
        proof {
            reveal(reads_to);
        }
        if self.peeked.is_none() {
            let ghost from = self.lexer.pos();
            let t = self.lexer.next();
            self.peeked = Some(t);
            self.peek_from = Ghost(from);
        }
        match &self.peeked {
            Some(t) => t.to_type(),
            None => TokenType::Eof,
        }
    }

    /// Gathers the run of expression tokens that `token` starts into an
    /// `Expression`. A top-level comma that ends an operand of an
    /// instruction or directive is read with the run, and the flag says so.
    #[verifier::rlimit(100)]
    fn collect_expression(&mut self, token: Token) -> (r: (Token, bool, Ghost<Seq<Token>>, Ghost<Seq<int>>))
        requires
            old(self).wf(),
            old(self).peeked is None,
            scanned(token),
            continues_expression(old(self).last_token_type, type_of(token), old(self).paren_depth),
        ensures
            final(self).wf(),
            final(self).input() == old(self).input(),
            final(self).measure() <= old(self).measure(),
            ({
                let s = old(self).state();
                let f = LexState {
                    last: if r.1 {
                        s.last
                    } else {
                        TokenType::Expression
                    },
                    ..final(self).state()
                };
                &&& r.2@.len() >= 1
                &&& r.3@.len() >= 1
                &&& r.2@[0] == token
                &&& r.3@[0] == s.pos
                &&& expression_run(old(self).input(), s, r.2@, r.3@, r.0, f)
            }),
    {
        let ghost inp = self.input();
        let ghost s = self.state();
        let opener = self.last_token_type;
        let mut token_type = token.to_type();
        let ghost first = token;
        let mut stack: Vec<Token> = Vec::new();
        stack.push(Token::LParen);
        stack.push(token);
        let ghost mut run: Seq<Token> = seq![token];
        let ghost mut ends: Seq<int> = seq![s.pos];
        let ghost mut stop: Token = token;
        loop
            invariant_except_break
                token_type == type_of(run.last()),
                self.peeked is None,
                self.paren_depth == depth_after(s.depth, run.drop_last()),
            invariant
                self.wf(),
                self.input() == inp,
                self.measure() <= old(self).measure(),
                self.in_macro_args == s.in_args,
                self.in_macro_body == s.in_body,
                opener == s.last,
                run.len() >= 1,
                ends.len() == run.len(),
                run[0] == first,
                ends[0] == s.pos,
                stack@ == seq![Token::LParen] + run,
                self.state().pos == ends.last(),
                run_links(inp, s.depth, run, ends),
            ensures
                self.wf(),
                self.input() == inp,
                self.measure() <= old(self).measure(),
                self.in_macro_args == s.in_args,
                self.in_macro_body == s.in_body,
                run.len() >= 1,
                ends.len() == run.len(),
                run[0] == first,
                ends[0] == s.pos,
                stack@ == seq![Token::LParen] + run,
                self.paren_depth == depth_after(s.depth, run),
                self.peeked == Some(stop),
                token_type == type_of(stop),
                self.state().pos == ends.last(),
                reads_to(inp, ends.last(), stop, self.lexer.pos()),
                !continues_expression(type_of(run.last()), type_of(stop), self.paren_depth),
                run_links(inp, s.depth, run, ends),
            decreases self.measure(),
        {
            proof {
                assert(run.drop_last() == run.take(run.len() - 1));
            }
            if token_type == TokenType::LParen {
                if self.paren_depth < 255 {
                    self.paren_depth = self.paren_depth + 1;
                }
            } else if token_type == TokenType::RParen {
                if self.paren_depth > 0 {
                    self.paren_depth = self.paren_depth - 1;
                }
            }
            assert(self.paren_depth == depth_after(s.depth, run));
            self.last_token_type = token_type;
            token_type = self.peek_type();
            if is_expression(self.last_token_type, token_type, self.paren_depth) {
                let ghost before = self.state().pos;
                let t = self.next_token();
                proof {
                    let e = self.lexer.pos();
                    lemma_run_extend(inp, s.depth, run, ends, t, e);
                    assert(run.push(t).drop_last() =~= run);
                    run = run.push(t);
                    ends = ends.push(e);
                }
                stack.push(t);
                assert(stack@ =~= seq![Token::LParen] + run);
            } else {
                proof {
                    stop = self.peeked->Some_0;
                }
                break;
            }
        }
        let ghost stop_end = self.lexer.pos();
        let mut swallowed = false;
        if token_type == TokenType::Comma && self.paren_depth == 0 && (opener == TokenType::Instruction
            || opener == TokenType::Directive) {
            self.next_token();
            swallowed = true;
        }
        stack.push(Token::RParen);
        let ghost ts = stack@;
        assert(ts =~= seq![Token::LParen] + run + seq![Token::RParen]);
        let e = Expression::new(stack);
        let result = Token::Expression(e);
        proof {
            reveal(expression_run);
            let f = LexState {
                last: if swallowed {
                    s.last
                } else {
                    TokenType::Expression
                },
                ..self.state()
            };
            assert(swallowed == (stop == Token::Comma && f.depth == 0 && (s.last
                == TokenType::Instruction || s.last == TokenType::Directive)));
            assert(reads_to(inp, ends.last(), stop, stop_end));
            assert(expression_run(inp, s, run, ends, result, f));
            assert(run[0] == first && ends[0] == s.pos);
        }
        (result, swallowed, Ghost(run), Ghost(ends))
    }

    /// The next classified token. Whitespace and comments are dropped,
    /// offsets and macro headers are fused with their operand, macro
    /// arguments are checked against the macro context, and runs of
    /// expression tokens come as a single `Expression`. In the operands of
    /// an instruction or directive a top-level comma ends one operand and is
    /// read with it. After the input is used up every call returns `Eof`.
    #[verifier::rlimit(100)]
    pub fn next(&mut self) -> (r: Token)
        requires
            old(self).wf(),
        ensures
            final(self).wf(),
            final(self).input() == old(self).input(),
            step_outcome(old(self).input(), old(self).state(), r, final(self).state()),
            r != Token::Eof ==> final(self).measure() < old(self).measure(),
            r == Token::Eof ==> final(self).at_end(),
            old(self).at_end() ==> r == Token::Eof,
    {
        let ghost s = self.state();
        let ghost inp = self.input();
        let token = self.next_token();
        let ghost first = token;
        let ghost e = self.state().pos;
        let before = self.last_token_type;
        let mut swallowed = false;
        let ghost mut second: Token = Token::Eof;
        let ghost mut e2: int = 0;
        let ghost mut run_seen: Seq<Token> = Seq::empty();
        let ghost mut collected = false;
        let ghost mut sc = s;
        let ghost mut ends_seen: Seq<int> = Seq::empty();
        let result = match token {
            Token::PositiveOffset => {
                let operand = self.next_token();
                proof {
                    second = operand;
                    e2 = self.state().pos;
                }
                let out = match operand {
                    Token::Number(n) => {
                        let v = n.truncate();
                        assert(Token::Offset(v) == Token::Offset(n.whole_part() as i32));
                        Token::Offset(v)
                    },
                    _ => Token::Error(String::from_str("Expected number after offset sign")),
                };
                assert(reads_to(inp, e, second, e2));
                out
            },
            Token::NegativeOffset => {
                let operand = self.next_token();
                proof {
                    second = operand;
                    e2 = self.state().pos;
                }
                let out = match operand {
                    Token::Number(n) => {
                        let v = n.truncate();
                        let w: i32 = -v;
                        assert(Token::Offset(w) == Token::Offset(-n.whole_part() as i32));
                        Token::Offset(w)
                    },
                    _ => Token::Error(String::from_str("Expected number after offset sign")),
                };
                assert(reads_to(inp, e, second, e2));
                out
            },
            Token::MacroArg(name) => {
                if !self.in_macro_args && !self.in_macro_body {
                    let mut m = String::from_str("Unexpected macro argument @");
                    m.append(name.as_str());
                    m.append(" outside of macro arguments or macro body");
                    Token::Error(m)
                } else if self.in_macro_args {
                    Token::MacroArg(name)
                } else if is_expression(self.last_token_type, TokenType::MacroArg, self.paren_depth) {
                    proof {
                        sc = self.state();
                        collected = true;
                    }
                    let (t, sw, run, ends) = self.collect_expression(Token::MacroArg(name));
                    swallowed = sw;
                    proof {
                        run_seen = run@;
                        ends_seen = ends@;
                    }
                    t
                } else {
                    Token::MacroArg(name)
                }
            },
            Token::MacroDef => {
                let operand = self.next_token();
                proof {
                    second = operand;
                    e2 = self.state().pos;
                }
                let out = match operand {
                    Token::Name(name) => {
                        if self.in_macro_args {
                            Token::Error(
                                String::from_str("Already inside a MACRO arguments signature"),
                            )
                        } else {
                            self.in_macro_args = true;
                            Token::Macro(name)
                        }
                    },
                    _ => Token::Error(String::from_str("Expected name after MACRO directive")),
                };
                assert(reads_to(inp, e, second, e2));
                out
            },
            Token::MacroEnd => {
                if !self.in_macro_body {
                    Token::Error(
                        String::from_str("Unexpected ENDMACRO directive outside of macro"),
                    )
                } else {
                    self.in_macro_body = false;
                    Token::MacroEnd
                }
            },
            token => {
                if self.in_macro_args {
                    if matches!(token, Token::RParen) {
                        self.in_macro_args = false;
                        self.in_macro_body = true;
                    }
                    token
                } else if is_expression(self.last_token_type, token.to_type(), self.paren_depth) {
                    proof {
                        sc = self.state();
                        collected = true;
                    }
                    let (t, sw, run, ends) = self.collect_expression(token);
                    swallowed = sw;
                    proof {
                        run_seen = run@;
                        ends_seen = ends@;
                    }
                    t
                } else {
                    token
                }
            },
        };
        self.last_token_type = if swallowed {
            before
        } else {
            result.to_type()
        };
        proof {
            reveal(step_outcome);
            let f = self.state();
            assert(reads_to(inp, s.pos, first, e));
            if first is PositiveOffset || first is NegativeOffset || first is MacroDef {
                assert(reads_to(inp, e, second, e2));
            }
            if collected {
                reveal(expression_run);
                assert(sc.last == s.last && sc.depth == s.depth && sc.in_args == s.in_args
                    && sc.in_body == s.in_body);
                assert(run_seen[0] == first && ends_seen[0] == e && expression_run(
                    inp,
                    s,
                    run_seen,
                    ends_seen,
                    result,
                    f,
                ));
            }
        }
        result
    }

    /// All tokens up to and including the first `Eof`: the classified
    /// stream of the input from the current state.
    pub fn tokens(&mut self) -> (r: Vec<Token>)
        requires
            old(self).wf(),
        ensures
            final(self).wf(),
            final(self).at_end(),
            classified_stream(old(self).input(), old(self).state(), r@),
            r@.len() >= 1,
            r@.last() == Token::Eof,
            forall|i: int| 0 <= i < r@.len() - 1 ==> r@[i] != Token::Eof,
    {
        let ghost inp = self.input();
        let mut out: Vec<Token> = Vec::new();
        let ghost mut states: Seq<LexState> = seq![self.state()];
        loop
            invariant
                self.wf(),
                self.input() == inp,
                inp == old(self).input(),
                states.len() == out@.len() + 1,
                states[0] == old(self).state(),
                states.last() == self.state(),
                forall|i: int|
                    0 <= i < out@.len() ==> step_outcome(inp, #[trigger] states[i], out@[i], states[i + 1]),
                forall|i: int| 0 <= i < out@.len() ==> out@[i] != Token::Eof,
            decreases self.measure(),
        {
            let ghost before = self.state();
            let t = self.next();
            let ghost olds = states;
            proof {
                states = states.push(self.state());
                assert forall|i: int| 0 <= i < out@.len() + 1 implies step_outcome(
                    inp,
                    #[trigger] states[i],
                    out@.push(t)[i],
                    states[i + 1],
                ) by {
                    if i < out@.len() {
                        assert(states[i] == olds[i] && states[i + 1] == olds[i + 1]);
                    }
                }
            }
            let done = matches!(t, Token::Eof);
            out.push(t);
            if done {
                return out;
            }
        }
    }
}

} // verus!
