//! Operator-precedence reordering: turning an infix token sequence into an
//! equivalent postfix one with the shunting-yard technique.
//!
//! The parser keeps an output sequence and an auxiliary stack. A left brace
//! is pushed unconditionally; a right brace pops the stack into the output
//! until the matching left brace is popped and discarded, and fails if none
//! is found; an operand goes straight to the output; an operator first pops
//! every stacked operator whose configured priority is at least its own, then
//! is pushed. At the end of the input the remaining stack is popped into the
//! output — a left brace still on the stack at that point is handed on
//! rather than reported, and a later stage rejects the malformed sequence.

use vstd::prelude::*;

use crate::token::Token;

verus! {

/// A restructuring error.
#[derive(Clone, Copy, PartialEq, Eq, Structural, Debug)]
pub enum ParseError {
    /// A closing brace appeared with no open brace left to match it.
    ExtraClosingBrace,
}

/// Lookup in the operator-priority table; on duplicate keys the entry added
/// last wins, as for a map built by repeated insertion.
pub open spec fn assoc_priority(m: Seq<(Token, i32)>, key: Token) -> Option<i32>
    decreases m.len(),
{
    if m.len() == 0 {
        None
    } else if m.last().0 == key {
        Some(m.last().1)
    } else {
        assoc_priority(m.drop_last(), key)
    }
}

/// Whether the stacked token `top` must be popped to the output before the
/// incoming operator `cur` is pushed: `top` has a configured priority and it
/// is at least `cur`'s; a token with no priority entry (a brace in
/// particular) is never popped this way, and any priority outranks a `cur`
/// that has none.
pub open spec fn should_pop(m: Seq<(Token, i32)>, top: Token, cur: Token) -> bool {
    match (assoc_priority(m, top), assoc_priority(m, cur)) {
        (Some(a), Some(b)) => a >= b,
        (Some(_), None) => true,
        (None, _) => false,
    }
}

/// Pops every token that `should_pop` selects off the top of the stack:
/// returns them in pop order, together with the stack that remains.
pub open spec fn drain_ge(m: Seq<(Token, i32)>, stack: Seq<Token>, cur: Token) -> (Seq<
    Token,
>, Seq<Token>)
    decreases stack.len(),
{
    if stack.len() == 0 {
        (seq![], stack)
    } else if should_pop(m, stack.last(), cur) {
        let r = drain_ge(m, stack.drop_last(), cur);
        (seq![stack.last()] + r.0, r.1)
    } else {
        (seq![], stack)
    }
}

/// Pops the stack down to the nearest left brace: returns the popped tokens
/// in pop order and the stack below the discarded brace, or nothing when no
/// left brace is on the stack.
pub open spec fn drain_to_brace(stack: Seq<Token>) -> Option<(Seq<Token>, Seq<Token>)>
    decreases stack.len(),
{
    if stack.len() == 0 {
        None
    } else if stack.last() == Token::LeftBrace {
        Some((seq![], stack.drop_last()))
    } else {
        match drain_to_brace(stack.drop_last()) {
            None => None,
            Some(r) => Some((seq![stack.last()] + r.0, r.1)),
        }
    }
}

/// One shunting-yard run over the remaining input from a given output and
/// stack; yields the final output and stack, or nothing on an unmatched
/// closing brace.
pub open spec fn sy_run(
    m: Seq<(Token, i32)>,
    input: Seq<Token>,
    out: Seq<Token>,
    stack: Seq<Token>,
) -> Option<(Seq<Token>, Seq<Token>)>
    decreases input.len(),
{
    if input.len() == 0 {
        Some((out, stack))
    } else {
        let t = input[0];
        let rest = input.drop_first();
        match t {
            Token::LeftBrace => sy_run(m, rest, out, stack.push(t)),
            Token::RightBrace => match drain_to_brace(stack) {
                None => None,
                Some(r) => sy_run(m, rest, out + r.0, r.1),
            },
            Token::ConstVal(_) => sy_run(m, rest, out.push(t), stack),
            _ => {
                let r = drain_ge(m, stack, t);
                sy_run(m, rest, out + r.0, r.1.push(t))
            },
        }
    }
}

/// The postfix form of an infix token sequence: a full shunting-yard run
/// followed by popping the leftover stack into the output.
pub open spec fn parse_spec(m: Seq<(Token, i32)>, input: Seq<Token>) -> Option<Seq<Token>> {
    match sy_run(m, input, seq![], seq![]) {
        None => None,
        Some(r) => Some(r.0 + r.1.reverse()),
    }
}

/// The configured mapping from operator tokens to their priority; higher
/// binds tighter.
pub struct PriorityMap {
    pairs: Vec<(Token, i32)>,
}

impl View for PriorityMap {
    type V = Seq<(Token, i32)>;

    closed spec fn view(&self) -> Seq<(Token, i32)> {
        self.pairs@
    }
}

impl PriorityMap {
    /// An empty table.
    pub fn new() -> (r: Self)
        ensures
            r@ == Seq::<(Token, i32)>::empty(),
    {
        let r = PriorityMap { pairs: Vec::new() };
        proof {
            assert(r@ =~= Seq::<(Token, i32)>::empty());
        }
        r
    }

    /// Registers a priority; a later entry for the same token shadows an
    /// earlier one under `assoc_priority`.
    pub fn insert(&mut self, token: Token, priority: i32)
        ensures
            final(self)@ == old(self)@.push((token, priority)),
    {
        self.pairs.push((token, priority));
    }

    /// Looks a token's priority up in the table.
    fn get(&self, key: &Token) -> (r: Option<i32>)
        ensures
            r == assoc_priority(self@, *key),
    {
        let mut i = self.pairs.len();
        proof {
            assert(self@.take(i as int) =~= self@);
        }
        while i > 0
            invariant
                i <= self.pairs.len(),
                assoc_priority(self@, *key) == assoc_priority(self@.take(i as int), *key),
            decreases i,
        {
            i = i - 1;
            proof {
                assert(self@.take(i + 1).last() == self@[i as int]);
                assert(self@.take(i + 1).drop_last() =~= self@.take(i as int));
            }
            if self.pairs[i].0 == *key {
                return Some(self.pairs[i].1);
            }
        }
        None
    }
}

/// The postfix restructurer: the priority table together with the
/// shunting-yard reordering.
pub struct PostfixParser {
    oper_priority_map: PriorityMap,
}

impl View for PostfixParser {
    type V = Seq<(Token, i32)>;

    closed spec fn view(&self) -> Seq<(Token, i32)> {
        self.oper_priority_map@
    }
}

impl PostfixParser {
    pub fn new(oper_priority_map: PriorityMap) -> (r: Self)
        ensures
            r@ == oper_priority_map@,
    {
        PostfixParser { oper_priority_map }
    }

    /// The configured priority of a token, if it has one; operands and
    /// braces have none in a well-formed configuration.
    pub fn get_oper_priority(&self, op: &Token) -> (r: Option<i32>)
        ensures
            r == assoc_priority(self@, *op),
    {
        self.oper_priority_map.get(op)
    }

    /// Reorders an infix token sequence into postfix form, or reports the
    /// first closing brace that has no open brace to match it.
    pub fn parse(&self, tokens_infix: Vec<Token>) -> (r: Result<Vec<Token>, ParseError>)
        ensures
            match parse_spec(self@, tokens_infix@) {
                Some(ts) => r matches Ok(v) && v@ == ts,
                None => r == Err::<Vec<Token>, ParseError>(ParseError::ExtraClosingBrace),
            },
    {
        let mut out: Vec<Token> = Vec::new();
        let mut stack: Vec<Token> = Vec::new();
        let mut i: usize = 0;
        proof {
            assert(tokens_infix@.skip(0) =~= tokens_infix@);
            assert(out@ =~= Seq::<Token>::empty());
            assert(stack@ =~= Seq::<Token>::empty());
        }
        while i < tokens_infix.len()
            invariant
                i <= tokens_infix.len(),
                sy_run(self@, tokens_infix@, seq![], seq![]) == sy_run(
                    self@,
                    tokens_infix@.skip(i as int),
                    out@,
                    stack@,
                ),
            decreases tokens_infix.len() - i,
        {
            let ghost rest = tokens_infix@.skip(i as int);
            proof {
                assert(rest[0] == tokens_infix@[i as int]);
                assert(rest.drop_first() =~= tokens_infix@.skip(i as int + 1));
            }
            let t = tokens_infix[i];
            match t {
                Token::LeftBrace => {
                    stack.push(t);
                },
                Token::RightBrace => {
                    let ghost out0 = out@;
                    let ghost stack0 = stack@;
                    loop
                        invariant_except_break
                            rest.len() > 0,
                            rest[0] == Token::RightBrace,
                            rest == tokens_infix@.skip(i as int),
                            i < tokens_infix@.len(),
                            sy_run(self@, tokens_infix@, seq![], seq![]) == sy_run(
                                self@,
                                rest,
                                out0,
                                stack0,
                            ),
                            match drain_to_brace(stack0) {
                                None => drain_to_brace(stack@) is None,
                                Some(r0) => drain_to_brace(stack@) matches Some(r) && out0 + r0.0
                                    == out@ + r.0 && r0.1 == r.1,
                            },
                        ensures
                            drain_to_brace(stack0) matches Some(r0) && out0 + r0.0 == out@ && r0.1
                                == stack@,
                        decreases stack@.len(),
                    {
                        if stack.len() == 0 {
                            proof {
                                assert(drain_to_brace(stack0) is None);
                                assert(sy_run(self@, rest, out0, stack0) is None);
                                assert(parse_spec(self@, tokens_infix@) is None);
                            }
                            return Err(ParseError::ExtraClosingBrace);
                        }
                        let top = stack[stack.len() - 1];
                        if top == Token::LeftBrace {
                            proof {
                                assert(drain_to_brace(stack@) == Some((
                                    Seq::<Token>::empty(),
                                    stack@.drop_last(),
                                )));
                                if drain_to_brace(stack0) is Some {
                                    let r0 = drain_to_brace(stack0)->Some_0;
                                    assert(out0 + r0.0 =~= out@);
                                }
                            }
                            stack.pop();
                            break;
                        }
                        proof {
                            let r = drain_to_brace(stack@.drop_last());
                            if r is Some {
                                assert(out@.push(stack@.last()) + r->Some_0.0 =~= out@ + (seq![
                                    stack@.last(),
                                ] + r->Some_0.0));
                            }
                        }
                        out.push(top);
                        stack.pop();
                    }
                },
                Token::ConstVal(_) => {
                    out.push(t);
                },
                _ => {
                    let ghost out0 = out@;
                    let ghost stack0 = stack@;
                    loop
                        invariant_except_break
                            ({
                                let r0 = drain_ge(self@, stack0, t);
                                let r = drain_ge(self@, stack@, t);
                                out0 + r0.0 == out@ + r.0 && r0.1 == r.1
                            }),
                        ensures
                            ({
                                let r0 = drain_ge(self@, stack0, t);
                                out0 + r0.0 == out@ && r0.1 == stack@
                            }),
                        decreases stack@.len(),
                    {
                        if stack.len() == 0 {
                            proof {
                                assert(drain_ge(self@, stack@, t) == (
                                    Seq::<Token>::empty(),
                                    stack@,
                                ));
                                assert(out@ + Seq::<Token>::empty() =~= out@);
                            }
                            break;
                        }
                        let top = stack[stack.len() - 1];
                        let pt = self.get_oper_priority(&top);
                        let pc = self.get_oper_priority(&t);
                        let pop = match (pt, pc) {
                            (Some(a), Some(b)) => a >= b,
                            (Some(_), None) => true,
                            (None, _) => false,
                        };
                        proof {
                            assert(pop == should_pop(self@, stack@.last(), t));
                        }
                        if !pop {
                            proof {
                                assert(drain_ge(self@, stack@, t) == (
                                    Seq::<Token>::empty(),
                                    stack@,
                                ));
                                assert(out@ + Seq::<Token>::empty() =~= out@);
                            }
                            break;
                        }
                        proof {
                            let r = drain_ge(self@, stack@.drop_last(), t);
                            assert(out@.push(stack@.last()) + r.0 =~= out@ + (seq![stack@.last()]
                                + r.0));
                        }
                        out.push(top);
                        stack.pop();
                    }
                    stack.push(t);
                },
            }
            i = i + 1;
        }
        proof {
            assert(tokens_infix@.skip(tokens_infix@.len() as int) =~= Seq::<Token>::empty());
        }
        let ghost outf = out@;
        let ghost stackf = stack@;
        while stack.len() > 0
            invariant
                outf + stackf.reverse() == out@ + stack@.reverse(),
            decreases stack@.len(),
        {
            let top = stack[stack.len() - 1];
            proof {
                assert(stack@.reverse() =~= seq![stack@.last()] + stack@.drop_last().reverse());
                assert(out@.push(stack@.last()) + stack@.drop_last().reverse() =~= out@ + (seq![
                    stack@.last(),
                ] + stack@.drop_last().reverse()));
            }
            out.push(top);
            stack.pop();
        }
        proof {
            assert(stack@.reverse() =~= Seq::<Token>::empty());
            assert(out@ + stack@.reverse() =~= out@);
            assert(out@ =~= outf + stackf.reverse());
        }
        Ok(out)
    }
}

} // verus!
