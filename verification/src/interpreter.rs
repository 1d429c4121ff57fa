//! Postfix evaluation: reducing a postfix token sequence over an operand
//! stack to a single byte, and the full three-stage pipeline.
//!
//! Each token of the postfix sequence is handled in turn: a token registered
//! in the arity table is an operator and hands the stack to the semantic
//! function once enough operands are present; an unregistered literal pushes
//! its value; any other unregistered token is an error. At the end exactly
//! one value must remain on the stack, and it is the result.

use vstd::prelude::*;

use crate::lexer::tokenize_spec;
use crate::lexer::LexError;
use crate::lexer::Lexer;
use crate::lexer::LiteralMap;
use crate::parser::parse_spec;
use crate::parser::ParseError;
use crate::parser::PostfixParser;
use crate::parser::PriorityMap;
use crate::token::Token;

verus! {

/// An evaluation error; the lexical and restructuring errors of the earlier
/// stages are carried through unchanged.
#[derive(Clone, PartialEq, Eq, Debug)]
pub enum EvalError {
    /// The lexer rejected a segment of the expression text.
    Lex(LexError),
    /// The restructurer found a closing brace with no open brace to match.
    Parse(ParseError),
    /// A token with no arity entry stood where an operator or a literal was
    /// needed.
    Unregistered,
    /// An operator found fewer operands on the stack than its arity asks.
    TooFewOperands,
    /// The semantic function has no rule for the operator it was handed.
    Unhandled,
    /// The postfix sequence did not leave exactly one value on the stack.
    Unbalanced,
}

/// Lookup in the operator-arity table; on duplicate keys the entry added
/// last wins, as for a map built by repeated insertion.
pub open spec fn assoc_arity(m: Seq<(Token, usize)>, key: Token) -> Option<usize>
    decreases m.len(),
{
    if m.len() == 0 {
        None
    } else if m.last().0 == key {
        Some(m.last().1)
    } else {
        assoc_arity(m.drop_last(), key)
    }
}

/// The bitwise complement of a byte, written arithmetically.
pub open spec fn byte_not(x: u8) -> u8 {
    (255 - x) as u8
}

/// What the default semantic function computes: the operand stack after the
/// operator's operands are popped, and the resulting byte. NOT pops one
/// operand and complements it; AND, OR and XOR pop the right-hand operand
/// first and combine the two bitwise. Nothing is computed on a stack with
/// too few operands or for a token that is no operator.
pub open spec fn default_op_result(stack: Seq<u8>, op: Token) -> Option<(Seq<u8>, u8)> {
    match op {
        Token::NotOp => if stack.len() >= 1 {
            Some((stack.drop_last(), byte_not(stack.last())))
        } else {
            None
        },
        Token::AndOp | Token::OrOp | Token::XorOp => if stack.len() >= 2 {
            let rhs = stack.last();
            let lhs = stack[stack.len() - 2];
            let v = if op == Token::AndOp {
                lhs & rhs
            } else if op == Token::OrOp {
                lhs | rhs
            } else {
                lhs ^ rhs
            };
            Some((stack.drop_last().drop_last(), v))
        } else {
            None
        },
        _ => None,
    }
}

/// The default per-operator semantics: pops the operator's operands off the
/// stack and returns the combined byte, exactly as `default_op_result` says;
/// fails, leaving the stack unchanged, on a stack with too few operands or
/// on a token it has no rule for.
pub fn default_evaluate_operation(stack: &mut Vec<u8>, op: &Token) -> (r: Result<u8, EvalError>)
    ensures
        match default_op_result(old(stack)@, *op) {
            Some(pr) => r == Ok::<u8, EvalError>(pr.1) && final(stack)@ == pr.0,
            None => final(stack)@ == old(stack)@ && r == Err::<u8, EvalError>(
                if *op == Token::NotOp || *op == Token::AndOp || *op == Token::OrOp || *op
                    == Token::XorOp {
                    EvalError::TooFewOperands
                } else {
                    EvalError::Unhandled
                },
            ),
        },
{
    match op {
        Token::NotOp => {
            if stack.len() < 1 {
                return Err(EvalError::TooFewOperands);
            }
            let x = stack.pop().unwrap();
            Ok(255 - x)
        },
        Token::AndOp | Token::OrOp | Token::XorOp => {
            if stack.len() < 2 {
                return Err(EvalError::TooFewOperands);
            }
            let rhs = stack.pop().unwrap();
            let lhs = stack.pop().unwrap();
            match op {
                Token::AndOp => Ok(lhs & rhs),
                Token::OrOp => Ok(lhs | rhs),
                _ => Ok(lhs ^ rhs),
            }
        },
        _ => Err(EvalError::Unhandled),
    }
}

/// A pluggable rule set for the operators: what it computes as a spec, and
/// an executable form held to that spec. A caller may substitute its own
/// semantics for the default one by implementing this trait.
pub trait OpSemantics: Sized {
    /// The stack after the operands are consumed and the resulting byte, or
    /// nothing when the rule set rejects the stack state or the token.
    spec fn result_of(stack: Seq<u8>, op: Token) -> Option<(Seq<u8>, u8)>;

    /// Consumes the operator's operands from the stack and returns the
    /// computed byte, or fails exactly where `result_of` computes nothing.
    fn apply(&self, stack: &mut Vec<u8>, op: &Token) -> (r: Result<u8, EvalError>)
        ensures
            match r {
                Ok(v) => Self::result_of(old(stack)@, *op) == Some((final(stack)@, v)),
                Err(_) => Self::result_of(old(stack)@, *op) is None,
            },
    ;
}

/// The default rule set: bitwise NOT, AND, OR and XOR over bytes.
pub struct DefaultOps;

impl OpSemantics for DefaultOps {
    open spec fn result_of(stack: Seq<u8>, op: Token) -> Option<(Seq<u8>, u8)> {
        default_op_result(stack, op)
    }

    fn apply(&self, stack: &mut Vec<u8>, op: &Token) -> (r: Result<u8, EvalError>) {
        default_evaluate_operation(stack, op)
    }
}

/// The configured mapping from operator tokens to the number of operands
/// each consumes.
pub struct ArityMap {
    pairs: Vec<(Token, usize)>,
}

impl View for ArityMap {
    type V = Seq<(Token, usize)>;

    closed spec fn view(&self) -> Seq<(Token, usize)> {
        self.pairs@
    }
}

impl ArityMap {
    /// An empty table.
    pub fn new() -> (r: Self)
        ensures
            r@ == Seq::<(Token, usize)>::empty(),
    {
        let r = ArityMap { pairs: Vec::new() };
        proof {
            assert(r@ =~= Seq::<(Token, usize)>::empty());
        }
        r
    }

    /// Registers an arity; a later entry for the same token shadows an
    /// earlier one under `assoc_arity`.
    pub fn insert(&mut self, token: Token, arity: usize)
        ensures
            final(self)@ == old(self)@.push((token, arity)),
    {
        self.pairs.push((token, arity));
    }

    /// Looks a token's arity up in the table.
    fn get(&self, key: &Token) -> (r: Option<usize>)
        ensures
            r == assoc_arity(self@, *key),
    {
        let mut i = self.pairs.len();
        proof {
            assert(self@.take(i as int) =~= self@);
        }
        while i > 0
            invariant
                i <= self.pairs.len(),
                assoc_arity(self@, *key) == assoc_arity(self@.take(i as int), *key),
            decreases i,
        {
            i = i - 1;
            proof {
                assert(self@.take(i + 1).last() == self@[i as int]);
                assert(self@.take(i + 1).drop_last() =~= self@.take(i as int));
            }
            if self.pairs[i].0 == *key {
                return Some(self.pairs[i].1);
            }
        }
        None
    }
}

/// How reducing a postfix sequence from a given operand stack ends.
pub enum EvalOutcome {
    /// The reduction ends with exactly this value on the stack.
    Value(u8),
    /// An operator found fewer operands than its arity asks.
    TooFewOperands,
    /// An unregistered token that is no literal was met.
    Unregistered,
    /// The semantic function rejected a stack state or a token.
    SemanticFailure,
    /// The reduction ends with zero values or more than one on the stack.
    Unbalanced,
}

/// The reduction of a postfix token sequence over an operand stack, under an
/// arity table and a rule set `F`.
pub open spec fn eval_postfix<F: OpSemantics>(
    am: Seq<(Token, usize)>,
    post: Seq<Token>,
    stack: Seq<u8>,
) -> EvalOutcome
    decreases post.len(),
{
    if post.len() == 0 {
        if stack.len() == 1 {
            EvalOutcome::Value(stack[0])
        } else {
            EvalOutcome::Unbalanced
        }
    } else {
        let t = post[0];
        let rest = post.drop_first();
        match assoc_arity(am, t) {
            Some(n) => if stack.len() < n {
                EvalOutcome::TooFewOperands
            } else {
                match F::result_of(stack, t) {
                    None => EvalOutcome::SemanticFailure,
                    Some(pr) => eval_postfix::<F>(am, rest, pr.0.push(pr.1)),
                }
            },
            None => match t {
                Token::ConstVal(v) => eval_postfix::<F>(am, rest, stack.push(v)),
                _ => EvalOutcome::Unregistered,
            },
        }
    }
}

/// Everything `evaluate` promises of its result `r`, as one predicate over
/// the three configuration tables and the expression text: the result of the
/// reduction on success, and the precise error of the stage that failed
/// otherwise. A failure inside the rule set itself pins only that the result
/// is an error, since the rule set chooses its own error value.
pub open spec fn evaluate_post<F: OpSemantics>(
    lt: Seq<(Seq<char>, Token)>,
    pt: Seq<(Token, i32)>,
    at: Seq<(Token, usize)>,
    text: Seq<char>,
    r: Result<u8, EvalError>,
) -> bool {
    match tokenize_spec(lt, text) {
        Err(seg) => r matches Err(e) && e matches EvalError::Lex(le) && le.segment@ == seg,
        Ok(infix) => match parse_spec(pt, infix) {
            None => r == Err::<u8, EvalError>(EvalError::Parse(ParseError::ExtraClosingBrace)),
            Some(post) => match eval_postfix::<F>(at, post, Seq::<u8>::empty()) {
                EvalOutcome::Value(v) => r == Ok::<u8, EvalError>(v),
                EvalOutcome::TooFewOperands => r == Err::<u8, EvalError>(
                    EvalError::TooFewOperands,
                ),
                EvalOutcome::Unregistered => r == Err::<u8, EvalError>(EvalError::Unregistered),
                EvalOutcome::Unbalanced => r == Err::<u8, EvalError>(EvalError::Unbalanced),
                EvalOutcome::SemanticFailure => r is Err,
            },
        },
    }
}

/// The full pipeline: the three configuration tables, the rule set, and the
/// lexer and restructurer built on the first two.
pub struct Interpreter<F: OpSemantics> {
    oper_args_count_map: ArityMap,
    oper_eval_functor: F,
    lexer: Lexer,
    parser: PostfixParser,
}

impl<F: OpSemantics> Interpreter<F> {
    /// The literal-to-token table the lexer was built with.
    pub closed spec fn literal_table(&self) -> Seq<(Seq<char>, Token)> {
        self.lexer@
    }

    /// The operator-priority table the restructurer was built with.
    pub closed spec fn priority_table(&self) -> Seq<(Token, i32)> {
        self.parser@
    }

    /// The operator-arity table.
    pub closed spec fn arity_table(&self) -> Seq<(Token, usize)> {
        self.oper_args_count_map@
    }

    pub fn new(
        literal_token_map: LiteralMap,
        oper_priority_map: PriorityMap,
        oper_args_count_map: ArityMap,
        oper_eval_functor: F,
    ) -> (r: Self)
        ensures
            r.literal_table() == literal_token_map@,
            r.priority_table() == oper_priority_map@,
            r.arity_table() == oper_args_count_map@,
    {
        Interpreter {
            oper_args_count_map,
            oper_eval_functor,
            lexer: Lexer::new(literal_token_map),
            parser: PostfixParser::new(oper_priority_map),
        }
    }

    /// The configured arity of a token, if it has one.
    pub fn get_oper_args_count(&self, op: &Token) -> (r: Option<usize>)
        ensures
            r == assoc_arity(self.arity_table(), *op),
    {
        self.oper_args_count_map.get(op)
    }

    /// Applies one operator to the operand stack: checks that the operator
    /// is registered and that the stack holds at least its arity in
    /// operands, then lets the rule set consume them and returns the
    /// computed byte without pushing it.
    pub fn eval_op(&self, stack: &mut Vec<u8>, op: &Token) -> (r: Result<u8, EvalError>)
        ensures
            match assoc_arity(self.arity_table(), *op) {
                None => r == Err::<u8, EvalError>(EvalError::Unregistered) && final(stack)@
                    == old(stack)@,
                Some(n) => if old(stack)@.len() < n {
                    r == Err::<u8, EvalError>(EvalError::TooFewOperands) && final(stack)@ == old(
                        stack,
                    )@
                } else {
                    match F::result_of(old(stack)@, *op) {
                        None => r is Err,
                        Some(pr) => r == Ok::<u8, EvalError>(pr.1) && final(stack)@ == pr.0,
                    }
                },
            },
    {
        match self.get_oper_args_count(op) {
            Some(n) => {
                if stack.len() < n {
                    Err(EvalError::TooFewOperands)
                } else {
                    self.oper_eval_functor.apply(stack, op)
                }
            },
            None => Err(EvalError::Unregistered),
        }
    }

    /// Evaluates an expression string end to end: tokenize, reorder to
    /// postfix, then reduce over an operand stack. Exactly one value must
    /// remain, and it is the result; every way to fail is named by the
    /// error.
    pub fn evaluate(&self, expr: &str) -> (r: Result<u8, EvalError>)
        ensures
            evaluate_post::<F>(
                self.literal_table(),
                self.priority_table(),
                self.arity_table(),
                expr@,
                r,
            ),
    {
        let infix = match self.lexer.tokenize(expr) {
            Ok(v) => v,
            Err(e) => {
                return Err(EvalError::Lex(e));
            },
        };
        let ghost infix_view = infix@;
        let postfix = match self.parser.parse(infix) {
            Ok(v) => v,
            Err(e) => {
                return Err(EvalError::Parse(e));
            },
        };
        let mut eval_stack: Vec<u8> = Vec::new();
        let mut i: usize = 0;
        proof {
            assert(postfix@.skip(0) =~= postfix@);
            assert(eval_stack@ =~= Seq::<u8>::empty());
        }
        while i < postfix.len()
            invariant
                i <= postfix.len(),
                tokenize_spec(self.literal_table(), expr@) == Ok::<Seq<Token>, Seq<char>>(
                    infix_view,
                ),
                parse_spec(self.priority_table(), infix_view) == Some(postfix@),
                eval_postfix::<F>(self.arity_table(), postfix@, Seq::<u8>::empty())
                    == eval_postfix::<F>(
                    self.arity_table(),
                    postfix@.skip(i as int),
                    eval_stack@,
                ),
            decreases postfix.len() - i,
        {
            let ghost rest = postfix@.skip(i as int);
            proof {
                assert(rest[0] == postfix@[i as int]);
                assert(rest.drop_first() =~= postfix@.skip(i as int + 1));
            }
            let t = postfix[i];
            match self.get_oper_args_count(&t) {
                Some(_) => {
                    match self.eval_op(&mut eval_stack, &t) {
                        Ok(x) => {
                            eval_stack.push(x);
                        },
                        Err(e) => {
                            return Err(e);
                        },
                    }
                },
                None => {
                    match t {
                        Token::ConstVal(x) => {
                            eval_stack.push(x);
                        },
                        _ => {
                            return Err(EvalError::Unregistered);
                        },
                    }
                },
            }
            i = i + 1;
        }
        proof {
            assert(postfix@.skip(postfix@.len() as int) =~= Seq::<Token>::empty());
        }
        if eval_stack.len() == 1 {
            let v = eval_stack.pop().unwrap();
            Ok(v)
        } else {
            Err(EvalError::Unbalanced)
        }
    }
}

} // verus!
