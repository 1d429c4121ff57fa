//! Laws that relate the stages of the pipeline to one another.

use vstd::prelude::*;

use crate::interpreter::assoc_arity;
use crate::interpreter::eval_postfix;
use crate::interpreter::evaluate_post;
use crate::interpreter::DefaultOps;
use crate::interpreter::EvalError;
use crate::interpreter::OpSemantics;
use crate::lexer::tokenize_spec;
use crate::parser::assoc_priority;
use crate::parser::drain_ge;
use crate::parser::drain_to_brace;
use crate::parser::parse_spec;
use crate::parser::should_pop;
use crate::parser::sy_run;
use crate::token::Token;

verus! {

/// Evaluation keeps no hidden state: any two results that `evaluate`'s
/// contract admits for the same configuration tables and the same expression
/// text succeed or fail together, and on success they carry the same byte.
pub proof fn lemma_evaluate_idempotent<F: OpSemantics>(
    lt: Seq<(Seq<char>, Token)>,
    pt: Seq<(Token, i32)>,
    at: Seq<(Token, usize)>,
    text: Seq<char>,
    r1: Result<u8, EvalError>,
    r2: Result<u8, EvalError>,
)
    requires
        evaluate_post::<F>(lt, pt, at, text, r1),
        evaluate_post::<F>(lt, pt, at, text, r2),
    ensures
        r1 is Ok <==> r2 is Ok,
        r1 is Ok ==> r1 == r2,
{
}

/// The net effect of a postfix token sequence on the depth of the operand
/// stack: each literal pushes one value, each registered operator consumes
/// its arity and pushes one. `None` marks a sequence on which the reduction
/// must fail — an operator short of operands, or a token that is neither
/// registered nor a literal.
pub open spec fn depth_run(am: Seq<(Token, usize)>, post: Seq<Token>, d: int) -> Option<int>
    decreases post.len(),
{
    if post.len() == 0 {
        Some(d)
    } else {
        let t = post[0];
        let rest = post.drop_first();
        match assoc_arity(am, t) {
            Some(n) => if d >= n {
                depth_run(am, rest, d - n + 1)
            } else {
                None
            },
            None => if t is ConstVal {
                depth_run(am, rest, d + 1)
            } else {
                None
            },
        }
    }
}

/// An arity table under which the default rule set is total: every
/// registered token is one of the four operators, NOT with one operand and
/// AND, OR and XOR with two.
pub open spec fn arities_match_default(am: Seq<(Token, usize)>) -> bool {
    forall|t: Token|
        (#[trigger] assoc_arity(am, t)) is Some ==> (t == Token::NotOp && assoc_arity(am, t)
            == Some(1usize)) || ((t == Token::AndOp || t == Token::OrOp || t == Token::XorOp)
            && assoc_arity(am, t) == Some(2usize))
}

/// A well-formed postfix sequence reduces to exactly one value: under an
/// arity table that matches the default rule set, a postfix sequence whose
/// depth run ends at one — its operators always find their operands and it
/// builds exactly one result — evaluates to a value, never to an error and
/// never with leftover operands.
pub proof fn lemma_wellformed_postfix_evaluates(
    am: Seq<(Token, usize)>,
    post: Seq<Token>,
    stack: Seq<u8>,
)
    requires
        arities_match_default(am),
        depth_run(am, post, stack.len() as int) == Some(1int),
    ensures
        eval_postfix::<DefaultOps>(am, post, stack) is Value,
    decreases post.len(),
{
    if post.len() == 0 {
        assert(stack.len() == 1);
    } else {
        let t = post[0];
        let rest = post.drop_first();
        match assoc_arity(am, t) {
            Some(n) => {
                assert(stack.len() >= n);
                let pr = DefaultOps::result_of(stack, t)->Some_0;
                assert(pr.0.push(pr.1).len() == stack.len() - n + 1);
                lemma_wellformed_postfix_evaluates(am, rest, pr.0.push(pr.1));
            },
            None => {
                let v = t->ConstVal_0;
                lemma_wellformed_postfix_evaluates(am, rest, stack.push(v));
            },
        }
    }
}

/// A well-formed boolean expression over byte literals, with every operator
/// application parenthesized: the shape a careful writer of expressions in
/// the configured operator set produces.
pub enum Bexp {
    Lit(u8),
    Not(Box<Bexp>),
    Bin(Token, Box<Bexp>, Box<Bexp>),
}

/// A token that stands for one of the two-operand operators.
pub open spec fn is_binary_op(t: Token) -> bool {
    t == Token::AndOp || t == Token::OrOp || t == Token::XorOp
}

/// Every binary node of the expression carries a binary operator token.
pub open spec fn wf_bexp(e: Bexp) -> bool
    decreases e,
{
    match e {
        Bexp::Lit(_) => true,
        Bexp::Not(u) => wf_bexp(*u),
        Bexp::Bin(b, l, r) => is_binary_op(b) && wf_bexp(*l) && wf_bexp(*r),
    }
}

/// The infix token sequence of an expression, with explicit braces around
/// every operator application.
pub open spec fn infix_of(e: Bexp) -> Seq<Token>
    decreases e,
{
    match e {
        Bexp::Lit(v) => seq![Token::ConstVal(v)],
        Bexp::Not(u) => seq![Token::LeftBrace, Token::NotOp] + infix_of(*u) + seq![
            Token::RightBrace,
        ],
        Bexp::Bin(b, l, r) => seq![Token::LeftBrace] + infix_of(*l) + seq![b] + infix_of(*r)
            + seq![Token::RightBrace],
    }
}

/// The postfix token sequence of an expression: operands first, the operator
/// after.
pub open spec fn postfix_of(e: Bexp) -> Seq<Token>
    decreases e,
{
    match e {
        Bexp::Lit(v) => seq![Token::ConstVal(v)],
        Bexp::Not(u) => postfix_of(*u) + seq![Token::NotOp],
        Bexp::Bin(b, l, r) => postfix_of(*l) + postfix_of(*r) + seq![b],
    }
}

/// A shunting-yard run splits over concatenation of its input.
proof fn lemma_sy_run_append(
    m: Seq<(Token, i32)>,
    s1: Seq<Token>,
    s2: Seq<Token>,
    out: Seq<Token>,
    stack: Seq<Token>,
)
    ensures
        sy_run(m, s1 + s2, out, stack) == (match sy_run(m, s1, out, stack) {
            None => None,
            Some(r) => sy_run(m, s2, r.0, r.1),
        }),
    decreases s1.len(),
{
    if s1.len() == 0 {
        assert(s1 + s2 =~= s2);
    } else {
        assert((s1 + s2)[0] == s1[0]);
        assert((s1 + s2).drop_first() =~= s1.drop_first() + s2);
        let t = s1[0];
        match t {
            Token::LeftBrace => {
                lemma_sy_run_append(m, s1.drop_first(), s2, out, stack.push(t));
            },
            Token::RightBrace => {
                match drain_to_brace(stack) {
                    None => {},
                    Some(r) => {
                        lemma_sy_run_append(m, s1.drop_first(), s2, out + r.0, r.1);
                    },
                }
            },
            Token::ConstVal(_) => {
                lemma_sy_run_append(m, s1.drop_first(), s2, out.push(t), stack);
            },
            _ => {
                let r = drain_ge(m, stack, t);
                lemma_sy_run_append(m, s1.drop_first(), s2, out + r.0, r.1.push(t));
            },
        }
    }
}

/// Run over a parenthesized well-formed expression: under a priority table
/// that gives the left brace no priority, the shunting yard turns the infix
/// form into exactly the postfix form, from any output and any stack, and
/// hands the stack back as it found it.
proof fn lemma_parenthesized_parse(
    m: Seq<(Token, i32)>,
    e: Bexp,
    out: Seq<Token>,
    st: Seq<Token>,
)
    requires
        wf_bexp(e),
        assoc_priority(m, Token::LeftBrace) is None,
    ensures
        sy_run(m, infix_of(e), out, st) == Some((out + postfix_of(e), st)),
    decreases e,
{
    match e {
        Bexp::Lit(v) => {
            let s = infix_of(e);
            assert(s[0] == Token::ConstVal(v));
            assert(s.drop_first() =~= Seq::<Token>::empty());
            assert(out.push(Token::ConstVal(v)) =~= out + postfix_of(e));
            assert(sy_run(m, s, out, st) == sy_run(
                m,
                Seq::<Token>::empty(),
                out.push(Token::ConstVal(v)),
                st,
            ));
            assert(sy_run(m, Seq::<Token>::empty(), out.push(Token::ConstVal(v)), st) == Some(
                (out.push(Token::ConstVal(v)), st),
            ));
            assert(sy_run(m, infix_of(e), out, st) == Some((out + postfix_of(e), st)));
        },
        Bexp::Not(u) => {
            let head = seq![Token::LeftBrace, Token::NotOp];
            let tail = infix_of(*u) + seq![Token::RightBrace];
            assert(infix_of(e) =~= head + tail);
            // the opening brace is pushed; NOT pops nothing past it
            assert(head[0] == Token::LeftBrace);
            assert(head.drop_first() =~= seq![Token::NotOp]);
            assert(seq![Token::NotOp][0] == Token::NotOp);
            assert(seq![Token::NotOp].drop_first() =~= Seq::<Token>::empty());
            let st1 = st.push(Token::LeftBrace);
            assert(!should_pop(m, Token::LeftBrace, Token::NotOp));
            assert(drain_ge(m, st1, Token::NotOp) == (Seq::<Token>::empty(), st1));
            assert(out + Seq::<Token>::empty() =~= out);
            let st2 = st1.push(Token::NotOp);
            assert(sy_run(m, head, out, st) == sy_run(m, seq![Token::NotOp], out, st1));
            assert(sy_run(m, seq![Token::NotOp], out, st1) == sy_run(
                m,
                Seq::<Token>::empty(),
                out + Seq::<Token>::empty(),
                st2,
            ));
            assert(sy_run(m, Seq::<Token>::empty(), out, st2) == Some((out, st2)));
            assert(sy_run(m, head, out, st) == Some((out, st2)));
            lemma_sy_run_append(m, head, tail, out, st);
            // the operand leaves the stack as it found it
            lemma_parenthesized_parse(m, *u, out, st2);
            lemma_sy_run_append(m, infix_of(*u), seq![Token::RightBrace], out, st2);
            assert(tail =~= infix_of(*u) + seq![Token::RightBrace]);
            // the closing brace pops NOT and discards the opening brace
            assert(seq![Token::RightBrace][0] == Token::RightBrace);
            assert(seq![Token::RightBrace].drop_first() =~= Seq::<Token>::empty());
            assert(st2.drop_last() =~= st1);
            assert(st1.drop_last() =~= st);
            assert(drain_to_brace(st1) == Some((Seq::<Token>::empty(), st)));
            assert(drain_to_brace(st2) == Some((
                seq![Token::NotOp] + Seq::<Token>::empty(),
                st,
            )));
            assert(seq![Token::NotOp] + Seq::<Token>::empty() =~= seq![Token::NotOp]);
            let outu = out + postfix_of(*u);
            assert(sy_run(m, seq![Token::RightBrace], outu, st2) == sy_run(
                m,
                Seq::<Token>::empty(),
                outu + seq![Token::NotOp],
                st,
            ));
            assert(sy_run(m, Seq::<Token>::empty(), outu + seq![Token::NotOp], st) == Some(
                (outu + seq![Token::NotOp], st),
            ));
            assert((out + postfix_of(*u)) + seq![Token::NotOp] =~= out + postfix_of(e));
            assert(sy_run(m, infix_of(e), out, st) == Some((out + postfix_of(e), st)));
        },
        Bexp::Bin(b, l, r) => {
            let open = seq![Token::LeftBrace];
            let mid = seq![b];
            let close = seq![Token::RightBrace];
            let tail1 = infix_of(*l) + mid + infix_of(*r) + close;
            assert(infix_of(e) =~= open + tail1);
            assert(open[0] == Token::LeftBrace);
            assert(open.drop_first() =~= Seq::<Token>::empty());
            let st1 = st.push(Token::LeftBrace);
            assert(sy_run(m, open, out, st) == sy_run(m, Seq::<Token>::empty(), out, st1));
            assert(sy_run(m, Seq::<Token>::empty(), out, st1) == Some((out, st1)));
            lemma_sy_run_append(m, open, tail1, out, st);
            // left operand, from the fresh brace
            lemma_parenthesized_parse(m, *l, out, st1);
            let out1 = out + postfix_of(*l);
            let tail2 = mid + infix_of(*r) + close;
            assert(tail1 =~= infix_of(*l) + tail2);
            lemma_sy_run_append(m, infix_of(*l), tail2, out, st1);
            // the operator pops nothing past the brace and is pushed
            assert(mid[0] == b);
            assert(mid.drop_first() =~= Seq::<Token>::empty());
            assert(!should_pop(m, Token::LeftBrace, b));
            assert(drain_ge(m, st1, b) == (Seq::<Token>::empty(), st1));
            assert(out1 + Seq::<Token>::empty() =~= out1);
            let st2 = st1.push(b);
            assert(sy_run(m, mid, out1, st1) == sy_run(
                m,
                Seq::<Token>::empty(),
                out1 + Seq::<Token>::empty(),
                st2,
            ));
            assert(sy_run(m, Seq::<Token>::empty(), out1, st2) == Some((out1, st2)));
            let tail3 = infix_of(*r) + close;
            assert(tail2 =~= mid + tail3);
            lemma_sy_run_append(m, mid, tail3, out1, st1);
            // right operand, from the pushed operator
            lemma_parenthesized_parse(m, *r, out1, st2);
            let out2 = out1 + postfix_of(*r);
            lemma_sy_run_append(m, infix_of(*r), close, out1, st2);
            // the closing brace pops the operator and discards the brace
            assert(close[0] == Token::RightBrace);
            assert(close.drop_first() =~= Seq::<Token>::empty());
            assert(st2.drop_last() =~= st1);
            assert(st1.drop_last() =~= st);
            assert(st2.last() == b);
            assert(b != Token::LeftBrace && b != Token::RightBrace && !(b is ConstVal));
            assert(drain_to_brace(st1) == Some((Seq::<Token>::empty(), st)));
            assert(drain_to_brace(st2) == Some((
                seq![b] + Seq::<Token>::empty(),
                st,
            )));
            assert(seq![b] + Seq::<Token>::empty() =~= seq![b]);
            assert(sy_run(m, close, out2, st2) == sy_run(
                m,
                Seq::<Token>::empty(),
                out2 + seq![b],
                st,
            ));
            assert(sy_run(m, Seq::<Token>::empty(), out2 + seq![b], st) == Some(
                (out2 + seq![b], st),
            ));
            assert(out2 + seq![b] =~= out + postfix_of(e));
            assert(sy_run(m, infix_of(e), out, st) == Some((out + postfix_of(e), st)));
        },
    }
}

/// A depth run splits over concatenation of the postfix sequence.
proof fn lemma_depth_run_append(am: Seq<(Token, usize)>, s1: Seq<Token>, s2: Seq<Token>, d: int)
    ensures
        depth_run(am, s1 + s2, d) == (match depth_run(am, s1, d) {
            None => None,
            Some(d2) => depth_run(am, s2, d2),
        }),
    decreases s1.len(),
{
    if s1.len() == 0 {
        assert(s1 + s2 =~= s2);
    } else {
        assert((s1 + s2)[0] == s1[0]);
        assert((s1 + s2).drop_first() =~= s1.drop_first() + s2);
        let t = s1[0];
        match assoc_arity(am, t) {
            Some(n) => {
                if d >= n {
                    lemma_depth_run_append(am, s1.drop_first(), s2, d - n + 1);
                }
            },
            None => {
                if t is ConstVal {
                    lemma_depth_run_append(am, s1.drop_first(), s2, d + 1);
                }
            },
        }
    }
}

/// An arity table that registers the four operators with their default
/// arities and registers no literal operand.
pub open spec fn default_arities_registered(am: Seq<(Token, usize)>) -> bool {
    assoc_arity(am, Token::NotOp) == Some(1usize) && assoc_arity(am, Token::AndOp) == Some(2usize)
        && assoc_arity(am, Token::OrOp) == Some(2usize) && assoc_arity(am, Token::XorOp) == Some(
        2usize,
    ) && forall|v: u8| assoc_arity(am, Token::ConstVal(v)) is None
}

/// The postfix form of a well-formed expression builds exactly one value on
/// top of whatever depth the stack already has.
proof fn lemma_postfix_depth(am: Seq<(Token, usize)>, e: Bexp, d: int)
    requires
        wf_bexp(e),
        default_arities_registered(am),
        d >= 0,
    ensures
        depth_run(am, postfix_of(e), d) == Some(d + 1),
    decreases e,
{
    match e {
        Bexp::Lit(v) => {
            let s = postfix_of(e);
            assert(s[0] == Token::ConstVal(v));
            assert(s.drop_first() =~= Seq::<Token>::empty());
            assert(assoc_arity(am, Token::ConstVal(v)) is None);
            assert(depth_run(am, s, d) == depth_run(am, Seq::<Token>::empty(), d + 1));
            assert(depth_run(am, Seq::<Token>::empty(), d + 1) == Some(d + 1));
        },
        Bexp::Not(u) => {
            lemma_postfix_depth(am, *u, d);
            lemma_depth_run_append(am, postfix_of(*u), seq![Token::NotOp], d);
            assert(seq![Token::NotOp][0] == Token::NotOp);
            assert(seq![Token::NotOp].drop_first() =~= Seq::<Token>::empty());
            assert(depth_run(am, seq![Token::NotOp], d + 1) == depth_run(
                am,
                Seq::<Token>::empty(),
                d + 1,
            ));
            assert(depth_run(am, Seq::<Token>::empty(), d + 1) == Some(d + 1));
        },
        Bexp::Bin(b, l, r) => {
            lemma_postfix_depth(am, *l, d);
            lemma_postfix_depth(am, *r, d + 1);
            lemma_depth_run_append(am, postfix_of(*l), postfix_of(*r) + seq![b], d);
            lemma_depth_run_append(am, postfix_of(*r), seq![b], d + 1);
            assert(postfix_of(e) =~= postfix_of(*l) + (postfix_of(*r) + seq![b]));
            assert(seq![b][0] == b);
            assert(seq![b].drop_first() =~= Seq::<Token>::empty());
            assert(assoc_arity(am, b) == Some(2usize));
            assert(depth_run(am, seq![b], d + 2) == depth_run(am, Seq::<Token>::empty(), d + 1));
            assert(depth_run(am, Seq::<Token>::empty(), d + 1) == Some(d + 1));
        },
    }
}

/// Well-formed, fully parenthesized expressions evaluate to a single byte:
/// when every operator application in the infix token sequence is explicitly
/// braced, the shunting yard returns exactly the expression's postfix form,
/// that form reduces to exactly one value, and `evaluate` on any text that
/// tokenizes to the expression returns `Ok` under the default rule set.
pub proof fn lemma_parenthesized_expression_evaluates(
    lt: Seq<(Seq<char>, Token)>,
    pt: Seq<(Token, i32)>,
    at: Seq<(Token, usize)>,
    text: Seq<char>,
    e: Bexp,
    r: Result<u8, EvalError>,
)
    requires
        wf_bexp(e),
        assoc_priority(pt, Token::LeftBrace) is None,
        arities_match_default(at),
        default_arities_registered(at),
        tokenize_spec(lt, text) == Ok::<Seq<Token>, Seq<char>>(infix_of(e)),
        evaluate_post::<DefaultOps>(lt, pt, at, text, r),
    ensures
        parse_spec(pt, infix_of(e)) == Some(postfix_of(e)),
        r is Ok,
{
    lemma_parenthesized_parse(pt, e, Seq::<Token>::empty(), Seq::<Token>::empty());
    assert(Seq::<Token>::empty() + postfix_of(e) =~= postfix_of(e));
    assert(Seq::<Token>::empty().reverse() =~= Seq::<Token>::empty());
    assert(postfix_of(e) + Seq::<Token>::empty() =~= postfix_of(e));
    lemma_postfix_depth(at, e, 0);
    lemma_wellformed_expression_evaluates(lt, pt, at, text, r);
}

/// A grouping fragment of an expression: a byte literal or a braced chain.
pub enum Atom {
    Lit(u8),
    Group(Box<Chain>),
}

/// An atom, possibly under one NOT; the parser regroups a NOT applied twice
/// in a row, so a well-formed expression never writes one.
pub enum Unary {
    Plain(Atom),
    Negated(Atom),
}

/// A left-to-right chain of binary operators over unary fragments, written
/// without braces: precedence alone decides its grouping.
pub enum Chain {
    One(Unary),
    More(Box<Chain>, Token, Unary),
}

pub open spec fn wf_atom(a: Atom) -> bool
    decreases a,
{
    match a {
        Atom::Lit(_) => true,
        Atom::Group(c) => wf_chain(*c),
    }
}

pub open spec fn wf_unary(u: Unary) -> bool
    decreases u,
{
    match u {
        Unary::Plain(a) => wf_atom(a),
        Unary::Negated(a) => wf_atom(a),
    }
}

pub open spec fn wf_chain(c: Chain) -> bool
    decreases c,
{
    match c {
        Chain::One(u) => wf_unary(u),
        Chain::More(c1, b, u) => is_binary_op(b) && wf_chain(*c1) && wf_unary(u),
    }
}

pub open spec fn atom_infix(a: Atom) -> Seq<Token>
    decreases a,
{
    match a {
        Atom::Lit(v) => seq![Token::ConstVal(v)],
        Atom::Group(c) => seq![Token::LeftBrace] + chain_infix(*c) + seq![Token::RightBrace],
    }
}

pub open spec fn unary_infix(u: Unary) -> Seq<Token>
    decreases u,
{
    match u {
        Unary::Plain(a) => atom_infix(a),
        Unary::Negated(a) => seq![Token::NotOp] + atom_infix(a),
    }
}

pub open spec fn chain_infix(c: Chain) -> Seq<Token>
    decreases c,
{
    match c {
        Chain::One(u) => unary_infix(u),
        Chain::More(c1, b, u) => chain_infix(*c1) + seq![b] + unary_infix(u),
    }
}

/// A priority table under which precedence chains restructure safely: braces
/// carry no priority, and NOT outranks every binary operator.
pub open spec fn priorities_default_shaped(pt: Seq<(Token, i32)>) -> bool {
    &&& assoc_priority(pt, Token::LeftBrace) is None
    &&& assoc_priority(pt, Token::NotOp) is Some
    &&& forall|t: Token|
        is_binary_op(t) ==> (#[trigger] assoc_priority(pt, t)) is Some && assoc_priority(
            pt,
            t,
        )->Some_0 < assoc_priority(pt, Token::NotOp)->Some_0
}

/// A token the grammar uses as an operator.
pub open spec fn grammar_op(t: Token) -> bool {
    t == Token::NotOp || is_binary_op(t)
}

pub open spec fn all_grammar_ops(p: Seq<Token>) -> bool {
    forall|i: int| 0 <= i < p.len() ==> grammar_op(#[trigger] p[i])
}

pub open spec fn all_some_prio(pt: Seq<(Token, i32)>, p: Seq<Token>) -> bool {
    forall|i: int| 0 <= i < p.len() ==> (assoc_priority(pt, #[trigger] p[i])) is Some
}

/// How many of the pending operators consume two operands.
spec fn bin_count(p: Seq<Token>) -> int
    decreases p.len(),
{
    if p.len() == 0 {
        0
    } else {
        bin_count(p.drop_last()) + if is_binary_op(p.last()) {
            1int
        } else {
            0int
        }
    }
}

/// A postfix fragment that builds exactly one value on any operand stack.
pub open spec fn builds_one(am: Seq<(Token, usize)>, x: Seq<Token>) -> bool {
    forall|d: int| d >= 0 ==> depth_run(am, x, d) == Some(d + 1)
}

/// The output sequence only grows: a run from a longer initial output is the
/// same run with the extra prefix carried along.
proof fn lemma_sy_run_out_prefix(
    m: Seq<(Token, i32)>,
    s: Seq<Token>,
    pre: Seq<Token>,
    o: Seq<Token>,
    st: Seq<Token>,
)
    ensures
        sy_run(m, s, pre + o, st) == (match sy_run(m, s, o, st) {
            None => None,
            Some(r) => Some((pre + r.0, r.1)),
        }),
    decreases s.len(),
{
    if s.len() == 0 {
    } else {
        let t = s[0];
        match t {
            Token::LeftBrace => {
                lemma_sy_run_out_prefix(m, s.drop_first(), pre, o, st.push(t));
            },
            Token::RightBrace => {
                match drain_to_brace(st) {
                    None => {},
                    Some(r) => {
                        assert((pre + o) + r.0 =~= pre + (o + r.0));
                        lemma_sy_run_out_prefix(m, s.drop_first(), pre, o + r.0, r.1);
                    },
                }
            },
            Token::ConstVal(_) => {
                assert((pre + o).push(t) =~= pre + o.push(t));
                lemma_sy_run_out_prefix(m, s.drop_first(), pre, o.push(t), st);
            },
            _ => {
                let r = drain_ge(m, st, t);
                assert((pre + o) + r.0 =~= pre + (o + r.0));
                lemma_sy_run_out_prefix(m, s.drop_first(), pre, o + r.0, r.1.push(t));
            },
        }
    }
}

/// A depth run that works from one depth works from any greater depth, with
/// the result shifted by the difference.
proof fn lemma_depth_shift(am: Seq<(Token, usize)>, s: Seq<Token>, d: int, k: int)
    requires
        depth_run(am, s, d) is Some,
        k >= 0,
    ensures
        depth_run(am, s, d + k) == Some(depth_run(am, s, d)->Some_0 + k),
    decreases s.len(),
{
    if s.len() == 0 {
    } else {
        let t = s[0];
        match assoc_arity(am, t) {
            Some(n) => {
                lemma_depth_shift(am, s.drop_first(), d - n + 1, k);
            },
            None => {
                lemma_depth_shift(am, s.drop_first(), d + 1, k);
            },
        }
    }
}

/// Popping pending operators in reverse pop order reduces one operand per
/// binary operator: from one more than their count, exactly one value stays.
proof fn lemma_rev_ops_depth(am: Seq<(Token, usize)>, p: Seq<Token>)
    requires
        default_arities_registered(am),
        all_grammar_ops(p),
    ensures
        bin_count(p) >= 0,
        depth_run(am, p.reverse(), 1 + bin_count(p)) == Some(1int),
    decreases p.len(),
{
    if p.len() == 0 {
        assert(p.reverse() =~= Seq::<Token>::empty());
    } else {
        assert(all_grammar_ops(p.drop_last())) by {
            assert(forall|i: int|
                0 <= i < p.drop_last().len() ==> (#[trigger] p.drop_last()[i]) == p[i]);
        }
        lemma_rev_ops_depth(am, p.drop_last());
        let rv = p.reverse();
        assert(rv =~= seq![p.last()] + p.drop_last().reverse());
        assert(rv[0] == p.last());
        assert(rv.drop_first() =~= p.drop_last().reverse());
        assert(grammar_op(p.last()));
        if is_binary_op(p.last()) {
            assert(assoc_arity(am, p.last()) == Some(2usize));
        } else {
            assert(p.last() == Token::NotOp);
            assert(assoc_arity(am, p.last()) == Some(1usize));
        }
    }
}

/// And that starting depth is the only one from which exactly one value
/// stays.
#[verifier::rlimit(50)]
proof fn lemma_rev_ops_depth_unique(am: Seq<(Token, usize)>, p: Seq<Token>, g: int)
    requires
        default_arities_registered(am),
        all_grammar_ops(p),
        depth_run(am, p.reverse(), g) == Some(1int),
    ensures
        g == 1 + bin_count(p),
    decreases p.len(),
{
    if p.len() == 0 {
        assert(p.reverse() =~= Seq::<Token>::empty());
    } else {
        assert(all_grammar_ops(p.drop_last())) by {
            assert(forall|i: int|
                0 <= i < p.drop_last().len() ==> (#[trigger] p.drop_last()[i]) == p[i]);
        }
        let rv = p.reverse();
        assert(rv =~= seq![p.last()] + p.drop_last().reverse());
        assert(rv[0] == p.last());
        assert(rv.drop_first() =~= p.drop_last().reverse());
        assert(grammar_op(p.last()));
        if is_binary_op(p.last()) {
            assert(assoc_arity(am, p.last()) == Some(2usize));
            lemma_rev_ops_depth_unique(am, p.drop_last(), g - 1);
        } else {
            assert(p.last() == Token::NotOp);
            assert(assoc_arity(am, p.last()) == Some(1usize));
            lemma_rev_ops_depth_unique(am, p.drop_last(), g);
        }
    }
}

/// Carving pending operators off a fragment that builds one value: the
/// fragment without the deepest `k` pending operators leaves one value for
/// each binary among them, plus the one result.
proof fn lemma_builds_one_split(
    am: Seq<(Token, usize)>,
    x: Seq<Token>,
    p: Seq<Token>,
    k: int,
    d: int,
)
    requires
        default_arities_registered(am),
        all_grammar_ops(p),
        0 <= k <= p.len(),
        builds_one(am, x + p.reverse()),
        d >= 0,
    ensures
        depth_run(am, x + p.skip(k).reverse(), d) == Some(d + 1 + bin_count(p.take(k))),
    decreases 0int,
{
    let a = x + p.skip(k).reverse();
    assert(x + p.reverse() =~= a + p.take(k).reverse());
    lemma_depth_run_append(am, a, p.take(k).reverse(), 0);
    assert(depth_run(am, x + p.reverse(), 0) == Some(1int));
    assert(depth_run(am, a, 0) is Some);
    let g = depth_run(am, a, 0)->Some_0;
    assert(all_grammar_ops(p.take(k))) by {
        assert(forall|i: int| 0 <= i < p.take(k).len() ==> (#[trigger] p.take(k)[i]) == p[i]);
    }
    lemma_rev_ops_depth_unique(am, p.take(k), g);
    lemma_depth_shift(am, a, 0, d);
}

/// Draining for an incoming operator pops some topmost part of the pending
/// operators, in pop order, and never digs past a brace.
proof fn lemma_drain_ge_split(m: Seq<(Token, i32)>, bst: Seq<Token>, q: Seq<Token>, t: Token)
    requires
        bst.len() == 0 || bst.last() == Token::LeftBrace,
        assoc_priority(m, Token::LeftBrace) is None,
        all_some_prio(m, q),
    ensures
        exists|k: int|
            0 <= k <= q.len() && #[trigger] drain_ge(m, bst + q, t) == ((q.skip(k)).reverse(), bst
                + q.take(k)),
    decreases q.len(),
{
    if q.len() == 0 {
        assert(bst + q =~= bst);
        if bst.len() > 0 {
            assert(!should_pop(m, bst.last(), t));
        }
        assert(q.skip(0).reverse() =~= Seq::<Token>::empty());
        assert(bst + q.take(0) =~= bst);
        assert(drain_ge(m, bst + q, t) == ((q.skip(0)).reverse(), bst + q.take(0)));
    } else {
        assert((bst + q).last() == q.last());
        assert((bst + q).drop_last() =~= bst + q.drop_last());
        if should_pop(m, q.last(), t) {
            assert(all_some_prio(m, q.drop_last())) by {
                assert(forall|i: int|
                    0 <= i < q.drop_last().len() ==> (#[trigger] q.drop_last()[i]) == q[i]);
            }
            lemma_drain_ge_split(m, bst, q.drop_last(), t);
            let k = choose|k: int|
                0 <= k <= q.drop_last().len() && #[trigger] drain_ge(m, bst + q.drop_last(), t)
                    == ((q.drop_last().skip(k)).reverse(), bst + q.drop_last().take(k));
            assert(q.take(k) =~= q.drop_last().take(k));
            assert(q.skip(k).reverse() =~= seq![q.last()] + q.drop_last().skip(k).reverse());
            assert(drain_ge(m, bst + q, t) == ((q.skip(k)).reverse(), bst + q.take(k)));
        } else {
            let k = q.len() as int;
            assert(q.skip(k).reverse() =~= Seq::<Token>::empty());
            assert(bst + q.take(k) =~= bst + q);
            assert(drain_ge(m, bst + q, t) == ((q.skip(k)).reverse(), bst + q.take(k)));
        }
    }
}

/// A closing brace pops exactly the pending operators above the nearest
/// brace, in pop order, and discards that brace.
proof fn lemma_drain_to_brace_ops(st: Seq<Token>, p: Seq<Token>)
    requires
        all_grammar_ops(p),
    ensures
        drain_to_brace(st + seq![Token::LeftBrace] + p) == Some((p.reverse(), st)),
    decreases p.len(),
{
    if p.len() == 0 {
        assert(st + seq![Token::LeftBrace] + p =~= st.push(Token::LeftBrace));
        assert(st.push(Token::LeftBrace).drop_last() =~= st);
        assert(p.reverse() =~= Seq::<Token>::empty());
    } else {
        assert(all_grammar_ops(p.drop_last())) by {
            assert(forall|i: int|
                0 <= i < p.drop_last().len() ==> (#[trigger] p.drop_last()[i]) == p[i]);
        }
        lemma_drain_to_brace_ops(st, p.drop_last());
        let whole = st + seq![Token::LeftBrace] + p;
        assert(whole.last() == p.last());
        assert(grammar_op(p.last()));
        assert(p.last() != Token::LeftBrace);
        assert(whole.drop_last() =~= st + seq![Token::LeftBrace] + p.drop_last());
        assert(p.reverse() =~= seq![p.last()] + p.drop_last().reverse());
    }
}

/// A braced or literal fragment leaves the stack exactly as it found it and
/// emits a postfix fragment that builds one value, whatever the stack holds.
proof fn lemma_atom_run(pt: Seq<(Token, i32)>, am: Seq<(Token, usize)>, a: Atom, st: Seq<Token>)
    requires
        wf_atom(a),
        priorities_default_shaped(pt),
        default_arities_registered(am),
    ensures
        exists|x: Seq<Token>|
            #[trigger] sy_run(pt, atom_infix(a), Seq::<Token>::empty(), st) == Some((x, st))
                && builds_one(am, x),
    decreases a,
{
    match a {
        Atom::Lit(v) => {
            let s = atom_infix(a);
            let x = seq![Token::ConstVal(v)];
            assert(s[0] == Token::ConstVal(v));
            assert(s.drop_first() =~= Seq::<Token>::empty());
            assert(Seq::<Token>::empty().push(Token::ConstVal(v)) =~= x);
            assert(sy_run(pt, s, Seq::<Token>::empty(), st) == sy_run(
                pt,
                Seq::<Token>::empty(),
                x,
                st,
            ));
            assert(sy_run(pt, Seq::<Token>::empty(), x, st) == Some((x, st)));
            assert(builds_one(am, x)) by {
                assert forall|d: int| d >= 0 implies depth_run(am, x, d) == Some(d + 1) by {
                    assert(assoc_arity(am, Token::ConstVal(v)) is None);
                    assert(x.drop_first() =~= Seq::<Token>::empty());
                    assert(depth_run(am, x, d) == depth_run(am, Seq::<Token>::empty(), d + 1));
                }
            }
        },
        Atom::Group(c) => {
            let s = atom_infix(a);
            let open = seq![Token::LeftBrace];
            let close = seq![Token::RightBrace];
            let tail = chain_infix(*c) + close;
            assert(s =~= open + tail);
            assert(open[0] == Token::LeftBrace);
            assert(open.drop_first() =~= Seq::<Token>::empty());
            let st1 = st.push(Token::LeftBrace);
            assert(sy_run(pt, open, Seq::<Token>::empty(), st) == sy_run(
                pt,
                Seq::<Token>::empty(),
                Seq::<Token>::empty(),
                st1,
            ));
            lemma_sy_run_append(pt, open, tail, Seq::<Token>::empty(), st);
            lemma_chain_run(pt, am, *c, st1);
            let (x1, p1) = choose|x1: Seq<Token>, p1: Seq<Token>|
                #[trigger] sy_run(pt, chain_infix(*c), Seq::<Token>::empty(), st1) == Some(
                    (x1, st1 + p1),
                ) && all_grammar_ops(p1) && all_some_prio(pt, p1) && builds_one(
                    am,
                    x1 + p1.reverse(),
                );
            lemma_sy_run_append(pt, chain_infix(*c), close, Seq::<Token>::empty(), st1);
            assert(close[0] == Token::RightBrace);
            assert(close.drop_first() =~= Seq::<Token>::empty());
            assert(st1 + p1 =~= st + seq![Token::LeftBrace] + p1);
            lemma_drain_to_brace_ops(st, p1);
            assert(sy_run(pt, close, x1, st1 + p1) == sy_run(
                pt,
                Seq::<Token>::empty(),
                x1 + p1.reverse(),
                st,
            ));
            assert(sy_run(pt, s, Seq::<Token>::empty(), st) == Some((x1 + p1.reverse(), st)));
        },
    }
}

/// A possibly negated fragment: when the stack top cannot pop before a NOT,
/// the run leaves the stack as found except for at most one pending NOT, and
/// the emitted fragment together with that NOT builds one value.
proof fn lemma_unary_run(pt: Seq<(Token, i32)>, am: Seq<(Token, usize)>, u: Unary, st: Seq<Token>)
    requires
        wf_unary(u),
        priorities_default_shaped(pt),
        default_arities_registered(am),
        st.len() == 0 || !should_pop(pt, st.last(), Token::NotOp),
    ensures
        exists|x: Seq<Token>, pend: Seq<Token>|
            #[trigger] sy_run(pt, unary_infix(u), Seq::<Token>::empty(), st) == Some(
                (x, st + pend),
            ) && all_grammar_ops(pend) && all_some_prio(pt, pend) && builds_one(
                am,
                x + pend.reverse(),
            ),
    decreases u,
{
    match u {
        Unary::Plain(a) => {
            lemma_atom_run(pt, am, a, st);
            let x = choose|x: Seq<Token>|
                #[trigger] sy_run(pt, atom_infix(a), Seq::<Token>::empty(), st) == Some((x, st))
                    && builds_one(am, x);
            let pend = Seq::<Token>::empty();
            assert(st + pend =~= st);
            assert(pend.reverse() =~= Seq::<Token>::empty());
            assert(x + pend.reverse() =~= x);
            assert(sy_run(pt, unary_infix(u), Seq::<Token>::empty(), st) == Some((x, st + pend)));
        },
        Unary::Negated(a) => {
            let s = unary_infix(u);
            let head = seq![Token::NotOp];
            assert(s =~= head + atom_infix(a));
            assert(head[0] == Token::NotOp);
            assert(head.drop_first() =~= Seq::<Token>::empty());
            assert(drain_ge(pt, st, Token::NotOp) == (Seq::<Token>::empty(), st));
            assert(Seq::<Token>::empty() + Seq::<Token>::empty() =~= Seq::<Token>::empty());
            let st1 = st.push(Token::NotOp);
            assert(sy_run(pt, head, Seq::<Token>::empty(), st) == sy_run(
                pt,
                Seq::<Token>::empty(),
                Seq::<Token>::empty(),
                st1,
            ));
            lemma_sy_run_append(pt, head, atom_infix(a), Seq::<Token>::empty(), st);
            lemma_atom_run(pt, am, a, st1);
            let x1 = choose|x1: Seq<Token>|
                #[trigger] sy_run(pt, atom_infix(a), Seq::<Token>::empty(), st1) == Some((x1, st1))
                    && builds_one(am, x1);
            let pend = seq![Token::NotOp];
            assert(st1 =~= st + pend);
            assert(sy_run(pt, s, Seq::<Token>::empty(), st) == Some((x1, st + pend)));
            assert(pend.reverse() =~= pend);
            assert(builds_one(am, x1 + pend)) by {
                assert forall|d: int| d >= 0 implies depth_run(am, x1 + pend, d) == Some(d + 1) by {
                    lemma_depth_run_append(am, x1, pend, d);
                    assert(assoc_arity(am, Token::NotOp) == Some(1usize));
                    assert(pend.drop_first() =~= Seq::<Token>::empty());
                    assert(depth_run(am, pend, d + 1) == depth_run(
                        am,
                        Seq::<Token>::empty(),
                        d + 1,
                    ));
                }
            }
            assert(x1 + pend.reverse() == x1 + pend);
        },
    }
}

/// A precedence chain, run from a brace or from the bottom of the stack:
/// whatever grouping the priorities choose, the run leaves some pending
/// operators above the stack it was given, and what it emitted followed by
/// those operators in pop order builds exactly one value.
#[verifier::rlimit(100)]
proof fn lemma_chain_run(pt: Seq<(Token, i32)>, am: Seq<(Token, usize)>, c: Chain, st: Seq<Token>)
    requires
        wf_chain(c),
        priorities_default_shaped(pt),
        default_arities_registered(am),
        st.len() == 0 || st.last() == Token::LeftBrace,
    ensures
        exists|x: Seq<Token>, p: Seq<Token>|
            #[trigger] sy_run(pt, chain_infix(c), Seq::<Token>::empty(), st) == Some((x, st + p))
                && all_grammar_ops(p) && all_some_prio(pt, p) && builds_one(am, x + p.reverse()),
    decreases c,
{
    match c {
        Chain::One(u) => {
            if st.len() > 0 {
                assert(!should_pop(pt, st.last(), Token::NotOp));
            }
            lemma_unary_run(pt, am, u, st);
        },
        Chain::More(c1, b, u) => {
            let s = chain_infix(c);
            let mid = seq![b];
            let tail = mid + unary_infix(u);
            assert(s =~= chain_infix(*c1) + tail);
            lemma_chain_run(pt, am, *c1, st);
            let (x1, p1) = choose|x1: Seq<Token>, p1: Seq<Token>|
                #[trigger] sy_run(pt, chain_infix(*c1), Seq::<Token>::empty(), st) == Some(
                    (x1, st + p1),
                ) && all_grammar_ops(p1) && all_some_prio(pt, p1) && builds_one(
                    am,
                    x1 + p1.reverse(),
                );
            lemma_sy_run_append(pt, chain_infix(*c1), tail, Seq::<Token>::empty(), st);
            // the operator pops part of the pending operators, never the brace
            assert(mid[0] == b);
            assert(mid.drop_first() =~= Seq::<Token>::empty());
            lemma_drain_ge_split(pt, st, p1, b);
            let k = choose|k: int|
                0 <= k <= p1.len() && #[trigger] drain_ge(pt, st + p1, b) == (
                    (p1.skip(k)).reverse(),
                    st + p1.take(k),
                );
            let popped = p1.skip(k).reverse();
            let kept = p1.take(k);
            let st2 = (st + kept).push(b);
            lemma_sy_run_out_prefix(pt, tail, x1, Seq::<Token>::empty(), st + p1);
            assert(x1 + Seq::<Token>::empty() =~= x1);
            assert(sy_run(pt, mid, Seq::<Token>::empty(), st + p1) == sy_run(
                pt,
                Seq::<Token>::empty(),
                Seq::<Token>::empty() + popped,
                st2,
            ));
            assert(Seq::<Token>::empty() + popped =~= popped);
            lemma_sy_run_append(pt, mid, unary_infix(u), Seq::<Token>::empty(), st + p1);
            // the right-hand fragment runs from the pushed operator
            assert(is_binary_op(b));
            assert(!should_pop(pt, b, Token::NotOp));
            assert(st2.last() == b);
            lemma_unary_run(pt, am, u, st2);
            let (x2, pend2) = choose|x2: Seq<Token>, pend2: Seq<Token>|
                #[trigger] sy_run(pt, unary_infix(u), Seq::<Token>::empty(), st2) == Some(
                    (x2, st2 + pend2),
                ) && all_grammar_ops(pend2) && all_some_prio(pt, pend2) && builds_one(
                    am,
                    x2 + pend2.reverse(),
                );
            lemma_sy_run_out_prefix(pt, unary_infix(u), popped, Seq::<Token>::empty(), st2);
            assert(popped + Seq::<Token>::empty() =~= popped);
            let x = x1 + (popped + x2);
            let p = kept.push(b) + pend2;
            assert(st2 + pend2 =~= st + p);
            assert(sy_run(pt, s, Seq::<Token>::empty(), st) == Some((x, st + p)));
            assert(all_grammar_ops(p)) by {
                assert(forall|i: int|
                    0 <= i < kept.len() ==> (#[trigger] kept[i]) == p1[i] && grammar_op(p1[i]));
                assert(forall|i: int|
                    0 <= i < p.len() ==> #[trigger] p[i] == (if i < kept.len() {
                        kept[i]
                    } else if i == kept.len() {
                        b
                    } else {
                        pend2[i - kept.len() - 1]
                    }));
            }
            assert(all_some_prio(pt, p)) by {
                assert(forall|i: int|
                    0 <= i < p.len() ==> #[trigger] p[i] == (if i < kept.len() {
                        kept[i]
                    } else if i == kept.len() {
                        b
                    } else {
                        pend2[i - kept.len() - 1]
                    }));
                assert(forall|i: int|
                    0 <= i < kept.len() ==> (assoc_priority(pt, #[trigger] kept[i])) is Some);
            }
            assert(builds_one(am, x + p.reverse())) by {
                assert(all_grammar_ops(kept)) by {
                    assert(forall|i: int|
                        0 <= i < kept.len() ==> (#[trigger] kept[i]) == p1[i] && grammar_op(
                            p1[i],
                        ));
                }
                let a1 = x1 + popped;
                let x2r = x2 + pend2.reverse();
                let target = x + p.reverse();
                assert(target =~= a1 + (x2r + (seq![b] + kept.reverse())));
                assert forall|d: int| d >= 0 implies depth_run(am, target, d) == Some(d + 1) by {
                    lemma_builds_one_split(am, x1, p1, k, d);
                    lemma_rev_ops_depth(am, kept);
                    let g1 = d + 1 + bin_count(kept);
                    assert(g1 >= 1);
                    assert(depth_run(am, a1, d) == Some(g1));
                    lemma_depth_run_append(am, a1, x2r + (seq![b] + kept.reverse()), d);
                    lemma_depth_run_append(am, x2r, seq![b] + kept.reverse(), g1);
                    assert(depth_run(am, x2r, g1) == Some(g1 + 1));
                    lemma_depth_run_append(am, seq![b], kept.reverse(), g1 + 1);
                    assert(assoc_arity(am, b) == Some(2usize));
                    assert(seq![b][0] == b);
                    assert(seq![b].drop_first() =~= Seq::<Token>::empty());
                    assert(depth_run(am, seq![b], g1 + 1) == depth_run(
                        am,
                        Seq::<Token>::empty(),
                        g1,
                    ));
                    lemma_depth_shift(am, kept.reverse(), 1 + bin_count(kept), d);
                    assert(depth_run(am, kept.reverse(), g1) == Some(1 + d));
                }
            }
        },
    }
}

/// Every well-formed expression evaluates to a single byte under the default
/// rule set: whatever mix of precedence chains, NOT and braces the expression
/// uses, the shunting yard accepts it, its postfix form reduces to exactly
/// one value, and `evaluate` on any text that tokenizes to it returns `Ok`.
pub proof fn lemma_chain_expression_evaluates(
    lt: Seq<(Seq<char>, Token)>,
    pt: Seq<(Token, i32)>,
    at: Seq<(Token, usize)>,
    text: Seq<char>,
    c: Chain,
    r: Result<u8, EvalError>,
)
    requires
        wf_chain(c),
        priorities_default_shaped(pt),
        arities_match_default(at),
        default_arities_registered(at),
        tokenize_spec(lt, text) == Ok::<Seq<Token>, Seq<char>>(chain_infix(c)),
        evaluate_post::<DefaultOps>(lt, pt, at, text, r),
    ensures
        r is Ok,
{
    lemma_chain_run(pt, at, c, Seq::<Token>::empty());
    let (x, p) = choose|x: Seq<Token>, p: Seq<Token>|
        #[trigger] sy_run(pt, chain_infix(c), Seq::<Token>::empty(), Seq::<Token>::empty())
            == Some((x, Seq::<Token>::empty() + p)) && all_grammar_ops(p) && all_some_prio(pt, p)
            && builds_one(at, x + p.reverse());
    assert(Seq::<Token>::empty() + p =~= p);
    assert(parse_spec(pt, chain_infix(c)) == Some(x + p.reverse()));
    assert(depth_run(at, x + p.reverse(), 0) == Some(1int));
    lemma_wellformed_expression_evaluates(lt, pt, at, text, r);
}

/// Every expression text that lexes, restructures, and yields a well-formed
/// postfix sequence evaluates to a single byte under the default rule set:
/// `evaluate` returns `Ok`, and by its contract `Ok` comes only from a
/// reduction that ends with exactly one value on the operand stack.
pub proof fn lemma_wellformed_expression_evaluates(
    lt: Seq<(Seq<char>, Token)>,
    pt: Seq<(Token, i32)>,
    at: Seq<(Token, usize)>,
    text: Seq<char>,
    r: Result<u8, EvalError>,
)
    requires
        arities_match_default(at),
        tokenize_spec(lt, text) matches Ok(infix) && parse_spec(pt, infix) matches Some(post)
            && depth_run(at, post, 0) == Some(1int),
        evaluate_post::<DefaultOps>(lt, pt, at, text, r),
    ensures
        r is Ok,
{
    let infix = tokenize_spec(lt, text)->Ok_0;
    let post = parse_spec(pt, infix)->Some_0;
    lemma_wellformed_postfix_evaluates(at, post, Seq::<u8>::empty());
}

} // verus!
