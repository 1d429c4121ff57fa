//! Lexical analysis: turning an expression string into a sequence of tokens.
//!
//! Tokenization has two phases. Segmentation scans the text left to right:
//! whitespace separates and is dropped, lower-case hex digits are grouped
//! greedily into maximal runs, and every other character forms a segment of
//! its own. Classification looks each segment up in the configured
//! literal-to-token table and otherwise reads it as a base-16 single-byte
//! literal; a segment that is neither fails with a lexical error naming it.

use vstd::prelude::*;
use vstd::string::*;

use crate::token::Token;

verus! {

/// A lexical error: the offending segment, verbatim.
#[derive(Clone, PartialEq, Eq, Debug)]
pub struct LexError {
    pub segment: String,
}

/// A character that extends a numeric-run segment during segmentation.
pub open spec fn is_hex_run_char(c: char) -> bool {
    ('0' <= c && c <= '9') || ('a' <= c && c <= 'f')
}

/// Segmentation as a state machine over the remaining input: `acc` holds the
/// segments formed so far and `reading` says whether the last of them is a
/// numeric run still in progress.
pub open spec fn split_state(s: Seq<char>, acc: Seq<Seq<char>>, reading: bool) -> (Seq<
    Seq<char>,
>, bool)
    decreases s.len(),
{
    if s.len() == 0 {
        (acc, reading)
    } else {
        let c = s[0];
        let rest = s.drop_first();
        if c == ' ' {
            split_state(rest, acc, false)
        } else if is_hex_run_char(c) {
            if reading {
                split_state(rest, acc.update(acc.len() - 1, acc.last().push(c)), true)
            } else {
                split_state(rest, acc.push(seq![c]), true)
            }
        } else {
            split_state(rest, acc.push(seq![c]), false)
        }
    }
}

/// The segments of an expression string.
pub open spec fn split_spec(s: Seq<char>) -> Seq<Seq<char>> {
    split_state(s, seq![], false).0
}

/// The views of a vector of segment strings.
pub open spec fn seg_views(v: Seq<String>) -> Seq<Seq<char>> {
    v.map_values(|s: String| s@)
}

/// The value of one hex digit; 16 marks a character that is not a hex digit.
pub open spec fn hex_digit_val(c: char) -> int {
    if '0' <= c && c <= '9' {
        c as int - '0' as int
    } else if 'a' <= c && c <= 'f' {
        10 + c as int - 'a' as int
    } else if 'A' <= c && c <= 'F' {
        10 + c as int - 'A' as int
    } else {
        16
    }
}

pub open spec fn is_hex_digit(c: char) -> bool {
    hex_digit_val(c) < 16
}

pub open spec fn all_hex_digits(s: Seq<char>) -> bool {
    forall|i: int| 0 <= i < s.len() ==> is_hex_digit(#[trigger] s[i])
}

/// The numeric value of a string of hex digits, most significant first.
pub open spec fn hex_num(s: Seq<char>) -> int
    decreases s.len(),
{
    if s.len() == 0 {
        0
    } else {
        16 * hex_num(s.drop_last()) + hex_digit_val(s.last())
    }
}

/// What a segment denotes as a byte literal: a nonempty string of hex digits
/// whose value fits in one byte, and nothing else.
pub open spec fn hex_byte_of(s: Seq<char>) -> Option<u8> {
    if s.len() > 0 && all_hex_digits(s) && hex_num(s) < 256 {
        Some(hex_num(s) as u8)
    } else {
        None
    }
}

/// Lookup in the literal-to-token table; on duplicate keys the entry added
/// last wins, as for a map built by repeated insertion.
pub open spec fn assoc_token(m: Seq<(Seq<char>, Token)>, key: Seq<char>) -> Option<Token>
    decreases m.len(),
{
    if m.len() == 0 {
        None
    } else if m.last().0 == key {
        Some(m.last().1)
    } else {
        assoc_token(m.drop_last(), key)
    }
}

/// What a segment denotes: a registered literal first, else a byte literal.
pub open spec fn classify(m: Seq<(Seq<char>, Token)>, seg: Seq<char>) -> Option<Token> {
    match assoc_token(m, seg) {
        Some(t) => Some(t),
        None => match hex_byte_of(seg) {
            Some(v) => Some(Token::ConstVal(v)),
            None => None,
        },
    }
}

/// The tokens of a segment sequence, or the first segment that denotes
/// nothing.
pub open spec fn tokens_of(m: Seq<(Seq<char>, Token)>, segs: Seq<Seq<char>>) -> Result<
    Seq<Token>,
    Seq<char>,
>
    decreases segs.len(),
{
    if segs.len() == 0 {
        Ok(Seq::empty())
    } else {
        match classify(m, segs[0]) {
            None => Err(segs[0]),
            Some(t) => match tokens_of(m, segs.drop_first()) {
                Ok(ts) => Ok(seq![t] + ts),
                Err(e) => Err(e),
            },
        }
    }
}

/// The whole lexing stage: segmentation followed by classification.
pub open spec fn tokenize_spec(m: Seq<(Seq<char>, Token)>, text: Seq<char>) -> Result<
    Seq<Token>,
    Seq<char>,
> {
    tokens_of(m, split_spec(text))
}

/// Relies on String::push: appends the given character to the end.
#[verifier::external_body]
fn push_char(s: &mut String, c: char)
    ensures
        final(s)@ == old(s)@.push(c),
{
    s.push(c);
}

/// The configured mapping from literal segments to operator and brace tokens.
pub struct LiteralMap {
    pairs: Vec<(String, Token)>,
}

impl View for LiteralMap {
    type V = Seq<(Seq<char>, Token)>;

    closed spec fn view(&self) -> Seq<(Seq<char>, Token)> {
        self.pairs@.map_values(|p: (String, Token)| (p.0@, p.1))
    }
}

impl LiteralMap {
    /// An empty table.
    pub fn new() -> (r: Self)
        ensures
            r@ == Seq::<(Seq<char>, Token)>::empty(),
    {
        let r = LiteralMap { pairs: Vec::new() };
        proof {
            assert(r@ =~= Seq::<(Seq<char>, Token)>::empty());
        }
        r
    }

    /// Registers a literal; a later entry for the same key shadows an earlier
    /// one under `assoc_token`.
    pub fn insert(&mut self, key: String, token: Token)
        ensures
            final(self)@ == old(self)@.push((key@, token)),
    {
        let ghost before = self@;
        let ghost keyv = key@;
        self.pairs.push((key, token));
        proof {
            assert(final(self)@ =~= before.push((keyv, token)));
        }
    }

    /// Looks a segment up in the table.
    fn get(&self, key: &str) -> (r: Option<Token>)
        ensures
            r == assoc_token(self@, key@),
    {
        let k = key.to_owned();
        let mut i = self.pairs.len();
        proof {
            assert(self@.take(i as int) =~= self@);
        }
        while i > 0
            invariant
                i <= self.pairs.len(),
                k@ == key@,
                assoc_token(self@, key@) == assoc_token(self@.take(i as int), key@),
            decreases i,
        {
            i = i - 1;
            proof {
                assert(self@.take(i + 1).last() == self@[i as int]);
                assert(self@.take(i + 1).drop_last() =~= self@.take(i as int));
            }
            if self.pairs[i].0 == k {
                proof {
                    assert(self@[i as int].0 == key@);
                }
                return Some(self.pairs[i].1);
            }
            proof {
                assert(self@[i as int].0 != key@);
            }
        }
        proof {
            assert(self@.take(0) =~= Seq::<(Seq<char>, Token)>::empty());
        }
        None
    }
}

/// A nonempty all-digit string has a nonnegative value.
proof fn lemma_hex_num_nonneg(s: Seq<char>)
    requires
        all_hex_digits(s),
    ensures
        hex_num(s) >= 0,
    decreases s.len(),
{
    if s.len() > 0 {
        assert(all_hex_digits(s.drop_last()));
        lemma_hex_num_nonneg(s.drop_last());
        assert(hex_digit_val(s.last()) >= 0);
    }
}

/// Extending an all-digit string never decreases its value.
proof fn lemma_hex_num_prefix_le(s: Seq<char>, j: int)
    requires
        all_hex_digits(s),
        0 <= j <= s.len(),
    ensures
        hex_num(s.take(j)) <= hex_num(s),
    decreases s.len() - j,
{
    if j == s.len() {
        assert(s.take(j) =~= s);
    } else {
        assert(s.take(j + 1).drop_last() =~= s.take(j));
        assert(s.take(j + 1).last() == s[j]);
        assert(all_hex_digits(s.take(j)));
        lemma_hex_num_nonneg(s.take(j));
        assert(hex_num(s.take(j + 1)) == 16 * hex_num(s.take(j)) + hex_digit_val(s[j]));
        assert(hex_num(s.take(j)) <= hex_num(s.take(j + 1)));
        lemma_hex_num_prefix_le(s, j + 1);
    }
}

/// Reads a segment as a base-16 single-byte literal, if it is one.
fn parse_hex_byte(seg: &str) -> (r: Option<u8>)
    ensures
        r == hex_byte_of(seg@),
{
    let len = seg.unicode_len();
    if len == 0 {
        return None;
    }
    let mut acc: u32 = 0;
    let mut i: usize = 0;
    while i < len
        invariant
            i <= len,
            len == seg@.len(),
            all_hex_digits(seg@.take(i as int)),
            acc == hex_num(seg@.take(i as int)),
            acc < 256,
        decreases len - i,
    {
        let c = seg.get_char(i);
        let d: u32 = if '0' <= c && c <= '9' {
            c as u32 - 48
        } else if 'a' <= c && c <= 'f' {
            c as u32 - 97 + 10
        } else if 'A' <= c && c <= 'F' {
            c as u32 - 65 + 10
        } else {
            proof {
                assert(!is_hex_digit(seg@[i as int]));
            }
            return None;
        };
        proof {
            assert(d == hex_digit_val(seg@[i as int]));
            assert(seg@.take(i + 1).drop_last() =~= seg@.take(i as int));
            assert(seg@.take(i + 1).last() == seg@[i as int]);
        }
        let next = acc * 16 + d;
        if next > 255 {
            proof {
                if all_hex_digits(seg@) {
                    lemma_hex_num_prefix_le(seg@, i + 1);
                }
            }
            return None;
        }
        acc = next;
        i = i + 1;
    }
    proof {
        assert(seg@.take(len as int) =~= seg@);
    }
    Some(acc as u8)
}

/// The tokenizer: the literal-to-token table together with segmentation and
/// classification.
pub struct Lexer {
    literal_token_map: LiteralMap,
}

impl View for Lexer {
    type V = Seq<(Seq<char>, Token)>;

    closed spec fn view(&self) -> Seq<(Seq<char>, Token)> {
        self.literal_token_map@
    }
}

impl Lexer {
    pub fn new(literal_token_map: LiteralMap) -> (r: Self)
        ensures
            r@ == literal_token_map@,
    {
        Lexer { literal_token_map }
    }

    /// Segments the expression text: hex-digit runs are grouped greedily,
    /// every other non-space character stands alone, spaces separate.
    pub fn split(expr: &str) -> (r: Vec<String>)
        ensures
            seg_views(r@) == split_spec(expr@),
    {
        let len = expr.unicode_len();
        let mut segs: Vec<String> = Vec::new();
        let mut cur = String::new();
        let mut reading = false;
        let mut i: usize = 0;
        proof {
            assert(seg_views(segs@) =~= Seq::<Seq<char>>::empty());
            assert(expr@.skip(0) =~= expr@);
        }
        while i < len
            invariant
                i <= len,
                len == expr@.len(),
                !reading ==> cur@ == Seq::<char>::empty(),
                split_state(expr@, seq![], false) == split_state(
                    expr@.skip(i as int),
                    if reading {
                        seg_views(segs@).push(cur@)
                    } else {
                        seg_views(segs@)
                    },
                    reading,
                ),
            decreases len - i,
        {
            let ghost pre = expr@.skip(i as int);
            let ghost acc = if reading {
                seg_views(segs@).push(cur@)
            } else {
                seg_views(segs@)
            };
            let c = expr.get_char(i);
            proof {
                assert(pre[0] == expr@[i as int]);
                assert(pre.drop_first() =~= expr@.skip(i as int + 1));
            }
            if c == ' ' {
                if reading {
                    segs.push(cur);
                    cur = String::new();
                    reading = false;
                    proof {
                        assert(seg_views(segs@) =~~= acc);
                    }
                }
            } else if ('0' <= c && c <= '9') || ('a' <= c && c <= 'f') {
                if reading {
                    push_char(&mut cur, c);
                    proof {
                        assert(seg_views(segs@).push(cur@) =~~= acc.update(
                            acc.len() - 1,
                            acc.last().push(c),
                        ));
                    }
                } else {
                    push_char(&mut cur, c);
                    reading = true;
                    proof {
                        assert(cur@ =~= seq![c]);
                        assert(seg_views(segs@).push(cur@) =~~= acc.push(seq![c]));
                    }
                }
            } else {
                if reading {
                    segs.push(cur);
                    cur = String::new();
                    reading = false;
                }
                let mut one = String::new();
                push_char(&mut one, c);
                segs.push(one);
                proof {
                    assert(seg_views(segs@) =~~= acc.push(seq![c]));
                }
            }
            i = i + 1;
        }
        proof {
            assert(expr@.skip(len as int) =~= Seq::<char>::empty());
        }
        if reading {
            segs.push(cur);
            proof {
                assert(seg_views(segs@) =~~= split_spec(expr@));
            }
        }
        segs
    }

    /// Classifies one segment: a registered literal, else a byte literal,
    /// else a lexical error naming the segment.
    pub fn try_token_from(&self, token_str: &str) -> (r: Result<Token, LexError>)
        ensures
            match classify(self@, token_str@) {
                Some(t) => r == Ok::<Token, LexError>(t),
                None => r matches Err(e) && e.segment@ == token_str@,
            },
    {
        match self.literal_token_map.get(token_str) {
            Some(t) => Ok(t),
            None => match parse_hex_byte(token_str) {
                Some(v) => Ok(Token::ConstVal(v)),
                None => Err(LexError { segment: token_str.to_owned() }),
            },
        }
    }

    /// Tokenizes an expression string: returns the token of every segment in
    /// order, or the lexical error for the first segment that denotes no
    /// token.
    pub fn tokenize(&self, expr: &str) -> (r: Result<Vec<Token>, LexError>)
        ensures
            match tokenize_spec(self@, expr@) {
                Ok(ts) => r matches Ok(v) && v@ == ts,
                Err(seg) => r matches Err(e) && e.segment@ == seg,
            },
    {
        let segs = Self::split(expr);
        let ghost segviews = seg_views(segs@);
        let mut tokens: Vec<Token> = Vec::new();
        let mut i: usize = 0;
        proof {
            assert(segviews.skip(0) =~= segviews);
        }
        while i < segs.len()
            invariant
                i <= segs.len(),
                segviews == seg_views(segs@),
                segviews == split_spec(expr@),
                tokens_of(self@, segviews) == match tokens_of(self@, segviews.skip(i as int)) {
                    Ok(ts) => Ok::<Seq<Token>, Seq<char>>(tokens@ + ts),
                    Err(e) => Err::<Seq<Token>, Seq<char>>(e),
                },
            decreases segs.len() - i,
        {
            let ghost rest = segviews.skip(i as int);
            proof {
                assert(rest[0] == segviews[i as int]);
                assert(rest.drop_first() =~= segviews.skip(i as int + 1));
            }
            let ghost before = tokens@;
            proof {
                assert(segviews[i as int] == segs@[i as int]@);
                assert(tokenize_spec(self@, expr@) == tokens_of(self@, segviews));
            }
            match self.try_token_from(segs[i].as_str()) {
                Ok(t) => {
                    proof {
                        assert(classify(self@, rest[0]) == Some(t));
                    }
                    tokens.push(t);
                    proof {
                        if tokens_of(self@, rest.drop_first()) is Ok {
                            let ts2 = tokens_of(self@, rest.drop_first())->Ok_0;
                            assert(tokens_of(self@, rest) == Ok::<Seq<Token>, Seq<char>>(
                                seq![t] + ts2,
                            ));
                            assert(before + (seq![t] + ts2) =~= tokens@ + ts2);
                        } else {
                            assert(tokens_of(self@, rest) == tokens_of(
                                self@,
                                rest.drop_first(),
                            ));
                        }
                    }
                },
                Err(e) => {
                    proof {
                        assert(classify(self@, rest[0]) is None);
                        assert(tokens_of(self@, rest) == Err::<Seq<Token>, Seq<char>>(rest[0]));
                        assert(tokens_of(self@, segviews) == Err::<Seq<Token>, Seq<char>>(
                            rest[0],
                        ));
                    }
                    return Err(e);
                },
            }
            i = i + 1;
        }
        proof {
            assert(segviews.skip(segs@.len() as int) =~= Seq::<Seq<char>>::empty());
            assert(tokens@ + Seq::<Token>::empty() =~= tokens@);
        }
        Ok(tokens)
    }
}

/// The lower-case hex digit for a value below sixteen.
pub open spec fn hex_digit_char(d: int) -> char {
    if d == 0 {
        '0'
    } else if d == 1 {
        '1'
    } else if d == 2 {
        '2'
    } else if d == 3 {
        '3'
    } else if d == 4 {
        '4'
    } else if d == 5 {
        '5'
    } else if d == 6 {
        '6'
    } else if d == 7 {
        '7'
    } else if d == 8 {
        '8'
    } else if d == 9 {
        '9'
    } else if d == 10 {
        'a'
    } else if d == 11 {
        'b'
    } else if d == 12 {
        'c'
    } else if d == 13 {
        'd'
    } else if d == 14 {
        'e'
    } else {
        'f'
    }
}

/// The display text of a byte literal: exactly two lower-case hex digits.
pub open spec fn const_text(v: u8) -> Seq<char> {
    seq![hex_digit_char(v as int / 16), hex_digit_char(v as int % 16)]
}

/// The registered text of a token: the key of the entry added last whose
/// value is the token.
pub open spec fn key_for(m: Seq<(Seq<char>, Token)>, t: Token) -> Option<Seq<char>>
    decreases m.len(),
{
    if m.len() == 0 {
        None
    } else if m.last().1 == t {
        Some(m.last().0)
    } else {
        key_for(m.drop_last(), t)
    }
}

/// The display text of one token: two hex digits for a literal operand, the
/// registered literal for anything else.
pub open spec fn token_text_spec(m: Seq<(Seq<char>, Token)>, t: Token) -> Option<Seq<char>> {
    match t {
        Token::ConstVal(v) => Some(const_text(v)),
        _ => key_for(m, t),
    }
}

/// The display text of a token sequence: each token's text followed by one
/// separating space, or nothing when some token has no registered text.
pub open spec fn text_of_spec(m: Seq<(Seq<char>, Token)>, ts: Seq<Token>) -> Option<Seq<char>>
    decreases ts.len(),
{
    if ts.len() == 0 {
        Some(seq![])
    } else {
        match token_text_spec(m, ts[0]) {
            None => None,
            Some(x) => match text_of_spec(m, ts.drop_first()) {
                None => None,
                Some(r) => Some(x + seq![' '] + r),
            },
        }
    }
}

/// Every key of the table is a single character that neither separates
/// segments nor extends a numeric run, so each key comes back out of
/// segmentation as a segment of its own.
pub open spec fn keys_single_symbol(m: Seq<(Seq<char>, Token)>) -> bool {
    forall|i: int|
        0 <= i < m.len() ==> (#[trigger] m[i]).0.len() == 1 && m[i].0[0] != ' '
            && !is_hex_run_char(m[i].0[0])
}

/// No two entries of the table share a key.
pub open spec fn keys_distinct(m: Seq<(Seq<char>, Token)>) -> bool {
    forall|i: int, j: int| 0 <= i < j < m.len() ==> (#[trigger] m[i]).0 != (#[trigger] m[j]).0
}

/// Every token of the sequence has a display text under the table: it is a
/// byte literal or a registered literal token.
pub open spec fn representable(m: Seq<(Seq<char>, Token)>, ts: Seq<Token>) -> bool {
    forall|k: int|
        0 <= k < ts.len() ==> (#[trigger] ts[k]) is ConstVal || key_for(m, ts[k]) is Some
}

/// The display texts of the tokens of a representable sequence, one segment
/// each.
pub open spec fn texts_list(m: Seq<(Seq<char>, Token)>, ts: Seq<Token>) -> Seq<Seq<char>> {
    ts.map_values(|t: Token| token_text_spec(m, t)->Some_0)
}

/// The lower-case hex digit for a value below sixteen.
fn hex_digit(d: u8) -> (c: char)
    requires
        d < 16,
    ensures
        c == hex_digit_char(d as int),
{
    match d {
        0 => '0',
        1 => '1',
        2 => '2',
        3 => '3',
        4 => '4',
        5 => '5',
        6 => '6',
        7 => '7',
        8 => '8',
        9 => '9',
        10 => 'a',
        11 => 'b',
        12 => 'c',
        13 => 'd',
        14 => 'e',
        _ => 'f',
    }
}

impl Lexer {
    /// The display text of one token: two lower-case hex digits for a
    /// literal operand, the registered literal for an operator or a brace,
    /// or nothing for a token the table does not know.
    pub fn token_text(&self, t: &Token) -> (r: Option<String>)
        ensures
            match token_text_spec(self@, *t) {
                Some(x) => r matches Some(s) && s@ == x,
                None => r is None,
            },
    {
        match t {
            Token::ConstVal(v) => {
                let mut s = String::new();
                push_char(&mut s, hex_digit(*v / 16));
                push_char(&mut s, hex_digit(*v % 16));
                proof {
                    assert(s@ =~= const_text(*v));
                }
                Some(s)
            },
            _ => self.literal_token_map.key_of(t),
        }
    }

    /// The display text of a token sequence: each token's text followed by a
    /// separating space, or nothing when some token has no text.
    pub fn to_text(&self, tokens: &Vec<Token>) -> (r: Option<String>)
        ensures
            match text_of_spec(self@, tokens@) {
                Some(x) => r matches Some(s) && s@ == x,
                None => r is None,
            },
    {
        let mut out = String::new();
        let mut i: usize = 0;
        proof {
            assert(tokens@.skip(0) =~= tokens@);
        }
        while i < tokens.len()
            invariant
                i <= tokens.len(),
                text_of_spec(self@, tokens@) == match text_of_spec(
                    self@,
                    tokens@.skip(i as int),
                ) {
                    None => None::<Seq<char>>,
                    Some(x) => Some(out@ + x),
                },
            decreases tokens.len() - i,
        {
            let ghost rest = tokens@.skip(i as int);
            proof {
                assert(rest[0] == tokens@[i as int]);
                assert(rest.drop_first() =~= tokens@.skip(i as int + 1));
            }
            match self.token_text(&tokens[i]) {
                None => {
                    return None;
                },
                Some(txt) => {
                    out.append(txt.as_str());
                    out.append(" ");
                    proof {
                        reveal_strlit(" ");
                        assert(" "@ =~= seq![' ']);
                        if text_of_spec(self@, rest.drop_first()) is Some {
                            let x = token_text_spec(self@, rest[0])->Some_0;
                            let r2 = text_of_spec(self@, rest.drop_first())->Some_0;
                            assert(out@ + r2 =~= (out@.subrange(
                                0,
                                out@.len() - x.len() - 1,
                            ) + (x + seq![' '] + r2)));
                        }
                    }
                },
            }
            i = i + 1;
        }
        proof {
            assert(tokens@.skip(tokens@.len() as int) =~= Seq::<Token>::empty());
            assert(out@ + Seq::<char>::empty() =~= out@);
        }
        Some(out)
    }
}

impl LiteralMap {
    /// The key of the entry added last whose value is the given token.
    fn key_of(&self, t: &Token) -> (r: Option<String>)
        ensures
            match key_for(self@, *t) {
                Some(x) => r matches Some(s) && s@ == x,
                None => r is None,
            },
    {
        let mut i = self.pairs.len();
        proof {
            assert(self@.take(i as int) =~= self@);
        }
        while i > 0
            invariant
                i <= self.pairs.len(),
                key_for(self@, *t) == key_for(self@.take(i as int), *t),
            decreases i,
        {
            i = i - 1;
            proof {
                assert(self@.take(i + 1).last() == self@[i as int]);
                assert(self@.take(i + 1).drop_last() =~= self@.take(i as int));
            }
            if self.pairs[i].1 == *t {
                let s = self.pairs[i].0.clone();
                return Some(s);
            }
        }
        proof {
            assert(self@.take(0) =~= Seq::<(Seq<char>, Token)>::empty());
        }
        None
    }
}

/// Segmentation distributes over concatenation of the input.
proof fn lemma_split_state_append(s1: Seq<char>, s2: Seq<char>, acc: Seq<Seq<char>>, rd: bool)
    ensures
        split_state(s1 + s2, acc, rd) == split_state(
            s2,
            split_state(s1, acc, rd).0,
            split_state(s1, acc, rd).1,
        ),
    decreases s1.len(),
{
    if s1.len() == 0 {
        assert(s1 + s2 =~= s2);
    } else {
        assert((s1 + s2)[0] == s1[0]);
        assert((s1 + s2).drop_first() =~= s1.drop_first() + s2);
        let c = s1[0];
        if c == ' ' {
            lemma_split_state_append(s1.drop_first(), s2, acc, false);
        } else if is_hex_run_char(c) {
            if rd {
                lemma_split_state_append(
                    s1.drop_first(),
                    s2,
                    acc.update(acc.len() - 1, acc.last().push(c)),
                    true,
                );
            } else {
                lemma_split_state_append(s1.drop_first(), s2, acc.push(seq![c]), true);
            }
        } else {
            lemma_split_state_append(s1.drop_first(), s2, acc.push(seq![c]), false);
        }
    }
}

/// A single symbol followed by a space comes out of segmentation as one
/// segment of its own.
proof fn lemma_split_single(c: char, acc: Seq<Seq<char>>)
    requires
        c != ' ',
        !is_hex_run_char(c),
    ensures
        split_state(seq![c, ' '], acc, false) == (acc.push(seq![c]), false),
{
    let s = seq![c, ' '];
    assert(s[0] == c);
    assert(s.drop_first() =~= seq![' ']);
    assert(seq![' '][0] == ' ');
    assert(seq![' '].drop_first() =~= Seq::<char>::empty());
    assert(split_state(s, acc, false) == split_state(seq![' '], acc.push(seq![c]), false));
    assert(split_state(seq![' '], acc.push(seq![c]), false) == split_state(
        Seq::<char>::empty(),
        acc.push(seq![c]),
        false,
    ));
}

/// Two hex digits followed by a space come out of segmentation as one
/// two-character segment.
proof fn lemma_split_hex2(c1: char, c2: char, acc: Seq<Seq<char>>)
    requires
        is_hex_run_char(c1),
        is_hex_run_char(c2),
    ensures
        split_state(seq![c1, c2, ' '], acc, false) == (acc.push(seq![c1, c2]), false),
{
    let s = seq![c1, c2, ' '];
    let acc1 = acc.push(seq![c1]);
    assert(s[0] == c1);
    assert(s.drop_first() =~= seq![c2, ' ']);
    assert(split_state(s, acc, false) == split_state(seq![c2, ' '], acc1, true));
    assert(seq![c2, ' '][0] == c2);
    assert(seq![c2, ' '].drop_first() =~= seq![' ']);
    assert(acc1.last() =~= seq![c1]);
    assert(acc1.update(acc1.len() - 1, acc1.last().push(c2)) =~~= acc.push(seq![c1, c2]));
    assert(split_state(seq![c2, ' '], acc1, true) == split_state(
        seq![' '],
        acc.push(seq![c1, c2]),
        true,
    ));
    assert(seq![' '][0] == ' ');
    assert(seq![' '].drop_first() =~= Seq::<char>::empty());
    assert(split_state(seq![' '], acc.push(seq![c1, c2]), true) == split_state(
        Seq::<char>::empty(),
        acc.push(seq![c1, c2]),
        false,
    ));
}

/// A key that `key_for` returns belongs to an entry of the table whose value
/// is the token.
proof fn lemma_key_for_is_entry(m: Seq<(Seq<char>, Token)>, t: Token)
    requires
        key_for(m, t) is Some,
    ensures
        exists|i: int|
            0 <= i < m.len() && (#[trigger] m[i]).0 == key_for(m, t)->Some_0 && m[i].1 == t,
    decreases m.len(),
{
    if m.last().1 == t {
        assert(m[m.len() - 1].0 == key_for(m, t)->Some_0 && m[m.len() - 1].1 == t);
    } else {
        lemma_key_for_is_entry(m.drop_last(), t);
        let i = choose|i: int|
            0 <= i < m.drop_last().len() && (#[trigger] m.drop_last()[i]).0 == key_for(
                m.drop_last(),
                t,
            )->Some_0 && m.drop_last()[i].1 == t;
        assert(m[i].0 == key_for(m, t)->Some_0 && m[i].1 == t);
    }
}

/// Under distinct keys, looking the registered text of a token back up gives
/// the token itself.
proof fn lemma_key_back(m: Seq<(Seq<char>, Token)>, t: Token)
    requires
        keys_distinct(m),
        key_for(m, t) is Some,
    ensures
        assoc_token(m, key_for(m, t)->Some_0) == Some(t),
    decreases m.len(),
{
    let k = key_for(m, t)->Some_0;
    if m.last().1 == t {
        assert(assoc_token(m, k) == Some(m.last().1));
    } else {
        assert(keys_distinct(m.drop_last())) by {
            assert(forall|i: int, j: int|
                0 <= i < j < m.drop_last().len() ==> (#[trigger] m.drop_last()[i]).0 != (
                #[trigger] m.drop_last()[j]).0);
        }
        lemma_key_back(m.drop_last(), t);
        lemma_key_for_is_entry(m.drop_last(), t);
        let i = choose|i: int|
            0 <= i < m.drop_last().len() && (#[trigger] m.drop_last()[i]).0 == k
                && m.drop_last()[i].1 == t;
        assert(m[i].0 == k);
        assert(m[i].0 != m[m.len() - 1].0);
        assert(m.last().0 != k);
    }
}

/// Under single-symbol keys, no segment of another length is a registered
/// literal.
proof fn lemma_assoc_none_other_len(m: Seq<(Seq<char>, Token)>, s: Seq<char>)
    requires
        keys_single_symbol(m),
        s.len() != 1,
    ensures
        assoc_token(m, s) is None,
    decreases m.len(),
{
    if m.len() > 0 {
        assert(m[m.len() - 1].0.len() == 1);
        assert(keys_single_symbol(m.drop_last())) by {
            assert(forall|i: int|
                0 <= i < m.drop_last().len() ==> (#[trigger] m.drop_last()[i]) == m[i]);
        }
        lemma_assoc_none_other_len(m.drop_last(), s);
    }
}

/// A hex digit's character reads back as its value.
proof fn lemma_hex_digit_roundtrip(d: int)
    requires
        0 <= d < 16,
    ensures
        hex_digit_val(hex_digit_char(d)) == d,
        is_hex_run_char(hex_digit_char(d)),
{
}

/// Under single-symbol keys, the two-digit text of a byte literal classifies
/// back to the literal itself.
proof fn lemma_const_classifies(m: Seq<(Seq<char>, Token)>, v: u8)
    requires
        keys_single_symbol(m),
    ensures
        classify(m, const_text(v)) == Some(Token::ConstVal(v)),
{
    let x = const_text(v);
    lemma_assoc_none_other_len(m, x);
    lemma_hex_digit_roundtrip(v as int / 16);
    lemma_hex_digit_roundtrip(v as int % 16);
    assert(x.drop_last() =~= seq![hex_digit_char(v as int / 16)]);
    assert(x.last() == hex_digit_char(v as int % 16));
    let single = seq![hex_digit_char(v as int / 16)];
    assert(single.drop_last() =~= Seq::<char>::empty());
    assert(single.last() == hex_digit_char(v as int / 16));
    assert(hex_num(Seq::<char>::empty()) == 0);
    assert(hex_num(single) == hex_digit_val(hex_digit_char(v as int / 16)));
    assert(hex_num(x) == 16 * (v as int / 16) + (v as int % 16));
    assert(16 * (v as int / 16) + (v as int % 16) == v as int);
    assert(all_hex_digits(x));
    assert(hex_byte_of(x) == Some(v));
}

/// The display text of a representable token sequence exists and segments
/// back into exactly one segment per token: each token's own text.
proof fn lemma_text_splits(m: Seq<(Seq<char>, Token)>, ts: Seq<Token>, acc: Seq<Seq<char>>)
    requires
        keys_single_symbol(m),
        representable(m, ts),
    ensures
        text_of_spec(m, ts) is Some,
        split_state(text_of_spec(m, ts)->Some_0, acc, false) == (acc + texts_list(m, ts), false),
    decreases ts.len(),
{
    if ts.len() == 0 {
        assert(text_of_spec(m, ts) == Some(Seq::<char>::empty()));
        assert(acc + texts_list(m, ts) =~= acc);
    } else {
        let t = ts[0];
        assert(token_text_spec(m, t) is Some);
        let x = token_text_spec(m, t)->Some_0;
        assert(representable(m, ts.drop_first())) by {
            assert(forall|k: int|
                0 <= k < ts.drop_first().len() ==> (#[trigger] ts.drop_first()[k]) == ts[k + 1]);
        }
        lemma_text_splits(m, ts.drop_first(), acc.push(x));
        let rest_text = text_of_spec(m, ts.drop_first())->Some_0;
        let text = text_of_spec(m, ts)->Some_0;
        assert(text =~= (x + seq![' ']) + rest_text);
        match t {
            Token::ConstVal(v) => {
                lemma_hex_digit_roundtrip(v as int / 16);
                lemma_hex_digit_roundtrip(v as int % 16);
                assert(x + seq![' '] =~= seq![x[0], x[1], ' ']);
                lemma_split_hex2(x[0], x[1], acc);
                assert(seq![x[0], x[1]] =~= x);
                assert(acc.push(seq![x[0], x[1]]) == acc.push(x));
            },
            _ => {
                lemma_key_for_is_entry(m, t);
                let i = choose|i: int|
                    0 <= i < m.len() && (#[trigger] m[i]).0 == x && m[i].1 == t;
                assert(x.len() == 1 && x[0] != ' ' && !is_hex_run_char(x[0]));
                assert(x + seq![' '] =~= seq![x[0], ' ']);
                lemma_split_single(x[0], acc);
                assert(seq![x[0]] =~= x);
                assert(acc.push(seq![x[0]]) == acc.push(x));
            },
        }
        assert(split_state(x + seq![' '], acc, false) == (acc.push(x), false));
        lemma_split_state_append(x + seq![' '], rest_text, acc, false);
        assert(split_state(text, acc, false) == split_state(rest_text, acc.push(x), false));
        assert(acc.push(x) + texts_list(m, ts.drop_first()) =~~= acc + texts_list(m, ts)) by {
            assert(texts_list(m, ts).len() == ts.len());
            assert(texts_list(m, ts)[0] == x);
            assert(forall|k: int|
                0 <= k < ts.drop_first().len() ==> #[trigger] texts_list(m, ts.drop_first())[k]
                    == texts_list(m, ts)[k + 1]);
        }
    }
}

/// Each segment of a representable sequence's display text classifies back
/// to the token it was written from.
proof fn lemma_texts_classify(m: Seq<(Seq<char>, Token)>, ts: Seq<Token>)
    requires
        keys_single_symbol(m),
        keys_distinct(m),
        representable(m, ts),
    ensures
        tokens_of(m, texts_list(m, ts)) == Ok::<Seq<Token>, Seq<char>>(ts),
    decreases ts.len(),
{
    if ts.len() == 0 {
        assert(texts_list(m, ts) =~= Seq::<Seq<char>>::empty());
        assert(tokens_of(m, texts_list(m, ts)) == Ok::<Seq<Token>, Seq<char>>(Seq::empty()));
        assert(Seq::<Token>::empty() =~= ts);
    } else {
        let segs = texts_list(m, ts);
        let t = ts[0];
        assert(segs[0] == token_text_spec(m, t)->Some_0);
        match t {
            Token::ConstVal(v) => {
                lemma_const_classifies(m, v);
            },
            _ => {
                lemma_key_back(m, t);
            },
        }
        assert(classify(m, segs[0]) == Some(t));
        assert(representable(m, ts.drop_first())) by {
            assert(forall|k: int|
                0 <= k < ts.drop_first().len() ==> (#[trigger] ts.drop_first()[k]) == ts[k + 1]);
        }
        lemma_texts_classify(m, ts.drop_first());
        assert(segs.drop_first() =~~= texts_list(m, ts.drop_first())) by {
            assert(forall|k: int|
                0 <= k < ts.drop_first().len() ==> (#[trigger] texts_list(m, ts.drop_first())[k])
                    == segs[k + 1]);
        }
        assert(seq![t] + ts.drop_first() =~= ts);
    }
}

/// Round trip: the display text of a token sequence tokenizes back to
/// exactly that sequence — for any sequence of byte literals and registered
/// literal tokens, under a table whose keys are distinct single symbols
/// outside the hex-digit and space alphabet.
pub proof fn lemma_round_trip(m: Seq<(Seq<char>, Token)>, ts: Seq<Token>)
    requires
        keys_single_symbol(m),
        keys_distinct(m),
        representable(m, ts),
    ensures
        text_of_spec(m, ts) is Some,
        tokenize_spec(m, text_of_spec(m, ts)->Some_0) == Ok::<Seq<Token>, Seq<char>>(ts),
{
    lemma_text_splits(m, ts, Seq::<Seq<char>>::empty());
    let text = text_of_spec(m, ts)->Some_0;
    assert(Seq::<Seq<char>>::empty() + texts_list(m, ts) =~= texts_list(m, ts));
    assert(split_spec(text) == texts_list(m, ts));
    lemma_texts_classify(m, ts);
}

} // verus!
