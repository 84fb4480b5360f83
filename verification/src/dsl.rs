//! The filter DSL: a boolean expression language with operator precedence,
//! parentheses and regex.
//!
//! Grammar (lowest precedence first):
//!
//! ```text
//! expr     = or_expr
//! or_expr  = and_expr ("OR"  and_expr)*
//! and_expr = not_expr ("AND" not_expr)*
//! not_expr = "NOT" not_expr | primary
//! primary  = "(" expr ")" | comparison
//! comparison = field op value
//! op       = "==" | "!=" | ">=" | "<=" | ">" | "<" | "IN" | "CONTAINS" | "=~"
//! value    = STRING | WORD | "[" (value ("," value)*)? "]"
//! ```
//!
//! A missing field compares as the empty string for `==`/`!=`; numeric
//! operators compare both sides as numbers and yield `false` if either side is
//! not a number; `IN`/`CONTAINS` are membership and substring tests; `=~` is a
//! regex match.

use vstd::prelude::*;

use crate::binary64::{b64_lt, to_b64};
use crate::decimal::{num_lt, num_text_cmp, num_text_holds, parse_num, NumOp, NumV};
use crate::event::{event_lookup, Event};
use crate::text::{chars_of, contains, contains_chars, is_ws, is_whitespace, str_eq, string_from, trim};

verus! {

// ---------------------------------------------------------------------------
// Tokens
// ---------------------------------------------------------------------------

/// A comparison operator token.
#[derive(Debug, Clone, Copy, PartialEq, Eq, Structural)]
pub enum OpTok {
    Eq,
    Ne,
    Gt,
    Lt,
    Ge,
    Le,
    Regex,
    In,
    Contains,
}

/// A lexical token.
#[derive(Debug, Clone, PartialEq)]
pub enum Tok {
    /// A field path or a bare (unquoted) value.
    Word(String),
    /// A quoted string literal (quotes stripped).
    Str(String),
    And,
    Or,
    Not,
    Op(OpTok),
    LBracket,
    RBracket,
    LParen,
    RParen,
    Comma,
}

/// A token with its text as characters.
pub enum TokV {
    Word(Seq<char>),
    Str(Seq<char>),
    And,
    Or,
    Not,
    Op(OpTok),
    LBracket,
    RBracket,
    LParen,
    RParen,
    Comma,
}

/// The view of a token.
pub open spec fn tok_v(t: Tok) -> TokV {
    match t {
        Tok::Word(w) => TokV::Word(w@),
        Tok::Str(s) => TokV::Str(s@),
        Tok::And => TokV::And,
        Tok::Or => TokV::Or,
        Tok::Not => TokV::Not,
        Tok::Op(o) => TokV::Op(o),
        Tok::LBracket => TokV::LBracket,
        Tok::RBracket => TokV::RBracket,
        Tok::LParen => TokV::LParen,
        Tok::RParen => TokV::RParen,
        Tok::Comma => TokV::Comma,
    }
}

/// The view of a token list.
pub open spec fn toks_v(ts: Seq<Tok>) -> Seq<TokV> {
    ts.map_values(|t: Tok| tok_v(t))
}

/// Why lexing failed.
pub enum LexErr {
    /// A quote was never closed.
    Unterminated,
    /// A `!` not followed by `=`, or a `=` followed by neither `=` nor `~`.
    Stray(char),
}

/// A bareword ends at whitespace, an operator character, a bracket, a
/// parenthesis, a comma or a quote.
pub open spec fn delimits(c: char) -> bool {
    is_ws(c) || c == '=' || c == '!' || c == '<' || c == '>' || c == '(' || c == ')' || c == '['
        || c == ']' || c == ',' || c == '\'' || c == '"'
}

/// The end of the bareword starting at `i`.
pub open spec fn word_end(cs: Seq<char>, i: int) -> int
    decreases cs.len() - i,
{
    if i >= cs.len() || delimits(cs[i]) {
        i
    } else {
        word_end(cs, i + 1)
    }
}

/// The position of the first `q` at or after `i` (or the end).
pub open spec fn quote_end(cs: Seq<char>, i: int, q: char) -> int
    decreases cs.len() - i,
{
    if i >= cs.len() || cs[i] == q {
        i
    } else {
        quote_end(cs, i + 1, q)
    }
}

/// A bareword as a keyword or plain word (keywords are case-sensitive).
pub open spec fn classify(w: Seq<char>) -> TokV {
    if w == "AND"@ {
        TokV::And
    } else if w == "OR"@ {
        TokV::Or
    } else if w == "NOT"@ {
        TokV::Not
    } else if w == "IN"@ {
        TokV::Op(OpTok::In)
    } else if w == "CONTAINS"@ {
        TokV::Op(OpTok::Contains)
    } else {
        TokV::Word(w)
    }
}

/// Prepend a token to a lexing result.
pub open spec fn cons_tok(t: TokV, r: Result<Seq<TokV>, LexErr>) -> Result<Seq<TokV>, LexErr> {
    match r {
        Ok(ts) => Ok(seq![t] + ts),
        Err(e) => Err(e),
    }
}

/// The tokens of `cs` from position `i` on, or the first lexical error.
pub open spec fn lex_from(cs: Seq<char>, i: int) -> Result<Seq<TokV>, LexErr>
    decreases cs.len() - i, 0int,
{
    if i < 0 || i >= cs.len() {
        Ok(Seq::empty())
    } else {
        let c = cs[i];
        if is_ws(c) {
            lex_from(cs, i + 1)
        } else if c == '\'' || c == '"' {
            let j = quote_end(cs, i + 1, c);
            if j >= cs.len() {
                Err(LexErr::Unterminated)
            } else {
                proof {
                    lemma_quote_end(cs, i + 1, c);
                }
                cons_tok(TokV::Str(cs.subrange(i + 1, j)), lex_from(cs, j + 1))
            }
        } else if c == '(' {
            cons_tok(TokV::LParen, lex_from(cs, i + 1))
        } else if c == ')' {
            cons_tok(TokV::RParen, lex_from(cs, i + 1))
        } else if c == '[' {
            cons_tok(TokV::LBracket, lex_from(cs, i + 1))
        } else if c == ']' {
            cons_tok(TokV::RBracket, lex_from(cs, i + 1))
        } else if c == ',' {
            cons_tok(TokV::Comma, lex_from(cs, i + 1))
        } else if c == '=' || c == '!' || c == '<' || c == '>' {
            let eq_next = i + 1 < cs.len() && cs[i + 1] == '=';
            let tilde_next = i + 1 < cs.len() && cs[i + 1] == '~';
            if c == '=' && eq_next {
                cons_tok(TokV::Op(OpTok::Eq), lex_from(cs, i + 2))
            } else if c == '!' && eq_next {
                cons_tok(TokV::Op(OpTok::Ne), lex_from(cs, i + 2))
            } else if c == '>' && eq_next {
                cons_tok(TokV::Op(OpTok::Ge), lex_from(cs, i + 2))
            } else if c == '<' && eq_next {
                cons_tok(TokV::Op(OpTok::Le), lex_from(cs, i + 2))
            } else if c == '=' && tilde_next {
                cons_tok(TokV::Op(OpTok::Regex), lex_from(cs, i + 2))
            } else if c == '>' {
                cons_tok(TokV::Op(OpTok::Gt), lex_from(cs, i + 1))
            } else if c == '<' {
                cons_tok(TokV::Op(OpTok::Lt), lex_from(cs, i + 1))
            } else {
                Err(LexErr::Stray(c))
            }
        } else {
            let j = word_end(cs, i);
            proof {
                lemma_word_end(cs, i + 1);
            }
            cons_tok(classify(cs.subrange(i, j)), lex_from(cs, j))
        }
    }
}

/// A lexing result with `pre` in front.
pub open spec fn with_prefix(pre: Seq<TokV>, r: Result<Seq<TokV>, LexErr>) -> Result<Seq<TokV>, LexErr> {
    match r {
        Ok(rest) => Ok(pre + rest),
        Err(e) => Err(e),
    }
}

proof fn lemma_with_prefix(pre: Seq<TokV>, t: TokV, r: Result<Seq<TokV>, LexErr>)
    ensures
        with_prefix(pre, cons_tok(t, r)) == with_prefix(pre.push(t), r),
{
    match r {
        Ok(rest) => {
            assert(pre + (seq![t] + rest) =~= pre.push(t) + rest);
        },
        Err(e) => {},
    }
}

pub proof fn lemma_word_end(cs: Seq<char>, i: int)
    requires
        0 <= i <= cs.len(),
    ensures
        i <= word_end(cs, i) <= cs.len(),
    decreases cs.len() - i,
{
    if i < cs.len() && !delimits(cs[i]) {
        lemma_word_end(cs, i + 1);
    }
}

pub proof fn lemma_quote_end(cs: Seq<char>, i: int, q: char)
    requires
        0 <= i <= cs.len(),
    ensures
        i <= quote_end(cs, i, q) <= cs.len(),
    decreases cs.len() - i,
{
    if i < cs.len() && cs[i] != q {
        lemma_quote_end(cs, i + 1, q);
    }
}

fn classify_word(w: Vec<char>) -> (t: Tok)
    ensures
        tok_v(t) == classify(w@),
{
    let s = string_from(&w);
    if crate::text::str_eq(s.as_str(), "AND") {
        Tok::And
    } else if crate::text::str_eq(s.as_str(), "OR") {
        Tok::Or
    } else if crate::text::str_eq(s.as_str(), "NOT") {
        Tok::Not
    } else if crate::text::str_eq(s.as_str(), "IN") {
        Tok::Op(OpTok::In)
    } else if crate::text::str_eq(s.as_str(), "CONTAINS") {
        Tok::Op(OpTok::Contains)
    } else {
        Tok::Word(s)
    }
}

fn is_delim(c: char) -> (b: bool)
    ensures
        b == delimits(c),
{
    is_whitespace(c) || c == '=' || c == '!' || c == '<' || c == '>' || c == '(' || c == ')' || c
        == '[' || c == ']' || c == ',' || c == '\'' || c == '"'
}

/// Tokenize a filter string.
pub fn lex(input: &str) -> (r: Result<Vec<Tok>, LexErr>)
    ensures
        match r {
            Ok(ts) => lex_from(input@, 0) == Ok::<Seq<TokV>, LexErr>(toks_v(ts@)),
            Err(e) => lex_from(input@, 0) == Err::<Seq<TokV>, LexErr>(e),
        },
{
    let chars = chars_of(input);
    let ghost cs = chars@;
    let mut i: usize = 0;
    let mut out: Vec<Tok> = Vec::new();
    while i < chars.len()
        invariant
            cs == chars@,
            cs == input@,
            i <= cs.len(),
            lex_from(cs, 0) == with_prefix(toks_v(out@), lex_from(cs, i as int)),
        decreases chars.len() - i,
    {
        let c = chars[i];
        let ghost out0 = out@;
        if is_whitespace(c) {
            i = i + 1;
        } else if c == '\'' || c == '"' {
            let quote = c;
            i = i + 1;
            let start = i;
            proof {
                lemma_quote_end(cs, start as int, quote);
            }
            while i < chars.len() && chars[i] != quote
                invariant
                    cs == chars@,
                    start <= i <= cs.len(),
                    quote_end(cs, start as int, quote) == quote_end(cs, i as int, quote),
                decreases chars.len() - i,
            {
                i = i + 1;
            }
            if i >= chars.len() {
                proof {
                    assert(lex_from(cs, start - 1) == Err::<Seq<TokV>, LexErr>(LexErr::Unterminated));
                }
                return Err(LexErr::Unterminated);
            }
            let s = crate::text::slice_of(&chars, start, i);
            let st = string_from(&s);
            out.push(Tok::Str(st));
            i = i + 1;
            proof {
                assert(toks_v(out@) =~= toks_v(out0).push(TokV::Str(cs.subrange(start as int, i - 1))));
                lemma_with_prefix(toks_v(out0), TokV::Str(cs.subrange(start as int, i - 1)), lex_from(cs, i as int));
            }
        } else if c == '(' {
            out.push(Tok::LParen);
            i = i + 1;
            proof {
                assert(toks_v(out@) =~= toks_v(out0).push(TokV::LParen));
                lemma_with_prefix(toks_v(out0), TokV::LParen, lex_from(cs, i as int));
            }
        } else if c == ')' {
            out.push(Tok::RParen);
            i = i + 1;
            proof {
                assert(toks_v(out@) =~= toks_v(out0).push(TokV::RParen));
                lemma_with_prefix(toks_v(out0), TokV::RParen, lex_from(cs, i as int));
            }
        } else if c == '[' {
            out.push(Tok::LBracket);
            i = i + 1;
            proof {
                assert(toks_v(out@) =~= toks_v(out0).push(TokV::LBracket));
                lemma_with_prefix(toks_v(out0), TokV::LBracket, lex_from(cs, i as int));
            }
        } else if c == ']' {
            out.push(Tok::RBracket);
            i = i + 1;
            proof {
                assert(toks_v(out@) =~= toks_v(out0).push(TokV::RBracket));
                lemma_with_prefix(toks_v(out0), TokV::RBracket, lex_from(cs, i as int));
            }
        } else if c == ',' {
            out.push(Tok::Comma);
            i = i + 1;
            proof {
                assert(toks_v(out@) =~= toks_v(out0).push(TokV::Comma));
                lemma_with_prefix(toks_v(out0), TokV::Comma, lex_from(cs, i as int));
            }
        } else if c == '=' || c == '!' || c == '<' || c == '>' {
            let eq_next = i + 1 < chars.len() && chars[i + 1] == '=';
            let tilde_next = i + 1 < chars.len() && chars[i + 1] == '~';
            let (tok, len): (Tok, usize) = if c == '=' && eq_next {
                (Tok::Op(OpTok::Eq), 2)
            } else if c == '!' && eq_next {
                (Tok::Op(OpTok::Ne), 2)
            } else if c == '>' && eq_next {
                (Tok::Op(OpTok::Ge), 2)
            } else if c == '<' && eq_next {
                (Tok::Op(OpTok::Le), 2)
            } else if c == '=' && tilde_next {
                (Tok::Op(OpTok::Regex), 2)
            } else if c == '>' {
                (Tok::Op(OpTok::Gt), 1)
            } else if c == '<' {
                (Tok::Op(OpTok::Lt), 1)
            } else {
                return Err(LexErr::Stray(c));
            };
            let ghost tv = tok_v(tok);
            out.push(tok);
            i = i + len;
            proof {
                assert(toks_v(out@) =~= toks_v(out0).push(tv));
                lemma_with_prefix(toks_v(out0), tv, lex_from(cs, i as int));
            }
        } else {
            let start = i;
            proof {
                lemma_word_end(cs, start as int);
            }
            while i < chars.len() && !is_delim(chars[i])
                invariant
                    cs == chars@,
                    start <= i <= cs.len(),
                    word_end(cs, start as int) == word_end(cs, i as int),
                decreases chars.len() - i,
            {
                i = i + 1;
            }
            let w = crate::text::slice_of(&chars, start, i);
            let tok = classify_word(w);
            let ghost tv = tok_v(tok);
            out.push(tok);
            proof {
                assert(toks_v(out@) =~= toks_v(out0).push(tv));
                lemma_with_prefix(toks_v(out0), tv, lex_from(cs, i as int));
            }
        }
    }
    proof {
        assert(toks_v(out@) + Seq::<TokV>::empty() =~= toks_v(out@));
    }
    Ok(out)
}

// ---------------------------------------------------------------------------
// Expressions
// ---------------------------------------------------------------------------

/// A parsed, ready-to-evaluate filter expression.
#[derive(Debug)]
pub enum Expr {
    Or(Box<Expr>, Box<Expr>),
    And(Box<Expr>, Box<Expr>),
    Not(Box<Expr>),
    Cmp(Comparison),
}

/// A single `field op value` comparison.
#[derive(Debug, Clone)]
pub struct Comparison {
    pub field: String,
    pub op: CmpOp,
}

/// The comparison operator plus its right-hand operand.
#[derive(Debug, Clone)]
pub enum CmpOp {
    Eq(String),
    Ne(String),
    Gt(String),
    Lt(String),
    Ge(String),
    Le(String),
    In(Vec<String>),
    Contains(String),
    /// A regex match; the pattern was checked to compile when parsed.
    Regex(String),
}

/// The model of a comparison operator.
pub enum OpV {
    Eq(Seq<char>),
    Ne(Seq<char>),
    Gt(Seq<char>),
    Lt(Seq<char>),
    Ge(Seq<char>),
    Le(Seq<char>),
    In(Seq<Seq<char>>),
    Contains(Seq<char>),
    Regex(Seq<char>),
}

/// The model of an expression.
pub enum ExprV {
    Or(Box<ExprV>, Box<ExprV>),
    And(Box<ExprV>, Box<ExprV>),
    Not(Box<ExprV>),
    Cmp(Seq<char>, OpV),
}

/// The texts of a list of strings.
pub open spec fn strs_v(l: Seq<String>) -> Seq<Seq<char>> {
    l.map_values(|x: String| x@)
}

/// The model of a comparison operator.
pub open spec fn op_v(o: CmpOp) -> OpV {
    match o {
        CmpOp::Eq(v) => OpV::Eq(v@),
        CmpOp::Ne(v) => OpV::Ne(v@),
        CmpOp::Gt(v) => OpV::Gt(v@),
        CmpOp::Lt(v) => OpV::Lt(v@),
        CmpOp::Ge(v) => OpV::Ge(v@),
        CmpOp::Le(v) => OpV::Le(v@),
        CmpOp::In(l) => OpV::In(strs_v(l@)),
        CmpOp::Contains(v) => OpV::Contains(v@),
        CmpOp::Regex(p) => OpV::Regex(p@),
    }
}

/// The model of an expression.
pub open spec fn expr_v(e: Expr) -> ExprV
    decreases e,
{
    match e {
        Expr::Or(a, b) => ExprV::Or(Box::new(expr_v(*a)), Box::new(expr_v(*b))),
        Expr::And(a, b) => ExprV::And(Box::new(expr_v(*a)), Box::new(expr_v(*b))),
        Expr::Not(a) => ExprV::Not(Box::new(expr_v(*a))),
        Expr::Cmp(c) => ExprV::Cmp(c.field@, op_v(c.op)),
    }
}

/// Why parsing failed (before rendering).
pub enum PErr {
    /// Something else was found where `expected` was required (`None`: the
    /// end of the input).
    Expected(Seq<char>, Option<TokV>),
    /// The pattern of a `=~` comparison is not a valid regex.
    BadRegex(Seq<char>),
}

/// What `regex::Regex::new` gives for a pattern: `Ok` when it compiles,
/// otherwise the message of its error.
pub uninterp spec fn regex_outcome(pattern: Seq<char>) -> Result<(), Seq<char>>;

/// The pattern compiles.
pub open spec fn regex_valid(pattern: Seq<char>) -> bool {
    regex_outcome(pattern) is Ok
}

/// The message of the error for a pattern that does not compile.
pub open spec fn regex_error(pattern: Seq<char>) -> Seq<char> {
    match regex_outcome(pattern) {
        Err(m) => m,
        Ok(_) => Seq::empty(),
    }
}

/// What `Regex::is_match` of the compiled `pattern` reports on `text`.
pub uninterp spec fn regex_matches(pattern: Seq<char>, text: Seq<char>) -> bool;

/// `regex::Regex::new`: `Ok` iff the pattern compiles; otherwise the error's
/// message.
#[verifier::external_body]
fn regex_compile(pattern: &str) -> (r: Result<(), String>)
    ensures
        match r {
            Ok(()) => regex_outcome(pattern@) == Ok::<(), Seq<char>>(()),
            Err(m) => regex_outcome(pattern@) == Err::<(), Seq<char>>(m@),
        },
{
    match regex::Regex::new(pattern) {
        Ok(_) => Ok(()),
        Err(e) => Err(e.to_string()),
    }
}

/// `Regex::is_match` of the regex compiled from `pattern` on `text`; `false`
/// where the pattern does not compile.
#[verifier::external_body]
fn regex_is_match(pattern: &str, text: &str) -> (b: bool)
    ensures
        b == (regex_valid(pattern@) && regex_matches(pattern@, text@)),
{
    match regex::Regex::new(pattern) {
        Ok(re) => re.is_match(text),
        Err(_) => false,
    }
}

/// The token at `pos`, if any.
pub open spec fn tok_at(ts: Seq<TokV>, pos: int) -> Option<TokV> {
    if 0 <= pos < ts.len() {
        Some(ts[pos])
    } else {
        None
    }
}

/// The result of a parsing step: a value and the next position.
pub type PRes<T> = Result<(T, int), PErr>;

/// A scalar value: a quoted string or a bareword.
pub open spec fn p_scalar(ts: Seq<TokV>, pos: int) -> PRes<Seq<char>> {
    match tok_at(ts, pos) {
        Some(TokV::Str(s)) => Ok((s, pos + 1)),
        Some(TokV::Word(w)) => Ok((w, pos + 1)),
        other => Err(PErr::Expected("value"@, other)),
    }
}

/// The rest of a bracketed list after its first element(s): `, value` or `]`.
pub open spec fn list_tail(ts: Seq<TokV>, pos: int, items: Seq<Seq<char>>) -> PRes<Seq<Seq<char>>>
    decreases ts.len() - pos,
{
    match tok_at(ts, pos) {
        Some(TokV::Comma) => match p_scalar(ts, pos + 1) {
            Ok((v, p)) => list_tail(ts, p, items.push(v)),
            Err(e) => Err(e),
        },
        Some(TokV::RBracket) => Ok((items, pos + 1)),
        other => Err(PErr::Expected(", or ]"@, other)),
    }
}

/// A bracketed list `['a', 'b', ...]` of scalar values.
pub open spec fn p_list(ts: Seq<TokV>, pos: int) -> PRes<Seq<Seq<char>>> {
    match tok_at(ts, pos) {
        Some(TokV::LBracket) => match tok_at(ts, pos + 1) {
            Some(TokV::RBracket) => Ok((Seq::empty(), pos + 2)),
            _ => match p_scalar(ts, pos + 1) {
                Ok((v, p)) => list_tail(ts, p, seq![v]),
                Err(e) => Err(e),
            },
        },
        other => Err(PErr::Expected("["@, other)),
    }
}

/// A comparison `field op value`.
pub open spec fn p_comparison(ts: Seq<TokV>, pos: int) -> PRes<ExprV> {
    match tok_at(ts, pos) {
        Some(TokV::Word(field)) => match tok_at(ts, pos + 1) {
            Some(TokV::Op(op)) => {
                let at = pos + 2;
                match op {
                    OpTok::In => match p_list(ts, at) {
                        Ok((l, p)) => Ok((ExprV::Cmp(field, OpV::In(l)), p)),
                        Err(e) => Err(e),
                    },
                    _ => match p_scalar(ts, at) {
                        Ok((v, p)) => match op {
                            OpTok::Regex => if regex_valid(v) {
                                Ok((ExprV::Cmp(field, OpV::Regex(v)), p))
                            } else {
                                Err(PErr::BadRegex(v))
                            },
                            OpTok::Eq => Ok((ExprV::Cmp(field, OpV::Eq(v)), p)),
                            OpTok::Ne => Ok((ExprV::Cmp(field, OpV::Ne(v)), p)),
                            OpTok::Gt => Ok((ExprV::Cmp(field, OpV::Gt(v)), p)),
                            OpTok::Lt => Ok((ExprV::Cmp(field, OpV::Lt(v)), p)),
                            OpTok::Ge => Ok((ExprV::Cmp(field, OpV::Ge(v)), p)),
                            OpTok::Le => Ok((ExprV::Cmp(field, OpV::Le(v)), p)),
                            _ => Ok((ExprV::Cmp(field, OpV::Contains(v)), p)),
                        },
                        Err(e) => Err(e),
                    },
                }
            },
            other => Err(PErr::Expected("operator"@, other)),
        },
        other => Err(PErr::Expected("field"@, other)),
    }
}

/// `or_expr = and_expr ("OR" and_expr)*`.
pub open spec fn p_or(ts: Seq<TokV>, pos: int) -> PRes<ExprV>
    decreases ts.len() - pos, 5int,
{
    match p_and(ts, pos) {
        Ok((l, p)) => if pos < p <= ts.len() {
            or_tail(ts, p, l)
        } else {
            Ok((l, p))
        },
        Err(e) => Err(e),
    }
}

/// The `("OR" and_expr)*` repetition, folding to the left.
pub open spec fn or_tail(ts: Seq<TokV>, pos: int, left: ExprV) -> PRes<ExprV>
    decreases ts.len() - pos, 4int,
{
    match tok_at(ts, pos) {
        Some(TokV::Or) => match p_and(ts, pos + 1) {
            Ok((r, p)) => if pos < p <= ts.len() {
                or_tail(ts, p, ExprV::Or(Box::new(left), Box::new(r)))
            } else {
                Ok((ExprV::Or(Box::new(left), Box::new(r)), p))
            },
            Err(e) => Err(e),
        },
        _ => Ok((left, pos)),
    }
}

/// `and_expr = not_expr ("AND" not_expr)*`.
pub open spec fn p_and(ts: Seq<TokV>, pos: int) -> PRes<ExprV>
    decreases ts.len() - pos, 3int,
{
    match p_not(ts, pos) {
        Ok((l, p)) => if pos < p <= ts.len() {
            and_tail(ts, p, l)
        } else {
            Ok((l, p))
        },
        Err(e) => Err(e),
    }
}

/// The `("AND" not_expr)*` repetition, folding to the left.
pub open spec fn and_tail(ts: Seq<TokV>, pos: int, left: ExprV) -> PRes<ExprV>
    decreases ts.len() - pos, 2int,
{
    match tok_at(ts, pos) {
        Some(TokV::And) => match p_not(ts, pos + 1) {
            Ok((r, p)) => if pos < p <= ts.len() {
                and_tail(ts, p, ExprV::And(Box::new(left), Box::new(r)))
            } else {
                Ok((ExprV::And(Box::new(left), Box::new(r)), p))
            },
            Err(e) => Err(e),
        },
        _ => Ok((left, pos)),
    }
}

/// `not_expr = "NOT" not_expr | primary`.
pub open spec fn p_not(ts: Seq<TokV>, pos: int) -> PRes<ExprV>
    decreases ts.len() - pos, 1int,
{
    match tok_at(ts, pos) {
        Some(TokV::Not) => match p_not(ts, pos + 1) {
            Ok((e, p)) => Ok((ExprV::Not(Box::new(e)), p)),
            Err(e) => Err(e),
        },
        _ => p_primary(ts, pos),
    }
}

/// `primary = "(" expr ")" | comparison`.
pub open spec fn p_primary(ts: Seq<TokV>, pos: int) -> PRes<ExprV>
    decreases ts.len() - pos, 0int,
{
    match tok_at(ts, pos) {
        Some(TokV::LParen) => match p_or(ts, pos + 1) {
            Ok((e, p)) => match tok_at(ts, p) {
                Some(TokV::RParen) => Ok((e, p + 1)),
                other => Err(PErr::Expected(")"@, other)),
            },
            Err(e) => Err(e),
        },
        Some(TokV::Word(_)) => p_comparison(ts, pos),
        other => Err(PErr::Expected("field or ("@, other)),
    }
}

// ---------------------------------------------------------------------------
// Progress: every successful step consumes at least one token
// ---------------------------------------------------------------------------

pub proof fn lemma_scalar_progress(ts: Seq<TokV>, pos: int)
    requires
        0 <= pos,
    ensures
        p_scalar(ts, pos) matches Ok((_, p)) ==> pos < p <= ts.len(),
{
}

pub proof fn lemma_list_tail_progress(ts: Seq<TokV>, pos: int, items: Seq<Seq<char>>)
    requires
        0 <= pos,
    ensures
        list_tail(ts, pos, items) matches Ok((_, p)) ==> pos < p <= ts.len(),
    decreases ts.len() - pos,
{
    if let Some(TokV::Comma) = tok_at(ts, pos) {
        lemma_scalar_progress(ts, pos + 1);
        if let Ok((v, p)) = p_scalar(ts, pos + 1) {
            lemma_list_tail_progress(ts, p, items.push(v));
        }
    }
}

pub proof fn lemma_comparison_progress(ts: Seq<TokV>, pos: int)
    requires
        0 <= pos,
    ensures
        p_comparison(ts, pos) matches Ok((_, p)) ==> pos < p <= ts.len(),
{
    lemma_scalar_progress(ts, pos + 2);
    lemma_scalar_progress(ts, pos + 3);
    if let Ok((v, p)) = p_scalar(ts, pos + 3) {
        lemma_list_tail_progress(ts, p, seq![v]);
    }
}

pub proof fn lemma_or_progress(ts: Seq<TokV>, pos: int)
    requires
        0 <= pos,
    ensures
        p_or(ts, pos) matches Ok((_, p)) ==> pos < p <= ts.len(),
    decreases ts.len() - pos, 5int,
{
    lemma_and_progress(ts, pos);
    if let Ok((l, p)) = p_and(ts, pos) {
        if pos < p <= ts.len() {
            lemma_or_tail_progress(ts, p, l);
        }
    }
}

pub proof fn lemma_or_tail_progress(ts: Seq<TokV>, pos: int, left: ExprV)
    requires
        0 <= pos <= ts.len(),
    ensures
        or_tail(ts, pos, left) matches Ok((_, p)) ==> pos <= p <= ts.len(),
    decreases ts.len() - pos, 4int,
{
    if let Some(TokV::Or) = tok_at(ts, pos) {
        lemma_and_progress(ts, pos + 1);
        if let Ok((r, p)) = p_and(ts, pos + 1) {
            if pos < p <= ts.len() {
                lemma_or_tail_progress(ts, p, ExprV::Or(Box::new(left), Box::new(r)));
            }
        }
    }
}

pub proof fn lemma_and_progress(ts: Seq<TokV>, pos: int)
    requires
        0 <= pos,
    ensures
        p_and(ts, pos) matches Ok((_, p)) ==> pos < p <= ts.len(),
    decreases ts.len() - pos, 3int,
{
    lemma_not_progress(ts, pos);
    if let Ok((l, p)) = p_not(ts, pos) {
        if pos < p <= ts.len() {
            lemma_and_tail_progress(ts, p, l);
        }
    }
}

pub proof fn lemma_and_tail_progress(ts: Seq<TokV>, pos: int, left: ExprV)
    requires
        0 <= pos <= ts.len(),
    ensures
        and_tail(ts, pos, left) matches Ok((_, p)) ==> pos <= p <= ts.len(),
    decreases ts.len() - pos, 2int,
{
    if let Some(TokV::And) = tok_at(ts, pos) {
        lemma_not_progress(ts, pos + 1);
        if let Ok((r, p)) = p_not(ts, pos + 1) {
            if pos < p <= ts.len() {
                lemma_and_tail_progress(ts, p, ExprV::And(Box::new(left), Box::new(r)));
            }
        }
    }
}

pub proof fn lemma_not_progress(ts: Seq<TokV>, pos: int)
    requires
        0 <= pos,
    ensures
        p_not(ts, pos) matches Ok((_, p)) ==> pos < p <= ts.len(),
    decreases ts.len() - pos, 1int,
{
    if let Some(TokV::Not) = tok_at(ts, pos) {
        lemma_not_progress(ts, pos + 1);
    } else {
        lemma_primary_progress(ts, pos);
    }
}

pub proof fn lemma_primary_progress(ts: Seq<TokV>, pos: int)
    requires
        0 <= pos,
    ensures
        p_primary(ts, pos) matches Ok((_, p)) ==> pos < p <= ts.len(),
    decreases ts.len() - pos, 0int,
{
    match tok_at(ts, pos) {
        Some(TokV::LParen) => {
            lemma_or_progress(ts, pos + 1);
        },
        _ => {
            lemma_comparison_progress(ts, pos);
        },
    }
}

// ---------------------------------------------------------------------------
// Rendering tokens and errors
// ---------------------------------------------------------------------------

/// A character as `{:?}` writes it inside a string literal (the common
/// escapes; other characters verbatim).
pub open spec fn esc_char(c: char) -> Seq<char> {
    if c == '"' {
        seq!['\\', '"']
    } else if c == '\\' {
        seq!['\\', '\\']
    } else if c == '\n' {
        seq!['\\', 'n']
    } else if c == '\r' {
        seq!['\\', 'r']
    } else if c == '\t' {
        seq!['\\', 't']
    } else if c == '\0' {
        seq!['\\', '0']
    } else {
        seq![c]
    }
}

/// The characters of `s`, escaped.
pub open spec fn esc(s: Seq<char>) -> Seq<char>
    decreases s.len(),
{
    if s.len() == 0 {
        Seq::empty()
    } else {
        esc(s.drop_last()) + esc_char(s.last())
    }
}

/// `s` as a quoted, escaped string literal.
pub open spec fn dbg_str(s: Seq<char>) -> Seq<char> {
    seq!['"'] + esc(s) + seq!['"']
}

/// The name of an operator token.
pub open spec fn op_name(o: OpTok) -> Seq<char> {
    match o {
        OpTok::Eq => "Eq"@,
        OpTok::Ne => "Ne"@,
        OpTok::Gt => "Gt"@,
        OpTok::Lt => "Lt"@,
        OpTok::Ge => "Ge"@,
        OpTok::Le => "Le"@,
        OpTok::Regex => "Regex"@,
        OpTok::In => "In"@,
        OpTok::Contains => "Contains"@,
    }
}

/// A token as `{:?}` writes it.
pub open spec fn tok_text(t: TokV) -> Seq<char> {
    match t {
        TokV::Word(w) => "Word("@ + dbg_str(w) + ")"@,
        TokV::Str(x) => "Str("@ + dbg_str(x) + ")"@,
        TokV::And => "And"@,
        TokV::Or => "Or"@,
        TokV::Not => "Not"@,
        TokV::Op(o) => "Op("@ + op_name(o) + ")"@,
        TokV::LBracket => "LBracket"@,
        TokV::RBracket => "RBracket"@,
        TokV::LParen => "LParen"@,
        TokV::RParen => "RParen"@,
        TokV::Comma => "Comma"@,
    }
}

/// What was found: a token, or the end of the input.
pub open spec fn describe_v(t: Option<TokV>) -> Seq<char> {
    match t {
        Some(t) => tok_text(t),
        None => "end of input"@,
    }
}

fn push_str(v: &mut Vec<char>, s: &str)
    ensures
        final(v)@ == old(v)@ + s@,
{
    let cs = chars_of(s);
    let ghost start = v@;
    let mut i: usize = 0;
    while i < cs.len()
        invariant
            i <= cs@.len(),
            cs@ == s@,
            v@ == start + cs@.take(i as int),
        decreases cs.len() - i,
    {
        v.push(cs[i]);
        i = i + 1;
        proof {
            assert(v@ =~= start + cs@.take(i as int));
        }
    }
    proof {
        assert(cs@.take(i as int) =~= cs@);
    }
}

fn push_escaped(v: &mut Vec<char>, s: &str)
    ensures
        final(v)@ == old(v)@ + esc(s@),
{
    let cs = chars_of(s);
    let ghost start = v@;
    let mut i: usize = 0;
    while i < cs.len()
        invariant
            i <= cs@.len(),
            cs@ == s@,
            v@ == start + esc(cs@.take(i as int)),
        decreases cs.len() - i,
    {
        let c = cs[i];
        let ghost before = v@;
        if c == '"' {
            v.push('\\');
            v.push('"');
        } else if c == '\\' {
            v.push('\\');
            v.push('\\');
        } else if c == '\n' {
            v.push('\\');
            v.push('n');
        } else if c == '\r' {
            v.push('\\');
            v.push('r');
        } else if c == '\t' {
            v.push('\\');
            v.push('t');
        } else if c == '\0' {
            v.push('\\');
            v.push('0');
        } else {
            v.push(c);
        }
        proof {
            assert(v@ =~= before + esc_char(c));
            assert(cs@.take(i + 1).drop_last() =~= cs@.take(i as int));
            assert(start + esc(cs@.take(i as int)) + esc_char(c) =~= start + esc(cs@.take(i + 1)));
        }
        i = i + 1;
    }
    proof {
        assert(cs@.take(i as int) =~= cs@);
    }
}

/// `{:?}` of a string.
pub fn debug_str(s: &str) -> (r: String)
    ensures
        r@ == dbg_str(s@),
{
    let mut v: Vec<char> = Vec::new();
    v.push('"');
    push_escaped(&mut v, s);
    v.push('"');
    proof {
        assert(v@ =~= dbg_str(s@));
    }
    string_from(&v)
}

fn op_name_str(o: OpTok) -> (s: &'static str)
    ensures
        s@ == op_name(o),
{
    match o {
        OpTok::Eq => "Eq",
        OpTok::Ne => "Ne",
        OpTok::Gt => "Gt",
        OpTok::Lt => "Lt",
        OpTok::Ge => "Ge",
        OpTok::Le => "Le",
        OpTok::Regex => "Regex",
        OpTok::In => "In",
        OpTok::Contains => "Contains",
    }
}

fn wrap(head: &str, inner: &str) -> (r: String)
    ensures
        r@ == head@ + inner@ + ")"@,
{
    let mut v: Vec<char> = Vec::new();
    push_str(&mut v, head);
    push_str(&mut v, inner);
    push_str(&mut v, ")");
    proof {
        assert(v@ =~= head@ + inner@ + ")"@);
    }
    string_from(&v)
}

/// A token as `{:?}` writes it.
pub fn tok_debug(t: &Tok) -> (r: String)
    ensures
        r@ == tok_text(tok_v(*t)),
{
    match t {
        Tok::Word(w) => {
            let d = debug_str(w.as_str());
            wrap("Word(", d.as_str())
        },
        Tok::Str(x) => {
            let d = debug_str(x.as_str());
            wrap("Str(", d.as_str())
        },
        Tok::And => crate::text::owned("And"),
        Tok::Or => crate::text::owned("Or"),
        Tok::Not => crate::text::owned("Not"),
        Tok::Op(o) => wrap("Op(", op_name_str(*o)),
        Tok::LBracket => crate::text::owned("LBracket"),
        Tok::RBracket => crate::text::owned("RBracket"),
        Tok::LParen => crate::text::owned("LParen"),
        Tok::RParen => crate::text::owned("RParen"),
        Tok::Comma => crate::text::owned("Comma"),
    }
}

/// Why a filter failed to parse.
#[derive(Debug)]
pub enum ParseError {
    UnexpectedEof,
    Unexpected(String),
    Expected { expected: String, found: String },
    BadRegex { pattern: String, reason: String },
    Empty,
}

/// `e` renders the parsing failure `pe`.
pub open spec fn perr_shown(e: ParseError, pe: PErr) -> bool {
    match pe {
        PErr::Expected(exp, found) => e matches ParseError::Expected { expected, found: f }
            && expected@ == exp && f@ == describe_v(found),
        PErr::BadRegex(pat) => e matches ParseError::BadRegex { pattern, reason } && pattern@ == pat
            && reason@ == regex_error(pat),
    }
}

fn expected_err(expected: &str, found: Option<&Tok>) -> (e: ParseError)
    ensures
        perr_shown(
            e,
            PErr::Expected(
                expected@,
                match found {
                    Some(t) => Some(tok_v(*t)),
                    None => None,
                },
            ),
        ),
{
    let f = match found {
        Some(t) => tok_debug(t),
        None => crate::text::owned("end of input"),
    };
    ParseError::Expected { expected: crate::text::owned(expected), found: f }
}

// ---------------------------------------------------------------------------
// The parser
// ---------------------------------------------------------------------------

/// `r` is what the parsing step `spec` says: the same value and next
/// position, or the same failure.
pub open spec fn step_ok<T>(r: Result<(T, usize), ParseError>, spec: PRes<Seq<char>>, view: spec_fn(T) -> Seq<char>) -> bool {
    match spec {
        Ok((v, p)) => r matches Ok((x, q)) && view(x) == v && q == p,
        Err(pe) => r matches Err(x) && perr_shown(x, pe),
    }
}

/// `r` is what the expression parsing step `spec` says.
pub open spec fn expr_step_ok(r: Result<(Expr, usize), ParseError>, spec: PRes<ExprV>) -> bool {
    match spec {
        Ok((v, p)) => r matches Ok((x, q)) && expr_v(x) == v && q == p,
        Err(pe) => r matches Err(x) && perr_shown(x, pe),
    }
}

fn tok_opt(ts: &Vec<Tok>, pos: usize) -> (r: Option<&Tok>)
    ensures
        r is Some <==> pos < ts@.len(),
        ts@.len() <= usize::MAX,
        match r {
            Some(t) => tok_at(toks_v(ts@), pos as int) == Some(tok_v(*t)),
            None => tok_at(toks_v(ts@), pos as int) is None,
        },
{
    let n = ts.len();
    if pos < n {
        Some(&ts[pos])
    } else {
        None
    }
}

fn tok_view_opt(t: Option<&Tok>) -> (r: Ghost<Option<TokV>>)
    ensures
        r@ == match t {
            Some(t) => Some(tok_v(*t)),
            None => None,
        },
{
    Ghost(
        match t {
            Some(t) => Some(tok_v(*t)),
            None => None,
        },
    )
}

fn parse_scalar(ts: &Vec<Tok>, pos: usize) -> (r: Result<(String, usize), ParseError>)
    requires
        pos <= ts@.len(),
    ensures
        step_ok(r, p_scalar(toks_v(ts@), pos as int), |x: String| x@),
{
    let t = tok_opt(ts, pos);
    match t {
        Some(Tok::Str(x)) => Ok((x.clone(), pos + 1)),
        Some(Tok::Word(w)) => Ok((w.clone(), pos + 1)),
        _ => Err(expected_err("value", t)),
    }
}

fn parse_list(ts: &Vec<Tok>, pos: usize) -> (r: Result<(Vec<String>, usize), ParseError>)
    requires
        pos <= ts@.len(),
    ensures
        match p_list(toks_v(ts@), pos as int) {
            Ok((v, p)) => r matches Ok((x, q)) && strs_v(x@) == v && q == p,
            Err(pe) => r matches Err(x) && perr_shown(x, pe),
        },
{
    let ghost tv = toks_v(ts@);
    let t = tok_opt(ts, pos);
    match t {
        Some(Tok::LBracket) => {},
        _ => {
            return Err(expected_err("[", t));
        },
    }
    let mut items: Vec<String> = Vec::new();
    if let Some(Tok::RBracket) = tok_opt(ts, pos + 1) {
        proof {
            assert(strs_v(items@) =~= Seq::<Seq<char>>::empty());
        }
        return Ok((items, pos + 2));
    }
    let mut at = pos + 1;
    let first = parse_scalar(ts, at);
    match first {
        Ok((v, q)) => {
            items.push(v);
            at = q;
        },
        Err(e) => {
            return Err(e);
        },
    }
    proof {
        lemma_scalar_progress(tv, pos + 1);
        assert(strs_v(items@) =~= seq![items@[0]@]);
    }
    loop
        invariant
            tv == toks_v(ts@),
            pos + 1 < at <= ts@.len(),
            p_list(tv, pos as int) == list_tail(tv, at as int, strs_v(items@)),
        decreases ts@.len() - at,
    {
        let t = tok_opt(ts, at);
        match t {
            Some(Tok::Comma) => {
                match parse_scalar(ts, at + 1) {
                    Ok((v, q)) => {
                        proof {
                            lemma_scalar_progress(tv, at + 1);
                            assert(strs_v(items@.push(v)) =~= strs_v(items@).push(v@));
                        }
                        items.push(v);
                        at = q;
                    },
                    Err(e) => {
                        return Err(e);
                    },
                }
            },
            Some(Tok::RBracket) => {
                return Ok((items, at + 1));
            },
            _ => {
                return Err(expected_err(", or ]", t));
            },
        }
    }
}

fn parse_comparison(ts: &Vec<Tok>, pos: usize) -> (r: Result<(Expr, usize), ParseError>)
    requires
        pos <= ts@.len(),
    ensures
        expr_step_ok(r, p_comparison(toks_v(ts@), pos as int)),
{
    let t = tok_opt(ts, pos);
    let field = match t {
        Some(Tok::Word(w)) => w.clone(),
        _ => {
            return Err(expected_err("field", t));
        },
    };
    let t2 = tok_opt(ts, pos + 1);
    let op = match t2 {
        Some(Tok::Op(op)) => *op,
        _ => {
            return Err(expected_err("operator", t2));
        },
    };
    let at = pos + 2;
    match op {
        OpTok::In => {
            match parse_list(ts, at) {
                Ok((l, p)) => Ok((Expr::Cmp(Comparison { field, op: CmpOp::In(l) }), p)),
                Err(e) => Err(e),
            }
        },
        _ => {
            match parse_scalar(ts, at) {
                Ok((v, p)) => {
                    let operand = match op {
                        OpTok::Regex => {
                            match regex_compile(v.as_str()) {
                                Ok(()) => CmpOp::Regex(v),
                                Err(reason) => {
                                    return Err(ParseError::BadRegex { pattern: v, reason });
                                },
                            }
                        },
                        OpTok::Eq => CmpOp::Eq(v),
                        OpTok::Ne => CmpOp::Ne(v),
                        OpTok::Gt => CmpOp::Gt(v),
                        OpTok::Lt => CmpOp::Lt(v),
                        OpTok::Ge => CmpOp::Ge(v),
                        OpTok::Le => CmpOp::Le(v),
                        _ => CmpOp::Contains(v),
                    };
                    Ok((Expr::Cmp(Comparison { field, op: operand }), p))
                },
                Err(e) => Err(e),
            }
        },
    }
}

fn parse_or(ts: &Vec<Tok>, pos: usize) -> (r: Result<(Expr, usize), ParseError>)
    requires
        pos <= ts@.len(),
    ensures
        expr_step_ok(r, p_or(toks_v(ts@), pos as int)),
    decreases ts@.len() - pos, 5int,
{
    let ghost tv = toks_v(ts@);
    proof {
        lemma_and_progress(tv, pos as int);
    }
    let (mut left, mut at) = match parse_and(ts, pos) {
        Ok(x) => x,
        Err(e) => {
            return Err(e);
        },
    };
    loop
        invariant
            tv == toks_v(ts@),
            pos < at <= ts@.len(),
            p_or(tv, pos as int) == or_tail(tv, at as int, expr_v(left)),
        decreases ts@.len() - at,
    {
        match tok_opt(ts, at) {
            Some(Tok::Or) => {},
            _ => {
                return Ok((left, at));
            },
        }
        proof {
            lemma_and_progress(tv, at + 1);
        }
        match parse_and(ts, at + 1) {
            Ok((right, q)) => {
                left = Expr::Or(Box::new(left), Box::new(right));
                at = q;
            },
            Err(e) => {
                return Err(e);
            },
        }
    }
}

fn parse_and(ts: &Vec<Tok>, pos: usize) -> (r: Result<(Expr, usize), ParseError>)
    requires
        pos <= ts@.len(),
    ensures
        expr_step_ok(r, p_and(toks_v(ts@), pos as int)),
    decreases ts@.len() - pos, 3int,
{
    let ghost tv = toks_v(ts@);
    proof {
        lemma_not_progress(tv, pos as int);
    }
    let (mut left, mut at) = match parse_not(ts, pos) {
        Ok(x) => x,
        Err(e) => {
            return Err(e);
        },
    };
    loop
        invariant
            tv == toks_v(ts@),
            pos < at <= ts@.len(),
            p_and(tv, pos as int) == and_tail(tv, at as int, expr_v(left)),
        decreases ts@.len() - at,
    {
        match tok_opt(ts, at) {
            Some(Tok::And) => {},
            _ => {
                return Ok((left, at));
            },
        }
        proof {
            lemma_not_progress(tv, at + 1);
        }
        match parse_not(ts, at + 1) {
            Ok((right, q)) => {
                left = Expr::And(Box::new(left), Box::new(right));
                at = q;
            },
            Err(e) => {
                return Err(e);
            },
        }
    }
}

fn parse_not(ts: &Vec<Tok>, pos: usize) -> (r: Result<(Expr, usize), ParseError>)
    requires
        pos <= ts@.len(),
    ensures
        expr_step_ok(r, p_not(toks_v(ts@), pos as int)),
    decreases ts@.len() - pos, 1int,
{
    if let Some(Tok::Not) = tok_opt(ts, pos) {
        match parse_not(ts, pos + 1) {
            Ok((inner, q)) => Ok((Expr::Not(Box::new(inner)), q)),
            Err(e) => Err(e),
        }
    } else {
        parse_primary(ts, pos)
    }
}

fn parse_primary(ts: &Vec<Tok>, pos: usize) -> (r: Result<(Expr, usize), ParseError>)
    requires
        pos <= ts@.len(),
    ensures
        expr_step_ok(r, p_primary(toks_v(ts@), pos as int)),
    decreases ts@.len() - pos, 0int,
{
    let ghost tv = toks_v(ts@);
    let t = tok_opt(ts, pos);
    match t {
        Some(Tok::LParen) => {
            proof {
                lemma_or_progress(tv, pos + 1);
            }
            match parse_or(ts, pos + 1) {
                Ok((e, q)) => {
                    let t2 = tok_opt(ts, q);
                    match t2 {
                        Some(Tok::RParen) => Ok((e, q + 1)),
                        _ => Err(expected_err(")", t2)),
                    }
                },
                Err(e) => Err(e),
            }
        },
        Some(Tok::Word(_)) => parse_comparison(ts, pos),
        _ => Err(expected_err("field or (", t)),
    }
}


// ---------------------------------------------------------------------------
// The whole filter
// ---------------------------------------------------------------------------

/// Why a whole filter failed to parse (before rendering).
pub enum ParseFail {
    Lex(LexErr),
    Empty,
    /// Tokens were left after a complete expression; the first of them.
    Trailing(TokV),
    Step(PErr),
}

/// The parse of a whole filter: tokenize, then one `or_expr` that uses every
/// token.
pub open spec fn parse_spec(input: Seq<char>) -> Result<ExprV, ParseFail> {
    match lex_from(input, 0) {
        Err(le) => Err(ParseFail::Lex(le)),
        Ok(ts) => if ts.len() == 0 {
            Err(ParseFail::Empty)
        } else {
            match p_or(ts, 0) {
                Err(pe) => Err(ParseFail::Step(pe)),
                Ok((e, p)) => if p != ts.len() {
                    Err(ParseFail::Trailing(ts[p]))
                } else {
                    Ok(e)
                },
            }
        },
    }
}

/// The message of a lexing failure.
pub open spec fn lex_err_text(le: LexErr) -> Seq<char> {
    match le {
        LexErr::Unterminated => "unterminated string"@,
        LexErr::Stray(c) => "stray `"@ + seq![c] + "`"@,
    }
}

/// `e` renders the whole-filter failure `f`.
pub open spec fn fail_shown(e: ParseError, f: ParseFail) -> bool {
    match f {
        ParseFail::Lex(le) => e matches ParseError::Unexpected(s) && s@ == lex_err_text(le),
        ParseFail::Empty => e is Empty,
        ParseFail::Trailing(t) => e matches ParseError::Unexpected(s) && s@ == tok_text(t),
        ParseFail::Step(pe) => perr_shown(e, pe),
    }
}

fn lex_error(le: LexErr) -> (e: ParseError)
    ensures
        fail_shown(e, ParseFail::Lex(le)),
{
    match le {
        LexErr::Unterminated => ParseError::Unexpected(crate::text::owned("unterminated string")),
        LexErr::Stray(c) => {
            let mut v: Vec<char> = Vec::new();
            push_str(&mut v, "stray `");
            v.push(c);
            push_str(&mut v, "`");
            proof {
                assert(v@ =~= "stray `"@ + seq![c] + "`"@);
            }
            ParseError::Unexpected(string_from(&v))
        },
    }
}

impl Expr {
    /// Parse a filter string into an expression tree.
    pub fn parse(input: &str) -> (r: Result<Expr, ParseError>)
        ensures
            match parse_spec(input@) {
                Ok(v) => r matches Ok(e) && expr_v(e) == v,
                Err(f) => r matches Err(e) && fail_shown(e, f),
            },
    {
        let tokens = match lex(input) {
            Ok(ts) => ts,
            Err(le) => {
                return Err(lex_error(le));
            },
        };
        if tokens.len() == 0 {
            return Err(ParseError::Empty);
        }
        proof {
            lemma_or_progress(toks_v(tokens@), 0);
        }
        match parse_or(&tokens, 0) {
            Ok((e, q)) => {
                if q != tokens.len() {
                    let shown = tok_debug(&tokens[q]);
                    return Err(ParseError::Unexpected(shown));
                }
                Ok(e)
            },
            Err(e) => Err(e),
        }
    }

    /// Evaluate this expression against an event.
    pub fn eval(&self, ev: &Event) -> (b: bool)
        ensures
            b == expr_holds(expr_v(*self), *ev),
        decreases self,
    {
        match self {
            Expr::Or(a, c) => a.eval(ev) || c.eval(ev),
            Expr::And(a, c) => a.eval(ev) && c.eval(ev),
            Expr::Not(e) => !e.eval(ev),
            Expr::Cmp(c) => c.eval(ev),
        }
    }
}

impl ParseError {
    /// The error's message, as `Display` would write it.
    pub fn message(&self) -> (r: String)
        ensures
            r@ == error_text(*self),
    {
        match self {
            ParseError::UnexpectedEof => crate::text::owned("unexpected end of filter"),
            ParseError::Unexpected(t) => {
                let d = debug_str(t.as_str());
                crate::text::concat("unexpected token ", d.as_str())
            },
            ParseError::Expected { expected, found } => {
                let mut v: Vec<char> = Vec::new();
                push_str(&mut v, "expected ");
                push_str(&mut v, expected.as_str());
                push_str(&mut v, ", found ");
                push_str(&mut v, found.as_str());
                proof {
                    assert(v@ =~= "expected "@ + expected@ + ", found "@ + found@);
                }
                string_from(&v)
            },
            ParseError::BadRegex { pattern, reason } => {
                let mut v: Vec<char> = Vec::new();
                push_str(&mut v, "invalid regex `");
                push_str(&mut v, pattern.as_str());
                push_str(&mut v, "`: ");
                push_str(&mut v, reason.as_str());
                proof {
                    assert(v@ =~= "invalid regex `"@ + pattern@ + "`: "@ + reason@);
                }
                string_from(&v)
            },
            ParseError::Empty => crate::text::owned("empty filter"),
        }
    }
}

/// The message of a parse error.
pub open spec fn error_text(e: ParseError) -> Seq<char> {
    match e {
        ParseError::UnexpectedEof => "unexpected end of filter"@,
        ParseError::Unexpected(t) => "unexpected token "@ + dbg_str(t@),
        ParseError::Expected { expected, found } => "expected "@ + expected@ + ", found "@ + found@,
        ParseError::BadRegex { pattern, reason } => "invalid regex `"@ + pattern@ + "`: "@ + reason@,
        ParseError::Empty => "empty filter"@,
    }
}

/// The message of a whole-filter failure, as `Display` writes it.
pub open spec fn fail_text(f: ParseFail) -> Seq<char> {
    match f {
        ParseFail::Lex(le) => "unexpected token "@ + dbg_str(lex_err_text(le)),
        ParseFail::Empty => "empty filter"@,
        ParseFail::Trailing(t) => "unexpected token "@ + dbg_str(tok_text(t)),
        ParseFail::Step(PErr::Expected(exp, found)) => "expected "@ + exp + ", found "@ + describe_v(found),
        ParseFail::Step(PErr::BadRegex(pat)) => "invalid regex `"@ + pat + "`: "@ + regex_error(pat),
    }
}

/// A rendered failure has the message of the failure it renders.
pub proof fn lemma_fail_text(e: ParseError, f: ParseFail)
    requires
        fail_shown(e, f),
    ensures
        error_text(e) == fail_text(f),
{
}

// ---------------------------------------------------------------------------
// Evaluation
// ---------------------------------------------------------------------------

/// A missing value reads as the empty string.
pub open spec fn or_empty(v: Option<Seq<char>>) -> Seq<char> {
    match v {
        Some(s) => s,
        None => Seq::empty(),
    }
}

/// Does the comparison `op` hold of the field value `lhs`?
pub open spec fn op_holds(op: OpV, lhs: Option<Seq<char>>) -> bool {
    match op {
        OpV::Eq(v) => or_empty(lhs) == v,
        OpV::Ne(v) => or_empty(lhs) != v,
        OpV::Contains(v) => lhs matches Some(s) && contains(s, v),
        OpV::In(l) => lhs matches Some(s) && l.contains(s),
        OpV::Regex(p) => lhs matches Some(s) && regex_valid(p) && regex_matches(p, s),
        OpV::Gt(v) => num_text_holds(NumOp::Gt, lhs, v),
        OpV::Lt(v) => num_text_holds(NumOp::Lt, lhs, v),
        OpV::Ge(v) => num_text_holds(NumOp::Ge, lhs, v),
        OpV::Le(v) => num_text_holds(NumOp::Le, lhs, v),
    }
}

/// Both sides of a numeric comparison read as numbers (after trimming), if
/// they do.
pub open spec fn read_pair(lhs: Option<Seq<char>>, v: Seq<char>) -> Option<(NumV, NumV)> {
    match lhs {
        Some(l) => match (parse_num(trim(l)), parse_num(trim(v))) {
            (Some(a), Some(b)) => Some((a, b)),
            _ => None,
        },
        None => None,
    }
}

/// The numeric comparisons: `field < v` holds exactly when the field and
/// `v` both read as numbers and the field's is less (`>`, `>=`, `<=`
/// likewise, `>=`/`<=` never with a NaN); `<` implies `<=` and excludes `>`
/// and `>=`, and `>` implies `>=` and excludes `<` and `<=`.
pub proof fn law_numeric_comparisons(v: Seq<char>, lhs: Option<Seq<char>>)
    ensures
        op_holds(OpV::Lt(v), lhs) == (read_pair(lhs, v) matches Some(p) && num_lt(p.0, p.1)),
        op_holds(OpV::Gt(v), lhs) == (read_pair(lhs, v) matches Some(p) && num_lt(p.1, p.0)),
        op_holds(OpV::Ge(v), lhs) == (read_pair(lhs, v) matches Some(p) && !(p.0 is NaN) && !(p.1 is NaN)
            && !num_lt(p.0, p.1)),
        op_holds(OpV::Le(v), lhs) == (read_pair(lhs, v) matches Some(p) && !(p.0 is NaN) && !(p.1 is NaN)
            && !num_lt(p.1, p.0)),
        op_holds(OpV::Lt(v), lhs) ==> op_holds(OpV::Le(v), lhs) && !op_holds(OpV::Gt(v), lhs) && !op_holds(
            OpV::Ge(v),
            lhs,
        ),
        op_holds(OpV::Gt(v), lhs) ==> op_holds(OpV::Ge(v), lhs) && !op_holds(OpV::Lt(v), lhs) && !op_holds(
            OpV::Le(v),
            lhs,
        ),
{
    match read_pair(lhs, v) {
        Some(p) => {
            let a = to_b64(p.0);
            let b = to_b64(p.1);
            assert(!(b64_lt(a, b) && b64_lt(b, a)));
            assert(p.0 is NaN ==> a is NaN);
            assert(p.1 is NaN ==> b is NaN);
        },
        None => {},
    }
}

/// Does the expression hold of the event?
pub open spec fn expr_holds(e: ExprV, ev: Event) -> bool
    decreases e,
{
    match e {
        ExprV::Or(a, b) => expr_holds(*a, ev) || expr_holds(*b, ev),
        ExprV::And(a, b) => expr_holds(*a, ev) && expr_holds(*b, ev),
        ExprV::Not(a) => !expr_holds(*a, ev),
        ExprV::Cmp(field, op) => op_holds(op, event_lookup(ev, field)),
    }
}

fn list_has(list: &Vec<String>, s: &str) -> (b: bool)
    ensures
        b == strs_v(list@).contains(s@),
{
    let ghost lv = strs_v(list@);
    let mut i: usize = 0;
    while i < list.len()
        invariant
            i <= list@.len(),
            lv == strs_v(list@),
            forall|j: int| 0 <= j < i ==> lv[j] != s@,
        decreases list@.len() - i,
    {
        if str_eq(list[i].as_str(), s) {
            assert(lv[i as int] == s@);
            return true;
        }
        i = i + 1;
    }
    false
}

impl Comparison {
    /// Evaluate this comparison against an event.
    pub fn eval(&self, ev: &Event) -> (b: bool)
        ensures
            b == op_holds(op_v(self.op), event_lookup(*ev, self.field@)),
    {
        let lhs = ev.get(self.field.as_str());
        let ghost lv = crate::event::opt_str(lhs);
        let ghost ov = op_v(self.op);
        let b = match &self.op {
            CmpOp::Eq(v) => {
                proof {
                    reveal_strlit("");
                    assert(""@ =~= Seq::<char>::empty());
                }
                match &lhs {
                    Some(s) => {
                        let r = str_eq(s.as_str(), v.as_str());
                        assert(r == op_holds(ov, lv));
                        r
                    },
                    None => {
                        let r = str_eq("", v.as_str());
                        assert(r == op_holds(ov, lv));
                        r
                    },
                }
            },
            CmpOp::Ne(v) => {
                proof {
                    reveal_strlit("");
                    assert(""@ =~= Seq::<char>::empty());
                }
                match &lhs {
                    Some(s) => !str_eq(s.as_str(), v.as_str()),
                    None => !str_eq("", v.as_str()),
                }
            },
            CmpOp::Contains(v) => match &lhs {
                Some(s) => {
                    let sc = chars_of(s.as_str());
                    let vc = chars_of(v.as_str());
                    let r = contains_chars(&sc, &vc);
                    assert(r == op_holds(ov, lv));
                    r
                },
                None => false,
            },
            CmpOp::In(list) => match &lhs {
                Some(s) => {
                    let r = list_has(list, s.as_str());
                    assert(r == op_holds(ov, lv));
                    r
                },
                None => false,
            },
            CmpOp::Regex(p) => match &lhs {
                Some(s) => {
                    let r = regex_is_match(p.as_str(), s.as_str());
                    assert(r == op_holds(ov, lv));
                    r
                },
                None => false,
            },
            CmpOp::Gt(v) => {
                let r = num_on(NumOp::Gt, &lhs, v.as_str());
                assert(r == op_holds(ov, lv));
                r
            },
            CmpOp::Lt(v) => num_on(NumOp::Lt, &lhs, v.as_str()),
            CmpOp::Ge(v) => num_on(NumOp::Ge, &lhs, v.as_str()),
            CmpOp::Le(v) => num_on(NumOp::Le, &lhs, v.as_str()),
        };
        proof {
            assert(lv == event_lookup(*ev, self.field@));
            assert(b == op_holds(ov, lv));
        }
        b
    }
}

fn num_on(op: NumOp, lhs: &Option<String>, rhs: &str) -> (b: bool)
    ensures
        b == num_text_holds(op, crate::event::opt_str(*lhs), rhs@),
{
    match lhs {
        Some(s) => num_text_cmp(op, Some(s.as_str()), rhs),
        None => num_text_cmp(op, None, rhs),
    }
}

} // verus!
