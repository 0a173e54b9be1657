//! The query language: a lexer and a recursive-descent parser producing an
//! expression tree.
//!
//! ```text
//! query            = or_expression ;
//! or_expression    = and_expression, { "OR", and_expression } ;
//! and_expression   = unary_expression, { ["AND"], unary_expression } ;
//! unary_expression = ["NOT"], (term | "(", or_expression, ")") ;
//! term             = [field, ":"], (word | quoted | prefix | time_range) ;
//! prefix           = word, "*" ;
//! time_range       = "[", rfc3339, "TO", rfc3339, "]" ;
//! ```
//!
//! Keywords are case-insensitive; values are lowercased. Errors carry the
//! character position of the offending token.

use crate::text::{
    all_white, all_white_exec, chars_of, copy_chars, extend_chars, is_lit, is_white,
    clone_opt, is_white_exec, lemma_lower_idem, lower, opt_view, string_of, take_chars,
    to_lower,
};
use crate::time::{parse_rfc3339, rfc3339_parse, Timestamp};
use vstd::prelude::*;

verus! {

broadcast use vstd::string::group_string_axioms;

/// A parse failure: the character position where it was noticed and the reason.
#[derive(Debug, Clone, PartialEq, Eq)]
pub struct ParseError {
    pub position: usize,
    pub message: String,
}

/// A failure as the specification describes it.
pub open spec fn err_view(e: ParseError) -> (int, Seq<char>) {
    (e.position as int, e.message@)
}

/// Lexical categories of the query language, with the text of words and
/// quoted values.
pub enum TokKind {
    Word(Seq<char>),
    Quoted(Seq<char>),
    Colon,
    LParen,
    RParen,
    LBracket,
    RBracket,
    And,
    Or,
    Not,
    To,
    Eof,
}

/// A token and the character position where it starts.
pub struct Tok {
    pub kind: TokKind,
    pub at: int,
}

/// Tokens made of one punctuation character.
pub open spec fn punct_kind(c: char) -> Option<TokKind> {
    if c == ':' {
        Some(TokKind::Colon)
    } else if c == '(' {
        Some(TokKind::LParen)
    } else if c == ')' {
        Some(TokKind::RParen)
    } else if c == '[' {
        Some(TokKind::LBracket)
    } else if c == ']' {
        Some(TokKind::RBracket)
    } else {
        None
    }
}

/// Characters that end a bare word.
pub open spec fn ends_word(c: char) -> bool {
    is_white(c) || punct_kind(c) is Some
}

/// Index just past the bare word starting at `i`.
pub open spec fn word_end(cs: Seq<char>, i: int) -> int
    decreases cs.len() - i,
{
    if i < 0 || i >= cs.len() || ends_word(cs[i]) {
        i
    } else {
        word_end(cs, i + 1)
    }
}

/// Keywords are recognized case-insensitively; other words keep their text.
pub open spec fn keyword_kind(w: Seq<char>) -> TokKind {
    let l = lower(w);
    if l == "and"@ {
        TokKind::And
    } else if l == "or"@ {
        TokKind::Or
    } else if l == "not"@ {
        TokKind::Not
    } else if l == "to"@ {
        TokKind::To
    } else {
        TokKind::Word(w)
    }
}

/// Reads a quoted value from index `i` (just after the opening quote):
/// the value with escapes resolved, and the index after the closing quote;
/// `None` when the quote is never closed. A backslash takes the next
/// character literally.
pub open spec fn quote_scan(cs: Seq<char>, i: int, acc: Seq<char>) -> Option<(Seq<char>, int)>
    decreases cs.len() - i,
{
    if i < 0 || i >= cs.len() {
        None
    } else if cs[i] == '"' {
        Some((acc, i + 1))
    } else if cs[i] == '\\' && i + 1 < cs.len() {
        quote_scan(cs, i + 2, acc.push(cs[i + 1]))
    } else {
        quote_scan(cs, i + 1, acc.push(cs[i]))
    }
}

/// Tokens of `cs` from index `i` on, after the tokens `acc`; the stream
/// ends with `Eof` at the character length of the input.
pub open spec fn lex_from(cs: Seq<char>, i: int, acc: Seq<Tok>) -> Result<
    Seq<Tok>,
    (int, Seq<char>),
>
    decreases cs.len() - i,
{
    if i < 0 {
        Err((0, Seq::empty()))
    } else if i >= cs.len() {
        Ok(acc.push(Tok { kind: TokKind::Eof, at: cs.len() as int }))
    } else {
        let c = cs[i];
        let at = i;
        if is_white(c) {
            lex_from(cs, i + 1, acc)
        } else if punct_kind(c) is Some {
            lex_from(cs, i + 1, acc.push(Tok { kind: punct_kind(c)->0, at }))
        } else if c == '"' {
            match quote_scan(cs, i + 1, Seq::empty()) {
                None => Err((at, "unterminated quoted value"@)),
                Some((v, j)) => if i < j <= cs.len() {
                    lex_from(cs, j, acc.push(Tok { kind: TokKind::Quoted(v), at }))
                } else {
                    Err((0, Seq::empty()))
                },
            }
        } else {
            let j = word_end(cs, i);
            if i < j <= cs.len() {
                lex_from(cs, j, acc.push(Tok { kind: keyword_kind(cs.subrange(i, j)), at }))
            } else {
                Err((0, Seq::empty()))
            }
        }
    }
}

/// The token stream of a query text.
pub open spec fn lex_spec(cs: Seq<char>) -> Result<Seq<Tok>, (int, Seq<char>)> {
    lex_from(cs, 0, Seq::empty())
}

/// Executable tokens.
pub(crate) enum TokenKind {
    Word(Vec<char>),
    Quoted(Vec<char>),
    Colon,
    LParen,
    RParen,
    LBracket,
    RBracket,
    And,
    Or,
    Not,
    To,
    Eof,
}

pub(crate) struct Token {
    pub(crate) kind: TokenKind,
    pub(crate) at: usize,
}

pub(crate) open spec fn kind_view(k: TokenKind) -> TokKind {
    match k {
        TokenKind::Word(w) => TokKind::Word(w@),
        TokenKind::Quoted(w) => TokKind::Quoted(w@),
        TokenKind::Colon => TokKind::Colon,
        TokenKind::LParen => TokKind::LParen,
        TokenKind::RParen => TokKind::RParen,
        TokenKind::LBracket => TokKind::LBracket,
        TokenKind::RBracket => TokKind::RBracket,
        TokenKind::And => TokKind::And,
        TokenKind::Or => TokKind::Or,
        TokenKind::Not => TokKind::Not,
        TokenKind::To => TokKind::To,
        TokenKind::Eof => TokKind::Eof,
    }
}

pub(crate) open spec fn tok_view(t: Token) -> Tok {
    Tok { kind: kind_view(t.kind), at: t.at as int }
}

pub(crate) open spec fn toks_view(ts: Seq<Token>) -> Seq<Tok> {
    ts.map_values(|t: Token| tok_view(t))
}

proof fn lemma_word_end_range(cs: Seq<char>, i: int)
    requires
        0 <= i <= cs.len(),
    ensures
        i <= word_end(cs, i) <= cs.len(),
    decreases cs.len() - i,
{
    if i < cs.len() && !ends_word(cs[i]) {
        lemma_word_end_range(cs, i + 1);
    }
}

proof fn lemma_quote_scan_range(cs: Seq<char>, i: int, acc: Seq<char>)
    requires
        0 <= i,
    ensures
        quote_scan(cs, i, acc) matches Some((v, j)) ==> i < j <= cs.len(),
    decreases cs.len() - i,
{
    if 0 <= i < cs.len() && cs[i] != '"' {
        if cs[i] == '\\' && i + 1 < cs.len() {
            lemma_quote_scan_range(cs, i + 2, acc.push(cs[i + 1]));
        } else {
            lemma_quote_scan_range(cs, i + 1, acc.push(cs[i]));
        }
    }
}

fn punct_exec(c: char) -> (r: Option<TokenKind>)
    ensures
        match r {
            Some(k) => punct_kind(c) == Some(kind_view(k)),
            None => punct_kind(c) is None,
        },
{
    if c == ':' {
        Some(TokenKind::Colon)
    } else if c == '(' {
        Some(TokenKind::LParen)
    } else if c == ')' {
        Some(TokenKind::RParen)
    } else if c == '[' {
        Some(TokenKind::LBracket)
    } else if c == ']' {
        Some(TokenKind::RBracket)
    } else {
        None
    }
}

fn keyword_exec(w: Vec<char>) -> (r: TokenKind)
    ensures
        kind_view(r) == keyword_kind(w@),
{
    let l = to_lower(w.as_slice());
    if is_lit(l.as_slice(), "and") {
        TokenKind::And
    } else if is_lit(l.as_slice(), "or") {
        TokenKind::Or
    } else if is_lit(l.as_slice(), "not") {
        TokenKind::Not
    } else if is_lit(l.as_slice(), "to") {
        TokenKind::To
    } else {
        TokenKind::Word(w)
    }
}

/// Splits a query into tokens ending with `Eof`.
fn lex(cs: &Vec<char>) -> (r: Result<Vec<Token>, ParseError>)
    ensures
        match r {
            Ok(ts) => lex_spec(cs@) == Ok::<Seq<Tok>, (int, Seq<char>)>(toks_view(ts@)),
            Err(e) => lex_spec(cs@) == Err::<Seq<Tok>, (int, Seq<char>)>(err_view(e)),
        },
{
    let mut tokens: Vec<Token> = Vec::new();
    let mut cursor: usize = 0;
    proof {
        assert(toks_view(tokens@) =~= Seq::<Tok>::empty());
    }
    while cursor < cs.len()
        invariant
            cursor <= cs.len(),
            lex_spec(cs@) == lex_from(cs@, cursor as int, toks_view(tokens@)),
        decreases cs.len() - cursor,
    {
        let at = cursor;
        let ch = cs[cursor];
        if is_white_exec(ch) {
            cursor += 1;
            continue;
        }
        match punct_exec(ch) {
            Some(kind) => {
                let ghost before = toks_view(tokens@);
                tokens.push(Token { kind, at });
                assert(toks_view(tokens@) =~= before.push(Tok { kind: punct_kind(ch)->0, at: at as int }));
                cursor += 1;
                continue;
            },
            None => {},
        }
        if ch == '"' {
            let start = cursor;
            proof {
                lemma_quote_scan_range(cs@, cursor + 1, Seq::empty());
            }
            cursor += 1;
            let mut value: Vec<char> = Vec::new();
            let mut closed = false;
            while cursor < cs.len()
                invariant_except_break
                    start < cursor <= cs.len(),
                    !closed,
                    quote_scan(cs@, start + 1, Seq::empty()) == quote_scan(cs@, cursor as int, value@),
                ensures
                    start < cursor <= cs.len(),
                    closed ==> quote_scan(cs@, start + 1, Seq::empty()) == Some((value@, cursor as int)),
                    !closed ==> quote_scan(cs@, start + 1, Seq::empty()) is None,
                decreases cs.len() - cursor,
            {
                let current = cs[cursor];
                cursor += 1;
                if current == '"' {
                    closed = true;
                    break;
                }
                if current == '\\' && cursor < cs.len() {
                    let escaped = cs[cursor];
                    value.push(escaped);
                    cursor += 1;
                } else {
                    value.push(current);
                }
            }
            if !closed {
                return Err(
                    ParseError {
                        position: at,
                        message: String::from_str("unterminated quoted value"),
                    },
                );
            }
            let ghost before = toks_view(tokens@);
            let ghost v = value@;
            tokens.push(Token { kind: TokenKind::Quoted(value), at });
            assert(toks_view(tokens@) =~= before.push(Tok { kind: TokKind::Quoted(v), at: at as int }));
            continue;
        }
        let start = cursor;
        proof {
            lemma_word_end_range(cs@, start as int);
            lemma_word_end_range(cs@, start + 1);
        }
        while cursor < cs.len()
            invariant_except_break
                start <= cursor <= cs.len(),
                word_end(cs@, start as int) == word_end(cs@, cursor as int),
            ensures
                start <= cursor <= cs.len(),
                word_end(cs@, start as int) == cursor,
            decreases cs.len() - cursor,
        {
            let c = cs[cursor];
            if is_white_exec(c) || punct_exec(c).is_some() {
                break;
            }
            cursor += 1;
        }
        let mut word: Vec<char> = Vec::new();
        let mut k: usize = start;
        while k < cursor
            invariant
                start <= k <= cursor <= cs.len(),
                word@ == cs@.subrange(start as int, k as int),
            decreases cursor - k,
        {
            word.push(cs[k]);
            assert(word@ =~= cs@.subrange(start as int, k + 1));
            k += 1;
        }
        let kind = keyword_exec(word);
        let ghost before = toks_view(tokens@);
        let ghost kv = kind_view(kind);
        tokens.push(Token { kind, at });
        assert(toks_view(tokens@) =~= before.push(Tok { kind: kv, at: at as int }));
    }
    let ghost before = toks_view(tokens@);
    tokens.push(Token { kind: TokenKind::Eof, at: cursor });
    assert(toks_view(tokens@) =~= before.push(Tok { kind: TokKind::Eof, at: cursor as int }));
    Ok(tokens)
}

} // verus!

verus! {

/// What a term asks of a value.
#[derive(Debug, Clone, PartialEq, Eq)]
pub enum MatchValue {
    Exact(String),
    Prefix(String),
    TimeRange { start: Timestamp, end: Timestamp },
}

/// A parsed query.
#[derive(Debug, PartialEq, Eq)]
pub enum Expr {
    Term { field: Option<String>, value: MatchValue },
    And(Box<Expr>, Box<Expr>),
    Or(Box<Expr>, Box<Expr>),
    Not(Box<Expr>),
}

/// Mathematical form of a match value.
pub enum ValueSpec {
    Exact(Seq<char>),
    Prefix(Seq<char>),
    TimeRange(Timestamp, Timestamp),
}

/// Mathematical form of a query expression.
pub enum ExprSpec {
    Term(Option<Seq<char>>, ValueSpec),
    And(Box<ExprSpec>, Box<ExprSpec>),
    Or(Box<ExprSpec>, Box<ExprSpec>),
    Not(Box<ExprSpec>),
}

impl MatchValue {
    pub open spec fn model(self) -> ValueSpec {
        match self {
            MatchValue::Exact(s) => ValueSpec::Exact(s@),
            MatchValue::Prefix(s) => ValueSpec::Prefix(s@),
            MatchValue::TimeRange { start, end } => ValueSpec::TimeRange(start, end),
        }
    }
}

impl Expr {
    pub open spec fn model(self) -> ExprSpec
        decreases self,
    {
        match self {
            Expr::Term { field, value } => ExprSpec::Term(opt_view(field), value.model()),
            Expr::And(a, b) => ExprSpec::And(Box::new(a.model()), Box::new(b.model())),
            Expr::Or(a, b) => ExprSpec::Or(Box::new(a.model()), Box::new(b.model())),
            Expr::Not(a) => ExprSpec::Not(Box::new(a.model())),
        }
    }
}

impl Clone for Expr {
    fn clone(&self) -> (r: Self)
        ensures
            r.model() == self.model(),
        decreases self,
    {
        match self {
            Expr::Term { field, value } => Expr::Term {
                field: clone_opt(field),
                value: match value {
                    MatchValue::Exact(s) => MatchValue::Exact(s.clone()),
                    MatchValue::Prefix(s) => MatchValue::Prefix(s.clone()),
                    MatchValue::TimeRange { start, end } => MatchValue::TimeRange { start: *start, end: *end },
                },
            },
            Expr::And(a, b) => Expr::And(Box::new((**a).clone()), Box::new((**b).clone())),
            Expr::Or(a, b) => Expr::Or(Box::new((**a).clone()), Box::new((**b).clone())),
            Expr::Not(a) => Expr::Not(Box::new((**a).clone())),
        }
    }
}

/// Outcome of parsing from a token position: the expression and the
/// position after it, or a failure.
pub type ParseOutcome = Result<(ExprSpec, int), (int, Seq<char>)>;

/// A bare word with a trailing `*` is a prefix; values are lowercased.
/// (A quoted value is always taken literally.)
pub open spec fn match_value_of(raw: Seq<char>) -> ValueSpec {
    if raw.len() > 0 && raw.last() == '*' {
        ValueSpec::Prefix(lower(raw.drop_last()))
    } else {
        ValueSpec::Exact(lower(raw))
    }
}

/// The token kind at a position (`Eof` past the end).
pub open spec fn tk(t: Seq<Tok>, p: int) -> TokKind {
    if 0 <= p < t.len() {
        t[p].kind
    } else {
        TokKind::Eof
    }
}

/// The character position of the token at a position in the stream.
pub open spec fn tat(t: Seq<Tok>, p: int) -> int {
    if 0 <= p < t.len() {
        t[p].at
    } else {
        0
    }
}

/// A token stream as the lexer makes it: it ends with its only `Eof`.
pub open spec fn toks_wf(t: Seq<Tok>) -> bool {
    &&& t.len() > 0
    &&& t.last().kind is Eof
    &&& forall|i: int| 0 <= i < t.len() - 1 ==> !(t[i].kind is Eof)
}

/// Tokens that can open a unary expression (and so continue an implicit AND).
pub open spec fn starts_unary(k: TokKind) -> bool {
    k is Word || k is Quoted || k is Not || k is LParen
}

pub open spec fn bad() -> (int, Seq<char>) {
    (0, Seq::empty())
}

/// `or_expression` at position `p`.
pub open spec fn parse_or_s(t: Seq<Tok>, p: int) -> ParseOutcome
    decreases t.len() - p, 4int,
{
    if !(0 <= p < t.len()) {
        Err(bad())
    } else {
        match parse_and_s(t, p) {
            Err(e) => Err(e),
            Ok((e, q)) => if p < q < t.len() {
                or_tail_s(t, e, q)
            } else {
                Err(bad())
            },
        }
    }
}

/// Further `OR` operands after `acc`, folded to the left.
pub open spec fn or_tail_s(t: Seq<Tok>, acc: ExprSpec, q: int) -> ParseOutcome
    decreases t.len() - q, 3int,
{
    if !(0 <= q < t.len()) {
        Err(bad())
    } else if tk(t, q) is Or {
        if q + 1 < t.len() {
            match parse_and_s(t, q + 1) {
                Err(e) => Err(e),
                Ok((e2, q2)) => if q + 1 < q2 < t.len() {
                    or_tail_s(t, ExprSpec::Or(Box::new(acc), Box::new(e2)), q2)
                } else {
                    Err(bad())
                },
            }
        } else {
            Err(bad())
        }
    } else {
        Ok((acc, q))
    }
}

/// `and_expression` at position `p`.
pub open spec fn parse_and_s(t: Seq<Tok>, p: int) -> ParseOutcome
    decreases t.len() - p, 2int,
{
    if !(0 <= p < t.len()) {
        Err(bad())
    } else {
        match parse_unary_s(t, p) {
            Err(e) => Err(e),
            Ok((e, q)) => if p < q < t.len() {
                and_tail_s(t, e, q)
            } else {
                Err(bad())
            },
        }
    }
}

/// Further `AND` operands after `acc` (explicit or by adjacency), folded
/// to the left.
pub open spec fn and_tail_s(t: Seq<Tok>, acc: ExprSpec, q: int) -> ParseOutcome
    decreases t.len() - q, 1int,
{
    if !(0 <= q < t.len()) {
        Err(bad())
    } else if tk(t, q) is And {
        if q + 1 < t.len() {
            match parse_unary_s(t, q + 1) {
                Err(e) => Err(e),
                Ok((e2, q2)) => if q + 1 < q2 < t.len() {
                    and_tail_s(t, ExprSpec::And(Box::new(acc), Box::new(e2)), q2)
                } else {
                    Err(bad())
                },
            }
        } else {
            Err(bad())
        }
    } else if starts_unary(tk(t, q)) {
        match parse_unary_s(t, q) {
            Err(e) => Err(e),
            Ok((e2, q2)) => if q < q2 < t.len() {
                and_tail_s(t, ExprSpec::And(Box::new(acc), Box::new(e2)), q2)
            } else {
                Err(bad())
            },
        }
    } else {
        Ok((acc, q))
    }
}

/// `unary_expression` at position `p`.
pub open spec fn parse_unary_s(t: Seq<Tok>, p: int) -> ParseOutcome
    decreases t.len() - p, 0int,
{
    if !(0 <= p < t.len()) {
        Err(bad())
    } else if tk(t, p) is Not {
        if p + 1 < t.len() {
            match parse_unary_s(t, p + 1) {
                Err(e) => Err(e),
                Ok((e, q)) => Ok((ExprSpec::Not(Box::new(e)), q)),
            }
        } else {
            Err(bad())
        }
    } else if tk(t, p) is LParen {
        if p + 1 < t.len() {
            match parse_or_s(t, p + 1) {
                Err(e) => Err(e),
                Ok((e, q)) => if tk(t, q) is RParen {
                    Ok((e, q + 1))
                } else {
                    Err((tat(t, q), "expected ')'"@))
                },
            }
        } else {
            Err(bad())
        }
    } else {
        parse_term_s(t, p)
    }
}

/// `term` at position `p`.
pub open spec fn parse_term_s(t: Seq<Tok>, p: int) -> ParseOutcome {
    let raw = match tk(t, p) {
        TokKind::Word(v) => Some(v),
        TokKind::Quoted(v) => Some(v),
        _ => None,
    };
    match raw {
        None => Err((tat(t, p), "expected a search term"@)),
        Some(raw) => if !(tk(t, p + 1) is Colon) {
            let value = match tk(t, p) {
                TokKind::Quoted(v) => ValueSpec::Exact(lower(v)),
                _ => match_value_of(raw),
            };
            Ok((ExprSpec::Term(None, value), p + 1))
        } else {
            let field = lower(raw);
            let q = p + 2;
            if tk(t, q) is LBracket {
                parse_range_s(t, field, q + 1)
            } else {
                match tk(t, q) {
                    TokKind::Word(v) => Ok((ExprSpec::Term(Some(field), match_value_of(v)), q + 1)),
                    TokKind::Quoted(v) => Ok(
                        (ExprSpec::Term(Some(field), ValueSpec::Exact(lower(v))), q + 1),
                    ),
                    _ => Err((tat(t, q), "expected a field value"@)),
                }
            }
        },
    }
}

/// A time range after `field:[`, starting at position `p`.
pub open spec fn parse_range_s(t: Seq<Tok>, field: Seq<char>, p: int) -> ParseOutcome {
    if field != "timestamp"@ && field != "time"@ {
        Err((tat(t, p), "ranges are supported only for timestamp"@))
    } else {
        range_scan_s(t, p, Seq::empty(), Seq::empty(), false)
    }
}

/// Collects the text of the two endpoints up to the closing `]`; the
/// first `TO` separates them, colons are kept.
pub open spec fn range_scan_s(
    t: Seq<Tok>,
    p: int,
    left: Seq<char>,
    right: Seq<char>,
    after_to: bool,
) -> ParseOutcome
    decreases t.len() - p,
{
    if !(0 <= p < t.len()) {
        Err(bad())
    } else if tk(t, p) is RBracket || tk(t, p) is Eof {
        if !(tk(t, p) is RBracket) || !after_to {
            Err((tat(t, p), "expected 'TO' and closing ']' in range"@))
        } else {
            finish_range_s(t, p + 1, left, right)
        }
    } else {
        let q = p + 1;
        match tk(t, p) {
            TokKind::To => if !after_to {
                range_scan_s(t, q, left, right, true)
            } else {
                Err((tat(t, q), "invalid timestamp range"@))
            },
            TokKind::Colon => if after_to {
                range_scan_s(t, q, left, right.push(':'), after_to)
            } else {
                range_scan_s(t, q, left.push(':'), right, after_to)
            },
            TokKind::Word(v) => if after_to {
                range_scan_s(t, q, left, right + v, after_to)
            } else {
                range_scan_s(t, q, left + v, right, after_to)
            },
            TokKind::Quoted(v) => if after_to {
                range_scan_s(t, q, left, right + v, after_to)
            } else {
                range_scan_s(t, q, left + v, right, after_to)
            },
            _ => Err((tat(t, q), "invalid timestamp range"@)),
        }
    }
}

/// Both endpoints must be RFC 3339 instants, the start not after the end.
pub open spec fn finish_range_s(t: Seq<Tok>, q: int, left: Seq<char>, right: Seq<char>) -> ParseOutcome {
    match rfc3339_parse(left) {
        None => Err((tat(t, q), "invalid RFC 3339 range start"@)),
        Some((s1, n1)) => match rfc3339_parse(right) {
            None => Err((tat(t, q), "invalid RFC 3339 range end"@)),
            Some((s2, n2)) => {
                let start = Timestamp { secs: s1, nanos: n1 };
                let end = Timestamp { secs: s2, nanos: n2 };
                if end.lt(start) {
                    Err((tat(t, q), "range start is after range end"@))
                } else {
                    Ok((ExprSpec::Term(Some("timestamp"@), ValueSpec::TimeRange(start, end)), q))
                }
            },
        },
    }
}

/// The meaning of a query text: its expression, or the failure with the
/// character position where it was noticed.
pub open spec fn query_spec(cs: Seq<char>) -> Result<ExprSpec, (int, Seq<char>)> {
    if all_white(cs) {
        Err((0, "query cannot be empty"@))
    } else {
        match lex_spec(cs) {
            Err(e) => Err(e),
            Ok(t) => match parse_or_s(t, 0) {
                Err(e) => Err(e),
                Ok((e, p)) => if tk(t, p) is Eof {
                    Ok(e)
                } else {
                    Err((tat(t, p), "unexpected token"@))
                },
            },
        }
    }
}

/// Field names and values of a term are lowercase.
pub open spec fn folded_term(f: Option<Seq<char>>, v: ValueSpec) -> bool {
    &&& (f matches Some(g) ==> lower(g) == g)
    &&& match v {
        ValueSpec::Exact(s) => lower(s) == s,
        ValueSpec::Prefix(s) => lower(s) == s,
        ValueSpec::TimeRange(_, _) => true,
    }
}

/// Field names and values of every term are lowercase.
pub open spec fn folded(x: ExprSpec) -> bool
    decreases x,
{
    match x {
        ExprSpec::Term(f, v) => folded_term(f, v),
        ExprSpec::And(a, b) => folded(*a) && folded(*b),
        ExprSpec::Or(a, b) => folded(*a) && folded(*b),
        ExprSpec::Not(a) => folded(*a),
    }
}

proof fn lemma_value_folded(f: Option<Seq<char>>, raw: Seq<char>)
    requires
        f matches Some(g) ==> lower(g) == g,
    ensures
        folded_term(f, match_value_of(raw)),
{
    lemma_lower_idem(raw);
    lemma_lower_idem(raw.drop_last());
}

proof fn lemma_range_scan_folded(t: Seq<Tok>, p: int, left: Seq<char>, right: Seq<char>, after_to: bool)
    ensures
        range_scan_s(t, p, left, right, after_to) matches Ok(r) ==> folded(r.0),
    decreases t.len() - p,
{
    reveal_strlit("timestamp");
    if 0 <= p < t.len() && !(tk(t, p) is RBracket || tk(t, p) is Eof) {
        let q = p + 1;
        match tk(t, p) {
            TokKind::To => lemma_range_scan_folded(t, q, left, right, true),
            TokKind::Colon => {
                lemma_range_scan_folded(t, q, left, right.push(':'), after_to);
                lemma_range_scan_folded(t, q, left.push(':'), right, after_to);
            },
            TokKind::Word(v) => {
                lemma_range_scan_folded(t, q, left, right + v, after_to);
                lemma_range_scan_folded(t, q, left + v, right, after_to);
            },
            TokKind::Quoted(v) => {
                lemma_range_scan_folded(t, q, left, right + v, after_to);
                lemma_range_scan_folded(t, q, left + v, right, after_to);
            },
            _ => {},
        }
    } else {
        assert(lower("timestamp"@) =~= "timestamp"@);
    }
}

proof fn lemma_term_folded(t: Seq<Tok>, p: int)
    ensures
        parse_term_s(t, p) matches Ok(r) ==> folded(r.0),
{
    match tk(t, p) {
        TokKind::Word(raw) => {
            lemma_value_folded(None, raw);
            lemma_lower_idem(raw);
            lemma_range_scan_folded(t, p + 3, Seq::empty(), Seq::empty(), false);
            match tk(t, p + 2) {
                TokKind::Word(v) => lemma_value_folded(Some(lower(raw)), v),
                TokKind::Quoted(v) => lemma_lower_idem(v),
                _ => {},
            }
        },
        TokKind::Quoted(raw) => {
            lemma_lower_idem(raw);
            lemma_range_scan_folded(t, p + 3, Seq::empty(), Seq::empty(), false);
            match tk(t, p + 2) {
                TokKind::Word(v) => lemma_value_folded(Some(lower(raw)), v),
                TokKind::Quoted(v) => lemma_lower_idem(v),
                _ => {},
            }
        },
        _ => {},
    }
}

proof fn lemma_or_folded(t: Seq<Tok>, p: int)
    ensures
        parse_or_s(t, p) matches Ok(r) ==> folded(r.0),
    decreases t.len() - p, 4int,
{
    if 0 <= p < t.len() {
        lemma_and_folded(t, p);
        match parse_and_s(t, p) {
            Ok((e, q)) => if p < q < t.len() {
                lemma_or_tail_folded(t, e, q);
            },
            Err(_) => {},
        }
    }
}

proof fn lemma_or_tail_folded(t: Seq<Tok>, acc: ExprSpec, q: int)
    requires
        folded(acc),
    ensures
        or_tail_s(t, acc, q) matches Ok(r) ==> folded(r.0),
    decreases t.len() - q, 3int,
{
    if 0 <= q < t.len() && tk(t, q) is Or && q + 1 < t.len() {
        lemma_and_folded(t, q + 1);
        match parse_and_s(t, q + 1) {
            Ok((e2, q2)) => if q + 1 < q2 < t.len() {
                lemma_or_tail_folded(t, ExprSpec::Or(Box::new(acc), Box::new(e2)), q2);
            },
            Err(_) => {},
        }
    }
}

proof fn lemma_and_folded(t: Seq<Tok>, p: int)
    ensures
        parse_and_s(t, p) matches Ok(r) ==> folded(r.0),
    decreases t.len() - p, 2int,
{
    if 0 <= p < t.len() {
        lemma_unary_folded(t, p);
        match parse_unary_s(t, p) {
            Ok((e, q)) => if p < q < t.len() {
                lemma_and_tail_folded(t, e, q);
            },
            Err(_) => {},
        }
    }
}

proof fn lemma_and_tail_folded(t: Seq<Tok>, acc: ExprSpec, q: int)
    requires
        folded(acc),
    ensures
        and_tail_s(t, acc, q) matches Ok(r) ==> folded(r.0),
    decreases t.len() - q, 1int,
{
    if 0 <= q < t.len() {
        if tk(t, q) is And {
            if q + 1 < t.len() {
                lemma_unary_folded(t, q + 1);
                match parse_unary_s(t, q + 1) {
                    Ok((e2, q2)) => if q + 1 < q2 < t.len() {
                        lemma_and_tail_folded(t, ExprSpec::And(Box::new(acc), Box::new(e2)), q2);
                    },
                    Err(_) => {},
                }
            }
        } else if starts_unary(tk(t, q)) {
            lemma_unary_folded(t, q);
            match parse_unary_s(t, q) {
                Ok((e2, q2)) => if q < q2 < t.len() {
                    lemma_and_tail_folded(t, ExprSpec::And(Box::new(acc), Box::new(e2)), q2);
                },
                Err(_) => {},
            }
        }
    }
}

proof fn lemma_unary_folded(t: Seq<Tok>, p: int)
    ensures
        parse_unary_s(t, p) matches Ok(r) ==> folded(r.0),
    decreases t.len() - p, 0int,
{
    if 0 <= p < t.len() {
        if tk(t, p) is Not {
            if p + 1 < t.len() {
                lemma_unary_folded(t, p + 1);
            }
        } else if tk(t, p) is LParen {
            if p + 1 < t.len() {
                lemma_or_folded(t, p + 1);
            }
        } else {
            lemma_term_folded(t, p);
        }
    }
}

/// The parser folds field names and values to lowercase.
pub proof fn lemma_query_folded(cs: Seq<char>)
    ensures
        query_spec(cs) matches Ok(x) ==> folded(x),
{
    match lex_spec(cs) {
        Ok(t) => lemma_or_folded(t, 0),
        Err(_) => {},
    }
}

} // verus!

verus! {

/// Kind of a token without its text.
#[derive(Debug, Clone, Copy, PartialEq, Eq, Structural)]
pub(crate) enum Tag {
    Word,
    Quoted,
    Colon,
    LParen,
    RParen,
    LBracket,
    RBracket,
    And,
    Or,
    Not,
    To,
    Eof,
}

pub(crate) open spec fn tag_of(k: TokKind) -> Tag {
    match k {
        TokKind::Word(_) => Tag::Word,
        TokKind::Quoted(_) => Tag::Quoted,
        TokKind::Colon => Tag::Colon,
        TokKind::LParen => Tag::LParen,
        TokKind::RParen => Tag::RParen,
        TokKind::LBracket => Tag::LBracket,
        TokKind::RBracket => Tag::RBracket,
        TokKind::And => Tag::And,
        TokKind::Or => Tag::Or,
        TokKind::Not => Tag::Not,
        TokKind::To => Tag::To,
        TokKind::Eof => Tag::Eof,
    }
}

fn tag(t: &Vec<Token>, p: usize) -> (r: Tag)
    requires
        p < t.len(),
    ensures
        r == tag_of(tk(toks_view(t@), p as int)),
{
    match &t[p].kind {
        TokenKind::Word(_) => Tag::Word,
        TokenKind::Quoted(_) => Tag::Quoted,
        TokenKind::Colon => Tag::Colon,
        TokenKind::LParen => Tag::LParen,
        TokenKind::RParen => Tag::RParen,
        TokenKind::LBracket => Tag::LBracket,
        TokenKind::RBracket => Tag::RBracket,
        TokenKind::And => Tag::And,
        TokenKind::Or => Tag::Or,
        TokenKind::Not => Tag::Not,
        TokenKind::To => Tag::To,
        TokenKind::Eof => Tag::Eof,
    }
}

proof fn lemma_lex_from_wf(cs: Seq<char>, i: int, acc: Seq<Tok>)
    requires
        0 <= i,
        forall|k: int| 0 <= k < acc.len() ==> !(acc[k].kind is Eof),
    ensures
        lex_from(cs, i, acc) matches Ok(t) ==> toks_wf(t),
    decreases cs.len() - i,
{
    if i < cs.len() {
        let c = cs[i];
        let at = i;
        if is_white(c) {
            lemma_lex_from_wf(cs, i + 1, acc);
        } else if punct_kind(c) is Some {
            let acc2 = acc.push(Tok { kind: punct_kind(c)->0, at });
            assert forall|k: int| 0 <= k < acc2.len() implies !(acc2[k].kind is Eof) by {
                if k < acc.len() {
                    assert(acc2[k] == acc[k]);
                }
            }
            lemma_lex_from_wf(cs, i + 1, acc2);
        } else if c == '"' {
            match quote_scan(cs, i + 1, Seq::empty()) {
                None => {},
                Some((v, j)) => {
                    if i < j <= cs.len() {
                        let acc2 = acc.push(Tok { kind: TokKind::Quoted(v), at });
                        assert forall|k: int| 0 <= k < acc2.len() implies !(acc2[k].kind is Eof) by {
                            if k < acc.len() {
                                assert(acc2[k] == acc[k]);
                            }
                        }
                        lemma_lex_from_wf(cs, j, acc2);
                    }
                },
            }
        } else {
            let j = word_end(cs, i);
            if i < j <= cs.len() {
                let acc2 = acc.push(Tok { kind: keyword_kind(cs.subrange(i, j)), at });
                assert forall|k: int| 0 <= k < acc2.len() implies !(acc2[k].kind is Eof) by {
                    if k < acc.len() {
                        assert(acc2[k] == acc[k]);
                    }
                }
                lemma_lex_from_wf(cs, j, acc2);
            }
        }
    } else if i >= cs.len() {
        let t = acc.push(Tok { kind: TokKind::Eof, at: cs.len() as int });
        assert forall|k: int| 0 <= k < t.len() - 1 implies !(t[k].kind is Eof) by {
            assert(t[k] == acc[k]);
        }
    }
}

/// A word is not a keyword under any case.
pub open spec fn plain_word(w: Seq<char>) -> bool {
    lower(w) != "and"@ && lower(w) != "or"@ && lower(w) != "not"@ && lower(w) != "to"@
}

/// Keywords are case-insensitive: a word whose lowercase form is `and`,
/// `or`, `not` or `to` is that keyword, any other word stays a word with
/// its own text, and two words with the same lowercase form lex alike
/// unless both stay words.
pub proof fn lemma_keywords_fold_case(w: Seq<char>, v: Seq<char>)
    ensures
        lower(w) == "and"@ ==> keyword_kind(w) == TokKind::And,
        lower(w) == "or"@ ==> keyword_kind(w) == TokKind::Or,
        lower(w) == "not"@ ==> keyword_kind(w) == TokKind::Not,
        lower(w) == "to"@ ==> keyword_kind(w) == TokKind::To,
        plain_word(w) ==> keyword_kind(w) == TokKind::Word(w),
        lower(w) == lower(v) ==> (keyword_kind(w) is Word <==> keyword_kind(v) is Word),
        lower(w) == lower(v) && !(keyword_kind(w) is Word) ==> keyword_kind(w) == keyword_kind(v),
{
    reveal_strlit("and");
    reveal_strlit("or");
    reveal_strlit("not");
    reveal_strlit("to");
    assert("and"@[0] != "not"@[0]);
    assert("or"@[0] != "to"@[0]);
    assert("and"@.len() == 3 && "not"@.len() == 3 && "or"@.len() == 2 && "to"@.len() == 2);
}

proof fn lemma_lex_from_words(cs: Seq<char>, i: int, acc: Seq<Tok>)
    requires
        0 <= i,
        forall|k: int| 0 <= k < acc.len() ==> ((#[trigger] acc[k]).kind matches TokKind::Word(w) ==> plain_word(w)),
    ensures
        lex_from(cs, i, acc) matches Ok(t) ==> forall|k: int|
            0 <= k < t.len() ==> ((#[trigger] t[k]).kind matches TokKind::Word(w) ==> plain_word(w)),
    decreases cs.len() - i,
{
    if i < cs.len() {
        let c = cs[i];
        let at = i;
        if is_white(c) {
            lemma_lex_from_words(cs, i + 1, acc);
        } else if punct_kind(c) is Some {
            let acc2 = acc.push(Tok { kind: punct_kind(c)->0, at });
            assert forall|k: int| 0 <= k < acc2.len() implies ((#[trigger] acc2[k]).kind matches TokKind::Word(w) ==> plain_word(w)) by {
                if k < acc.len() {
                    assert(acc2[k] == acc[k]);
                }
            }
            lemma_lex_from_words(cs, i + 1, acc2);
        } else if c == '"' {
            match quote_scan(cs, i + 1, Seq::empty()) {
                None => {},
                Some((v, j)) => {
                    if i < j <= cs.len() {
                        let acc2 = acc.push(Tok { kind: TokKind::Quoted(v), at });
                        assert forall|k: int| 0 <= k < acc2.len() implies ((#[trigger] acc2[k]).kind matches TokKind::Word(
                            w,
                        ) ==> plain_word(w)) by {
                            if k < acc.len() {
                                assert(acc2[k] == acc[k]);
                            }
                        }
                        lemma_lex_from_words(cs, j, acc2);
                    }
                },
            }
        } else {
            let j = word_end(cs, i);
            if i < j <= cs.len() {
                let word = cs.subrange(i, j);
                let acc2 = acc.push(Tok { kind: keyword_kind(word), at });
                lemma_keywords_fold_case(word, word);
                assert forall|k: int| 0 <= k < acc2.len() implies ((#[trigger] acc2[k]).kind matches TokKind::Word(w) ==> plain_word(
                    w,
                )) by {
                    if k < acc.len() {
                        assert(acc2[k] == acc[k]);
                    }
                }
                lemma_lex_from_words(cs, j, acc2);
            }
        }
    } else {
        let t = acc.push(Tok { kind: TokKind::Eof, at: cs.len() as int });
        assert forall|k: int| 0 <= k < t.len() implies ((#[trigger] t[k]).kind matches TokKind::Word(w) ==> plain_word(w)) by {
            if k < acc.len() {
                assert(t[k] == acc[k]);
            }
        }
    }
}

/// No keyword survives lexing as a word, whatever its case: every word
/// token of a query is a word that is none of `and`, `or`, `not`, `to`
/// in lowercase.
pub proof fn lemma_lexed_words_are_plain(cs: Seq<char>)
    ensures
        lex_spec(cs) matches Ok(t) ==> forall|k: int|
            0 <= k < t.len() ==> ((#[trigger] t[k]).kind matches TokKind::Word(w) ==> plain_word(w)),
{
    lemma_lex_from_words(cs, 0, Seq::empty());
}

/// The executable outcome agrees with the specified one; a success lies
/// strictly after `p` and before the end of the stream.
pub(crate) open spec fn agrees(r: Result<(Expr, usize), ParseError>, s: ParseOutcome, p: int, n: int) -> bool {
    match r {
        Ok((e, q)) => s == Ok::<(ExprSpec, int), (int, Seq<char>)>((e.model(), q as int)) && p < q < n,
        Err(e) => s == Err::<(ExprSpec, int), (int, Seq<char>)>(err_view(e)),
    }
}

fn error_at(t: &Vec<Token>, p: usize, message: &str) -> (e: ParseError)
    requires
        p < t.len(),
    ensures
        err_view(e) == (tat(toks_view(t@), p as int), message@),
{
    ParseError { position: t[p].at, message: String::from_str(message) }
}

fn to_match_value(raw: &[char]) -> (r: MatchValue)
    ensures
        r.model() == match_value_of(raw@),
{
    if raw.len() > 0 && raw[raw.len() - 1] == '*' {
        let body = take_chars(raw, raw.len() - 1);
        assert(body@ =~= raw@.drop_last());
        MatchValue::Prefix(string_of(to_lower(body.as_slice()).as_slice()))
    } else {
        MatchValue::Exact(string_of(to_lower(raw).as_slice()))
    }
}

fn literal_value(raw: &[char]) -> (r: MatchValue)
    ensures
        r.model() == ValueSpec::Exact(lower(raw@)),
{
    MatchValue::Exact(string_of(to_lower(raw).as_slice()))
}

fn parse_or(t: &Vec<Token>, p: usize) -> (r: Result<(Expr, usize), ParseError>)
    requires
        toks_wf(toks_view(t@)),
        p < t.len(),
    ensures
        agrees(r, parse_or_s(toks_view(t@), p as int), p as int, t.len() as int),
    decreases t@.len() - p, 4int,
{
    let ghost ts = toks_view(t@);
    let (mut expr, mut q) = match parse_and(t, p) {
        Err(e) => return Err(e),
        Ok(x) => x,
    };
    loop
        invariant
            toks_wf(ts),
            ts == toks_view(t@),
            p < q < t.len(),
            parse_or_s(ts, p as int) == or_tail_s(ts, expr.model(), q as int),
        decreases t@.len() - q,
    {
        if tag(t, q) != Tag::Or {
            return Ok((expr, q));
        }
        assert(q + 1 < t.len()) by {
            assert(ts[q as int].kind is Or);
        }
        match parse_and(t, q + 1) {
            Err(e) => return Err(e),
            Ok((e2, q2)) => {
                expr = Expr::Or(Box::new(expr), Box::new(e2));
                q = q2;
            },
        }
    }
}

fn parse_and(t: &Vec<Token>, p: usize) -> (r: Result<(Expr, usize), ParseError>)
    requires
        toks_wf(toks_view(t@)),
        p < t.len(),
    ensures
        agrees(r, parse_and_s(toks_view(t@), p as int), p as int, t.len() as int),
    decreases t@.len() - p, 2int,
{
    let ghost ts = toks_view(t@);
    let (mut expr, mut q) = match parse_unary(t, p) {
        Err(e) => return Err(e),
        Ok(x) => x,
    };
    loop
        invariant
            toks_wf(ts),
            ts == toks_view(t@),
            p < q < t.len(),
            parse_and_s(ts, p as int) == and_tail_s(ts, expr.model(), q as int),
        decreases t@.len() - q,
    {
        let g = tag(t, q);
        if g == Tag::And {
            assert(q + 1 < t.len()) by {
                assert(ts[q as int].kind is And);
            }
            match parse_unary(t, q + 1) {
                Err(e) => return Err(e),
                Ok((e2, q2)) => {
                    expr = Expr::And(Box::new(expr), Box::new(e2));
                    q = q2;
                },
            }
        } else if g == Tag::Word || g == Tag::Quoted || g == Tag::Not || g == Tag::LParen {
            match parse_unary(t, q) {
                Err(e) => return Err(e),
                Ok((e2, q2)) => {
                    expr = Expr::And(Box::new(expr), Box::new(e2));
                    q = q2;
                },
            }
        } else {
            return Ok((expr, q));
        }
    }
}

fn parse_unary(t: &Vec<Token>, p: usize) -> (r: Result<(Expr, usize), ParseError>)
    requires
        toks_wf(toks_view(t@)),
        p < t.len(),
    ensures
        agrees(r, parse_unary_s(toks_view(t@), p as int), p as int, t.len() as int),
    decreases t@.len() - p, 0int,
{
    let ghost ts = toks_view(t@);
    let g = tag(t, p);
    if g == Tag::Not {
        assert(p + 1 < t.len()) by {
            assert(ts[p as int].kind is Not);
        }
        match parse_unary(t, p + 1) {
            Err(e) => Err(e),
            Ok((e, q)) => Ok((Expr::Not(Box::new(e)), q)),
        }
    } else if g == Tag::LParen {
        assert(p + 1 < t.len()) by {
            assert(ts[p as int].kind is LParen);
        }
        match parse_or(t, p + 1) {
            Err(e) => Err(e),
            Ok((e, q)) => {
                if tag(t, q) == Tag::RParen {
                    assert(q + 1 < t.len()) by {
                        assert(ts[q as int].kind is RParen);
                    }
                    Ok((e, q + 1))
                } else {
                    Err(error_at(t, q, "expected ')'"))
                }
            },
        }
    } else {
        parse_term(t, p)
    }
}

fn parse_term(t: &Vec<Token>, p: usize) -> (r: Result<(Expr, usize), ParseError>)
    requires
        toks_wf(toks_view(t@)),
        p < t.len(),
    ensures
        agrees(r, parse_term_s(toks_view(t@), p as int), p as int, t.len() as int),
{
    let ghost ts = toks_view(t@);
    let (raw, quoted): (Vec<char>, bool) = match &t[p].kind {
        TokenKind::Word(v) => (copy_chars(v.as_slice()), false),
        TokenKind::Quoted(v) => (copy_chars(v.as_slice()), true),
        _ => return Err(error_at(t, p, "expected a search term")),
    };
    assert(p + 1 < t.len()) by {
        assert(!(ts[p as int].kind is Eof));
    }
    if tag(t, p + 1) != Tag::Colon {
        let value = if quoted {
            literal_value(raw.as_slice())
        } else {
            to_match_value(raw.as_slice())
        };
        return Ok((Expr::Term { field: None, value }, p + 1));
    }
    let field = to_lower(raw.as_slice());
    let q = p + 2;
    assert(q < t.len()) by {
        assert(ts[p + 1].kind is Colon);
    }
    if tag(t, q) == Tag::LBracket {
        assert(q + 1 < t.len()) by {
            assert(ts[q as int].kind is LBracket);
        }
        return parse_range(t, field, q + 1);
    }
    match &t[q].kind {
        TokenKind::Word(v) => {
            assert(q + 1 < t.len()) by {
                assert(ts[q as int].kind is Word);
            }
            Ok(
                (
                    Expr::Term {
                        field: Some(string_of(field.as_slice())),
                        value: to_match_value(v.as_slice()),
                    },
                    q + 1,
                ),
            )
        },
        TokenKind::Quoted(v) => {
            assert(q + 1 < t.len()) by {
                assert(ts[q as int].kind is Quoted);
            }
            Ok(
                (
                    Expr::Term {
                        field: Some(string_of(field.as_slice())),
                        value: literal_value(v.as_slice()),
                    },
                    q + 1,
                ),
            )
        },
        _ => Err(error_at(t, q, "expected a field value")),
    }
}

fn parse_range(t: &Vec<Token>, field: Vec<char>, p: usize) -> (r: Result<(Expr, usize), ParseError>)
    requires
        toks_wf(toks_view(t@)),
        0 < p < t.len(),
    ensures
        agrees(r, parse_range_s(toks_view(t@), field@, p as int), p as int - 1, t.len() as int),
{
    let ghost ts = toks_view(t@);
    if !is_lit(field.as_slice(), "timestamp") && !is_lit(field.as_slice(), "time") {
        return Err(error_at(t, p, "ranges are supported only for timestamp"));
    }
    let mut left: Vec<char> = Vec::new();
    let mut right: Vec<char> = Vec::new();
    let mut after_to = false;
    let mut q = p;
    while tag(t, q) != Tag::RBracket && tag(t, q) != Tag::Eof
        invariant
            toks_wf(ts),
            ts == toks_view(t@),
            p <= q < t.len(),
            parse_range_s(ts, field@, p as int) == range_scan_s(ts, q as int, left@, right@, after_to),
        decreases t@.len() - q,
    {
        assert(q + 1 < t.len()) by {
            assert(!(ts[q as int].kind is Eof));
        }
        let g = tag(t, q);
        if g == Tag::To && !after_to {
            after_to = true;
        } else if g == Tag::Colon {
            if after_to {
                right.push(':');
            } else {
                left.push(':');
            }
        } else if g == Tag::Word || g == Tag::Quoted {
            match &t[q].kind {
                TokenKind::Word(v) => {
                    if after_to {
                        extend_chars(&mut right, v.as_slice());
                    } else {
                        extend_chars(&mut left, v.as_slice());
                    }
                },
                TokenKind::Quoted(v) => {
                    if after_to {
                        extend_chars(&mut right, v.as_slice());
                    } else {
                        extend_chars(&mut left, v.as_slice());
                    }
                },
                _ => {},
            }
        } else {
            return Err(error_at(t, q + 1, "invalid timestamp range"));
        }
        q += 1;
    }
    if tag(t, q) != Tag::RBracket || !after_to {
        return Err(error_at(t, q, "expected 'TO' and closing ']' in range"));
    }
    assert(q + 1 < t.len()) by {
        assert(ts[q as int].kind is RBracket);
    }
    let q = q + 1;
    let left_text = string_of(left.as_slice());
    let start = match parse_rfc3339(left_text.as_str()) {
        None => return Err(error_at(t, q, "invalid RFC 3339 range start")),
        Some(s) => s,
    };
    let right_text = string_of(right.as_slice());
    let end = match parse_rfc3339(right_text.as_str()) {
        None => return Err(error_at(t, q, "invalid RFC 3339 range end")),
        Some(s) => s,
    };
    if end.is_before(&start) {
        return Err(error_at(t, q, "range start is after range end"));
    }
    Ok(
        (
            Expr::Term {
                field: Some(String::from_str("timestamp")),
                value: MatchValue::TimeRange { start, end },
            },
            q,
        ),
    )
}

/// Parses a query text.
pub fn parse_query(input: &str) -> (r: Result<Expr, ParseError>)
    ensures
        match r {
            Ok(e) => query_spec(input@) == Ok::<ExprSpec, (int, Seq<char>)>(e.model()),
            Err(e) => query_spec(input@) == Err::<ExprSpec, (int, Seq<char>)>(err_view(e)),
        },
{
    let cs = chars_of(input);
    if all_white_exec(cs.as_slice()) {
        return Err(ParseError { position: 0, message: String::from_str("query cannot be empty") });
    }
    let t = match lex(&cs) {
        Err(e) => return Err(e),
        Ok(t) => t,
    };
    proof {
        lemma_lex_from_wf(cs@, 0, Seq::empty());
    }
    match parse_or(&t, 0) {
        Err(e) => Err(e),
        Ok((e, p)) => {
            if tag(&t, p) != Tag::Eof {
                Err(error_at(&t, p, "unexpected token"))
            } else {
                Ok(e)
            }
        },
    }
}

} // verus!
