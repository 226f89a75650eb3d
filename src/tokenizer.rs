//! Lexical analysis: source text to a sequence of tokens.
use vstd::prelude::*;
use vstd::string::*;

verus! {

/// A lexical unit.
#[derive(Debug, Clone)]
pub enum Token {
    Number(i64),
    Operator(String),
    LeftParen,
    RightParen,
    Ident(String),
    SEMICOLON,
    RESERVED(String),
    EOF,
}

/// The mathematical value of a token.
pub enum Tok {
    Num(int),
    Op(Seq<char>),
    LParen,
    RParen,
    Ident(Seq<char>),
    Semi,
    Reserved(Seq<char>),
    Eof,
}

impl View for Token {
    type V = Tok;

    open spec fn view(&self) -> Tok {
        match self {
            Token::Number(n) => Tok::Num(*n as int),
            Token::Operator(s) => Tok::Op(s@),
            Token::LeftParen => Tok::LParen,
            Token::RightParen => Tok::RParen,
            Token::Ident(s) => Tok::Ident(s@),
            Token::SEMICOLON => Tok::Semi,
            Token::RESERVED(s) => Tok::Reserved(s@),
            Token::EOF => Tok::Eof,
        }
    }
}

/// The views of a sequence of tokens.
pub open spec fn toks_of(v: Seq<Token>) -> Seq<Tok> {
    v.map_values(|t: Token| t@)
}

/// Why a source text cannot be split into tokens.
#[derive(Debug, Clone, Copy, PartialEq, Eq, Structural)]
pub enum LexError {
    /// A character that starts no token (a bare `!` included), at a character offset.
    UnexpectedChar { pos: usize, ch: char },
    /// A run of digits, starting at this character offset, whose value exceeds `i64::MAX`.
    NumberTooLarge { pos: usize },
}

pub open spec fn is_space(c: char) -> bool {
    c == ' ' || c == '\t' || c == '\r' || c == '\n'
}

pub open spec fn is_digit(c: char) -> bool {
    '0' <= c && c <= '9'
}

pub open spec fn is_lower(c: char) -> bool {
    'a' <= c && c <= 'z'
}

pub open spec fn digit_value(c: char) -> int {
    c as int - '0' as int
}

/// The decimal value of a run of digits.
pub open spec fn digits_value(d: Seq<char>) -> int
    decreases d.len(),
{
    if d.len() == 0 {
        0
    } else {
        digits_value(d.drop_last()) * 10 + digit_value(d.last())
    }
}

/// The end of the maximal run of digits that starts at `i`.
pub open spec fn digit_run_end(s: Seq<char>, i: int) -> int
    decreases s.len() - i,
{
    if 0 <= i < s.len() && is_digit(s[i]) {
        digit_run_end(s, i + 1)
    } else {
        i
    }
}

/// The end of the maximal run of lowercase letters that starts at `i`.
pub open spec fn word_run_end(s: Seq<char>, i: int) -> int
    decreases s.len() - i,
{
    if 0 <= i < s.len() && is_lower(s[i]) {
        word_run_end(s, i + 1)
    } else {
        i
    }
}

pub open spec fn return_word() -> Seq<char> {
    seq!['r', 'e', 't', 'u', 'r', 'n']
}

/// `t` in front of the tokens of `rest`, or the error of `rest`.
pub open spec fn cons(t: Tok, rest: Result<Seq<Tok>, LexError>) -> Result<Seq<Tok>, LexError> {
    match rest {
        Ok(r) => Ok(seq![t] + r),
        Err(e) => Err(e),
    }
}

/// `done` in front of the tokens of `rest`, or the error of `rest`.
pub open spec fn after(done: Seq<Tok>, rest: Result<Seq<Tok>, LexError>) -> Result<
    Seq<Tok>,
    LexError,
> {
    match rest {
        Ok(r) => Ok(done + r),
        Err(e) => Err(e),
    }
}

/// The tokens of `s` from character offset `i` on.
pub open spec fn lex_from(s: Seq<char>, i: int) -> Result<Seq<Tok>, LexError>
    decreases s.len() - i,
    via lex_from_decreases
{
    if i < 0 || i >= s.len() {
        Ok(seq![])
    } else {
        let c = s[i];
        if is_space(c) {
            lex_from(s, i + 1)
        } else if c == '+' || c == '-' || c == '*' || c == '/' {
            cons(Tok::Op(seq![c]), lex_from(s, i + 1))
        } else if c == '<' || c == '>' || c == '=' || c == '!' {
            if i + 1 < s.len() && s[i + 1] == '=' {
                cons(Tok::Op(seq![c, '=']), lex_from(s, i + 2))
            } else if c == '!' {
                Err(LexError::UnexpectedChar { pos: i as usize, ch: c })
            } else {
                cons(Tok::Op(seq![c]), lex_from(s, i + 1))
            }
        } else if c == '(' {
            cons(Tok::LParen, lex_from(s, i + 1))
        } else if c == ')' {
            cons(Tok::RParen, lex_from(s, i + 1))
        } else if c == ';' {
            cons(Tok::Semi, lex_from(s, i + 1))
        } else if is_digit(c) {
            let j = digit_run_end(s, i);
            let v = digits_value(s.subrange(i, j));
            if v > i64::MAX {
                Err(LexError::NumberTooLarge { pos: i as usize })
            } else {
                cons(Tok::Num(v), lex_from(s, j))
            }
        } else if is_lower(c) {
            let j = word_run_end(s, i);
            let w = s.subrange(i, j);
            if w == return_word() {
                cons(Tok::Reserved(w), lex_from(s, j))
            } else {
                cons(Tok::Ident(w), lex_from(s, j))
            }
        } else {
            Err(LexError::UnexpectedChar { pos: i as usize, ch: c })
        }
    }
}

#[via_fn]
proof fn lex_from_decreases(s: Seq<char>, i: int) {
    if 0 <= i < s.len() {
        lemma_digit_run_end(s, i);
        lemma_word_run_end(s, i);
    }
}

/// The tokens of a whole source text, or the first lexical error in it.
pub open spec fn lex(s: Seq<char>) -> Result<Seq<Tok>, LexError> {
    lex_from(s, 0)
}

proof fn lemma_digit_run_end(s: Seq<char>, i: int)
    requires
        0 <= i <= s.len(),
    ensures
        i <= digit_run_end(s, i) <= s.len(),
        i < s.len() && is_digit(s[i]) ==> i < digit_run_end(s, i),
        forall|k: int| i <= k < digit_run_end(s, i) ==> is_digit(#[trigger] s[k]),
        digit_run_end(s, i) < s.len() ==> !is_digit(s[digit_run_end(s, i)]),
    decreases s.len() - i,
{
    if i < s.len() && is_digit(s[i]) {
        lemma_digit_run_end(s, i + 1);
    }
}

proof fn lemma_word_run_end(s: Seq<char>, i: int)
    requires
        0 <= i <= s.len(),
    ensures
        i <= word_run_end(s, i) <= s.len(),
        i < s.len() && is_lower(s[i]) ==> i < word_run_end(s, i),
        forall|k: int| i <= k < word_run_end(s, i) ==> is_lower(#[trigger] s[k]),
        word_run_end(s, i) < s.len() ==> !is_lower(s[word_run_end(s, i)]),
    decreases s.len() - i,
{
    if i < s.len() && is_lower(s[i]) {
        lemma_word_run_end(s, i + 1);
    }
}

/// A run of digits is worth at least as much as any of its prefixes.
proof fn lemma_digits_value_prefix(d: Seq<char>, k: int)
    requires
        0 <= k <= d.len(),
        forall|m: int| 0 <= m < d.len() ==> is_digit(#[trigger] d[m]),
    ensures
        0 <= digits_value(d.subrange(0, k)) <= digits_value(d),
    decreases d.len(),
{
    if d.len() > 0 {
        let p = d.drop_last();
        assert forall|m: int| 0 <= m < p.len() implies is_digit(#[trigger] p[m]) by {
            assert(p[m] == d[m]);
        }
        if k == d.len() {
            assert(d.subrange(0, k) =~= d);
            lemma_digits_value_prefix(p, p.len() as int);
            assert(p.subrange(0, p.len() as int) =~= p);
        } else {
            lemma_digits_value_prefix(p, k);
            assert(p.subrange(0, k) =~= d.subrange(0, k));
            lemma_digits_value_prefix(p, p.len() as int);
            assert(p.subrange(0, p.len() as int) =~= p);
        }
    }
}

proof fn lemma_after_cons(done: Seq<Tok>, t: Tok, rest: Result<Seq<Tok>, LexError>)
    ensures
        after(done, cons(t, rest)) == after(done.push(t), rest),
{
    if let Ok(r) = rest {
        assert(done + (seq![t] + r) =~= done.push(t) + r);
    }
}

/// Character-wise equality of two strings.
fn text_eq(a: &str, b: &str) -> (r: bool)
    ensures
        r == (a@ == b@),
{
    let n = a.unicode_len();
    if n != b.unicode_len() {
        return false;
    }
    let mut i: usize = 0;
    while i < n
        invariant
            n == a@.len() == b@.len(),
            0 <= i <= n,
            a@.subrange(0, i as int) == b@.subrange(0, i as int),
        decreases n - i,
    {
        if a.get_char(i) != b.get_char(i) {
            return false;
        }
        assert(a@.subrange(0, i + 1) =~= a@.subrange(0, i as int).push(a@[i as int]));
        assert(b@.subrange(0, i + 1) =~= b@.subrange(0, i as int).push(b@[i as int]));
        i = i + 1;
    }
    assert(a@ =~= a@.subrange(0, n as int));
    assert(b@ =~= b@.subrange(0, n as int));
    true
}

/// Whether `t` is the operator token spelled `sym`.
pub fn is_operator(t: &Token, sym: &str) -> (r: bool)
    ensures
        r == (t@ == Tok::Op(sym@)),
{
    match t {
        Token::Operator(s) => text_eq(s.as_str(), sym),
        _ => false,
    }
}

/// Whether `t` is the reserved word spelled `word`.
pub fn is_reserved(t: &Token, word: &str) -> (r: bool)
    ensures
        r == (t@ == Tok::Reserved(word@)),
{
    match t {
        Token::RESERVED(s) => text_eq(s.as_str(), word),
        _ => false,
    }
}

/// A source text waiting to be split into tokens.
pub struct Tokenizer {
    s: String,
}

impl Tokenizer {
    pub fn new(s: String) -> (r: Tokenizer)
        ensures
            r.source() == s@,
    {
        Tokenizer { s }
    }

    pub closed spec fn source(&self) -> Seq<char> {
        self.s@
    }

    /// Splits the source into tokens, left to right. The end-of-input token is not
    /// part of the result: the parser appends it.
    pub fn tokenize(self) -> (r: Result<Vec<Token>, LexError>)
        ensures
            match r {
                Ok(v) => lex(self.source()) == Ok::<Seq<Tok>, LexError>(toks_of(v@)),
                Err(e) => lex(self.source()) == Err::<Seq<Tok>, LexError>(e),
            },
    {
        let s = self.s.as_str();
        let n = s.unicode_len();
        let mut tokens: Vec<Token> = Vec::new();
        let mut i: usize = 0;
        while i < n
            invariant
                n == s@.len(),
                s@ == self.source(),
                0 <= i <= n,
                lex(s@) == after(toks_of(tokens@), lex_from(s@, i as int)),
            decreases n - i,
        {
            let ghost old_toks = toks_of(tokens@);
            let c = s.get_char(i);
            if c == ' ' || c == '\t' || c == '\r' || c == '\n' {
                i = i + 1;
            } else {
                let tok: Token;
                let next: usize;
                if c == '+' || c == '-' || c == '*' || c == '/' {
                    let sym = s.substring_char(i, i + 1);
                    assert(sym@ =~= seq![c]);
                    tok = Token::Operator(String::from_str(sym));
                    next = i + 1;
                } else if c == '<' || c == '>' || c == '=' || c == '!' {
                    if i + 1 < n && s.get_char(i + 1) == '=' {
                        let sym = s.substring_char(i, i + 2);
                        assert(sym@ =~= seq![c, '=']);
                        tok = Token::Operator(String::from_str(sym));
                        next = i + 2;
                    } else if c == '!' {
                        return Err(LexError::UnexpectedChar { pos: i, ch: c });
                    } else {
                        let sym = s.substring_char(i, i + 1);
                        assert(sym@ =~= seq![c]);
                        tok = Token::Operator(String::from_str(sym));
                        next = i + 1;
                    }
                } else if c == '(' {
                    tok = Token::LeftParen;
                    next = i + 1;
                } else if c == ')' {
                    tok = Token::RightParen;
                    next = i + 1;
                } else if c == ';' {
                    tok = Token::SEMICOLON;
                    next = i + 1;
                } else if '0' <= c && c <= '9' {
                    let start = i;
                    proof {
                        lemma_digit_run_end(s@, start as int);
                    }
                    let mut v: i64 = 0;
                    let mut j: usize = i;
                    while j < n && '0' <= s.get_char(j) && s.get_char(j) <= '9'
                        invariant
                            n == s@.len(),
                            i == start,
                            s@ == self.source(),
                            old_toks == toks_of(tokens@),
                            lex(s@) == after(toks_of(tokens@), lex_from(s@, i as int)),
                            start <= j <= digit_run_end(s@, start as int) <= n,
                            is_digit(s@[start as int]),
                            start < n,
                            forall|k: int| start <= k < digit_run_end(s@, start as int) ==> is_digit(#[trigger] s@[k]),
                            digit_run_end(s@, start as int) < n ==> !is_digit(s@[digit_run_end(s@, start as int)]),
                            v >= 0,
                            v as int == digits_value(s@.subrange(start as int, j as int)),
                        decreases n - j,
                    {
                        let d = s.get_char(j);
                        let dv = (d as u32 - '0' as u32) as i64;
                        let ghost run = s@.subrange(start as int, digit_run_end(s@, start as int));
                        let ghost pre = s@.subrange(start as int, j + 1);
                        assert(pre.drop_last() =~= s@.subrange(start as int, j as int));
                        assert(0 <= dv <= 9);
                        assert(digits_value(pre) == v * 10 + dv);
                        if v > (i64::MAX - dv) / 10 {
                            proof {
                                assert(v * 10 + dv > i64::MAX) by (nonlinear_arith)
                                    requires v > (i64::MAX - dv) / 10, 0 <= dv <= 9;
                                assert forall|m: int| 0 <= m < run.len() implies is_digit(#[trigger] run[m]) by {
                                    assert(run[m] == s@[start + m]);
                                }
                                lemma_digits_value_prefix(run, j + 1 - start);
                                assert(run.subrange(0, j + 1 - start) =~= pre);
                                assert(digits_value(run) > i64::MAX);
                                assert(lex_from(s@, i as int) == Err::<Seq<Tok>, LexError>(
                                    LexError::NumberTooLarge { pos: start }));
                            }
                            return Err(LexError::NumberTooLarge { pos: start });
                        }
                        assert(v * 10 + dv <= i64::MAX) by (nonlinear_arith)
                            requires v <= (i64::MAX - dv) / 10, 0 <= dv <= 9, v >= 0;
                        v = v * 10 + dv;
                        j = j + 1;
                    }
                    proof {
                        lemma_digit_run_end(s@, start as int);
                    }
                    tok = Token::Number(v);
                    next = j;
                } else if 'a' <= c && c <= 'z' {
                    let start = i;
                    proof {
                        lemma_word_run_end(s@, start as int);
                    }
                    let mut j: usize = i;
                    while j < n && 'a' <= s.get_char(j) && s.get_char(j) <= 'z'
                        invariant
                            n == s@.len(),
                            i == start,
                            s@ == self.source(),
                            old_toks == toks_of(tokens@),
                            lex(s@) == after(toks_of(tokens@), lex_from(s@, i as int)),
                            start <= j <= word_run_end(s@, start as int) <= n,
                            forall|k: int| start <= k < word_run_end(s@, start as int) ==> is_lower(#[trigger] s@[k]),
                            word_run_end(s@, start as int) < n ==> !is_lower(s@[word_run_end(s@, start as int)]),
                        decreases n - j,
                    {
                        j = j + 1;
                    }
                    let word = s.substring_char(start, j).to_owned();
                    if text_eq(word.as_str(), "return") {
                        proof {
                            reveal_strlit("return");
                            assert("return"@ =~= return_word());
                        }
                        tok = Token::RESERVED(word);
                    } else {
                        proof {
                            reveal_strlit("return");
                            assert("return"@ =~= return_word());
                        }
                        tok = Token::Ident(word);
                    }
                    next = j;
                } else {
                    return Err(LexError::UnexpectedChar { pos: i, ch: c });
                }
                proof {
                    assert(lex_from(s@, i as int) == cons(tok@, lex_from(s@, next as int)));
                    lemma_after_cons(old_toks, tok@, lex_from(s@, next as int));
                }
                tokens.push(tok);
                assert(toks_of(tokens@) =~= old_toks.push(tok@));
                i = next;
            }
        }
        assert(lex_from(s@, n as int) == Ok::<Seq<Tok>, LexError>(seq![]));
        assert(toks_of(tokens@) + seq![] =~= toks_of(tokens@));
        Ok(tokens)
    }
}

} // verus!
