//! Tokenizer of the filter language.
use vstd::prelude::*;
use vstd::string::*;

verus! {

/// A token of the filter language.
#[derive(Debug, PartialEq, Eq)]
pub enum Token<'a> {
    Not,
    And,
    Or,
    ParanOpen,
    ParanClose,
    /// A lone `*`: every series of the metric.
    Star,
    /// `key:prefix*`, the whole text including the star.
    Wildcard(&'a str),
    /// `key:value`, the whole text.
    Identifier(&'a str),
}

/// What a token stands for, with its text as characters.
pub enum Lexeme {
    Not,
    And,
    Or,
    Open,
    Close,
    Star,
    Wildcard(Seq<char>),
    Identifier(Seq<char>),
}

impl<'a> Token<'a> {
    pub open spec fn lexeme(&self) -> Lexeme {
        match self {
            Token::Not => Lexeme::Not,
            Token::And => Lexeme::And,
            Token::Or => Lexeme::Or,
            Token::ParanOpen => Lexeme::Open,
            Token::ParanClose => Lexeme::Close,
            Token::Star => Lexeme::Star,
            Token::Wildcard(s) => Lexeme::Wildcard(s@),
            Token::Identifier(s) => Lexeme::Identifier(s@),
        }
    }
}

pub open spec fn lexemes<'a>(toks: Seq<Token<'a>>) -> Seq<Lexeme> {
    toks.map_values(|t: Token<'a>| t.lexeme())
}

/// Characters skipped between tokens: Unicode white space, as
/// `char::is_whitespace` and `str::trim` take it.
pub open spec fn is_space(c: char) -> bool {
    ('\t' <= c && c <= '\r') || c == ' ' || c == '\u{85}' || c == '\u{a0}' || c == '\u{1680}'
        || ('\u{2000}' <= c && c <= '\u{200a}') || c == '\u{2028}' || c == '\u{2029}' || c == '\u{202f}'
        || c == '\u{205f}' || c == '\u{3000}'
}

pub open spec fn is_alpha(c: char) -> bool {
    ('a' <= c && c <= 'z') || ('A' <= c && c <= 'Z')
}

/// Characters of a tag key: `[A-Za-z_-]`.
pub open spec fn is_key_char(c: char) -> bool {
    is_alpha(c) || c == '_' || c == '-'
}

/// Characters of a tag value: `[A-Za-z0-9_.-]`.
pub open spec fn is_value_char(c: char) -> bool {
    is_alpha(c) || ('0' <= c && c <= '9') || c == '_' || c == '-' || c == '.'
}

/// Length of the run of key characters starting at `i`.
pub open spec fn key_run(s: Seq<char>, i: int) -> nat
    decreases s.len() - i,
{
    if 0 <= i < s.len() && is_key_char(s[i]) {
        1 + key_run(s, i + 1)
    } else {
        0
    }
}

/// Length of the run of value characters starting at `i`.
pub open spec fn value_run(s: Seq<char>, i: int) -> nat
    decreases s.len() - i,
{
    if 0 <= i < s.len() && is_value_char(s[i]) {
        1 + value_run(s, i + 1)
    } else {
        0
    }
}

pub open spec fn has_word(s: Seq<char>, i: int, w: Seq<char>) -> bool {
    0 <= i && i + w.len() <= s.len() && s.subrange(i, i + w.len()) == w
}

/// The token that starts at `i` (not a space) and its length: the longest
/// match among `!`, `(`, `)`, `*`, `AND`, `OR`, `key:value` and `key:prefix*`.
pub open spec fn token_at(s: Seq<char>, i: int) -> Option<(Lexeme, nat)> {
    let c = s[i];
    let k = key_run(s, i);
    let e = i + k + 1 + value_run(s, i + k + 1);
    if c == '!' {
        Some((Lexeme::Not, 1))
    } else if c == '(' {
        Some((Lexeme::Open, 1))
    } else if c == ')' {
        Some((Lexeme::Close, 1))
    } else if c == '*' {
        Some((Lexeme::Star, 1))
    } else if k > 0 && i + k < s.len() && s[i + k] == ':' && e < s.len() && s[e] == '*' {
        Some((Lexeme::Wildcard(s.subrange(i, e + 1)), (e + 1 - i) as nat))
    } else if k > 0 && i + k < s.len() && s[i + k] == ':' && e > i + k + 1 {
        Some((Lexeme::Identifier(s.subrange(i, e)), (e - i) as nat))
    } else if has_word(s, i, seq!['A', 'N', 'D']) {
        Some((Lexeme::And, 3))
    } else if has_word(s, i, seq!['O', 'R']) {
        Some((Lexeme::Or, 2))
    } else {
        None
    }
}

/// The tokens of `s` from position `i` on, or `None` where some text
/// matches no token.
pub open spec fn lex_from(s: Seq<char>, i: int) -> Option<Seq<Lexeme>>
    decreases s.len() - i,
{
    if i < 0 || i >= s.len() {
        Some(Seq::empty())
    } else if is_space(s[i]) {
        lex_from(s, i + 1)
    } else {
        match token_at(s, i) {
            None => None,
            Some((t, n)) => if n > 0 && i + n <= s.len() {
                match lex_from(s, i + n) {
                    None => None,
                    Some(rest) => Some(seq![t] + rest),
                }
            } else {
                None
            },
        }
    }
}

pub open spec fn lex(s: Seq<char>) -> Option<Seq<Lexeme>> {
    lex_from(s, 0)
}

fn is_space_char(c: char) -> (r: bool)
    ensures
        r == is_space(c),
{
    ('\t' <= c && c <= '\r') || c == ' ' || c == '\u{85}' || c == '\u{a0}' || c == '\u{1680}'
        || ('\u{2000}' <= c && c <= '\u{200a}') || c == '\u{2028}' || c == '\u{2029}' || c == '\u{202f}'
        || c == '\u{205f}' || c == '\u{3000}'
}

fn is_key_char_exec(c: char) -> (r: bool)
    ensures
        r == is_key_char(c),
{
    ('a' <= c && c <= 'z') || ('A' <= c && c <= 'Z') || c == '_' || c == '-'
}

fn is_value_char_exec(c: char) -> (r: bool)
    ensures
        r == is_value_char(c),
{
    ('a' <= c && c <= 'z') || ('A' <= c && c <= 'Z') || ('0' <= c && c <= '9') || c == '_'
        || c == '-' || c == '.'
}

pub(crate) fn key_run_exec(s: &str, n: usize, i: usize) -> (r: usize)
    requires
        n == s@.len(),
        i <= n,
    ensures
        r == key_run(s@, i as int),
        i + r <= n,
{
    let mut j = i;
    while j < n && is_key_char_exec(s.get_char(j))
        invariant
            n == s@.len(),
            i <= j <= n,
            key_run(s@, i as int) == (j - i) + key_run(s@, j as int),
        decreases n - j,
    {
        j = j + 1;
    }
    j - i
}

fn value_run_exec(s: &str, n: usize, i: usize) -> (r: usize)
    requires
        n == s@.len(),
        i <= n,
    ensures
        r == value_run(s@, i as int),
        i + r <= n,
{
    let mut j = i;
    while j < n && is_value_char_exec(s.get_char(j))
        invariant
            n == s@.len(),
            i <= j <= n,
            value_run(s@, i as int) == (j - i) + value_run(s@, j as int),
        decreases n - j,
    {
        j = j + 1;
    }
    j - i
}

fn word_at(s: &str, n: usize, i: usize, w: &str) -> (r: bool)
    requires
        n == s@.len(),
        i < n,
    ensures
        r == has_word(s@, i as int, w@),
{
    let m = w.unicode_len();
    if m > n - i {
        return false;
    }
    let mut j: usize = 0;
    while j < m
        invariant
            n == s@.len(),
            m == w@.len(),
            i + m <= n,
            j <= m,
            forall|k: int| 0 <= k < j ==> s@[i + k] == w@[k],
        decreases m - j,
    {
        if s.get_char(i + j) != w.get_char(j) {
            assert(s@.subrange(i as int, i + m)[j as int] != w@[j as int]);
            return false;
        }
        j = j + 1;
    }
    assert(s@.subrange(i as int, i + m) =~= w@);
    true
}

fn token_at_exec<'a>(s: &'a str, n: usize, i: usize) -> (r: Option<(Token<'a>, usize)>)
    requires
        n == s@.len(),
        i < n,
    ensures
        match r {
            None => token_at(s@, i as int) is None,
            Some((t, m)) => token_at(s@, i as int) == Some((t.lexeme(), m as nat)) && i + m <= n,
        },
{
    let c = s.get_char(i);
    let k = key_run_exec(s, n, i);
    if c == '!' {
        return Some((Token::Not, 1));
    } else if c == '(' {
        return Some((Token::ParanOpen, 1));
    } else if c == ')' {
        return Some((Token::ParanClose, 1));
    } else if c == '*' {
        return Some((Token::Star, 1));
    }
    if k > 0 && i + k < n && s.get_char(i + k) == ':' {
        let v = value_run_exec(s, n, i + k + 1);
        let e = i + k + 1 + v;
        if e < n && s.get_char(e) == '*' {
            return Some((Token::Wildcard(s.substring_char(i, e + 1)), e + 1 - i));
        } else if v > 0 {
            return Some((Token::Identifier(s.substring_char(i, e)), e - i));
        }
    }
    proof {
        reveal_strlit("AND");
        reveal_strlit("OR");
    }
    if word_at(s, n, i, "AND") {
        assert("AND"@ =~= seq!['A', 'N', 'D']);
        Some((Token::And, 3))
    } else if word_at(s, n, i, "OR") {
        assert("OR"@ =~= seq!['O', 'R']);
        Some((Token::Or, 2))
    } else {
        assert("AND"@ =~= seq!['A', 'N', 'D']);
        assert("OR"@ =~= seq!['O', 'R']);
        None
    }
}

/// Splits a filter expression into tokens; spaces between tokens are skipped.
/// Fails where some text matches no token.
pub fn tokenize_filter_query<'a>(s: &'a str) -> (r: Result<Vec<Token<'a>>, ()>)
    ensures
        match r {
            Ok(toks) => lex(s@) == Some(lexemes(toks@)),
            Err(_) => lex(s@) is None,
        },
{
    let n = s.unicode_len();
    let mut toks: Vec<Token<'a>> = Vec::new();
    let mut i: usize = 0;
    while i < n
        invariant
            n == s@.len(),
            i <= n,
            lex(s@) == match lex_from(s@, i as int) {
                None => None,
                Some(rest) => Some(lexemes(toks@) + rest),
            },
        decreases n - i,
    {
        let ghost old_toks = toks@;
        if is_space_char(s.get_char(i)) {
            i = i + 1;
        } else {
            match token_at_exec(s, n, i) {
                None => {
                    return Err(());
                },
                Some((t, m)) => {
                    if m == 0 {
                        return Err(());
                    }
                    toks.push(t);
                    i = i + m;
                    proof {
                        assert(lexemes(toks@) =~= lexemes(old_toks) + seq![t.lexeme()]);
                        match lex_from(s@, i as int) {
                            None => {},
                            Some(rest) => {
                                assert(lexemes(toks@) + rest =~= lexemes(old_toks) + (seq![
                                    t.lexeme(),
                                ] + rest));
                            },
                        }
                    }
                },
            }
        }
    }
    assert(lexemes(toks@) + Seq::<Lexeme>::empty() =~= lexemes(toks@));
    Ok(toks)
}

} // verus!
