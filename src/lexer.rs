use vstd::prelude::*;
use vstd::std_specs::iter::IteratorSpec;

use crate::ast::is_symbol;

verus! {

broadcast use vstd::string::axiom_spec_iter, vstd::string::next_postcondition;

/// The characters of `s`, in order.
pub fn chars_of(s: &str) -> (r: Vec<char>)
    ensures
        r@ == s@,
{
    let mut it = s.chars();
    let mut out: Vec<char> = Vec::new();
    loop
        invariant
            it.obeys_prophetic_iter_laws(),
            it.decrease() is Some,
            out@ + it.remaining() == s@,
        ensures
            out@ == s@,
        decreases it.decrease()->0,
    {
        match it.next() {
            Some(c) => {
                out.push(c);
            },
            None => {
                assert(out@ + it.remaining() =~= out@);
                break;
            },
        }
    }
    out
}

/// A token of the expression grammar.
#[derive(Debug, PartialEq, Eq, Clone, Copy, Structural)]
pub enum Token {
    /// A variable: one lowercase ASCII letter.
    Var(char),
    True,
    False,
    /// `!`
    Not,
    /// `&&`
    And,
    /// `||`
    Or,
    /// `=>`
    Implies,
    /// `==`
    Equiv,
    LParen,
    RParen,
}

/// Whitespace, which may stand anywhere between tokens.
pub open spec fn is_space(c: char) -> bool {
    c == ' ' || c == '\t' || c == '\n' || c == '\r' || c == '\x0B' || c == '\x0C'
}

/// `s` holds `c` at position `i`.
pub open spec fn at(s: Seq<char>, i: int, c: char) -> bool {
    0 <= i < s.len() && s[i] == c
}

/// The token that starts at position `i` of `s`, if one does. The keywords
/// `true` and `false` take precedence over a variable of their first letter.
pub open spec fn token_at(s: Seq<char>, i: int) -> Option<Token> {
    if at(s, i, 't') && at(s, i + 1, 'r') && at(s, i + 2, 'u') && at(s, i + 3, 'e') {
        Some(Token::True)
    } else if at(s, i, 'f') && at(s, i + 1, 'a') && at(s, i + 2, 'l') && at(s, i + 3, 's') && at(
        s,
        i + 4,
        'e',
    ) {
        Some(Token::False)
    } else if 0 <= i < s.len() && is_symbol(s[i]) {
        Some(Token::Var(s[i]))
    } else if at(s, i, '!') {
        Some(Token::Not)
    } else if at(s, i, '&') && at(s, i + 1, '&') {
        Some(Token::And)
    } else if at(s, i, '|') && at(s, i + 1, '|') {
        Some(Token::Or)
    } else if at(s, i, '=') && at(s, i + 1, '>') {
        Some(Token::Implies)
    } else if at(s, i, '=') && at(s, i + 1, '=') {
        Some(Token::Equiv)
    } else if at(s, i, '(') {
        Some(Token::LParen)
    } else if at(s, i, ')') {
        Some(Token::RParen)
    } else {
        None
    }
}

/// How many characters a token spans.
pub open spec fn width(t: Token) -> nat {
    match t {
        Token::True => 4,
        Token::False => 5,
        Token::And | Token::Or | Token::Implies | Token::Equiv => 2,
        _ => 1,
    }
}

/// The tokens of `s` from position `i` on, or `None` where some character
/// starts no token.
pub open spec fn lex_from(s: Seq<char>, i: int) -> Option<Seq<Token>>
    decreases s.len() - i,
{
    if i < 0 || i >= s.len() {
        Some(Seq::empty())
    } else if is_space(s[i]) {
        lex_from(s, i + 1)
    } else {
        match token_at(s, i) {
            Some(t) => match lex_from(s, i + width(t)) {
                Some(rest) => Some(seq![t] + rest),
                None => None,
            },
            None => None,
        }
    }
}

/// The tokens of `s`.
pub open spec fn lex(s: Seq<char>) -> Option<Seq<Token>> {
    lex_from(s, 0)
}

/// Every variable token is a lowercase letter.
pub open spec fn tokens_wf(t: Seq<Token>) -> bool {
    forall|k: int| 0 <= k < t.len() ==> match #[trigger] t[k] {
        Token::Var(c) => is_symbol(c),
        _ => true,
    }
}

/// Whether `v` holds `c` at position `i + k`.
fn char_at(v: &Vec<char>, i: usize, k: usize, c: char) -> (r: bool)
    requires
        i < v@.len(),
        k < 8,
    ensures
        r == at(v@, i + k, c),
{
    if k < v.len() - i {
        v[i + k] == c
    } else {
        false
    }
}

/// Splits `input` into tokens with the character offset of each, followed by
/// the offset of the end of input; on failure the offset of the first
/// character that starts no token.
pub fn tokenize(input: &str) -> (r: Result<(Vec<Token>, Vec<usize>), usize>)
    ensures
        match lex(input@) {
            Some(t) => r is Ok && r->Ok_0.0@ == t && r->Ok_0.1@.len() == t.len() + 1 && tokens_wf(t)
                && r->Ok_0.1@[t.len() as int] == input@.len() && forall|k: int|
                0 <= k < t.len() ==> #[trigger] r->Ok_0.1@[k] < input@.len(),
            None => r is Err && r->Err_0 < input@.len(),
        },
{
    let s = chars_of(input);
    let mut toks: Vec<Token> = Vec::new();
    let mut pos: Vec<usize> = Vec::new();
    let mut i: usize = 0;
    while i < s.len()
        invariant
            i <= s@.len(),
            s@ == input@,
            pos@.len() == toks@.len(),
            tokens_wf(toks@),
            forall|k: int| 0 <= k < pos@.len() ==> #[trigger] pos@[k] < s@.len(),
            lex(s@) == match lex_from(s@, i as int) {
                Some(rest) => Some(toks@ + rest),
                None => None::<Seq<Token>>,
            },
        decreases s@.len() - i,
    {
        let c = s[i];
        if c == ' ' || c == '\t' || c == '\n' || c == '\r' || c == '\x0B' || c == '\x0C' {
            i = i + 1;
            continue;
        }
        let tok: Token;
        if char_at(&s, i, 0, 't') && char_at(&s, i, 1, 'r') && char_at(&s, i, 2, 'u') && char_at(&s, i, 3, 'e') {
            tok = Token::True;
        } else if char_at(&s, i, 0, 'f') && char_at(&s, i, 1, 'a') && char_at(&s, i, 2, 'l') && char_at(&s, i, 3, 's')
            && char_at(&s, i, 4, 'e') {
            tok = Token::False;
        } else if 'a' <= c && c <= 'z' {
            tok = Token::Var(c);
        } else if c == '!' {
            tok = Token::Not;
        } else if c == '&' && char_at(&s, i, 1, '&') {
            tok = Token::And;
        } else if c == '|' && char_at(&s, i, 1, '|') {
            tok = Token::Or;
        } else if c == '=' && char_at(&s, i, 1, '>') {
            tok = Token::Implies;
        } else if c == '=' && char_at(&s, i, 1, '=') {
            tok = Token::Equiv;
        } else if c == '(' {
            tok = Token::LParen;
        } else if c == ')' {
            tok = Token::RParen;
        } else {
            return Err(i);
        }
        assert(token_at(s@, i as int) == Some(tok));
        let w: usize = match tok {
            Token::True => 4,
            Token::False => 5,
            Token::And | Token::Or | Token::Implies | Token::Equiv => 2,
            _ => 1,
        };
        proof {
            let rest = lex_from(s@, i + w);
            if rest is Some {
                assert(toks@.push(tok) + rest->Some_0 =~= toks@ + (seq![tok] + rest->Some_0));
            }
        }
        toks.push(tok);
        pos.push(i);
        i = i + w;
    }
    proof {
        assert(toks@ + Seq::<Token>::empty() =~= toks@);
    }
    pos.push(s.len());
    Ok((toks, pos))
}

} // verus!
