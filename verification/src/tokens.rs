//! The lexical scanner: one token per input character.

use vstd::prelude::*;
use vstd::string::StrSliceExecFns;

verus! {

/// A lexical token of the regular-expression syntax. Every input character
/// maps to exactly one token; there is no failure mode.
#[derive(Clone, Copy, Debug, PartialEq, Eq, Structural)]
pub enum Token {
    Char(char),
    Star,
    Pipe,
    OpenParens,
    CloseParens,
    Backslash,
}

/// The direct 1:1 mapping from input characters to tokens: `*`, `|`, `(`,
/// `)` and `\` are the meta characters, anything else is a literal.
pub open spec fn spec_token_of(c: char) -> Token {
    if c == '*' {
        Token::Star
    } else if c == '|' {
        Token::Pipe
    } else if c == '(' {
        Token::OpenParens
    } else if c == ')' {
        Token::CloseParens
    } else if c == '\\' {
        Token::Backslash
    } else {
        Token::Char(c)
    }
}

/// A non-restartable scanner over the characters of a regular expression.
/// Its view is the sequence of characters not yet consumed.
pub struct RegexTokenizer {
    chars: Vec<char>,
    pos: usize,
}

impl View for RegexTokenizer {
    type V = Seq<char>;

    closed spec fn view(&self) -> Seq<char> {
        if self.pos <= self.chars@.len() {
            self.chars@.skip(self.pos as int)
        } else {
            Seq::empty()
        }
    }
}

impl RegexTokenizer {
    /// Starts a scan over the characters of `string`.
    pub fn from_string(string: &str) -> (r: RegexTokenizer)
        ensures
            r@ == string@,
    {
        let n = string.unicode_len();
        let mut chars: Vec<char> = Vec::new();
        let mut i: usize = 0;
        while i < n
            invariant
                i <= n,
                n == string@.len(),
                chars@ == string@.subrange(0, i as int),
            decreases n - i,
        {
            chars.push(string.get_char(i));
            i += 1;
            proof {
                assert(chars@ =~= string@.subrange(0, i as int));
            }
        }
        proof {
            assert(chars@ =~= string@);
        }
        let r = RegexTokenizer { chars, pos: 0 };
        proof {
            assert(r@ =~= string@);
        }
        r
    }

    /// Produces the token of the next unconsumed character, or `None` once
    /// the input is exhausted.
    pub fn next(&mut self) -> (t: Option<Token>)
        ensures
            old(self)@.len() > 0 ==> {
                &&& t == Some(spec_token_of(old(self)@[0]))
                &&& final(self)@ == old(self)@.drop_first()
            },
            old(self)@.len() == 0 ==> t == None::<Token> && final(self)@ == old(self)@,
    {
        if self.pos < self.chars.len() {
            let c = self.chars[self.pos];
            self.pos += 1;
            proof {
                assert(self@ =~= old(self)@.drop_first());
            }
            let tok = if c == '*' {
                Token::Star
            } else if c == '|' {
                Token::Pipe
            } else if c == '(' {
                Token::OpenParens
            } else if c == ')' {
                Token::CloseParens
            } else if c == '\\' {
                Token::Backslash
            } else {
                Token::Char(c)
            };
            assert(tok == spec_token_of(old(self)@[0]));
            Some(tok)
        } else {
            None
        }
    }
}

} // verus!
