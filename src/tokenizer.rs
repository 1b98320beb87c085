use vstd::prelude::*;
use vstd::string::*;
use crate::text::{push_char, push_str};

verus! {

/// The tokens of the pattern language.
#[derive(Debug, PartialEq, Eq, Structural, Clone, Copy)]
pub enum Token {
    LParen,
    RParen,
    UnionBar,
    KleeneStar,
    AnyChar,
    Char(char),
    KleenePlus,
}

/// The token a single character stands for.
pub open spec fn token_of(c: char) -> Token {
    if c == '(' {
        Token::LParen
    } else if c == ')' {
        Token::RParen
    } else if c == '|' {
        Token::UnionBar
    } else if c == '*' {
        Token::KleeneStar
    } else if c == '.' {
        Token::AnyChar
    } else if c == '+' {
        Token::KleenePlus
    } else {
        Token::Char(c)
    }
}

/// A character as it is written between single quotes.
pub open spec fn char_text(c: char) -> Seq<char> {
    if c == '\t' {
        seq!['\\', 't']
    } else if c == '\n' {
        seq!['\\', 'n']
    } else if c == '\r' {
        seq!['\\', 'r']
    } else if c == '\0' {
        seq!['\\', '0']
    } else if c == '\\' {
        seq!['\\', '\\']
    } else if c == '\'' {
        seq!['\\', '\'']
    } else {
        seq![c]
    }
}

/// The name of a token, as error messages show it.
pub open spec fn token_text(t: Token) -> Seq<char> {
    match t {
        Token::LParen => "LParen"@,
        Token::RParen => "RParen"@,
        Token::UnionBar => "UnionBar"@,
        Token::KleeneStar => "KleeneStar"@,
        Token::AnyChar => "AnyChar"@,
        Token::KleenePlus => "KleenePlus"@,
        Token::Char(c) => "Char('"@ + char_text(c) + "')"@,
    }
}

impl Token {
    /// The name of the token, as error messages show it: `RParen`, `Char('a')`.
    pub fn describe(&self) -> (r: String)
        ensures
            r@ == token_text(*self),
    {
        match *self {
            Token::LParen => "LParen".to_owned(),
            Token::RParen => "RParen".to_owned(),
            Token::UnionBar => "UnionBar".to_owned(),
            Token::KleeneStar => "KleeneStar".to_owned(),
            Token::AnyChar => "AnyChar".to_owned(),
            Token::KleenePlus => "KleenePlus".to_owned(),
            Token::Char(c) => {
                let mut r = "Char('".to_owned();
                if c == '\t' {
                    push_char(&mut r, '\\');
                    push_char(&mut r, 't');
                } else if c == '\n' {
                    push_char(&mut r, '\\');
                    push_char(&mut r, 'n');
                } else if c == '\r' {
                    push_char(&mut r, '\\');
                    push_char(&mut r, 'r');
                } else if c == '\0' {
                    push_char(&mut r, '\\');
                    push_char(&mut r, '0');
                } else if c == '\\' {
                    push_char(&mut r, '\\');
                    push_char(&mut r, '\\');
                } else if c == '\'' {
                    push_char(&mut r, '\\');
                    push_char(&mut r, '\'');
                } else {
                    push_char(&mut r, c);
                }
                push_str(&mut r, "')");
                proof {
                    assert(r@ =~= token_text(*self));
                }
                r
            },
        }
    }
}

/// The token sequence of a character sequence.
pub open spec fn tokens_of(s: Seq<char>) -> Seq<Token>
    decreases s.len(),
{
    if s.len() == 0 {
        Seq::empty()
    } else {
        seq![token_of(s[0])] + tokens_of(s.drop_first())
    }
}

/// The characters of `s`, one element each.
pub fn chars_of(s: &str) -> (r: Vec<char>)
    ensures
        r@ == s@,
{
    let n = s.unicode_len();
    let mut chars: Vec<char> = Vec::new();
    let mut i: usize = 0;
    while i < n
        invariant
            n == s@.len(),
            i <= n,
            chars@ == s@.take(i as int),
        decreases n - i,
    {
        chars.push(s.get_char(i));
        i = i + 1;
        proof {
            assert(chars@ =~= s@.take(i as int));
        }
    }
    proof {
        assert(chars@ =~= s@);
    }
    chars
}

/// A cursor over the characters of a pattern that yields its tokens.
pub struct Tokenizer {
    chars: Vec<char>,
    pos: usize,
}

impl View for Tokenizer {
    type V = Seq<Token>;

    /// The tokens still to come.
    closed spec fn view(&self) -> Seq<Token> {
        tokens_of(self.rest())
    }
}

impl Tokenizer {
    /// The characters not yet consumed.
    pub closed spec fn rest(&self) -> Seq<char> {
        self.chars@.skip(self.pos as int)
    }

    pub closed spec fn wf(&self) -> bool {
        self.pos <= self.chars@.len()
    }

    pub fn new(input: &str) -> (t: Tokenizer)
        ensures
            t.wf(),
            t.rest() == input@,
            t@ == tokens_of(input@),
    {
        let chars = chars_of(input);
        proof {
            assert(chars@.skip(0) =~= input@);
        }
        Tokenizer { chars, pos: 0 }
    }

    fn peek_char(&self) -> (r: Option<char>)
        requires
            self.wf(),
        ensures
            r == (if self.rest().len() == 0 {
                None::<char>
            } else {
                Some(self.rest()[0])
            }),
    {
        if self.pos < self.chars.len() {
            Some(self.chars[self.pos])
        } else {
            None
        }
    }

    /// Consumes one character, which must be there.
    fn advance(&mut self) -> (c: char)
        requires
            old(self).wf(),
            old(self).rest().len() > 0,
        ensures
            final(self).wf(),
            c == old(self).rest()[0],
            final(self).rest() == old(self).rest().drop_first(),
    {
        let n = self.chars.len();
        proof {
            assert(old(self).rest().len() == n - self.pos);
        }
        let c = self.chars[self.pos];
        self.pos = self.pos + 1;
        proof {
            assert(self.rest() =~= old(self).rest().drop_first());
        }
        c
    }

    /// Returns the next token, or `None` once the input is used up.
    pub fn next(&mut self) -> (r: Option<Token>)
        requires
            old(self).wf(),
        ensures
            final(self).wf(),
            old(self)@.len() == 0 ==> r is None && final(self)@ == old(self)@,
            old(self)@.len() > 0 ==> r == Some(old(self)@[0]) && final(self)@
                == old(self)@.drop_first(),
    {
        match self.peek_char() {
            Some(c) => {
                let t = if c == '(' {
                    self.lex_lparen()
                } else if c == ')' {
                    self.lex_rparen()
                } else if c == '|' {
                    self.lex_unionbar()
                } else if c == '*' {
                    self.lex_kleenestar()
                } else if c == '.' {
                    self.lex_anychar()
                } else if c == '+' {
                    self.lex_kleeneplus()
                } else {
                    self.lex_char()
                };
                proof {
                    assert(old(self)@ == seq![t] + self@);
                    assert(old(self)@.drop_first() =~= self@);
                }
                Some(t)
            },
            None => None,
        }
    }

    /// Consumes the character that starts the input and gives its token.
    fn lex_one(&mut self) -> (t: Token)
        requires
            old(self).wf(),
            old(self).rest().len() > 0,
        ensures
            final(self).wf(),
            t == token_of(old(self).rest()[0]),
            old(self)@ == seq![t] + final(self)@,
            final(self).rest() == old(self).rest().drop_first(),
    {
        let c = self.advance();
        if c == '(' {
            Token::LParen
        } else if c == ')' {
            Token::RParen
        } else if c == '|' {
            Token::UnionBar
        } else if c == '*' {
            Token::KleeneStar
        } else if c == '.' {
            Token::AnyChar
        } else if c == '+' {
            Token::KleenePlus
        } else {
            Token::Char(c)
        }
    }

    pub fn lex_lparen(&mut self) -> (t: Token)
        requires
            old(self).wf(),
            old(self).rest().len() > 0,
            old(self).rest()[0] == '(',
        ensures
            final(self).wf(),
            t == Token::LParen,
            old(self)@ == seq![t] + final(self)@,
    {
        self.lex_one()
    }

    pub fn lex_rparen(&mut self) -> (t: Token)
        requires
            old(self).wf(),
            old(self).rest().len() > 0,
            old(self).rest()[0] == ')',
        ensures
            final(self).wf(),
            t == Token::RParen,
            old(self)@ == seq![t] + final(self)@,
    {
        self.lex_one()
    }

    pub fn lex_unionbar(&mut self) -> (t: Token)
        requires
            old(self).wf(),
            old(self).rest().len() > 0,
            old(self).rest()[0] == '|',
        ensures
            final(self).wf(),
            t == Token::UnionBar,
            old(self)@ == seq![t] + final(self)@,
    {
        self.lex_one()
    }

    pub fn lex_kleenestar(&mut self) -> (t: Token)
        requires
            old(self).wf(),
            old(self).rest().len() > 0,
            old(self).rest()[0] == '*',
        ensures
            final(self).wf(),
            t == Token::KleeneStar,
            old(self)@ == seq![t] + final(self)@,
    {
        self.lex_one()
    }

    pub fn lex_anychar(&mut self) -> (t: Token)
        requires
            old(self).wf(),
            old(self).rest().len() > 0,
            old(self).rest()[0] == '.',
        ensures
            final(self).wf(),
            t == Token::AnyChar,
            old(self)@ == seq![t] + final(self)@,
    {
        self.lex_one()
    }

    pub fn lex_kleeneplus(&mut self) -> (t: Token)
        requires
            old(self).wf(),
            old(self).rest().len() > 0,
            old(self).rest()[0] == '+',
        ensures
            final(self).wf(),
            t == Token::KleenePlus,
            old(self)@ == seq![t] + final(self)@,
    {
        self.lex_one()
    }

    /// Consumes a character that is no operator and gives it as a literal.
    pub fn lex_char(&mut self) -> (t: Token)
        requires
            old(self).wf(),
            old(self).rest().len() > 0,
            token_of(old(self).rest()[0]) is Char,
        ensures
            final(self).wf(),
            t == Token::Char(old(self).rest()[0]),
            old(self)@ == seq![t] + final(self)@,
    {
        self.lex_one()
    }
}

} // verus!
