use vstd::prelude::*;
use crate::text::push_str;
use crate::tokenizer::{Token, Tokenizer, token_text, tokens_of};

verus! {

/// The syntax tree of a pattern.
#[derive(Debug, PartialEq)]
pub enum AST {
    Alternation(Box<AST>, Box<AST>),
    Catenation(Box<AST>, Box<AST>),
    Closure(Box<AST>),
    OneOrMore(Box<AST>),
    Char(char),
    AnyChar,
}

pub fn create_alternation(lhs: AST, rhs: AST) -> (r: AST)
    ensures
        r == AST::Alternation(Box::new(lhs), Box::new(rhs)),
{
    AST::Alternation(Box::new(lhs), Box::new(rhs))
}

pub fn create_catenation(lhs: AST, rhs: AST) -> (r: AST)
    ensures
        r == AST::Catenation(Box::new(lhs), Box::new(rhs)),
{
    AST::Catenation(Box::new(lhs), Box::new(rhs))
}

pub fn create_closure(expression: AST) -> (r: AST)
    ensures
        r == AST::Closure(Box::new(expression)),
{
    AST::Closure(Box::new(expression))
}

pub fn create_one_or_more(expression: AST) -> (r: AST)
    ensures
        r == AST::OneOrMore(Box::new(expression)),
{
    AST::OneOrMore(Box::new(expression))
}

pub fn create_char(value: char) -> (r: AST)
    ensures
        r == AST::Char(value),
{
    AST::Char(value)
}

pub fn create_any_char() -> (r: AST)
    ensures
        r == AST::AnyChar,
{
    AST::AnyChar
}

/// The message for input that ends inside an expression.
pub open spec fn end_of_input_message() -> Seq<char> {
    "Unexpected end of input"@
}

/// The message for a token that cannot start an atom.
pub open spec fn bad_atom_message() -> Seq<char> {
    "Unexpected atom encountered"@
}

/// The message for a group closed by something other than `)`.
pub open spec fn missing_rparen_message(found: Token) -> Seq<char> {
    "Expected: RParen - Found "@ + token_text(found)
}

/// The message for tokens left over after a whole expression.
pub open spec fn trailing_message(found: Token) -> Seq<char> {
    "Expected end of input, found "@ + token_text(found)
}

/// A parse of a prefix of a token sequence: the tree and the tokens left
/// over, or the message of the error.
pub type Parsed = Result<(AST, Seq<Token>), Seq<char>>;

/// `Atom -> '(' RegExpr ')' | '.' | Char`
pub open spec fn p_atom(ts: Seq<Token>) -> Parsed
    decreases ts.len(), 0nat,
{
    if ts.len() == 0 {
        Err(end_of_input_message())
    } else {
        match ts[0] {
            Token::AnyChar => Ok((AST::AnyChar, ts.drop_first())),
            Token::Char(c) => Ok((AST::Char(c), ts.drop_first())),
            Token::LParen => match p_reg(ts.drop_first()) {
                Ok((e, rest)) => {
                    if rest.len() == 0 {
                        Err(end_of_input_message())
                    } else if rest[0] == Token::RParen {
                        Ok((e, rest.drop_first()))
                    } else {
                        Err(missing_rparen_message(rest[0]))
                    }
                },
                Err(m) => Err(m),
            },
            _ => Err(bad_atom_message()),
        }
    }
}

/// `Closure -> Atom ('*' | '+')?`
pub open spec fn p_closure(ts: Seq<Token>) -> Parsed
    decreases ts.len(), 1nat,
{
    match p_atom(ts) {
        Ok((e, rest)) => {
            if rest.len() > 0 && rest[0] == Token::KleeneStar {
                Ok((AST::Closure(Box::new(e)), rest.drop_first()))
            } else if rest.len() > 0 && rest[0] == Token::KleenePlus {
                Ok((AST::OneOrMore(Box::new(e)), rest.drop_first()))
            } else {
                Ok((e, rest))
            }
        },
        Err(m) => Err(m),
    }
}

/// `Catenation -> Closure Catenation?`
pub open spec fn p_cat(ts: Seq<Token>) -> Parsed
    decreases ts.len(), 2nat,
{
    match p_closure(ts) {
        Ok((c, rest)) => {
            if rest.len() == 0 || rest[0] == Token::UnionBar || rest[0] == Token::RParen {
                Ok((c, rest))
            } else if rest.len() < ts.len() {
                match p_cat(rest) {
                    Ok((r, rest2)) => Ok((AST::Catenation(Box::new(c), Box::new(r)), rest2)),
                    Err(m) => Err(m),
                }
            } else {
                Err(end_of_input_message())
            }
        },
        Err(m) => Err(m),
    }
}

/// `RegExpr -> Catenation ('|' RegExpr)?`
pub open spec fn p_reg(ts: Seq<Token>) -> Parsed
    decreases ts.len(), 3nat,
{
    match p_cat(ts) {
        Ok((l, rest)) => {
            if rest.len() == 0 || rest[0] == Token::RParen {
                Ok((l, rest))
            } else if rest[0] == Token::UnionBar && rest.len() <= ts.len() {
                match p_reg(rest.drop_first()) {
                    Ok((r, rest2)) => Ok((AST::Alternation(Box::new(l), Box::new(r)), rest2)),
                    Err(m) => Err(m),
                }
            } else {
                Err("Unexpected input"@)
            }
        },
        Err(m) => Err(m),
    }
}

/// The tree of a whole token sequence, or the message of the first error.
pub open spec fn parse_tokens(ts: Seq<Token>) -> Result<AST, Seq<char>> {
    match p_reg(ts) {
        Ok((e, rest)) => {
            if rest.len() == 0 {
                Ok(e)
            } else {
                Err(trailing_message(rest[0]))
            }
        },
        Err(m) => Err(m),
    }
}

/// Every production that succeeds consumes at least one token.
pub proof fn lemma_parse_consumes(ts: Seq<Token>)
    ensures
        p_atom(ts) matches Ok((_, rest)) ==> rest.len() < ts.len(),
        p_closure(ts) matches Ok((_, rest)) ==> rest.len() < ts.len(),
        p_cat(ts) matches Ok((_, rest)) ==> rest.len() < ts.len(),
        p_reg(ts) matches Ok((_, rest)) ==> rest.len() < ts.len(),
    decreases ts.len(),
{
    if ts.len() > 0 {
        lemma_parse_consumes(ts.drop_first());
    }
    if let Ok((_, rest)) = p_closure(ts) {
        if rest.len() > 0 && rest.len() < ts.len() {
            lemma_parse_consumes(rest);
        }
    }
    if let Ok((_, rest)) = p_cat(ts) {
        if rest.len() > 0 && rest.len() < ts.len() {
            lemma_parse_consumes(rest.drop_first());
        }
    }
}

/// A recursive-descent parser over the tokens of a pattern.
pub struct Parser {
    tokens: Vec<Token>,
    pos: usize,
}

impl View for Parser {
    type V = Seq<Token>;

    /// The tokens not yet consumed.
    closed spec fn view(&self) -> Seq<Token> {
        self.tokens@.skip(self.pos as int)
    }
}

impl Parser {
    pub closed spec fn wf(&self) -> bool {
        self.pos <= self.tokens@.len()
    }

    /// Parses all the tokens of `tokenizer` as one expression.
    pub fn parse(tokenizer: Tokenizer) -> (r: Result<AST, String>)
        requires
            tokenizer.wf(),
        ensures
            match parse_tokens(tokenizer@) {
                Ok(e) => r == Ok::<AST, String>(e),
                Err(m) => r matches Err(s) && s@ == m,
            },
    {
        let mut parser = Parser::of_tokenizer(tokenizer);
        match parser.reg_expr() {
            Ok(e) => match parser.peek() {
                Some(t) => {
                    let mut m = "Expected end of input, found ".to_owned();
                    let found = t.describe();
                    push_str(&mut m, found.as_str());
                    Err(m)
                },
                None => Ok(e),
            },
            Err(m) => Err(m),
        }
    }

    /// A parser over the tokens of `input`.
    pub fn from(input: &str) -> (p: Parser)
        ensures
            p.wf(),
            p@ == tokens_of(input@),
    {
        Parser::of_tokenizer(Tokenizer::new(input))
    }

    fn of_tokenizer(tokenizer: Tokenizer) -> (p: Parser)
        requires
            tokenizer.wf(),
        ensures
            p.wf(),
            p@ == tokenizer@,
    {
        let mut tokenizer = tokenizer;
        let ghost all = tokenizer@;
        let mut tokens: Vec<Token> = Vec::new();
        loop
            invariant_except_break
                tokenizer.wf(),
                all == tokens@ + tokenizer@,
            ensures
                all == tokens@,
            decreases tokenizer@.len(),
        {
            match tokenizer.next() {
                Some(t) => {
                    tokens.push(t);
                    proof {
                        assert(all =~= tokens@ + tokenizer@);
                    }
                },
                None => {
                    proof {
                        assert(all =~= tokens@);
                    }
                    break;
                },
            }
        }
        proof {
            assert(tokens@.skip(0) =~= tokens@);
        }
        Parser { tokens, pos: 0 }
    }

    fn peek(&self) -> (r: Option<Token>)
        requires
            self.wf(),
        ensures
            r == (if self@.len() == 0 {
                None::<Token>
            } else {
                Some(self@[0])
            }),
    {
        if self.pos < self.tokens.len() {
            Some(self.tokens[self.pos])
        } else {
            None
        }
    }

    /// Consumes the next token, or fails at the end of the input.
    fn take_next_token(&mut self) -> (r: Result<Token, String>)
        requires
            old(self).wf(),
        ensures
            final(self).wf(),
            old(self)@.len() == 0 ==> (r matches Err(m) && m@ == end_of_input_message()),
            old(self)@.len() > 0 ==> r == Ok::<Token, String>(old(self)@[0]) && final(self)@
                == old(self)@.drop_first(),
    {
        if self.pos < self.tokens.len() {
            let t = self.tokens[self.pos];
            self.pos = self.pos + 1;
            proof {
                assert(self@ =~= old(self)@.drop_first());
            }
            Ok(t)
        } else {
            Err("Unexpected end of input".to_owned())
        }
    }

    /// `RegExpr -> Catenation ('|' RegExpr)?`
    pub fn reg_expr(&mut self) -> (r: Result<AST, String>)
        requires
            old(self).wf(),
        ensures
            final(self).wf(),
            match p_reg(old(self)@) {
                Ok((e, rest)) => r == Ok::<AST, String>(e) && final(self)@ == rest,
                Err(m) => r matches Err(s) && s@ == m,
            },
        decreases old(self)@.len(), 3nat,
    {
        let l = match self.catenation() {
            Ok(l) => l,
            Err(m) => {
                return Err(m);
            },
        };
        match self.peek() {
            Some(Token::UnionBar) => {
                proof {
                    lemma_parse_consumes(old(self)@);
                }
                let _ = self.take_next_token();
                match self.reg_expr() {
                    Ok(rhs) => Ok(create_alternation(l, rhs)),
                    Err(m) => Err(m),
                }
            },
            Some(Token::RParen) => Ok(l),
            None => Ok(l),
            Some(_) => Err("Unexpected input".to_owned()),
        }
    }

    /// `Catenation -> Closure Catenation?`
    pub fn catenation(&mut self) -> (r: Result<AST, String>)
        requires
            old(self).wf(),
        ensures
            final(self).wf(),
            match p_cat(old(self)@) {
                Ok((e, rest)) => r == Ok::<AST, String>(e) && final(self)@ == rest,
                Err(m) => r matches Err(s) && s@ == m,
            },
        decreases old(self)@.len(), 2nat,
    {
        let c = match self.closure() {
            Ok(c) => c,
            Err(m) => {
                return Err(m);
            },
        };
        match self.peek() {
            Some(Token::UnionBar) => Ok(c),
            Some(Token::RParen) => Ok(c),
            None => Ok(c),
            Some(_) => {
                proof {
                    lemma_parse_consumes(old(self)@);
                }
                match self.catenation() {
                    Ok(rhs) => Ok(create_catenation(c, rhs)),
                    Err(m) => Err(m),
                }
            },
        }
    }

    /// `Closure -> Atom ('*' | '+')?`
    pub fn closure(&mut self) -> (r: Result<AST, String>)
        requires
            old(self).wf(),
        ensures
            final(self).wf(),
            match p_closure(old(self)@) {
                Ok((e, rest)) => r == Ok::<AST, String>(e) && final(self)@ == rest,
                Err(m) => r matches Err(s) && s@ == m,
            },
        decreases old(self)@.len(), 1nat,
    {
        let expr = match self.atom() {
            Ok(e) => e,
            Err(m) => {
                return Err(m);
            },
        };
        match self.peek() {
            Some(Token::KleeneStar) => {
                let _ = self.take_next_token();
                Ok(create_closure(expr))
            },
            Some(Token::KleenePlus) => {
                let _ = self.take_next_token();
                Ok(create_one_or_more(expr))
            },
            _ => Ok(expr),
        }
    }

    /// `Atom -> '(' RegExpr ')' | '.' | Char`
    pub fn atom(&mut self) -> (r: Result<AST, String>)
        requires
            old(self).wf(),
        ensures
            final(self).wf(),
            match p_atom(old(self)@) {
                Ok((e, rest)) => r == Ok::<AST, String>(e) && final(self)@ == rest,
                Err(m) => r matches Err(s) && s@ == m,
            },
        decreases old(self)@.len(), 0nat,
    {
        let t = match self.take_next_token() {
            Ok(t) => t,
            Err(m) => {
                return Err(m);
            },
        };
        match t {
            Token::AnyChar => Ok(create_any_char()),
            Token::Char(value) => Ok(create_char(value)),
            Token::LParen => {
                let e = match self.reg_expr() {
                    Ok(e) => e,
                    Err(m) => {
                        return Err(m);
                    },
                };
                match self.take_next_token() {
                    Ok(Token::RParen) => Ok(e),
                    Ok(other) => {
                        let mut m = "Expected: RParen - Found ".to_owned();
                        let found = other.describe();
                        push_str(&mut m, found.as_str());
                        Err(m)
                    },
                    Err(m) => Err(m),
                }
            },
            _ => Err("Unexpected atom encountered".to_owned()),
        }
    }
}

} // verus!
