//! The lexer of problem descriptions: each line that is no comment is cut
//! into tokens and closed by a `NewLine` token.

use crate::model::names_view;
use crate::text::{
    alphabetic, chars_of, digit_count, is_alphabetic, is_digit, is_digit_char, owned_range,
    parse_unsigned, unsigned_value,
};
use crate::tokens::{tokens_view, Token, TokenView};
use vstd::prelude::*;
use vstd::utf8::encode_utf8;

verus! {

/// `c` ends a word: a blank, a line end, or one of `(`, `)`, `;`, `:`.
pub open spec fn is_delimiter(c: char) -> bool {
    c == ' ' || c == '\t' || c == '\n' || c == '\r' || c == '(' || c == ')' || c == ';' || c == ':'
}

/// The position at which the word that begins at `at` ends.
pub open spec fn word_end(line: Seq<char>, at: int) -> int
    decreases line.len() - at,
{
    if 0 <= at < line.len() && !is_delimiter(line[at]) {
        word_end(line, at + 1)
    } else {
        at
    }
}

/// The word that begins at `at`.
pub open spec fn word(line: Seq<char>, at: int) -> Seq<char> {
    line.subrange(at, word_end(line, at))
}

/// The token that a word is: one of the two keywords; a number, where the
/// word begins with a digit and spells a number in range, and else invalid;
/// invalid, where it begins with a character that is not alphabetic; and an
/// identifier in all other cases.
pub open spec fn classify(w: Seq<char>) -> TokenView {
    if w == "optimize"@ {
        TokenView::Optimize
    } else if w == "time"@ {
        TokenView::Time
    } else if w.len() > 0 && is_digit(w[0]) {
        match unsigned_value(w) {
            Some(n) => TokenView::Number(n as nat),
            None => TokenView::Invalid(w),
        }
    } else if w.len() > 0 && !alphabetic(w[0]) {
        TokenView::Invalid(w)
    } else {
        TokenView::Identifier(w)
    }
}

/// How far the lexer moves on for a token: by the bytes of a text, by the
/// digits of a number as written without leading zeros, by the letters of a
/// keyword, and by one for any other token.
pub open spec fn width(token: TokenView) -> nat {
    match token {
        TokenView::Identifier(text) => (encode_utf8(text).len() as usize) as nat,
        TokenView::Invalid(text) => (encode_utf8(text).len() as usize) as nat,
        TokenView::Number(n) => digit_count(n),
        TokenView::Time => 4,
        TokenView::Optimize => 8,
        _ => 1,
    }
}

/// The tokens with one more in front, if there are tokens.
pub open spec fn prepend(token: TokenView, rest: Result<Seq<TokenView>, int>) -> Result<
    Seq<TokenView>,
    int,
> {
    match rest {
        Ok(tokens) => Ok(seq![token] + tokens),
        Err(at) => Err(at),
    }
}

/// The position after a move of `by` from `at`, not beyond the end of the line.
pub open spec fn moved(line: Seq<char>, at: int, by: nat) -> int {
    if at + by > line.len() {
        line.len() as int
    } else {
        at + by
    }
}

/// The tokens of a line from position `at` on, closed by `NewLine`; or the
/// position at which the lexer cannot move on: a word that is empty, as at a
/// tab. A blank is skipped.
pub open spec fn scan(line: Seq<char>, at: int) -> Result<Seq<TokenView>, int>
    decreases line.len() - at,
{
    if at < 0 || at >= line.len() {
        Ok(seq![TokenView::NewLine])
    } else if line[at] == ':' {
        prepend(TokenView::Colon, scan(line, at + 1))
    } else if line[at] == ';' {
        prepend(TokenView::Semicolon, scan(line, at + 1))
    } else if line[at] == '(' {
        prepend(TokenView::LeftParen, scan(line, at + 1))
    } else if line[at] == ')' {
        prepend(TokenView::RightParen, scan(line, at + 1))
    } else if line[at] == ' ' {
        scan(line, at + 1)
    } else if width(classify(word(line, at))) == 0 {
        Err(at)
    } else {
        prepend(
            classify(word(line, at)),
            scan(line, moved(line, at, width(classify(word(line, at))))),
        )
    }
}

/// The tokens so far, followed by those to come.
pub open spec fn extend(done: Seq<TokenView>, rest: Result<Seq<TokenView>, int>) -> Result<
    Seq<TokenView>,
    int,
> {
    match rest {
        Ok(tokens) => Ok(done + tokens),
        Err(at) => Err(at),
    }
}

/// The line is a comment: it begins with `#`.
pub open spec fn is_comment(line: Seq<char>) -> bool {
    line.len() > 0 && line[0] == '#'
}

/// Where the lexer cannot move on: the line, counted from 0, and the position in it.
#[derive(Debug)]
pub struct LexError {
    pub line: usize,
    pub column: usize,
}

/// The tokens of the lines, comments left out; or the first place at which
/// the lexer cannot move on.
pub open spec fn lexed(lines: Seq<Seq<char>>) -> Result<Seq<TokenView>, (int, int)>
    decreases lines.len(),
{
    if lines.len() == 0 {
        Ok(Seq::empty())
    } else {
        match lexed(lines.drop_last()) {
            Err(place) => Err(place),
            Ok(tokens) => if is_comment(lines.last()) {
                Ok(tokens)
            } else {
                match scan(lines.last(), 0) {
                    Ok(more) => Ok(tokens + more),
                    Err(at) => Err((lines.len() - 1, at)),
                }
            },
        }
    }
}

/// Lines that a prefix cannot be lexed of cannot be lexed, for the same reason.
pub proof fn lemma_lexed_prefix_error(lines: Seq<Seq<char>>, i: int)
    requires
        0 <= i <= lines.len(),
        lexed(lines.take(i)) is Err,
    ensures
        lexed(lines) == lexed(lines.take(i)),
    decreases lines.len() - i,
{
    if i == lines.len() {
        assert(lines.take(i) =~= lines);
    } else {
        assert(lines.take(i + 1).drop_last() =~= lines.take(i));
        lemma_lexed_prefix_error(lines, i + 1);
    }
}

/// Whether `c` ends a word.
pub fn is_delimiter_char(c: char) -> (b: bool)
    ensures
        b == is_delimiter(c),
{
    c == ' ' || c == '\t' || c == '\n' || c == '\r' || c == '(' || c == ')' || c == ';' || c == ':'
}

/// A number of 64 bits has at most twenty digits.
pub proof fn lemma_digit_count_bound(n: nat)
    requires
        n <= u64::MAX,
    ensures
        1 <= digit_count(n) <= 20,
{
    reveal_with_fuel(digit_count, 21);
}

/// The number of decimal digits of `n`.
pub fn count_digits(n: u64) -> (count: usize)
    ensures
        count == digit_count(n as nat),
{
    let mut count: usize = 1;
    let mut rest = n;
    proof {
        lemma_digit_count_bound(n as nat);
    }
    while rest >= 10
        invariant
            count + digit_count(rest as nat) == 1 + digit_count(n as nat),
            digit_count(n as nat) <= 20,
        decreases rest,
    {
        proof {
            assert(digit_count(rest as nat) == 1 + digit_count((rest / 10) as nat));
            lemma_digit_count_bound((rest / 10) as nat);
        }
        rest = rest / 10;
        count += 1;
    }
    count
}

/// The lexer of one line.
pub struct Lexer {
    source: String,
    chars: Vec<char>,
    current: usize,
}

impl Lexer {
    /// The characters of the line are those of its text, and the lexer
    /// stands within the line or at its end.
    #[verifier::type_invariant]
    pub closed spec fn wf(self) -> bool {
        self.chars@ == self.source@ && self.current <= self.chars@.len()
    }

    /// The line.
    pub closed spec fn line(&self) -> Seq<char> {
        self.source@
    }

    /// The position that the lexer stands at.
    pub closed spec fn position(&self) -> int {
        self.current as int
    }

    /// A lexer at the start of `source`.
    pub fn new(source: String) -> (lexer: Lexer)
        ensures
            lexer.line() == source@,
            lexer.position() == 0,
    {
        let chars = chars_of(&source);
        Lexer { source, chars, current: 0 }
    }

    /// The token of the word at the position of the lexer.
    pub fn identifier(&self) -> (token: Token)
        ensures
            token@ == classify(word(self.line(), self.position())),
    {
        proof {
            use_type_invariant(self);
        }
        let start = self.current;
        let mut end = start;
        while end < self.chars.len() && !is_delimiter_char(self.chars[end])
            invariant
                start <= end <= self.chars@.len(),
                self.chars@ == self.source@,
                word_end(self.source@, start as int) == word_end(self.source@, end as int),
            decreases self.chars@.len() - end,
        {
            end += 1;
        }
        let ident = owned_range(&self.source, start, end);
        let ghost w = word(self.source@, start as int);
        assert(ident@ == w);
        if ident == "optimize".to_owned() {
            Token::Optimize
        } else if ident == "time".to_owned() {
            Token::Time
        } else if end > start && is_digit_char(self.chars[start]) {
            assert(w[0] == self.chars@[start as int]);
            match parse_unsigned(&self.chars, start, end) {
                Some(n) => Token::Number(n),
                None => Token::Invalid(ident),
            }
        } else if end > start && !is_alphabetic(self.chars[start]) {
            assert(w[0] == self.chars@[start as int]);
            Token::Invalid(ident)
        } else {
            if end > start {
                assert(w[0] == self.chars@[start as int]);
            }
            Token::Identifier(ident)
        }
    }

    /// Moves the lexer on by the width of `token`, not beyond the end of the line.
    pub fn advance(&mut self, token: &Token) -> (by: usize)
        ensures
            final(self).line() == old(self).line(),
            by == width(token@),
            final(self).position() == moved(old(self).line(), old(self).position(), by as nat),
    {
        proof {
            use_type_invariant(&*self);
        }
        let by: usize = match token {
            Token::Identifier(text) => text.as_str().len(),
            Token::Invalid(text) => text.as_str().len(),
            Token::Number(n) => count_digits(*n),
            Token::Time => 4,
            Token::Optimize => 8,
            _ => 1,
        };
        let room = self.chars.len() - self.current;
        if by > room {
            self.current = self.chars.len();
        } else {
            self.current = self.current + by;
        }
        by
    }

    /// Cuts the rest of the line into tokens and puts them behind `tokens`,
    /// `NewLine` last, skipping blanks. Where the lexer cannot move on it
    /// returns the position.
    pub fn tokenize(&mut self, tokens: &mut Vec<Token>) -> (r: Result<(), usize>)
        ensures
            final(self).line() == old(self).line(),
            match r {
                Ok(_) => extend(
                    tokens_view(old(tokens)@),
                    scan(old(self).line(), old(self).position()),
                ) == Ok::<Seq<TokenView>, int>(tokens_view(final(tokens)@)),
                Err(at) => scan(old(self).line(), old(self).position()) == Err::<
                    Seq<TokenView>,
                    int,
                >(at as int),
            },
    {
        proof {
            use_type_invariant(&*self);
        }
        let ghost line = self.source@;
        let ghost goal = scan(line, self.current as int);
        let ghost first = tokens_view(tokens@);
        let ghost mut done: Seq<TokenView> = Seq::empty();
        assert(first + done =~= first);
        loop
            invariant
                line == self.line(),
                line == old(self).line(),
                first == tokens_view(old(tokens)@),
                goal == scan(line, old(self).position()),
                0 <= self.position() <= line.len(),
                goal == extend(done, scan(line, self.position())),
                tokens_view(tokens@) == first + done,
            decreases line.len() - self.position(),
        {
            proof {
                use_type_invariant(&*self);
            }
            let ghost at = self.current as int;
            let ghost held = tokens_view(tokens@);
            if self.current >= self.chars.len() {
                tokens.push(Token::NewLine);
                proof {
                    assert(tokens_view(tokens@) =~= held.push(TokenView::NewLine));
                    assert(first + (done + seq![TokenView::NewLine]) =~= held.push(
                        TokenView::NewLine,
                    ));
                }
                return Ok(());
            }
            let c = self.chars[self.current];
            if c == ' ' {
                self.current = self.current + 1;
                continue ;
            }
            let token = if c == ':' {
                Token::Colon
            } else if c == ';' {
                Token::Semicolon
            } else if c == '(' {
                Token::LeftParen
            } else if c == ')' {
                Token::RightParen
            } else {
                self.identifier()
            };
            let stood = self.current;
            let by = self.advance(&token);
            if by == 0 {
                return Err(stood);
            }
            proof {
                let rest = scan(line, self.position());
                assert(scan(line, at) == prepend(token@, rest));
                assert(tokens_view(tokens@.push(token)) =~= held.push(token@));
                match rest {
                    Ok(more) => {
                        assert(done + (seq![token@] + more) =~= done.push(token@) + more);
                    },
                    Err(_) => {},
                }
                done = done.push(token@);
                assert(first + done =~= held.push(token@));
            }
            tokens.push(token);
        }
    }
}

/// Cuts the lines of a problem description into tokens. A line that begins
/// with `#` is a comment and gives no token, and blanks part tokens without
/// giving one. Where the lexer cannot move on, at a word that is empty, the
/// place is returned.
pub fn lex(lines: &Vec<String>) -> (r: Result<Vec<Token>, LexError>)
    ensures
        match r {
            Ok(tokens) => lexed(names_view(lines@)) == Ok::<Seq<TokenView>, (int, int)>(
                tokens_view(tokens@),
            ),
            Err(e) => lexed(names_view(lines@)) == Err::<Seq<TokenView>, (int, int)>(
                (e.line as int, e.column as int),
            ),
        },
{
    let ghost texts = names_view(lines@);
    let mut tokens: Vec<Token> = Vec::new();
    let mut i: usize = 0;
    assert(tokens_view(tokens@) =~= Seq::<TokenView>::empty());
    while i < lines.len()
        invariant
            i <= lines@.len(),
            texts == names_view(lines@),
            lexed(texts.take(i as int)) == Ok::<Seq<TokenView>, (int, int)>(tokens_view(tokens@)),
        decreases lines@.len() - i,
    {
        proof {
            assert(texts.take(i + 1).drop_last() =~= texts.take(i as int));
            assert(texts.take(i + 1).last() == lines@[i as int]@);
        }
        let chars = chars_of(&lines[i]);
        let comment = chars.len() > 0 && chars[0] == '#';
        if !comment {
            let mut lexer = Lexer::new(lines[i].clone());
            match lexer.tokenize(&mut tokens) {
                Ok(_) => {},
                Err(column) => {
                    proof {
                        lemma_lexed_prefix_error(texts, i + 1);
                    }
                    return Err(LexError { line: i, column });
                },
            }
        }
        i += 1;
    }
    proof {
        assert(texts.take(lines@.len() as int) =~= texts);
    }
    Ok(tokens)
}

} // verus!
