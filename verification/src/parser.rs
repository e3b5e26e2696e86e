//! The parser of problem descriptions: from the tokens of a description to
//! the stocks, the processes and the objectives of a problem.

use crate::model::{amounts_view, names_view, processes_view, Process, ProcessView};
use crate::replay::{find_process, known};
use crate::stocks::Stocks;
use crate::tokens::{tokens_view, Token, TokenView};
use vstd::prelude::*;

verus! {

/// Why a description is refused.
#[derive(Debug)]
pub enum Error {
    ExpectedLine,
    MissingOptimize,
    MissingStocks,
    MissingProcess,
    DuplicatedOptimize,
    DuplicatedIdentifier,
    UnexpectedEOF,
    UnexpectedToken(Token),
    UndefiendStock(String),
    ExpectedToken(Token, Token),
}

/// A reason to refuse a description, as plain values.
pub enum ErrorView {
    ExpectedLine,
    MissingOptimize,
    MissingStocks,
    MissingProcess,
    DuplicatedOptimize,
    DuplicatedIdentifier,
    UnexpectedEOF,
    UnexpectedToken(TokenView),
    UndefiendStock(Seq<char>),
    ExpectedToken(TokenView, TokenView),
}

impl View for Error {
    type V = ErrorView;

    open spec fn view(&self) -> ErrorView {
        match self {
            Error::ExpectedLine => ErrorView::ExpectedLine,
            Error::MissingOptimize => ErrorView::MissingOptimize,
            Error::MissingStocks => ErrorView::MissingStocks,
            Error::MissingProcess => ErrorView::MissingProcess,
            Error::DuplicatedOptimize => ErrorView::DuplicatedOptimize,
            Error::DuplicatedIdentifier => ErrorView::DuplicatedIdentifier,
            Error::UnexpectedEOF => ErrorView::UnexpectedEOF,
            Error::UnexpectedToken(t) => ErrorView::UnexpectedToken(t@),
            Error::UndefiendStock(name) => ErrorView::UndefiendStock(name@),
            Error::ExpectedToken(wanted, found) => ErrorView::ExpectedToken(wanted@, found@),
        }
    }
}

/// What the parser has read so far, as plain values: the position among the
/// tokens, the stocks, the processes, and the objectives if their line has
/// been read.
pub struct ParserView {
    pub pos: int,
    pub stocks: Map<Seq<char>, nat>,
    pub processes: Seq<ProcessView>,
    pub optimize: Option<Seq<Seq<char>>>,
}

/// The position behind the token at `pos`, if that token is `token`.
pub open spec fn expect(tokens: Seq<TokenView>, pos: int, token: TokenView) -> Result<
    int,
    ErrorView,
> {
    if 0 <= pos < tokens.len() {
        if tokens[pos] == token {
            Ok(pos + 1)
        } else {
            Err(ErrorView::ExpectedToken(token, tokens[pos]))
        }
    } else {
        Err(ErrorView::UnexpectedEOF)
    }
}

/// The identifier at `pos` and the position behind it.
pub open spec fn expect_ident(tokens: Seq<TokenView>, pos: int) -> Result<
    (Seq<char>, int),
    ErrorView,
> {
    if 0 <= pos < tokens.len() {
        match tokens[pos] {
            TokenView::Identifier(text) => Ok((text, pos + 1)),
            other => Err(
                ErrorView::ExpectedToken(TokenView::Identifier(Seq::empty()), other),
            ),
        }
    } else {
        Err(ErrorView::UnexpectedEOF)
    }
}

/// The number at `pos` and the position behind it.
pub open spec fn expect_number(tokens: Seq<TokenView>, pos: int) -> Result<(nat, int), ErrorView> {
    if 0 <= pos < tokens.len() {
        match tokens[pos] {
            TokenView::Number(n) => Ok((n, pos + 1)),
            other => Err(ErrorView::ExpectedToken(TokenView::Number(0), other)),
        }
    } else {
        Err(ErrorView::MissingProcess)
    }
}

/// The pairs of a tuple from `pos` on, behind those of `acc`, and the
/// position behind the closing parenthesis: `name:quantity` pairs, parted by
/// semicolons.
pub open spec fn tuple_rest(tokens: Seq<TokenView>, pos: int, acc: Seq<(Seq<char>, nat)>) -> Result<
    (Seq<(Seq<char>, nat)>, int),
    ErrorView,
>
    decreases tokens.len() - pos,
{
    match expect_ident(tokens, pos) {
        Err(e) => Err(e),
        Ok((name, colon)) => match expect(tokens, colon, TokenView::Colon) {
            Err(e) => Err(e),
            Ok(number) => match expect_number(tokens, number) {
                Err(e) => Err(e),
                Ok((n, next)) => if next >= tokens.len() {
                    Err(ErrorView::UnexpectedEOF)
                } else if tokens[next] == TokenView::RightParen {
                    Ok((acc.push((name, n)), next + 1))
                } else if tokens[next] == TokenView::Semicolon {
                    tuple_rest(tokens, next + 1, acc.push((name, n)))
                } else {
                    Err(ErrorView::UnexpectedToken(tokens[next]))
                },
            },
        },
    }
}

/// The pairs of the tuple that opens at `pos`, and the position behind it.
pub open spec fn tuple(tokens: Seq<TokenView>, pos: int) -> Result<
    (Seq<(Seq<char>, nat)>, int),
    ErrorView,
> {
    match expect(tokens, pos, TokenView::LeftParen) {
        Err(e) => Err(e),
        Ok(first) => tuple_rest(tokens, first, Seq::empty()),
    }
}

/// The objectives from `pos` on, behind those of `acc`, and the position
/// behind the closing parenthesis: identifiers or `time`, parted by semicolons.
pub open spec fn objectives_rest(tokens: Seq<TokenView>, pos: int, acc: Seq<Seq<char>>) -> Result<
    (Seq<Seq<char>>, int),
    ErrorView,
>
    decreases tokens.len() - pos,
{
    if pos < 0 || pos >= tokens.len() {
        Err(ErrorView::UnexpectedEOF)
    } else {
        let name = match tokens[pos] {
            TokenView::Time => Some("time"@),
            TokenView::Identifier(text) => Some(text),
            _ => None,
        };
        if name is None {
            Err(ErrorView::UnexpectedToken(tokens[pos]))
        } else if pos + 1 >= tokens.len() {
            Err(ErrorView::UnexpectedEOF)
        } else if tokens[pos + 1] == TokenView::RightParen {
            Ok((acc.push(name->0), pos + 2))
        } else if tokens[pos + 1] == TokenView::Semicolon {
            objectives_rest(tokens, pos + 2, acc.push(name->0))
        } else {
            Err(ErrorView::UnexpectedToken(tokens[pos + 1]))
        }
    }
}

/// The state after the line of the objectives, which begins at the position
/// of `state`.
pub open spec fn optimize_line(tokens: Seq<TokenView>, state: ParserView) -> Result<
    ParserView,
    ErrorView,
> {
    if state.optimize is Some {
        Err(ErrorView::DuplicatedOptimize)
    } else {
        match expect(tokens, state.pos + 1, TokenView::Colon) {
            Err(e) => Err(e),
            Ok(paren) => match expect(tokens, paren, TokenView::LeftParen) {
                Err(e) => Err(e),
                Ok(first) => match objectives_rest(tokens, first, Seq::empty()) {
                    Err(e) => Err(e),
                    Ok((names, end)) => match expect(tokens, end, TokenView::NewLine) {
                        Err(e) => Err(e),
                        Ok(next) => Ok(
                            ParserView {
                                pos: next,
                                stocks: state.stocks,
                                processes: state.processes,
                                optimize: Some(names),
                            },
                        ),
                    },
                },
            },
        }
    }
}

/// The stocks with those outputs added at quantity 0 that they do not name yet.
pub open spec fn with_outputs(stocks: Map<Seq<char>, nat>, outputs: Seq<(Seq<char>, nat)>) -> Map<
    Seq<char>,
    nat,
>
    decreases outputs.len(),
{
    if outputs.len() == 0 {
        stocks
    } else {
        let before = with_outputs(stocks, outputs.drop_last());
        if before.dom().contains(outputs.last().0) {
            before
        } else {
            before.insert(outputs.last().0, 0)
        }
    }
}

/// The state after the body of process `id`, which opens at `pos`: inputs, a
/// colon, outputs, a colon, the duration.
pub open spec fn process_line(
    tokens: Seq<TokenView>,
    state: ParserView,
    id: Seq<char>,
    pos: int,
) -> Result<ParserView, ErrorView> {
    if state.stocks.dom().contains(id) || known(state.processes, id) {
        Err(ErrorView::DuplicatedIdentifier)
    } else {
        match tuple(tokens, pos) {
            Err(e) => Err(e),
            Ok((inputs, colon)) => match expect(tokens, colon, TokenView::Colon) {
                Err(e) => Err(e),
                Ok(second) => match tuple(tokens, second) {
                    Err(e) => Err(e),
                    Ok((outputs, last)) => match expect(tokens, last, TokenView::Colon) {
                        Err(e) => Err(e),
                        Ok(number) => match expect_number(tokens, number) {
                            Err(e) => Err(e),
                            Ok((duration, next)) => Ok(
                                ParserView {
                                    pos: next,
                                    stocks: with_outputs(state.stocks, outputs),
                                    processes: state.processes.push(
                                        ProcessView { id, inputs, outputs, duration },
                                    ),
                                    optimize: state.optimize,
                                },
                            ),
                        },
                    },
                },
            },
        }
    }
}

/// The state after the quantity of stock `id`, which stands at `pos`, and the
/// end of its line. A name that a stock or a process carries already is
/// refused.
pub open spec fn stock_line(tokens: Seq<TokenView>, state: ParserView, id: Seq<char>, pos: int) -> Result<
    ParserView,
    ErrorView,
> {
    match expect_number(tokens, pos) {
        Err(e) => Err(e),
        Ok((n, end)) => if state.stocks.dom().contains(id) || known(state.processes, id) {
            Err(ErrorView::DuplicatedIdentifier)
        } else {
            match expect(tokens, end, TokenView::NewLine) {
                Err(e) => Err(e),
                Ok(next) => Ok(
                    ParserView {
                        pos: next,
                        stocks: state.stocks.insert(id, n),
                        processes: state.processes,
                        optimize: state.optimize,
                    },
                ),
            }
        },
    }
}

/// The state after the line at the position of `state`: the objectives, a
/// stock, a process, or an empty line.
pub open spec fn line(tokens: Seq<TokenView>, state: ParserView) -> Result<ParserView, ErrorView> {
    if state.pos < 0 || state.pos >= tokens.len() {
        Err(ErrorView::ExpectedLine)
    } else {
        match tokens[state.pos] {
            TokenView::Optimize => optimize_line(tokens, state),
            TokenView::Identifier(id) => match expect(tokens, state.pos + 1, TokenView::Colon) {
                Err(e) => Err(e),
                Ok(body) => if body >= tokens.len() {
                    Err(ErrorView::UnexpectedEOF)
                } else {
                    match tokens[body] {
                        TokenView::LeftParen => process_line(tokens, state, id, body),
                        TokenView::Number(_) => stock_line(tokens, state, id, body),
                        other => Err(ErrorView::UnexpectedToken(other)),
                    }
                },
            },
            TokenView::NewLine => Ok(
                ParserView {
                    pos: state.pos + 1,
                    stocks: state.stocks,
                    processes: state.processes,
                    optimize: state.optimize,
                },
            ),
            other => Err(ErrorView::UnexpectedToken(other)),
        }
    }
}

/// A position that a piece of the grammar returns lies behind where it began.
pub proof fn lemma_tuple_advances(tokens: Seq<TokenView>, pos: int, acc: Seq<(Seq<char>, nat)>)
    requires
        0 <= pos,
    ensures
        tuple_rest(tokens, pos, acc) is Ok ==> pos < tuple_rest(tokens, pos, acc)->Ok_0.1
            <= tokens.len(),
        tuple(tokens, pos) is Ok ==> pos < tuple(tokens, pos)->Ok_0.1 <= tokens.len(),
    decreases tokens.len() - pos,
{
    if tuple_rest(tokens, pos, acc) is Ok {
        let (name, colon) = expect_ident(tokens, pos)->Ok_0;
        let number = expect(tokens, colon, TokenView::Colon)->Ok_0;
        let (n, next) = expect_number(tokens, number)->Ok_0;
        if tokens[next] == TokenView::Semicolon {
            lemma_tuple_advances(tokens, next + 1, acc.push((name, n)));
        }
    }
    if tuple(tokens, pos) is Ok {
        lemma_tuple_advances(tokens, pos + 1, Seq::empty());
    }
}

/// The objectives end behind where they began.
pub proof fn lemma_objectives_advance(tokens: Seq<TokenView>, pos: int, acc: Seq<Seq<char>>)
    requires
        0 <= pos,
    ensures
        objectives_rest(tokens, pos, acc) is Ok ==> pos < objectives_rest(
            tokens,
            pos,
            acc,
        )->Ok_0.1 <= tokens.len(),
    decreases tokens.len() - pos,
{
    if objectives_rest(tokens, pos, acc) is Ok {
        if tokens[pos + 1] == TokenView::Semicolon {
            let name = match tokens[pos] {
                TokenView::Time => Some("time"@),
                TokenView::Identifier(text) => Some(text),
                _ => None,
            };
            lemma_objectives_advance(tokens, pos + 2, acc.push(name->0));
        }
    }
}

/// A line that is read ends behind where it began.
pub proof fn lemma_line_advances(tokens: Seq<TokenView>, state: ParserView)
    ensures
        line(tokens, state) is Ok ==> state.pos < line(tokens, state)->Ok_0.pos <= tokens.len(),
{
    if line(tokens, state) is Ok {
        match tokens[state.pos] {
            TokenView::Optimize => {
                lemma_objectives_advance(tokens, state.pos + 3, Seq::empty());
            },
            TokenView::Identifier(id) => {
                let body = state.pos + 2;
                match tokens[body] {
                    TokenView::LeftParen => {
                        lemma_tuple_advances(tokens, body, Seq::empty());
                        let (inputs, colon) = tuple(tokens, body)->Ok_0;
                        lemma_tuple_advances(tokens, colon + 1, Seq::empty());
                    },
                    _ => {},
                }
            },
            _ => {},
        }
    }
}

/// The state after all the lines from the position of `state` on, if the
/// description is then complete: it has named its objectives, at least one
/// stock, and at least one process.
pub open spec fn program(tokens: Seq<TokenView>, state: ParserView) -> Result<ParserView, ErrorView>
    decreases tokens.len() - state.pos,
{
    if state.pos < 0 || state.pos >= tokens.len() {
        if state.optimize is None {
            Err(ErrorView::MissingOptimize)
        } else if state.stocks.dom() =~= Set::empty() {
            Err(ErrorView::MissingStocks)
        } else if state.processes.len() == 0 {
            Err(ErrorView::MissingProcess)
        } else {
            Ok(state)
        }
    } else {
        match line(tokens, state) {
            Err(e) => Err(e),
            Ok(next) => {
                proof {
                    lemma_line_advances(tokens, state);
                }
                program(tokens, next)
            },
        }
    }
}

/// A list of objectives, if there is one, as plain values.
pub open spec fn optimize_view(optimize: Option<Vec<String>>) -> Option<Seq<Seq<char>>> {
    match optimize {
        Some(names) => Some(names_view(names@)),
        None => None,
    }
}

/// The parser of one description.
pub struct Parser {
    current: usize,
    tokens: Vec<Token>,
    pub stocks: Stocks,
    pub process: Vec<Process>,
    pub optimize: Option<Vec<String>>,
}

impl Parser {
    /// The tokens of the description.
    pub closed spec fn tokens(&self) -> Seq<TokenView> {
        tokens_view(self.tokens@)
    }

    /// The position of the parser among the tokens.
    pub closed spec fn position(&self) -> int {
        self.current as int
    }

    /// What the parser has read so far.
    pub closed spec fn state(&self) -> ParserView {
        ParserView {
            pos: self.position(),
            stocks: self.stocks@,
            processes: processes_view(self.process@),
            optimize: optimize_view(self.optimize),
        }
    }

    /// The state of `self` at another position.
    pub closed spec fn state_at(&self, pos: int) -> ParserView {
        ParserView {
            pos,
            stocks: self.stocks@,
            processes: processes_view(self.process@),
            optimize: optimize_view(self.optimize),
        }
    }

    /// A parser at the first of `tokens`, with nothing read.
    pub fn new(tokens: Vec<Token>) -> (parser: Parser)
        ensures
            parser.tokens() == tokens_view(tokens@),
            parser.state() == (ParserView {
                pos: 0,
                stocks: Map::empty(),
                processes: Seq::empty(),
                optimize: None,
            }),
    {
        let parser = Parser {
            current: 0,
            tokens,
            stocks: Stocks::new(),
            process: Vec::new(),
            optimize: None,
        };
        assert(processes_view(parser.process@) =~= Seq::<ProcessView>::empty());
        parser
    }

    /// The problem that the parser has read, if it has read the objectives.
    pub fn into_data(self) -> (r: Option<crate::model::Data>)
        ensures
            match r {
                Some(data) => self.state().optimize is Some && data@ == (crate::model::DataView {
                    stocks: self.state().stocks,
                    processes: self.state().processes,
                    objectives: self.state().optimize->0,
                }),
                None => self.state().optimize is None,
            },
    {
        match self.optimize {
            Some(objectives) => Some(
                crate::model::Data { stocks: self.stocks, processes: self.process, objectives },
            ),
            None => None,
        }
    }

    /// The token at the position of the parser, if there is one.
    pub fn peek(&self) -> (r: Option<&Token>)
        ensures
            match r {
                Some(token) => 0 <= self.position() < self.tokens().len() && token@
                    == self.tokens()[self.position()],
                None => self.position() >= self.tokens().len(),
            },
    {
        if self.current < self.tokens.len() {
            Some(&self.tokens[self.current])
        } else {
            None
        }
    }

    /// Moves behind the token at the position of the parser, and returns it.
    pub fn advance(&mut self) -> (token: Token)
        requires
            0 <= old(self).position() < old(self).tokens().len(),
        ensures
            final(self).tokens() == old(self).tokens(),
            final(self).state() == old(self).state_at(old(self).position() + 1),
            token@ == old(self).tokens()[old(self).position()],
    {
        assert(self.tokens().len() == self.tokens@.len());
        let count = self.tokens.len();
        let token = self.tokens[self.current].duplicate();
        if self.current < count {
            self.current = self.current + 1;
        }
        token
    }

    /// Moves behind the token at the position of the parser if it is `token`.
    pub fn consume(&mut self, token: Token) -> (r: Result<(), Error>)
        ensures
            final(self).tokens() == old(self).tokens(),
            match r {
                Ok(_) => expect(old(self).tokens(), old(self).position(), token@) == Ok::<
                    int,
                    ErrorView,
                >(final(self).position()) && final(self).state() == old(self).state_at(
                    final(self).position(),
                ),
                Err(e) => expect(old(self).tokens(), old(self).position(), token@) == Err::<
                    int,
                    ErrorView,
                >(e@) && final(self).state() == old(self).state(),
            },
    {
        if self.current < self.tokens.len() {
            if self.tokens[self.current].same_as(&token) {
                self.current = self.current + 1;
                Ok(())
            } else {
                Err(Error::ExpectedToken(token, self.tokens[self.current].duplicate()))
            }
        } else {
            Err(Error::UnexpectedEOF)
        }
    }

    /// Moves behind the identifier at the position of the parser, and returns its text.
    pub fn consume_ident(&mut self) -> (r: Result<String, Error>)
        ensures
            final(self).tokens() == old(self).tokens(),
            match r {
                Ok(text) => expect_ident(old(self).tokens(), old(self).position()) == Ok::<
                    (Seq<char>, int),
                    ErrorView,
                >((text@, final(self).position())) && final(self).state() == old(self).state_at(
                    final(self).position(),
                ),
                Err(e) => expect_ident(old(self).tokens(), old(self).position()) == Err::<
                    (Seq<char>, int),
                    ErrorView,
                >(e@) && final(self).state() == old(self).state(),
            },
    {
        if self.current < self.tokens.len() {
            match &self.tokens[self.current] {
                Token::Identifier(text) => {
                    let text = text.clone();
                    self.current = self.current + 1;
                    Ok(text)
                },
                other => {
                    let wanted = Token::Identifier(String::new());
                    assert(wanted@ == TokenView::Identifier(Seq::<char>::empty()));
                    Err(Error::ExpectedToken(wanted, other.duplicate()))
                },
            }
        } else {
            Err(Error::UnexpectedEOF)
        }
    }

    /// Moves behind the number at the position of the parser, and returns it.
    pub fn consume_number(&mut self) -> (r: Result<u64, Error>)
        ensures
            final(self).tokens() == old(self).tokens(),
            match r {
                Ok(n) => expect_number(old(self).tokens(), old(self).position()) == Ok::<
                    (nat, int),
                    ErrorView,
                >((n as nat, final(self).position())) && final(self).state() == old(
                    self,
                ).state_at(final(self).position()),
                Err(e) => expect_number(old(self).tokens(), old(self).position()) == Err::<
                    (nat, int),
                    ErrorView,
                >(e@) && final(self).state() == old(self).state(),
            },
    {
        if self.current < self.tokens.len() {
            match &self.tokens[self.current] {
                Token::Number(n) => {
                    let n = *n;
                    self.current = self.current + 1;
                    Ok(n)
                },
                other => Err(Error::ExpectedToken(Token::Number(0), other.duplicate())),
            }
        } else {
            Err(Error::MissingProcess)
        }
    }

    /// Reads the tuple that opens at the position of the parser.
    pub fn parse_tuple(&mut self) -> (r: Result<Vec<(String, u64)>, Error>)
        ensures
            final(self).tokens() == old(self).tokens(),
            match r {
                Ok(list) => tuple(old(self).tokens(), old(self).position()) == Ok::<
                    (Seq<(Seq<char>, nat)>, int),
                    ErrorView,
                >((amounts_view(list@), final(self).position())) && final(self).state() == old(
                    self,
                ).state_at(final(self).position()),
                Err(e) => tuple(old(self).tokens(), old(self).position()) == Err::<
                    (Seq<(Seq<char>, nat)>, int),
                    ErrorView,
                >(e@),
            },
    {
        let ghost tokens = self.tokens();
        let ghost goal = tuple(tokens, self.position());
        let mut list: Vec<(String, u64)> = Vec::new();
        match self.consume(Token::LeftParen) {
            Err(e) => {
                return Err(e);
            },
            Ok(_) => {},
        }
        assert(amounts_view(list@) =~= Seq::<(Seq<char>, nat)>::empty());
        loop
            invariant
                tokens == self.tokens(),
                tokens == old(self).tokens(),
                0 <= self.position(),
                goal == tuple(tokens, old(self).position()),
                goal == tuple_rest(tokens, self.position(), amounts_view(list@)),
                self.state() == old(self).state_at(self.position()),
            decreases tokens.len() - self.position(),
        {
            let ghost held = amounts_view(list@);
            let name = match self.consume_ident() {
                Err(e) => {
                    return Err(e);
                },
                Ok(name) => name,
            };
            match self.consume(Token::Colon) {
                Err(e) => {
                    return Err(e);
                },
                Ok(_) => {},
            }
            let n = match self.consume_number() {
                Err(e) => {
                    return Err(e);
                },
                Ok(n) => n,
            };
            list.push((name, n));
            assert(amounts_view(list@) =~= held.push((name@, n as nat)));
            if self.current >= self.tokens.len() {
                return Err(Error::UnexpectedEOF);
            }
            match &self.tokens[self.current] {
                Token::RightParen => {
                    self.current = self.current + 1;
                    return Ok(list);
                },
                Token::Semicolon => {
                    self.current = self.current + 1;
                },
                other => {
                    return Err(Error::UnexpectedToken(other.duplicate()));
                },
            }
        }
    }

    /// Reads the quantity of stock `ident` and the end of its line.
    pub fn parse_stock(&mut self, ident: String) -> (r: Result<(), Error>)
        ensures
            final(self).tokens() == old(self).tokens(),
            match r {
                Ok(_) => stock_line(
                    old(self).tokens(),
                    old(self).state(),
                    ident@,
                    old(self).position(),
                ) == Ok::<ParserView, ErrorView>(final(self).state()),
                Err(e) => stock_line(
                    old(self).tokens(),
                    old(self).state(),
                    ident@,
                    old(self).position(),
                ) == Err::<ParserView, ErrorView>(e@),
            },
    {
        let n = match self.consume_number() {
            Err(e) => {
                return Err(e);
            },
            Ok(n) => n,
        };
        if self.stocks.contains(&ident) {
            return Err(Error::DuplicatedIdentifier);
        }
        if find_process(&self.process, &ident).is_some() {
            return Err(Error::DuplicatedIdentifier);
        }
        match self.consume(Token::NewLine) {
            Err(e) => {
                return Err(e);
            },
            Ok(_) => {},
        }
        self.stocks.set(ident, n);
        Ok(())
    }

    /// Reads the objectives, whose line begins at the position of the parser.
    pub fn parse_optimize(&mut self) -> (r: Result<(), Error>)
        requires
            0 <= old(self).position() < old(self).tokens().len(),
        ensures
            final(self).tokens() == old(self).tokens(),
            match r {
                Ok(_) => optimize_line(old(self).tokens(), old(self).state()) == Ok::<
                    ParserView,
                    ErrorView,
                >(final(self).state()),
                Err(e) => optimize_line(old(self).tokens(), old(self).state()) == Err::<
                    ParserView,
                    ErrorView,
                >(e@),
            },
    {
        let ghost tokens = self.tokens();
        let ghost goal = optimize_line(tokens, self.state());
        let mut names: Vec<String> = Vec::new();
        if self.optimize.is_some() {
            return Err(Error::DuplicatedOptimize);
        }
        let _ = self.advance();
        match self.consume(Token::Colon) {
            Err(e) => {
                return Err(e);
            },
            Ok(_) => {},
        }
        match self.consume(Token::LeftParen) {
            Err(e) => {
                return Err(e);
            },
            Ok(_) => {},
        }
        let ghost first = self.position();
        assert(names_view(names@) =~= Seq::<Seq<char>>::empty());
        loop
            invariant_except_break
                goal == optimize_line(tokens, old(self).state()),
                objectives_rest(tokens, first, Seq::empty()) == objectives_rest(
                    tokens,
                    self.position(),
                    names_view(names@),
                ),
            invariant
                tokens == self.tokens(),
                tokens == old(self).tokens(),
                0 <= self.position(),
                self.state() == old(self).state_at(self.position()),
                old(self).optimize is None,
                expect(tokens, old(self).position() + 1, TokenView::Colon) == Ok::<int, ErrorView>(
                    first - 1,
                ),
                expect(tokens, first - 1, TokenView::LeftParen) == Ok::<int, ErrorView>(first),
            ensures
                objectives_rest(tokens, first, Seq::empty()) == Ok::<
                    (Seq<Seq<char>>, int),
                    ErrorView,
                >((names_view(names@), self.position())),
            decreases tokens.len() - self.position(),
        {
            let ghost held = names_view(names@);
            if self.current >= self.tokens.len() {
                return Err(Error::UnexpectedEOF);
            }
            match &self.tokens[self.current] {
                Token::Time => {
                    names.push("time".to_owned());
                    assert(names_view(names@) =~= held.push("time"@));
                },
                Token::Identifier(text) => {
                    names.push(text.clone());
                    assert(names_view(names@) =~= held.push(text@));
                },
                other => {
                    return Err(Error::UnexpectedToken(other.duplicate()));
                },
            }
            self.current = self.current + 1;
            if self.current >= self.tokens.len() {
                return Err(Error::UnexpectedEOF);
            }
            match &self.tokens[self.current] {
                Token::RightParen => {
                    self.current = self.current + 1;
                    break ;
                },
                Token::Semicolon => {
                    self.current = self.current + 1;
                },
                other => {
                    return Err(Error::UnexpectedToken(other.duplicate()));
                },
            }
        }
        match self.consume(Token::NewLine) {
            Err(e) => {
                return Err(e);
            },
            Ok(_) => {},
        }
        self.optimize = Some(names);
        Ok(())
    }

    /// Reads the body of process `id`, which opens at the position of the parser.
    pub fn parse_process(&mut self, id: String) -> (r: Result<(), Error>)
        ensures
            final(self).tokens() == old(self).tokens(),
            match r {
                Ok(_) => process_line(
                    old(self).tokens(),
                    old(self).state(),
                    id@,
                    old(self).position(),
                ) == Ok::<ParserView, ErrorView>(final(self).state()),
                Err(e) => process_line(
                    old(self).tokens(),
                    old(self).state(),
                    id@,
                    old(self).position(),
                ) == Err::<ParserView, ErrorView>(e@),
            },
    {
        if self.stocks.contains(&id) {
            return Err(Error::DuplicatedIdentifier);
        }
        if find_process(&self.process, &id).is_some() {
            return Err(Error::DuplicatedIdentifier);
        }
        let input = match self.parse_tuple() {
            Err(e) => {
                return Err(e);
            },
            Ok(list) => list,
        };
        match self.consume(Token::Colon) {
            Err(e) => {
                return Err(e);
            },
            Ok(_) => {},
        }
        let output = match self.parse_tuple() {
            Err(e) => {
                return Err(e);
            },
            Ok(list) => list,
        };
        match self.consume(Token::Colon) {
            Err(e) => {
                return Err(e);
            },
            Ok(_) => {},
        }
        let time = match self.consume_number() {
            Err(e) => {
                return Err(e);
            },
            Ok(n) => n,
        };
        let ghost outs = amounts_view(output@);
        let ghost before = self.stocks@;
        let ghost mid = self.state();
        let mut i: usize = 0;
        while i < output.len()
            invariant
                i <= output@.len(),
                outs == amounts_view(output@),
                self.tokens() == old(self).tokens(),
                self.state() == (ParserView {
                    pos: mid.pos,
                    stocks: with_outputs(before, outs.take(i as int)),
                    processes: mid.processes,
                    optimize: mid.optimize,
                }),
            decreases output@.len() - i,
        {
            proof {
                assert(outs.take(i + 1).drop_last() =~= outs.take(i as int));
                assert(outs.take(i + 1).last() == outs[i as int]);
                assert(outs[i as int].0 == output@[i as int].0@);
            }
            if !self.stocks.contains(&output[i].0) {
                self.stocks.set(output[i].0.clone(), 0);
            }
            i += 1;
        }
        proof {
            assert(outs.take(output@.len() as int) =~= outs);
        }
        let ghost held = processes_view(self.process@);
        let process = Process { id, input, output, time };
        self.process.push(process);
        assert(processes_view(self.process@) =~= held.push(process@));
        Ok(())
    }

    /// Reads the line at the position of the parser.
    pub fn parse_line(&mut self) -> (r: Result<(), Error>)
        ensures
            final(self).tokens() == old(self).tokens(),
            match r {
                Ok(_) => line(old(self).tokens(), old(self).state()) == Ok::<
                    ParserView,
                    ErrorView,
                >(final(self).state()),
                Err(e) => line(old(self).tokens(), old(self).state()) == Err::<
                    ParserView,
                    ErrorView,
                >(e@),
            },
    {
        if self.current >= self.tokens.len() {
            return Err(Error::ExpectedLine);
        }
        match &self.tokens[self.current] {
            Token::Optimize => self.parse_optimize(),
            Token::Identifier(_) => {
                let ident = match self.consume_ident() {
                    Err(e) => {
                        return Err(e);
                    },
                    Ok(text) => text,
                };
                match self.consume(Token::Colon) {
                    Err(e) => {
                        return Err(e);
                    },
                    Ok(_) => {},
                }
                if self.current >= self.tokens.len() {
                    return Err(Error::UnexpectedEOF);
                }
                match &self.tokens[self.current] {
                    Token::LeftParen => self.parse_process(ident),
                    Token::Number(_) => self.parse_stock(ident),
                    other => Err(Error::UnexpectedToken(other.duplicate())),
                }
            },
            Token::NewLine => {
                self.current = self.current + 1;
                Ok(())
            },
            other => Err(Error::UnexpectedToken(other.duplicate())),
        }
    }

    /// Reads the description from the position of the parser to its end. A
    /// description is complete when it has named its objectives, at least one
    /// stock and at least one process.
    pub fn parse(&mut self) -> (r: Result<(), Error>)
        ensures
            final(self).tokens() == old(self).tokens(),
            match r {
                Ok(_) => program(old(self).tokens(), old(self).state()) == Ok::<
                    ParserView,
                    ErrorView,
                >(final(self).state()),
                Err(e) => program(old(self).tokens(), old(self).state()) == Err::<
                    ParserView,
                    ErrorView,
                >(e@),
            },
    {
        let ghost tokens = self.tokens();
        let ghost goal = program(tokens, self.state());
        while self.current < self.tokens.len()
            invariant
                tokens == self.tokens(),
                tokens == old(self).tokens(),
                goal == program(tokens, old(self).state()),
                goal == program(tokens, self.state()),
                self.current == self.position(),
            decreases tokens.len() - self.position(),
        {
            proof {
                lemma_line_advances(tokens, self.state());
            }
            match self.parse_line() {
                Err(e) => {
                    return Err(e);
                },
                Ok(_) => {},
            }
        }
        if self.optimize.is_none() {
            return Err(Error::MissingOptimize);
        }
        proof {
            use_type_invariant(&self.stocks);
            self.stocks.lemma_keys();
            if self.stocks.keys().len() > 0 {
                assert(self.stocks.keys().contains(self.stocks.keys()[0]));
                assert(self.stocks@.dom().contains(self.stocks.keys()[0]));
            } else {
                assert forall|k: Seq<char>| !self.stocks@.dom().contains(k) by {
                    if self.stocks@.dom().contains(k) {
                        assert(self.stocks.keys().contains(k));
                    }
                }
                assert(self.stocks@.dom() =~= Set::empty());
            }
        }
        if self.stocks.len() == 0 {
            return Err(Error::MissingStocks);
        }
        if self.process.len() == 0 {
            return Err(Error::MissingProcess);
        }
        Ok(())
    }
}

} // verus!
