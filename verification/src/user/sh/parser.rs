//! From the tokens of a line to commands.
//!
//! ```text
//! line     = [ pipeline [ "&" ] [ ";" line ] ]
//! pipeline = unit [ ( "|" | "&&" | "||" ) pipeline ]
//! unit     = "(" line ")" redirections
//!          | redirections { word redirections }
//! redirections = { ( "<" | ">" | ">>" ) word }
//! ```
use super::command::{
    commands, words, Command, CommandView, KindView, OutputMode, Redirect, RedirectView,
};
use super::tokenizer::{tokens_of, Punct, Token, TokenView, TokenizeError, Tokenizer, Tokens};
use vstd::prelude::*;
use vstd::string::StringSliceAdditionalSpecFns;

verus! {

/// Why a line is not understood.
#[derive(Debug, PartialEq, Eq)]
pub enum ParseError {
    /// It cannot be split into tokens.
    Tokenize(TokenizeError),
    /// Something is left over after a complete line.
    Leftovers(Token),
    /// A redirection names no file.
    MissingFile,
    /// Punctuation is missing.
    MissingPunct(Punct),
    /// Punctuation stands where it must not.
    UnexpectedPunct(Punct),
}

/// What a [`ParseError`] stands for.
pub enum ParseErrorView {
    Tokenize(TokenizeError),
    Leftovers(TokenView),
    MissingFile,
    MissingPunct(Punct),
    UnexpectedPunct(Punct),
}

impl ParseError {
    pub open spec fn view(&self) -> ParseErrorView {
        match self {
            ParseError::Tokenize(e) => ParseErrorView::Tokenize(*e),
            ParseError::Leftovers(t) => ParseErrorView::Leftovers(t@),
            ParseError::MissingFile => ParseErrorView::MissingFile,
            ParseError::MissingPunct(p) => ParseErrorView::MissingPunct(*p),
            ParseError::UnexpectedPunct(p) => ParseErrorView::UnexpectedPunct(*p),
        }
    }
}

/// What comes next.
pub enum Peeked {
    Token(TokenView),
    End,
    Error(TokenizeError),
}

/// What stands at a place among the tokens.
pub open spec fn peek(ts: Tokens, i: nat) -> Peeked {
    if i < ts.tokens.len() {
        Peeked::Token(ts.tokens[i as int])
    } else {
        match ts.error {
            Some(e) => Peeked::Error(e),
            None => Peeked::End,
        }
    }
}

/// Whether a piece of punctuation stands at a place.
pub open spec fn punct_next(ts: Tokens, i: nat, p: Punct) -> bool {
    peek(ts, i) == Peeked::Token(TokenView::Punct(p))
}

/// How much is left from a place on.
pub open spec fn left(ts: Tokens, i: nat) -> nat {
    if i <= ts.tokens.len() {
        (ts.tokens.len() - i) as nat
    } else {
        0
    }
}

/// Whether a piece of punctuation ends the arguments of a program.
pub open spec fn ends_exec(p: Punct) -> bool {
    p == Punct::Pipe || p == Punct::AndAnd || p == Punct::OrOr || p == Punct::RParen || p
        == Punct::And || p == Punct::Semicolon
}

/// A redirection together with those before it.
pub open spec fn redirected(redirect: RedirectView, p: Punct, file: Seq<u8>) -> RedirectView {
    if p == Punct::Lt {
        RedirectView { stdin: Some(file), ..redirect }
    } else if p == Punct::Gt {
        RedirectView { stdout: Some((file, OutputMode::Truncate)), ..redirect }
    } else {
        RedirectView { stdout: Some((file, OutputMode::Append)), ..redirect }
    }
}

/// The redirections from a place on, together with those before it, and where
/// they end.
pub open spec fn redirs_at(ts: Tokens, i: nat, redirect: RedirectView) -> (
    Result<RedirectView, ParseErrorView>,
    nat,
)
    decreases left(ts, i),
{
    match peek(ts, i) {
        Peeked::Error(e) => (Err(ParseErrorView::Tokenize(e)), i),
        Peeked::Token(TokenView::Punct(p)) if p == Punct::Lt || p == Punct::Gt || p
            == Punct::GtGt => match peek(ts, i + 1) {
            Peeked::Error(e) => (Err(ParseErrorView::Tokenize(e)), i + 1),
            Peeked::Token(TokenView::Str(file)) => redirs_at(
                ts,
                i + 2,
                redirected(redirect, p, file),
            ),
            _ => (Err(ParseErrorView::MissingFile), i + 1),
        },
        _ => (Ok(redirect), i),
    }
}

/// The arguments and redirections of a program from a place on, together with
/// those before it, and where they end.
pub open spec fn args_at(
    ts: Tokens,
    i: nat,
    argv: Seq<Seq<u8>>,
    redirect: RedirectView,
) -> (Result<(Seq<Seq<u8>>, RedirectView), ParseErrorView>, nat)
    decreases left(ts, i),
{
    match peek(ts, i) {
        Peeked::Error(e) => (Err(ParseErrorView::Tokenize(e)), i),
        Peeked::Token(TokenView::Str(arg)) => match redirs_at(ts, i + 1, redirect) {
            (Err(e), j) => (Err(e), j),
            (Ok(redirect), j) => if j <= i {
                (Ok((argv, redirect)), j)
            } else {
                args_at(ts, j, argv.push(arg), redirect)
            },
        },
        Peeked::Token(TokenView::Punct(p)) if !ends_exec(p) => (
            Err(ParseErrorView::UnexpectedPunct(p)),
            i,
        ),
        _ => (Ok((argv, redirect)), i),
    }
}

/// How a part of a line is understood: the command that it is, if it is one, or
/// an error; and where it ends.
pub type Understood = (Result<Option<CommandView>, ParseErrorView>, nat);

/// The command without operators from a place on.
pub open spec fn exec_at(ts: Tokens, i: nat) -> Understood
    decreases left(ts, i), 0nat,
{
    if punct_next(ts, i, Punct::LParen) {
        subshell_at(ts, i + 1)
    } else {
        match redirs_at(ts, i, Redirect::empty()) {
            (Err(e), j) => (Err(e), j),
            (Ok(redirect), j) => match args_at(ts, j, seq![], redirect) {
                (Err(e), k) => (Err(e), k),
                (Ok((argv, redirect)), k) => if argv.len() == 0 {
                    (Ok(None), k)
                } else {
                    (Ok(Some(Command::of(KindView::Exec { argv, redirect }))), k)
                },
            },
        }
    }
}

/// The commands in parentheses from the place after the opening one on.
pub open spec fn subshell_at(ts: Tokens, i: nat) -> Understood
    decreases left(ts, i), 3nat,
{
    match line_at(ts, i, seq![]) {
        (Err(e), j) => (Err(e), j),
        (Ok(list), j) => match peek(ts, j) {
            Peeked::Error(e) => (Err(ParseErrorView::Tokenize(e)), j),
            Peeked::Token(TokenView::Punct(Punct::RParen)) => match redirs_at(
                ts,
                j + 1,
                Redirect::empty(),
            ) {
                (Err(e), k) => (Err(e), k),
                (Ok(redirect), k) => (
                    Ok(Some(Command::of(KindView::Subshell { list, redirect }))),
                    k,
                ),
            },
            _ => (Err(ParseErrorView::MissingPunct(Punct::RParen)), j),
        },
    }
}

/// Whether a piece of punctuation connects two commands.
pub open spec fn is_operator(p: Punct) -> bool {
    p == Punct::Pipe || p == Punct::AndAnd || p == Punct::OrOr
}

/// Two commands that an operator connects.
pub open spec fn connected(left: CommandView, p: Punct, right: CommandView) -> CommandView {
    Command::of(
        if p == Punct::Pipe {
            KindView::Pipe { left, right }
        } else if p == Punct::AndAnd {
            KindView::LogicalAnd { left, right }
        } else {
            KindView::LogicalOr { left, right }
        },
    )
}

/// The commands connected by operators from a place on: all operators bind
/// equally, and to the right. Where nothing follows an operator, there is no
/// command.
pub open spec fn pipe_at(ts: Tokens, i: nat) -> Understood
    decreases left(ts, i), 1nat,
{
    match exec_at(ts, i) {
        (Ok(Some(cmd)), j) => match peek(ts, j) {
            Peeked::Error(e) => (Err(ParseErrorView::Tokenize(e)), j),
            Peeked::Token(TokenView::Punct(p)) if is_operator(p) => if j < i {
                (Ok(None), j)
            } else {
                match pipe_at(ts, j + 1) {
                    (Ok(Some(right)), k) => (Ok(Some(connected(cmd, p, right))), k),
                    other => other,
                }
            },
            _ => (Ok(Some(cmd)), j),
        },
        other => other,
    }
}

/// The commands from a place on, together with those before it.
pub open spec fn line_at(ts: Tokens, i: nat, list: Seq<CommandView>) -> (
    Result<Seq<CommandView>, ParseErrorView>,
    nat,
)
    decreases left(ts, i), 2nat,
{
    match pipe_at(ts, i) {
        (Err(e), j) => (Err(e), j),
        (Ok(None), j) => (Ok(list), j),
        (Ok(Some(cmd)), j) => {
            let background = punct_next(ts, j, Punct::And);
            let list = list.push(CommandView { background, ..cmd });
            let k = if background {
                j + 1
            } else {
                j
            };
            match peek(ts, k) {
                Peeked::Error(e) => (Err(ParseErrorView::Tokenize(e)), k),
                Peeked::Token(TokenView::Punct(Punct::Semicolon)) => if k < i {
                    (Ok(list), k)
                } else {
                    line_at(ts, k + 1, list)
                },
                _ => (Ok(list), k),
            }
        },
    }
}

/// The commands that a line asks for, or why it is not understood.
pub open spec fn parsed(ts: Tokens) -> Result<Seq<CommandView>, ParseErrorView> {
    parsed_from(ts, 0)
}

/// The commands that the tokens from a place on ask for, or why they are not
/// understood.
pub open spec fn parsed_from(ts: Tokens, i: nat) -> Result<Seq<CommandView>, ParseErrorView> {
    match line_at(ts, i, seq![]) {
        (Err(e), _) => Err(e),
        (Ok(list), j) => match peek(ts, j) {
            Peeked::Error(e) => Err(ParseErrorView::Tokenize(e)),
            Peeked::Token(t) => Err(ParseErrorView::Leftovers(t)),
            Peeked::End => Ok(list),
        },
    }
}

/// Once a line has been understood, all its tokens have been used: parsing again finds
/// no command.
pub proof fn law_parse_again(ts: Tokens, i: nat)
    requires
        parsed_from(ts, i) is Ok,
    ensures
        ts.error is None,
        parsed_from(ts, ts.tokens.len()) == Ok::<Seq<CommandView>, ParseErrorView>(seq![]),
{
    let n = ts.tokens.len();
    assert(redirs_at(ts, n, Redirect::empty()) == (
        Ok::<RedirectView, ParseErrorView>(Redirect::empty()),
        n,
    ));
    assert(exec_at(ts, n) == (Ok::<Option<CommandView>, ParseErrorView>(None), n));
    assert(pipe_at(ts, n) == (Ok::<Option<CommandView>, ParseErrorView>(None), n));
}

/// Redirections end no earlier than they begin.
proof fn lemma_redirs(ts: Tokens, i: nat, redirect: RedirectView)
    requires
        i <= ts.tokens.len(),
    ensures
        redirs_at(ts, i, redirect).0 is Ok ==> i <= redirs_at(ts, i, redirect).1
            <= ts.tokens.len(),
    decreases left(ts, i),
{
    match peek(ts, i) {
        Peeked::Token(TokenView::Punct(p)) if p == Punct::Lt || p == Punct::Gt || p
            == Punct::GtGt => match peek(ts, i + 1) {
            Peeked::Token(TokenView::Str(file)) => {
                lemma_redirs(ts, i + 2, redirected(redirect, p, file));
            },
            _ => {},
        },
        _ => {},
    }
}

/// Commands connected by operators end where no operator follows.
proof fn lemma_pipe_end(ts: Tokens, i: nat)
    ensures
        pipe_at(ts, i) matches (Ok(Some(_)), k) ==> match peek(ts, k) {
            Peeked::Error(_) => false,
            Peeked::Token(TokenView::Punct(p)) => !is_operator(p),
            _ => true,
        },
    decreases left(ts, i),
{
    match exec_at(ts, i) {
        (Ok(Some(cmd)), j) => match peek(ts, j) {
            Peeked::Token(TokenView::Punct(p)) if is_operator(p) => if j >= i {
                lemma_pipe_end(ts, j + 1);
            },
            _ => {},
        },
        _ => {},
    }
}

/// Tokens that can be looked at before they are taken.
pub struct PeekTokenizer {
    pub tokens: Tokenizer,
    /// The place of the next token.
    pub pos: usize,
}

impl PeekTokenizer {
    /// Whether the place lies among the tokens.
    pub open spec fn wf(self) -> bool {
        self.pos <= self.tokens@.tokens.len()
    }

    /// The tokens of a line.
    pub fn new(input: &str) -> (r: Self)
        ensures
            r.tokens@ == tokens_of(input.spec_bytes()),
            r.pos == 0,
            r.wf(),
    {
        PeekTokenizer { tokens: Tokenizer::new(input), pos: 0 }
    }

    /// Takes the next token.
    pub fn next(&mut self) -> (r: Result<Option<Token>, TokenizeError>)
        requires
            old(self).wf(),
        ensures
            final(self).wf(),
            final(self).tokens == old(self).tokens,
            match peek(old(self).tokens@, old(self).pos as nat) {
                Peeked::Error(e) => r == Err::<Option<Token>, TokenizeError>(e)
                    && final(self).pos == old(self).pos,
                Peeked::End => r == Ok::<Option<Token>, TokenizeError>(None) && final(self).pos
                    == old(self).pos,
                Peeked::Token(t) => r matches Ok(Some(token)) && token@ == t && final(self).pos
                    == old(self).pos + 1,
            },
    {
        if self.pos < self.tokens.tokens.len() {
            let token = self.tokens.tokens[self.pos].to_owned_token();
            self.pos = self.pos + 1;
            Ok(Some(token))
        } else {
            match self.tokens.error {
                Some(e) => Err(e),
                None => Ok(None),
            }
        }
    }

    /// Takes the next token if it is the given punctuation.
    pub fn next_if_eq(&mut self, p: Punct) -> (r: Result<bool, TokenizeError>)
        requires
            old(self).wf(),
        ensures
            final(self).wf(),
            final(self).tokens == old(self).tokens,
            match peek(old(self).tokens@, old(self).pos as nat) {
                Peeked::Error(e) => r == Err::<bool, TokenizeError>(e) && final(self).pos == old(
                    self,
                ).pos,
                _ => {
                    let taken = punct_next(old(self).tokens@, old(self).pos as nat, p);
                    &&& r == Ok::<bool, TokenizeError>(taken)
                    &&& final(self).pos == old(self).pos + if taken {
                        1int
                    } else {
                        0
                    }
                },
            },
    {
        if self.pos < self.tokens.tokens.len() {
            match self.tokens.tokens[self.pos].as_punct() {
                Some(found) => {
                    if found == p {
                        self.pos = self.pos + 1;
                        Ok(true)
                    } else {
                        Ok(false)
                    }
                },
                None => Ok(false),
            }
        } else {
            match self.tokens.error {
                Some(e) => Err(e),
                None => Ok(false),
            }
        }
    }

    /// Takes the next token unless it is punctuation that ends the arguments of
    /// a program.
    pub fn next_arg(&mut self) -> (r: Result<Option<Token>, TokenizeError>)
        requires
            old(self).wf(),
        ensures
            final(self).wf(),
            final(self).tokens == old(self).tokens,
            match peek(old(self).tokens@, old(self).pos as nat) {
                Peeked::Error(e) => r == Err::<Option<Token>, TokenizeError>(e)
                    && final(self).pos == old(self).pos,
                Peeked::Token(TokenView::Punct(p)) if ends_exec(p) => r == Ok::<
                    Option<Token>,
                    TokenizeError,
                >(None) && final(self).pos == old(self).pos,
                Peeked::End => r == Ok::<Option<Token>, TokenizeError>(None) && final(self).pos
                    == old(self).pos,
                Peeked::Token(t) => r matches Ok(Some(token)) && token@ == t && final(self).pos
                    == old(self).pos + 1,
            },
    {
        if self.pos < self.tokens.tokens.len() {
            match self.tokens.tokens[self.pos].as_punct() {
                Some(Punct::Pipe) | Some(Punct::AndAnd) | Some(Punct::OrOr) | Some(Punct::RParen)
                | Some(Punct::And) | Some(Punct::Semicolon) => {
                    return Ok(None);
                },
                _ => {},
            }
        }
        self.next()
    }
}

/// A parser for lines of the shell.
pub struct Parser {
    pub tokens: PeekTokenizer,
}

/// Whether a result is what a part of a line is understood as.
pub open spec fn understood_as(r: Result<Option<Command>, ParseError>, pos: nat, u: Understood) -> bool {
    match u.0 {
        Err(e) => r matches Err(error) && error@ == e,
        Ok(None) => r matches Ok(None) && pos == u.1,
        Ok(Some(cmd)) => r matches Ok(Some(command)) && command@ == cmd && pos == u.1,
    }
}

impl Parser {
    /// Whether the parser stands among its tokens.
    pub open spec fn wf(self) -> bool {
        self.tokens.wf()
    }

    /// The tokens.
    pub open spec fn ts(self) -> Tokens {
        self.tokens.tokens@
    }

    /// The place of the next token.
    pub open spec fn pos(self) -> nat {
        self.tokens.pos as nat
    }

    /// A parser for a line.
    pub fn new(input: &str) -> (r: Self)
        ensures
            r.wf(),
            r.ts() == tokens_of(input.spec_bytes()),
            r.pos() == 0,
    {
        Parser { tokens: PeekTokenizer::new(input) }
    }

    /// Returns the commands that the line asks for.
    pub fn parse(&mut self) -> (r: Result<Vec<Command>, ParseError>)
        requires
            old(self).wf(),
        ensures
            final(self).wf(),
            final(self).ts() == old(self).ts(),
            match parsed_from(old(self).ts(), old(self).pos()) {
                Ok(list) => r matches Ok(cmds) && commands(cmds@) == list && final(self).pos()
                    == old(self).ts().tokens.len(),
                Err(e) => r matches Err(error) && error@ == e,
            },
            ({
                let line = line_at(old(self).ts(), old(self).pos(), seq![]);
                line.0 is Ok && r is Err && peek(old(self).ts(), line.1) is Token
                    ==> final(self).pos() == line.1 + 1
            }),
    {
        let list: Vec<Command> = match self.parse_line() {
            Ok(list) => list,
            Err(e) => {
                return Err(e);
            },
        };
        match self.tokens.next() {
            Ok(Some(token)) => Err(ParseError::Leftovers(token)),
            Ok(None) => Ok(list),
            Err(e) => Err(ParseError::Tokenize(e)),
        }
    }

    fn parse_line(&mut self) -> (r: Result<Vec<Command>, ParseError>)
        requires
            old(self).wf(),
        ensures
            final(self).wf(),
            final(self).ts() == old(self).ts(),
            final(self).pos() >= old(self).pos(),
            match line_at(old(self).ts(), old(self).pos(), seq![]) {
                (Err(e), _) => r matches Err(error) && error@ == e,
                (Ok(list), j) => r matches Ok(cmds) && commands(cmds@) == list && final(self).pos()
                    == j,
            },
        decreases left(old(self).ts(), old(self).pos()), 2nat,
    {
        let ghost ts = self.ts();
        let ghost start = self.pos();
        let mut list: Vec<Command> = Vec::new();
        assert(commands(list@) =~= seq![]);
        let mut more: bool = true;
        while more
            invariant
                self.wf(),
                self.ts() == ts,
                ts == old(self).ts(),
                start == old(self).pos(),
                self.pos() >= start,
                more ==> line_at(ts, start, seq![]) == line_at(ts, self.pos(), commands(list@)),
                !more ==> line_at(ts, start, seq![]) == (
                    Ok::<Seq<CommandView>, ParseErrorView>(commands(list@)),
                    self.pos(),
                ),
            decreases left(ts, self.pos()),
                if more {
                    1int
                } else {
                    0
                },
        {
            let ghost i = self.pos();
            let ghost before = list@;
            match self.parse_pipe() {
                Err(e) => {
                    return Err(e);
                },
                Ok(None) => {
                    more = false;
                },
                Ok(Some(cmd)) => {
                    let ghost j = self.pos();
                    let ghost view = cmd@;
                    proof {
                        lemma_pipe_end(ts, i);
                    }
                    let mut cmd: Command = cmd;
                    match self.tokens.next_if_eq(Punct::And) {
                        Ok(background) => {
                            if background {
                                cmd.background = true;
                            } else {
                                cmd.background = false;
                            }
                        },
                        Err(e) => {
                            return Err(ParseError::Tokenize(e));
                        },
                    }
                    list.push(cmd);
                    assert(commands(list@) =~= commands(before).push(
                        CommandView { background: punct_next(ts, j, Punct::And), ..view },
                    ));
                    match self.tokens.next_if_eq(Punct::Semicolon) {
                        Ok(found) => {
                            more = found;
                        },
                        Err(e) => {
                            return Err(ParseError::Tokenize(e));
                        },
                    }
                },
            }
        }
        Ok(list)
    }

    fn parse_pipe(&mut self) -> (r: Result<Option<Command>, ParseError>)
        requires
            old(self).wf(),
        ensures
            final(self).wf(),
            final(self).ts() == old(self).ts(),
            final(self).pos() >= old(self).pos(),
            understood_as(r, final(self).pos(), pipe_at(old(self).ts(), old(self).pos())),
        decreases left(old(self).ts(), old(self).pos()), 1nat,
    {
        let ghost ts = self.ts();
        let ghost i = self.pos();
        let mut cmd: Command = match self.parse_exec() {
            Ok(Some(cmd)) => cmd,
            other => {
                return other;
            },
        };
        let ghost j = self.pos();
        match self.tokens.next_if_eq(Punct::Pipe) {
            Ok(true) => {
                proof {
                    lemma_pipe_end(ts, self.pos());
                }
                let right: Command = match self.parse_pipe() {
                    Ok(Some(right)) => right,
                    other => {
                        return other;
                    },
                };
                cmd = Command::pipe(cmd, right);
            },
            Ok(false) => {},
            Err(e) => {
                return Err(ParseError::Tokenize(e));
            },
        }
        match self.tokens.next_if_eq(Punct::AndAnd) {
            Ok(true) => {
                proof {
                    lemma_pipe_end(ts, self.pos());
                }
                let right: Command = match self.parse_pipe() {
                    Ok(Some(right)) => right,
                    other => {
                        return other;
                    },
                };
                cmd = Command::logical_and(cmd, right);
            },
            Ok(false) => {},
            Err(e) => {
                return Err(ParseError::Tokenize(e));
            },
        }
        match self.tokens.next_if_eq(Punct::OrOr) {
            Ok(true) => {
                proof {
                    lemma_pipe_end(ts, self.pos());
                }
                let right: Command = match self.parse_pipe() {
                    Ok(Some(right)) => right,
                    other => {
                        return other;
                    },
                };
                cmd = Command::logical_or(cmd, right);
            },
            Ok(false) => {},
            Err(e) => {
                return Err(ParseError::Tokenize(e));
            },
        }
        Ok(Some(cmd))
    }

    fn parse_redirs(&mut self, redirect: &mut Redirect) -> (r: Result<(), ParseError>)
        requires
            old(self).wf(),
        ensures
            final(self).wf(),
            final(self).ts() == old(self).ts(),
            final(self).pos() >= old(self).pos(),
            match redirs_at(old(self).ts(), old(self).pos(), old(redirect)@) {
                (Err(e), _) => r matches Err(error) && error@ == e,
                (Ok(redirs), j) => r is Ok && final(redirect)@ == redirs && final(self).pos() == j,
            },
    {
        let ghost ts = self.ts();
        let ghost start = self.pos();
        let ghost first = redirect@;
        loop
            invariant
                self.wf(),
                self.ts() == ts,
                ts == old(self).ts(),
                start == old(self).pos(),
                first == old(redirect)@,
                self.pos() >= start,
                redirs_at(ts, start, first) == redirs_at(ts, self.pos(), redirect@),
            decreases left(ts, self.pos()),
        {
            let ghost before = redirect@;
            let mode: Punct = match self.tokens.next_if_eq(Punct::Lt) {
                Ok(true) => Punct::Lt,
                Ok(false) => match self.tokens.next_if_eq(Punct::Gt) {
                    Ok(true) => Punct::Gt,
                    Ok(false) => match self.tokens.next_if_eq(Punct::GtGt) {
                        Ok(true) => Punct::GtGt,
                        Ok(false) => {
                            return Ok(());
                        },
                        Err(e) => {
                            return Err(ParseError::Tokenize(e));
                        },
                    },
                    Err(e) => {
                        return Err(ParseError::Tokenize(e));
                    },
                },
                Err(e) => {
                    return Err(ParseError::Tokenize(e));
                },
            };
            let file: Vec<u8> = match self.tokens.next() {
                Ok(Some(Token::Str(file))) => file,
                Ok(_) => {
                    return Err(ParseError::MissingFile);
                },
                Err(e) => {
                    return Err(ParseError::Tokenize(e));
                },
            };
            let ghost name = file@;
            match mode {
                Punct::Lt => {
                    redirect.stdin = Some(file);
                },
                Punct::Gt => {
                    redirect.stdout = Some((file, OutputMode::Truncate));
                },
                _ => {
                    redirect.stdout = Some((file, OutputMode::Append));
                },
            }
            assert(redirect@ == redirected(before, mode, name));
        }
    }

    fn parse_subshell(&mut self) -> (r: Result<Option<Command>, ParseError>)
        requires
            old(self).wf(),
        ensures
            final(self).wf(),
            final(self).ts() == old(self).ts(),
            final(self).pos() >= old(self).pos(),
            understood_as(r, final(self).pos(), subshell_at(old(self).ts(), old(self).pos())),
        decreases left(old(self).ts(), old(self).pos()), 3nat,
    {
        // the opening parenthesis has been taken
        let list: Vec<Command> = match self.parse_line() {
            Ok(list) => list,
            Err(e) => {
                return Err(e);
            },
        };
        match self.tokens.next_if_eq(Punct::RParen) {
            Ok(true) => {},
            Ok(false) => {
                return Err(ParseError::MissingPunct(Punct::RParen));
            },
            Err(e) => {
                return Err(ParseError::Tokenize(e));
            },
        }
        let mut redirect = Redirect::new();
        match self.parse_redirs(&mut redirect) {
            Ok(_) => {},
            Err(e) => {
                return Err(e);
            },
        }
        Ok(Some(Command::subshell(list, redirect)))
    }

    fn parse_exec(&mut self) -> (r: Result<Option<Command>, ParseError>)
        requires
            old(self).wf(),
        ensures
            final(self).wf(),
            final(self).ts() == old(self).ts(),
            final(self).pos() >= old(self).pos(),
            understood_as(r, final(self).pos(), exec_at(old(self).ts(), old(self).pos())),
        decreases left(old(self).ts(), old(self).pos()), 0nat,
    {
        let ghost ts = self.ts();
        let ghost start = self.pos();
        match self.tokens.next_if_eq(Punct::LParen) {
            Ok(true) => {
                return self.parse_subshell();
            },
            Ok(false) => {},
            Err(e) => {
                return Err(ParseError::Tokenize(e));
            },
        }
        let mut argv: Vec<Vec<u8>> = Vec::new();
        let mut redirect = Redirect::new();
        match self.parse_redirs(&mut redirect) {
            Ok(_) => {},
            Err(e) => {
                return Err(e);
            },
        }
        let ghost first = self.pos();
        let ghost redirs = redirect@;
        assert(words(argv@) =~= seq![]);
        let mut more: bool = true;
        while more
            invariant
                self.wf(),
                self.ts() == ts,
                ts == old(self).ts(),
                start == old(self).pos(),
                start <= first,
                !punct_next(ts, start, Punct::LParen),
                redirs_at(ts, start, Redirect::empty()) == (
                    Ok::<RedirectView, ParseErrorView>(redirs),
                    first,
                ),
                self.pos() >= first,
                more ==> args_at(ts, first, seq![], redirs) == args_at(
                    ts,
                    self.pos(),
                    words(argv@),
                    redirect@,
                ),
                !more ==> args_at(ts, first, seq![], redirs) == (
                    Ok::<(Seq<Seq<u8>>, RedirectView), ParseErrorView>((words(argv@), redirect@)),
                    self.pos(),
                ),
            decreases left(ts, self.pos()),
                if more {
                    1int
                } else {
                    0
                },
        {
            let ghost before = argv@;
            let ghost i = self.pos();
            match self.tokens.next_arg() {
                Ok(Some(Token::Str(arg))) => {
                    let ghost word = arg@;
                    argv.push(arg);
                    assert(words(argv@) =~= words(before).push(word));
                    proof {
                        lemma_redirs(ts, i + 1, redirect@);
                    }
                    match self.parse_redirs(&mut redirect) {
                        Ok(_) => {},
                        Err(e) => {
                            return Err(e);
                        },
                    }
                },
                Ok(Some(Token::Punct(p))) => {
                    return Err(ParseError::UnexpectedPunct(p));
                },
                Ok(None) => {
                    more = false;
                },
                Err(e) => {
                    return Err(ParseError::Tokenize(e));
                },
            }
        }
        if argv.len() == 0 {
            return Ok(None);
        }
        Ok(Some(Command::exec(argv, redirect)))
    }
}

/// What a part of a line is understood as is what is found: a command where it is one, none
/// where it is none, and the same error.
pub proof fn law_understood(r: Result<Option<Command>, ParseError>, pos: nat, u: Understood)
    requires
        understood_as(r, pos, u),
    ensures
        r is Err <==> u.0 is Err,
        r matches Err(e) ==> e@ == u.0->Err_0,
        r matches Ok(found) ==> {
            &&& found is Some <==> u.0->Ok_0 is Some
            &&& found matches Some(command) ==> command@ == u.0->Ok_0->0
            &&& pos == u.1
        },
{
}

/// Errors stand for what they say.
pub proof fn law_parse_error_view(e: ParseError)
    ensures
        match e {
            ParseError::Tokenize(t) => e@ == ParseErrorView::Tokenize(t),
            ParseError::Leftovers(t) => e@ == ParseErrorView::Leftovers(t@),
            ParseError::MissingFile => e@ is MissingFile,
            ParseError::MissingPunct(p) => e@ == ParseErrorView::MissingPunct(p),
            ParseError::UnexpectedPunct(p) => e@ == ParseErrorView::UnexpectedPunct(p),
        },
{
}

} // verus!
