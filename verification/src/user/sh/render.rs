//! Writing commands down as tokens, such that the parser gives them back.
use super::command::{Command, CommandView, KindView, OutputMode, Redirect, RedirectView};
use super::parser::{
    args_at, connected, ends_exec, exec_at, is_operator, line_at, parsed, peek, pipe_at, punct_next,
    redirs_at, subshell_at, ParseErrorView, Peeked,
};
use super::tokenizer::{Punct, TokenView, Tokens};
use vstd::prelude::*;

verus! {

/// The tokens for redirections.
pub open spec fn render_redirect(r: RedirectView) -> Seq<TokenView> {
    (match r.stdin {
        Some(file) => seq![TokenView::Punct(Punct::Lt), TokenView::Str(file)],
        None => seq![],
    }) + (match r.stdout {
        Some(to) => seq![
            TokenView::Punct(
                if to.1 == OutputMode::Truncate {
                    Punct::Gt
                } else {
                    Punct::GtGt
                },
            ),
            TokenView::Str(to.0),
        ],
        None => seq![],
    })
}

/// The tokens for a command, without what says that it runs in the background.
pub open spec fn render(c: CommandView) -> Seq<TokenView>
    decreases c, 0nat,
{
    match *c.kind {
        KindView::Exec { argv, redirect } => Seq::new(
            argv.len(),
            |i: int| TokenView::Str(argv[i]),
        ) + render_redirect(redirect),
        KindView::Subshell { list, redirect } => seq![TokenView::Punct(Punct::LParen)]
            + render_list(list, list.len()) + seq![TokenView::Punct(Punct::RParen)]
            + render_redirect(redirect),
        KindView::Pipe { left, right } => render(left) + seq![TokenView::Punct(Punct::Pipe)]
            + render(right),
        KindView::LogicalAnd { left, right } => render(left) + seq![
            TokenView::Punct(Punct::AndAnd),
        ] + render(right),
        KindView::LogicalOr { left, right } => render(left) + seq![TokenView::Punct(Punct::OrOr)]
            + render(right),
    }
}

/// The tokens for the first `n` of a list of commands.
pub open spec fn render_list(list: Seq<CommandView>, n: nat) -> Seq<TokenView>
    decreases list, n,
{
    if n == 0 || n > list.len() {
        seq![]
    } else {
        let c = list[n - 1];
        render_list(list, (n - 1) as nat) + (if n > 1 {
            seq![TokenView::Punct(Punct::Semicolon)]
        } else {
            seq![]
        }) + render(c) + (if c.background {
            seq![TokenView::Punct(Punct::And)]
        } else {
            seq![]
        })
    }
}

/// Whether a command can be written down: programs have a name, and operators
/// bind to the right and connect commands that are waited for.
pub open spec fn writable(c: CommandView) -> bool
    decreases c,
{
    match *c.kind {
        KindView::Exec { argv, .. } => argv.len() > 0,
        KindView::Subshell { list, .. } => forall|i: int|
            0 <= i < list.len() ==> writable(#[trigger] list[i]),
        KindView::Pipe { left, right } | KindView::LogicalAnd { left, right }
        | KindView::LogicalOr { left, right } => {
            &&& writable(left)
            &&& writable(right)
            &&& *left.kind is Exec || *left.kind is Subshell
            &&& !left.background
            &&& !right.background
        },
    }
}

/// Whether the tokens hold `part` from place `i` on.
pub open spec fn holds_at(ts: Tokens, i: nat, part: Seq<TokenView>) -> bool {
    &&& i + part.len() <= ts.tokens.len()
    &&& forall|k: int| 0 <= k < part.len() ==> #[trigger] part[k] == ts.tokens[(i + k) as int]
}

/// Whether no redirection and no word stands at place `i`.
pub open spec fn unit_ends(ts: Tokens, i: nat) -> bool {
    match peek(ts, i) {
        Peeked::Error(_) => false,
        Peeked::End => true,
        Peeked::Token(TokenView::Str(_)) => false,
        Peeked::Token(TokenView::Punct(p)) => ends_exec(p),
    }
}

/// Whether, moreover, no operator stands there.
pub open spec fn pipe_ends(ts: Tokens, i: nat) -> bool {
    &&& unit_ends(ts, i)
    &&& peek(ts, i) matches Peeked::Token(TokenView::Punct(p)) ==> !is_operator(p)
}

proof fn lemma_split(ts: Tokens, i: nat, a: Seq<TokenView>, b: Seq<TokenView>)
    requires
        holds_at(ts, i, a + b),
    ensures
        holds_at(ts, i, a),
        holds_at(ts, i + a.len(), b),
{
    assert forall|k: int| 0 <= k < a.len() implies #[trigger] a[k] == ts.tokens[(i + k) as int] by {
        assert((a + b)[k] == ts.tokens[(i + k) as int]);
    }
    assert forall|k: int| 0 <= k < b.len() implies #[trigger] b[k] == ts.tokens[(i + a.len() + k) as int] by {
        assert((a + b)[a.len() + k] == ts.tokens[(i + (a.len() + k)) as int]);
    }
}

/// Redirections are read back.
proof fn lemma_render_redirect(ts: Tokens, i: nat, r: RedirectView)
    requires
        holds_at(ts, i, render_redirect(r)),
        unit_ends(ts, i + render_redirect(r).len()),
    ensures
        redirs_at(ts, i, Redirect::empty()) == (
            Ok::<RedirectView, ParseErrorView>(r),
            i + render_redirect(r).len(),
        ),
{
    let tokens = render_redirect(r);
    reveal_with_fuel(redirs_at, 3);
    if r.stdin is Some {
        assert(tokens[0] == ts.tokens[(i + 0) as int]);
        assert(tokens[1] == ts.tokens[(i + 1) as int]);
        if r.stdout is Some {
            assert(tokens[2] == ts.tokens[(i + 2) as int]);
            assert(tokens[3] == ts.tokens[(i + 3) as int]);
        }
    } else if r.stdout is Some {
        assert(tokens[0] == ts.tokens[(i + 0) as int]);
        assert(tokens[1] == ts.tokens[(i + 1) as int]);
    }
}

/// Arguments and the redirections behind them are read back.
proof fn lemma_render_args(ts: Tokens, i: nat, argv: Seq<Seq<u8>>, r: RedirectView, k: nat)
    requires
        k < argv.len(),
        holds_at(ts, i, Seq::new(argv.len(), |j: int| TokenView::Str(argv[j]))),
        holds_at(ts, i + argv.len(), render_redirect(r)),
        unit_ends(ts, i + argv.len() + render_redirect(r).len()),
    ensures
        args_at(ts, i + k, argv.take(k as int), Redirect::empty()) == (
            Ok::<(Seq<Seq<u8>>, RedirectView), ParseErrorView>((argv, r)),
            i + argv.len() + render_redirect(r).len(),
        ),
    decreases argv.len() - k,
{
    let all = Seq::new(argv.len(), |j: int| TokenView::Str(argv[j]));
    assert(all[k as int] == ts.tokens[(i + k) as int]);
    assert(argv.take(k as int).push(argv[k as int]) =~= argv.take((k + 1) as int));
    if k + 1 < argv.len() {
        assert(all[(k + 1) as int] == ts.tokens[(i + (k + 1)) as int]);
        lemma_render_args(ts, i, argv, r, k + 1);
    } else {
        lemma_render_redirect(ts, i + argv.len(), r);
        assert(argv.take(argv.len() as int) =~= argv);
        reveal_with_fuel(args_at, 2);
    }
}

/// A command without operators is read back.
proof fn lemma_render_unit(ts: Tokens, i: nat, c: CommandView)
    requires
        ts.error is None,
        writable(c),
        *c.kind is Exec || *c.kind is Subshell,
        holds_at(ts, i, render(c)),
        unit_ends(ts, i + render(c).len()),
    ensures
        exec_at(ts, i) == (
            Ok::<Option<CommandView>, ParseErrorView>(Some(Command::of(*c.kind))),
            i + render(c).len(),
        ),
    decreases c, 0nat,
{
    match *c.kind {
        KindView::Exec { argv, redirect } => {
            let all = Seq::new(argv.len(), |j: int| TokenView::Str(argv[j]));
            lemma_split(ts, i, all, render_redirect(redirect));
            assert(all[0] == ts.tokens[(i + 0) as int]);
            assert(argv.take(0) =~= seq![]);
            lemma_render_args(ts, i, argv, redirect, 0);
        },
        KindView::Subshell { list, redirect } => {
            let open = seq![TokenView::Punct(Punct::LParen)];
            let inner = render_list(list, list.len());
            let close = seq![TokenView::Punct(Punct::RParen)];
            let rest = render_redirect(redirect);
            lemma_split(ts, i, open + inner + close, rest);
            lemma_split(ts, i, open + inner, close);
            lemma_split(ts, i, open, inner);
            assert(open[0] == ts.tokens[(i + 0) as int]);
            let end = i + 1 + inner.len();
            assert(close[0] == ts.tokens[(end + 0) as int]);
            assert(list.take(0) =~= seq![]);
            lemma_render_list(ts, i + 1, list, 0, false);
            assert(list.take(list.len() as int) =~= list);
            lemma_render_redirect(ts, end + 1, redirect);
        },
        _ => {},
    }
}

/// A command is read back.
proof fn lemma_render(ts: Tokens, i: nat, c: CommandView)
    requires
        ts.error is None,
        writable(c),
        holds_at(ts, i, render(c)),
        pipe_ends(ts, i + render(c).len()),
    ensures
        pipe_at(ts, i) == (
            Ok::<Option<CommandView>, ParseErrorView>(Some(Command::of(*c.kind))),
            i + render(c).len(),
        ),
    decreases c, 1nat,
{
    match *c.kind {
        KindView::Pipe { left, right } => {
            lemma_render_connected(ts, i, c, left, Punct::Pipe, right);
        },
        KindView::LogicalAnd { left, right } => {
            lemma_render_connected(ts, i, c, left, Punct::AndAnd, right);
        },
        KindView::LogicalOr { left, right } => {
            lemma_render_connected(ts, i, c, left, Punct::OrOr, right);
        },
        _ => {
            lemma_render_unit(ts, i, c);
        },
    }
}

proof fn lemma_render_connected(
    ts: Tokens,
    i: nat,
    c: CommandView,
    left: CommandView,
    p: Punct,
    right: CommandView,
)
    requires
        ts.error is None,
        writable(left),
        writable(right),
        *left.kind is Exec || *left.kind is Subshell,
        !left.background,
        !right.background,
        is_operator(p),
        decreases_to!(c => left),
        decreases_to!(c => right),
        holds_at(ts, i, render(left) + seq![TokenView::Punct(p)] + render(right)),
        pipe_ends(ts, i + render(left).len() + 1 + render(right).len()),
    ensures
        pipe_at(ts, i) == (
            Ok::<Option<CommandView>, ParseErrorView>(Some(connected(left, p, right))),
            i + render(left).len() + 1 + render(right).len(),
        ),
    decreases c, 0nat,
{
    let op = seq![TokenView::Punct(p)];
    lemma_split(ts, i, render(left) + op, render(right));
    lemma_split(ts, i, render(left), op);
    let j = i + render(left).len();
    assert(op[0] == ts.tokens[(j + 0) as int]);
    lemma_render_unit(ts, i, left);
    lemma_render(ts, j + 1, right);
    assert(Command::of(*left.kind) == left);
    assert(Command::of(*right.kind) == right);
}

/// How long the tokens for a part of a list are.
proof fn lemma_list_prefix(ts: Tokens, i: nat, list: Seq<CommandView>, n: nat, m: nat)
    requires
        n <= m <= list.len(),
        holds_at(ts, i, render_list(list, m)),
    ensures
        holds_at(ts, i, render_list(list, n)),
        render_list(list, n).len() <= render_list(list, m).len(),
        0 < n < m ==> {
            &&& i + render_list(list, n).len() < ts.tokens.len()
            &&& ts.tokens[(i + render_list(list, n).len()) as int] == TokenView::Punct(Punct::Semicolon)
        },
    decreases m - n,
{
    if n < m {
        let c = list[m - 1];
        let before = render_list(list, (m - 1) as nat);
        let sep = if m > 1 {
            seq![TokenView::Punct(Punct::Semicolon)]
        } else {
            seq![]
        };
        let mark = if c.background {
            seq![TokenView::Punct(Punct::And)]
        } else {
            seq![]
        };
        lemma_split(ts, i, before + sep + render(c), mark);
        lemma_split(ts, i, before + sep, render(c));
        lemma_split(ts, i, before, sep);
        if n + 1 == m && n > 0 {
            assert(sep[0] == ts.tokens[(i + before.len() + 0) as int]);
        }
        lemma_list_prefix(ts, i, list, n, (m - 1) as nat);
    }
}

/// Where no unit of a command begins, there is no command.
proof fn lemma_no_command(ts: Tokens, i: nat)
    requires
        unit_ends(ts, i),
    ensures
        pipe_at(ts, i) == (Ok::<Option<CommandView>, ParseErrorView>(None), i),
{
    let none = Redirect::empty();
    assert(redirs_at(ts, i, none) == (Ok::<RedirectView, ParseErrorView>(none), i));
    let no_args = seq![];
    assert(args_at(ts, i, no_args, none) == (
        Ok::<(Seq<Seq<u8>>, RedirectView), ParseErrorView>((no_args, none)),
        i,
    ));
    assert(exec_at(ts, i) == (Ok::<Option<CommandView>, ParseErrorView>(None), i));
}

/// A list of commands is read back, and a semicolon behind it is passed over if `more`
/// says that there is one.
proof fn lemma_render_list(ts: Tokens, i: nat, list: Seq<CommandView>, n: nat, more: bool)
    requires
        ts.error is None,
        n <= list.len(),
        n > 0 ==> n < list.len(),
        forall|k: int| 0 <= k < list.len() ==> writable(#[trigger] list[k]),
        holds_at(ts, i, render_list(list, list.len())),
        ({
            let end = i + render_list(list, list.len()).len();
            let stop = if more {
                end + 1
            } else {
                end
            };
            &&& more ==> list.len() > 0 && punct_next(ts, end, Punct::Semicolon)
            &&& peek(ts, stop) is End || punct_next(ts, stop, Punct::RParen)
        }),
    ensures
        line_at(
            ts,
            i + render_list(list, n).len() + if n > 0 {
                1nat
            } else {
                0
            },
            list.take(n as int),
        ) == (
            Ok::<Seq<CommandView>, ParseErrorView>(list),
            i + render_list(list, list.len()).len() + if more {
                1nat
            } else {
                0
            },
        ),
    decreases list, list.len() - n,
{
    let total = list.len();
    let start = i + render_list(list, n).len() + if n > 0 {
        1nat
    } else {
        0
    };
    if n == total {
        assert(list.take(0) =~= list);
        assert(render_list(list, 0) =~= seq![]);
        assert(unit_ends(ts, i));
        lemma_no_command(ts, i);
    } else {
        let c = list[n as int];
        let before = render_list(list, n);
        let sep = if n + 1 > 1 {
            seq![TokenView::Punct(Punct::Semicolon)]
        } else {
            seq![]
        };
        let mark = if c.background {
            seq![TokenView::Punct(Punct::And)]
        } else {
            seq![]
        };
        lemma_list_prefix(ts, i, list, n + 1, total);
        assert(render_list(list, n + 1) == before + sep + render(c) + mark);
        lemma_split(ts, i, before + sep + render(c), mark);
        lemma_split(ts, i, before + sep, render(c));
        let end = start + render(c).len();
        let next = end + mark.len();
        assert(next == i + render_list(list, n + 1).len());
        if c.background {
            assert(mark[0] == ts.tokens[(end + 0) as int]);
        }
        assert(pipe_ends(ts, end));
        lemma_render(ts, start, c);
        let back = CommandView { background: c.background, ..Command::of(*c.kind) };
        assert(back == c);
        assert(list.take(n as int).push(c) =~= list.take((n + 1) as int));
        assert(punct_next(ts, end, Punct::And) == c.background);
        if n + 1 < total {
            lemma_render_list(ts, i, list, n + 1, more);
        } else {
            assert(list.take(total as int) =~= list);
            if more {
                lemma_no_command(ts, next + 1);
                assert(line_at(ts, next + 1, list) == (
                    Ok::<Seq<CommandView>, ParseErrorView>(list),
                    next + 1,
                ));
            }
        }
    }
}

/// Writing commands down and parsing that gives the commands back.
pub proof fn law_render_parse(list: Seq<CommandView>)
    requires
        forall|k: int| 0 <= k < list.len() ==> writable(#[trigger] list[k]),
    ensures
        parsed(Tokens { tokens: render_list(list, list.len()), error: None }) == Ok::<
            Seq<CommandView>,
            ParseErrorView,
        >(list),
{
    let ts = Tokens { tokens: render_list(list, list.len()), error: None };
    assert(list.take(0) =~= seq![]);
    assert(render_list(list, 0) =~= seq![]);
    lemma_render_list(ts, 0, list, 0, false);
}

/// A semicolon at the end of a line changes nothing: the commands before it are the
/// commands of the line.
pub proof fn law_semicolon_at_end(list: Seq<CommandView>)
    requires
        list.len() > 0,
        forall|k: int| 0 <= k < list.len() ==> writable(#[trigger] list[k]),
    ensures
        parsed(
            Tokens {
                tokens: render_list(list, list.len()) + seq![TokenView::Punct(Punct::Semicolon)],
                error: None,
            },
        ) == Ok::<Seq<CommandView>, ParseErrorView>(list),
{
    let written = render_list(list, list.len());
    let ts = Tokens { tokens: written + seq![TokenView::Punct(Punct::Semicolon)], error: None };
    assert(list.take(0) =~= seq![]);
    assert(render_list(list, 0) =~= seq![]);
    assert(ts.tokens[written.len() as int] == TokenView::Punct(Punct::Semicolon));
    lemma_render_list(ts, 0, list, 0, true);
}

/// Where tokens that follow each other stand.
proof fn lemma_five_parts(
    ts: Tokens,
    a: Seq<TokenView>,
    b: Seq<TokenView>,
    c: Seq<TokenView>,
    d: Seq<TokenView>,
    e: Seq<TokenView>,
)
    requires
        ts.tokens == a + b + c + d + e,
    ensures
        holds_at(ts, 0, a),
        holds_at(ts, a.len(), b),
        holds_at(ts, a.len() + b.len(), c),
        holds_at(ts, a.len() + b.len() + c.len(), d),
        holds_at(ts, a.len() + b.len() + c.len() + d.len(), e),
{
    assert(holds_at(ts, 0, a + b + c + d + e));
    lemma_split(ts, 0, a + b + c + d, e);
    lemma_split(ts, 0, a + b + c, d);
    lemma_split(ts, 0, a + b, c);
    lemma_split(ts, 0, a, b);
}

/// Commands in parentheses are read back.
proof fn lemma_subshell(ts: Tokens, list: Seq<CommandView>, redirect: RedirectView, more: bool)
    requires
        ts.error is None,
        more ==> list.len() > 0,
        forall|k: int| 0 <= k < list.len() ==> writable(#[trigger] list[k]),
        punct_next(ts, 0, Punct::LParen),
        holds_at(ts, 1, render_list(list, list.len())),
        more ==> punct_next(ts, 1 + render_list(list, list.len()).len(), Punct::Semicolon),
        ({
            let end = 1 + render_list(list, list.len()).len() + if more {
                1nat
            } else {
                0
            };
            &&& punct_next(ts, end, Punct::RParen)
            &&& holds_at(ts, end + 1, render_redirect(redirect))
            &&& end + 1 + render_redirect(redirect).len() == ts.tokens.len()
        }),
    ensures
        exec_at(ts, 0) == (
            Ok::<Option<CommandView>, ParseErrorView>(
                Some(Command::of(KindView::Subshell { list, redirect })),
            ),
            ts.tokens.len(),
        ),
{
    let end = 1 + render_list(list, list.len()).len() + if more {
        1nat
    } else {
        0
    };
    assert(list.take(0) =~= seq![]);
    assert(render_list(list, 0).len() == 0);
    lemma_render_list(ts, 1, list, 0, more);
    assert(unit_ends(ts, ts.tokens.len()));
    lemma_render_redirect(ts, end + 1, redirect);
    assert(line_at(ts, 1, seq![]) == (Ok::<Seq<CommandView>, ParseErrorView>(list), end));
    assert(subshell_at(ts, 1) == (
        Ok::<Option<CommandView>, ParseErrorView>(
            Some(Command::of(KindView::Subshell { list, redirect })),
        ),
        ts.tokens.len(),
    ));
}

/// A line that is one command and nothing else.
proof fn lemma_one_command(ts: Tokens, cmd: CommandView)
    requires
        ts.error is None,
        exec_at(ts, 0) == (
            Ok::<Option<CommandView>, ParseErrorView>(Some(cmd)),
            ts.tokens.len(),
        ),
        !cmd.background,
    ensures
        parsed(ts) == Ok::<Seq<CommandView>, ParseErrorView>(seq![cmd]),
{
    let n = ts.tokens.len();
    assert(peek(ts, n) is End);
    assert(pipe_at(ts, 0) == (Ok::<Option<CommandView>, ParseErrorView>(Some(cmd)), n));
    assert(!punct_next(ts, n, Punct::And));
    assert(CommandView { background: false, ..cmd } == cmd);
    assert(Seq::<CommandView>::empty().push(cmd) =~= seq![cmd]);
    assert(line_at(ts, 0, seq![]) == (Ok::<Seq<CommandView>, ParseErrorView>(seq![cmd]), n));
}

/// What stands in parentheses is one command, which runs the commands in them, with or
/// without a semicolon before the closing one. Redirections behind it are its own.
pub proof fn law_parentheses(list: Seq<CommandView>, redirect: RedirectView, more: bool)
    requires
        more ==> list.len() > 0,
        forall|k: int| 0 <= k < list.len() ==> writable(#[trigger] list[k]),
    ensures
        ({
            let tokens = seq![TokenView::Punct(Punct::LParen)] + render_list(list, list.len()) + (
            if more {
                seq![TokenView::Punct(Punct::Semicolon)]
            } else {
                seq![]
            }) + seq![TokenView::Punct(Punct::RParen)] + render_redirect(redirect);
            parsed(Tokens { tokens, error: None }) == Ok::<Seq<CommandView>, ParseErrorView>(
                seq![
                    CommandView {
                        kind: Box::new(KindView::Subshell { list, redirect }),
                        background: false,
                    },
                ],
            )
        }),
{
    let open = seq![TokenView::Punct(Punct::LParen)];
    let inner = render_list(list, list.len());
    let sep = if more {
        seq![TokenView::Punct(Punct::Semicolon)]
    } else {
        seq![]
    };
    let close = seq![TokenView::Punct(Punct::RParen)];
    let rest = render_redirect(redirect);
    let ts = Tokens { tokens: open + inner + sep + close + rest, error: None };
    lemma_five_parts(ts, open, inner, sep, close, rest);
    assert(open[0] == ts.tokens[(0 + 0) as int]);
    let end = 1 + inner.len() + sep.len();
    assert(close[0] == ts.tokens[(end + 0) as int]);
    if more {
        assert(sep[0] == ts.tokens[(1 + inner.len() + 0) as int]);
    }
    lemma_subshell(ts, list, redirect, more);
    lemma_one_command(ts, Command::of(KindView::Subshell { list, redirect }));
}

/// Parentheses that are not closed, or that were not opened, are an error.
pub proof fn law_unmatched_parentheses(list: Seq<CommandView>)
    requires
        forall|k: int| 0 <= k < list.len() ==> writable(#[trigger] list[k]),
    ensures
        parsed(
            Tokens {
                tokens: seq![TokenView::Punct(Punct::LParen)] + render_list(list, list.len()),
                error: None,
            },
        ) == Err::<Seq<CommandView>, ParseErrorView>(ParseErrorView::MissingPunct(Punct::RParen)),
        parsed(
            Tokens {
                tokens: render_list(list, list.len()) + seq![TokenView::Punct(Punct::RParen)],
                error: None,
            },
        ) == Err::<Seq<CommandView>, ParseErrorView>(
            ParseErrorView::Leftovers(TokenView::Punct(Punct::RParen)),
        ),
{
    let open = seq![TokenView::Punct(Punct::LParen)];
    let close = seq![TokenView::Punct(Punct::RParen)];
    let inner = render_list(list, list.len());
    assert(list.take(0) =~= seq![]);
    assert(render_list(list, 0) =~= seq![]);
    let ts = Tokens { tokens: open + inner, error: None };
    assert(holds_at(ts, 0, open + inner));
    lemma_split(ts, 0, open, inner);
    assert(ts.tokens[0] == open[0]);
    lemma_render_list(ts, 1, list, 0, false);
    let missing = ParseErrorView::MissingPunct(Punct::RParen);
    assert(subshell_at(ts, 1).0 == Err::<Option<CommandView>, ParseErrorView>(missing));
    assert(exec_at(ts, 0).0 == Err::<Option<CommandView>, ParseErrorView>(missing));
    assert(pipe_at(ts, 0).0 == Err::<Option<CommandView>, ParseErrorView>(missing));
    let ts = Tokens { tokens: inner + close, error: None };
    assert(holds_at(ts, 0, inner + close));
    lemma_split(ts, 0, inner, close);
    assert(close[0] == ts.tokens[(inner.len() + 0) as int]);
    lemma_render_list(ts, 0, list, 0, false);
}

/// A word or a redirection of a program.
pub enum Item {
    Word(Seq<u8>),
    From(Seq<u8>),
    To(Seq<u8>),
    AppendTo(Seq<u8>),
}

/// The tokens for the first `n` items.
pub open spec fn item_tokens(items: Seq<Item>, n: nat) -> Seq<TokenView>
    decreases n,
{
    if n == 0 {
        seq![]
    } else {
        item_tokens(items, (n - 1) as nat) + match items[n - 1] {
            Item::Word(word) => seq![TokenView::Str(word)],
            Item::From(file) => seq![TokenView::Punct(Punct::Lt), TokenView::Str(file)],
            Item::To(file) => seq![TokenView::Punct(Punct::Gt), TokenView::Str(file)],
            Item::AppendTo(file) => seq![TokenView::Punct(Punct::GtGt), TokenView::Str(file)],
        }
    }
}

/// The words among the first `n` items.
pub open spec fn item_words(items: Seq<Item>, n: nat) -> Seq<Seq<u8>>
    decreases n,
{
    if n == 0 {
        seq![]
    } else {
        match items[n - 1] {
            Item::Word(word) => item_words(items, (n - 1) as nat).push(word),
            _ => item_words(items, (n - 1) as nat),
        }
    }
}

/// The last file among the first `n` items that is read from.
pub open spec fn item_stdin(items: Seq<Item>, n: nat) -> Option<Seq<u8>>
    decreases n,
{
    if n == 0 {
        None
    } else {
        match items[n - 1] {
            Item::From(file) => Some(file),
            _ => item_stdin(items, (n - 1) as nat),
        }
    }
}

/// The last file among the first `n` items that is written to.
pub open spec fn item_stdout(items: Seq<Item>, n: nat) -> Option<(Seq<u8>, OutputMode)>
    decreases n,
{
    if n == 0 {
        None
    } else {
        match items[n - 1] {
            Item::To(file) => Some((file, OutputMode::Truncate)),
            Item::AppendTo(file) => Some((file, OutputMode::Append)),
            _ => item_stdout(items, (n - 1) as nat),
        }
    }
}

spec fn item_redirect(items: Seq<Item>, n: nat) -> RedirectView {
    RedirectView { stdin: item_stdin(items, n), stdout: item_stdout(items, n) }
}

/// What comes first among the tokens for the items behind the first `n`.
proof fn lemma_item(items: Seq<Item>, n: nat, m: nat)
    requires
        n < m <= items.len(),
    ensures
        ({
            let at = item_tokens(items, n).len() as int;
            let all = item_tokens(items, m);
            match items[n as int] {
                Item::Word(word) => {
                    &&& at + 1 <= all.len()
                    &&& item_tokens(items, n + 1).len() == at + 1
                    &&& all[at] == TokenView::Str(word)
                },
                Item::From(file) => {
                    &&& at + 2 <= all.len()
                    &&& item_tokens(items, n + 1).len() == at + 2
                    &&& all[at] == TokenView::Punct(Punct::Lt)
                    &&& all[at + 1] == TokenView::Str(file)
                },
                Item::To(file) => {
                    &&& at + 2 <= all.len()
                    &&& item_tokens(items, n + 1).len() == at + 2
                    &&& all[at] == TokenView::Punct(Punct::Gt)
                    &&& all[at + 1] == TokenView::Str(file)
                },
                Item::AppendTo(file) => {
                    &&& at + 2 <= all.len()
                    &&& item_tokens(items, n + 1).len() == at + 2
                    &&& all[at] == TokenView::Punct(Punct::GtGt)
                    &&& all[at + 1] == TokenView::Str(file)
                },
            }
        }),
    decreases m - n,
{
    if n + 1 < m {
        lemma_item(items, n, (m - 1) as nat);
    }
}

/// Where the redirections end that begin with item `n`.
spec fn next_word(items: Seq<Item>, n: nat) -> nat
    decreases items.len() - n,
{
    if n >= items.len() || items[n as int] is Word {
        n
    } else {
        next_word(items, n + 1)
    }
}

proof fn lemma_item_redirs(ts: Tokens, items: Seq<Item>, n: nat)
    requires
        n <= items.len(),
        holds_at(ts, 0, item_tokens(items, items.len())),
        unit_ends(ts, item_tokens(items, items.len()).len()),
    ensures
        ({
            let m = next_word(items, n);
            &&& n <= m <= items.len()
            &&& redirs_at(ts, item_tokens(items, n).len(), item_redirect(items, n)) == (
                Ok::<RedirectView, ParseErrorView>(item_redirect(items, m)),
                item_tokens(items, m).len(),
            )
            &&& item_words(items, m) == item_words(items, n)
            &&& m < items.len() ==> items[m as int] is Word
        }),
    decreases items.len() - n,
{
    let all = item_tokens(items, items.len());
    let at = item_tokens(items, n).len();
    if n < items.len() {
        lemma_item(items, n, items.len());
        assert(all[at as int] == ts.tokens[(0 + at) as int]);
        if !(items[n as int] is Word) {
            assert(all[(at + 1) as int] == ts.tokens[(0 + (at + 1)) as int]);
            lemma_item_redirs(ts, items, n + 1);
        }
    }
}

proof fn lemma_item_args(ts: Tokens, items: Seq<Item>, n: nat)
    requires
        n <= items.len(),
        n < items.len() ==> items[n as int] is Word,
        holds_at(ts, 0, item_tokens(items, items.len())),
        unit_ends(ts, item_tokens(items, items.len()).len()),
    ensures
        args_at(
            ts,
            item_tokens(items, n).len(),
            item_words(items, n),
            item_redirect(items, n),
        ) == (
            Ok::<(Seq<Seq<u8>>, RedirectView), ParseErrorView>(
                (item_words(items, items.len()), item_redirect(items, items.len())),
            ),
            item_tokens(items, items.len()).len(),
        ),
    decreases items.len() - n,
{
    let all = item_tokens(items, items.len());
    let at = item_tokens(items, n).len();
    if n < items.len() {
        lemma_item(items, n, items.len());
        assert(all[at as int] == ts.tokens[(0 + at) as int]);
        lemma_item_redirs(ts, items, n + 1);
        let m = next_word(items, n + 1);
        lemma_item_len(items, n + 1, m);
        lemma_item_args(ts, items, m);
    }
}

proof fn lemma_item_len(items: Seq<Item>, n: nat, m: nat)
    requires
        n <= m,
    ensures
        item_tokens(items, n).len() <= item_tokens(items, m).len(),
    decreases m - n,
{
    if n < m {
        lemma_item_len(items, n, (m - 1) as nat);
    }
}

/// Words and redirections can stand in any order. The words are what is run, in their
/// order; of the files that are read from, and of those that are written to, the last one
/// counts. Without a word, nothing is run.
pub proof fn law_words_and_redirections(items: Seq<Item>)
    ensures
        parsed(Tokens { tokens: item_tokens(items, items.len()), error: None }) == Ok::<
            Seq<CommandView>,
            ParseErrorView,
        >(
            if item_words(items, items.len()).len() == 0 {
                seq![]
            } else {
                seq![
                    CommandView {
                        kind: Box::new(
                            KindView::Exec {
                                argv: item_words(items, items.len()),
                                redirect: RedirectView {
                                    stdin: item_stdin(items, items.len()),
                                    stdout: item_stdout(items, items.len()),
                                },
                            },
                        ),
                        background: false,
                    },
                ]
            },
        ),
{
    let ts = Tokens { tokens: item_tokens(items, items.len()), error: None };
    let n = ts.tokens.len();
    lemma_item_redirs(ts, items, 0);
    let m = next_word(items, 0);
    lemma_item_args(ts, items, m);
    assert(item_redirect(items, 0) == Redirect::empty());
    if items.len() > 0 {
        lemma_item(items, 0, items.len());
    }
    assert(item_words(items, m) =~= seq![]);
    let argv = item_words(items, items.len());
    let redirect = item_redirect(items, items.len());
    let cmd = Command::of(KindView::Exec { argv, redirect });
    assert(exec_at(ts, 0) == (
        Ok::<Option<CommandView>, ParseErrorView>(
            if argv.len() == 0 {
                None
            } else {
                Some(cmd)
            },
        ),
        n,
    ));
    if argv.len() > 0 {
        lemma_one_command(ts, cmd);
    } else {
        assert(pipe_at(ts, 0) == exec_at(ts, 0));
    }
}

/// Redirections are passed over up to the next word, whatever comes behind all items.
proof fn lemma_pass_redirs(ts: Tokens, items: Seq<Item>, n: nat)
    requires
        n <= items.len(),
        holds_at(ts, 0, item_tokens(items, items.len())),
    ensures
        ({
            let m = next_word(items, n);
            &&& n <= m <= items.len()
            &&& redirs_at(ts, item_tokens(items, n).len(), item_redirect(items, n)) == redirs_at(
                ts,
                item_tokens(items, m).len(),
                item_redirect(items, m),
            )
            &&& item_words(items, m) == item_words(items, n)
            &&& m < items.len() ==> items[m as int] is Word && redirs_at(
                ts,
                item_tokens(items, m).len(),
                item_redirect(items, m),
            ) == (
                Ok::<RedirectView, ParseErrorView>(item_redirect(items, m)),
                item_tokens(items, m).len(),
            )
        }),
    decreases items.len() - n,
{
    let all = item_tokens(items, items.len());
    let at = item_tokens(items, n).len();
    if n < items.len() {
        lemma_item(items, n, items.len());
        assert(all[at as int] == ts.tokens[(0 + at) as int]);
        if !(items[n as int] is Word) {
            assert(all[(at + 1) as int] == ts.tokens[(0 + (at + 1)) as int]);
            lemma_pass_redirs(ts, items, n + 1);
        }
    }
}

/// An error in what comes behind all items is found.
proof fn lemma_error_behind(ts: Tokens, items: Seq<Item>, n: nat, e: ParseErrorView)
    requires
        n <= items.len(),
        n < items.len() ==> items[n as int] is Word,
        holds_at(ts, 0, item_tokens(items, items.len())),
        ({
            let end = item_tokens(items, items.len()).len();
            let redirect = item_redirect(items, items.len());
            match redirs_at(ts, end, redirect) {
                (Err(found), _) => found == e && n < items.len(),
                (Ok(r), at) => r == redirect && at == end && args_at(
                    ts,
                    end,
                    item_words(items, items.len()),
                    redirect,
                ).0 == Err::<(Seq<Seq<u8>>, RedirectView), ParseErrorView>(e),
            }
        }),
    ensures
        args_at(
            ts,
            item_tokens(items, n).len(),
            item_words(items, n),
            item_redirect(items, n),
        ).0 == Err::<(Seq<Seq<u8>>, RedirectView), ParseErrorView>(e),
    decreases items.len() - n,
{
    let all = item_tokens(items, items.len());
    let at = item_tokens(items, n).len();
    if n < items.len() {
        lemma_item(items, n, items.len());
        assert(all[at as int] == ts.tokens[(0 + at) as int]);
        lemma_pass_redirs(ts, items, n + 1);
        let m = next_word(items, n + 1);
        lemma_item_len(items, n + 1, m);
        if m < items.len() || redirs_at(
            ts,
            item_tokens(items, m).len(),
            item_redirect(items, m),
        ).0 is Ok {
            lemma_error_behind(ts, items, m, e);
        }
    }
}

/// A redirection that no word follows is an error, wherever it stands.
pub proof fn law_redirection_without_file(items: Seq<Item>, p: Punct, next: Seq<Punct>)
    requires
        p == Punct::Lt || p == Punct::Gt || p == Punct::GtGt,
    ensures
        parsed(
            Tokens {
                tokens: item_tokens(items, items.len()) + seq![TokenView::Punct(p)] + Seq::new(
                    next.len(),
                    |i: int| TokenView::Punct(next[i]),
                ),
                error: None,
            },
        ) == Err::<Seq<CommandView>, ParseErrorView>(ParseErrorView::MissingFile),
{
    let all = item_tokens(items, items.len());
    let rest = Seq::new(next.len(), |i: int| TokenView::Punct(next[i]));
    let ts = Tokens { tokens: all + seq![TokenView::Punct(p)] + rest, error: None };
    let end = all.len();
    assert(ts.tokens[end as int] == TokenView::Punct(p));
    assert(next.len() > 0 ==> ts.tokens[(end + 1) as int] == TokenView::Punct(next[0]));
    let e = ParseErrorView::MissingFile;
    assert(redirs_at(ts, end, item_redirect(items, items.len())).0 == Err::<
        RedirectView,
        ParseErrorView,
    >(e));
    lemma_pass_redirs(ts, items, 0);
    let m = next_word(items, 0);
    assert(item_redirect(items, 0) == Redirect::empty());
    assert(item_words(items, m) =~= seq![]);
    if items.len() > 0 {
        lemma_item(items, 0, items.len());
        assert(all[0] == ts.tokens[0]);
    }
    if m < items.len() {
        lemma_error_behind(ts, items, m, e);
    }
    assert(exec_at(ts, 0).0 == Err::<Option<CommandView>, ParseErrorView>(e));
    assert(pipe_at(ts, 0).0 == Err::<Option<CommandView>, ParseErrorView>(e));
}

/// An opening parenthesis cannot follow a word or a redirection.
pub proof fn law_parenthesis_behind_word(items: Seq<Item>, rest: Seq<TokenView>)
    requires
        items.len() > 0,
    ensures
        parsed(
            Tokens {
                tokens: item_tokens(items, items.len()) + seq![TokenView::Punct(Punct::LParen)]
                    + rest,
                error: None,
            },
        ) == Err::<Seq<CommandView>, ParseErrorView>(
            ParseErrorView::UnexpectedPunct(Punct::LParen),
        ),
{
    let all = item_tokens(items, items.len());
    let ts = Tokens { tokens: all + seq![TokenView::Punct(Punct::LParen)] + rest, error: None };
    let end = all.len();
    assert(ts.tokens[end as int] == TokenView::Punct(Punct::LParen));
    let e = ParseErrorView::UnexpectedPunct(Punct::LParen);
    let redirect = item_redirect(items, items.len());
    assert(redirs_at(ts, end, redirect) == (Ok::<RedirectView, ParseErrorView>(redirect), end));
    lemma_pass_redirs(ts, items, 0);
    let m = next_word(items, 0);
    assert(item_redirect(items, 0) == Redirect::empty());
    assert(item_words(items, m) =~= seq![]);
    lemma_item(items, 0, items.len());
    assert(all[0] == ts.tokens[0]);
    lemma_error_behind(ts, items, m, e);
    assert(exec_at(ts, 0).0 == Err::<Option<CommandView>, ParseErrorView>(e));
    assert(pipe_at(ts, 0).0 == Err::<Option<CommandView>, ParseErrorView>(e));
}

/// A line that cannot be split into tokens is not understood.
pub proof fn law_tokens_in_order(ts: Tokens)
    requires
        ts.error is Some,
    ensures
        parsed(ts) is Err,
{
    if parsed(ts) is Ok {
        super::parser::law_parse_again(ts, 0);
    }
}

/// A command that ends in an operator is read to its end and comes to nothing.
proof fn lemma_operator_at_end(ts: Tokens, i: nat, c: CommandView, p: Punct)
    requires
        ts.error is None,
        writable(c),
        is_operator(p),
        holds_at(ts, i, render(c)),
        punct_next(ts, i + render(c).len(), p),
        ts.tokens.len() == i + render(c).len() + 1,
    ensures
        pipe_at(ts, i) == (
            Ok::<Option<CommandView>, ParseErrorView>(None),
            ts.tokens.len(),
        ),
    decreases c,
{
    let end = i + render(c).len();
    match *c.kind {
        KindView::Pipe { left, right } => {
            lemma_operator_behind(ts, i, c, left, Punct::Pipe, right, p);
        },
        KindView::LogicalAnd { left, right } => {
            lemma_operator_behind(ts, i, c, left, Punct::AndAnd, right, p);
        },
        KindView::LogicalOr { left, right } => {
            lemma_operator_behind(ts, i, c, left, Punct::OrOr, right, p);
        },
        _ => {
            assert(unit_ends(ts, end));
            lemma_render_unit(ts, i, c);
            lemma_no_command(ts, end + 1);
        },
    }
}

proof fn lemma_operator_behind(
    ts: Tokens,
    i: nat,
    c: CommandView,
    left: CommandView,
    q: Punct,
    right: CommandView,
    p: Punct,
)
    requires
        ts.error is None,
        writable(left),
        writable(right),
        *left.kind is Exec || *left.kind is Subshell,
        is_operator(p),
        is_operator(q),
        decreases_to!(c => right),
        holds_at(ts, i, render(left) + seq![TokenView::Punct(q)] + render(right)),
        punct_next(ts, i + render(left).len() + 1 + render(right).len(), p),
        ts.tokens.len() == i + render(left).len() + 1 + render(right).len() + 1,
    ensures
        pipe_at(ts, i) == (
            Ok::<Option<CommandView>, ParseErrorView>(None),
            ts.tokens.len(),
        ),
    decreases c, 0nat,
{
    let op = seq![TokenView::Punct(q)];
    lemma_split(ts, i, render(left) + op, render(right));
    lemma_split(ts, i, render(left), op);
    let j = i + render(left).len();
    assert(op[0] == ts.tokens[(j + 0) as int]);
    assert(unit_ends(ts, j));
    lemma_render_unit(ts, i, left);
    lemma_operator_at_end(ts, j + 1, right, p);
}

/// A line that ends in an operator asks for nothing: what the operator was to connect is
/// missing.
pub proof fn law_operator_at_end(c: CommandView, p: Punct)
    requires
        writable(c),
        p == Punct::Pipe || p == Punct::AndAnd || p == Punct::OrOr,
    ensures
        parsed(Tokens { tokens: render(c) + seq![TokenView::Punct(p)], error: None }) == Ok::<
            Seq<CommandView>,
            ParseErrorView,
        >(seq![]),
{
    let op = seq![TokenView::Punct(p)];
    let ts = Tokens { tokens: render(c) + op, error: None };
    assert(holds_at(ts, 0, render(c) + op));
    lemma_split(ts, 0, render(c), op);
    assert(op[0] == ts.tokens[(render(c).len() + 0) as int]);
    lemma_operator_at_end(ts, 0, c, p);
}

} // verus!
