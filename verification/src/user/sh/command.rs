//! The commands of the shell.
use vstd::prelude::*;

verus! {

/// How a file is opened that output is redirected to.
#[derive(Debug, Clone, Copy, PartialEq, Eq, Structural)]
pub enum OutputMode {
    Truncate,
    Append,
}

/// Where a command reads from and writes to.
#[derive(Debug, PartialEq, Eq)]
pub struct Redirect {
    pub stdin: Option<Vec<u8>>,
    pub stdout: Option<(Vec<u8>, OutputMode)>,
}

/// What a [`Redirect`] stands for.
#[verifier::ext_equal]
pub struct RedirectView {
    pub stdin: Option<Seq<u8>>,
    pub stdout: Option<(Seq<u8>, OutputMode)>,
}

impl Redirect {
    pub open spec fn view(&self) -> RedirectView {
        RedirectView {
            stdin: match self.stdin {
                Some(file) => Some(file@),
                None => None,
            },
            stdout: match self.stdout {
                Some(to) => Some((to.0@, to.1)),
                None => None,
            },
        }
    }

    /// No redirection.
    pub open spec fn empty() -> RedirectView {
        RedirectView { stdin: None, stdout: None }
    }

    /// No redirection.
    pub fn new() -> (r: Self)
        ensures
            r@ == Self::empty(),
    {
        Redirect { stdin: None, stdout: None }
    }
}

/// A command of the shell.
#[derive(Debug, PartialEq, Eq)]
pub struct Command {
    pub kind: Box<CommandKind>,
    /// Whether the shell does not wait for the command to end.
    pub background: bool,
}

/// What a command does.
#[derive(Debug, PartialEq, Eq)]
pub enum CommandKind {
    /// Runs a program.
    Exec { argv: Vec<Vec<u8>>, redirect: Redirect },
    /// Runs commands in a shell of their own.
    Subshell { list: Vec<Command>, redirect: Redirect },
    /// Connects the output of one command with the input of another.
    Pipe { left: Command, right: Command },
    /// Runs the second command if the first one succeeds.
    LogicalAnd { left: Command, right: Command },
    /// Runs the second command if the first one fails.
    LogicalOr { left: Command, right: Command },
}

/// What a [`Command`] stands for.
pub struct CommandView {
    pub kind: Box<KindView>,
    pub background: bool,
}

/// What a [`CommandKind`] stands for.
pub enum KindView {
    Exec { argv: Seq<Seq<u8>>, redirect: RedirectView },
    Subshell { list: Seq<CommandView>, redirect: RedirectView },
    Pipe { left: CommandView, right: CommandView },
    LogicalAnd { left: CommandView, right: CommandView },
    LogicalOr { left: CommandView, right: CommandView },
}

impl Command {
    pub open spec fn view(&self) -> CommandView
        decreases self,
    {
        CommandView { kind: Box::new(self.kind.view()), background: self.background }
    }

    /// A command that the shell waits for.
    pub open spec fn of(kind: KindView) -> CommandView {
        CommandView { kind: Box::new(kind), background: false }
    }

    /// Runs a program.
    pub fn exec(argv: Vec<Vec<u8>>, redirect: Redirect) -> (r: Self)
        ensures
            r@ == Self::of(KindView::Exec { argv: words(argv@), redirect: redirect@ }),
    {
        Command { kind: Box::new(CommandKind::Exec { argv, redirect }), background: false }
    }

    /// Runs commands in a shell of their own.
    pub fn subshell(list: Vec<Command>, redirect: Redirect) -> (r: Self)
        ensures
            r@ == Self::of(KindView::Subshell { list: commands(list@), redirect: redirect@ }),
    {
        let r = Command {
            kind: Box::new(CommandKind::Subshell { list, redirect }),
            background: false,
        };
        assert(r@.kind->list =~= commands(list@));
        r
    }

    /// Connects the output of one command with the input of another.
    pub fn pipe(left: Command, right: Command) -> (r: Self)
        ensures
            r@ == Self::of(KindView::Pipe { left: left@, right: right@ }),
    {
        Command { kind: Box::new(CommandKind::Pipe { left, right }), background: false }
    }

    /// Runs the second command if the first one succeeds.
    pub fn logical_and(left: Command, right: Command) -> (r: Self)
        ensures
            r@ == Self::of(KindView::LogicalAnd { left: left@, right: right@ }),
    {
        Command { kind: Box::new(CommandKind::LogicalAnd { left, right }), background: false }
    }

    /// Runs the second command if the first one fails.
    pub fn logical_or(left: Command, right: Command) -> (r: Self)
        ensures
            r@ == Self::of(KindView::LogicalOr { left: left@, right: right@ }),
    {
        Command { kind: Box::new(CommandKind::LogicalOr { left, right }), background: false }
    }
}

/// What a list of words stands for.
pub open spec fn words(argv: Seq<Vec<u8>>) -> Seq<Seq<u8>> {
    Seq::new(argv.len(), |i: int| argv[i]@)
}

/// What a list of commands stands for.
pub open spec fn commands(list: Seq<Command>) -> Seq<CommandView> {
    Seq::new(list.len(), |i: int| list[i].view())
}

impl CommandKind {
    pub open spec fn view(&self) -> KindView
        decreases self,
    {
        match self {
            CommandKind::Exec { argv, redirect } => KindView::Exec {
                argv: words(argv@),
                redirect: redirect@,
            },
            CommandKind::Subshell { list, redirect } => KindView::Subshell {
                list: Seq::new(
                    list@.len(),
                    |i: int|
                        if 0 <= i < list@.len() {
                            list@[i].view()
                        } else {
                            arbitrary()
                        },
                ),
                redirect: redirect@,
            },
            CommandKind::Pipe { left, right } => KindView::Pipe {
                left: left.view(),
                right: right.view(),
            },
            CommandKind::LogicalAnd { left, right } => KindView::LogicalAnd {
                left: left.view(),
                right: right.view(),
            },
            CommandKind::LogicalOr { left, right } => KindView::LogicalOr {
                left: left.view(),
                right: right.view(),
            },
        }
    }
}

/// A command stands for what its parts stand for, each in its place.
pub proof fn law_command_view(c: Command, i: int)
    ensures
        c@.background == c.background,
        match *c.kind {
            CommandKind::Exec { argv, redirect } => {
                &&& *c@.kind is Exec
                &&& c@.kind->Exec_argv.len() == argv@.len()
                &&& 0 <= i < argv@.len() ==> c@.kind->Exec_argv[i] == argv@[i]@
                &&& c@.kind->Exec_redirect == redirect@
            },
            CommandKind::Subshell { list, redirect } => {
                &&& *c@.kind is Subshell
                &&& c@.kind->list.len() == list@.len()
                &&& 0 <= i < list@.len() ==> c@.kind->list[i] == list@[i]@
                &&& c@.kind->Subshell_redirect == redirect@
            },
            CommandKind::Pipe { left, right } => {
                &&& *c@.kind is Pipe
                &&& c@.kind->Pipe_left == left@
                &&& c@.kind->Pipe_right == right@
            },
            CommandKind::LogicalAnd { left, right } => {
                &&& *c@.kind is LogicalAnd
                &&& c@.kind->LogicalAnd_left == left@
                &&& c@.kind->LogicalAnd_right == right@
            },
            CommandKind::LogicalOr { left, right } => {
                &&& *c@.kind is LogicalOr
                &&& c@.kind->LogicalOr_left == left@
                &&& c@.kind->LogicalOr_right == right@
            },
        },
{
    reveal_with_fuel(Command::view, 2);
    reveal_with_fuel(CommandKind::view, 2);
}

/// A redirection stands for the files that it names and for how the output is opened.
pub proof fn law_redirect_view(r: Redirect)
    ensures
        r.stdin is None <==> r@.stdin is None,
        r.stdin matches Some(file) ==> r@.stdin == Some(file@),
        r.stdout is None <==> r@.stdout is None,
        r.stdout matches Some(to) ==> r@.stdout == Some((to.0@, to.1)),
        Redirect::empty().stdin is None,
        Redirect::empty().stdout is None,
{
}

} // verus!
