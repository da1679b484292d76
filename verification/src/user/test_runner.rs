//! Picks the tests to be run, and judges how they went.
use crate::bytes::{copy_bytes, same_bytes, starts_with};
use vstd::prelude::*;

verus! {

/// `-`
pub const HYPHEN: u8 = 0x2d;

/// `c`
pub const LOWER_C: u8 = 0x63;

/// `C`
pub const UPPER_C: u8 = 0x43;

/// `b`
pub const LOWER_B: u8 = 0x62;

/// `t`
pub const LOWER_T: u8 = 0x74;

/// `T`
pub const UPPER_T: u8 = 0x54;

/// `h`
pub const LOWER_H: u8 = 0x68;

/// Why a run of tests ends.
#[derive(Debug, Clone, Copy, PartialEq, Eq, Structural)]
pub enum TestError {
    TestFailed,
}

/// What a test is called, and how it is tagged.
#[derive(Debug)]
pub struct TestEntry {
    pub name: Vec<u8>,
    pub tags: Vec<Vec<u8>>,
}

/// What a list of byte strings holds.
pub open spec fn strings(list: Seq<Vec<u8>>) -> Seq<Seq<u8>> {
    Seq::new(list.len(), |i: int| list[i]@)
}

/// How the name of a test is compared with the one asked for.
#[derive(Debug, Clone, Copy, PartialEq, Eq, Structural)]
pub enum TestNameMatchType {
    Exact,
    Beginning,
}

impl TestNameMatchType {
    /// Whether a name is one of those asked for.
    pub open spec fn accepts(self, test_name: Seq<u8>, filter_name: Seq<u8>) -> bool {
        match self {
            TestNameMatchType::Exact => test_name == filter_name,
            TestNameMatchType::Beginning => filter_name.is_prefix_of(test_name),
        }
    }

    /// Tells whether a name is one of those asked for.
    pub fn matches(&self, test_name: &[u8], filter_name: &[u8]) -> (r: bool)
        ensures
            r == self.accepts(test_name@, filter_name@),
    {
        match self {
            TestNameMatchType::Exact => same_bytes(test_name, filter_name),
            TestNameMatchType::Beginning => starts_with(test_name, filter_name),
        }
    }
}

/// Which tests are asked for.
#[derive(Debug)]
pub struct TestFilter {
    pub name: Option<Vec<u8>>,
    pub name_match_type: TestNameMatchType,
    pub tags: Vec<Vec<u8>>,
}

impl TestFilter {
    /// Whether a test is asked for: it has the name, if one is given, and one of the
    /// tags, if there are any.
    pub open spec fn accepts(self, entry: TestEntry) -> bool {
        &&& self.name matches Some(name) ==> self.name_match_type.accepts(entry.name@, name@)
        &&& self.tags@.len() > 0 ==> exists|i: int, k: int|
            0 <= i < self.tags@.len() && 0 <= k < entry.tags@.len() && #[trigger] self.tags@[i]@
                == #[trigger] entry.tags@[k]@
    }

    /// Tells whether a test is asked for.
    pub fn matches(&self, entry: &TestEntry) -> (r: bool)
        ensures
            r == self.accepts(*entry),
    {
        if let Some(name) = &self.name {
            if !self.name_match_type.matches(entry.name.as_slice(), name.as_slice()) {
                return false;
            }
        }
        if self.tags.len() == 0 {
            return true;
        }
        let mut i: usize = 0;
        while i < self.tags.len()
            invariant
                i <= self.tags@.len(),
                self.name matches Some(name) ==> self.name_match_type.accepts(entry.name@, name@),
                forall|a: int, k: int|
                    0 <= a < i && 0 <= k < entry.tags@.len() ==> #[trigger] self.tags@[a]@
                        != #[trigger] entry.tags@[k]@,
            decreases self.tags@.len() - i,
        {
            let mut k: usize = 0;
            while k < entry.tags.len()
                invariant
                    i < self.tags@.len(),
                    k <= entry.tags@.len(),
                    self.name matches Some(name) ==> self.name_match_type.accepts(
                        entry.name@,
                        name@,
                    ),
                    forall|b: int|
                        0 <= b < k ==> self.tags@[i as int]@ != #[trigger] entry.tags@[b]@,
                decreases entry.tags@.len() - k,
            {
                if same_bytes(self.tags[i].as_slice(), entry.tags[k].as_slice()) {
                    return true;
                }
                k = k + 1;
            }
            i = i + 1;
        }
        false
    }
}

/// How often the tests are run.
#[derive(Debug, Clone, Copy, PartialEq, Eq, Structural)]
pub enum Continuous {
    Once,
    UntilFailure,
    Forever,
}

impl Continuous {
    /// What becomes of a result.
    pub open spec fn judged<E>(self, result: Result<(), E>) -> Result<(), E> {
        if self is Forever {
            Ok(())
        } else {
            result
        }
    }

    /// What becomes of a result: a run that goes on forever takes no heed of failures.
    pub fn judge_result<E>(self, result: Result<(), E>) -> (r: Result<(), E>)
        ensures
            r == if self is Forever {
                Ok(())
            } else {
                result
            },
            r == self.judged(result),
    {
        match self {
            Continuous::Once => result,
            Continuous::UntilFailure => result,
            Continuous::Forever => Ok(()),
        }
    }
}

/// What is asked for on the command line.
#[derive(Debug)]
pub struct TestParam {
    pub filter: TestFilter,
    pub continuous: Continuous,
    pub shutdown_after_tests: bool,
}

/// What a [`TestParam`] stands for.
pub struct ParamView {
    pub name: Option<Seq<u8>>,
    pub name_match_type: TestNameMatchType,
    pub tags: Seq<Seq<u8>>,
    pub continuous: Continuous,
    pub shutdown_after_tests: bool,
}

/// What a command line comes to.
pub enum ParseOutcome {
    /// Tests are to be run.
    Run(TestParam),
    /// The command line is wrong.
    Usage,
    /// The tag behind `-t` is missing.
    MissingTag,
    /// Help is asked for.
    Help,
}

/// What a [`ParseOutcome`] stands for.
pub enum OutcomeView {
    Run(ParamView),
    Usage,
    MissingTag,
    Help,
}

impl ParseOutcome {
    pub open spec fn view(&self) -> OutcomeView {
        match *self {
            ParseOutcome::Run(param) => OutcomeView::Run(param@),
            ParseOutcome::Usage => OutcomeView::Usage,
            ParseOutcome::MissingTag => OutcomeView::MissingTag,
            ParseOutcome::Help => OutcomeView::Help,
        }
    }
}

/// What is asked for if the command line is empty: all tests, once.
pub open spec fn no_options() -> ParamView {
    ParamView {
        name: None,
        name_match_type: TestNameMatchType::Exact,
        tags: seq![],
        continuous: Continuous::Once,
        shutdown_after_tests: false,
    }
}

/// What the arguments from `i` on come to, where those before came to `param`.
pub open spec fn parsed_from(args: Seq<Seq<u8>>, i: int, param: ParamView) -> OutcomeView
    decreases args.len() - i,
{
    if i >= args.len() {
        OutcomeView::Run(param)
    } else {
        let arg = args[i];
        if arg == seq![HYPHEN, LOWER_C] {
            parsed_from(args, i + 1, ParamView { continuous: Continuous::UntilFailure, ..param })
        } else if arg == seq![HYPHEN, UPPER_C] {
            parsed_from(args, i + 1, ParamView { continuous: Continuous::Forever, ..param })
        } else if arg == seq![HYPHEN, LOWER_B] {
            parsed_from(
                args,
                i + 1,
                ParamView { name_match_type: TestNameMatchType::Beginning, ..param },
            )
        } else if arg == seq![HYPHEN, LOWER_T] {
            if i + 1 >= args.len() {
                OutcomeView::MissingTag
            } else {
                parsed_from(args, i + 2, ParamView { tags: param.tags.push(args[i + 1]), ..param })
            }
        } else if arg == seq![HYPHEN, UPPER_T] {
            parsed_from(args, i + 1, ParamView { shutdown_after_tests: true, ..param })
        } else if arg == seq![HYPHEN, LOWER_H] {
            OutcomeView::Help
        } else if arg == seq![HYPHEN, HYPHEN] {
            OutcomeView::Run(param)
        } else if arg.len() == 0 || arg[0] != HYPHEN {
            parsed_from(args, i + 1, ParamView { name: Some(arg), ..param })
        } else {
            OutcomeView::Usage
        }
    }
}

fn is_option(arg: &Vec<u8>, letter: u8) -> (r: bool)
    ensures
        r == (arg@ == seq![HYPHEN, letter]),
{
    let r = arg.len() == 2 && arg[0] == HYPHEN && arg[1] == letter;
    if r {
        assert(arg@ =~= seq![HYPHEN, letter]);
    }
    r
}

impl TestParam {
    pub open spec fn view(&self) -> ParamView {
        ParamView {
            name: match self.filter.name {
                Some(name) => Some(name@),
                None => None,
            },
            name_match_type: self.filter.name_match_type,
            tags: strings(self.filter.tags@),
            continuous: self.continuous,
            shutdown_after_tests: self.shutdown_after_tests,
        }
    }

    /// Reads the command line. The first argument is the name of the program.
    pub fn parse(args: &[Vec<u8>]) -> (r: ParseOutcome)
        ensures
            r@ == parsed_from(strings(args@), 1, no_options()),
    {
        let mut param = TestParam {
            filter: TestFilter {
                name: None,
                name_match_type: TestNameMatchType::Exact,
                tags: Vec::new(),
            },
            continuous: Continuous::Once,
            shutdown_after_tests: false,
        };
        let ghost all = strings(args@);
        let mut i: usize = 1;
        assert(param@.tags =~= no_options().tags);
        while i < args.len()
            invariant
                1 <= i,
                all == strings(args@),
                parsed_from(all, 1, no_options()) == parsed_from(all, i as int, param@),
            decreases args@.len() - i,
        {
            let arg = &args[i];
            assert(all[i as int] == arg@);
            let ghost before = param@;
            if is_option(arg, LOWER_C) {
                param.continuous = Continuous::UntilFailure;
            } else if is_option(arg, UPPER_C) {
                param.continuous = Continuous::Forever;
            } else if is_option(arg, LOWER_B) {
                param.filter.name_match_type = TestNameMatchType::Beginning;
            } else if is_option(arg, LOWER_T) {
                i = i + 1;
                if i >= args.len() {
                    return ParseOutcome::MissingTag;
                }
                let tag: Vec<u8> = copy_bytes(args[i].as_slice());
                param.filter.tags.push(tag);
                assert(param@.tags =~= before.tags.push(all[i as int]));
            } else if is_option(arg, UPPER_T) {
                param.shutdown_after_tests = true;
            } else if is_option(arg, LOWER_H) {
                return ParseOutcome::Help;
            } else if is_option(arg, HYPHEN) {
                return ParseOutcome::Run(param);
            } else if arg.len() == 0 || arg[0] != HYPHEN {
                param.filter.name = Some(copy_bytes(arg.as_slice()));
            } else {
                return ParseOutcome::Usage;
            }
            i = i + 1;
        }
        ParseOutcome::Run(param)
    }

    /// Whether the test at `i` is asked for.
    pub open spec fn picks(self, tests: Seq<TestEntry>, i: int) -> bool {
        self.filter.accepts(tests[i])
    }

    /// The first test that is asked for, from `i` on.
    pub open spec fn next_pick(self, tests: Seq<TestEntry>, i: int) -> Option<int>
        decreases tests.len() - i,
    {
        if i >= tests.len() {
            None
        } else if self.picks(tests, i) {
            Some(i)
        } else {
            self.next_pick(tests, i + 1)
        }
    }

    /// Finds the first test that is asked for, from `start` on.
    pub fn next_test(&self, tests: &[TestEntry], start: usize) -> (r: Option<usize>)
        ensures
            match self.next_pick(tests@, start as int) {
                Some(i) => r matches Some(found) && found == i && start <= i < tests@.len()
                    && self.picks(tests@, i),
                None => r is None,
            },
    {
        let mut i: usize = start;
        while i < tests.len()
            invariant
                start <= i,
                self.next_pick(tests@, start as int) == self.next_pick(tests@, i as int),
            decreases tests@.len() - i,
        {
            if self.filter.matches(&tests[i]) {
                return Some(i);
            }
            i = i + 1;
        }
        None
    }
}

/// How the program is to end.
#[derive(Debug, Clone, Copy, PartialEq, Eq, Structural)]
pub enum Ending {
    /// The machine is halted with this code.
    Halt(u16),
    /// The machine is stopped with this code.
    Abort(u16),
    /// The program exits with this code.
    Exit(i32),
}

/// What the runner wants done.
#[derive(Debug, Clone, Copy, PartialEq, Eq, Structural)]
pub enum RunAction {
    /// Count the free pages.
    CountPages,
    /// Run the test at an index in a process of its own.
    RunTest(usize),
    /// All tests have passed.
    Passed(Ending),
    /// Some test has failed, free pages were lost, or nothing was run.
    Failed(Ending),
    /// There is no test that is asked for.
    NoneMatched(Ending),
}

/// What has come of it.
#[derive(Debug, Clone, Copy, PartialEq, Eq, Structural)]
pub enum RunEvent {
    /// There are so many free pages.
    Pages(usize),
    /// The process of the test has exited, successfully or not.
    Exited(bool),
}

/// How far a run has come.
#[derive(Debug, Clone, Copy, PartialEq, Eq, Structural)]
pub enum Stage {
    /// The free pages are counted before the tests.
    Before,
    /// The test at an index is run.
    Running(usize),
    /// The free pages are counted behind the tests.
    After,
    /// Nothing is left to do.
    Over,
}

/// The state of a run of tests.
#[derive(Debug, Clone, Copy, PartialEq, Eq, Structural)]
pub struct Runner {
    pub stage: Stage,
    /// Free pages before the tests.
    pub free_pages: usize,
    /// Whether a test has been run.
    pub any_run: bool,
}

/// How the program ends if all tests have passed.
pub open spec fn ending_passed(param: TestParam) -> Ending {
    if param.shutdown_after_tests {
        Ending::Halt(0)
    } else {
        Ending::Exit(0)
    }
}

/// How the program ends if they have not.
pub open spec fn ending_failed(param: TestParam) -> Ending {
    if param.shutdown_after_tests {
        Ending::Abort(1)
    } else {
        Ending::Exit(1)
    }
}

/// Whether the event is the one that a stage waits for.
pub open spec fn awaited(stage: Stage, event: RunEvent) -> bool {
    match stage {
        Stage::Before => event is Pages,
        Stage::Running(_) => event is Exited,
        Stage::After => event is Pages,
        Stage::Over => false,
    }
}

/// What follows when the tests from `i` on are next.
pub open spec fn go_on(runner: Runner, param: TestParam, tests: Seq<TestEntry>, i: int) -> (
    Runner,
    RunAction,
) {
    match param.next_pick(tests, i) {
        Some(k) => (
            Runner { stage: Stage::Running(k as usize), any_run: true, ..runner },
            RunAction::RunTest(k as usize),
        ),
        None => (Runner { stage: Stage::After, ..runner }, RunAction::CountPages),
    }
}

/// The step that a run takes on an event.
pub open spec fn step_spec(
    runner: Runner,
    param: TestParam,
    tests: Seq<TestEntry>,
    event: RunEvent,
) -> (Runner, RunAction) {
    let over = Runner { stage: Stage::Over, ..runner };
    match (runner.stage, event) {
        (Stage::Before, RunEvent::Pages(pages)) => go_on(
            Runner { free_pages: pages, ..runner },
            param,
            tests,
            0,
        ),
        (Stage::Running(i), RunEvent::Exited(success)) => if success
            || param.continuous is Forever {
            go_on(runner, param, tests, i + 1)
        } else {
            (over, RunAction::Failed(ending_failed(param)))
        },
        (Stage::After, RunEvent::Pages(pages)) => if pages != runner.free_pages {
            (over, RunAction::Failed(ending_failed(param)))
        } else if !(param.continuous is Once) {
            (Runner { stage: Stage::Before, ..runner }, RunAction::CountPages)
        } else if runner.any_run {
            (over, RunAction::Passed(ending_passed(param)))
        } else {
            (over, RunAction::Failed(ending_failed(param)))
        },
        _ => (over, RunAction::Failed(ending_failed(param))),
    }
}

impl Runner {
    /// Begins a run of the tests that are asked for.
    pub fn start(param: &TestParam, tests: &[TestEntry]) -> (r: (Runner, RunAction))
        ensures
            r.0.any_run == false,
            r.0.free_pages == 0,
            (forall|i: int| 0 <= i < tests@.len() ==> !param.picks(tests@, i)) ==> r.0.stage
                == Stage::Over && r.1 == RunAction::NoneMatched(Ending::Exit(1)),
            (exists|i: int| 0 <= i < tests@.len() && param.picks(tests@, i)) ==> r.0.stage
                == Stage::Before && r.1 == RunAction::CountPages,
    {
        proof {
            lemma_next_pick(*param, tests@, 0);
        }
        match param.next_test(tests, 0) {
            Some(_) => (
                Runner { stage: Stage::Before, free_pages: 0, any_run: false },
                RunAction::CountPages,
            ),
            None => (
                Runner { stage: Stage::Over, free_pages: 0, any_run: false },
                RunAction::NoneMatched(Ending::Exit(1)),
            ),
        }
    }

    /// Takes the step that follows an event.
    pub fn step(&mut self, param: &TestParam, tests: &[TestEntry], event: RunEvent) -> (r:
        RunAction)
        requires
            awaited(old(self).stage, event),
            old(self).stage matches Stage::Running(i) ==> i < tests@.len(),
        ensures
            (*final(self), r) == step_spec(*old(self), *param, tests@, event),
            final(self).stage matches Stage::Running(i) ==> i < tests@.len() && param.picks(
                tests@,
                i as int,
            ),
    {
        match (self.stage, event) {
            (Stage::Before, RunEvent::Pages(pages)) => {
                self.free_pages = pages;
                self.go_on(param, tests, 0)
            },
            (Stage::Running(i), RunEvent::Exited(success)) => {
                let result: Result<(), TestError> = if success {
                    Ok(())
                } else {
                    Err(TestError::TestFailed)
                };
                assert(i < tests.len());
                match param.continuous.judge_result(result) {
                    Ok(()) => self.go_on(param, tests, i + 1),
                    Err(_) => self.fail(param),
                }
            },
            (Stage::After, RunEvent::Pages(pages)) => {
                if pages != self.free_pages {
                    return self.fail(param);
                }
                if param.continuous != Continuous::Once {
                    self.stage = Stage::Before;
                    return RunAction::CountPages;
                }
                if !self.any_run {
                    return self.fail(param);
                }
                self.stage = Stage::Over;
                if param.shutdown_after_tests {
                    RunAction::Passed(Ending::Halt(0))
                } else {
                    RunAction::Passed(Ending::Exit(0))
                }
            },
            _ => self.fail(param),
        }
    }

    fn go_on(&mut self, param: &TestParam, tests: &[TestEntry], start: usize) -> (r: RunAction)
        ensures
            (*final(self), r) == go_on(*old(self), *param, tests@, start as int),
            final(self).stage matches Stage::Running(i) ==> i < tests@.len() && param.picks(
                tests@,
                i as int,
            ),
    {
        match param.next_test(tests, start) {
            Some(i) => {
                self.stage = Stage::Running(i);
                self.any_run = true;
                RunAction::RunTest(i)
            },
            None => {
                self.stage = Stage::After;
                RunAction::CountPages
            },
        }
    }

    fn fail(&mut self, param: &TestParam) -> (r: RunAction)
        ensures
            *final(self) == (Runner { stage: Stage::Over, ..*old(self) }),
            r == RunAction::Failed(ending_failed(*param)),
    {
        self.stage = Stage::Over;
        if param.shutdown_after_tests {
            RunAction::Failed(Ending::Abort(1))
        } else {
            RunAction::Failed(Ending::Exit(1))
        }
    }
}

proof fn lemma_next_pick(param: TestParam, tests: Seq<TestEntry>, i: int)
    requires
        0 <= i,
    ensures
        match param.next_pick(tests, i) {
            Some(k) => i <= k < tests.len() && param.picks(tests, k) && forall|j: int|
                i <= j < k ==> !param.picks(tests, j),
            None => forall|j: int| i <= j < tests.len() ==> !param.picks(tests, j),
        },
    decreases tests.len() - i,
{
    if i < tests.len() && !param.picks(tests, i) {
        lemma_next_pick(param, tests, i + 1);
    }
}

/// The tests that are asked for, from `i` on.
pub open spec fn picked(param: TestParam, tests: Seq<TestEntry>, i: int) -> Seq<int>
    decreases tests.len() - i,
{
    if i >= tests.len() {
        seq![]
    } else if param.picks(tests, i) {
        seq![i] + picked(param, tests, i + 1)
    } else {
        picked(param, tests, i + 1)
    }
}

/// What a run does on one event after the other.
pub open spec fn actions(
    runner: Runner,
    param: TestParam,
    tests: Seq<TestEntry>,
    events: Seq<RunEvent>,
) -> Seq<RunAction>
    decreases events.len(),
{
    if events.len() == 0 {
        seq![]
    } else {
        let (next, action) = step_spec(runner, param, tests, events[0]);
        seq![action] + actions(next, param, tests, events.skip(1))
    }
}

/// The runs of tests with these indices.
pub open spec fn runs(list: Seq<int>) -> Seq<RunAction> {
    Seq::new(list.len(), |i: int| RunAction::RunTest(list[i] as usize))
}

/// As many successful tests as wanted.
pub open spec fn successes(n: nat) -> Seq<RunEvent> {
    Seq::new(n, |i: int| RunEvent::Exited(true))
}

/// What is left of a round in which all tests succeed and no page is lost.
proof fn lemma_round(
    runner: Runner,
    param: TestParam,
    tests: Seq<TestEntry>,
    i: int,
    pages: usize,
)
    requires
        0 <= i,
        tests.len() <= usize::MAX,
        runner.free_pages == pages,
        param.continuous is Once,
        runner.any_run || picked(param, tests, i).len() > 0,
    ensures
        ({
            let (next, action) = go_on(runner, param, tests, i);
            seq![action] + actions(
                next,
                param,
                tests,
                successes(picked(param, tests, i).len()).push(RunEvent::Pages(pages)),
            ) == runs(picked(param, tests, i)).push(RunAction::CountPages).push(
                RunAction::Passed(ending_passed(param)),
            )
        }),
    decreases tests.len() - i,
{
    let list = picked(param, tests, i);
    let events = successes(list.len()).push(RunEvent::Pages(pages));
    let (next, action) = go_on(runner, param, tests, i);
    if i >= tests.len() {
        assert(events =~= seq![RunEvent::Pages(pages)]);
        assert(events.skip(1) =~= seq![]);
        let (last, passed) = step_spec(next, param, tests, events[0]);
        assert(actions(last, param, tests, events.skip(1)) == Seq::<RunAction>::empty());
        assert(runs(list) =~= seq![]);
        assert(seq![action] + actions(next, param, tests, events) =~= runs(list).push(
            RunAction::CountPages,
        ).push(RunAction::Passed(ending_passed(param))));
    } else if param.picks(tests, i) {
        let rest = picked(param, tests, i + 1);
        assert(list =~= seq![i] + rest);
        let ran = Runner { any_run: true, ..runner };
        assert(next == (Runner { stage: Stage::Running(i as usize), ..ran }));
        assert(events[0] == RunEvent::Exited(true));
        let more = successes(rest.len()).push(RunEvent::Pages(pages));
        assert(events.skip(1) =~= more);
        let (after, follow) = step_spec(next, param, tests, events[0]);
        assert(go_on(next, param, tests, i + 1) == (after, follow));
        lemma_round(next, param, tests, i + 1, pages);
        assert(actions(next, param, tests, events) == seq![follow] + actions(
            after,
            param,
            tests,
            more,
        ));
        assert(seq![action] + actions(next, param, tests, events) =~= runs(list).push(
            RunAction::CountPages,
        ).push(RunAction::Passed(ending_passed(param)))) by {
            assert(runs(list) =~= seq![RunAction::RunTest(i as usize)] + runs(rest));
        }
    } else {
        assert(go_on(runner, param, tests, i) == go_on(runner, param, tests, i + 1));
        lemma_round(runner, param, tests, i + 1, pages);
    }
}

/// If all tests that are asked for succeed and no page is lost, each of them is run
/// once, in the order of the list, and the run passes.
pub proof fn law_all_pass(param: TestParam, tests: Seq<TestEntry>, pages: usize)
    requires
        tests.len() <= usize::MAX,
        param.continuous is Once,
        picked(param, tests, 0).len() > 0,
    ensures
        actions(
            Runner { stage: Stage::Before, free_pages: 0, any_run: false },
            param,
            tests,
            seq![RunEvent::Pages(pages)] + successes(picked(param, tests, 0).len()).push(
                RunEvent::Pages(pages),
            ),
        ) == runs(picked(param, tests, 0)).push(RunAction::CountPages).push(
            RunAction::Passed(ending_passed(param)),
        ),
{
    let runner = Runner { stage: Stage::Before, free_pages: 0, any_run: false };
    let more = successes(picked(param, tests, 0).len()).push(RunEvent::Pages(pages));
    let events = seq![RunEvent::Pages(pages)] + more;
    assert(events.skip(1) =~= more);
    assert(events[0] == RunEvent::Pages(pages));
    lemma_round(Runner { free_pages: pages, ..runner }, param, tests, 0, pages);
}

/// A test that fails makes the run fail at once, unless it is to go on forever.
pub proof fn law_failure_ends(runner: Runner, param: TestParam, tests: Seq<TestEntry>)
    requires
        runner.stage is Running,
        !(param.continuous is Forever),
    ensures
        step_spec(runner, param, tests, RunEvent::Exited(false)).1 == RunAction::Failed(
            ending_failed(param),
        ),
        step_spec(runner, param, tests, RunEvent::Exited(false)).0.stage is Over,
{
}

/// A name is one of those asked for if it is the same, or, if only the beginning is to
/// match, if it begins with the one asked for.
pub proof fn law_names_match(test: Seq<u8>, wanted: Seq<u8>)
    ensures
        TestNameMatchType::Exact.accepts(test, wanted) <==> test == wanted,
        TestNameMatchType::Beginning.accepts(test, wanted) <==> wanted.len() <= test.len()
            && forall|i: int| 0 <= i < wanted.len() ==> test[i] == #[trigger] wanted[i],
{
    if wanted.len() <= test.len() && forall|i: int|
        0 <= i < wanted.len() ==> test[i] == #[trigger] wanted[i] {
        assert(test.subrange(0, wanted.len() as int) =~= wanted);
    }
}

/// A test is run if and only if its name matches, where one is asked for, and it has at
/// least one of the tags, where some are asked for.
pub proof fn law_filter(filter: TestFilter, entry: TestEntry)
    ensures
        filter.accepts(entry) <==> {
            &&& filter.name is None || filter.name_match_type.accepts(
                entry.name@,
                filter.name->0@,
            )
            &&& filter.tags@.len() == 0 || exists|i: int, k: int|
                0 <= i < filter.tags@.len() && 0 <= k < entry.tags@.len()
                    && #[trigger] filter.tags@[i]@ == #[trigger] entry.tags@[k]@
        },
{
}

/// The tests that are picked are those that the filter accepts, each once, in their order.
pub proof fn law_picked(param: TestParam, tests: Seq<TestEntry>, i: int, k: int)
    requires
        0 <= i,
    ensures
        picked(param, tests, i).contains(k) <==> i <= k < tests.len() && param.filter.accepts(
            tests[k],
        ),
        forall|a: int, b: int|
            0 <= a < b < picked(param, tests, i).len() ==> picked(param, tests, i)[a] < picked(
                param,
                tests,
                i,
            )[b],
        forall|a: int|
            0 <= a < picked(param, tests, i).len() ==> i <= #[trigger] picked(param, tests, i)[a]
                < tests.len(),
    decreases tests.len() - i,
{
    if i < tests.len() {
        law_picked(param, tests, i + 1, k);
        let rest = picked(param, tests, i + 1);
        let all = picked(param, tests, i);
        if param.picks(tests, i) {
            assert(all =~= seq![i] + rest);
            if rest.contains(k) {
                let a = rest.index_of(k);
                assert(all[a + 1] == k);
            }
            if k == i {
                assert(all[0] == k);
            }
            if all.contains(k) && k != i {
                let a = all.index_of(k);
                assert(rest[a - 1] == k);
            }
            assert forall|a: int, b: int| 0 <= a < b < all.len() implies all[a] < all[b] by {
                if a == 0 {
                    assert(all[b] == rest[b - 1]);
                } else {
                    assert(rest[a - 1] < rest[b - 1]);
                }
            }
            assert forall|a: int| 0 <= a < all.len() implies i <= #[trigger] all[a]
                < tests.len() by {
                if a > 0 {
                    assert(all[a] == rest[a - 1]);
                }
            }
        }
    }
}

/// A run in which pages are lost fails. One that is to go on begins again, if none are. A
/// run that goes on forever takes no heed of whether a test fails.
pub proof fn law_rounds(runner: Runner, param: TestParam, tests: Seq<TestEntry>, pages: usize)
    ensures
        runner.stage is After && pages != runner.free_pages ==> step_spec(
            runner,
            param,
            tests,
            RunEvent::Pages(pages),
        ).1 is Failed,
        runner.stage is After && pages == runner.free_pages && !(param.continuous is Once) ==> {
            let (next, action) = step_spec(runner, param, tests, RunEvent::Pages(pages));
            next.stage is Before && action is CountPages
        },
        runner.stage is Before ==> step_spec(
            runner,
            param,
            tests,
            RunEvent::Pages(pages),
        ).0.free_pages == pages,
        runner.stage is Running && param.continuous is Forever ==> step_spec(
            runner,
            param,
            tests,
            RunEvent::Exited(false),
        ) == step_spec(runner, param, tests, RunEvent::Exited(true)),
{
}

/// The program ends with code 0 if and only if all tests have passed, and halts or stops the
/// machine if and only if it was asked to shut it down.
pub proof fn law_endings(param: TestParam)
    ensures
        param.shutdown_after_tests ==> ending_passed(param) == Ending::Halt(0) && ending_failed(
            param,
        ) == Ending::Abort(1),
        !param.shutdown_after_tests ==> ending_passed(param) == Ending::Exit(0) && ending_failed(
            param,
        ) == Ending::Exit(1),
{
}

/// The arguments that ask for the first `n` tags.
pub open spec fn tag_args(tags: Seq<Seq<u8>>, n: nat) -> Seq<Seq<u8>>
    decreases n,
{
    if n == 0 {
        seq![]
    } else {
        tag_args(tags, (n - 1) as nat).push(seq![0x2du8, 0x74u8]).push(tags[n - 1])
    }
}

/// A command line that asks for something.
pub open spec fn command_line(program: Seq<u8>, param: ParamView) -> Seq<Seq<u8>> {
    let often = match param.continuous {
        Continuous::Once => seq![],
        Continuous::UntilFailure => seq![seq![0x2du8, 0x63u8]],
        Continuous::Forever => seq![seq![0x2du8, 0x43u8]],
    };
    let begin = if param.name_match_type is Beginning {
        seq![seq![0x2du8, 0x62u8]]
    } else {
        seq![]
    };
    let down = if param.shutdown_after_tests {
        seq![seq![0x2du8, 0x54u8]]
    } else {
        seq![]
    };
    let name = match param.name {
        Some(name) => seq![name],
        None => seq![],
    };
    seq![program] + often + begin + down + name + tag_args(param.tags, param.tags.len())
}

proof fn lemma_tag_args(tags: Seq<Seq<u8>>, n: nat, m: nat)
    requires
        n < m <= tags.len(),
    ensures
        tag_args(tags, n).len() == 2 * n,
        tag_args(tags, m).len() == 2 * m,
        tag_args(tags, m)[2 * n as int] == seq![0x2du8, 0x74u8],
        tag_args(tags, m)[(2 * n + 1) as int] == tags[n as int],
    decreases m,
{
    if n + 1 < m {
        lemma_tag_args(tags, n, (m - 1) as nat);
    } else if n > 0 {
        lemma_tag_args(tags, (n - 1) as nat, n);
    }
}

proof fn lemma_tags_parsed(args: Seq<Seq<u8>>, at: int, tags: Seq<Seq<u8>>, n: nat, param: ParamView)
    requires
        n <= tags.len(),
        0 <= at,
        args.len() == at + tag_args(tags, tags.len()).len(),
        forall|k: int|
            0 <= k < tag_args(tags, tags.len()).len() ==> args[at + k] == #[trigger] tag_args(
                tags,
                tags.len(),
            )[k],
        param.tags == tags.take(n as int),
    ensures
        parsed_from(args, at + 2 * n, param) == OutcomeView::Run(ParamView { tags, ..param }),
    decreases tags.len() - n,
{
    let all = tag_args(tags, tags.len());
    if n < tags.len() {
        lemma_tag_args(tags, n, tags.len());
        let i = at + 2 * n;
        assert(args[at + 2 * n] == all[2 * n as int]);
        assert(args[at + (2 * n + 1)] == all[(2 * n + 1) as int]);
        let arg = args[i];
        assert(arg[1] == 0x74);
        assert(arg != seq![HYPHEN, LOWER_C]) by {
            assert(seq![HYPHEN, LOWER_C][1] == LOWER_C);
        }
        assert(arg != seq![HYPHEN, UPPER_C]) by {
            assert(seq![HYPHEN, UPPER_C][1] == UPPER_C);
        }
        assert(arg != seq![HYPHEN, LOWER_B]) by {
            assert(seq![HYPHEN, LOWER_B][1] == LOWER_B);
        }
        let next = ParamView { tags: param.tags.push(tags[n as int]), ..param };
        assert(next.tags =~= tags.take((n + 1) as int));
        lemma_tags_parsed(args, at, tags, n + 1, next);
        assert(parsed_from(args, i, param) == parsed_from(args, i + 2, next));
    } else {
        if n > 0 {
            lemma_tag_args(tags, (n - 1) as nat, n);
        }
        assert(tags.take(n as int) =~= tags);
        assert(parsed_from(args, at + 2 * n, param) == OutcomeView::Run(param));
    }
}

/// What one option or name does.
proof fn lemma_one_parsed(args: Seq<Seq<u8>>, i: int, param: ParamView)
    requires
        0 <= i < args.len(),
    ensures
        args[i] == seq![0x2du8, 0x63u8] ==> parsed_from(args, i, param) == parsed_from(
            args,
            i + 1,
            ParamView { continuous: Continuous::UntilFailure, ..param },
        ),
        args[i] == seq![0x2du8, 0x43u8] ==> parsed_from(args, i, param) == parsed_from(
            args,
            i + 1,
            ParamView { continuous: Continuous::Forever, ..param },
        ),
        args[i] == seq![0x2du8, 0x62u8] ==> parsed_from(args, i, param) == parsed_from(
            args,
            i + 1,
            ParamView { name_match_type: TestNameMatchType::Beginning, ..param },
        ),
        args[i] == seq![0x2du8, 0x54u8] ==> parsed_from(args, i, param) == parsed_from(
            args,
            i + 1,
            ParamView { shutdown_after_tests: true, ..param },
        ),
        args[i].len() == 0 || args[i][0] != 0x2d ==> parsed_from(args, i, param) == parsed_from(
            args,
            i + 1,
            ParamView { name: Some(args[i]), ..param },
        ),
        args[i] == seq![0x2du8, 0x68u8] ==> parsed_from(args, i, param) is Help,
        args[i] == seq![0x2du8, 0x2du8] ==> parsed_from(args, i, param) == OutcomeView::Run(param),
        args[i] == seq![0x2du8, 0x74u8] && i + 1 == args.len() ==> parsed_from(args, i, param)
            is MissingTag,
{
    let arg = args[i];
    assert(seq![HYPHEN, LOWER_C][1] == LOWER_C && seq![HYPHEN, LOWER_C][0] == HYPHEN);
    assert(seq![HYPHEN, UPPER_C][1] == UPPER_C && seq![HYPHEN, UPPER_C][0] == HYPHEN);
    assert(seq![HYPHEN, LOWER_B][1] == LOWER_B && seq![HYPHEN, LOWER_B][0] == HYPHEN);
    assert(seq![HYPHEN, LOWER_T][1] == LOWER_T && seq![HYPHEN, LOWER_T][0] == HYPHEN);
    assert(seq![HYPHEN, UPPER_T][1] == UPPER_T && seq![HYPHEN, UPPER_T][0] == HYPHEN);
    assert(seq![HYPHEN, LOWER_H][1] == LOWER_H && seq![HYPHEN, LOWER_H][0] == HYPHEN);
    assert(seq![HYPHEN, HYPHEN][1] == HYPHEN && seq![HYPHEN, HYPHEN][0] == HYPHEN);
}

/// Whatever can be asked for, there is a command line for it: `-c` and `-C` for how often,
/// `-b` to match the beginning of a name, `-t` before each tag, `-T` to shut down, and the
/// name of a test, which does not begin with a hyphen.
pub proof fn law_command_line(program: Seq<u8>, param: ParamView)
    requires
        param.name matches Some(name) ==> name.len() == 0 || name[0] != 0x2d,
    ensures
        parsed_from(command_line(program, param), 1, no_options()) == OutcomeView::Run(param),
{
    let args = command_line(program, param);
    let tail = tag_args(param.tags, param.tags.len());
    let p0 = no_options();
    let mut i: int = 1;
    let mut p = p0;
    if !(param.continuous is Once) {
        lemma_one_parsed(args, i, p);
        p = ParamView { continuous: param.continuous, ..p };
        i = i + 1;
    }
    assert(parsed_from(args, 1, p0) == parsed_from(args, i, p));
    if param.name_match_type is Beginning {
        lemma_one_parsed(args, i, p);
        p = ParamView { name_match_type: param.name_match_type, ..p };
        i = i + 1;
    }
    assert(parsed_from(args, 1, p0) == parsed_from(args, i, p));
    if param.shutdown_after_tests {
        lemma_one_parsed(args, i, p);
        p = ParamView { shutdown_after_tests: true, ..p };
        i = i + 1;
    }
    assert(parsed_from(args, 1, p0) == parsed_from(args, i, p));
    if param.name is Some {
        lemma_one_parsed(args, i, p);
        p = ParamView { name: param.name, ..p };
        i = i + 1;
    }
    assert(parsed_from(args, 1, p0) == parsed_from(args, i, p));
    assert(p.tags =~= param.tags.take(0));
    assert forall|k: int| 0 <= k < tail.len() implies args[i + k] == #[trigger] tail[k] by {}
    lemma_tags_parsed(args, i, param.tags, 0, p);
}

/// What ends the reading of a command line, wherever it stands: `-h` asks for help, `--`
/// leaves the rest to others, `-t` needs a tag behind it, and any other option is wrong.
pub proof fn law_options_end(args: Seq<Seq<u8>>, i: int, param: ParamView)
    requires
        0 <= i < args.len(),
    ensures
        args[i] == seq![0x2du8, 0x68u8] ==> parsed_from(args, i, param) is Help,
        args[i] == seq![0x2du8, 0x2du8] ==> parsed_from(args, i, param) == OutcomeView::Run(param),
        args[i] == seq![0x2du8, 0x74u8] && i + 1 == args.len() ==> parsed_from(args, i, param)
            is MissingTag,
        args[i].len() > 0 && args[i][0] == 0x2d && (args[i].len() != 2 || !seq![
            0x63u8,
            0x43u8,
            0x62u8,
            0x74u8,
            0x54u8,
            0x68u8,
            0x2du8,
        ].contains(args[i][1])) ==> parsed_from(args, i, param) is Usage,
{
    lemma_one_parsed(args, i, param);
    let letters = seq![0x63u8, 0x43u8, 0x62u8, 0x74u8, 0x54u8, 0x68u8, 0x2du8];
    assert(letters[0] == 0x63 && letters[1] == 0x43 && letters[2] == 0x62 && letters[3] == 0x74
        && letters[4] == 0x54 && letters[5] == 0x68 && letters[6] == 0x2d);
    let arg = args[i];
    if arg.len() == 2 && !letters.contains(arg[1]) {
        assert(arg[1] != letters[0] && arg[1] != letters[1] && arg[1] != letters[2] && arg[1]
            != letters[3] && arg[1] != letters[4] && arg[1] != letters[5] && arg[1] != letters[6]);
    }
    assert(seq![HYPHEN, LOWER_C][1] == LOWER_C && seq![HYPHEN, UPPER_C][1] == UPPER_C);
    assert(seq![HYPHEN, LOWER_B][1] == LOWER_B && seq![HYPHEN, LOWER_T][1] == LOWER_T);
    assert(seq![HYPHEN, UPPER_T][1] == UPPER_T && seq![HYPHEN, LOWER_H][1] == LOWER_H);
    assert(seq![HYPHEN, HYPHEN][1] == HYPHEN);
}

/// What is asked for is kept as it was read.
pub proof fn law_param_view(param: TestParam, i: int)
    ensures
        param@.name is Some <==> param.filter.name is Some,
        param.filter.name matches Some(name) ==> param@.name == Some(name@),
        param@.name_match_type == param.filter.name_match_type,
        param@.tags.len() == param.filter.tags@.len(),
        0 <= i < param.filter.tags@.len() ==> param@.tags[i] == param.filter.tags@[i]@,
        param@.continuous == param.continuous,
        param@.shutdown_after_tests == param.shutdown_after_tests,
{
}

/// A failure counts unless the tests run forever, and then it is the failure that there was.
pub proof fn law_judged<E>(how: Continuous, result: Result<(), E>)
    ensures
        how.judged(result) is Err <==> result is Err && (how is Once || how is UntilFailure),
        how.judged(result) matches Err(e) ==> result == Err::<(), E>(e),
{
}

} // verus!
