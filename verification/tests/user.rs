use ov6::types::RawFd;
use ov6::user::primes::{primes_below, sieve_stage};
use ov6::user::stdio::{stderr, stdin, stdout, DEFAULT_BUF_SIZE};
use ov6::user::test_runner::{
    Continuous, Ending, ParseOutcome, RunAction, RunEvent, Runner, TestEntry, TestError,
    TestNameMatchType, TestParam,
};

#[test]
fn primes_are_sieved() {
    assert_eq!(primes_below(20), [2, 3, 5, 7, 11, 13, 17, 19]);
    assert_eq!(primes_below(2), []);
    assert_eq!(primes_below(0), []);
    assert_eq!(primes_below(36).last(), Some(&31));
    assert_eq!(sieve_stage(2, &vec![2, 3, 4, 5, 6, 9]), [3, 5, 9]);
}

// standard streams

#[test]
fn complete_lines_are_let_out() {
    let mut out = stdout(false);
    assert_eq!(out.as_raw_fd(), RawFd::new(1));
    assert!(out.write(b"abc").is_empty());
    assert_eq!(out.write(b"d\nef\ng"), b"abcd\nef\n");
    assert_eq!(out.flush(), b"g");
    assert!(out.flush().is_empty());
}

#[test]
fn a_terminal_gets_everything_at_once() {
    let mut out = stdout(true);
    assert!(out.is_terminal());
    assert_eq!(out.write(b"$ "), b"$ ");
}

#[test]
fn what_does_not_fit_is_let_out() {
    let mut out = stdout(false);
    assert!(out.write(&vec![b'x'; DEFAULT_BUF_SIZE]).is_empty());
    assert_eq!(out.write(b"y").len(), DEFAULT_BUF_SIZE + 1);
}

#[test]
fn nothing_is_kept_at_the_end() {
    let mut out = stdout(false);
    out.write(b"abc");
    assert_eq!(out.cleanup(), b"abc");
    assert_eq!(out.write(b"def"), b"def");
}

#[test]
fn locked_output_is_the_same_output() {
    let mut out = stdout(false);
    out.write(b"a");
    let mut lock = out.lock();
    assert_eq!(lock.write(b"b\n"), b"ab\n");
    lock.write(b"c");
    assert_eq!(lock.unlock().flush(), b"c");
}

#[test]
fn errors_are_let_out_at_once() {
    let mut err = stderr();
    assert_eq!(err.as_raw_fd(), RawFd::new(2));
    assert_eq!(err.write(b"oops"), b"oops");
    assert_eq!(err.lock().write(b"x"), b"x");
}

#[test]
fn lines_are_read() {
    let mut input = stdin();
    assert_eq!(input.as_raw_fd(), RawFd::new(0));
    input.feed(b"one\ntw");
    assert_eq!(input.read_line(false).unwrap(), b"one\n");
    assert_eq!(input.read_line(false), None);
    input.feed(b"o\nthree");
    assert_eq!(input.read_line(false).unwrap(), b"two\n");
    assert_eq!(input.read_line(true).unwrap(), b"three");
    assert_eq!(input.read_line(true).unwrap(), b"");
    input.feed(b"abc");
    assert_eq!(input.read(2), b"ab");
    let mut lock = input.lock();
    assert_eq!(lock.fill_buf(), b"c");
    lock.consume(1);
    assert_eq!(lock.unlock().read(5), b"");
}

// the test runner

fn args(list: &[&str]) -> Vec<Vec<u8>> {
    list.iter().map(|s| s.as_bytes().to_vec()).collect()
}

fn param(list: &[&str]) -> TestParam {
    match TestParam::parse(&args(list)) {
        ParseOutcome::Run(param) => param,
        _ => panic!("not a run"),
    }
}

fn entry(name: &str, tags: &[&str]) -> TestEntry {
    TestEntry {
        name: name.as_bytes().to_vec(),
        tags: args(tags),
    }
}

#[test]
fn the_command_line_is_read() {
    let p = param(&["usertests"]);
    assert!(p.filter.name.is_none());
    assert_eq!(p.continuous, Continuous::Once);
    assert!(!p.shutdown_after_tests);
    let p = param(&["usertests", "-C", "-c", "-b", "-T", "-t", "slow", "copy", "--", "-x"]);
    assert_eq!(p.filter.name.as_deref(), Some(&b"copy"[..]));
    assert_eq!(p.filter.name_match_type, TestNameMatchType::Beginning);
    assert_eq!(p.filter.tags, args(&["slow"]));
    assert_eq!(p.continuous, Continuous::UntilFailure);
    assert!(p.shutdown_after_tests);
    assert!(matches!(TestParam::parse(&args(&["t", "-x"])), ParseOutcome::Usage));
    assert!(matches!(TestParam::parse(&args(&["t", "-h"])), ParseOutcome::Help));
    assert!(matches!(TestParam::parse(&args(&["t", "-t"])), ParseOutcome::MissingTag));
}

#[test]
fn tests_are_picked() {
    let p = param(&["t", "copy"]);
    assert!(p.filter.matches(&entry("copy", &[])));
    assert!(!p.filter.matches(&entry("copyin", &[])));
    let p = param(&["t", "-b", "copy"]);
    assert!(p.filter.matches(&entry("copyin", &[])));
    assert!(!p.filter.matches(&entry("cop", &[])));
    let p = param(&["t", "-t", "a", "-t", "b"]);
    assert!(p.filter.matches(&entry("x", &["c", "b"])));
    assert!(!p.filter.matches(&entry("x", &["c"])));
}

#[test]
fn failures_are_judged() {
    let failed = || Err::<(), TestError>(TestError::TestFailed);
    assert!(Continuous::Once.judge_result(failed()).is_err());
    assert!(Continuous::UntilFailure.judge_result(failed()).is_err());
    assert!(Continuous::Forever.judge_result(failed()).is_ok());
}

fn tests() -> Vec<TestEntry> {
    vec![entry("a1", &[]), entry("b", &[]), entry("a2", &[])]
}

#[test]
fn a_run_passes() {
    let p = param(&["t", "-b", "a"]);
    let tests = tests();
    let (mut run, action) = Runner::start(&p, &tests);
    assert_eq!(action, RunAction::CountPages);
    assert_eq!(run.step(&p, &tests, RunEvent::Pages(10)), RunAction::RunTest(0));
    assert_eq!(run.step(&p, &tests, RunEvent::Exited(true)), RunAction::RunTest(2));
    assert_eq!(run.step(&p, &tests, RunEvent::Exited(true)), RunAction::CountPages);
    assert_eq!(
        run.step(&p, &tests, RunEvent::Pages(10)),
        RunAction::Passed(Ending::Exit(0))
    );
}

#[test]
fn a_run_fails() {
    let p = param(&["t", "-T"]);
    let tests = tests();
    let (mut run, _) = Runner::start(&p, &tests);
    run.step(&p, &tests, RunEvent::Pages(10));
    assert_eq!(
        run.step(&p, &tests, RunEvent::Exited(false)),
        RunAction::Failed(Ending::Abort(1))
    );
}

#[test]
fn lost_pages_make_a_run_fail() {
    let p = param(&["t", "-C", "b"]);
    let tests = tests();
    let (mut run, _) = Runner::start(&p, &tests);
    run.step(&p, &tests, RunEvent::Pages(10));
    assert_eq!(run.step(&p, &tests, RunEvent::Exited(false)), RunAction::CountPages);
    // a run that goes on forever begins again
    assert_eq!(run.step(&p, &tests, RunEvent::Pages(10)), RunAction::CountPages);
    assert_eq!(run.step(&p, &tests, RunEvent::Pages(10)), RunAction::RunTest(1));
    run.step(&p, &tests, RunEvent::Exited(true));
    assert_eq!(
        run.step(&p, &tests, RunEvent::Pages(9)),
        RunAction::Failed(Ending::Exit(1))
    );
}

#[test]
fn there_must_be_a_test() {
    let (_, action) = Runner::start(&param(&["t", "zzz"]), &tests());
    assert_eq!(action, RunAction::NoneMatched(Ending::Exit(1)));
}
