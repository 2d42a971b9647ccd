//! The decisions of the subcommands: which test to run and how, which
//! tests a run covers, and how a weighted run is planned.

use vstd::prelude::*;
use crate::config::{TestCase, TestCaseView, clone_opt};
use crate::loader::tests_view;
use crate::selector::{SelectError, filter_by_tag, filter_tag, find_by_name, first_named, refs_view};
use crate::weights::{apply_weights, distribution_spec, weighted_test, weights_of};

verus! {

/// Why a subcommand cannot go on.
pub enum CommandError {
    /// A test could not be chosen.
    Select(SelectError),
    /// No test carries this tag.
    NoTestsWithTag(String),
    /// The run would cover no test.
    NoTestsToRun,
    /// The configuration defines no test.
    NoTestsDefined,
    /// A weighted run names neither a number of requests nor a duration.
    MissingAmount,
}

/// How `run` handles the chosen test.
#[derive(Debug, Clone, Copy, PartialEq, Eq)]
pub enum RunMode {
    /// Print the `oha` command without running it.
    DryRun,
    /// Run `oha` with its live display.
    LiveDisplay,
    /// Run `oha`, capture its JSON output and summarise it (saving it when
    /// an output file is given).
    Capture,
}

/// `--dry-run` wins; otherwise `--pass-tui` shows oha's live display
/// instead of capturing; otherwise the output is captured.
pub fn run_mode(dry_run: bool, pass_tui: bool) -> (m: RunMode)
    ensures
        m == if dry_run {
            RunMode::DryRun
        } else if pass_tui {
            RunMode::LiveDisplay
        } else {
            RunMode::Capture
        },
{
    if dry_run {
        RunMode::DryRun
    } else if pass_tui {
        RunMode::LiveDisplay
    } else {
        RunMode::Capture
    }
}

/// The test a run is about: chosen already, or to be chosen by the user
/// among the candidates.
pub enum RunChoice {
    Chosen(TestCase),
    Ask(Vec<TestCase>),
}

fn clone_refs(v: &Vec<&TestCase>) -> (r: Vec<TestCase>)
    ensures
        tests_view(r@) == refs_view(v@),
{
    let mut r: Vec<TestCase> = Vec::new();
    let mut i: usize = 0;
    while i < v.len()
        invariant
            i <= v@.len(),
            tests_view(r@) == refs_view(v@).take(i as int),
        decreases v.len() - i,
    {
        let ghost before = r@;
        r.push(v[i].clone());
        assert(tests_view(r@) =~= refs_view(v@).take(i + 1)) by {
            assert(tests_view(before).len() == i);
        }
        i = i + 1;
    }
    assert(refs_view(v@).take(v@.len() as int) =~= refs_view(v@));
    r
}

fn clone_tests(v: &[TestCase]) -> (r: Vec<TestCase>)
    ensures
        tests_view(r@) == tests_view(v@),
{
    let mut r: Vec<TestCase> = Vec::new();
    let mut i: usize = 0;
    while i < v.len()
        invariant
            i <= v@.len(),
            tests_view(r@) == tests_view(v@).take(i as int),
        decreases v.len() - i,
    {
        let ghost before = r@;
        r.push(v[i].clone());
        assert(tests_view(r@) =~= tests_view(v@).take(i + 1)) by {
            assert(tests_view(before).len() == i);
        }
        i = i + 1;
    }
    assert(tests_view(v@).take(v@.len() as int) =~= tests_view(v@));
    r
}

/// Chooses the test of `run` (and `export`): the test named `test_name`
/// when a name is given; otherwise, with a tag, the only test that carries
/// it, or the user's choice among those that carry it; otherwise the user's
/// choice among all tests.
pub fn choose_test(tests: &[TestCase], test_name: Option<&str>, tag: Option<&str>) -> (r: Result<RunChoice, CommandError>)
    ensures
        match test_name {
            Some(name) => match r {
                Ok(RunChoice::Chosen(t)) => exists|i: int| first_named(tests_view(tests@), name@, i) && t@ == tests@[i]@,
                Ok(RunChoice::Ask(_)) => false,
                Err(e) => (e matches CommandError::Select(SelectError::NotFound(n)) && n@ == name@)
                    && forall|i: int| 0 <= i < tests@.len() ==> (#[trigger] tests@[i])@.name != name@,
            },
            None => match tag {
                Some(g) => {
                    let f = filter_tag(tests_view(tests@), g@);
                    match r {
                        Ok(RunChoice::Chosen(t)) => f.len() == 1 && t@ == f[0],
                        Ok(RunChoice::Ask(v)) => f.len() > 1 && tests_view(v@) == f,
                        Err(e) => f.len() == 0 && (e matches CommandError::NoTestsWithTag(n) && n@ == g@),
                    }
                },
                None => r matches Ok(RunChoice::Ask(v)) && tests_view(v@) == tests_view(tests@),
            },
        },
{
    match test_name {
        Some(name) => match find_by_name(tests, name) {
            Ok(t) => Ok(RunChoice::Chosen(t.clone())),
            Err(e) => Err(CommandError::Select(e)),
        },
        None => match tag {
            Some(g) => {
                let filtered = filter_by_tag(tests, g);
                if filtered.len() == 0 {
                    Err(CommandError::NoTestsWithTag(g.to_owned()))
                } else if filtered.len() == 1 {
                    Ok(RunChoice::Chosen(filtered[0].clone()))
                } else {
                    Ok(RunChoice::Ask(clone_refs(&filtered)))
                }
            },
            None => Ok(RunChoice::Ask(clone_tests(tests))),
        },
    }
}

/// The tests of `run-all`: those that carry `tag`, or all of them; an error
/// when that leaves none.
pub fn tests_for_run_all(tests: &[TestCase], tag: Option<&str>) -> (r: Result<Vec<TestCase>, CommandError>)
    ensures
        ({
            let want = match tag {
                Some(g) => filter_tag(tests_view(tests@), g@),
                None => tests_view(tests@),
            };
            match r {
                Ok(v) => want.len() > 0 && tests_view(v@) == want,
                Err(e) => want.len() == 0 && e is NoTestsToRun,
            }
        }),
{
    let v = match tag {
        Some(g) => clone_refs(&filter_by_tag(tests, g)),
        None => clone_tests(tests),
    };
    if v.len() == 0 {
        Err(CommandError::NoTestsToRun)
    } else {
        Ok(v)
    }
}

/// Gives a test the duration and no request count.
pub open spec fn timed_test(t: TestCaseView, duration: Seq<char>) -> TestCaseView {
    TestCaseView { duration: Some(duration), requests: None, ..t }
}

/// The tests of `run-weighted`: with a number of requests, the tests of the
/// weighted distribution; otherwise, with a duration, every test running
/// for that duration; an error when the configuration has no test or
/// neither is given.
pub fn weighted_plan(tests: &[TestCase], requests: Option<u64>, duration: Option<String>) -> (r: Result<Vec<TestCase>, CommandError>)
    ensures
        tests@.len() == 0 ==> (r matches Err(e) && e is NoTestsDefined),
        tests@.len() > 0 ==> match requests {
            Some(n) => r matches Ok(v) && v@.len() == distribution_spec(weights_of(tests@), n as int).len()
                && forall|k: int| 0 <= k < v@.len() ==> {
                    let p = #[trigger] distribution_spec(weights_of(tests@), n as int)[k];
                    v@[k]@ == weighted_test(tests@[p.0 as int]@, p.1)
                },
            None => match duration {
                Some(d) => r matches Ok(v) && tests_view(v@) == tests_view(tests@).map_values(|t: TestCaseView| timed_test(t, d@)),
                None => r matches Err(e) && e is MissingAmount,
            },
        },
{
    if tests.len() == 0 {
        return Err(CommandError::NoTestsDefined);
    }
    match requests {
        Some(n) => Ok(apply_weights(tests, n)),
        None => match duration {
            Some(d) => {
                let ghost want = tests_view(tests@).map_values(|t: TestCaseView| timed_test(t, d@));
                let mut v: Vec<TestCase> = Vec::new();
                let mut i: usize = 0;
                while i < tests.len()
                    invariant
                        want == tests_view(tests@).map_values(|t: TestCaseView| timed_test(t, d@)),
                        i <= tests@.len(),
                        tests_view(v@) == want.take(i as int),
                    decreases tests.len() - i,
                {
                    let mut t = tests[i].clone();
                    t.duration = clone_opt(&Some(d.clone()));
                    t.requests = None;
                    let ghost before = v@;
                    v.push(t);
                    assert(tests_view(v@) =~= want.take(i + 1)) by {
                        assert(tests_view(before).len() == i);
                    }
                    i = i + 1;
                }
                assert(want.take(tests@.len() as int) =~= want);
                Ok(v)
            },
            None => Err(CommandError::MissingAmount),
        },
    }
}

} // verus!
