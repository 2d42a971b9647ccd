//! What loading a configuration does once the file has been parsed: the
//! test names are checked, the defaults applied and the variables expanded.

use vstd::prelude::*;
use crate::config::{Config, DefaultsView, TestCase, TestCaseView, with_defaults_spec};
use crate::env::{FieldExpandError, TestField, context_spec, expand_test_case_in, expanded_test, expansion_context, plain_block_values_kept};
use crate::strmap::{Entries, StrMap};
use crate::text::{blank, is_blank, str_eq};

verus! {

/// Why a configuration was refused.
pub enum LoadError {
    /// A test has a name made of white space only.
    EmptyName,
    /// Two tests share this name.
    DuplicateName(String),
    /// A field of a test refers to an unknown variable.
    Expand(FieldExpandError),
}

/// The views of a list of tests.
pub open spec fn tests_view(v: Seq<TestCase>) -> Seq<TestCaseView> {
    v.map_values(|t: TestCase| t@)
}

/// The names of a list of tests.
pub open spec fn names_of(v: Seq<TestCaseView>) -> Seq<Seq<char>> {
    v.map_values(|t: TestCaseView| t.name)
}

/// The first `i` names are each non-blank and each different from all
/// names before it.
pub open spec fn names_ok_upto(names: Seq<Seq<char>>, i: int) -> bool {
    forall|k: int| 0 <= k < i ==> {
        &&& !blank(#[trigger] names[k])
        &&& forall|j: int| 0 <= j < k ==> names[j] != names[k]
    }
}

/// Name `i` repeats an earlier one.
pub open spec fn repeats_earlier(names: Seq<Seq<char>>, i: int) -> bool {
    exists|j: int| 0 <= j < i && names[j] == names[i]
}

/// The names pass the check exactly when none is blank and no two are the
/// same, whatever their positions.
pub proof fn law_names_ok_iff_distinct(names: Seq<Seq<char>>)
    ensures
        names_ok_upto(names, names.len() as int) <==> (
            (forall|i: int| 0 <= i < names.len() ==> !blank(#[trigger] names[i]))
            && (forall|i: int, j: int| 0 <= i < names.len() && 0 <= j < names.len() && i != j
                ==> #[trigger] names[i] != #[trigger] names[j])),
{
    if names_ok_upto(names, names.len() as int) {
        assert forall|i: int, j: int| 0 <= i < names.len() && 0 <= j < names.len() && i != j
            implies #[trigger] names[i] != #[trigger] names[j] by {
            if i < j {
                assert(!blank(names[j]));
            } else {
                assert(!blank(names[i]));
            }
        }
    }
}

/// Checks that every test has a non-blank name and that no name is used
/// twice. The first test (in order) that breaks either rule is reported: a
/// blank name as `EmptyName`, a repeated one as `DuplicateName`.
pub fn validate_unique_names(tests: &[TestCase]) -> (r: Result<(), LoadError>)
    ensures
        r is Ok <==> names_ok_upto(names_of(tests_view(tests@)), tests@.len() as int),
        r is Ok <==> (
            (forall|i: int| 0 <= i < tests@.len() ==> !blank(#[trigger] tests@[i]@.name))
            && (forall|i: int, j: int| 0 <= i < tests@.len() && 0 <= j < tests@.len() && i != j
                ==> #[trigger] tests@[i]@.name != #[trigger] tests@[j]@.name)),
        r matches Err(LoadError::EmptyName) ==> exists|i: int| 0 <= i < tests@.len()
            && names_ok_upto(names_of(tests_view(tests@)), i) && blank(tests@[i]@.name),
        r matches Err(LoadError::DuplicateName(n)) ==> exists|i: int| 0 <= i < tests@.len()
            && names_ok_upto(names_of(tests_view(tests@)), i) && !blank(tests@[i]@.name)
            && repeats_earlier(names_of(tests_view(tests@)), i) && n@ == tests@[i]@.name,
        !(r matches Err(LoadError::Expand(_))),
{
    let ghost names = names_of(tests_view(tests@));
    proof {
        law_names_ok_iff_distinct(names);
        assert forall|i: int| 0 <= i < tests@.len() implies #[trigger] names[i] == tests@[i]@.name by {}
    }
    let n = tests.len();
    let mut i: usize = 0;
    while i < n
        invariant
            n == tests@.len(),
            i <= n,
            names == names_of(tests_view(tests@)),
            names.len() == n,
            names_ok_upto(names, i as int),
        decreases n - i,
    {
        assert(names[i as int] == tests@[i as int]@.name);
        if is_blank(tests[i].name.as_str()) {
            return Err(LoadError::EmptyName);
        }
        let mut j: usize = 0;
        while j < i
            invariant
                n == tests@.len(),
                j <= i < n,
                names == names_of(tests_view(tests@)),
                names.len() == n,
                names_ok_upto(names, i as int),
                !blank(names[i as int]),
                forall|k: int| 0 <= k < j ==> names[k] != names[i as int],
            decreases i - j,
        {
            assert(names[j as int] == tests@[j as int]@.name);
            if str_eq(tests[j].name.as_str(), tests[i].name.as_str()) {
                assert(repeats_earlier(names, i as int));
                return Err(LoadError::DuplicateName(tests[i].name.clone()));
            }
            j = j + 1;
        }
        i = i + 1;
    }
    proof {
        assert forall|a: int| 0 <= a < tests@.len() implies !blank(#[trigger] tests@[a]@.name) by {
            assert(names[a] == tests@[a]@.name);
        }
        assert forall|a: int, b: int| 0 <= a < tests@.len() && 0 <= b < tests@.len() && a != b
            implies #[trigger] tests@[a]@.name != #[trigger] tests@[b]@.name by {
            assert(names[a] == tests@[a]@.name && names[b] == tests@[b]@.name);
        }
    }
    Ok(())
}

/// The tests with the defaults applied and their fields expanded, in order,
/// or the name of the first test that fails, with its field and variable.
pub open spec fn resolved_tests(tests: Seq<TestCaseView>, d: DefaultsView, ctx: Entries) -> Result<Seq<TestCaseView>, (Seq<char>, TestField, Seq<char>)>
    decreases tests.len(),
{
    if tests.len() == 0 {
        Ok(Seq::empty())
    } else {
        match resolved_tests(tests.drop_last(), d, ctx) {
            Err(e) => Err(e),
            Ok(prefix) => match expanded_test(with_defaults_spec(tests.last(), d), ctx) {
                Ok(t) => Ok(prefix.push(t)),
                Err((f, n)) => Err((tests.last().name, f, n)),
            },
        }
    }
}

/// Loading keeps the tests, their order and their names: the names of the
/// loaded tests are those of the file, so they stay non-blank and distinct.
pub proof fn law_loading_keeps_names(tests: Seq<TestCaseView>, d: DefaultsView, ctx: Entries)
    requires
        resolved_tests(tests, d, ctx) is Ok,
    ensures
        names_of(resolved_tests(tests, d, ctx)->Ok_0) == names_of(tests),
    decreases tests.len(),
{
    if tests.len() > 0 {
        let p = tests.drop_last();
        assert(resolved_tests(p, d, ctx) is Ok);
        law_loading_keeps_names(p, d, ctx);
        let rs = resolved_tests(tests, d, ctx)->Ok_0;
        let rp = resolved_tests(p, d, ctx)->Ok_0;
        let t = expanded_test(with_defaults_spec(tests.last(), d), ctx)->Ok_0;
        assert(rs == rp.push(t));
        assert(t.name == tests.last().name);
        assert(names_of(rs) =~= names_of(rp).push(t.name));
        assert(names_of(tests) =~= names_of(p).push(tests.last().name));
    } else {
        assert(names_of(resolved_tests(tests, d, ctx)->Ok_0) =~= names_of(tests));
    }
}

proof fn lemma_resolved_error_stays(tests: Seq<TestCaseView>, d: DefaultsView, ctx: Entries, k: int)
    requires
        0 <= k <= tests.len(),
        resolved_tests(tests.take(k), d, ctx) is Err,
    ensures
        resolved_tests(tests, d, ctx) == resolved_tests(tests.take(k), d, ctx),
    decreases tests.len() - k,
{
    if k < tests.len() {
        assert(tests.take(k + 1).drop_last() =~= tests.take(k));
        lemma_resolved_error_stays(tests, d, ctx, k + 1);
    } else {
        assert(tests.take(k) =~= tests);
    }
}

/// Finishes loading a parsed configuration: checks the test names, applies
/// the defaults to every test and expands its variables against the
/// process environment (`system_env`) and the file's `env` block. The
/// `env` block and the defaults are kept as they are.
pub fn resolve_config(config: Config, system_env: &StrMap) -> (r: Result<Config, LoadError>)
    ensures
        match r {
            Ok(c) => names_ok_upto(names_of(tests_view(config.tests@)), config.tests@.len() as int)
                && resolved_tests(tests_view(config.tests@), config.defaults@, context_spec(system_env@, config.env@))
                    == Ok::<Seq<TestCaseView>, (Seq<char>, TestField, Seq<char>)>(tests_view(c.tests@))
                && c.env@ == config.env@ && c.defaults@ == config.defaults@,
            Err(LoadError::Expand(e)) => names_ok_upto(names_of(tests_view(config.tests@)), config.tests@.len() as int)
                && resolved_tests(tests_view(config.tests@), config.defaults@, context_spec(system_env@, config.env@))
                    == Err::<Seq<TestCaseView>, (Seq<char>, TestField, Seq<char>)>((e.test_name@, e.field, e.var_name@)),
            Err(LoadError::EmptyName) => exists|i: int| 0 <= i < config.tests@.len()
                && names_ok_upto(names_of(tests_view(config.tests@)), i) && blank(config.tests@[i]@.name),
            Err(LoadError::DuplicateName(nm)) => exists|i: int| 0 <= i < config.tests@.len()
                && names_ok_upto(names_of(tests_view(config.tests@)), i) && !blank(config.tests@[i]@.name)
                && repeats_earlier(names_of(tests_view(config.tests@)), i) && nm@ == config.tests@[i]@.name,
        },
        plain_block_values_kept(context_spec(system_env@, config.env@), system_env@, config.env@),
{
    let Config { env, defaults, tests } = config;
    let ctx = expansion_context(system_env, &env);
    match validate_unique_names(tests.as_slice()) {
        Ok(()) => {},
        Err(e) => return Err(e),
    }
    let ghost tv = tests_view(tests@);
    let mut out: Vec<TestCase> = Vec::new();
    let n = tests.len();
    let mut i: usize = 0;
    assert(tv.take(0) =~= Seq::<TestCaseView>::empty());
    assert(tests_view(out@) =~= Seq::<TestCaseView>::empty());
    while i < n
        invariant
            n == tests@.len(),
            i <= n,
            tv == tests_view(tests@),
            tests@ == config.tests@,
            env@ == config.env@,
            defaults@ == config.defaults@,
            names_ok_upto(names_of(tv), n as int),
            ctx@ == context_spec(system_env@, env@),
            plain_block_values_kept(context_spec(system_env@, config.env@), system_env@, config.env@),
            resolved_tests(tv.take(i as int), defaults@, ctx@)
                == Ok::<Seq<TestCaseView>, (Seq<char>, TestField, Seq<char>)>(tests_view(out@)),
        decreases n - i,
    {
        let mut merged = tests[i].with_defaults(&defaults);
        assert(tv.take(i + 1).drop_last() =~= tv.take(i as int));
        assert(tv.take(i + 1).last() == tests@[i as int]@);
        match expand_test_case_in(&mut merged, &ctx) {
            Ok(()) => {},
            Err(e) => {
                assert(e.test_name@ == tv.take(i + 1).last().name);
                proof { lemma_resolved_error_stays(tv, defaults@, ctx@, i + 1); }
                return Err(LoadError::Expand(e));
            },
        }
        let ghost before = out@;
        out.push(merged);
        assert(tests_view(out@) =~= tests_view(before).push(merged@));
        i = i + 1;
    }
    assert(tv.take(n as int) =~= tv);
    Ok(Config { env, defaults, tests: out })
}

} // verus!
