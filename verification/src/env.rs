//! `${VAR}` expansion of test fields. Variables come from a snapshot of the
//! process environment and from the `env` block of the configuration; the
//! process environment wins. The expansion itself is done by `shellexpand`.

use vstd::prelude::*;
use crate::config::{TestCase, TestCaseView, clone_opt, opt_view};
use crate::strmap::{Entries, StrMap, extend_entries, first_key_at, has_key, key_index, keys_unique, lemma_extend_unique, lemma_key_index, lemma_lookup_extend, lookup};

verus! {

/// What `shellexpand::env_with_context` returns for `input` when each
/// variable name is looked up in `vars`, a name that is not bound there being
/// an error: the expanded text, or the name of the first variable that could
/// not be looked up.
pub uninterp spec fn env_expansion(input: Seq<char>, vars: Entries) -> Result<Seq<char>, Seq<char>>;

/// The answer given to `shellexpand` for variable `name`: its value, or an
/// error when `vars` does not bind it.
fn context_lookup(vars: &StrMap, name: &str) -> (r: Result<Option<String>, ()>)
    ensures
        match r {
            Ok(Some(v)) => lookup(vars@, name@) == Some(v@),
            Ok(None) => false,
            Err(_) => lookup(vars@, name@) is None,
        },
{
    let key = name.to_owned();
    match vars.get(&key) {
        Some(v) => Ok(Some(v.clone())),
        None => Err(()),
    }
}

/// Trusted: `shellexpand::env_with_context`, called with a context that
/// answers each variable from `vars` (an error for an unbound name). The
/// result, or the name carried by the `LookupError`, is named by
/// `env_expansion`; an input without `$` comes back unchanged (the crate
/// returns the input as is when it finds no `$`).
#[verifier::external_body]
fn shell_expand(input: &str, vars: &StrMap) -> (r: Result<String, String>)
    ensures
        r matches Ok(s) ==> env_expansion(input@, vars@) == text_ok(s@),
        r matches Err(n) ==> env_expansion(input@, vars@) == text_err(n@),
        r is Ok || has_dollar(input@),
        r matches Ok(s) ==> s@ == input@ || has_dollar(input@),
{
    match shellexpand::env_with_context(input, |name: &str| context_lookup(vars, name)) {
        Ok(s) => Ok(s.into_owned()),
        Err(e) => Err(e.var_name),
    }
}

/// A successful expansion to `s`.
pub open spec fn text_ok(s: Seq<char>) -> Result<Seq<char>, Seq<char>> {
    Ok(s)
}

/// An expansion that failed on variable `n`.
pub open spec fn text_err(n: Seq<char>) -> Result<Seq<char>, Seq<char>> {
    Err(n)
}

/// Whether a text holds a `$`, the character that starts a variable.
pub open spec fn has_dollar(s: Seq<char>) -> bool {
    s.contains('$')
}

/// The value a variable of the `env` block stands for: its text expanded
/// against the process environment, or the text itself when that fails.
pub open spec fn block_value(v: Seq<char>, system: Entries) -> Seq<char> {
    match env_expansion(v, system) {
        Ok(s) => s,
        Err(_) => v,
    }
}

/// The variables visible to expansion: those of the `env` block (with their
/// values expanded against the process environment), overridden by the
/// process environment.
pub open spec fn context_spec(system: Entries, block: Entries) -> Entries {
    extend_entries(
        extend_entries(
            Seq::empty(),
            block.map_values(|p: (Seq<char>, Seq<char>)| (p.0, block_value(p.1, system))),
        ),
        system,
    )
}

/// Looking a key up in the `env` block after its values were expanded.
proof fn lemma_lookup_block(system: Entries, block: Entries, q: Seq<char>)
    ensures
        ({
            let m = block.map_values(|p: (Seq<char>, Seq<char>)| (p.0, block_value(p.1, system)));
            &&& (keys_unique(block) ==> keys_unique(m))
            &&& lookup(m, q) == match lookup(block, q) {
                Some(v) => Some(block_value(v, system)),
                None => None::<Seq<char>>,
            }
        }),
{
    let m = block.map_values(|p: (Seq<char>, Seq<char>)| (p.0, block_value(p.1, system)));
    assert forall|i: int| 0 <= i < m.len() implies (#[trigger] m[i]).0 == block[i].0 by {}
    if keys_unique(block) {
        assert forall|i: int, j: int| 0 <= i < m.len() && 0 <= j < m.len() && i != j implies (#[trigger] m[i]).0 != (#[trigger] m[j]).0 by {
            assert(m[i].0 == block[i].0 && m[j].0 == block[j].0);
        }
    }
    if has_key(block, q) {
        lemma_key_index(block, q);
        let f = key_index(block, q);
        assert(first_key_at(m, q, f)) by {
            assert forall|j: int| 0 <= j < f implies (#[trigger] m[j]).0 != q by {
                assert(m[j].0 == block[j].0);
            }
        }
        lemma_key_index(m, q);
    } else {
        assert forall|i: int| 0 <= i < m.len() implies (#[trigger] m[i]).0 != q by {
            assert(m[i].0 == block[i].0);
        }
    }
}

/// A variable of the process environment wins over one of the same name in
/// the `env` block; a variable only the block defines stands for its value
/// expanded against the process environment; any other is unknown.
pub proof fn law_process_env_wins(system: Entries, block: Entries, name: Seq<char>)
    requires
        keys_unique(system),
        keys_unique(block),
    ensures
        lookup(context_spec(system, block), name) == if has_key(system, name) {
            lookup(system, name)
        } else {
            match lookup(block, name) {
                Some(v) => Some(block_value(v, system)),
                None => None::<Seq<char>>,
            }
        },
{
    let m = block.map_values(|p: (Seq<char>, Seq<char>)| (p.0, block_value(p.1, system)));
    lemma_lookup_block(system, block, name);
    let e = Seq::<(Seq<char>, Seq<char>)>::empty();
    assert(keys_unique(e));
    lemma_lookup_extend(e, m, name);
    assert(!has_key(e, name));
    lemma_extend_unique(e, m);
    lemma_lookup_extend(extend_entries(e, m), system, name);
    if !has_key(m, name) {
        assert(lookup(m, name) is None);
    }
}

/// Every variable that only the `env` block defines, with a value free of
/// `$`, stands for that value as written.
pub open spec fn plain_block_values_kept(ctx: Entries, system: Entries, block: Entries) -> bool {
    forall|name: Seq<char>|
        #![trigger lookup(ctx, name)]
        #![trigger lookup(block, name)]
        !has_key(system, name) && lookup(block, name) is Some && !has_dollar(lookup(block, name)->Some_0)
            ==> lookup(ctx, name) == lookup(block, name)
}

/// Builds the variables visible to expansion.
pub fn expansion_context(system_env: &StrMap, yaml_env: &StrMap) -> (ctx: StrMap)
    ensures
        ctx@ == context_spec(system_env@, yaml_env@),
        forall|name: Seq<char>| #[trigger] lookup(ctx@, name) == if has_key(system_env@, name) {
            lookup(system_env@, name)
        } else {
            match lookup(yaml_env@, name) {
                Some(v) => Some(block_value(v, system_env@)),
                None => None::<Seq<char>>,
            }
        },
        plain_block_values_kept(ctx@, system_env@, yaml_env@),
{
    proof {
        use_type_invariant(system_env);
        use_type_invariant(yaml_env);
        assert forall|name: Seq<char>| #[trigger] lookup(context_spec(system_env@, yaml_env@), name) == if has_key(system_env@, name) {
            lookup(system_env@, name)
        } else {
            match lookup(yaml_env@, name) {
                Some(v) => Some(block_value(v, system_env@)),
                None => None::<Seq<char>>,
            }
        } by {
            law_process_env_wins(system_env@, yaml_env@, name);
        }
    }
    let ghost block = yaml_env@.map_values(|p: (Seq<char>, Seq<char>)| (p.0, block_value(p.1, system_env@)));
    let mut ctx = StrMap::new();
    let n = yaml_env.len();
    let mut i: usize = 0;
    while i < n
        invariant
            n == yaml_env@.len(),
            i <= n,
            block == yaml_env@.map_values(|p: (Seq<char>, Seq<char>)| (p.0, block_value(p.1, system_env@))),
            ctx@ == extend_entries(Seq::empty(), block.take(i as int)),
            forall|k: int| 0 <= k < i && !has_dollar(#[trigger] yaml_env@[k].1)
                ==> block_value(yaml_env@[k].1, system_env@) == yaml_env@[k].1,
        decreases n - i,
    {
        let raw = yaml_env.value_at(i);
        let value = match shell_expand(raw.as_str(), system_env) {
            Ok(s) => s,
            Err(_) => raw.clone(),
        };
        ctx.insert(yaml_env.key_at(i).clone(), value);
        assert(block.take(i + 1).drop_last() =~= block.take(i as int));
        i = i + 1;
    }
    assert(block.take(n as int) =~= block);
    ctx.extend(system_env);
    proof {
        assert forall|name: Seq<char>|
            !has_key(system_env@, name) && lookup(yaml_env@, name) is Some && !has_dollar(lookup(yaml_env@, name)->Some_0)
            implies lookup(ctx@, name) == lookup(yaml_env@, name) by {
            lemma_key_index(yaml_env@, name);
            let f = key_index(yaml_env@, name);
            assert(!has_dollar(yaml_env@[f].1));
        }
    }
    ctx
}

/// Why a text could not be expanded: the variable it refers to is defined
/// neither in the process environment nor in the `env` block.
pub struct ExpandError {
    pub var_name: String,
}

fn expand_in(input: &str, ctx: &StrMap) -> (r: Result<String, ExpandError>)
    ensures
        match r {
            Ok(s) => env_expansion(input@, ctx@) == Ok::<Seq<char>, Seq<char>>(s@),
            Err(e) => env_expansion(input@, ctx@) == Err::<Seq<char>, Seq<char>>(e.var_name@),
        },
        !has_dollar(input@) ==> (r matches Ok(s) && s@ == input@),
{
    match shell_expand(input, ctx) {
        Ok(s) => Ok(s),
        Err(n) => Err(ExpandError { var_name: n }),
    }
}

/// Expands `${VAR}` and `$VAR` in `input`. A variable of the process
/// environment (`system_env`) wins over one of the `env` block
/// (`yaml_env`); an unknown variable is an error.
pub fn expand(input: &str, system_env: &StrMap, yaml_env: &StrMap) -> (r: Result<String, ExpandError>)
    ensures
        match r {
            Ok(s) => env_expansion(input@, context_spec(system_env@, yaml_env@)) == Ok::<Seq<char>, Seq<char>>(s@),
            Err(e) => env_expansion(input@, context_spec(system_env@, yaml_env@)) == Err::<Seq<char>, Seq<char>>(e.var_name@),
        },
        !has_dollar(input@) ==> (r matches Ok(s) && s@ == input@),
        plain_block_values_kept(context_spec(system_env@, yaml_env@), system_env@, yaml_env@),
{
    let ctx = expansion_context(system_env, yaml_env);
    expand_in(input, &ctx)
}

/// The fields of a test that take part in expansion.
#[derive(Debug, Clone, Copy, PartialEq, Eq)]
pub enum TestField {
    Url,
    Headers,
    QueryParams,
    Body,
    BodyFile,
}

/// A field of a test could not be expanded.
pub struct FieldExpandError {
    pub test_name: String,
    pub field: TestField,
    pub var_name: String,
}

/// The values of `s` expanded in order, or the name of the first variable
/// that could not be looked up.
pub open spec fn expand_values(s: Entries, ctx: Entries) -> Result<Entries, Seq<char>>
    decreases s.len(),
{
    if s.len() == 0 {
        Ok(Seq::empty())
    } else {
        match expand_values(s.drop_last(), ctx) {
            Err(n) => Err(n),
            Ok(prefix) => match env_expansion(s.last().1, ctx) {
                Ok(v) => Ok(prefix.push((s.last().0, v))),
                Err(n) => Err(n),
            },
        }
    }
}

/// An optional text, expanded when present.
pub open spec fn expand_opt(o: Option<Seq<char>>, ctx: Entries) -> Result<Option<Seq<char>>, Seq<char>> {
    match o {
        None => Ok(None),
        Some(s) => match env_expansion(s, ctx) {
            Ok(v) => Ok(Some(v)),
            Err(n) => Err(n),
        },
    }
}

/// A test with its url, header values, query parameter values, body and
/// body file expanded, or the first field (in that order) that fails and the
/// variable it failed on.
pub open spec fn expanded_test(t: TestCaseView, ctx: Entries) -> Result<TestCaseView, (TestField, Seq<char>)> {
    match env_expansion(t.url, ctx) {
        Err(n) => Err((TestField::Url, n)),
        Ok(url) => match expand_values(t.headers, ctx) {
            Err(n) => Err((TestField::Headers, n)),
            Ok(headers) => match expand_values(t.query_params, ctx) {
                Err(n) => Err((TestField::QueryParams, n)),
                Ok(query_params) => match expand_opt(t.body, ctx) {
                    Err(n) => Err((TestField::Body, n)),
                    Ok(body) => match expand_opt(t.body_file, ctx) {
                        Err(n) => Err((TestField::BodyFile, n)),
                        Ok(body_file) => Ok(TestCaseView { url, headers, query_params, body, body_file, ..t }),
                    },
                },
            },
        },
    }
}

/// No value of `s` holds a `$`.
pub open spec fn values_plain(s: Entries) -> bool {
    forall|i: int| 0 <= i < s.len() ==> !(#[trigger] s[i]).1.contains('$')
}

/// No field that takes part in expansion holds a `$`.
pub open spec fn test_plain(t: TestCaseView) -> bool {
    &&& !t.url.contains('$')
    &&& values_plain(t.headers)
    &&& values_plain(t.query_params)
    &&& (t.body matches Some(b) ==> !b.contains('$'))
    &&& (t.body_file matches Some(b) ==> !b.contains('$'))
}

/// The values of `s` as expansion leaves them: expanded in order up to the
/// first that fails; that one and all after it unchanged.
pub open spec fn expand_values_partial(s: Entries, ctx: Entries) -> Entries
    decreases s.len(),
{
    if s.len() == 0 {
        s
    } else {
        let p = expand_values_partial(s.drop_last(), ctx);
        if expand_values(s.drop_last(), ctx) is Ok && env_expansion(s.last().1, ctx) is Ok {
            p.push((s.last().0, env_expansion(s.last().1, ctx)->Ok_0))
        } else {
            p.push(s.last())
        }
    }
}

/// A test as expansion leaves it: each field in turn (url, header values,
/// query parameter values, body, body file) takes its expanded value; the
/// first field that fails keeps the values expanded before the failing
/// one (for a map) or its old value, and the fields after it stay as they
/// were.
pub open spec fn expansion_state(t: TestCaseView, ctx: Entries) -> TestCaseView {
    match env_expansion(t.url, ctx) {
        Err(_) => t,
        Ok(url) => match expand_values(t.headers, ctx) {
            Err(_) => TestCaseView { url, headers: expand_values_partial(t.headers, ctx), ..t },
            Ok(headers) => match expand_values(t.query_params, ctx) {
                Err(_) => TestCaseView { url, headers, query_params: expand_values_partial(t.query_params, ctx), ..t },
                Ok(query_params) => match expand_opt(t.body, ctx) {
                    Err(_) => TestCaseView { url, headers, query_params, ..t },
                    Ok(body) => match expand_opt(t.body_file, ctx) {
                        Err(_) => TestCaseView { url, headers, query_params, body, ..t },
                        Ok(body_file) => TestCaseView { url, headers, query_params, body, body_file, ..t },
                    },
                },
            },
        },
    }
}

proof fn lemma_partial_ok(s: Entries, ctx: Entries)
    requires
        expand_values(s, ctx) is Ok,
    ensures
        expand_values_partial(s, ctx) == expand_values(s, ctx)->Ok_0,
    decreases s.len(),
{
    if s.len() > 0 {
        lemma_partial_ok(s.drop_last(), ctx);
    }
}

proof fn lemma_partial_rest(s: Entries, ctx: Entries, k: int)
    requires
        0 < k <= s.len(),
        expand_values(s.take(k), ctx) is Err,
    ensures
        expand_values_partial(s, ctx) == expand_values_partial(s.take(k), ctx) + s.skip(k),
    decreases s.len() - k,
{
    if k == s.len() {
        assert(s.take(k) =~= s);
        assert(expand_values_partial(s, ctx) + s.skip(k) =~= expand_values_partial(s, ctx));
    } else {
        assert(s.take(k + 1).drop_last() =~= s.take(k));
        assert(s.take(k + 1).last() == s[k]);
        lemma_partial_rest(s, ctx, k + 1);
        assert(expand_values_partial(s.take(k), ctx).push(s[k]) + s.skip(k + 1)
            =~= expand_values_partial(s.take(k), ctx) + s.skip(k));
    }
}

fn expand_map(m: &mut StrMap, ctx: &StrMap) -> (r: Result<(), String>)
    ensures
        match r {
            Ok(()) => expand_values(old(m)@, ctx@) == Ok::<Entries, Seq<char>>(final(m)@),
            Err(n) => expand_values(old(m)@, ctx@) == Err::<Entries, Seq<char>>(n@),
        },
        final(m)@ == expand_values_partial(old(m)@, ctx@),
        values_plain(old(m)@) ==> (r is Ok && final(m)@ == old(m)@),
{
    let ghost m0 = m@;
    let n = m.len();
    let mut i: usize = 0;
    assert(m0.take(0) =~= Seq::<(Seq<char>, Seq<char>)>::empty());
    assert(m@.take(0) =~= Seq::<(Seq<char>, Seq<char>)>::empty());
    assert(m@.skip(0) =~= m@);
    while i < n
        invariant
            m0 == old(m)@,
            n == m0.len(),
            i <= n,
            m@.len() == n,
            expand_values(m0.take(i as int), ctx@) == Ok::<Entries, Seq<char>>(m@.take(i as int)),
            m@.skip(i as int) == m0.skip(i as int),
            values_plain(m0) ==> m@ == m0,
        decreases n - i,
    {
        assert(m0.take(i + 1).drop_last() =~= m0.take(i as int));
        assert(m0.take(i + 1).last() == m0[i as int]);
        assert(m@[i as int] == m0[i as int]) by {
            assert(m@.skip(i as int)[0] == m0.skip(i as int)[0]);
        }
        match expand_in(m.value_at(i).as_str(), ctx) {
            Ok(v) => {
                let ghost before = m@;
                m.set_value_at(i, v);
                assert(m@.take(i + 1) =~= before.take(i as int).push((m0[i as int].0, v@)));
                assert(m@.skip(i + 1) =~= m0.skip(i + 1)) by {
                    assert forall|j: int| 0 <= j < m@.skip(i + 1).len() implies #[trigger] m@.skip(i + 1)[j] == m0.skip(i + 1)[j] by {
                        assert(before.skip(i as int)[j + 1] == m0.skip(i as int)[j + 1]);
                    }
                }
                proof {
                    if values_plain(m0) {
                        assert(!m0[i as int].1.contains('$'));
                        assert(m@ =~= before);
                    }
                }
            },
            Err(e) => {
                proof {
                    if values_plain(m0) {
                        assert(!m0[i as int].1.contains('$'));
                    }
                }
                assert(expand_values(m0.take(i + 1), ctx@) == Err::<Entries, Seq<char>>(e.var_name@));
                proof {
                    lemma_expand_values_error_stays(m0, ctx@, i as int + 1, e.var_name@);
                    lemma_partial_ok(m0.take(i as int), ctx@);
                    lemma_partial_rest(m0, ctx@, i as int + 1);
                    assert(m@ =~= m@.take(i as int).push(m0[i as int]) + m0.skip(i + 1)) by {
                        assert(m@.skip(i as int) =~= m0.skip(i as int));
                        assert forall|j: int| i < j < n implies m@[j] == m0[j] by {
                            assert(m@.skip(i as int)[j - i] == m0.skip(i as int)[j - i]);
                        }
                    }
                }
                return Err(e.var_name);
            },
        }
        i = i + 1;
    }
    assert(m0.take(n as int) =~= m0);
    assert(m@.take(n as int) =~= m@);
    proof { lemma_partial_ok(m0, ctx@); }
    Ok(())
}

/// Once a prefix fails, every longer prefix fails on the same variable.
proof fn lemma_expand_values_error_stays(s: Entries, ctx: Entries, k: int, n: Seq<char>)
    requires
        0 <= k <= s.len(),
        expand_values(s.take(k), ctx) == Err::<Entries, Seq<char>>(n),
    ensures
        expand_values(s, ctx) == Err::<Entries, Seq<char>>(n),
    decreases s.len() - k,
{
    if k < s.len() {
        assert(s.take(k + 1).drop_last() =~= s.take(k));
        lemma_expand_values_error_stays(s, ctx, k + 1, n);
    } else {
        assert(s.take(k) =~= s);
    }
}

fn expand_opt_in(o: &Option<String>, ctx: &StrMap) -> (r: Result<Option<String>, String>)
    ensures
        match r {
            Ok(v) => expand_opt(opt_view(*o), ctx@) == Ok::<Option<Seq<char>>, Seq<char>>(opt_view(v)),
            Err(n) => expand_opt(opt_view(*o), ctx@) == Err::<Option<Seq<char>>, Seq<char>>(n@),
        },
        (opt_view(*o) matches Some(b) ==> !b.contains('$')) ==> (r matches Ok(v) && opt_view(v) == opt_view(*o)),
{
    match o {
        None => Ok(None),
        Some(s) => match expand_in(s.as_str(), ctx) {
            Ok(v) => Ok(Some(v)),
            Err(e) => Err(e.var_name),
        },
    }
}

fn field_error(test: &TestCase, field: TestField, var_name: String) -> (e: FieldExpandError)
    ensures
        e.test_name@ == test.name@,
        e.field == field,
        e.var_name@ == var_name@,
{
    FieldExpandError { test_name: test.name.clone(), field, var_name }
}

/// Expands a test against prepared variables; see `expand_test_case`.
pub fn expand_test_case_in(test: &mut TestCase, ctx: &StrMap) -> (r: Result<(), FieldExpandError>)
    ensures
        match expanded_test(old(test)@, ctx@) {
            Ok(t) => r is Ok && final(test)@ == t,
            Err((field, n)) => r matches Err(e) && e.field == field && e.var_name@ == n
                && e.test_name@ == old(test)@.name,
        },
        final(test)@ == expansion_state(old(test)@, ctx@),
        test_plain(old(test)@) ==> (r is Ok && final(test)@ == old(test)@),
{
    match expand_in(test.url.as_str(), ctx) {
        Ok(s) => test.url = s,
        Err(e) => return Err(field_error(test, TestField::Url, e.var_name)),
    }
    match expand_map(&mut test.headers, ctx) {
        Ok(()) => {},
        Err(n) => return Err(field_error(test, TestField::Headers, n)),
    }
    match expand_map(&mut test.query_params, ctx) {
        Ok(()) => {},
        Err(n) => return Err(field_error(test, TestField::QueryParams, n)),
    }
    match expand_opt_in(&test.body, ctx) {
        Ok(b) => test.body = b,
        Err(n) => return Err(field_error(test, TestField::Body, n)),
    }
    match expand_opt_in(&test.body_file, ctx) {
        Ok(b) => test.body_file = b,
        Err(n) => return Err(field_error(test, TestField::BodyFile, n)),
    }
    Ok(())
}

/// Expands the url, the header values, the query parameter values, the body
/// and the body file of a test, in that order. On failure the error names
/// the test, the first failing field and the variable; the fields before it
/// keep their expanded values (see `expansion_state`).
pub fn expand_test_case(test: &mut TestCase, system_env: &StrMap, yaml_env: &StrMap) -> (r: Result<(), FieldExpandError>)
    ensures
        match expanded_test(old(test)@, context_spec(system_env@, yaml_env@)) {
            Ok(t) => r is Ok && final(test)@ == t,
            Err((field, n)) => r matches Err(e) && e.field == field && e.var_name@ == n
                && e.test_name@ == old(test)@.name,
        },
        final(test)@ == expansion_state(old(test)@, context_spec(system_env@, yaml_env@)),
        test_plain(old(test)@) ==> (r is Ok && final(test)@ == old(test)@),
        plain_block_values_kept(context_spec(system_env@, yaml_env@), system_env@, yaml_env@),
{
    let ctx = expansion_context(system_env, yaml_env);
    expand_test_case_in(test, &ctx)
}

} // verus!
