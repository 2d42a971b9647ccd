//! The configuration model: one load test (`TestCase`), the defaults that
//! apply to every test (`Defaults`) and the whole file (`Config`).

use vstd::prelude::*;
use crate::strmap::{Entries, StrMap, extend_entries, has_key, keys_unique, lemma_extend_absorbs, lemma_extend_empty, lemma_extend_keeps_front, lemma_extend_unique, lemma_lookup_extend, lookup};
use crate::text::{contains_char, join};

verus! {

/// The view of an optional string.
pub open spec fn opt_view(o: Option<String>) -> Option<Seq<char>> {
    match o {
        Some(s) => Some(s@),
        None => None,
    }
}

/// The view of a list of strings.
pub open spec fn strings_view(v: Seq<String>) -> Seq<Seq<char>> {
    v.map_values(|s: String| s@)
}

/// Appending a string appends its view.
pub proof fn lemma_strings_view_push(v: Seq<String>, s: String)
    ensures
        strings_view(v.push(s)) == strings_view(v).push(s@),
{
    assert(strings_view(v.push(s)) =~= strings_view(v).push(s@));
}

/// A copy of an optional string.
pub fn clone_opt(o: &Option<String>) -> (r: Option<String>)
    ensures
        opt_view(r) == opt_view(*o),
{
    match o {
        Some(s) => Some(s.clone()),
        None => None,
    }
}

/// A copy of a list of strings.
pub fn clone_strings(v: &Vec<String>) -> (r: Vec<String>)
    ensures
        strings_view(r@) == strings_view(v@),
{
    let mut r: Vec<String> = Vec::new();
    let mut i: usize = 0;
    while i < v.len()
        invariant
            i <= v@.len(),
            strings_view(r@) == strings_view(v@.take(i as int)),
        decreases v.len() - i,
    {
        let ghost before = r@;
        assert(before.len() == i) by {
            assert(strings_view(before).len() == before.len());
            assert(strings_view(v@.take(i as int)).len() == i);
        }
        r.push(v[i].clone());
        assert(strings_view(r@) =~= strings_view(v@.take(i + 1))) by {
            assert(r@ == before.push(v@[i as int]));
            assert forall|j: int| 0 <= j < i implies strings_view(r@)[j] == strings_view(v@.take(i + 1))[j] by {
                assert(r@[j] == before[j]);
                assert(strings_view(before)[j] == strings_view(v@.take(i as int))[j]);
            }
        }
        i = i + 1;
    }
    assert(v@.take(i as int) =~= v@);
    r
}

/// One load test, as described in the configuration file.
///
/// `query_per_second` holds the rate as the decimal text that is handed to
/// `oha -q`. `weight` is the test's share in weighted runs, in millionths
/// (a configured weight of `1.0` is `1_000_000`).
pub struct TestCase {
    pub name: String,
    pub description: Option<String>,
    pub method: String,
    pub url: String,
    pub query_params: StrMap,
    pub headers: StrMap,
    pub body: Option<String>,
    pub body_file: Option<String>,
    pub requests: Option<u64>,
    pub connections: Option<u64>,
    pub duration: Option<String>,
    pub query_per_second: Option<String>,
    pub timeout: Option<String>,
    pub weight: i64,
    pub tags: Vec<String>,
    pub http2: Option<bool>,
    pub disable_keepalive: Option<bool>,
    pub insecure: Option<bool>,
}

/// The mathematical value of a `TestCase`.
pub struct TestCaseView {
    pub name: Seq<char>,
    pub description: Option<Seq<char>>,
    pub method: Seq<char>,
    pub url: Seq<char>,
    pub query_params: Entries,
    pub headers: Entries,
    pub body: Option<Seq<char>>,
    pub body_file: Option<Seq<char>>,
    pub requests: Option<u64>,
    pub connections: Option<u64>,
    pub duration: Option<Seq<char>>,
    pub query_per_second: Option<Seq<char>>,
    pub timeout: Option<Seq<char>>,
    pub weight: i64,
    pub tags: Seq<Seq<char>>,
    pub http2: Option<bool>,
    pub disable_keepalive: Option<bool>,
    pub insecure: Option<bool>,
}

impl View for TestCase {
    type V = TestCaseView;

    open spec fn view(&self) -> TestCaseView {
        TestCaseView {
            name: self.name@,
            description: opt_view(self.description),
            method: self.method@,
            url: self.url@,
            query_params: self.query_params@,
            headers: self.headers@,
            body: opt_view(self.body),
            body_file: opt_view(self.body_file),
            requests: self.requests,
            connections: self.connections,
            duration: opt_view(self.duration),
            query_per_second: opt_view(self.query_per_second),
            timeout: opt_view(self.timeout),
            weight: self.weight,
            tags: strings_view(self.tags@),
            http2: self.http2,
            disable_keepalive: self.disable_keepalive,
            insecure: self.insecure,
        }
    }
}

impl Clone for TestCase {
    fn clone(&self) -> (r: TestCase)
        ensures
            r@ == self@,
    {
        TestCase {
            name: self.name.clone(),
            description: clone_opt(&self.description),
            method: self.method.clone(),
            url: self.url.clone(),
            query_params: self.query_params.clone(),
            headers: self.headers.clone(),
            body: clone_opt(&self.body),
            body_file: clone_opt(&self.body_file),
            requests: self.requests,
            connections: self.connections,
            duration: clone_opt(&self.duration),
            query_per_second: clone_opt(&self.query_per_second),
            timeout: clone_opt(&self.timeout),
            weight: self.weight,
            tags: clone_strings(&self.tags),
            http2: self.http2,
            disable_keepalive: self.disable_keepalive,
            insecure: self.insecure,
        }
    }
}

/// Values applied to every test that does not set its own.
pub struct Defaults {
    pub requests: Option<u64>,
    pub connections: Option<u64>,
    pub duration: Option<String>,
    pub headers: StrMap,
    pub query_per_second: Option<String>,
    pub timeout: Option<String>,
    pub http2: Option<bool>,
    pub disable_keepalive: Option<bool>,
    pub insecure: Option<bool>,
}

/// The mathematical value of `Defaults`.
pub struct DefaultsView {
    pub requests: Option<u64>,
    pub connections: Option<u64>,
    pub duration: Option<Seq<char>>,
    pub headers: Entries,
    pub query_per_second: Option<Seq<char>>,
    pub timeout: Option<Seq<char>>,
    pub http2: Option<bool>,
    pub disable_keepalive: Option<bool>,
    pub insecure: Option<bool>,
}

impl View for Defaults {
    type V = DefaultsView;

    open spec fn view(&self) -> DefaultsView {
        DefaultsView {
            requests: self.requests,
            connections: self.connections,
            duration: opt_view(self.duration),
            headers: self.headers@,
            query_per_second: opt_view(self.query_per_second),
            timeout: opt_view(self.timeout),
            http2: self.http2,
            disable_keepalive: self.disable_keepalive,
            insecure: self.insecure,
        }
    }
}

impl Default for Defaults {
    /// No default at all: what a configuration without a `defaults` block
    /// gets.
    fn default() -> (d: Defaults)
        ensures
            d@.requests is None,
            d@.connections is None,
            d@.duration is None,
            d@.headers.len() == 0,
            d@.query_per_second is None,
            d@.timeout is None,
            d@.http2 is None,
            d@.disable_keepalive is None,
            d@.insecure is None,
    {
        Defaults {
            requests: None,
            connections: None,
            duration: None,
            headers: StrMap::new(),
            query_per_second: None,
            timeout: None,
            http2: None,
            disable_keepalive: None,
            insecure: None,
        }
    }
}

impl Clone for Defaults {
    fn clone(&self) -> (r: Defaults)
        ensures
            r@ == self@,
    {
        Defaults {
            requests: self.requests,
            connections: self.connections,
            duration: clone_opt(&self.duration),
            headers: self.headers.clone(),
            query_per_second: clone_opt(&self.query_per_second),
            timeout: clone_opt(&self.timeout),
            http2: self.http2,
            disable_keepalive: self.disable_keepalive,
            insecure: self.insecure,
        }
    }
}

/// The whole configuration file.
pub struct Config {
    /// Variables for `${VAR}` expansion defined in the file.
    pub env: StrMap,
    pub defaults: Defaults,
    pub tests: Vec<TestCase>,
}

/// The number of requests a `defaults` block gets when it names none.
pub fn default_requests() -> (r: Option<u64>)
    ensures
        r == Some(200u64),
{
    Some(200)
}

/// The HTTP method of a test that names none.
pub fn default_method() -> (r: String)
    ensures
        r@ == "GET"@,
{
    String::from_str("GET")
}

/// The weight of a test that names none: `1.0`, in millionths.
pub fn default_weight() -> (r: i64)
    ensures
        r == 1_000_000,
{
    1_000_000
}

/// A test with the defaults applied: every field the test leaves unset
/// takes the default's value; `requests` is only taken from the defaults
/// when the test sets neither `requests` nor its own `duration`; headers of
/// the test are inserted over the default headers.
pub open spec fn with_defaults_spec(t: TestCaseView, d: DefaultsView) -> TestCaseView {
    TestCaseView {
        requests: if t.requests is None && t.duration is None { d.requests } else { t.requests },
        connections: if t.connections is None { d.connections } else { t.connections },
        duration: if t.duration is None { d.duration } else { t.duration },
        query_per_second: if t.query_per_second is None { d.query_per_second } else { t.query_per_second },
        timeout: if t.timeout is None { d.timeout } else { t.timeout },
        http2: if t.http2 is None { d.http2 } else { t.http2 },
        disable_keepalive: if t.disable_keepalive is None { d.disable_keepalive } else { t.disable_keepalive },
        insecure: if t.insecure is None { d.insecure } else { t.insecure },
        headers: extend_entries(d.headers, t.headers),
        ..t
    }
}

/// A test's headers are laid over the default headers: a header the test
/// sets keeps the test's value, any other header takes the default's.
pub proof fn law_test_headers_win(t: TestCaseView, d: DefaultsView, name: Seq<char>)
    requires
        keys_unique(t.headers),
        keys_unique(d.headers),
    ensures
        lookup(with_defaults_spec(t, d).headers, name)
            == if has_key(t.headers, name) { lookup(t.headers, name) } else { lookup(d.headers, name) },
{
    lemma_lookup_extend(d.headers, t.headers, name);
}

/// A value the test sets itself is never replaced by a default; a value it
/// leaves unset takes the default (for the request count, only when the
/// test has no duration of its own).
pub proof fn law_test_values_win(t: TestCaseView, d: DefaultsView)
    ensures
        ({
            let m = with_defaults_spec(t, d);
            &&& m.name == t.name && m.url == t.url && m.method == t.method && m.tags == t.tags
            &&& m.weight == t.weight && m.body == t.body && m.query_params == t.query_params
            &&& (t.requests is Some ==> m.requests == t.requests)
            &&& (t.duration is Some ==> m.duration == t.duration && m.requests == t.requests)
            &&& (t.requests is None && t.duration is None ==> m.requests == d.requests && m.duration == d.duration)
            &&& (t.connections is Some ==> m.connections == t.connections)
            &&& (t.connections is None ==> m.connections == d.connections)
            &&& (t.timeout is Some ==> m.timeout == t.timeout)
            &&& (t.timeout is None ==> m.timeout == d.timeout)
            &&& (t.duration is None ==> m.duration == d.duration)
            &&& (t.query_per_second is Some ==> m.query_per_second == t.query_per_second)
            &&& (t.query_per_second is None ==> m.query_per_second == d.query_per_second)
            &&& (t.http2 is Some ==> m.http2 == t.http2)
            &&& (t.http2 is None ==> m.http2 == d.http2)
            &&& (t.disable_keepalive is Some ==> m.disable_keepalive == t.disable_keepalive)
            &&& (t.disable_keepalive is None ==> m.disable_keepalive == d.disable_keepalive)
            &&& (t.insecure is Some ==> m.insecure == t.insecure)
            &&& (t.insecure is None ==> m.insecure == d.insecure)
            &&& m.description == t.description && m.body_file == t.body_file
        }),
{
}

/// Defaults that set no value and no header.
pub open spec fn sets_nothing(d: DefaultsView) -> bool {
    &&& d.requests is None
    &&& d.connections is None
    &&& d.duration is None
    &&& d.headers.len() == 0
    &&& d.query_per_second is None
    &&& d.timeout is None
    &&& d.http2 is None
    &&& d.disable_keepalive is None
    &&& d.insecure is None
}

/// Defaults that set nothing leave a test as it is.
pub proof fn law_empty_defaults_change_nothing(t: TestCaseView, d: DefaultsView)
    requires
        keys_unique(t.headers),
        sets_nothing(d),
    ensures
        with_defaults_spec(t, d) == t,
{
    assert(d.headers =~= Seq::<(Seq<char>, Seq<char>)>::empty());
    lemma_extend_empty(t.headers);
}

/// Applying the same defaults a second time changes nothing.
pub proof fn law_defaults_idempotent(t: TestCaseView, d: DefaultsView)
    requires
        keys_unique(d.headers),
    ensures
        with_defaults_spec(with_defaults_spec(t, d), d) == with_defaults_spec(t, d),
{
    let x = extend_entries(d.headers, t.headers);
    lemma_extend_unique(d.headers, t.headers);
    lemma_extend_keeps_front(d.headers, t.headers);
    lemma_extend_absorbs(d.headers, x);
}

/// The test with its headers replaced by `h`.
pub open spec fn with_headers(t: TestCaseView, h: Entries) -> TestCaseView {
    TestCaseView { headers: h, ..t }
}

/// `key=value`.
pub open spec fn param_text(p: (Seq<char>, Seq<char>)) -> Seq<char> {
    p.0 + "="@ + p.1
}

/// The URL with the query parameters appended: unchanged without
/// parameters, otherwise followed by `?` (or `&` when it already holds a
/// `?`) and the `key=value` pairs joined by `&`.
pub open spec fn effective_url_spec(url: Seq<char>, params: Entries) -> Seq<char> {
    if params.len() == 0 {
        url
    } else {
        url + (if url.contains('?') { "&"@ } else { "?"@ }) + join(params.map_values(|p: (Seq<char>, Seq<char>)| param_text(p)), "&"@)
    }
}

impl TestCase {
    /// Applies the defaults to this test; the test's own values win.
    /// Applying the same defaults again changes nothing, and defaults that
    /// set nothing give the test back as it was.
    pub fn with_defaults(&self, defaults: &Defaults) -> (merged: TestCase)
        ensures
            merged@ == with_defaults_spec(self@, defaults@),
            with_defaults_spec(merged@, defaults@) == merged@,
            sets_nothing(defaults@) ==> merged@ == self@,
    {
        proof {
            use_type_invariant(&self.headers);
            use_type_invariant(&defaults.headers);
            law_defaults_idempotent(self@, defaults@);
            if sets_nothing(defaults@) {
                law_empty_defaults_change_nothing(self@, defaults@);
            }
        }
        let mut merged = self.clone();
        if merged.requests.is_none() && merged.duration.is_none() {
            merged.requests = defaults.requests;
        }
        if merged.connections.is_none() {
            merged.connections = defaults.connections;
        }
        if merged.duration.is_none() {
            merged.duration = clone_opt(&defaults.duration);
        }
        if merged.query_per_second.is_none() {
            merged.query_per_second = clone_opt(&defaults.query_per_second);
        }
        if merged.timeout.is_none() {
            merged.timeout = clone_opt(&defaults.timeout);
        }
        if merged.http2.is_none() {
            merged.http2 = defaults.http2;
        }
        if merged.disable_keepalive.is_none() {
            merged.disable_keepalive = defaults.disable_keepalive;
        }
        if merged.insecure.is_none() {
            merged.insecure = defaults.insecure;
        }
        let mut headers = defaults.headers.clone();
        headers.extend(&merged.headers);
        merged.headers = headers;
        merged
    }

    /// The URL with the query parameters appended.
    pub fn effective_url(&self) -> (u: String)
        ensures
            u@ == effective_url_spec(self.url@, self.query_params@),
    {
        if self.query_params.is_empty() {
            return self.url.clone();
        }
        let ghost texts = self.query_params@.map_values(|p: (Seq<char>, Seq<char>)| param_text(p));
        let mut params = String::new();
        let n = self.query_params.len();
        let mut i: usize = 0;
        while i < n
            invariant
                n == self.query_params@.len(),
                texts == self.query_params@.map_values(|p: (Seq<char>, Seq<char>)| param_text(p)),
                0 < i <= n || (i == 0 && params@ == Seq::<char>::empty()),
                i > 0 ==> params@ == join(texts.take(i as int), "&"@),
            decreases n - i,
        {
            let ghost before = params@;
            if i > 0 {
                params.append("&");
            }
            params.append(self.query_params.key_at(i).as_str());
            params.append("=");
            params.append(self.query_params.value_at(i).as_str());
            proof {
                let t = texts.take(i + 1);
                assert(t.drop_last() =~= texts.take(i as int));
                assert(t.last() == param_text(self.query_params@[i as int]));
                if i == 0 {
                    assert(params@ =~= param_text(self.query_params@[0]));
                } else {
                    assert(params@ =~= before + "&"@ + param_text(self.query_params@[i as int]));
                }
            }
            i = i + 1;
        }
        assert(texts.take(n as int) =~= texts);
        let mut u = self.url.clone();
        if contains_char(self.url.as_str(), '?') {
            u.append("&");
        } else {
            u.append("?");
        }
        u.append(params.as_str());
        u
    }
}

} // verus!
