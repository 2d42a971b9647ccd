//! The command line handed to `oha` for a test, its redacted form for
//! display, and the text shown to the user.

use vstd::prelude::*;
use crate::config::{TestCase, TestCaseView, effective_url_spec, strings_view, with_headers};
use crate::strmap::{Entries, first_key_at, has_key, key_index, keys_unique, lemma_key_index, lookup};
use crate::text::{decimal, has_infix, join, lower_case, push_char, str_contains, to_lowercase, to_uppercase, u64_to_decimal, upper_case, contains_char};

verus! {

/// `-z <duration>` when the test has a duration, otherwise `-n <requests>`
/// when it has a request count.
pub open spec fn amount_args(t: TestCaseView) -> Seq<Seq<char>> {
    match t.duration {
        Some(d) => seq!["-z"@, d],
        None => match t.requests {
            Some(n) => seq!["-n"@, decimal(n as nat)],
            None => Seq::empty(),
        },
    }
}

/// `-c <connections>`.
pub open spec fn connection_args(t: TestCaseView) -> Seq<Seq<char>> {
    match t.connections {
        Some(c) => seq!["-c"@, decimal(c as nat)],
        None => Seq::empty(),
    }
}

/// `-q <rate>`.
pub open spec fn rate_args(t: TestCaseView) -> Seq<Seq<char>> {
    match t.query_per_second {
        Some(q) => seq!["-q"@, q],
        None => Seq::empty(),
    }
}

/// `-m <METHOD>` (upper-cased) unless the method is `GET`.
pub open spec fn method_args(t: TestCaseView) -> Seq<Seq<char>> {
    if upper_case(t.method) != "GET"@ {
        seq!["-m"@, upper_case(t.method)]
    } else {
        Seq::empty()
    }
}

/// `name: value`.
pub open spec fn header_text(p: (Seq<char>, Seq<char>)) -> Seq<char> {
    p.0 + ": "@ + p.1
}

/// `-H <name: value>` for each header, in order.
pub open spec fn header_args(h: Entries) -> Seq<Seq<char>>
    decreases h.len(),
{
    if h.len() == 0 {
        Seq::empty()
    } else {
        header_args(h.drop_last()) + seq!["-H"@, header_text(h.last())]
    }
}

/// `-d <body>` when the test has a body, otherwise `-D <file>` when it has
/// a body file.
pub open spec fn body_args(t: TestCaseView) -> Seq<Seq<char>> {
    match t.body {
        Some(b) => seq!["-d"@, b],
        None => match t.body_file {
            Some(f) => seq!["-D"@, f],
            None => Seq::empty(),
        },
    }
}

/// `-t <timeout>`.
pub open spec fn timeout_args(t: TestCaseView) -> Seq<Seq<char>> {
    match t.timeout {
        Some(x) => seq!["-t"@, x],
        None => Seq::empty(),
    }
}

/// `flag` when the option is set to `true`.
pub open spec fn flag_arg(o: Option<bool>, flag: Seq<char>) -> Seq<Seq<char>> {
    if o == Some(true) { seq![flag] } else { Seq::empty() }
}

/// The switches that make `oha` print JSON and no live display.
pub open spec fn capture_args(capture_json: bool) -> Seq<Seq<char>> {
    if capture_json { seq!["--no-tui"@, "--output-format"@, "json"@] } else { Seq::empty() }
}

/// The arguments of `oha` for a test; the effective URL comes last.
pub open spec fn args_spec(t: TestCaseView, capture_json: bool) -> Seq<Seq<char>> {
    amount_args(t) + connection_args(t) + rate_args(t) + method_args(t) + header_args(t.headers)
        + body_args(t) + timeout_args(t) + flag_arg(t.http2, "--http2"@)
        + flag_arg(t.disable_keepalive, "--disable-keepalive"@) + flag_arg(t.insecure, "--insecure"@)
        + capture_args(capture_json) + seq![effective_url_spec(t.url, t.query_params)]
}

fn push_str(args: &mut Vec<String>, s: &str)
    ensures
        strings_view(final(args)@) == strings_view(old(args)@).push(s@),
{
    let ghost before = args@;
    args.push(s.to_owned());
    assert(strings_view(args@) =~= strings_view(before).push(s@));
}

fn push_string(args: &mut Vec<String>, s: String)
    ensures
        strings_view(final(args)@) == strings_view(old(args)@).push(s@),
{
    let ghost before = args@;
    args.push(s);
    assert(strings_view(args@) =~= strings_view(before).push(s@));
}

fn push_amount(args: &mut Vec<String>, t: &TestCase)
    ensures
        strings_view(final(args)@) == strings_view(old(args)@) + amount_args(t@),
{
    let ghost a0 = strings_view(args@);
    match &t.duration {
        Some(d) => {
            push_str(args, "-z");
            push_string(args, d.clone());
        },
        None => match t.requests {
            Some(n) => {
                push_str(args, "-n");
                push_string(args, u64_to_decimal(n));
            },
            None => {},
        },
    }
    assert(strings_view(args@) =~= a0 + amount_args(t@));
}

fn push_option_pair(args: &mut Vec<String>, flag: &str, value: &Option<String>)
    ensures
        strings_view(final(args)@) == strings_view(old(args)@) + match value {
            Some(v) => seq![flag@, v@],
            None => Seq::<Seq<char>>::empty(),
        },
{
    let ghost a0 = strings_view(args@);
    if let Some(v) = value {
        push_str(args, flag);
        push_string(args, v.clone());
        assert(strings_view(args@) =~= a0 + seq![flag@, v@]);
    } else {
        assert(strings_view(args@) =~= a0 + Seq::<Seq<char>>::empty());
    }
}

fn push_flag(args: &mut Vec<String>, flag: &str, set: Option<bool>)
    ensures
        strings_view(final(args)@) == strings_view(old(args)@) + flag_arg(set, flag@),
{
    let ghost a0 = strings_view(args@);
    if set.unwrap_or(false) {
        push_str(args, flag);
    }
    assert(strings_view(args@) =~= a0 + flag_arg(set, flag@));
}

fn push_connections_and_rate(args: &mut Vec<String>, t: &TestCase)
    ensures
        strings_view(final(args)@) == strings_view(old(args)@) + connection_args(t@) + rate_args(t@),
{
    let ghost a0 = strings_view(args@);
    if let Some(c) = t.connections {
        push_str(args, "-c");
        push_string(args, u64_to_decimal(c));
    }
    assert(strings_view(args@) =~= a0 + connection_args(t@));
    push_option_pair(args, "-q", &t.query_per_second);
    assert(strings_view(args@) =~= a0 + connection_args(t@) + rate_args(t@));
}

fn push_method(args: &mut Vec<String>, t: &TestCase)
    ensures
        strings_view(final(args)@) == strings_view(old(args)@) + method_args(t@),
{
    let ghost a0 = strings_view(args@);
    let method = to_uppercase(t.method.as_str());
    let get = String::from_str("GET");
    if method != get {
        push_str(args, "-m");
        push_string(args, method);
    }
    assert(strings_view(args@) =~= a0 + method_args(t@));
}

fn push_headers(args: &mut Vec<String>, t: &TestCase)
    ensures
        strings_view(final(args)@) == strings_view(old(args)@) + header_args(t@.headers),
{
    let ghost a0 = strings_view(args@);
    let ghost hv = t@.headers;
    let n = t.headers.len();
    let mut i: usize = 0;
    assert(hv.take(0) =~= Seq::<(Seq<char>, Seq<char>)>::empty());
    assert(strings_view(args@) =~= a0 + header_args(hv.take(0)));
    while i < n
        invariant
            n == hv.len(),
            hv == t@.headers,
            i <= n,
            strings_view(args@) == a0 + header_args(hv.take(i as int)),
        decreases n - i,
    {
        let mut h = t.headers.key_at(i).clone();
        h.append(": ");
        h.append(t.headers.value_at(i).as_str());
        push_str(args, "-H");
        push_string(args, h);
        proof {
            let hs = hv.take(i + 1);
            assert(hs.drop_last() =~= hv.take(i as int));
            assert(hs.last() == hv[i as int]);
        }
        assert(strings_view(args@) =~= a0 + header_args(hv.take(i + 1)));
        i = i + 1;
    }
    assert(hv.take(n as int) =~= hv);
}

fn push_body_and_timeout(args: &mut Vec<String>, t: &TestCase)
    ensures
        strings_view(final(args)@) == strings_view(old(args)@) + body_args(t@) + timeout_args(t@),
{
    let ghost a0 = strings_view(args@);
    match &t.body {
        Some(b) => {
            push_str(args, "-d");
            push_string(args, b.clone());
        },
        None => push_option_pair(args, "-D", &t.body_file),
    }
    assert(strings_view(args@) =~= a0 + body_args(t@));
    push_option_pair(args, "-t", &t.timeout);
    assert(strings_view(args@) =~= a0 + body_args(t@) + timeout_args(t@));
}

fn push_capture(args: &mut Vec<String>, capture_json: bool)
    ensures
        strings_view(final(args)@) == strings_view(old(args)@) + capture_args(capture_json),
{
    let ghost a0 = strings_view(args@);
    if capture_json {
        push_str(args, "--no-tui");
        push_str(args, "--output-format");
        push_str(args, "json");
    }
    assert(strings_view(args@) =~= a0 + capture_args(capture_json));
}

/// The arguments of `oha` for a test: request count or duration,
/// connections, rate, method, headers, body, timeout, flags, the JSON
/// switches when `capture_json`, and the effective URL last.
pub fn build_args(test: &TestCase, capture_json: bool) -> (args: Vec<String>)
    ensures
        strings_view(args@) == args_spec(test@, capture_json),
{
    let mut args: Vec<String> = Vec::new();
    assert(strings_view(args@) =~= Seq::<Seq<char>>::empty());
    push_amount(&mut args, test);
    push_connections_and_rate(&mut args, test);
    push_method(&mut args, test);
    push_headers(&mut args, test);
    push_body_and_timeout(&mut args, test);
    push_flag(&mut args, "--http2", test.http2);
    push_flag(&mut args, "--disable-keepalive", test.disable_keepalive);
    push_flag(&mut args, "--insecure", test.insecure);
    push_capture(&mut args, capture_json);
    push_string(&mut args, test.effective_url());
    assert(strings_view(args@) =~= args_spec(test@, capture_json));
    args
}


/// A header name is sensitive when its lower-case form contains one of
/// `authorization`, `x-api-key`, `x-auth-token`, `token` or `api-key`.
pub open spec fn sensitive(name: Seq<char>) -> bool {
    let l = lower_case(name);
    ||| has_infix(l, "authorization"@)
    ||| has_infix(l, "x-api-key"@)
    ||| has_infix(l, "x-auth-token"@)
    ||| has_infix(l, "token"@)
    ||| has_infix(l, "api-key"@)
}

/// The headers with the value of every sensitive one replaced by
/// `[REDACTED]`.
pub open spec fn redact_entries(h: Entries) -> Entries {
    h.map_values(|p: (Seq<char>, Seq<char>)| if sensitive(p.0) { (p.0, "[REDACTED]"@) } else { p })
}

/// The effective URL is always the last argument.
pub proof fn law_url_last(t: TestCaseView, capture_json: bool)
    ensures
        args_spec(t, capture_json).last() == effective_url_spec(t.url, t.query_params),
{
}

/// A duration wins over a request count: with a duration the arguments
/// start with `-z <duration>` and hold no `-n`.
pub proof fn law_duration_over_requests(t: TestCaseView, capture_json: bool)
    requires
        t.duration is Some,
    ensures
        args_spec(t, capture_json).take(2) == seq!["-z"@, t.duration->0],
        amount_args(t) == seq!["-z"@, t.duration->0],
{
    let a = args_spec(t, capture_json);
    assert(a.take(2) =~= seq!["-z"@, t.duration->0]);
}

/// The arguments before the boolean switches.
spec fn args_before_switches(t: TestCaseView) -> Seq<Seq<char>> {
    amount_args(t) + connection_args(t) + rate_args(t) + method_args(t) + header_args(t.headers)
        + body_args(t) + timeout_args(t)
}

proof fn lemma_insert_between(p: Seq<Seq<char>>, q: Seq<Seq<char>>, x: Seq<char>)
    ensures
        (p + q).insert(p.len() as int, x) == p + seq![x] + q,
{
    assert((p + q).insert(p.len() as int, x) =~= p + seq![x] + q);
}

/// `--http2` is passed exactly when `http2` is `true`: turning it on
/// inserts `--http2` into the arguments of the same test with the option
/// unset, at a place before the URL; an option that is not `true` gives
/// the same arguments as an unset one.
pub proof fn law_http2_switch(t: TestCaseView, capture_json: bool)
    ensures
        exists|i: int| 0 <= i < args_spec(TestCaseView { http2: None, ..t }, capture_json).len()
            && args_spec(TestCaseView { http2: Some(true), ..t }, capture_json)
                == args_spec(TestCaseView { http2: None, ..t }, capture_json).insert(i, "--http2"@),
        t.http2 != Some(true) ==> args_spec(t, capture_json) == args_spec(TestCaseView { http2: None, ..t }, capture_json),
{
    let off = TestCaseView { http2: None, ..t };
    let on = TestCaseView { http2: Some(true), ..t };
    let pre = args_before_switches(t);
    let rest = flag_arg(t.disable_keepalive, "--disable-keepalive"@) + flag_arg(t.insecure, "--insecure"@)
        + capture_args(capture_json) + seq![effective_url_spec(t.url, t.query_params)];
    assert(args_before_switches(off) == pre);
    assert(args_before_switches(on) == pre);
    assert(args_spec(off, capture_json) =~= pre + rest);
    assert(args_spec(on, capture_json) =~= pre + seq!["--http2"@] + rest);
    lemma_insert_between(pre, rest, "--http2"@);
    if t.http2 != Some(true) {
        assert(args_spec(t, capture_json) =~= pre + rest);
    }
}

/// `--disable-keepalive` is passed exactly when `disable_keepalive` is
/// `true`, in the same way as `--http2`.
pub proof fn law_keepalive_switch(t: TestCaseView, capture_json: bool)
    ensures
        exists|i: int| 0 <= i < args_spec(TestCaseView { disable_keepalive: None, ..t }, capture_json).len()
            && args_spec(TestCaseView { disable_keepalive: Some(true), ..t }, capture_json)
                == args_spec(TestCaseView { disable_keepalive: None, ..t }, capture_json).insert(i, "--disable-keepalive"@),
        t.disable_keepalive != Some(true)
            ==> args_spec(t, capture_json) == args_spec(TestCaseView { disable_keepalive: None, ..t }, capture_json),
{
    let off = TestCaseView { disable_keepalive: None, ..t };
    let on = TestCaseView { disable_keepalive: Some(true), ..t };
    let pre = args_before_switches(t) + flag_arg(t.http2, "--http2"@);
    let rest = flag_arg(t.insecure, "--insecure"@)
        + capture_args(capture_json) + seq![effective_url_spec(t.url, t.query_params)];
    assert(args_before_switches(off) == args_before_switches(t));
    assert(args_before_switches(on) == args_before_switches(t));
    assert(args_spec(off, capture_json) =~= pre + rest);
    assert(args_spec(on, capture_json) =~= pre + seq!["--disable-keepalive"@] + rest);
    lemma_insert_between(pre, rest, "--disable-keepalive"@);
    if t.disable_keepalive != Some(true) {
        assert(args_spec(t, capture_json) =~= pre + rest);
    }
}

/// `--insecure` is passed exactly when `insecure` is `true`, in the same
/// way as `--http2`.
pub proof fn law_insecure_switch(t: TestCaseView, capture_json: bool)
    ensures
        exists|i: int| 0 <= i < args_spec(TestCaseView { insecure: None, ..t }, capture_json).len()
            && args_spec(TestCaseView { insecure: Some(true), ..t }, capture_json)
                == args_spec(TestCaseView { insecure: None, ..t }, capture_json).insert(i, "--insecure"@),
        t.insecure != Some(true)
            ==> args_spec(t, capture_json) == args_spec(TestCaseView { insecure: None, ..t }, capture_json),
{
    let off = TestCaseView { insecure: None, ..t };
    let on = TestCaseView { insecure: Some(true), ..t };
    let pre = args_before_switches(t) + flag_arg(t.http2, "--http2"@)
        + flag_arg(t.disable_keepalive, "--disable-keepalive"@);
    let rest = capture_args(capture_json) + seq![effective_url_spec(t.url, t.query_params)];
    assert(args_before_switches(off) == args_before_switches(t));
    assert(args_before_switches(on) == args_before_switches(t));
    assert(args_spec(off, capture_json) =~= pre + rest);
    assert(args_spec(on, capture_json) =~= pre + seq!["--insecure"@] + rest);
    lemma_insert_between(pre, rest, "--insecure"@);
    if t.insecure != Some(true) {
        assert(args_spec(t, capture_json) =~= pre + rest);
    }
}

proof fn lemma_header_args_len(h: Entries)
    ensures
        header_args(h).len() == 2 * h.len(),
    decreases h.len(),
{
    if h.len() > 0 {
        lemma_header_args_len(h.drop_last());
    }
}

/// Redaction only replaces header values: the redacted arguments are as many
/// as the plain ones, and they are the same when no header is sensitive.
pub proof fn law_redaction_shape(t: TestCaseView, capture_json: bool)
    ensures
        args_spec(with_headers(t, redact_entries(t.headers)), capture_json).len() == args_spec(t, capture_json).len(),
        (forall|i: int| 0 <= i < t.headers.len() ==> !sensitive((#[trigger] t.headers[i]).0))
            ==> args_spec(with_headers(t, redact_entries(t.headers)), capture_json) == args_spec(t, capture_json),
{
    lemma_header_args_len(t.headers);
    lemma_header_args_len(redact_entries(t.headers));
    if forall|i: int| 0 <= i < t.headers.len() ==> !sensitive((#[trigger] t.headers[i]).0) {
        assert(redact_entries(t.headers) =~= t.headers);
        assert(with_headers(t, redact_entries(t.headers)) == t);
    }
}

/// In a map without repeated keys, a pair is present exactly when looking
/// its key up gives its value.
proof fn lemma_contains_lookup(r: Entries, p: (Seq<char>, Seq<char>))
    requires
        keys_unique(r),
    ensures
        r.contains(p) <==> lookup(r, p.0) == Some(p.1),
{
    if r.contains(p) {
        let i = choose|i: int| 0 <= i < r.len() && r[i] == p;
        assert(r[i].0 == p.0);
        lemma_key_index(r, p.0);
        let f = key_index(r, p.0);
        if f != i {
            assert(r[f].0 == r[i].0);
        }
    }
    if lookup(r, p.0) == Some(p.1) {
        lemma_key_index(r, p.0);
        let f = key_index(r, p.0);
        assert(r[f] == p);
    }
}

/// Two maps without repeated keys that give the same value for every key
/// hold the same pairs, whatever their order.
proof fn lemma_same_lookups_same_pairs(r1: Entries, r2: Entries)
    requires
        keys_unique(r1),
        keys_unique(r2),
        forall|k: Seq<char>| #[trigger] lookup(r1, k) == lookup(r2, k),
    ensures
        r1.to_multiset() == r2.to_multiset(),
{
    broadcast use vstd::seq_lib::group_to_multiset_ensures;
    assert(r1.no_duplicates());
    assert(r2.no_duplicates());
    r1.lemma_multiset_has_no_duplicates();
    r2.lemma_multiset_has_no_duplicates();
    assert forall|p: (Seq<char>, Seq<char>)| r1.to_multiset().count(p) == r2.to_multiset().count(p) by {
        lemma_contains_lookup(r1, p);
        lemma_contains_lookup(r2, p);
        assert(lookup(r1, p.0) == lookup(r2, p.0));
    }
    assert(r1.to_multiset() =~= r2.to_multiset());
}

/// Looking a key up in the redacted headers.
proof fn lemma_lookup_redacted(h: Entries, k: Seq<char>)
    ensures
        keys_unique(h) ==> keys_unique(redact_entries(h)),
        lookup(redact_entries(h), k) == match lookup(h, k) {
            Some(v) => Some(if sensitive(k) { "[REDACTED]"@ } else { v }),
            None => None::<Seq<char>>,
        },
{
    let r = redact_entries(h);
    assert forall|i: int| 0 <= i < r.len() implies (#[trigger] r[i]).0 == h[i].0 by {}
    if keys_unique(h) {
        assert forall|i: int, j: int| 0 <= i < r.len() && 0 <= j < r.len() && i != j implies (#[trigger] r[i]).0 != (#[trigger] r[j]).0 by {
            assert(r[i].0 == h[i].0 && r[j].0 == h[j].0);
        }
    }
    if has_key(h, k) {
        lemma_key_index(h, k);
        let f = key_index(h, k);
        assert(first_key_at(r, k, f)) by {
            assert forall|j: int| 0 <= j < f implies (#[trigger] r[j]).0 != k by {
                assert(r[j].0 == h[j].0);
            }
        }
        lemma_key_index(r, k);
    } else {
        assert forall|i: int| 0 <= i < r.len() implies (#[trigger] r[i]).0 != k by {
            assert(r[i].0 == h[i].0);
        }
    }
}

/// Secret values never reach the shown command. Take two tests that are
/// the same but for their headers, whose headers have the same names and
/// the same value for every name that is not sensitive: their redacted
/// headers hold the same pairs (in whatever order the headers come), and
/// when the header names come in the same order their redacted arguments
/// are the same.
pub proof fn law_secrets_hidden(t1: TestCaseView, t2: TestCaseView, capture_json: bool)
    requires
        keys_unique(t1.headers),
        keys_unique(t2.headers),
        with_headers(t1, Seq::empty()) == with_headers(t2, Seq::empty()),
        forall|k: Seq<char>| #[trigger] has_key(t1.headers, k) == has_key(t2.headers, k),
        forall|k: Seq<char>| !sensitive(k) ==> #[trigger] lookup(t1.headers, k) == lookup(t2.headers, k),
    ensures
        redact_entries(t1.headers).to_multiset() == redact_entries(t2.headers).to_multiset(),
        (t1.headers.len() == t2.headers.len()
            && forall|i: int| 0 <= i < t1.headers.len() ==> (#[trigger] t1.headers[i]).0 == t2.headers[i].0)
            ==> args_spec(with_headers(t1, redact_entries(t1.headers)), capture_json)
                == args_spec(with_headers(t2, redact_entries(t2.headers)), capture_json),
{
    let h1 = t1.headers;
    let h2 = t2.headers;
    let r1 = redact_entries(h1);
    let r2 = redact_entries(h2);
    assert forall|k: Seq<char>| #[trigger] lookup(r1, k) == lookup(r2, k) by {
        lemma_lookup_redacted(h1, k);
        lemma_lookup_redacted(h2, k);
        if !has_key(h1, k) {
            assert(lookup(h1, k) is None && lookup(h2, k) is None);
        } else if sensitive(k) {
            assert(lookup(h1, k) is Some && lookup(h2, k) is Some);
        }
    }
    lemma_lookup_redacted(h1, Seq::empty());
    lemma_lookup_redacted(h2, Seq::empty());
    lemma_same_lookups_same_pairs(r1, r2);
    if h1.len() == h2.len() && forall|i: int| 0 <= i < h1.len() ==> (#[trigger] h1[i]).0 == h2[i].0 {
        assert forall|i: int| 0 <= i < h1.len() implies r1[i] == r2[i] by {
            let k = h1[i].0;
            if !sensitive(k) {
                assert(h1.contains(h1[i]));
                assert(h2.contains(h2[i]));
                lemma_contains_lookup(h1, h1[i]);
                lemma_contains_lookup(h2, h2[i]);
                assert(lookup(h1, k) == lookup(h2, k));
            }
        }
        assert(r1 =~= r2);
        assert(with_headers(t1, r1) == with_headers(with_headers(t1, Seq::empty()), r1));
        assert(with_headers(t2, r2) == with_headers(with_headers(t2, Seq::empty()), r2));
    }
}

/// Whether a header name is sensitive.
pub fn is_sensitive(name: &str) -> (b: bool)
    ensures
        b == sensitive(name@),
{
    let lowered = to_lowercase(name);
    let l = lowered.as_str();
    str_contains(l, "authorization") || str_contains(l, "x-api-key") || str_contains(l, "x-auth-token")
        || str_contains(l, "token") || str_contains(l, "api-key")
}

/// The arguments of `build_args` for the test with the values of its
/// sensitive headers replaced by `[REDACTED]`, for display.
pub fn build_args_redacted(test: &TestCase, capture_json: bool) -> (args: Vec<String>)
    ensures
        strings_view(args@) == args_spec(with_headers(test@, redact_entries(test@.headers)), capture_json),
{
    let mut redacted = test.clone();
    let ghost h = test@.headers;
    let n = redacted.headers.len();
    let mut i: usize = 0;
    while i < n
        invariant
            n == h.len(),
            h == test@.headers,
            i <= n,
            redacted@ == with_headers(test@, redacted@.headers),
            redacted@.headers.len() == n,
            forall|k: int| 0 <= k < i ==> #[trigger] redacted@.headers[k] == redact_entries(h)[k],
            forall|k: int| i <= k < n ==> #[trigger] redacted@.headers[k] == h[k],
        decreases n - i,
    {
        if is_sensitive(redacted.headers.key_at(i).as_str()) {
            redacted.headers.set_value_at(i, String::from_str("[REDACTED]"));
        }
        i = i + 1;
    }
    assert(redacted@.headers =~= redact_entries(h));
    assert(redacted@ == with_headers(test@, redact_entries(test@.headers)));
    build_args(&redacted, capture_json)
}

/// Whether an argument is shown in double quotes: it holds a space, a
/// double quote or a single quote.
pub open spec fn needs_quotes(a: Seq<char>) -> bool {
    a.contains(' ') || a.contains('"') || a.contains('\'')
}

/// The argument with every double quote preceded by a backslash.
pub open spec fn escape_quotes(a: Seq<char>) -> Seq<char>
    decreases a.len(),
{
    if a.len() == 0 {
        Seq::empty()
    } else {
        escape_quotes(a.drop_last()) + if a.last() == '"' { seq!['\\', '"'] } else { seq![a.last()] }
    }
}

/// An argument as shown: quoted and escaped when it needs quotes, as it is
/// otherwise.
pub open spec fn shown_arg(a: Seq<char>) -> Seq<char> {
    if needs_quotes(a) {
        seq!['"'] + escape_quotes(a) + seq!['"']
    } else {
        a
    }
}

/// `oha` followed by the shown arguments, one per line after the first,
/// each line ending in a backslash.
pub open spec fn command_text(args: Seq<Seq<char>>) -> Seq<char> {
    "oha "@ + join(args.map_values(|a: Seq<char>| shown_arg(a)), " \\\n    "@)
}

fn shown(a: &str) -> (r: String)
    ensures
        r@ == shown_arg(a@),
{
    if contains_char(a, ' ') || contains_char(a, '"') || contains_char(a, '\'') {
        let mut r = String::new();
        push_char(&mut r, '"');
        let n = a.unicode_len();
        let mut i: usize = 0;
        while i < n
            invariant
                n == a@.len(),
                i <= n,
                r@ == seq!['"'] + escape_quotes(a@.take(i as int)),
            decreases n - i,
        {
            let c = a.get_char(i);
            if c == '"' {
                push_char(&mut r, '\\');
                push_char(&mut r, '"');
            } else {
                push_char(&mut r, c);
            }
            assert(a@.take(i + 1).drop_last() =~= a@.take(i as int));
            assert(r@ =~= seq!['"'] + escape_quotes(a@.take(i + 1)));
            i = i + 1;
        }
        assert(a@.take(n as int) =~= a@);
        push_char(&mut r, '"');
        r
    } else {
        a.to_owned()
    }
}

/// The command as shown to the user: `oha` and the arguments, quoted where
/// they hold spaces or quotes, separated by a backslash and a new line.
pub fn format_command(args: &[String]) -> (text: String)
    ensures
        text@ == command_text(strings_view(args@)),
{
    let ghost parts = strings_view(args@).map_values(|a: Seq<char>| shown_arg(a));
    let mut body = String::new();
    let n = args.len();
    let mut i: usize = 0;
    while i < n
        invariant
            n == args@.len(),
            i <= n,
            parts == strings_view(args@).map_values(|a: Seq<char>| shown_arg(a)),
            body@ == join(parts.take(i as int), " \\\n    "@),
        decreases n - i,
    {
        let ghost before = body@;
        if i > 0 {
            body.append(" \\\n    ");
        }
        let s = shown(args[i].as_str());
        body.append(s.as_str());
        proof {
            let t = parts.take(i + 1);
            assert(t.drop_last() =~= parts.take(i as int));
            assert(t.last() == shown_arg(args@[i as int]@));
            if i == 0 {
                assert(before =~= Seq::<char>::empty());
                assert(body@ =~= t[0]);
            } else {
                assert(body@ =~= before + " \\\n    "@ + t.last());
            }
        }
        i = i + 1;
    }
    assert(parts.take(n as int) =~= parts);
    let mut text = String::from_str("oha ");
    text.append(body.as_str());
    text
}

} // verus!
