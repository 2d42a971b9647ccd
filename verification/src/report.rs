//! The integer part of a run's summary (request and error counts), and the
//! report formats.

use vstd::prelude::*;

verus! {

/// Request counts of one run of `oha`.
pub struct RequestCounts {
    /// All requests recorded in the status code distribution.
    pub total_requests: u64,
    /// Requests whose status code does not start with `2`.
    pub total_errors: u64,
}

/// An entry of the status code distribution: the code as text and the count
/// when it is an unsigned integer.
pub type StatusCount = (String, Option<u64>);

/// The counts of the entries, those that are not unsigned integers left out.
pub open spec fn count_sum(s: Seq<(Seq<char>, Option<u64>)>) -> int
    decreases s.len(),
{
    if s.len() == 0 {
        0
    } else {
        count_sum(s.drop_last()) + match s.last().1 {
            Some(c) => c as int,
            None => 0,
        }
    }
}

/// The entries whose code starts with `2`.
pub open spec fn success_entries(s: Seq<(Seq<char>, Option<u64>)>) -> Seq<(Seq<char>, Option<u64>)> {
    s.filter(|p: (Seq<char>, Option<u64>)| p.0.len() > 0 && p.0[0] == '2')
}

/// The views of the distribution's entries.
pub open spec fn status_view(v: Seq<StatusCount>) -> Seq<(Seq<char>, Option<u64>)> {
    v.map_values(|p: StatusCount| (p.0@, p.1))
}

proof fn lemma_count_sum_take(s: Seq<(Seq<char>, Option<u64>)>, i: int)
    requires
        0 <= i < s.len(),
    ensures
        count_sum(s.take(i + 1)) == count_sum(s.take(i)) + match s[i].1 {
            Some(c) => c as int,
            None => 0,
        },
{
    assert(s.take(i + 1).drop_last() =~= s.take(i));
}

proof fn lemma_count_sum_prefix(s: Seq<(Seq<char>, Option<u64>)>, i: int)
    requires
        0 <= i <= s.len(),
    ensures
        0 <= count_sum(s.take(i)) <= count_sum(s),
    decreases s.len() - i,
{
    if i == s.len() {
        assert(s.take(i) =~= s);
        lemma_count_sum_nonneg(s);
    } else {
        lemma_count_sum_take(s, i);
        lemma_count_sum_prefix(s, i + 1);
        lemma_count_sum_nonneg(s.take(i));
    }
}

proof fn lemma_count_sum_nonneg(s: Seq<(Seq<char>, Option<u64>)>)
    ensures
        count_sum(s) >= 0,
    decreases s.len(),
{
    if s.len() > 0 {
        lemma_count_sum_nonneg(s.drop_last());
    }
}

/// Successful requests never outnumber all requests, so the error count is
/// the difference and never negative.
pub proof fn law_success_within_total(s: Seq<(Seq<char>, Option<u64>)>)
    ensures
        0 <= count_sum(success_entries(s)) <= count_sum(s),
    decreases s.len(),
{
    reveal_with_fuel(Seq::filter, 1);
    if s.len() > 0 {
        law_success_within_total(s.drop_last());
        assert(success_entries(s.drop_last()) == s.drop_last().filter(|p: (Seq<char>, Option<u64>)| p.0.len() > 0 && p.0[0] == '2'));
        let f = success_entries(s);
        if s.last().0.len() > 0 && s.last().0[0] == '2' {
            assert(f == success_entries(s.drop_last()).push(s.last()));
            assert(f.drop_last() =~= success_entries(s.drop_last()));
        } else {
            assert(f == success_entries(s.drop_last()));
        }
    } else {
        assert(success_entries(s) =~= s);
    }
}

/// The error count of a distribution: all requests but the successful ones.
pub open spec fn error_count(s: Seq<(Seq<char>, Option<u64>)>) -> int {
    count_sum(s) - count_sum(success_entries(s))
}

/// How one more entry of the distribution changes the counts: its count
/// adds to the total, and to the errors exactly when its code does not
/// start with `2` (a `3xx`, `4xx` or `5xx` code, or any other); an empty
/// distribution has neither requests nor errors.
pub proof fn law_error_count_step(s: Seq<(Seq<char>, Option<u64>)>, code: Seq<char>, c: u64)
    ensures
        count_sum(Seq::empty()) == 0,
        error_count(Seq::empty()) == 0,
        count_sum(s.push((code, Some(c)))) == count_sum(s) + c,
        error_count(s.push((code, Some(c)))) == error_count(s) + if code.len() > 0 && code[0] == '2' { 0 } else { c as int },
        count_sum(s.push((code, None))) == count_sum(s),
        error_count(s.push((code, None))) == error_count(s),
{
    reveal_with_fuel(Seq::filter, 1);
    let e = Seq::<(Seq<char>, Option<u64>)>::empty();
    assert(success_entries(e) =~= e);
    let pred = |p: (Seq<char>, Option<u64>)| p.0.len() > 0 && p.0[0] == '2';
    let x = (code, Some(c));
    let y = (code, None::<u64>);
    let sx = s.push(x);
    let sy = s.push(y);
    assert(sx.drop_last() =~= s);
    assert(sy.drop_last() =~= s);
    assert(success_entries(sx) == sx.filter(pred));
    assert(success_entries(sy) == sy.filter(pred));
    assert(success_entries(s) == s.filter(pred));
    if pred(x) {
        assert(success_entries(sx).drop_last() =~= success_entries(s));
        assert(success_entries(sy).drop_last() =~= success_entries(s));
    } else {
        assert(success_entries(sx) == success_entries(s));
        assert(success_entries(sy) == success_entries(s));
    }
}

fn starts_with_two(code: &str) -> (b: bool)
    ensures
        b == (code@.len() > 0 && code@[0] == '2'),
{
    code.unicode_len() > 0 && code.get_char(0) == '2'
}

/// The request counts of a run from its status code distribution: all
/// counts added up, and those of codes not starting with `2`; no
/// distribution counts as none.
pub fn count_requests(status_codes: &Option<Vec<StatusCount>>) -> (r: RequestCounts)
    requires
        status_codes matches Some(v) ==> count_sum(status_view(v@)) <= u64::MAX,
    ensures
        match status_codes {
            Some(v) => r.total_requests == count_sum(status_view(v@))
                && r.total_errors == count_sum(status_view(v@)) - count_sum(success_entries(status_view(v@))),
            None => r.total_requests == 0 && r.total_errors == 0,
        },
{
    match status_codes {
        None => RequestCounts { total_requests: 0, total_errors: 0 },
        Some(v) => {
            let ghost s = status_view(v@);
            let ghost pred = |p: (Seq<char>, Option<u64>)| p.0.len() > 0 && p.0[0] == '2';
            let mut total: u64 = 0;
            let mut success: u64 = 0;
            let mut i: usize = 0;
            proof {
                law_success_within_total(s);
                assert(s.take(0) =~= Seq::<(Seq<char>, Option<u64>)>::empty());
                assert(success_entries(s.take(0)) =~= Seq::<(Seq<char>, Option<u64>)>::empty());
            }
            while i < v.len()
                invariant
                    s == status_view(v@),
                    pred == (|p: (Seq<char>, Option<u64>)| p.0.len() > 0 && p.0[0] == '2'),
                    count_sum(s) <= u64::MAX,
                    i <= v@.len(),
                    total == count_sum(s.take(i as int)),
                    success == count_sum(success_entries(s.take(i as int))),
                    success <= total,
                decreases v.len() - i,
            {
                proof {
                    lemma_count_sum_take(s, i as int);
                    lemma_count_sum_prefix(s, i + 1);
                    reveal_with_fuel(Seq::filter, 1);
                    let t = s.take(i + 1);
                    assert(t.drop_last() =~= s.take(i as int));
                    assert(t.last() == s[i as int]);
                    law_success_within_total(t);
                    if pred(t.last()) {
                        assert(success_entries(t) == success_entries(s.take(i as int)).push(t.last()));
                        let f = success_entries(t);
                        assert(f.drop_last() =~= success_entries(s.take(i as int)));
                    } else {
                        assert(success_entries(t) == success_entries(s.take(i as int)));
                    }
                }
                if let Some(c) = v[i].1 {
                    total = total + c;
                    if starts_with_two(v[i].0.as_str()) {
                        success = success + c;
                    }
                }
                i = i + 1;
            }
            assert(s.take(v@.len() as int) =~= s);
            RequestCounts { total_requests: total, total_errors: total.saturating_sub(success) }
        },
    }
}

/// How a report is written.
#[derive(Debug, Clone, Copy, PartialEq, Eq)]
pub enum ReportFormat {
    /// A table on the terminal (`table` or `text`).
    Table,
    /// The summaries as JSON (`json`).
    Json,
    /// The summaries as CSV (`csv`).
    Csv,
}

/// The report format a name stands for: `table` and `text` for the table,
/// `json`, `csv`; `None` for any other name.
pub open spec fn report_format_spec(name: Seq<char>) -> Option<ReportFormat> {
    if name == "table"@ || name == "text"@ {
        Some(ReportFormat::Table)
    } else if name == "json"@ {
        Some(ReportFormat::Json)
    } else if name == "csv"@ {
        Some(ReportFormat::Csv)
    } else {
        None
    }
}

/// The report format named by `name`, if it is one.
pub fn report_format(name: &str) -> (r: Option<ReportFormat>)
    ensures
        r == report_format_spec(name@),
{
    let n = name.to_owned();
    if n == String::from_str("table") || n == String::from_str("text") {
        Some(ReportFormat::Table)
    } else if n == String::from_str("json") {
        Some(ReportFormat::Json)
    } else if n == String::from_str("csv") {
        Some(ReportFormat::Csv)
    } else {
        None
    }
}

} // verus!
