//! Distribution of a total number of requests over tests in proportion to
//! their weights.

use vstd::prelude::*;
use crate::config::{TestCase, TestCaseView};

verus! {

/// The weights of the tests, in order.
pub open spec fn weights_of(tests: Seq<TestCase>) -> Seq<i64> {
    tests.map_values(|t: TestCase| t.weight)
}

/// The sum of the weights.
pub open spec fn weight_sum(ws: Seq<i64>) -> int
    decreases ws.len(),
{
    if ws.len() == 0 {
        0
    } else {
        weight_sum(ws.drop_last()) + ws.last()
    }
}

/// The sum of a sequence of integers.
pub open spec fn int_sum(s: Seq<int>) -> int
    decreases s.len(),
{
    if s.len() == 0 {
        0
    } else {
        int_sum(s.drop_last()) + s.last()
    }
}

/// `|x|`.
pub open spec fn abs(x: int) -> int {
    if x < 0 { -x } else { x }
}

/// `w / total * n` rounded to the nearest integer (halves away from zero)
/// and brought into `u64`: a negative share becomes 0, a share above
/// `u64::MAX` becomes `u64::MAX`.
pub open spec fn rounded_share(w: int, total: int, n: int) -> int {
    let num = w * n;
    if num != 0 && (num > 0) == (total > 0) {
        let a = abs(num);
        let b = abs(total);
        let r = a / b + if 2 * (a % b) >= b { 1int } else { 0int };
        if r > u64::MAX { u64::MAX as int } else { r }
    } else {
        0
    }
}

/// The rounded share of one test, at least 1.
pub open spec fn base_share(w: int, total: int, n: int) -> int {
    let r = rounded_share(w, total, n);
    if r < 1 { 1 } else { r }
}

/// The rounded shares of all tests, each at least 1.
pub open spec fn base_shares(ws: Seq<i64>, n: int) -> Seq<int> {
    ws.map_values(|w: i64| base_share(w as int, weight_sum(ws), n))
}

/// Takes `e` requests back from the shares, from the last one towards the
/// first, leaving each share at least 1.
pub open spec fn trim(b: Seq<int>, e: int) -> Seq<int>
    decreases b.len(),
{
    if b.len() == 0 {
        b
    } else {
        let t = if e < b.last() - 1 { e } else { b.last() - 1 };
        trim(b.drop_last(), e - t).push(b.last() - t)
    }
}

/// The shares corrected so that they add up to `n`: a shortfall goes to
/// the last test; an excess is taken back from the last test first, then
/// from the ones before it, none going below 1 (so with fewer requests
/// than tests every test keeps one).
pub open spec fn adjusted_shares(ws: Seq<i64>, n: int) -> Seq<int> {
    let b = base_shares(ws, n);
    let s = int_sum(b);
    if s < n && b.len() > 0 {
        b.update(b.len() - 1, b.last() + (n - s))
    } else if s > n {
        trim(b, s - n)
    } else {
        b
    }
}

/// The distribution: for each test, in order, its index and its number of
/// requests; nothing when the weights sum to 0.
pub open spec fn distribution_spec(ws: Seq<i64>, n: int) -> Seq<(usize, u64)> {
    if weight_sum(ws) == 0 {
        Seq::empty()
    } else {
        Seq::new(ws.len(), |i: int| (i as usize, adjusted_shares(ws, n)[i] as u64))
    }
}

/// The numbers of requests of a distribution.
pub open spec fn counts_of(d: Seq<(usize, u64)>) -> Seq<int> {
    d.map_values(|p: (usize, u64)| p.1 as int)
}

proof fn lemma_int_sum_take(s: Seq<int>, i: int)
    requires
        0 <= i < s.len(),
    ensures
        int_sum(s.take(i + 1)) == int_sum(s.take(i)) + s[i],
{
    assert(s.take(i + 1).drop_last() =~= s.take(i));
}

proof fn lemma_weight_sum_take(ws: Seq<i64>, i: int)
    requires
        0 <= i < ws.len(),
    ensures
        weight_sum(ws.take(i + 1)) == weight_sum(ws.take(i)) + ws[i],
{
    assert(ws.take(i + 1).drop_last() =~= ws.take(i));
}

/// The rounded share of one weight.
fn share(w: i64, total: i128, n: u64) -> (r: u64)
    requires
        total != 0,
        abs(total as int) <= 0x7fff_ffff_ffff_ffff_8000_0000_0000_0000,
    ensures
        r as int == base_share(w as int, total as int, n as int),
{
    assert(abs(w * n) <= 0x7fff_ffff_ffff_ffff_8000_0000_0000_0000) by (nonlinear_arith)
        requires
            0 <= n <= 0xffff_ffff_ffff_ffff,
            -0x8000_0000_0000_0000 <= w <= 0x7fff_ffff_ffff_ffff,
    {
    }
    let num: i128 = (w as i128) * (n as i128);
    let mut r: u128 = 0;
    if num != 0 && (num > 0) == (total > 0) {
        let a: u128 = if num < 0 { (-num) as u128 } else { num as u128 };
        let b: u128 = if total < 0 { (-total) as u128 } else { total as u128 };
        let q: u128 = a / b;
        let m: u128 = a % b;
        let up: u128 = if 2 * m >= b { 1 } else { 0 };
        let rq: u128 = q + up;
        r = if rq > u64::MAX as u128 { u64::MAX as u128 } else { rq };
    }
    assert(r as int == rounded_share(w as int, total as int, n as int));
    if r < 1 { 1 } else { r as u64 }
}

fn total_weight(tests: &[TestCase]) -> (total: i128)
    ensures
        total == weight_sum(weights_of(tests@)),
        abs(total as int) <= tests@.len() * 0x8000_0000_0000_0000,
{
    let ghost ws = weights_of(tests@);
    let n = tests.len();
    let mut total: i128 = 0;
    let mut i: usize = 0;
    while i < n
        invariant
            n == tests@.len(),
            ws == weights_of(tests@),
            i <= n,
            total == weight_sum(ws.take(i as int)),
            abs(total as int) <= i * 0x8000_0000_0000_0000,
        decreases n - i,
    {
        proof {
            lemma_weight_sum_take(ws, i as int);
        }
        assert(abs(total + tests@[i as int].weight) <= (i + 1) * 0x8000_0000_0000_0000) by (nonlinear_arith)
            requires
                abs(total as int) <= i * 0x8000_0000_0000_0000,
                -0x8000_0000_0000_0000 <= tests@[i as int].weight <= 0x7fff_ffff_ffff_ffff,
                i < 0x1_0000_0000_0000_0000,
        {
        }
        total = total + tests[i].weight as i128;
        i = i + 1;
    }
    assert(ws.take(n as int) =~= ws);
    total
}

proof fn lemma_trim_step(b: Seq<int>, i: int, e: int)
    requires
        0 <= i < b.len(),
    ensures
        ({
            let t = if e < b[i] - 1 { e } else { b[i] - 1 };
            trim(b.take(i + 1), e) == trim(b.take(i), e - t).push(b[i] - t)
        }),
{
    assert(b.take(i + 1).drop_last() =~= b.take(i));
}

/// Distributes `total_requests` over the tests in proportion to their
/// weights: each test gets its rounded share, at least 1, in test order;
/// the shares are then corrected to add up to the total, or to the number
/// of tests when that is larger (see `adjusted_shares`). A zero sum of
/// weights gives nothing.
pub fn distribute_requests(tests: &[TestCase], total_requests: u64) -> (d: Vec<(usize, u64)>)
    ensures
        d@ == distribution_spec(weights_of(tests@), total_requests as int),
{
    let ghost ws = weights_of(tests@);
    let n = tests.len();
    let total = total_weight(tests);
    let mut d: Vec<(usize, u64)> = Vec::new();
    if total == 0 {
        return d;
    }
    let ghost b = base_shares(ws, total_requests as int);
    proof {
        lemma_base_shares_bounds(ws, total_requests as int);
    }
    assert(abs(total as int) <= 0x7fff_ffff_ffff_ffff_8000_0000_0000_0000) by (nonlinear_arith)
        requires
            abs(total as int) <= n * 0x8000_0000_0000_0000,
            n <= 0xffff_ffff_ffff_ffff,
    {
    }
    let mut sum: u128 = 0;
    let mut j: usize = 0;
    assert(b.take(0) =~= Seq::<int>::empty());
    while j < n
        invariant
            n == tests@.len(),
            ws == weights_of(tests@),
            b == base_shares(ws, total_requests as int),
            total == weight_sum(ws),
            total != 0,
            abs(total as int) <= 0x7fff_ffff_ffff_ffff_8000_0000_0000_0000,
            j <= n,
            sum == int_sum(b.take(j as int)),
            sum <= j * 0xffff_ffff_ffff_ffff,
            d@.len() == j,
            forall|k: int| 0 <= k < j ==> #[trigger] d@[k] == (k as usize, b[k] as u64),
        decreases n - j,
    {
        let s = share(tests[j].weight, total, total_requests);
        proof {
            lemma_int_sum_take(b, j as int);
        }
        assert(sum + s <= (j + 1) * 0xffff_ffff_ffff_ffff) by (nonlinear_arith)
            requires
                sum <= j * 0xffff_ffff_ffff_ffff,
                s <= 0xffff_ffff_ffff_ffff,
        {
        }
        assert((j + 1) * 0xffff_ffff_ffff_ffff <= 0xffff_ffff_ffff_fffe_0000_0000_0000_0001) by (nonlinear_arith)
            requires
                j < n,
                n <= 0xffff_ffff_ffff_ffff,
        {
        }
        d.push((j, s));
        sum = sum + s as u128;
        j = j + 1;
    }
    assert(b.take(n as int) =~= b);
    let goal: u128 = total_requests as u128;
    if sum < goal {
        proof {
            lemma_int_sum_take(b, n - 1);
            lemma_nonneg_sum(b.take(n - 1));
            assert(b.take(n as int) =~= b);
        }
        let last = d[n - 1].1;
        d.set(n - 1, (n - 1, last + (goal - sum) as u64));
    } else if sum > goal {
        let mut e: u128 = sum - goal;
        let ghost mut suf: Seq<int> = Seq::empty();
        let mut i: usize = n;
        while i > 0
            invariant
                n == tests@.len(),
                b == base_shares(ws, total_requests as int),
                b.len() == n,
                forall|k: int| 0 <= k < n ==> 1 <= #[trigger] b[k] <= u64::MAX,
                i <= n,
                d@.len() == n,
                forall|k: int| 0 <= k < i ==> #[trigger] d@[k] == (k as usize, b[k] as u64),
                suf.len() == n - i,
                forall|k: int| i <= k < n ==> #[trigger] d@[k] == (k as usize, suf[k - i] as u64),
                forall|k: int| 0 <= k < suf.len() ==> 1 <= #[trigger] suf[k] <= u64::MAX,
                trim(b, sum - goal) == trim(b.take(i as int), e as int) + suf,
            decreases i,
        {
            i = i - 1;
            let v = d[i].1;
            assert(v as int == b[i as int]);
            let t: u64 = if e < (v - 1) as u128 { e as u64 } else { v - 1 };
            proof {
                lemma_trim_step(b, i as int, e as int);
                let tail = trim(b.take(i as int), e - t);
                assert(tail.push(b[i as int] - t) + suf =~= tail + (seq![b[i as int] - t] + suf));
                suf = seq![v - t] + suf;
            }
            d.set(i, (i, v - t));
            e = e - t as u128;
        }
        assert(b.take(0) =~= Seq::<int>::empty());
        assert(trim(b, sum - goal) =~= suf);
    }
    assert(d@ =~= distribution_spec(ws, total_requests as int));
    d
}

/// Every rounded share is between 1 and `u64::MAX`.
pub proof fn lemma_base_shares_bounds(ws: Seq<i64>, n: int)
    ensures
        forall|k: int| 0 <= k < ws.len() ==> 1 <= #[trigger] base_shares(ws, n)[k] <= u64::MAX,
{
}

proof fn lemma_nonneg_sum(s: Seq<int>)
    requires
        forall|k: int| 0 <= k < s.len() ==> s[k] >= 1,
    ensures
        int_sum(s) >= s.len(),
    decreases s.len(),
{
    if s.len() > 0 {
        lemma_nonneg_sum(s.drop_last());
    }
}

proof fn lemma_int_sum_push(s: Seq<int>, x: int)
    ensures
        int_sum(s.push(x)) == int_sum(s) + x,
{
    assert(s.push(x).drop_last() =~= s);
}

/// Taking `e` back keeps every share between 1 and what it was, and
/// lowers the sum by `e`, or by as much as the shares above 1 allow.
proof fn lemma_trim(b: Seq<int>, e: int)
    requires
        e >= 0,
        forall|k: int| 0 <= k < b.len() ==> b[k] >= 1,
    ensures
        trim(b, e).len() == b.len(),
        forall|k: int| 0 <= k < b.len() ==> 1 <= #[trigger] trim(b, e)[k] <= b[k],
        int_sum(trim(b, e)) == int_sum(b) - if e < int_sum(b) - b.len() { e } else { int_sum(b) - b.len() },
    decreases b.len(),
{
    if b.len() > 0 {
        let p = b.drop_last();
        let t = if e < b.last() - 1 { e } else { b.last() - 1 };
        lemma_trim(p, e - t);
        lemma_nonneg_sum(p);
        lemma_int_sum_push(trim(p, e - t), b.last() - t);
        assert(int_sum(b) == int_sum(p) + b.last());
    }
}

proof fn lemma_adjusted(ws: Seq<i64>, n: int)
    requires
        0 <= n <= u64::MAX,
        ws.len() > 0,
    ensures
        adjusted_shares(ws, n).len() == ws.len(),
        forall|k: int| 0 <= k < ws.len() ==> 1 <= #[trigger] adjusted_shares(ws, n)[k] <= u64::MAX,
        int_sum(adjusted_shares(ws, n)) == if n < ws.len() { ws.len() as int } else { n },
{
    lemma_base_shares_bounds(ws, n);
    let b = base_shares(ws, n);
    let a = adjusted_shares(ws, n);
    let s = int_sum(b);
    lemma_nonneg_sum(b);
    if s < n {
        let p = b.drop_last();
        lemma_nonneg_sum(p);
        lemma_int_sum_push(p, b.last());
        assert(p.push(b.last()) =~= b);
        lemma_int_sum_push(p, b.last() + (n - s));
        assert(p.push(b.last() + (n - s)) =~= a);
    } else if s > n {
        lemma_trim(b, s - n);
    }
}

/// The distribution has one entry per test, in test order, and every test
/// gets at least one request.
pub proof fn lemma_distribution_shape(ws: Seq<i64>, n: int)
    requires
        0 <= n <= u64::MAX,
        ws.len() <= usize::MAX,
        weight_sum(ws) != 0,
    ensures
        distribution_spec(ws, n).len() == ws.len(),
        forall|k: int| 0 <= k < ws.len() ==> (#[trigger] distribution_spec(ws, n)[k]).0 == k,
        forall|k: int| 0 <= k < ws.len() ==> (#[trigger] distribution_spec(ws, n)[k]).1 >= 1,
{
    lemma_adjusted(ws, n);
}

/// The requests of a distribution add up to the requested total; when
/// there are more tests than requests, every test gets one and the sum is
/// the number of tests. With a zero sum of weights there is no
/// distribution at all.
pub proof fn lemma_distribution_total(ws: Seq<i64>, n: int)
    requires
        0 <= n <= u64::MAX,
        weight_sum(ws) != 0,
        ws.len() <= usize::MAX,
    ensures
        int_sum(counts_of(distribution_spec(ws, n))) == if n < ws.len() { ws.len() as int } else { n },
{
    assert(ws.len() > 0);
    lemma_adjusted(ws, n);
    assert(counts_of(distribution_spec(ws, n)) =~= adjusted_shares(ws, n));
}

proof fn lemma_equal_weight_sum(ws: Seq<i64>, w: i64)
    requires
        forall|i: int| 0 <= i < ws.len() ==> ws[i] == w,
    ensures
        weight_sum(ws) == ws.len() * w,
    decreases ws.len(),
{
    if ws.len() > 0 {
        lemma_equal_weight_sum(ws.drop_last(), w);
        assert(weight_sum(ws) == (ws.len() - 1) * w + w);
        assert((ws.len() - 1) * w + w == ws.len() * w) by (nonlinear_arith);
    }
}

proof fn lemma_equal_int_sum(s: Seq<int>, q: int)
    requires
        forall|i: int| 0 <= i < s.len() ==> s[i] == q,
    ensures
        int_sum(s) == s.len() * q,
    decreases s.len(),
{
    if s.len() > 0 {
        lemma_equal_int_sum(s.drop_last(), q);
        assert((s.len() - 1) * q + q == s.len() * q) by (nonlinear_arith);
    }
}

proof fn lemma_rounded_equal_share(w: int, k: int, q: int)
    requires
        w != 0,
        k > 0,
        q > 0,
        q <= u64::MAX,
    ensures
        rounded_share(w, k * w, k * q) == q,
{
    let num = w * (k * q);
    let total = k * w;
    let a = abs(w);
    assert(a > 0);
    assert(num != 0 && (num > 0) == (total > 0)) by (nonlinear_arith)
        requires
            num == w * (k * q),
            total == k * w,
            w != 0,
            k > 0,
            q > 0,
    {
    }
    assert(abs(num) == a * k * q) by (nonlinear_arith)
        requires
            num == w * (k * q),
            a == abs(w),
            k > 0,
            q > 0,
    {
    }
    assert(abs(total) == a * k) by (nonlinear_arith)
        requires
            total == k * w,
            a == abs(w),
            k > 0,
    {
    }
    let x = a * k;
    assert(x > 0) by (nonlinear_arith)
        requires
            x == a * k,
            a > 0,
            k > 0,
    {
    }
    assert(a * k * q == x * q) by (nonlinear_arith)
        requires
            x == a * k,
    {
    }
    assert((x * q) / x == q && (x * q) % x == 0) by {
        vstd::arithmetic::div_mod::lemma_div_by_multiple(q, x);
        vstd::arithmetic::div_mod::lemma_mod_multiples_basic(q, x);
    }
}

/// Equal weights share the requests equally: when the total is a positive
/// multiple of the number of tests, every test gets exactly its part.
pub proof fn law_equal_weights_equal_shares(ws: Seq<i64>, n: int)
    requires
        ws.len() > 0,
        ws.len() <= usize::MAX,
        0 < n <= u64::MAX,
        n % (ws.len() as int) == 0,
        ws[0] != 0,
        forall|i: int| 0 <= i < ws.len() ==> #[trigger] ws[i] == ws[0],
    ensures
        forall|i: int| 0 <= i < ws.len() ==> (#[trigger] distribution_spec(ws, n)[i]).1 == n / (ws.len() as int),
{
    let k = ws.len() as int;
    let w = ws[0];
    let q = n / k;
    assert(n == k * q) by (nonlinear_arith)
        requires
            n % k == 0,
            k > 0,
            q == n / k,
    {
    }
    assert(q > 0 && q <= n) by (nonlinear_arith)
        requires
            n == k * q,
            k > 0,
            n > 0,
    {
    }
    lemma_equal_weight_sum(ws, w);
    assert(weight_sum(ws) == k * w);
    assert(weight_sum(ws) != 0) by (nonlinear_arith)
        requires
            weight_sum(ws) == k * w,
            k > 0,
            w != 0,
    {
    }
    lemma_rounded_equal_share(w as int, k, q);
    let b = base_shares(ws, n);
    assert forall|i: int| 0 <= i < k implies #[trigger] b[i] == q by {
        assert(ws[i] == w);
    }
    lemma_equal_int_sum(b, q);
    assert(int_sum(b) == n);
    assert(adjusted_shares(ws, n) == b);
}

/// Gives each weighted test its number of requests and no duration.
pub open spec fn weighted_test(t: TestCaseView, requests: u64) -> TestCaseView {
    TestCaseView { requests: Some(requests), duration: None, ..t }
}

/// The tests of a weighted run: each test of the distribution, in order,
/// with its number of requests and without a duration (so that `-n` is
/// used rather than `-z`).
pub fn apply_weights(tests: &[TestCase], total_requests: u64) -> (r: Vec<TestCase>)
    ensures
        r@.len() == distribution_spec(weights_of(tests@), total_requests as int).len(),
        forall|k: int| 0 <= k < r@.len() ==> {
            let p = #[trigger] distribution_spec(weights_of(tests@), total_requests as int)[k];
            r@[k]@ == weighted_test(tests@[p.0 as int]@, p.1)
        },
{
    let d = distribute_requests(tests, total_requests);
    let mut r: Vec<TestCase> = Vec::new();
    let mut k: usize = 0;
    while k < d.len()
        invariant
            d@ == distribution_spec(weights_of(tests@), total_requests as int),
            k <= d@.len(),
            r@.len() == k,
            forall|j: int| 0 <= j < k ==> #[trigger] r@[j]@ == weighted_test(tests@[d@[j].0 as int]@, d@[j].1),
        decreases d.len() - k,
    {
        let (idx, n) = d[k];
        proof {
            if weight_sum(weights_of(tests@)) != 0 {
                assert(d@[k as int].0 == k);
            }
        }
        assert(idx < tests@.len());
        let mut t = tests[idx].clone();
        t.requests = Some(n);
        t.duration = None;
        r.push(t);
        k = k + 1;
    }
    r
}

} // verus!
