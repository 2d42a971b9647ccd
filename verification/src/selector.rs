//! Choosing tests: by name, by tag, and the labels of the interactive menus.

use vstd::prelude::*;
use crate::config::{TestCase, TestCaseView, lemma_strings_view_push, strings_view};
use crate::loader::tests_view;
use crate::text::{join, pad_right, push_char, str_eq};

verus! {

/// Why no test could be chosen.
pub enum SelectError {
    /// There is no test to choose from.
    NoTests,
    /// No test has this name.
    NotFound(String),
}

/// Test `i` is the first one named `name`.
pub open spec fn first_named(ts: Seq<TestCaseView>, name: Seq<char>, i: int) -> bool {
    &&& 0 <= i < ts.len()
    &&& ts[i].name == name
    &&& forall|j: int| 0 <= j < i ==> (#[trigger] ts[j]).name != name
}

/// The first test with exactly this name.
pub fn find_by_name<'a>(tests: &'a [TestCase], name: &str) -> (r: Result<&'a TestCase, SelectError>)
    ensures
        r matches Ok(t) ==> exists|i: int| first_named(tests_view(tests@), name@, i) && t@ == tests@[i]@,
        r matches Ok(t) ==> t@.name == name@,
        r is Err <==> forall|i: int| 0 <= i < tests@.len() ==> (#[trigger] tests@[i])@.name != name@,
        r matches Err(e) ==> (e matches SelectError::NotFound(n) && n@ == name@),
{
    let ghost ts = tests_view(tests@);
    let mut i: usize = 0;
    while i < tests.len()
        invariant
            ts == tests_view(tests@),
            i <= tests@.len(),
            forall|j: int| 0 <= j < i ==> (#[trigger] tests@[j])@.name != name@,
        decreases tests.len() - i,
    {
        if str_eq(tests[i].name.as_str(), name) {
            assert(first_named(ts, name@, i as int)) by {
                assert forall|j: int| 0 <= j < i implies (#[trigger] ts[j]).name != name@ by {
                    assert(ts[j] == tests@[j]@);
                }
            }
            return Ok(&tests[i]);
        }
        i = i + 1;
    }
    Err(SelectError::NotFound(name.to_owned()))
}

/// Whether the test carries `tag`.
pub open spec fn has_tag(t: TestCaseView, tag: Seq<char>) -> bool {
    t.tags.contains(tag)
}

/// The tests that carry `tag`, in order.
pub open spec fn filter_tag(ts: Seq<TestCaseView>, tag: Seq<char>) -> Seq<TestCaseView>
    decreases ts.len(),
{
    if ts.len() == 0 {
        Seq::empty()
    } else if has_tag(ts.last(), tag) {
        filter_tag(ts.drop_last(), tag).push(ts.last())
    } else {
        filter_tag(ts.drop_last(), tag)
    }
}

/// Filtering by a tag keeps exactly the tests that carry it, wherever it
/// stands among their tags: every kept test is one of the tests and has the
/// tag at some position, and every test with the tag at any position is
/// kept.
pub proof fn law_filter_tag_exact(ts: Seq<TestCaseView>, tag: Seq<char>)
    ensures
        forall|k: int| 0 <= k < filter_tag(ts, tag).len() ==>
            ts.contains(#[trigger] filter_tag(ts, tag)[k])
            && exists|j: int| 0 <= j < filter_tag(ts, tag)[k].tags.len() && filter_tag(ts, tag)[k].tags[j] == tag,
        forall|i: int, j: int| 0 <= i < ts.len() && 0 <= j < ts[i].tags.len() && #[trigger] ts[i].tags[j] == tag
            ==> filter_tag(ts, tag).contains(ts[i]),
    decreases ts.len(),
{
    if ts.len() > 0 {
        let p = ts.drop_last();
        law_filter_tag_exact(p, tag);
        let r = filter_tag(ts, tag);
        let rp = filter_tag(p, tag);
        assert forall|k: int| 0 <= k < r.len() implies
            ts.contains(#[trigger] r[k])
            && exists|j: int| 0 <= j < r[k].tags.len() && r[k].tags[j] == tag by {
            if k < rp.len() {
                assert(r[k] == rp[k]);
                let x = choose|m: int| 0 <= m < p.len() && p[m] == rp[k];
                assert(ts[x] == p[x]);
            } else {
                assert(r[k] == ts.last());
                assert(ts[ts.len() - 1] == ts.last());
                assert(ts.last().tags.contains(tag));
            }
        }
        assert forall|i: int, j: int| 0 <= i < ts.len() && 0 <= j < ts[i].tags.len() && #[trigger] ts[i].tags[j] == tag
            implies r.contains(ts[i]) by {
            if i < p.len() {
                assert(p[i] == ts[i]);
                assert(p[i].tags[j] == tag);
                let x = choose|m: int| 0 <= m < rp.len() && rp[m] == p[i];
                if has_tag(ts.last(), tag) {
                    assert(r[x] == rp[x]);
                }
            } else {
                assert(ts[i] == ts.last());
                assert(ts.last().tags[j] == tag);
                assert(has_tag(ts.last(), tag));
                assert(r[r.len() - 1] == ts.last());
            }
        }
    }
}

fn test_has_tag(t: &TestCase, tag: &str) -> (b: bool)
    ensures
        b == has_tag(t@, tag@),
{
    let mut i: usize = 0;
    while i < t.tags.len()
        invariant
            i <= t.tags@.len(),
            forall|j: int| 0 <= j < i ==> strings_view(t.tags@)[j] != tag@,
        decreases t.tags.len() - i,
    {
        if str_eq(t.tags[i].as_str(), tag) {
            assert(strings_view(t.tags@)[i as int] == tag@);
            return true;
        }
        i = i + 1;
    }
    false
}

/// The views of a list of borrowed tests.
pub open spec fn refs_view(v: Seq<&TestCase>) -> Seq<TestCaseView> {
    v.map_values(|t: &TestCase| t@)
}

/// The tests that carry `tag`, in order.
pub fn filter_by_tag<'a>(tests: &'a [TestCase], tag: &str) -> (r: Vec<&'a TestCase>)
    ensures
        refs_view(r@) == filter_tag(tests_view(tests@), tag@),
{
    let ghost ts = tests_view(tests@);
    let mut r: Vec<&'a TestCase> = Vec::new();
    let mut i: usize = 0;
    assert(ts.take(0) =~= Seq::<TestCaseView>::empty());
    assert(refs_view(r@) =~= Seq::<TestCaseView>::empty());
    while i < tests.len()
        invariant
            ts == tests_view(tests@),
            i <= tests@.len(),
            refs_view(r@) == filter_tag(ts.take(i as int), tag@),
        decreases tests.len() - i,
    {
        assert(ts.take(i + 1).drop_last() =~= ts.take(i as int));
        assert(ts.take(i + 1).last() == tests@[i as int]@);
        if test_has_tag(&tests[i], tag) {
            let ghost before = r@;
            r.push(&tests[i]);
            assert(refs_view(r@) =~= refs_view(before).push(tests@[i as int]@));
        }
        i = i + 1;
    }
    assert(ts.take(tests@.len() as int) =~= ts);
    r
}

/// ` [tag, tag]` after a label, or nothing for a test without tags.
pub open spec fn tags_suffix(tags: Seq<Seq<char>>) -> Seq<char> {
    if tags.len() == 0 {
        Seq::empty()
    } else {
        " ["@ + join(tags, ", "@) + "]"@
    }
}

/// The line of a test in the single-choice menu: the name padded to 30
/// characters, the method, the URL, the description after a dash when there
/// is a non-empty one, and the tags.
pub open spec fn select_label_spec(t: TestCaseView) -> Seq<char> {
    let desc = match t.description {
        Some(d) => d,
        None => Seq::empty(),
    };
    let head = pad_right(t.name, 30) + " "@ + t.method + " "@ + t.url;
    if desc.len() == 0 {
        head + tags_suffix(t.tags)
    } else {
        head + "  — "@ + desc + tags_suffix(t.tags)
    }
}

/// The line of a test in the multiple-choice menu: `name (METHOD)` and the
/// tags.
pub open spec fn multi_select_label_spec(t: TestCaseView) -> Seq<char> {
    t.name + " ("@ + t.method + ")"@ + tags_suffix(t.tags)
}

/// The tags joined by `, `, as the list of tests shows them.
pub fn join_tags(tags: &Vec<String>) -> (s: String)
    ensures
        s@ == join(strings_view(tags@), ", "@),
{
    let ghost tv = strings_view(tags@);
    let mut s = String::new();
    let mut i: usize = 0;
    while i < tags.len()
        invariant
            tv == strings_view(tags@),
            i <= tags@.len(),
            s@ == join(tv.take(i as int), ", "@),
        decreases tags.len() - i,
    {
        let ghost before = s@;
        if i > 0 {
            s.append(", ");
        }
        s.append(tags[i].as_str());
        proof {
            let t = tv.take(i + 1);
            assert(t.drop_last() =~= tv.take(i as int));
            assert(t.last() == tags@[i as int]@);
            if i == 0 {
                assert(before =~= Seq::<char>::empty());
                assert(s@ =~= join(t, ", "@));
            } else {
                assert(s@ =~= join(t, ", "@));
            }
        }
        i = i + 1;
    }
    assert(tv.take(tags@.len() as int) =~= tv);
    s
}

fn tags_text(tags: &Vec<String>) -> (s: String)
    ensures
        s@ == tags_suffix(strings_view(tags@)),
{
    if tags.len() == 0 {
        return String::new();
    }
    let joined = join_tags(tags);
    let mut s = String::from_str(" [");
    s.append(joined.as_str());
    s.append("]");
    s
}

fn padded(s: &str, width: usize) -> (r: String)
    ensures
        r@ == pad_right(s@, width as nat),
{
    let mut r = s.to_owned();
    let n = s.unicode_len();
    if n < width {
        let mut i: usize = n;
        while i < width
            invariant
                n == s@.len(),
                n <= i <= width,
                r@ == s@ + Seq::new((i - n) as nat, |k: int| ' '),
            decreases width - i,
        {
            push_char(&mut r, ' ');
            assert(r@ =~= s@ + Seq::new((i + 1 - n) as nat, |k: int| ' '));
            i = i + 1;
        }
    }
    assert(r@ =~= pad_right(s@, width as nat));
    r
}

/// The line of a test in the single-choice menu.
pub fn select_label(t: &TestCase) -> (s: String)
    ensures
        s@ == select_label_spec(t@),
{
    let mut s = padded(t.name.as_str(), 30);
    s.append(" ");
    s.append(t.method.as_str());
    s.append(" ");
    s.append(t.url.as_str());
    match &t.description {
        Some(d) => {
            if d.unicode_len() > 0 {
                s.append("  — ");
                s.append(d.as_str());
            }
        },
        None => {},
    }
    let tags = tags_text(&t.tags);
    s.append(tags.as_str());
    s
}

/// The line of a test in the multiple-choice menu.
pub fn multi_select_label(t: &TestCase) -> (s: String)
    ensures
        s@ == multi_select_label_spec(t@),
{
    let mut s = t.name.clone();
    s.append(" (");
    s.append(t.method.as_str());
    s.append(")");
    let tags = tags_text(&t.tags);
    s.append(tags.as_str());
    s
}

/// The lines of the single-choice menu, one per test in order; an error
/// when there is no test.
pub fn select_labels(tests: &[TestCase]) -> (r: Result<Vec<String>, SelectError>)
    ensures
        tests@.len() == 0 ==> (r matches Err(e) && e is NoTests),
        tests@.len() > 0 ==> (r matches Ok(v) && strings_view(v@) == tests_view(tests@).map_values(|t: TestCaseView| select_label_spec(t))),
{
    if tests.len() == 0 {
        return Err(SelectError::NoTests);
    }
    let ghost want = tests_view(tests@).map_values(|t: TestCaseView| select_label_spec(t));
    let mut v: Vec<String> = Vec::new();
    let mut i: usize = 0;
    while i < tests.len()
        invariant
            want == tests_view(tests@).map_values(|t: TestCaseView| select_label_spec(t)),
            i <= tests@.len(),
            strings_view(v@) == want.take(i as int),
        decreases tests.len() - i,
    {
        let ghost before = v@;
        let line = select_label(&tests[i]);
        v.push(line);
        proof {
            lemma_strings_view_push(before, line);
            assert(want.take(i + 1) =~= want.take(i as int).push(want[i as int]));
        }
        i = i + 1;
    }
    assert(want.take(tests@.len() as int) =~= want);
    Ok(v)
}

/// The lines of the multiple-choice menu, one per test in order; an error
/// when there is no test.
pub fn multi_select_labels(tests: &[TestCase]) -> (r: Result<Vec<String>, SelectError>)
    ensures
        tests@.len() == 0 ==> (r matches Err(e) && e is NoTests),
        tests@.len() > 0 ==> (r matches Ok(v) && strings_view(v@) == tests_view(tests@).map_values(|t: TestCaseView| multi_select_label_spec(t))),
{
    if tests.len() == 0 {
        return Err(SelectError::NoTests);
    }
    let ghost want = tests_view(tests@).map_values(|t: TestCaseView| multi_select_label_spec(t));
    let mut v: Vec<String> = Vec::new();
    let mut i: usize = 0;
    while i < tests.len()
        invariant
            want == tests_view(tests@).map_values(|t: TestCaseView| multi_select_label_spec(t)),
            i <= tests@.len(),
            strings_view(v@) == want.take(i as int),
        decreases tests.len() - i,
    {
        let ghost before = v@;
        let line = multi_select_label(&tests[i]);
        v.push(line);
        proof {
            lemma_strings_view_push(before, line);
            assert(want.take(i + 1) =~= want.take(i as int).push(want[i as int]));
        }
        i = i + 1;
    }
    assert(want.take(tests@.len() as int) =~= want);
    Ok(v)
}

} // verus!
