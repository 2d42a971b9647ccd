//! Ordering results by test name, as `String`'s `Ord` does, keeping the
//! relative order of equal names.

use vstd::prelude::*;
use crate::config::strings_view;

verus! {

/// `a` is at most `b` in lexicographic order of code points: the order of
/// `String`'s `Ord`, which compares UTF-8 bytes, and UTF-8 keeps the order
/// of code points.
pub open spec fn text_le(a: Seq<char>, b: Seq<char>) -> bool
    decreases a.len(),
{
    if a.len() == 0 {
        true
    } else if b.len() == 0 {
        false
    } else if a[0] != b[0] {
        (a[0] as int) < (b[0] as int)
    } else {
        text_le(a.drop_first(), b.drop_first())
    }
}

/// Any two texts are ordered one way or the other.
pub proof fn lemma_text_le_total(a: Seq<char>, b: Seq<char>)
    ensures
        text_le(a, b) || text_le(b, a),
    decreases a.len(),
{
    if a.len() > 0 && b.len() > 0 {
        if a[0] == b[0] {
            lemma_text_le_total(a.drop_first(), b.drop_first());
        } else {
            assert(a[0] as int != b[0] as int);
        }
    }
}

/// Texts ordered both ways are equal.
pub proof fn lemma_text_le_antisymmetric(a: Seq<char>, b: Seq<char>)
    requires
        text_le(a, b),
        text_le(b, a),
    ensures
        a == b,
    decreases a.len(),
{
    if a.len() == 0 {
        assert(b.len() == 0);
        assert(a =~= b);
    } else {
        assert(b.len() > 0);
        if a[0] == b[0] {
            lemma_text_le_antisymmetric(a.drop_first(), b.drop_first());
            assert(a =~= seq![a[0]] + a.drop_first());
            assert(b =~= seq![b[0]] + b.drop_first());
        } else {
            assert(a[0] as int != b[0] as int);
        }
    }
}

/// The order is transitive.
pub proof fn lemma_text_le_transitive(a: Seq<char>, b: Seq<char>, c: Seq<char>)
    requires
        text_le(a, b),
        text_le(b, c),
    ensures
        text_le(a, c),
    decreases a.len(),
{
    if a.len() > 0 {
        assert(b.len() > 0);
        assert(c.len() > 0);
        if a[0] == b[0] && b[0] == c[0] {
            lemma_text_le_transitive(a.drop_first(), b.drop_first(), c.drop_first());
        } else {
            if a[0] == c[0] {
                assert((a[0] as int) <= (b[0] as int) && (b[0] as int) <= (c[0] as int));
                assert(a[0] == b[0]);
            }
        }
    }
}

proof fn lemma_text_le_skip(a: Seq<char>, b: Seq<char>, i: int)
    requires
        0 <= i <= a.len(),
        i <= b.len(),
        a.take(i) == b.take(i),
    ensures
        text_le(a, b) == text_le(a.skip(i), b.skip(i)),
    decreases i,
{
    if i > 0 {
        assert(a[0] == a.take(i)[0]);
        assert(b[0] == b.take(i)[0]);
        assert(a.drop_first().take(i - 1) =~= a.take(i).drop_first());
        assert(b.drop_first().take(i - 1) =~= b.take(i).drop_first());
        lemma_text_le_skip(a.drop_first(), b.drop_first(), i - 1);
        assert(a.drop_first().skip(i - 1) =~= a.skip(i));
        assert(b.drop_first().skip(i - 1) =~= b.skip(i));
    } else {
        assert(a.skip(0) =~= a);
        assert(b.skip(0) =~= b);
    }
}

/// Whether `a` comes at most as late as `b` in the order of `String`.
pub fn text_le_exec(a: &str, b: &str) -> (r: bool)
    ensures
        r == text_le(a@, b@),
{
    let n = a.unicode_len();
    let m = b.unicode_len();
    let mut i: usize = 0;
    while i < n && i < m
        invariant
            n == a@.len(),
            m == b@.len(),
            i <= n,
            i <= m,
            a@.take(i as int) == b@.take(i as int),
        decreases n - i,
    {
        let ca = a.get_char(i);
        let cb = b.get_char(i);
        if ca != cb {
            proof {
                lemma_text_le_skip(a@, b@, i as int);
                assert(a@.skip(i as int)[0] == ca);
                assert(b@.skip(i as int)[0] == cb);
            }
            return (ca as u32) < (cb as u32);
        }
        assert(a@.take(i + 1) =~= a@.take(i as int).push(ca));
        assert(b@.take(i + 1) =~= b@.take(i as int).push(cb));
        i = i + 1;
    }
    proof {
        lemma_text_le_skip(a@, b@, i as int);
    }
    i == n
}

/// `r` holds each index below `n` exactly once.
pub open spec fn is_index_permutation(r: Seq<usize>, n: int) -> bool {
    &&& r.len() == n
    &&& forall|k: int| 0 <= k < r.len() ==> (#[trigger] r[k]) < n
    &&& forall|k: int, l: int| 0 <= k < r.len() && 0 <= l < r.len() && k != l ==> r[k] != r[l]
}

/// Following `r`, the names never decrease, and equal names keep their
/// original order.
pub open spec fn stably_sorted(names: Seq<Seq<char>>, r: Seq<usize>) -> bool {
    forall|k: int, l: int| 0 <= k < l < r.len() ==> {
        &&& text_le(names[#[trigger] r[k] as int], names[#[trigger] r[l] as int])
        &&& (names[r[k] as int] == names[r[l] as int] ==> r[k] < r[l])
    }
}

/// The order in which to list results by name (`sort_by` on the names,
/// which is stable): the positions of `names`, sorted by name, equal names
/// in their original order.
pub fn name_order(names: &Vec<String>) -> (r: Vec<usize>)
    ensures
        is_index_permutation(r@, names@.len() as int),
        stably_sorted(strings_view(names@), r@),
{
    let ghost nv = strings_view(names@);
    let mut r: Vec<usize> = Vec::new();
    let n = names.len();
    let mut j: usize = 0;
    while j < n
        invariant
            n == names@.len(),
            nv == strings_view(names@),
            nv.len() == n,
            j <= n,
            is_index_permutation(r@, j as int),
            stably_sorted(nv, r@),
        decreases n - j,
    {
        let ghost x = nv[j as int];
        let mut p: usize = r.len();
        while p > 0 && !text_le_exec(names[r[p - 1]].as_str(), names[j].as_str())
            invariant
                n == names@.len(),
                nv == strings_view(names@),
                nv.len() == n,
                j < n,
                x == nv[j as int],
                is_index_permutation(r@, j as int),
                stably_sorted(nv, r@),
                p <= r@.len(),
                forall|k: int| p <= k < r@.len() ==> !text_le(nv[#[trigger] r@[k] as int], x),
            decreases p,
        {
            assert(names@[r@[p - 1] as int]@ == nv[r@[p - 1] as int]);
            p = p - 1;
        }
        proof {
            if p > 0 {
                assert(names@[r@[p - 1] as int]@ == nv[r@[p - 1] as int]);
                assert(text_le(nv[r@[p - 1] as int], x));
            }
        }
        let ghost old_r = r@;
        r.insert(p, j);
        proof {
            let nr = r@;
            assert(nr == old_r.insert(p as int, j));
            assert forall|k: int| 0 <= k < nr.len() implies (#[trigger] nr[k]) < j + 1 by {
                if k < p {
                    assert(nr[k] == old_r[k]);
                } else if k > p {
                    assert(nr[k] == old_r[k - 1]);
                }
            }
            assert forall|k: int, l: int| 0 <= k < nr.len() && 0 <= l < nr.len() && k != l implies nr[k] != nr[l] by {
                let ok = if k < p { k } else { k - 1 };
                let ol = if l < p { l } else { l - 1 };
                if k != p && l != p {
                    assert(nr[k] == old_r[ok]);
                    assert(nr[l] == old_r[ol]);
                } else if k == p {
                    assert(nr[l] == old_r[ol]);
                } else {
                    assert(nr[k] == old_r[ok]);
                }
            }
            assert forall|k: int, l: int| 0 <= k < l < nr.len() implies {
                &&& text_le(nv[#[trigger] nr[k] as int], nv[#[trigger] nr[l] as int])
                &&& (nv[nr[k] as int] == nv[nr[l] as int] ==> nr[k] < nr[l])
            } by {
                if l < p {
                    assert(nr[k] == old_r[k] && nr[l] == old_r[l]);
                } else if k > p {
                    assert(nr[k] == old_r[k - 1] && nr[l] == old_r[l - 1]);
                } else if k < p && l > p {
                    assert(nr[k] == old_r[k] && nr[l] == old_r[l - 1]);
                } else if k == p {
                    assert(nr[k] == j);
                    assert(nr[l] == old_r[l - 1]);
                    let y = nv[old_r[l - 1] as int];
                    assert(!text_le(y, x));
                    lemma_text_le_total(x, y);
                } else {
                    assert(l == p);
                    assert(nr[l] == j);
                    assert(nr[k] == old_r[k]);
                    if k < p - 1 {
                        assert(text_le(nv[old_r[k] as int], nv[old_r[p - 1] as int]));
                        lemma_text_le_transitive(nv[old_r[k] as int], nv[old_r[p - 1] as int], x);
                    }
                }
            }
        }
        j = j + 1;
    }
    r
}

} // verus!
