//! An insertion-ordered map from strings to strings, standing for the
//! `HashMap<String, String>` fields of the configuration (headers, query
//! parameters, environment variables).

use vstd::prelude::*;

verus! {

/// Key/value pairs of a string map, in order.
pub type Entries = Seq<(Seq<char>, Seq<char>)>;

/// Entry `i` is the first with key `k`.
pub open spec fn first_key_at(s: Entries, k: Seq<char>, i: int) -> bool {
    &&& 0 <= i < s.len()
    &&& s[i].0 == k
    &&& forall|j: int| 0 <= j < i ==> (#[trigger] s[j]).0 != k
}

/// Whether some entry has key `k`.
pub open spec fn has_key(s: Entries, k: Seq<char>) -> bool {
    exists|i: int| 0 <= i < s.len() && (#[trigger] s[i]).0 == k
}

/// The position of the first entry with key `k` (meaningful when `has_key`).
pub open spec fn key_index(s: Entries, k: Seq<char>) -> int {
    choose|i: int| first_key_at(s, k, i)
}

/// The value stored under `k`, if any.
pub open spec fn lookup(s: Entries, k: Seq<char>) -> Option<Seq<char>> {
    if has_key(s, k) {
        Some(s[key_index(s, k)].1)
    } else {
        None
    }
}

/// `s` with `k` bound to `v`: an existing entry for `k` keeps its place and
/// takes the new value; otherwise the pair is added at the end.
pub open spec fn insert_entry(s: Entries, k: Seq<char>, v: Seq<char>) -> Entries {
    if has_key(s, k) {
        s.update(key_index(s, k), (k, v))
    } else {
        s.push((k, v))
    }
}

/// `a` with every pair of `b` inserted in order (`HashMap::extend`): the
/// values of `b` win over those of `a`.
pub open spec fn extend_entries(a: Entries, b: Entries) -> Entries
    decreases b.len(),
{
    if b.len() == 0 {
        a
    } else {
        insert_entry(extend_entries(a, b.drop_last()), b.last().0, b.last().1)
    }
}

/// No key occurs twice.
pub open spec fn keys_unique(s: Entries) -> bool {
    forall|i: int, j: int| 0 <= i < s.len() && 0 <= j < s.len() && i != j ==> (#[trigger] s[i]).0 != (#[trigger] s[j]).0
}

/// A first position for a present key exists and is the only one.
pub proof fn lemma_key_index(s: Entries, k: Seq<char>)
    requires
        has_key(s, k),
    ensures
        first_key_at(s, k, key_index(s, k)),
        forall|i: int| first_key_at(s, k, i) ==> i == key_index(s, k),
    decreases s.len(),
{
    let w = choose|i: int| 0 <= i < s.len() && (#[trigger] s[i]).0 == k;
    lemma_first_exists(s, k, w);
    let f = key_index(s, k);
    assert forall|i: int| first_key_at(s, k, i) implies i == f by {
        if i < f {
            assert(s[i].0 != k);
        } else if f < i {
            assert(s[f].0 != k);
        }
    }
}

proof fn lemma_first_exists(s: Entries, k: Seq<char>, w: int)
    requires
        0 <= w < s.len(),
        s[w].0 == k,
    ensures
        exists|i: int| first_key_at(s, k, i),
    decreases w,
{
    if forall|j: int| 0 <= j < w ==> (#[trigger] s[j]).0 != k {
        assert(first_key_at(s, k, w));
    } else {
        let j = choose|j: int| 0 <= j < w && (#[trigger] s[j]).0 != k == false;
        lemma_first_exists(s, k, j);
    }
}

/// Inserting keeps keys unique.
pub proof fn lemma_insert_unique(s: Entries, k: Seq<char>, v: Seq<char>)
    requires
        keys_unique(s),
    ensures
        keys_unique(insert_entry(s, k, v)),
        has_key(insert_entry(s, k, v), k),
        lookup(insert_entry(s, k, v), k) == Some(v),
{
    let r = insert_entry(s, k, v);
    if has_key(s, k) {
        lemma_key_index(s, k);
        let f = key_index(s, k);
        assert(r[f].0 == k);
        assert(first_key_at(r, k, f));
        lemma_key_index(r, k);
    } else {
        let f = s.len() as int;
        assert(r[f].0 == k);
        assert(first_key_at(r, k, f));
        lemma_key_index(r, k);
    }
}

/// Extending keeps keys unique.
pub proof fn lemma_extend_unique(a: Entries, b: Entries)
    requires
        keys_unique(a),
    ensures
        keys_unique(extend_entries(a, b)),
    decreases b.len(),
{
    if b.len() > 0 {
        lemma_extend_unique(a, b.drop_last());
        lemma_insert_unique(extend_entries(a, b.drop_last()), b.last().0, b.last().1);
    }
}

/// Extending the empty map by a map without repeated keys gives that map.
pub proof fn lemma_extend_empty(b: Entries)
    requires
        keys_unique(b),
    ensures
        extend_entries(Seq::empty(), b) == b,
    decreases b.len(),
{
    if b.len() > 0 {
        let p = b.drop_last();
        assert(keys_unique(p)) by {
            assert forall|i: int, j: int| 0 <= i < p.len() && 0 <= j < p.len() && i != j implies (#[trigger] p[i]).0 != (#[trigger] p[j]).0 by {
                assert(p[i] == b[i] && p[j] == b[j]);
            }
        }
        lemma_extend_empty(p);
        assert forall|i: int| 0 <= i < p.len() implies (#[trigger] p[i]).0 != b.last().0 by {
            assert(p[i] == b[i]);
        }
        assert(!has_key(p, b.last().0));
        assert(p.push(b.last()) =~= b);
    }
}

/// Extending keeps the keys of the first map, in their places, at the front.
pub proof fn lemma_extend_keeps_front(a: Entries, b: Entries)
    requires
        keys_unique(a),
    ensures
        extend_entries(a, b).len() >= a.len(),
        forall|i: int| 0 <= i < a.len() ==> (#[trigger] extend_entries(a, b)[i]).0 == a[i].0,
    decreases b.len(),
{
    if b.len() > 0 {
        let p = extend_entries(a, b.drop_last());
        lemma_extend_keeps_front(a, b.drop_last());
        lemma_extend_unique(a, b.drop_last());
        let k = b.last().0;
        if has_key(p, k) {
            lemma_key_index(p, k);
        }
    }
}

/// Extending `a` by a map that already starts with the keys of `a`, in
/// order, gives that map.
pub proof fn lemma_extend_absorbs(a: Entries, x: Entries)
    requires
        keys_unique(x),
        x.len() >= a.len(),
        forall|i: int| 0 <= i < a.len() ==> (#[trigger] x[i]).0 == a[i].0,
    ensures
        extend_entries(a, x) == x,
{
    lemma_extend_absorbs_upto(a, x, x.len() as int);
    assert(x.take(x.len() as int) =~= x);
}

proof fn lemma_extend_absorbs_upto(a: Entries, x: Entries, i: int)
    requires
        keys_unique(x),
        x.len() >= a.len(),
        forall|k: int| 0 <= k < a.len() ==> (#[trigger] x[k]).0 == a[k].0,
        0 <= i <= x.len(),
    ensures
        extend_entries(a, x.take(i)) == if i <= a.len() { x.take(i) + a.skip(i) } else { x.take(i) },
    decreases i,
{
    if i == 0 {
        assert(x.take(0) =~= Seq::<(Seq<char>, Seq<char>)>::empty());
        assert(x.take(0) + a.skip(0) =~= a);
    } else {
        let j = i - 1;
        lemma_extend_absorbs_upto(a, x, j);
        assert(x.take(i).drop_last() =~= x.take(j));
        assert(x.take(i).last() == x[j]);
        let r = if j <= a.len() { x.take(j) + a.skip(j) } else { x.take(j) };
        let k = x[j].0;
        assert forall|m: int| 0 <= m < j implies (#[trigger] r[m]).0 != k by {
            assert(r[m] == x[m]);
        }
        if j < a.len() {
            assert(r[j] == a[j]);
            assert(r[j].0 == k);
            assert(first_key_at(r, k, j));
            lemma_key_index(r, k);
            assert(r.update(j, (k, x[j].1)) =~= x.take(i) + a.skip(i));
        } else {
            assert(r.len() == j);
            assert(!has_key(r, k));
            assert(r.push((k, x[j].1)) =~= x.take(i));
        }
    }
}

/// Reading after an insertion: the inserted key gives the new value, every
/// other key what it gave before.
pub proof fn lemma_lookup_insert(s: Entries, k: Seq<char>, v: Seq<char>, q: Seq<char>)
    requires
        keys_unique(s),
    ensures
        lookup(insert_entry(s, k, v), q) == if q == k { Some(v) } else { lookup(s, q) },
{
    lemma_insert_unique(s, k, v);
    if q != k {
        let r = insert_entry(s, k, v);
        if has_key(s, k) {
            lemma_key_index(s, k);
        }
        if has_key(s, q) {
            lemma_key_index(s, q);
            let f = key_index(s, q);
            assert(r[f].0 == q);
            assert(first_key_at(r, q, f)) by {
                assert forall|j: int| 0 <= j < f implies (#[trigger] r[j]).0 != q by {
                    assert(s[j].0 != q);
                }
            }
            lemma_key_index(r, q);
        } else {
            assert forall|i: int| 0 <= i < r.len() implies (#[trigger] r[i]).0 != q by {
                if i < s.len() {
                    assert(s[i].0 != q);
                }
            }
        }
    }
}

/// Reading after an extension by `b`: a key of `b` gives its value in `b`,
/// any other key what it gave in `a`.
pub proof fn lemma_lookup_extend(a: Entries, b: Entries, q: Seq<char>)
    requires
        keys_unique(a),
        keys_unique(b),
    ensures
        lookup(extend_entries(a, b), q) == if has_key(b, q) { lookup(b, q) } else { lookup(a, q) },
    decreases b.len(),
{
    if b.len() > 0 {
        let p = b.drop_last();
        assert(keys_unique(p)) by {
            assert forall|i: int, j: int| 0 <= i < p.len() && 0 <= j < p.len() && i != j implies (#[trigger] p[i]).0 != (#[trigger] p[j]).0 by {
                assert(p[i] == b[i] && p[j] == b[j]);
            }
        }
        lemma_lookup_extend(a, p, q);
        lemma_extend_unique(a, p);
        lemma_lookup_insert(extend_entries(a, p), b.last().0, b.last().1, q);
        let l = b.len() - 1;
        if q == b.last().0 {
            assert(first_key_at(b, q, l)) by {
                assert forall|j: int| 0 <= j < l implies (#[trigger] b[j]).0 != q by {}
            }
            lemma_key_index(b, q);
        } else {
            if has_key(p, q) {
                lemma_key_index(p, q);
                let f = key_index(p, q);
                assert(first_key_at(b, q, f)) by {
                    assert forall|j: int| 0 <= j < f implies (#[trigger] b[j]).0 != q by {
                        assert(p[j] == b[j]);
                    }
                }
                lemma_key_index(b, q);
            } else {
                assert forall|i: int| 0 <= i < b.len() implies (#[trigger] b[i]).0 != q by {
                    if i < l {
                        assert(p[i] == b[i]);
                    }
                }
            }
        }
    }
}

/// A map from strings to strings that keeps its entries in insertion order
/// and holds each key at most once.
pub struct StrMap {
    entries: Vec<(String, String)>,
}

impl View for StrMap {
    type V = Entries;

    closed spec fn view(&self) -> Entries {
        self.entries@.map_values(|p: (String, String)| (p.0@, p.1@))
    }
}

impl StrMap {
    /// No key occurs twice in a map.
    #[verifier::type_invariant]
    pub open spec fn wf(self) -> bool {
        keys_unique(self@)
    }

    /// The empty map.
    pub fn new() -> (m: StrMap)
        ensures
            m@ == Seq::<(Seq<char>, Seq<char>)>::empty(),
    {
        let m = StrMap { entries: Vec::new() };
        assert(m@ =~= Seq::<(Seq<char>, Seq<char>)>::empty());
        m
    }

    /// Number of entries.
    pub fn len(&self) -> (n: usize)
        ensures
            n == self@.len(),
    {
        self.entries.len()
    }

    /// Whether the map has no entry.
    pub fn is_empty(&self) -> (b: bool)
        ensures
            b == (self@.len() == 0),
    {
        self.entries.len() == 0
    }

    /// The key of entry `i`.
    pub fn key_at(&self, i: usize) -> (k: &String)
        requires
            i < self@.len(),
        ensures
            k@ == self@[i as int].0,
    {
        &self.entries[i].0
    }

    /// The value of entry `i`.
    pub fn value_at(&self, i: usize) -> (v: &String)
        requires
            i < self@.len(),
        ensures
            v@ == self@[i as int].1,
    {
        &self.entries[i].1
    }

    /// Replaces the value of entry `i`, keeping its key and place.
    pub fn set_value_at(&mut self, i: usize, v: String)
        requires
            i < old(self)@.len(),
        ensures
            final(self)@ == old(self)@.update(i as int, (old(self)@[i as int].0, v@)),
    {
        proof { use_type_invariant(&*self); }
        let mut e: Vec<(String, String)> = Vec::new();
        std::mem::swap(&mut e, &mut self.entries);
        let k = e[i].0.clone();
        e.set(i, (k, v));
        let ghost view = e@.map_values(|p: (String, String)| (p.0@, p.1@));
        assert(view =~= old(self)@.update(i as int, (old(self)@[i as int].0, v@)));
        assert(keys_unique(view)) by {
            assert forall|a: int, b: int| 0 <= a < view.len() && 0 <= b < view.len() && a != b
                implies (#[trigger] view[a]).0 != (#[trigger] view[b]).0 by {
                assert(view[a].0 == old(self)@[a].0 && view[b].0 == old(self)@[b].0);
            }
        }
        self.entries = e;
    }

    /// Position of the first entry with key `k`.
    fn find(&self, k: &String) -> (r: Option<usize>)
        ensures
            r matches Some(i) ==> first_key_at(self@, k@, i as int),
            r is None ==> !has_key(self@, k@),
    {
        let mut i: usize = 0;
        while i < self.entries.len()
            invariant
                i <= self@.len(),
                self@.len() == self.entries@.len(),
                forall|j: int| 0 <= j < i ==> (#[trigger] self@[j]).0 != k@,
            decreases self.entries.len() - i,
        {
            if self.entries[i].0 == *k {
                return Some(i);
            }
            i = i + 1;
        }
        None
    }

    /// The value stored under `k`, if any.
    pub fn get(&self, k: &String) -> (r: Option<&String>)
        ensures
            match r {
                Some(v) => lookup(self@, k@) == Some(v@),
                None => lookup(self@, k@) is None,
            },
    {
        match self.find(k) {
            Some(i) => {
                proof { lemma_key_index(self@, k@); }
                Some(&self.entries[i].1)
            },
            None => None,
        }
    }

    /// Binds `k` to `v` (`HashMap::insert`): an existing entry for `k` keeps
    /// its place and takes the new value; a new key goes to the end.
    pub fn insert(&mut self, k: String, v: String)
        ensures
            final(self)@ == insert_entry(old(self)@, k@, v@),
    {
        proof {
            use_type_invariant(&*self);
            lemma_insert_unique(old(self)@, k@, v@);
        }
        let found = self.find(&k);
        let mut e: Vec<(String, String)> = Vec::new();
        std::mem::swap(&mut e, &mut self.entries);
        match found {
            Some(i) => {
                proof { lemma_key_index(old(self)@, k@); }
                e.set(i, (k, v));
            },
            None => {
                e.push((k, v));
            },
        }
        assert(e@.map_values(|p: (String, String)| (p.0@, p.1@)) =~= insert_entry(old(self)@, k@, v@));
        self.entries = e;
    }

    /// Inserts every pair of `other`, in order (`HashMap::extend`).
    pub fn extend(&mut self, other: &StrMap)
        ensures
            final(self)@ == extend_entries(old(self)@, other@),
    {
        let mut i: usize = 0;
        while i < other.entries.len()
            invariant
                i <= other@.len(),
                other@.len() == other.entries@.len(),
                self@ == extend_entries(old(self)@, other@.take(i as int)),
            decreases other.entries.len() - i,
        {
            let k = other.entries[i].0.clone();
            let v = other.entries[i].1.clone();
            self.insert(k, v);
            assert(other@.take(i + 1).drop_last() =~= other@.take(i as int));
            i = i + 1;
        }
        assert(other@.take(i as int) =~= other@);
    }

    /// The map built by inserting the pairs in order, as collecting them
    /// into a `HashMap` does: a later pair for a key wins.
    pub fn from_pairs(pairs: Vec<(String, String)>) -> (m: StrMap)
        ensures
            m@ == extend_entries(Seq::empty(), pairs@.map_values(|p: (String, String)| (p.0@, p.1@))),
    {
        let ghost ps = pairs@.map_values(|p: (String, String)| (p.0@, p.1@));
        let mut m = StrMap::new();
        let mut i: usize = 0;
        while i < pairs.len()
            invariant
                i <= pairs@.len(),
                ps == pairs@.map_values(|p: (String, String)| (p.0@, p.1@)),
                m@ == extend_entries(Seq::empty(), ps.take(i as int)),
            decreases pairs.len() - i,
        {
            let k = pairs[i].0.clone();
            let v = pairs[i].1.clone();
            m.insert(k, v);
            assert(ps.take(i + 1).drop_last() =~= ps.take(i as int));
            i = i + 1;
        }
        assert(ps.take(i as int) =~= ps);
        m
    }
}

impl Clone for StrMap {
    /// A copy of the map.
    fn clone(&self) -> (r: StrMap)
        ensures
            r@ == self@,
    {
        proof { use_type_invariant(self); }
        let mut e: Vec<(String, String)> = Vec::new();
        let ghost want = self@;
        let mut i: usize = 0;
        while i < self.entries.len()
            invariant
                i <= self@.len(),
                want == self@,
                self@.len() == self.entries@.len(),
                e@.map_values(|p: (String, String)| (p.0@, p.1@)) == want.take(i as int),
            decreases self.entries.len() - i,
        {
            let k = self.entries[i].0.clone();
            let v = self.entries[i].1.clone();
            let ghost before = e@;
            e.push((k, v));
            assert(e@.map_values(|p: (String, String)| (p.0@, p.1@)) =~= want.take(i + 1)) by {
                assert(before.map_values(|p: (String, String)| (p.0@, p.1@)).len() == i);
                assert forall|j: int| 0 <= j < i implies e@[j] == before[j] by {}
            }
            i = i + 1;
        }
        assert(want.take(i as int) =~= want);
        StrMap { entries: e }
    }
}

} // verus!
