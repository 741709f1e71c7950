//! An ordered map with string keys.
//!
//! Keys are kept in ascending order by character code, so iteration order is a
//! function of the key set alone.
use vstd::prelude::*;
use vstd::std_specs::iter::IteratorSpec;

verus! {

/// Values that can be copied with their model kept.
pub trait Dup: DeepView + Sized {
    fn dup(&self) -> (r: Self)
        ensures
            r.deep_view() == self.deep_view(),
    ;
}

impl Dup for String {
    fn dup(&self) -> (r: Self) {
        self.clone()
    }
}

impl Dup for bool {
    fn dup(&self) -> (r: Self) {
        *self
    }
}

impl<T: Dup> Dup for Option<T> {
    fn dup(&self) -> (r: Self) {
        match self {
            Some(v) => Some(v.dup()),
            None => None,
        }
    }
}

impl<T: Dup> Dup for Vec<T> {
    fn dup(&self) -> (r: Self) {
        let mut r: Vec<T> = Vec::new();
        let mut i: usize = 0;
        while i < self.len()
            invariant
                i <= self.len(),
                r.len() == i,
                forall|j: int| 0 <= j < i ==> r@[j].deep_view() == self@[j].deep_view(),
            decreases self.len() - i,
        {
            r.push(self[i].dup());
            i = i + 1;
        }
        proof {
            assert(r.deep_view() == self.deep_view());
        }
        r
    }
}

/// Lexicographic order by character code: `a` comes strictly before `b`.
pub open spec fn before(a: Seq<char>, b: Seq<char>) -> bool
    decreases b.len(),
{
    if b.len() == 0 {
        false
    } else if a.len() == 0 {
        true
    } else if a[0] != b[0] {
        (a[0] as int) < (b[0] as int)
    } else {
        before(a.drop_first(), b.drop_first())
    }
}

pub proof fn lemma_before_irreflexive(a: Seq<char>)
    ensures
        !before(a, a),
    decreases a.len(),
{
    if a.len() > 0 {
        lemma_before_irreflexive(a.drop_first());
    }
}

pub proof fn lemma_before_transitive(a: Seq<char>, b: Seq<char>, c: Seq<char>)
    requires
        before(a, b),
        before(b, c),
    ensures
        before(a, c),
    decreases a.len(),
{
    if a.len() > 0 && a[0] == b[0] && b[0] == c[0] {
        lemma_before_transitive(a.drop_first(), b.drop_first(), c.drop_first());
    }
}

pub proof fn lemma_before_total(a: Seq<char>, b: Seq<char>)
    ensures
        a == b || before(a, b) || before(b, a),
    decreases a.len(),
{
    if a.len() > 0 && b.len() > 0 && a[0] == b[0] {
        lemma_before_total(a.drop_first(), b.drop_first());
        if a.drop_first() == b.drop_first() {
            assert(a == seq![a[0]] + a.drop_first());
            assert(b == seq![b[0]] + b.drop_first());
        }
    } else if a.len() == 0 && b.len() == 0 {
        assert(a == b);
    }
}

/// Keys in strictly ascending order.
pub open spec fn ascending(keys: Seq<Seq<char>>) -> bool {
    forall|i: int, j: int|
        0 <= i < j < keys.len() ==> before(#[trigger] keys[i], #[trigger] keys[j])
}

/// The members of a finite key set in ascending order.
pub open spec fn sorted_keys(keys: Set<Seq<char>>) -> Seq<Seq<char>> {
    choose|q: Seq<Seq<char>>| is_listing(q, keys)
}

/// `q` lists the members of `keys` in ascending order.
pub open spec fn is_listing(q: Seq<Seq<char>>, keys: Set<Seq<char>>) -> bool {
    ascending(q) && forall|k: Seq<char>| #[trigger] keys.contains(k) <==> q.contains(k)
}

proof fn lemma_listing_head(p: Seq<Seq<char>>, q: Seq<Seq<char>>)
    requires
        ascending(p),
        ascending(q),
        p.len() > 0,
        q.len() > 0,
        forall|k: Seq<char>| p.contains(k) <==> q.contains(k),
    ensures
        p[0] == q[0],
{
    assert(p.contains(p[0]));
    assert(q.contains(q[0]));
    let i = choose|i: int| 0 <= i < q.len() && q[i] == p[0];
    let j = choose|j: int| 0 <= j < p.len() && p[j] == q[0];
    if p[0] != q[0] {
        assert(before(q[0], q[i]));
        assert(before(p[0], p[j]));
        lemma_before_transitive(p[0], q[0], p[0]);
        lemma_before_irreflexive(p[0]);
    }
}

/// A key set has at most one ascending listing.
pub proof fn lemma_listing_unique(p: Seq<Seq<char>>, q: Seq<Seq<char>>)
    requires
        ascending(p),
        ascending(q),
        forall|k: Seq<char>| p.contains(k) <==> q.contains(k),
    ensures
        p == q,
    decreases p.len(),
{
    if p.len() == 0 {
        if q.len() > 0 {
            assert(q.contains(q[0]));
        }
    } else if q.len() == 0 {
        assert(p.contains(p[0]));
    } else {
        lemma_listing_head(p, q);
        let p1 = p.drop_first();
        let q1 = q.drop_first();
        assert(ascending(p1)) by {
            assert forall|i: int, j: int| 0 <= i < j < p1.len() implies before(
                #[trigger] p1[i],
                #[trigger] p1[j],
            ) by {
                assert(p1[i] == p[i + 1] && p1[j] == p[j + 1]);
            }
        }
        assert(ascending(q1)) by {
            assert forall|i: int, j: int| 0 <= i < j < q1.len() implies before(
                #[trigger] q1[i],
                #[trigger] q1[j],
            ) by {
                assert(q1[i] == q[i + 1] && q1[j] == q[j + 1]);
            }
        }
        assert forall|k: Seq<char>| p1.contains(k) <==> q1.contains(k) by {
            lemma_before_irreflexive(k);
            if p1.contains(k) {
                let i = choose|i: int| 0 <= i < p1.len() && p1[i] == k;
                assert(p[i + 1] == k);
                assert(before(p[0], p[i + 1]));
                assert(q.contains(k));
                let j = choose|j: int| 0 <= j < q.len() && q[j] == k;
                assert(q1[j - 1] == k);
            }
            if q1.contains(k) {
                let i = choose|i: int| 0 <= i < q1.len() && q1[i] == k;
                assert(q[i + 1] == k);
                assert(before(q[0], q[i + 1]));
                assert(p.contains(k));
                let j = choose|j: int| 0 <= j < p.len() && p[j] == k;
                assert(p1[j - 1] == k);
            }
        }
        lemma_listing_unique(p1, q1);
        assert(p == seq![p[0]] + p1);
        assert(q == seq![q[0]] + q1);
    }
}

/// An ascending listing of a key set is its `sorted_keys`.
pub proof fn lemma_sorted_keys(q: Seq<Seq<char>>, keys: Set<Seq<char>>)
    requires
        is_listing(q, keys),
    ensures
        sorted_keys(keys) == q,
{
    let p = sorted_keys(keys);
    assert(is_listing(p, keys));
    assert forall|k: Seq<char>| p.contains(k) <==> q.contains(k) by {
        assert(keys.contains(k) <==> p.contains(k));
        assert(keys.contains(k) <==> q.contains(k));
    }
    lemma_listing_unique(p, q);
}

/// `x` put into a listing.
spec fn inserted(q: Seq<Seq<char>>, x: Seq<char>) -> Seq<Seq<char>>
    decreases q.len(),
{
    if q.len() > 0 && before(x, q.last()) {
        inserted(q.drop_last(), x).push(q.last())
    } else {
        q.push(x)
    }
}

proof fn lemma_inserted(q: Seq<Seq<char>>, x: Seq<char>)
    requires
        ascending(q),
        !q.contains(x),
    ensures
        ascending(inserted(q, x)),
        forall|k: Seq<char>| inserted(q, x).contains(k) <==> q.contains(k) || k == x,
    decreases q.len(),
{
    let r = inserted(q, x);
    if q.len() > 0 && before(x, q.last()) {
        let front = q.drop_last();
        assert(!front.contains(x)) by {
            if front.contains(x) {
                let i = choose|i: int| 0 <= i < front.len() && front[i] == x;
                assert(q[i] == x);
            }
        }
        lemma_inserted(front, x);
        let p = inserted(front, x);
        assert forall|k: Seq<char>| r.contains(k) <==> q.contains(k) || k == x by {
            if r.contains(k) {
                let i = choose|i: int| 0 <= i < r.len() && r[i] == k;
                if i < p.len() {
                    assert(p[i] == k);
                    assert(p.contains(k));
                    if front.contains(k) {
                        let j = choose|j: int| 0 <= j < front.len() && front[j] == k;
                        assert(q[j] == k);
                    }
                } else {
                    assert(q[q.len() - 1] == k);
                }
            }
            if q.contains(k) || k == x {
                if k == q.last() {
                    assert(r[r.len() - 1] == k);
                } else {
                    if q.contains(k) {
                        let j = choose|j: int| 0 <= j < q.len() && q[j] == k;
                        assert(front[j] == k);
                        assert(front.contains(k));
                    }
                    assert(p.contains(k));
                    let i = choose|i: int| 0 <= i < p.len() && p[i] == k;
                    assert(r[i] == k);
                }
            }
        }
        assert forall|i: int, j: int| 0 <= i < j < r.len() implies before(
            #[trigger] r[i],
            #[trigger] r[j],
        ) by {
            if j < p.len() {
                assert(before(p[i], p[j]));
            } else {
                assert(p.contains(p[i]));
                if front.contains(p[i]) {
                    let m = choose|m: int| 0 <= m < front.len() && front[m] == p[i];
                    assert(before(q[m], q[q.len() - 1]));
                }
            }
        }
    } else {
        assert forall|i: int, j: int| 0 <= i < j < r.len() implies before(
            #[trigger] r[i],
            #[trigger] r[j],
        ) by {
            if j == q.len() {
                lemma_before_total(x, q.last());
                assert(q.contains(q[q.len() - 1]));
                if i < q.len() - 1 {
                    assert(before(q[i], q[q.len() - 1]));
                    lemma_before_transitive(q[i], q.last(), x);
                }
            } else {
                assert(before(q[i], q[j]));
            }
        }
        assert forall|k: Seq<char>| r.contains(k) <==> q.contains(k) || k == x by {
            if q.contains(k) {
                let i = choose|i: int| 0 <= i < q.len() && q[i] == k;
                assert(r[i] == k);
            }
            assert(r[q.len() as int] == x);
        }
    }
}

/// A finite key set has an ascending listing.
pub proof fn lemma_listing(keys: Set<Seq<char>>)
    requires
        keys.finite(),
    ensures
        is_listing(sorted_keys(keys), keys),
    decreases keys.len(),
{
    if keys.len() == 0 {
        let q = Seq::<Seq<char>>::empty();
        assert(keys =~= Set::empty());
        assert(is_listing(q, keys));
        lemma_sorted_keys(q, keys);
    } else {
        let x = keys.choose();
        let rest = keys.remove(x);
        lemma_listing(rest);
        let q = sorted_keys(rest);
        assert(!q.contains(x)) by {
            assert(rest.contains(x) <==> q.contains(x));
        }
        lemma_inserted(q, x);
        let r = inserted(q, x);
        assert(is_listing(r, keys)) by {
            assert forall|k: Seq<char>| #[trigger] keys.contains(k) <==> r.contains(k) by {
                assert(rest.contains(k) <==> q.contains(k));
            }
        }
        lemma_sorted_keys(r, keys);
    }
}

/// The code point of a character.
fn code(c: char) -> (r: u32)
    ensures
        r as int == c as int,
{
    c as u32
}

/// Whether `a` comes strictly before `b`.
pub fn precedes(a: &str, b: &str) -> (r: bool)
    ensures
        r == before(a@, b@),
{
    let mut x = a.chars();
    let mut y = b.chars();
    loop
        invariant
            before(a@, b@) == before(x.remaining(), y.remaining()),
            x.obeys_prophetic_iter_laws(),
            y.obeys_prophetic_iter_laws(),
            y.decrease() is Some,
        decreases y.decrease()->0,
    {
        match y.next() {
            None => {
                return false;
            },
            Some(d) => match x.next() {
                None => {
                    return true;
                },
                Some(c) => {
                    if c != d {
                        return code(c) < code(d);
                    }
                },
            },
        }
    }
}

/// A map from strings to values, ordered by key.
#[derive(Debug, PartialEq)]
pub struct StrMap<V> {
    entries: Vec<(String, V)>,
}

spec fn entry_keys<V>(entries: Seq<(String, V)>) -> Seq<Seq<char>> {
    Seq::new(entries.len(), |i: int| entries[i].0@)
}

spec fn entry_map<V: DeepView>(entries: Seq<(String, V)>) -> Map<Seq<char>, V::V> {
    Map::new(
        |k: Seq<char>| entry_keys(entries).contains(k),
        |k: Seq<char>| entries[entry_keys(entries).index_of(k)].1.deep_view(),
    )
}

impl<V: DeepView> View for StrMap<V> {
    type V = Map<Seq<char>, V::V>;

    closed spec fn view(&self) -> Map<Seq<char>, V::V> {
        entry_map(self.entries@)
    }
}

impl<V: DeepView> DeepView for StrMap<V> {
    type V = Map<Seq<char>, V::V>;

    open spec fn deep_view(&self) -> Map<Seq<char>, V::V> {
        self@
    }
}

proof fn lemma_entry_map<V: DeepView>(entries: Seq<(String, V)>)
    requires
        ascending(entry_keys(entries)),
    ensures
        sorted_keys(entry_map(entries).dom()) == entry_keys(entries),
        forall|i: int|
            0 <= i < entries.len() ==> entry_map(entries).dom().contains(
                #[trigger] entries[i].0@,
            ) && entry_map(entries)[entries[i].0@] == entries[i].1.deep_view(),
{
    let keys = entry_keys(entries);
    assert(is_listing(keys, entry_map(entries).dom()));
    lemma_sorted_keys(keys, entry_map(entries).dom());
    assert forall|i: int| 0 <= i < entries.len() implies entry_map(entries).dom().contains(
        #[trigger] entries[i].0@,
    ) && entry_map(entries)[entries[i].0@] == entries[i].1.deep_view() by {
        let k = entries[i].0@;
        assert(keys[i] == k);
        assert(keys.contains(k));
        let j = keys.index_of(k);
        assert(keys[j] == k);
        lemma_before_irreflexive(k);
        assert(i == j) by {
            if i < j {
                assert(before(keys[i], keys[j]));
            } else if j < i {
                assert(before(keys[j], keys[i]));
            }
        }
    }
}

proof fn lemma_entry_map_insert<V: DeepView>(entries: Seq<(String, V)>, i: int, k: String, v: V)
    requires
        ascending(entry_keys(entries)),
        0 <= i <= entries.len(),
        forall|j: int| 0 <= j < i ==> before(#[trigger] entries[j].0@, k@),
        forall|j: int| i <= j < entries.len() ==> before(k@, #[trigger] entries[j].0@),
    ensures
        ascending(entry_keys(entries.insert(i, (k, v)))),
        entry_map(entries.insert(i, (k, v))) == entry_map(entries).insert(k@, v.deep_view()),
{
    let e1 = entries.insert(i, (k, v));
    let k0 = entry_keys(entries);
    let k1 = entry_keys(e1);
    assert(k1 == k0.insert(i, k@));
    assert forall|a: int, b: int| 0 <= a < b < k1.len() implies before(
        #[trigger] k1[a],
        #[trigger] k1[b],
    ) by {
        let a0 = if a < i { a } else { a - 1 };
        let b0 = if b < i { b } else { b - 1 };
        if a != i && b != i {
            assert(before(k0[a0], k0[b0]));
        } else if a == i {
            assert(before(k@, entries[b0].0@));
        } else {
            assert(before(entries[a0].0@, k@));
        }
    }
    lemma_entry_map(entries);
    lemma_entry_map(e1);
    let m0 = entry_map(entries);
    let m1 = entry_map(e1);
    assert forall|q: Seq<char>|
        #![trigger m1.dom().contains(q)]
        #![trigger m1[q]]
        (m1.dom().contains(q) <==> m0.insert(k@, v.deep_view()).dom().contains(q)) && (
        m1.dom().contains(q) ==> m1[q] == m0.insert(k@, v.deep_view())[q]) by {
        if k1.contains(q) {
            let a = choose|a: int| 0 <= a < k1.len() && k1[a] == q;
            assert(m1[e1[a].0@] == e1[a].1.deep_view());
            if a != i {
                let a0 = if a < i { a } else { a - 1 };
                assert(entries[a0].0@ == q);
                assert(k0[a0] == q);
                assert(m0[entries[a0].0@] == entries[a0].1.deep_view());
                if q == k@ {
                    lemma_before_irreflexive(q);
                    assert(before(entries[a0].0@, k@) || before(k@, entries[a0].0@));
                }
            }
        }
        if k0.contains(q) {
            let a = choose|a: int| 0 <= a < k0.len() && k0[a] == q;
            let a1 = if a < i { a } else { a + 1 };
            assert(k1[a1] == q);
        }
        assert(k1[i] == k@);
    }
    assert(m1 =~= m0.insert(k@, v.deep_view()));
}

proof fn lemma_entry_map_update<V: DeepView>(entries: Seq<(String, V)>, i: int, k: String, v: V)
    requires
        ascending(entry_keys(entries)),
        0 <= i < entries.len(),
        entries[i].0@ == k@,
    ensures
        ascending(entry_keys(entries.update(i, (k, v)))),
        entry_map(entries.update(i, (k, v))) == entry_map(entries).insert(k@, v.deep_view()),
{
    let e1 = entries.update(i, (k, v));
    let k0 = entry_keys(entries);
    let k1 = entry_keys(e1);
    assert(k1 == k0);
    lemma_entry_map(entries);
    lemma_entry_map(e1);
    let m0 = entry_map(entries);
    let m1 = entry_map(e1);
    assert forall|q: Seq<char>|
        #![trigger m1.dom().contains(q)]
        #![trigger m1[q]]
        (m1.dom().contains(q) <==> m0.insert(k@, v.deep_view()).dom().contains(q)) && (
        m1.dom().contains(q) ==> m1[q] == m0.insert(k@, v.deep_view())[q]) by {
        assert(k0[i] == k@);
        if k1.contains(q) {
            let a = choose|a: int| 0 <= a < k1.len() && k1[a] == q;
            assert(m1[e1[a].0@] == e1[a].1.deep_view());
            assert(entries[a].0@ == q);
            assert(m0[entries[a].0@] == entries[a].1.deep_view());
            if a != i && q == k@ {
                lemma_before_irreflexive(q);
                assert(before(k0[a], k0[i]) || before(k0[i], k0[a]));
            }
        }
    }
    assert(m1 =~= m0.insert(k@, v.deep_view()));
}

proof fn lemma_entry_map_remove<V: DeepView>(entries: Seq<(String, V)>, i: int)
    requires
        ascending(entry_keys(entries)),
        0 <= i < entries.len(),
    ensures
        ascending(entry_keys(entries.remove(i))),
        entry_map(entries.remove(i)) == entry_map(entries).remove(entries[i].0@),
{
    let e1 = entries.remove(i);
    let k = entries[i].0@;
    let k0 = entry_keys(entries);
    let k1 = entry_keys(e1);
    assert(k1 == k0.remove(i));
    assert forall|a: int, b: int| 0 <= a < b < k1.len() implies before(
        #[trigger] k1[a],
        #[trigger] k1[b],
    ) by {
        let a0 = if a < i { a } else { a + 1 };
        let b0 = if b < i { b } else { b + 1 };
        assert(before(k0[a0], k0[b0]));
    }
    lemma_entry_map(entries);
    lemma_entry_map(e1);
    let m0 = entry_map(entries);
    let m1 = entry_map(e1);
    assert forall|q: Seq<char>|
        #![trigger m1.dom().contains(q)]
        #![trigger m1[q]]
        (m1.dom().contains(q) <==> m0.remove(k).dom().contains(q)) && (m1.dom().contains(q)
            ==> m1[q] == m0.remove(k)[q]) by {
        if k1.contains(q) {
            let a = choose|a: int| 0 <= a < k1.len() && k1[a] == q;
            let a0 = if a < i { a } else { a + 1 };
            assert(m1[e1[a].0@] == e1[a].1.deep_view());
            assert(entries[a0].0@ == q);
            assert(k0[a0] == q);
            assert(m0[entries[a0].0@] == entries[a0].1.deep_view());
            lemma_before_irreflexive(q);
            assert(before(k0[a0], k0[i]) || before(k0[i], k0[a0]));
        }
        if k0.contains(q) && q != k {
            let a = choose|a: int| 0 <= a < k0.len() && k0[a] == q;
            let a1 = if a < i { a } else { a - 1 };
            assert(k1[a1] == q);
        }
    }
    assert(m1 =~= m0.remove(k));
}

impl<V> StrMap<V> {
    #[verifier::type_invariant]
    spec fn ordered(&self) -> bool {
        ascending(entry_keys(self.entries@))
    }
}

impl<V: DeepView> StrMap<V> {
    pub fn new() -> (r: Self)
        ensures
            r@ == Map::<Seq<char>, V::V>::empty(),
    {
        let r = StrMap { entries: Vec::new() };
        proof {
            assert(r@ =~= Map::<Seq<char>, V::V>::empty());
        }
        r
    }

    /// The number of keys.
    pub fn len(&self) -> (r: usize)
        ensures
            r == sorted_keys(self@.dom()).len(),
            is_listing(sorted_keys(self@.dom()), self@.dom()),
    {
        proof {
            use_type_invariant(self);
            lemma_entry_map(self.entries@);
        }
        self.entries.len()
    }

    pub fn is_empty(&self) -> (r: bool)
        ensures
            r == (self@ == Map::<Seq<char>, V::V>::empty()),
    {
        proof {
            use_type_invariant(self);
            lemma_entry_map(self.entries@);
            if self.entries@.len() > 0 {
                assert(self@.dom().contains(self.entries@[0].0@));
            } else {
                assert(self@ =~= Map::<Seq<char>, V::V>::empty());
            }
        }
        self.entries.len() == 0
    }

    /// Index of the first entry whose key is not before `k`.
    fn lower_bound(&self, k: &str) -> (r: usize)
        ensures
            r <= self.entries@.len(),
            forall|j: int| 0 <= j < r ==> before(#[trigger] self.entries@[j].0@, k@),
            forall|j: int| r <= j < self.entries@.len() ==> !before(#[trigger] self.entries@[j].0@, k@),
    {
        proof {
            use_type_invariant(self);
        }
        let mut lo: usize = 0;
        let mut hi: usize = self.entries.len();
        while lo < hi
            invariant
                lo <= hi <= self.entries@.len(),
                ascending(entry_keys(self.entries@)),
                forall|j: int| 0 <= j < lo ==> before(#[trigger] self.entries@[j].0@, k@),
                forall|j: int|
                    hi <= j < self.entries@.len() ==> !before(#[trigger] self.entries@[j].0@, k@),
            decreases hi - lo,
        {
            let mid: usize = lo + (hi - lo) / 2;
            let ghost keys = entry_keys(self.entries@);
            if precedes(self.entries[mid].0.as_str(), k) {
                proof {
                    assert forall|j: int| 0 <= j < mid + 1 implies before(
                        #[trigger] self.entries@[j].0@,
                        k@,
                    ) by {
                        if j < mid {
                            assert(before(keys[j], keys[mid as int]));
                            lemma_before_transitive(
                                self.entries@[j].0@,
                                self.entries@[mid as int].0@,
                                k@,
                            );
                        }
                    }
                }
                lo = mid + 1;
            } else {
                proof {
                    assert forall|j: int| mid <= j < self.entries@.len() implies !before(
                        #[trigger] self.entries@[j].0@,
                        k@,
                    ) by {
                        if mid < j && before(self.entries@[j].0@, k@) {
                            assert(before(keys[mid as int], keys[j]));
                            lemma_before_transitive(
                                self.entries@[mid as int].0@,
                                self.entries@[j].0@,
                                k@,
                            );
                        }
                    }
                }
                hi = mid;
            }
        }
        lo
    }

    /// Index of the entry with key `k`.
    fn search(&self, k: &str) -> (r: Option<usize>)
        ensures
            match r {
                Some(i) => i < self.entries@.len() && self.entries@[i as int].0@ == k@
                    && self@.dom().contains(k@) && self@[k@] == self.entries@[i as int].1.deep_view(),
                None => !self@.dom().contains(k@),
            },
    {
        proof {
            use_type_invariant(self);
            lemma_entry_map(self.entries@);
        }
        let i: usize = self.lower_bound(k);
        if i < self.entries.len() && crate::text::same(self.entries[i].0.as_str(), k) {
            Some(i)
        } else {
            proof {
                if self@.dom().contains(k@) {
                    let keys = entry_keys(self.entries@);
                    let j = choose|j: int| 0 <= j < keys.len() && keys[j] == k@;
                    lemma_before_irreflexive(k@);
                    assert(self.entries@[j].0@ == k@);
                    assert(i <= j);
                    assert(i < j);
                    assert(before(keys[i as int], keys[j]));
                    assert(!before(self.entries@[i as int].0@, k@));
                }
            }
            None
        }
    }

    pub fn get(&self, k: &str) -> (r: Option<&V>)
        ensures
            match r {
                Some(v) => self@.dom().contains(k@) && v.deep_view() == self@[k@],
                None => !self@.dom().contains(k@),
            },
            (match r {
                Some(v) => Some(v.deep_view()),
                None => None,
            }) == lookup(self@, k@),
    {
        match self.search(k) {
            Some(i) => Some(&self.entries[i].1),
            None => None,
        }
    }

    pub fn contains_key(&self, k: &str) -> (r: bool)
        ensures
            r == self@.dom().contains(k@),
    {
        match self.search(k) {
            Some(_) => true,
            None => false,
        }
    }

    /// Set the value of `k`; the value that it had is dropped.
    pub fn insert(&mut self, k: String, v: V)
        ensures
            final(self)@ == old(self)@.insert(k@, v.deep_view()),
    {
        proof {
            use_type_invariant(&*self);
        }
        let ghost entries = self.entries@;
        match self.search(k.as_str()) {
            Some(i) => {
                proof {
                    lemma_entry_map_update(entries, i as int, k, v);
                }
                let mut e: Vec<(String, V)> = Vec::new();
                std::mem::swap(&mut self.entries, &mut e);
                e[i] = (k, v);
                self.entries = e;
            },
            None => {
                let i: usize = self.lower_bound(k.as_str());
                proof {
                    lemma_entry_map(entries);
                    assert forall|j: int| i <= j < entries.len() implies before(
                        k@,
                        #[trigger] entries[j].0@,
                    ) by {
                        lemma_before_total(k@, entries[j].0@);
                    }
                    lemma_entry_map_insert(entries, i as int, k, v);
                }
                let mut e: Vec<(String, V)> = Vec::new();
                std::mem::swap(&mut self.entries, &mut e);
                e.insert(i, (k, v));
                self.entries = e;
            },
        }
    }

    /// Take the value of `k` out of the map.
    pub fn remove(&mut self, k: &str) -> (r: Option<V>)
        ensures
            final(self)@ == old(self)@.remove(k@),
            match r {
                Some(v) => old(self)@.dom().contains(k@) && v.deep_view() == old(self)@[k@],
                None => !old(self)@.dom().contains(k@),
            },
    {
        proof {
            use_type_invariant(&*self);
        }
        let ghost entries = self.entries@;
        match self.search(k) {
            Some(i) => {
                proof {
                    lemma_entry_map_remove(entries, i as int);
                }
                let mut e: Vec<(String, V)> = Vec::new();
                std::mem::swap(&mut self.entries, &mut e);
                let (_, v) = e.remove(i);
                self.entries = e;
                Some(v)
            },
            None => {
                proof {
                    assert(self@.remove(k@) =~= self@);
                }
                None
            },
        }
    }

    /// The `i`-th key in ascending order.
    pub fn key_at(&self, i: usize) -> (r: &String)
        requires
            i < sorted_keys(self@.dom()).len(),
        ensures
            r@ == sorted_keys(self@.dom())[i as int],
            self@.dom().contains(r@),
    {
        proof {
            use_type_invariant(self);
            lemma_entry_map(self.entries@);
        }
        &self.entries[i].0
    }

    /// The value of the `i`-th key in ascending order.
    pub fn value_at(&self, i: usize) -> (r: &V)
        requires
            i < sorted_keys(self@.dom()).len(),
        ensures
            r.deep_view() == self@[sorted_keys(self@.dom())[i as int]],
    {
        proof {
            use_type_invariant(self);
            lemma_entry_map(self.entries@);
        }
        &self.entries[i].1
    }
}

impl<V: Dup> Dup for StrMap<V> {
    fn dup(&self) -> (r: Self) {
        let mut r: StrMap<V> = StrMap::new();
        let ghost keys = sorted_keys(self@.dom());
        let mut i: usize = 0;
        let n: usize = self.len();
        proof {
            assert(self@.restrict(prefix_set(keys, 0)) =~= Map::<Seq<char>, V::V>::empty());
        }
        while i < n
            invariant
                n == keys.len(),
                keys == sorted_keys(self@.dom()),
                i <= keys.len(),
                r@ == self@.restrict(prefix_set(keys, i as int)),
            decreases keys.len() - i,
        {
            r.insert(self.key_at(i).clone(), self.value_at(i).dup());
            proof {
                let k = keys[i as int];
                assert(self@.restrict(prefix_set(keys, i as int + 1)) =~= self@.restrict(
                    prefix_set(keys, i as int),
                ).insert(k, self@[k]));
            }
            i = i + 1;
        }
        proof {
            assert(self@.restrict(prefix_set(keys, keys.len() as int)) =~= self@);
        }
        r
    }
}

/// The first `n` members of a key listing.
pub open spec fn prefix_set(keys: Seq<Seq<char>>, n: int) -> Set<Seq<char>> {
    Set::new(|k: Seq<char>| exists|i: int| 0 <= i < n && i < keys.len() && keys[i] == k)
}

impl<V: Dup> StrMap<V> {
    /// Add the entries of another map; its values replace those that are
    /// there.
    pub fn extend(&mut self, other: &StrMap<V>)
        ensures
            final(self)@ == old(self)@.union_prefer_right(other@),
    {
        let ghost map0 = self@;
        let ghost keys = sorted_keys(other@.dom());
        let n: usize = other.len();
        let mut i: usize = 0;
        proof {
            assert(map0.union_prefer_right(other@.restrict(prefix_set(keys, 0))) =~= map0);
        }
        while i < n
            invariant
                keys == sorted_keys(other@.dom()),
                n == keys.len(),
                i <= n,
                self@ == map0.union_prefer_right(other@.restrict(prefix_set(keys, i as int))),
            decreases n - i,
        {
            self.insert(other.key_at(i).clone(), other.value_at(i).dup());
            proof {
                let k = keys[i as int];
                assert(map0.union_prefer_right(
                    other@.restrict(prefix_set(keys, i as int + 1)),
                ) =~= map0.union_prefer_right(
                    other@.restrict(prefix_set(keys, i as int)),
                ).insert(k, other@[k]));
            }
            i = i + 1;
        }
        proof {
            assert(other@.restrict(prefix_set(keys, n as int)) =~= other@);
        }
    }
}

/// The value of a key, where it has one.
pub open spec fn lookup<V>(m: Map<Seq<char>, V>, k: Seq<char>) -> Option<V> {
    if m.dom().contains(k) {
        Some(m[k])
    } else {
        None
    }
}

/// A set of strings, ordered.
#[derive(Debug, PartialEq)]
pub struct StrSet {
    map: StrMap<bool>,
}

impl View for StrSet {
    type V = Set<Seq<char>>;

    closed spec fn view(&self) -> Set<Seq<char>> {
        self.map@.dom()
    }
}

impl DeepView for StrSet {
    type V = Set<Seq<char>>;

    open spec fn deep_view(&self) -> Set<Seq<char>> {
        self@
    }
}

impl StrSet {
    pub fn new() -> (r: Self)
        ensures
            r@ == Set::<Seq<char>>::empty(),
    {
        let r = StrSet { map: StrMap::new() };
        proof {
            assert(r@ =~= Set::<Seq<char>>::empty());
        }
        r
    }

    /// The number of members.
    pub fn len(&self) -> (r: usize)
        ensures
            r == sorted_keys(self@).len(),
            is_listing(sorted_keys(self@), self@),
    {
        self.map.len()
    }

    pub fn is_empty(&self) -> (r: bool)
        ensures
            r == (self@ == Set::<Seq<char>>::empty()),
    {
        let n: usize = self.map.len();
        proof {
            let keys = sorted_keys(self@);
            if n > 0 {
                assert(keys.contains(keys[0]));
                assert(self@.contains(keys[0]));
            } else {
                assert(self@ =~= Set::<Seq<char>>::empty());
            }
        }
        n == 0
    }

    pub fn contains(&self, k: &str) -> (r: bool)
        ensures
            r == self@.contains(k@),
    {
        self.map.contains_key(k)
    }

    pub fn insert(&mut self, k: String)
        ensures
            final(self)@ == old(self)@.insert(k@),
    {
        self.map.insert(k, true);
        proof {
            assert(self@ =~= old(self)@.insert(k@));
        }
    }

    /// The `i`-th member in ascending order.
    pub fn at(&self, i: usize) -> (r: &String)
        requires
            i < sorted_keys(self@).len(),
        ensures
            r@ == sorted_keys(self@)[i as int],
            self@.contains(r@),
    {
        self.map.key_at(i)
    }
}

impl Dup for StrSet {
    fn dup(&self) -> (r: Self) {
        StrSet { map: self.map.dup() }
    }
}

} // verus!
