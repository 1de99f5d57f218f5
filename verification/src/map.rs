//! Maps keyed by text, walked in the order of their keys.
//!
//! Text is ordered by its UTF-8 bytes, lexicographically.
use vstd::prelude::*;
use vstd::string::*;
use vstd::utf8::{encode_utf8, encode_utf8_decode_utf8};

verus! {

// ---------------------------------------------------------------- order

/// `a` comes before `b` in lexicographic order.
pub open spec fn bytes_before(a: Seq<u8>, b: Seq<u8>) -> bool
    decreases a.len(),
{
    if b.len() == 0 {
        false
    } else if a.len() == 0 {
        true
    } else if a[0] != b[0] {
        a[0] < b[0]
    } else {
        bytes_before(a.drop_first(), b.drop_first())
    }
}

/// `a` comes before `b`.
pub open spec fn before(a: Seq<char>, b: Seq<char>) -> bool {
    bytes_before(encode_utf8(a), encode_utf8(b))
}

proof fn lemma_bytes_before_transitive(a: Seq<u8>, b: Seq<u8>, c: Seq<u8>)
    requires
        bytes_before(a, b),
        bytes_before(b, c),
    ensures
        bytes_before(a, c),
    decreases a.len(),
{
    if a.len() > 0 && a[0] == b[0] && b[0] == c[0] {
        lemma_bytes_before_transitive(a.drop_first(), b.drop_first(), c.drop_first());
    }
}

proof fn lemma_bytes_before_total(a: Seq<u8>, b: Seq<u8>)
    ensures
        bytes_before(a, b) || bytes_before(b, a) || a == b,
        !(bytes_before(a, b) && bytes_before(b, a)),
        !bytes_before(a, a),
    decreases a.len(),
{
    if a.len() > 0 && b.len() > 0 && a[0] == b[0] {
        lemma_bytes_before_total(a.drop_first(), b.drop_first());
        if a.drop_first() == b.drop_first() {
            assert(a =~= seq![a[0]] + a.drop_first());
            assert(b =~= seq![b[0]] + b.drop_first());
        }
    } else if a.len() == 0 && b.len() == 0 {
        assert(a =~= b);
    }
    if a.len() > 0 {
        lemma_bytes_before_total(a.drop_first(), a.drop_first());
    }
}

proof fn lemma_before_transitive(a: Seq<char>, b: Seq<char>, c: Seq<char>)
    requires
        before(a, b),
        before(b, c),
    ensures
        before(a, c),
{
    lemma_bytes_before_transitive(encode_utf8(a), encode_utf8(b), encode_utf8(c));
}

/// Of two texts that differ exactly one comes before the other.
pub proof fn law_before_total(a: Seq<char>, b: Seq<char>)
    ensures
        before(a, b) || before(b, a) || a == b,
        !(before(a, b) && before(b, a)),
        !before(a, a),
{
    lemma_bytes_before_total(encode_utf8(a), encode_utf8(b));
    encode_utf8_decode_utf8(a);
    encode_utf8_decode_utf8(b);
}

/// The order is that of the bytes: the first place where two texts differ in
/// UTF-8 decides, by the smaller byte or because one of them ends there.
pub proof fn law_before_is_lexicographic(a: Seq<char>, b: Seq<char>, i: int)
    requires
        0 <= i <= encode_utf8(a).len(),
        i < encode_utf8(b).len(),
        forall|j: int| 0 <= j < i ==> #[trigger] encode_utf8(a)[j] == encode_utf8(b)[j],
        i < encode_utf8(a).len() ==> encode_utf8(a)[i] < encode_utf8(b)[i],
    ensures
        before(a, b),
        !before(b, a),
{
    lemma_bytes_before_at(encode_utf8(a), encode_utf8(b), i);
    law_before_total(a, b);
}

proof fn lemma_bytes_before_at(a: Seq<u8>, b: Seq<u8>, i: int)
    requires
        0 <= i <= a.len(),
        i < b.len(),
        forall|j: int| 0 <= j < i ==> #[trigger] a[j] == b[j],
        i < a.len() ==> a[i] < b[i],
    ensures
        bytes_before(a, b),
    decreases a.len(),
{
    if i > 0 {
        assert(a[0] == b[0]);
        assert forall|j: int| 0 <= j < i - 1 implies #[trigger] a.drop_first()[j]
            == b.drop_first()[j] by {
            assert(a[j + 1] == b[j + 1]);
        }
        lemma_bytes_before_at(a.drop_first(), b.drop_first(), i - 1);
    }
}

fn is_before(a: &str, b: &str) -> (r: bool)
    ensures
        r == before(a@, b@),
{
    let x = a.as_bytes();
    let y = b.as_bytes();
    let mut i: usize = 0;
    assert(x@.skip(0) =~= x@);
    assert(y@.skip(0) =~= y@);
    while i < x.len() && i < y.len()
        invariant
            x@ == encode_utf8(a@),
            y@ == encode_utf8(b@),
            i <= x@.len(),
            i <= y@.len(),
            bytes_before(x@, y@) == bytes_before(x@.skip(i as int), y@.skip(i as int)),
        decreases x@.len() - i,
    {
        if x[i] != y[i] {
            return x[i] < y[i];
        }
        assert(x@.skip(i as int).drop_first() =~= x@.skip(i + 1));
        assert(y@.skip(i as int).drop_first() =~= y@.skip(i + 1));
        i += 1;
    }
    i < y.len()
}

// ---------------------------------------------------------------- model

/// `keys` are the keys of `m`, in order.
pub open spec fn lists<T>(keys: Seq<Seq<char>>, m: Map<Seq<char>, T>) -> bool {
    &&& forall|i: int, j: int| 0 <= i < j < keys.len() ==> before(#[trigger] keys[i], #[trigger] keys[j])
    &&& forall|k: Seq<char>| m.contains_key(k) <==> #[trigger] keys.contains(k)
}

/// `k` is the first key of `m` whose value satisfies `p`.
pub open spec fn is_first<T>(m: Map<Seq<char>, T>, p: spec_fn(T) -> bool, k: Seq<char>) -> bool {
    &&& m.contains_key(k)
    &&& p(m[k])
    &&& forall|j: Seq<char>| m.contains_key(j) && p(m[j]) && j != k ==> #[trigger] before(k, j)
}

/// The first key of `m` whose value satisfies `p`.
pub open spec fn first_where<T>(m: Map<Seq<char>, T>, p: spec_fn(T) -> bool) -> Option<
    Seq<char>,
> {
    if exists|k: Seq<char>| is_first(m, p, k) {
        Some(choose|k: Seq<char>| is_first(m, p, k))
    } else {
        None
    }
}

/// There is at most one first key.
pub proof fn lemma_first_unique<T>(m: Map<Seq<char>, T>, p: spec_fn(T) -> bool, k: Seq<char>)
    requires
        is_first(m, p, k),
    ensures
        first_where(m, p) == Some(k),
{
    let c = choose|c: Seq<char>| is_first(m, p, c);
    assert(is_first(m, p, c));
    if c != k {
        law_before_total(c, k);
    }
}

/// The first key is a key, and its value satisfies `p`.
pub proof fn lemma_first_holds<T>(m: Map<Seq<char>, T>, p: spec_fn(T) -> bool)
    requires
        first_where(m, p) is Some,
    ensures
        m.contains_key(first_where(m, p)->Some_0),
        p(m[first_where(m, p)->Some_0]),
{
    assert(is_first(m, p, first_where(m, p)->Some_0));
}

/// The first key is a key whose value satisfies `p`, and every other such key
/// comes after it. There is one as soon as some value satisfies `p`.
pub proof fn law_first_key<T>(m: Map<Seq<char>, T>, p: spec_fn(T) -> bool)
    requires
        m.dom().finite(),
    ensures
        match first_where(m, p) {
            Some(k) => {
                &&& m.contains_key(k)
                &&& p(m[k])
                &&& forall|j: Seq<char>|
                    #[trigger] m.contains_key(j) && p(m[j]) ==> j == k || before(k, j)
            },
            None => forall|j: Seq<char>| #[trigger] m.contains_key(j) ==> !p(m[j]),
        },
{
    if first_where(m, p) is Some {
        assert(is_first(m, p, first_where(m, p)->Some_0));
    } else if exists|j: Seq<char>| #[trigger] m.contains_key(j) && p(m[j]) {
        let j = choose|j: Seq<char>| #[trigger] m.contains_key(j) && p(m[j]);
        let good = m.dom().filter(|k: Seq<char>| p(m[k]));
        assert(good.contains(j));
        let k = lemma_least(good);
        assert(is_first(m, p, k));
    }
}

/// A finite set of texts that is not empty has a first one.
proof fn lemma_least(s: Set<Seq<char>>) -> (k: Seq<char>)
    requires
        s.finite(),
        s.len() > 0 || exists|j: Seq<char>| s.contains(j),
    ensures
        s.contains(k),
        forall|j: Seq<char>| s.contains(j) && j != k ==> #[trigger] before(k, j),
    decreases s.len(),
{
    let a = s.choose();
    assert(s.contains(a)) by {
        if !(exists|j: Seq<char>| s.contains(j)) {
            assert(s =~= Set::empty());
        }
    }
    let rest = s.remove(a);
    if exists|j: Seq<char>| rest.contains(j) {
        let b = lemma_least(rest);
        law_before_total(a, b);
        if before(a, b) {
            assert forall|j: Seq<char>| s.contains(j) && j != a implies #[trigger] before(a, j) by {
                if j != b {
                    assert(before(b, j));
                    lemma_before_transitive(a, b, j);
                }
            }
            a
        } else {
            assert forall|j: Seq<char>| s.contains(j) && j != b implies #[trigger] before(b, j) by {
                if j != a {
                    assert(rest.contains(j));
                }
            }
            b
        }
    } else {
        assert forall|j: Seq<char>| s.contains(j) && j != a implies #[trigger] before(a, j) by {
            assert(rest.contains(j));
        }
        a
    }
}

/// A first key stays first when its value is replaced by another that
/// satisfies `p`.
pub proof fn lemma_first_replaced<T>(
    m: Map<Seq<char>, T>,
    p: spec_fn(T) -> bool,
    k: Seq<char>,
    v: T,
)
    requires
        first_where(m, p) == Some(k),
        p(v),
    ensures
        first_where(m.insert(k, v), p) == Some(k),
{
    assert(is_first(m, p, k));
    assert(is_first(m.insert(k, v), p, k));
    lemma_first_unique(m.insert(k, v), p, k);
}

/// Putting a value that does not satisfy `p` where none did leaves the first
/// key the first one.
pub proof fn lemma_first_unaffected<T>(
    m: Map<Seq<char>, T>,
    p: spec_fn(T) -> bool,
    k: Seq<char>,
    v: T,
)
    requires
        first_where(m, p) is Some,
        m.contains_key(k) ==> !p(m[k]),
        !p(v),
    ensures
        first_where(m.insert(k, v), p) == first_where(m, p),
        k != first_where(m, p)->Some_0,
{
    let f = first_where(m, p)->Some_0;
    assert(is_first(m, p, f));
    assert(is_first(m.insert(k, v), p, f));
    lemma_first_unique(m.insert(k, v), p, f);
}

/// The only key whose value satisfies `p` is the first one.
pub proof fn lemma_first_only<T>(m: Map<Seq<char>, T>, p: spec_fn(T) -> bool, k: Seq<char>)
    requires
        m.contains_key(k),
        p(m[k]),
        forall|j: Seq<char>| #[trigger] m.contains_key(j) && p(m[j]) ==> j == k,
    ensures
        first_where(m, p) == Some(k),
{
    assert(is_first(m, p, k));
    lemma_first_unique(m, p, k);
}

/// A walk over the keys finds the first one.
pub proof fn lemma_first_found<T>(
    keys: Seq<Seq<char>>,
    m: Map<Seq<char>, T>,
    p: spec_fn(T) -> bool,
    i: int,
)
    requires
        lists(keys, m),
        0 <= i < keys.len(),
        p(m[keys[i]]),
        forall|j: int| 0 <= j < i ==> !p(m[#[trigger] keys[j]]),
    ensures
        first_where(m, p) == Some(keys[i]),
        m.contains_key(keys[i]),
{
    assert(keys.contains(keys[i]));
    assert forall|k: Seq<char>|
        m.contains_key(k) && p(m[k]) && k != keys[i] implies #[trigger] before(keys[i], k) by {
        assert(keys.contains(k));
        let j = choose|j: int| 0 <= j < keys.len() && keys[j] == k;
        assert(i < j);
    }
    lemma_first_unique(m, p, keys[i]);
}

/// A walk that finds none shows that there is none.
pub proof fn lemma_first_missing<T>(
    keys: Seq<Seq<char>>,
    m: Map<Seq<char>, T>,
    p: spec_fn(T) -> bool,
)
    requires
        lists(keys, m),
        forall|j: int| 0 <= j < keys.len() ==> !p(m[#[trigger] keys[j]]),
    ensures
        first_where(m, p) == None::<Seq<char>>,
        forall|k: Seq<char>| #[trigger] m.contains_key(k) ==> !p(m[k]),
{
    assert forall|k: Seq<char>| #[trigger] m.contains_key(k) implies !p(m[k]) by {
        assert(keys.contains(k));
        let j = choose|j: int| 0 <= j < keys.len() && keys[j] == k;
        assert(!p(m[keys[j]]));
    }
}

// ---------------------------------------------------------------- the map

/// A map from text to `V`, kept in the order of its keys.
#[derive(Debug, PartialEq)]
pub struct StringMap<V> {
    entries: Vec<(String, V)>,
}

spec fn sorted<V>(entries: Seq<(String, V)>) -> bool {
    forall|i: int, j: int|
        0 <= i < j < entries.len() ==> before((#[trigger] entries[i]).0@, (#[trigger] entries[j]).0@)
}

spec fn holds<V>(entries: Seq<(String, V)>, i: int, k: Seq<char>) -> bool {
    0 <= i < entries.len() && entries[i].0@ == k
}

spec fn contents<V: View>(entries: Seq<(String, V)>) -> Map<Seq<char>, V::V> {
    Map::new(
        |k: Seq<char>| exists|i: int| holds(entries, i, k),
        |k: Seq<char>| entries[choose|i: int| holds(entries, i, k)].1@,
    )
}

proof fn lemma_contents<V: View>(entries: Seq<(String, V)>, i: int)
    requires
        sorted(entries),
        0 <= i < entries.len(),
    ensures
        contents(entries).contains_key(entries[i].0@),
        contents(entries)[entries[i].0@] == entries[i].1@,
{
    let k = entries[i].0@;
    assert(holds(entries, i, k));
    let c = choose|c: int| holds(entries, c, k);
    if c != i {
        law_before_total(k, k);
        if c < i {
            assert(before(entries[c].0@, entries[i].0@));
        } else {
            assert(before(entries[i].0@, entries[c].0@));
        }
    }
}

impl<V> StringMap<V> {
    #[verifier::type_invariant]
    spec fn in_order(self) -> bool {
        sorted(self.entries@)
    }

    /// The keys in order.
    pub closed spec fn keys(self) -> Seq<Seq<char>> {
        Seq::new(self.entries@.len(), |i: int| self.entries@[i].0@)
    }
}

impl<V: View> View for StringMap<V> {
    type V = Map<Seq<char>, V::V>;

    closed spec fn view(&self) -> Map<Seq<char>, V::V> {
        contents(self.entries@)
    }
}

impl<V: View> StringMap<V> {
    pub fn new() -> (m: Self)
        ensures
            m@ == Map::<Seq<char>, V::V>::empty(),
    {
        let m = StringMap { entries: Vec::new() };
        assert(m@ =~= Map::<Seq<char>, V::V>::empty());
        m
    }

    pub fn len(&self) -> (n: usize)
        ensures
            n == self.keys().len(),
            lists(self.keys(), self@),
    {
        proof {
            use_type_invariant(self);
            assert forall|k: Seq<char>| self@.contains_key(k) <==> #[trigger] self.keys().contains(
                k,
            ) by {
                if self@.contains_key(k) {
                    let i = choose|i: int| holds(self.entries@, i, k);
                    assert(self.keys()[i] == k);
                }
                if self.keys().contains(k) {
                    let i = choose|i: int| 0 <= i < self.keys().len() && self.keys()[i] == k;
                    assert(holds(self.entries@, i, k));
                }
            }
        }
        self.entries.len()
    }

    pub fn is_empty(&self) -> (r: bool)
        ensures
            r == (self@ == Map::<Seq<char>, V::V>::empty()),
    {
        let n: usize = self.len();
        proof {
            if n == 0 {
                assert forall|k: Seq<char>| !self@.contains_key(k) by {
                    assert(!self.keys().contains(k));
                }
                assert(self@ =~= Map::<Seq<char>, V::V>::empty());
            } else {
                assert(self.keys().contains(self.keys()[0]));
                assert(self@.contains_key(self.keys()[0]));
            }
        }
        n == 0
    }

    /// The key at place `i` of the order.
    pub fn key_at(&self, i: usize) -> (k: &String)
        requires
            i < self.keys().len(),
        ensures
            k@ == self.keys()[i as int],
    {
        &self.entries[i].0
    }

    /// The value under the key at place `i` of the order.
    pub fn value_at(&self, i: usize) -> (v: &V)
        requires
            i < self.keys().len(),
        ensures
            self@.contains_key(self.keys()[i as int]),
            v@ == self@[self.keys()[i as int]],
    {
        proof {
            use_type_invariant(self);
            lemma_contents(self.entries@, i as int);
        }
        &self.entries[i].1
    }

    /// The number of keys before `key`.
    fn rank(&self, key: &str) -> (r: usize)
        ensures
            r <= self.entries@.len(),
            forall|i: int| 0 <= i < r ==> before((#[trigger] self.entries@[i]).0@, key@),
            forall|i: int| r <= i < self.entries@.len() ==> !before(
                (#[trigger] self.entries@[i]).0@,
                key@,
            ),
    {
        proof {
            use_type_invariant(self);
        }
        let mut r: usize = 0;
        while r < self.entries.len()
            invariant
                r <= self.entries@.len(),
                sorted(self.entries@),
                forall|i: int| 0 <= i < r ==> before((#[trigger] self.entries@[i]).0@, key@),
            decreases self.entries@.len() - r,
        {
            if !is_before(self.entries[r].0.as_str(), key) {
                proof {
                    assert forall|i: int| r <= i < self.entries@.len() implies !before(
                        (#[trigger] self.entries@[i]).0@,
                        key@,
                    ) by {
                        if before(self.entries@[i].0@, key@) && i > r {
                            lemma_before_transitive(
                                self.entries@[r as int].0@,
                                self.entries@[i].0@,
                                key@,
                            );
                        }
                    }
                }
                return r;
            }
            r += 1;
        }
        r
    }

    /// Whether `key` stands at place `r`, its rank.
    fn stands_at(&self, key: &str, r: usize) -> (found: bool)
        requires
            r <= self.entries@.len(),
            forall|i: int| 0 <= i < r ==> before((#[trigger] self.entries@[i]).0@, key@),
            forall|i: int| r <= i < self.entries@.len() ==> !before(
                (#[trigger] self.entries@[i]).0@,
                key@,
            ),
        ensures
            found ==> r < self.entries@.len() && self.entries@[r as int].0@ == key@
                && self@.contains_key(key@) && self@[key@] == self.entries@[r as int].1@,
            !found ==> !self@.contains_key(key@) && forall|i: int|
                r <= i < self.entries@.len() ==> before(key@, (#[trigger] self.entries@[i]).0@),
    {
        proof {
            use_type_invariant(self);
        }
        let found = r < self.entries.len() && !is_before(key, self.entries[r].0.as_str());
        proof {
            if found {
                law_before_total(key@, self.entries@[r as int].0@);
                lemma_contents(self.entries@, r as int);
            } else {
                assert forall|i: int| r <= i < self.entries@.len() implies before(
                    key@,
                    (#[trigger] self.entries@[i]).0@,
                ) by {
                    if i > r {
                        lemma_before_transitive(
                            key@,
                            self.entries@[r as int].0@,
                            self.entries@[i].0@,
                        );
                    }
                }
                if self@.contains_key(key@) {
                    let i = choose|i: int| holds(self.entries@, i, key@);
                    law_before_total(key@, key@);
                    assert(before(self.entries@[i].0@, key@) || before(
                        key@,
                        self.entries@[i].0@,
                    ));
                }
            }
        }
        found
    }

    pub fn contains_key(&self, key: &str) -> (r: bool)
        ensures
            r == self@.contains_key(key@),
    {
        let r: usize = self.rank(key);
        self.stands_at(key, r)
    }

    pub fn get(&self, key: &str) -> (v: Option<&V>)
        ensures
            match v {
                Some(v) => self@.contains_key(key@) && v@ == self@[key@],
                None => !self@.contains_key(key@),
            },
    {
        let r: usize = self.rank(key);
        if self.stands_at(key, r) {
            Some(&self.entries[r].1)
        } else {
            None
        }
    }

    /// Puts `value` under `key`, in place of what was there.
    pub fn insert(&mut self, key: String, value: V)
        ensures
            final(self)@ == old(self)@.insert(key@, value@),
    {
        proof {
            use_type_invariant(&*self);
        }
        let r: usize = self.rank(key.as_str());
        let found = self.stands_at(key.as_str(), r);
        let ghost before_map = self@;
        let ghost was = self.entries@;
        let ghost (k, v) = (key@, value@);
        let mut entries: Vec<(String, V)> = Vec::new();
        std::mem::swap(&mut entries, &mut self.entries);
        if found {
            entries[r] = (key, value);
        } else {
            entries.insert(r, (key, value));
        }
        proof {
            let now = entries@;
            assert(sorted(now)) by {
                assert forall|i: int, j: int| 0 <= i < j < now.len() implies before(
                    (#[trigger] now[i]).0@,
                    (#[trigger] now[j]).0@,
                ) by {
                    let oi = if found || i < r {
                        i
                    } else {
                        i - 1
                    };
                    let oj = if found || j < r {
                        j
                    } else {
                        j - 1
                    };
                    if i != r {
                        assert(now[i] == was[oi]);
                    }
                    if j != r {
                        assert(now[j] == was[oj]);
                    }
                }
            }
            let got = contents(now);
            let want = before_map.insert(k, v);
            assert forall|x: Seq<char>| #[trigger] got.contains_key(x) <==> want.contains_key(x) by {
                if got.contains_key(x) {
                    let i = choose|i: int| holds(now, i, x);
                    if i != r {
                        let oi = if found || i < r {
                            i
                        } else {
                            i - 1
                        };
                        assert(now[i] == was[oi]);
                        assert(holds(was, oi, x));
                    }
                }
                if want.contains_key(x) {
                    if x == k {
                        assert(holds(now, r as int, x));
                    } else {
                        let oi = choose|i: int| holds(was, i, x);
                        let i = if found || oi < r {
                            oi
                        } else {
                            oi + 1
                        };
                        assert(now[i] == was[oi]);
                        assert(holds(now, i, x));
                    }
                }
            }
            assert forall|x: Seq<char>| #[trigger] got.contains_key(x) implies got[x] == want[x] by {
                let i = choose|i: int| holds(now, i, x);
                lemma_contents(now, i);
                if i != r {
                    let oi = if found || i < r {
                        i
                    } else {
                        i - 1
                    };
                    assert(now[i] == was[oi]);
                    lemma_contents(was, oi);
                    law_before_total(k, k);
                    assert(before(now[i].0@, k) || before(k, now[i].0@));
                }
            }
            assert(got =~= want);
        }
        self.entries = entries;
    }

    /// Takes out `key` and what is under it.
    pub fn remove(&mut self, key: &str) -> (v: Option<V>)
        ensures
            final(self)@ == old(self)@.remove(key@),
            match v {
                Some(v) => old(self)@.contains_key(key@) && v@ == old(self)@[key@],
                None => !old(self)@.contains_key(key@),
            },
    {
        proof {
            use_type_invariant(&*self);
        }
        let r: usize = self.rank(key);
        if !self.stands_at(key, r) {
            assert(self@.remove(key@) =~= self@);
            return None;
        }
        let ghost before_map = self@;
        let ghost was = self.entries@;
        let mut entries: Vec<(String, V)> = Vec::new();
        std::mem::swap(&mut entries, &mut self.entries);
        let taken = entries.remove(r);
        proof {
            let now = entries@;
            assert(sorted(now)) by {
                assert forall|i: int, j: int| 0 <= i < j < now.len() implies before(
                    (#[trigger] now[i]).0@,
                    (#[trigger] now[j]).0@,
                ) by {
                    let oi = if i < r {
                        i
                    } else {
                        i + 1
                    };
                    let oj = if j < r {
                        j
                    } else {
                        j + 1
                    };
                    assert(now[i] == was[oi] && now[j] == was[oj]);
                }
            }
            let got = contents(now);
            let want = before_map.remove(key@);
            assert forall|x: Seq<char>| #[trigger] got.contains_key(x) <==> want.contains_key(x) by {
                if got.contains_key(x) {
                    let i = choose|i: int| holds(now, i, x);
                    let oi = if i < r {
                        i
                    } else {
                        i + 1
                    };
                    assert(now[i] == was[oi]);
                    assert(holds(was, oi, x));
                    law_before_total(x, x);
                    assert(before(was[oi].0@, was[r as int].0@) || before(
                        was[r as int].0@,
                        was[oi].0@,
                    ));
                }
                if want.contains_key(x) {
                    let oi = choose|i: int| holds(was, i, x);
                    let i = if oi < r {
                        oi
                    } else {
                        oi - 1
                    };
                    assert(now[i] == was[oi]);
                    assert(holds(now, i, x));
                }
            }
            assert forall|x: Seq<char>| #[trigger] got.contains_key(x) implies got[x] == want[x] by {
                let i = choose|i: int| holds(now, i, x);
                lemma_contents(now, i);
                let oi = if i < r {
                    i
                } else {
                    i + 1
                };
                assert(now[i] == was[oi]);
                lemma_contents(was, oi);
            }
            assert(got =~= want);
        }
        self.entries = entries;
        Some(taken.1)
    }
}

impl<V: View + Clone> Clone for StringMap<V> {
    /// Where a copy of a value has the contents of the value, so has a copy
    /// of the map.
    fn clone(&self) -> (m: Self)
        ensures
            (forall|a: V, b: V| #[trigger] cloned::<V>(a, b) ==> a@ == b@) ==> m@ == self@,
    {
        proof {
            use_type_invariant(self);
        }
        let mut entries: Vec<(String, V)> = Vec::new();
        let mut i: usize = 0;
        while i < self.entries.len()
            invariant
                i == entries@.len(),
                i <= self.entries@.len(),
                forall|j: int|
                    0 <= j < i ==> (#[trigger] entries@[j]).0@ == self.entries@[j].0@ && cloned::<V>(
                        self.entries@[j].1,
                        entries@[j].1,
                    ),
            decreases self.entries@.len() - i,
        {
            let e = &self.entries[i];
            entries.push((e.0.clone(), e.1.clone()));
            i += 1;
        }
        let m = StringMap { entries };
        proof {
            let (a, b) = (self.entries@, m.entries@);
            if forall|a: V, b: V| #[trigger] cloned::<V>(a, b) ==> a@ == b@ {
                assert forall|x: Seq<char>| #[trigger] m@.contains_key(x) <==> self@.contains_key(
                    x,
                ) by {
                    if m@.contains_key(x) {
                        let i = choose|i: int| holds(b, i, x);
                        assert(b[i].0@ == a[i].0@);
                        assert(holds(a, i, x));
                    }
                    if self@.contains_key(x) {
                        let i = choose|i: int| holds(a, i, x);
                        assert(b[i].0@ == a[i].0@);
                        assert(holds(b, i, x));
                    }
                }
                assert forall|x: Seq<char>| #[trigger] m@.contains_key(x) implies m@[x] == self@[x] by {
                    let i = choose|i: int| holds(b, i, x);
                    assert(b[i].0@ == a[i].0@);
                    lemma_contents(b, i);
                    lemma_contents(a, i);
                }
                assert(m@ =~= self@);
            }
        }
        m
    }
}

} // verus!
