//! A map with text keys that keeps its keys in ascending order.
use crate::order::lemma_listing_is;
use crate::text::lemma_bytes_injective;
use vstd::prelude::*;
use vstd::relations::{antisymmetric, reflexive, sorted_by, strongly_connected, total_ordering, transitive};
use vstd::utf8::encode_utf8;

verus! {

/// Whether `a` comes before `b`: the first byte that differs is smaller, or `a` is a
/// proper prefix.
pub open spec fn bytes_before(a: Seq<u8>, b: Seq<u8>) -> bool
    decreases a.len(),
{
    if b.len() == 0 {
        false
    } else if a.len() == 0 {
        true
    } else if a[0] == b[0] {
        bytes_before(a.skip(1), b.skip(1))
    } else {
        a[0] < b[0]
    }
}

/// The order of texts: that of their UTF-8 bytes.
pub open spec fn text_before(a: Seq<char>, b: Seq<char>) -> bool {
    bytes_before(encode_utf8(a), encode_utf8(b))
}

proof fn lemma_bytes_irreflexive(a: Seq<u8>)
    ensures
        !bytes_before(a, a),
    decreases a.len(),
{
    if a.len() > 0 {
        lemma_bytes_irreflexive(a.skip(1));
    }
}

proof fn lemma_bytes_transitive(a: Seq<u8>, b: Seq<u8>, c: Seq<u8>)
    requires
        bytes_before(a, b),
        bytes_before(b, c),
    ensures
        bytes_before(a, c),
    decreases a.len(),
{
    if a.len() > 0 && b.len() > 0 && c.len() > 0 && a[0] == b[0] && b[0] == c[0] {
        lemma_bytes_transitive(a.skip(1), b.skip(1), c.skip(1));
    }
}

proof fn lemma_bytes_total(a: Seq<u8>, b: Seq<u8>)
    ensures
        a == b || bytes_before(a, b) || bytes_before(b, a),
    decreases a.len(),
{
    if a.len() > 0 && b.len() > 0 && a[0] == b[0] {
        lemma_bytes_total(a.skip(1), b.skip(1));
        if a.skip(1) == b.skip(1) {
            assert(a == seq![a[0]] + a.skip(1));
            assert(b == seq![b[0]] + b.skip(1));
        }
    } else if a.len() == 0 && b.len() == 0 {
        assert(a == b);
    }
}

proof fn lemma_bytes_common(a: Seq<u8>, b: Seq<u8>, k: int)
    requires
        0 <= k <= a.len(),
        k <= b.len(),
        a.take(k) == b.take(k),
    ensures
        bytes_before(a, b) == bytes_before(a.skip(k), b.skip(k)),
        bytes_before(b, a) == bytes_before(b.skip(k), a.skip(k)),
    decreases k,
{
    if k == 0 {
        assert(a.skip(0) == a);
        assert(b.skip(0) == b);
    } else {
        assert(a[0] == a.take(k)[0]);
        assert(b[0] == b.take(k)[0]);
        let x = a.skip(1);
        let y = b.skip(1);
        assert(x.take(k - 1) == a.take(k).skip(1));
        assert(y.take(k - 1) == b.take(k).skip(1));
        lemma_bytes_common(x, y, k - 1);
        assert(x.skip(k - 1) == a.skip(k));
        assert(y.skip(k - 1) == b.skip(k));
    }
}

/// No text comes before itself.
pub proof fn lemma_text_irreflexive(a: Seq<char>)
    ensures
        !text_before(a, a),
{
    lemma_bytes_irreflexive(encode_utf8(a));
}

/// The order of texts is transitive.
pub proof fn lemma_text_transitive(a: Seq<char>, b: Seq<char>, c: Seq<char>)
    requires
        text_before(a, b),
        text_before(b, c),
    ensures
        text_before(a, c),
{
    lemma_bytes_transitive(encode_utf8(a), encode_utf8(b), encode_utf8(c));
}

/// Of two different texts one comes before the other.
pub proof fn lemma_text_total(a: Seq<char>, b: Seq<char>)
    ensures
        a == b || text_before(a, b) || text_before(b, a),
{
    lemma_bytes_total(encode_utf8(a), encode_utf8(b));
    if encode_utf8(a) == encode_utf8(b) {
        lemma_bytes_injective(a, b);
    }
}

/// How one text stands to another.
#[derive(Clone, Copy, PartialEq, Eq, Structural)]
pub enum Place {
    Before,
    Same,
    After,
}

/// Where `a` stands to `b`.
pub fn place(a: &str, b: &str) -> (r: Place)
    ensures
        match r {
            Place::Before => text_before(a@, b@),
            Place::Same => a@ == b@,
            Place::After => text_before(b@, a@),
        },
{
    let x: &[u8] = a.as_bytes();
    let y: &[u8] = b.as_bytes();
    let mut i: usize = 0;
    while i < x.len() && i < y.len() && x[i] == y[i]
        invariant
            x@ == encode_utf8(a@),
            y@ == encode_utf8(b@),
            i <= x@.len(),
            i <= y@.len(),
            x@.take(i as int) == y@.take(i as int),
        decreases x@.len() - i,
    {
        assert(x@.take(i + 1) == x@.take(i as int).push(x@[i as int]));
        assert(y@.take(i + 1) == y@.take(i as int).push(y@[i as int]));
        i = i + 1;
    }
    proof {
        lemma_bytes_common(x@, y@, i as int);
    }
    if i == x.len() {
        if i == y.len() {
            proof {
                assert(x@.take(i as int) == x@);
                assert(y@.take(i as int) == y@);
                lemma_bytes_injective(a@, b@);
            }
            Place::Same
        } else {
            Place::Before
        }
    } else if i == y.len() {
        Place::After
    } else if x[i] < y[i] {
        Place::Before
    } else {
        Place::After
    }
}

/// A map with text keys.
pub struct StringMap<V> {
    entries: Vec<(String, V)>,
}

impl<V> View for StringMap<V> {
    type V = Map<Seq<char>, V>;

    closed spec fn view(&self) -> Map<Seq<char>, V> {
        Map::new(
            |k: Seq<char>| self.keys().contains(k),
            |k: Seq<char>| self.entries@[self.keys().index_of(k)].1,
        )
    }
}

/// Whether each key comes before all that follow it.
pub open spec fn ascending(keys: Seq<Seq<char>>) -> bool {
    forall|i: int, j: int| 0 <= i < j < keys.len() ==> text_before(#[trigger] keys[i], #[trigger] keys[j])
}

/// Keys in ascending order are all different.
pub proof fn lemma_ascending_distinct(keys: Seq<Seq<char>>)
    requires
        ascending(keys),
    ensures
        keys.no_duplicates(),
{
    assert forall|i: int, j: int| 0 <= i < keys.len() && 0 <= j < keys.len() && i != j implies keys[i]
        != keys[j] by {
        lemma_text_irreflexive(keys[i]);
        if i < j {
            assert(text_before(keys[i], keys[j]));
        } else {
            assert(text_before(keys[j], keys[i]));
        }
    }
}

/// The order of texts, with equal texts allowed.
pub open spec fn text_leq() -> spec_fn(Seq<char>, Seq<char>) -> bool {
    |a: Seq<char>, b: Seq<char>| a == b || text_before(a, b)
}

/// It is a total order.
pub proof fn lemma_text_order()
    ensures
        total_ordering(text_leq()),
{
    let r = text_leq();
    assert forall|a: Seq<char>, b: Seq<char>| #[trigger] r(a, b) && #[trigger] r(b, a) implies a == b by {
        if a != b {
            lemma_text_transitive(a, b, a);
            lemma_text_irreflexive(a);
        }
    }
    assert forall|a: Seq<char>, b: Seq<char>, c: Seq<char>| #[trigger]
        r(a, b) && #[trigger] r(b, c) implies r(a, c) by {
        if a != b && b != c {
            lemma_text_transitive(a, b, c);
        }
    }
    assert forall|a: Seq<char>, b: Seq<char>| #[trigger] r(a, b) || #[trigger] r(b, a) by {
        lemma_text_total(a, b);
    }
    assert(reflexive(r));
    assert(antisymmetric(r));
    assert(transitive(r));
    assert(strongly_connected(r));
}

/// Keys in ascending order are the ascending list of the set that they make.
pub proof fn lemma_ascending_listing(keys: Seq<Seq<char>>, set: Set<Seq<char>>)
    requires
        ascending(keys),
        forall|k: Seq<char>| keys.contains(k) == set.contains(k),
    ensures
        set.finite(),
        set.to_sorted_seq(text_leq()) == keys,
{
    lemma_text_order();
    lemma_ascending_distinct(keys);
    assert(sorted_by(keys, text_leq())) by {
        assert forall|i: int, j: int| 0 <= i < j < keys.len() implies #[trigger] (text_leq())(
            keys[i],
            keys[j],
        ) by {
            assert(text_before(keys[i], keys[j]));
        }
    }
    lemma_listing_is(set, text_leq(), keys);
}

impl<V> StringMap<V> {
    /// The keys, as they are stored.
    pub closed spec fn keys(&self) -> Seq<Seq<char>> {
        self.entries@.map_values(|e: (String, V)| e.0@)
    }

    /// The keys are in ascending order.
    pub open spec fn wf(&self) -> bool {
        ascending(self.keys())
    }

    /// The keys are those of the map, each once.
    pub proof fn lemma_keys(&self)
        requires
            self.wf(),
        ensures
            self.keys().no_duplicates(),
            forall|k: Seq<char>| self.keys().contains(k) == #[trigger] self@.contains_key(k),
            forall|i: int| 0 <= i < self.keys().len() ==> self@.contains_key(#[trigger] self.keys()[i]),
            self@.dom() == self.keys().to_set(),
            self@.dom().finite(),
    {
        lemma_ascending_distinct(self.keys());
        assert(self@.dom() == self.keys().to_set());
        assert forall|i: int| 0 <= i < self.keys().len() implies self@.contains_key(
            #[trigger] self.keys()[i],
        ) by {
            assert(self.keys().contains(self.keys()[i]));
        }
    }

    /// The keys are stored in ascending order.
    pub proof fn lemma_sorted(&self)
        requires
            self.wf(),
        ensures
            self.keys() == self@.dom().to_sorted_seq(text_leq()),
    {
        self.lemma_keys();
        assert forall|k: Seq<char>| self.keys().contains(k) == self@.dom().contains(k) by {
            assert(self.keys().contains(k) == self@.contains_key(k));
        }
        lemma_ascending_listing(self.keys(), self@.dom());
    }

    proof fn lemma_entry(&self, i: int)
        requires
            self.wf(),
            0 <= i < self.entries@.len(),
        ensures
            self@.contains_key(self.entries@[i].0@),
            self@[self.entries@[i].0@] == self.entries@[i].1,
    {
        lemma_ascending_distinct(self.keys());
        let k = self.entries@[i].0@;
        assert(self.keys()[i] == k);
        assert(self.keys().contains(k));
        let j = self.keys().index_of(k);
        assert(self.keys()[j] == k);
        assert(i == j);
    }

    /// A map without entries.
    pub fn new() -> (m: Self)
        ensures
            m.wf(),
            m@ == Map::<Seq<char>, V>::empty(),
            m.keys() == Seq::<Seq<char>>::empty(),
    {
        let m = StringMap { entries: Vec::new() };
        assert(m.keys() == Seq::<Seq<char>>::empty());
        assert(m@ == Map::<Seq<char>, V>::empty());
        m
    }

    /// How many entries the map holds.
    pub fn len(&self) -> (n: usize)
        ensures
            n == self.keys().len(),
    {
        self.entries.len()
    }

    /// Whether the map holds no entry.
    pub fn is_empty(&self) -> (r: bool)
        requires
            self.wf(),
        ensures
            r == (self.keys().len() == 0),
            r == (self@ == Map::<Seq<char>, V>::empty()),
    {
        proof {
            if self.keys().len() > 0 {
                self.lemma_entry(0);
            } else {
                assert(self@ == Map::<Seq<char>, V>::empty());
            }
        }
        self.entries.len() == 0
    }

    /// The key at position `i`.
    pub fn key_at(&self, i: usize) -> (k: &String)
        requires
            i < self.keys().len(),
        ensures
            k@ == self.keys()[i as int],
    {
        &self.entries[i].0
    }

    /// The value at position `i`.
    pub fn value_at(&self, i: usize) -> (v: &V)
        requires
            self.wf(),
            i < self.keys().len(),
        ensures
            self@.contains_key(self.keys()[i as int]),
            *v == self@[self.keys()[i as int]],
    {
        proof {
            self.lemma_entry(i as int);
        }
        &self.entries[i].1
    }

    /// The position of `key`, or the position at which it would have to stand.
    fn search(&self, key: &str) -> (r: Result<usize, usize>)
        requires
            self.wf(),
        ensures
            match r {
                Ok(i) => i < self.keys().len() && self.keys()[i as int] == key@,
                Err(i) => {
                    &&& i <= self.keys().len()
                    &&& !self@.contains_key(key@)
                    &&& forall|j: int| 0 <= j < i ==> text_before(#[trigger] self.keys()[j], key@)
                    &&& forall|j: int| i <= j < self.keys().len() ==> text_before(key@, #[trigger] self.keys()[j])
                },
            },
    {
        let mut lo: usize = 0;
        let mut hi: usize = self.entries.len();
        while lo < hi
            invariant
                self.wf(),
                lo <= hi <= self.keys().len(),
                self.keys().len() == self.entries@.len(),
                forall|j: int| 0 <= j < lo ==> text_before(#[trigger] self.keys()[j], key@),
                forall|j: int| hi <= j < self.keys().len() ==> text_before(key@, #[trigger] self.keys()[j]),
            decreases hi - lo,
        {
            let mid: usize = lo + (hi - lo) / 2;
            assert(self.keys()[mid as int] == self.entries@[mid as int].0@);
            match place(self.entries[mid].0.as_str(), key) {
                Place::Same => {
                    return Ok(mid);
                },
                Place::Before => {
                    proof {
                        assert forall|j: int| 0 <= j < mid + 1 implies text_before(
                            #[trigger] self.keys()[j],
                            key@,
                        ) by {
                            if j < mid {
                                lemma_text_transitive(self.keys()[j], self.keys()[mid as int], key@);
                            }
                        }
                    }
                    lo = mid + 1;
                },
                Place::After => {
                    proof {
                        assert forall|j: int| mid <= j < self.keys().len() implies text_before(
                            key@,
                            #[trigger] self.keys()[j],
                        ) by {
                            if j > mid {
                                lemma_text_transitive(key@, self.keys()[mid as int], self.keys()[j]);
                            }
                        }
                    }
                    hi = mid;
                },
            }
        }
        proof {
            if self@.contains_key(key@) {
                let j = choose|j: int| 0 <= j < self.keys().len() && self.keys()[j] == key@;
                lemma_text_irreflexive(key@);
            }
        }
        Err(lo)
    }

    /// The value of `key`, where the map holds it.
    pub fn get(&self, key: &str) -> (r: Option<&V>)
        requires
            self.wf(),
        ensures
            match r {
                Some(v) => self@.contains_key(key@) && *v == self@[key@],
                None => !self@.contains_key(key@),
            },
    {
        match self.search(key) {
            Ok(i) => {
                proof {
                    self.lemma_entry(i as int);
                }
                Some(&self.entries[i].1)
            },
            Err(_) => None,
        }
    }

    /// Gives `key` the value `value`, in place of any that it had.
    pub fn insert(&mut self, key: String, value: V)
        requires
            old(self).wf(),
        ensures
            final(self).wf(),
            final(self)@ == old(self)@.insert(key@, value),
    {
        let ghost before = *self;
        match self.search(key.as_str()) {
            Ok(i) => {
                let ghost k = key@;
                self.entries.set(i, (key, value));
                proof {
                    assert(self.keys() == before.keys());
                    before.lemma_keys();
                    self.lemma_entry(i as int);
                    assert forall|x: Seq<char>| #[trigger]
                        self@.contains_key(x) implies self@[x] == before@.insert(k, value)[x] by {
                        let j = choose|j: int| 0 <= j < self.keys().len() && self.keys()[j] == x;
                        self.lemma_entry(j);
                        before.lemma_entry(j);
                    }
                    assert(self@ == before@.insert(k, value));
                }
            },
            Err(i) => {
                let ghost k = key@;
                self.entries.insert(i, (key, value));
                proof {
                    assert(self.keys() == before.keys().insert(i as int, k));
                    assert(self.wf()) by {
                        assert forall|p: int, q: int| 0 <= p < q < self.keys().len() implies text_before(
                            #[trigger] self.keys()[p],
                            #[trigger] self.keys()[q],
                        ) by {
                            let a = if p < i { p } else { p - 1 };
                            let b = if q < i { q } else { q - 1 };
                            if p != i && q != i {
                                assert(text_before(before.keys()[a], before.keys()[b]));
                            }
                        }
                    }
                    assert forall|x: Seq<char>| self@.contains_key(x) == before@.insert(
                        k,
                        value,
                    ).contains_key(x) by {
                        if before@.contains_key(x) {
                            let j = choose|j: int| 0 <= j < before.keys().len() && before.keys()[j] == x;
                            assert(self.keys()[if j < i { j } else { j + 1 }] == x);
                        }
                        if self@.contains_key(x) {
                            let j = choose|j: int| 0 <= j < self.keys().len() && self.keys()[j] == x;
                            if j < i {
                                assert(before.keys()[j] == x);
                            } else if j > i {
                                assert(before.keys()[j - 1] == x);
                            }
                        }
                        assert(self.keys()[i as int] == k);
                    }
                    assert forall|x: Seq<char>| #[trigger]
                        self@.contains_key(x) implies self@[x] == before@.insert(k, value)[x] by {
                        let j = choose|j: int| 0 <= j < self.keys().len() && self.keys()[j] == x;
                        self.lemma_entry(j);
                        if j < i {
                            before.lemma_entry(j);
                        } else if j > i {
                            before.lemma_entry(j - 1);
                        }
                    }
                    assert(self@ == before@.insert(k, value));
                }
            },
        }
    }

    /// Takes `key` out of the map and hands back its value.
    pub fn remove(&mut self, key: &str) -> (r: Option<V>)
        requires
            old(self).wf(),
        ensures
            final(self).wf(),
            final(self)@ == old(self)@.remove(key@),
            match r {
                Some(v) => old(self)@.contains_key(key@) && v == old(self)@[key@],
                None => !old(self)@.contains_key(key@),
            },
    {
        let ghost before = *self;
        match self.search(key) {
            Ok(i) => {
                let e: (String, V) = self.entries.remove(i);
                proof {
                    before.lemma_entry(i as int);
                    before.lemma_keys();
                    assert(self.keys() == before.keys().remove(i as int));
                    assert(self.wf()) by {
                        assert forall|p: int, q: int| 0 <= p < q < self.keys().len() implies text_before(
                            #[trigger] self.keys()[p],
                            #[trigger] self.keys()[q],
                        ) by {
                            let a = if p < i { p } else { p + 1 };
                            let b = if q < i { q } else { q + 1 };
                            assert(text_before(before.keys()[a], before.keys()[b]));
                        }
                    }
                    assert forall|x: Seq<char>| self@.contains_key(x) == before@.remove(
                        key@,
                    ).contains_key(x) by {
                        if before@.contains_key(x) && x != key@ {
                            let j = choose|j: int| 0 <= j < before.keys().len() && before.keys()[j] == x;
                            assert(self.keys()[if j < i { j } else { j - 1 }] == x);
                        }
                        if self@.contains_key(x) {
                            let j = choose|j: int| 0 <= j < self.keys().len() && self.keys()[j] == x;
                            let a = if j < i { j } else { j + 1 };
                            assert(before.keys()[a] == x);
                        }
                    }
                    assert forall|x: Seq<char>| #[trigger]
                        self@.contains_key(x) implies self@[x] == before@.remove(key@)[x] by {
                        let j = choose|j: int| 0 <= j < self.keys().len() && self.keys()[j] == x;
                        self.lemma_entry(j);
                        before.lemma_entry(if j < i { j } else { j + 1 });
                    }
                    assert(self@ == before@.remove(key@));
                }
                Some(e.1)
            },
            Err(_) => {
                assert(self@ == before@.remove(key@));
                None
            },
        }
    }

    /// Takes the last entry out.
    pub fn pop_last(&mut self) -> (r: Option<(String, V)>)
        requires
            old(self).wf(),
        ensures
            final(self).wf(),
            match r {
                Some((k, v)) => !final(self)@.contains_key(k@) && old(self)@ == final(self)@.insert(k@, v)
                    && final(self).keys().len() < old(self).keys().len(),
                None => final(self)@ == old(self)@ && old(self)@ == Map::<Seq<char>, V>::empty(),
            },
    {
        let ghost before = *self;
        proof {
            before.lemma_keys();
        }
        match self.entries.pop() {
            Some((k, v)) => {
                proof {
                    let n = before.entries@.len() as int;
                    let key = k@;
                    assert(self.entries@ == before.entries@.drop_last());
                    assert(before.keys()[n - 1] == key);
                    assert(self.keys() == before.keys().drop_last());
                    assert forall|i: int, j: int| 0 <= i < j < self.keys().len() implies text_before(
                        #[trigger] self.keys()[i],
                        #[trigger] self.keys()[j],
                    ) by {
                        assert(text_before(before.keys()[i], before.keys()[j]));
                    }
                    self.lemma_keys();
                    assert(!self.keys().contains(key)) by {
                        if self.keys().contains(key) {
                            let i = choose|i: int| 0 <= i < self.keys().len() && self.keys()[i] == key;
                            assert(before.keys()[i] == key);
                        }
                    }
                    assert forall|h: Seq<char>| before@.contains_key(h) == (#[trigger] self@.contains_key(h)
                        || h == key) by {
                        if before.keys().contains(h) && h != key {
                            let i = choose|i: int| 0 <= i < before.keys().len() && before.keys()[i] == h;
                            assert(self.keys()[i] == h);
                        }
                        if self.keys().contains(h) {
                            let i = choose|i: int| 0 <= i < self.keys().len() && self.keys()[i] == h;
                            assert(before.keys()[i] == h);
                        }
                        assert(before.keys().contains(key));
                    }
                    assert forall|h: Seq<char>| #[trigger] before@.contains_key(h) implies before@[h]
                        == self@.insert(key, v)[h] by {
                        let i = choose|i: int| 0 <= i < before.keys().len() && before.keys()[i] == h;
                        before.lemma_entry(i);
                        if h != key {
                            self.lemma_entry(i);
                        }
                    }
                    assert(before@ == self@.insert(key, v));
                    assert(!self@.contains_key(key));
                    assert(self.keys().len() == before.keys().len() - 1);
                }
                Some((k, v))
            },
            None => {
                proof {
                    assert(before.keys() == Seq::<Seq<char>>::empty());
                    assert(before@ == Map::<Seq<char>, V>::empty());
                }
                None
            },
        }
    }

    /// Takes over all entries of `other`, in place of those with the same keys.
    pub fn absorb(&mut self, other: StringMap<V>)
        requires
            old(self).wf(),
            other.wf(),
        ensures
            final(self).wf(),
            final(self)@ == old(self)@.union_prefer_right(other@),
    {
        let ghost goal = self@.union_prefer_right(other@);
        let mut rest: StringMap<V> = other;
        loop
            invariant
                self.wf(),
                rest.wf(),
                self@.union_prefer_right(rest@) == goal,
            ensures
                self.wf(),
                self@ == goal,
            decreases rest.keys().len(),
        {
            let ghost before = self@;
            let ghost all = rest@;
            match rest.pop_last() {
                Some((k, v)) => {
                    let ghost key = k@;
                    self.insert(k, v);
                    assert(self@.union_prefer_right(rest@) == before.union_prefer_right(all)) by {
                        assert(self@ == before.insert(key, v));
                        assert(all == rest@.insert(key, v));
                    }
                },
                None => {
                    assert(self@.union_prefer_right(rest@) == self@);
                    break;
                },
            }
        }
    }
}

} // verus!
