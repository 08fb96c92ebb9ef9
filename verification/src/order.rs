//! Ascending lists of finite sets, and the last elements of a list.
use vstd::prelude::*;
use vstd::relations::{antisymmetric, reflexive, sorted_by, strongly_connected, total_ordering, transitive};

verus! {

/// The last `n` elements of `s`, or all where it has fewer.
pub open spec fn last_n<A>(s: Seq<A>, n: int) -> Seq<A> {
    if s.len() > n {
        s.skip(s.len() - n)
    } else {
        s
    }
}

/// The elements of a finite set in ascending order make one list: sorted, each once.
pub proof fn lemma_listing<A>(set: Set<A>, leq: spec_fn(A, A) -> bool)
    requires
        set.finite(),
        total_ordering(leq),
    ensures
        sorted_by(set.to_sorted_seq(leq), leq),
        set.to_sorted_seq(leq).no_duplicates(),
        set.to_sorted_seq(leq).to_set() == set,
        forall|x: A| set.to_sorted_seq(leq).contains(x) == set.contains(x),
{
    let base = set.to_seq();
    lemma_to_seq(set);
    base.lemma_sort_by_ensures(leq);
    let s = base.sort_by(leq);
    base.lemma_multiset_has_no_duplicates();
    s.lemma_multiset_has_no_duplicates_conv();
    assert forall|x: A| s.contains(x) == set.contains(x) by {
        broadcast use vstd::seq_lib::group_to_multiset_ensures;

        assert(s.contains(x) == (s.to_multiset().count(x) > 0));
        assert(base.contains(x) == (base.to_multiset().count(x) > 0));
    }
    assert(s.to_set() == set);
}

proof fn lemma_to_seq<A>(set: Set<A>)
    requires
        set.finite(),
    ensures
        set.to_seq().no_duplicates(),
        forall|x: A| set.to_seq().contains(x) == set.contains(x),
    decreases set.len(),
{
    if set.len() == 0 {
        assert(set == Set::<A>::empty());
        assert(set.to_seq() == Seq::<A>::empty());
    } else {
        let x = set.choose();
        let rest = set.remove(x);
        lemma_to_seq(rest);
        let r = rest.to_seq();
        let s = Seq::<A>::empty().push(x) + r;
        assert(set.to_seq() == s);
        assert forall|y: A| s.contains(y) == set.contains(y) by {
            if set.contains(y) {
                if y == x {
                    assert(s[0] == y);
                } else {
                    assert(r.contains(y));
                    let i = choose|i: int| 0 <= i < r.len() && r[i] == y;
                    assert(s[i + 1] == y);
                }
            }
            if s.contains(y) {
                let i = choose|i: int| 0 <= i < s.len() && s[i] == y;
                if i > 0 {
                    assert(r[i - 1] == y);
                    assert(r.contains(y));
                }
            }
        }
        assert forall|i: int, j: int| 0 <= i < s.len() && 0 <= j < s.len() && i != j implies s[i]
            != s[j] by {
            if i == 0 {
                assert(r.contains(r[j - 1]));
            } else if j == 0 {
                assert(r.contains(r[i - 1]));
            } else {
                assert(r[i - 1] != r[j - 1]);
            }
        }
    }
}

/// A sorted list without repetition is the ascending list of the set of its elements.
pub proof fn lemma_listing_is<A>(set: Set<A>, leq: spec_fn(A, A) -> bool, s: Seq<A>)
    requires
        total_ordering(leq),
        sorted_by(s, leq),
        s.no_duplicates(),
        forall|x: A| s.contains(x) == set.contains(x),
    ensures
        set.finite(),
        set.to_sorted_seq(leq) == s,
{
    assert(s.to_set() == set);
    assert(set.finite());
    lemma_listing(set, leq);
    let t = set.to_sorted_seq(leq);
    s.lemma_multiset_has_no_duplicates();
    t.lemma_multiset_has_no_duplicates();
    assert forall|x: A| s.to_multiset().count(x) == t.to_multiset().count(x) by {
        broadcast use vstd::seq_lib::group_to_multiset_ensures;

        assert(s.contains(x) == (s.to_multiset().count(x) > 0));
        assert(t.contains(x) == (t.to_multiset().count(x) > 0));
        if s.contains(x) {
            assert(s.to_multiset().contains(x));
            assert(t.to_multiset().contains(x));
        }
    }
    assert(s.to_multiset() == t.to_multiset());
    vstd::seq_lib::lemma_sorted_unique(s, t, leq);
}

/// The end of a sorted list without repetition is one too.
pub proof fn lemma_last_n<A>(s: Seq<A>, n: int, leq: spec_fn(A, A) -> bool)
    requires
        n >= 0,
        total_ordering(leq),
        sorted_by(s, leq),
        s.no_duplicates(),
    ensures
        sorted_by(last_n(s, n), leq),
        last_n(s, n).no_duplicates(),
        last_n(s, n).len() <= n,
        last_n(s, n).len() == if s.len() > n { n } else { s.len() as int },
        forall|x: A| last_n(s, n).contains(x) ==> s.contains(x),
{
    let t = last_n(s, n);
    let k = s.len() - t.len();
    assert forall|i: int| 0 <= i < t.len() implies t[i] == s[i + k] by {}
    assert forall|x: A| t.contains(x) implies s.contains(x) by {
        let i = choose|i: int| 0 <= i < t.len() && t[i] == x;
        assert(s[i + k] == x);
    }
    assert forall|i: int, j: int| 0 <= i < j < t.len() implies #[trigger] leq(t[i], t[j]) by {
        assert(leq(s[i + k], s[j + k]));
    }
}

/// A set that lies between the last elements of a list and the whole list has the
/// same last elements.
pub proof fn lemma_last_n_between<A>(
    small: Set<A>,
    big: Set<A>,
    n: int,
    leq: spec_fn(A, A) -> bool,
)
    requires
        n >= 0,
        total_ordering(leq),
        big.finite(),
        small.subset_of(big),
        forall|x: A| last_n(big.to_sorted_seq(leq), n).contains(x) ==> small.contains(x),
    ensures
        small.finite(),
        last_n(small.to_sorted_seq(leq), n) == last_n(big.to_sorted_seq(leq), n),
{
    vstd::set_lib::lemma_set_subset_finite(big, small);
    lemma_listing(small, leq);
    lemma_listing(big, leq);
    let s = small.to_sorted_seq(leq);
    let b = big.to_sorted_seq(leq);
    let tb = last_n(b, n);
    lemma_last_n(b, n, leq);
    if b.len() <= n {
        assert forall|x: A| small.contains(x) == big.contains(x) by {
            if big.contains(x) {
                assert(b.contains(x));
            }
        }
        assert(small == big);
    } else {
        let k = b.len() - n;
        // The elements of `small` that lie before position `k` of `b`.
        let head = small.filter(|x: A| !tb.contains(x));
        vstd::set_lib::lemma_set_subset_finite(small, head);
        lemma_listing(head, leq);
        let h = head.to_sorted_seq(leq);
        let whole = h + tb;
        assert forall|i: int, j: int| 0 <= i < j < whole.len() implies #[trigger] leq(
            whole[i],
            whole[j],
        ) by {
            if j < h.len() {
                assert(leq(h[i], h[j]));
            } else if i >= h.len() {
                assert(leq(tb[i - h.len()], tb[j - h.len()]));
            } else {
                let x = h[i];
                assert(h.contains(x));
                assert(head.contains(x));
                assert(b.contains(x));
                let p = choose|p: int| 0 <= p < b.len() && b[p] == x;
                let q = j - h.len() + k;
                assert(tb[j - h.len()] == b[q]);
                if p >= k {
                    assert(tb[p - k] == x);
                    assert(tb.contains(x));
                }
                assert(leq(b[p], b[q]));
            }
        }
        assert forall|i: int, j: int| 0 <= i < whole.len() && 0 <= j < whole.len() && i != j implies whole[i]
            != whole[j] by {
            if i < h.len() && j < h.len() {
                assert(h[i] != h[j]);
            } else if i >= h.len() && j >= h.len() {
                assert(tb[i - h.len()] != tb[j - h.len()]);
            } else if i < h.len() {
                assert(h.contains(h[i]));
                assert(head.contains(h[i]));
                assert(tb.contains(tb[j - h.len()]));
            } else {
                assert(h.contains(h[j]));
                assert(head.contains(h[j]));
                assert(tb.contains(tb[i - h.len()]));
            }
        }
        assert forall|x: A| whole.contains(x) == small.contains(x) by {
            if small.contains(x) {
                if tb.contains(x) {
                    let i = choose|i: int| 0 <= i < tb.len() && tb[i] == x;
                    assert(whole[i + h.len()] == x);
                } else {
                    assert(head.contains(x));
                    assert(h.contains(x));
                    let i = choose|i: int| 0 <= i < h.len() && h[i] == x;
                    assert(whole[i] == x);
                }
            }
            if whole.contains(x) {
                let i = choose|i: int| 0 <= i < whole.len() && whole[i] == x;
                if i < h.len() {
                    assert(h.contains(x));
                    assert(head.contains(x));
                } else {
                    assert(tb[i - h.len()] == x);
                    assert(tb.contains(x));
                }
            }
        }
        assert(sorted_by(whole, leq));
        lemma_listing_is(small, leq, whole);
        assert(whole.skip(whole.len() - n) == tb);
    }
}

// ---------------------------------------------------------------------------
// Numbers and pairs of numbers

/// The order of whole numbers.
pub open spec fn num_leq() -> spec_fn(i64, i64) -> bool {
    |a: i64, b: i64| a <= b
}

/// The order of pairs: by the first number, then by the second.
pub open spec fn pair_leq() -> spec_fn((i64, i64), (i64, i64)) -> bool {
    |a: (i64, i64), b: (i64, i64)| a.0 < b.0 || (a.0 == b.0 && a.1 <= b.1)
}

/// Both are total orders.
pub proof fn lemma_number_orders()
    ensures
        total_ordering(num_leq()),
        total_ordering(pair_leq()),
{
    let r = num_leq();
    assert(reflexive(r));
    assert(antisymmetric(r));
    assert(transitive(r));
    assert(strongly_connected(r));
    let p = pair_leq();
    assert(reflexive(p));
    assert(antisymmetric(p));
    assert(transitive(p));
    assert(strongly_connected(p));
}

} // verus!
