//! Totals over the values of finite maps.

use vstd::prelude::*;

verus! {

/// The sum of `f` over all values of a finite map.
#[verifier::opaque]
pub open spec fn total<K, V>(m: Map<K, V>, f: spec_fn(V) -> int) -> int
    decreases m.dom().len(),
{
    if m.dom().finite() && m.dom().len() > 0 {
        let k = m.dom().choose();
        f(m[k]) + total(m.remove(k), f)
    } else {
        0
    }
}

/// The total over an empty map is zero.
pub proof fn lemma_total_empty<K, V>(m: Map<K, V>, f: spec_fn(V) -> int)
    requires
        m.dom() =~= Set::<K>::empty(),
    ensures
        total(m, f) == 0,
{
    reveal(total);
}

/// A total does not depend on the order in which values are summed up.
pub proof fn lemma_total_remove<K, V>(m: Map<K, V>, f: spec_fn(V) -> int, k: K)
    requires
        m.dom().finite(),
        m.contains_key(k),
    ensures
        total(m, f) == f(m[k]) + total(m.remove(k), f),
    decreases m.dom().len(),
{
    reveal(total);
    let c = m.dom().choose();
    if c != k {
        let a = m.remove(c);
        let b = m.remove(k);
        lemma_total_remove(a, f, k);
        lemma_total_remove(b, f, c);
        assert(a.remove(k) =~= b.remove(c));
    }
}

/// Adding or replacing a value changes the total accordingly.
pub proof fn lemma_total_insert<K, V>(m: Map<K, V>, f: spec_fn(V) -> int, k: K, v: V)
    requires
        m.dom().finite(),
    ensures
        !m.contains_key(k) ==> total(m.insert(k, v), f) == total(m, f) + f(v),
        m.contains_key(k) ==> total(m.insert(k, v), f) == total(m, f) - f(m[k]) + f(v),
{
    let n = m.insert(k, v);
    lemma_total_remove(n, f, k);
    if m.contains_key(k) {
        lemma_total_remove(m, f, k);
        assert(n.remove(k) =~= m.remove(k));
    } else {
        assert(n.remove(k) =~= m);
    }
}

/// Functions that agree on all values have the same total.
pub proof fn lemma_total_ext<K, V>(m: Map<K, V>, f: spec_fn(V) -> int, g: spec_fn(V) -> int)
    requires
        forall|k: K| #![trigger m[k]] m.contains_key(k) ==> f(m[k]) == g(m[k]),
    ensures
        total(m, f) == total(m, g),
    decreases m.dom().len(),
{
    reveal(total);
    if m.dom().finite() && m.dom().len() > 0 {
        let c = m.dom().choose();
        let n = m.remove(c);
        assert forall|k: K| n.contains_key(k) implies f(#[trigger] n[k]) == g(n[k]) by {
            assert(n[k] == m[k]);
        }
        assert(f(m[c]) == g(m[c]));
        lemma_total_ext(n, f, g);
    }
}

/// A total of values that are not negative is at least any single one of them.
pub proof fn lemma_total_bound<K, V>(m: Map<K, V>, f: spec_fn(V) -> int)
    requires
        m.dom().finite(),
        forall|k: K| #![trigger m[k]] m.contains_key(k) ==> f(m[k]) >= 0,
    ensures
        total(m, f) >= 0,
        forall|k: K| #![trigger m[k]] m.contains_key(k) ==> f(m[k]) <= total(m, f),
    decreases m.dom().len(),
{
    reveal(total);
    if m.dom().len() > 0 {
        let c = m.dom().choose();
        let n = m.remove(c);
        assert forall|k: K| n.contains_key(k) implies f(#[trigger] n[k]) >= 0 by {
            assert(n[k] == m[k]);
        }
        assert(f(m[c]) >= 0);
        lemma_total_bound(n, f);
        assert forall|k: K| m.contains_key(k) implies f(#[trigger] m[k]) <= total(m, f) by {
            if k != c {
                assert(n.contains_key(k));
                assert(n[k] == m[k]);
            }
        }
    } else {
        assert forall|k: K| m.contains_key(k) implies f(#[trigger] m[k]) <= total(m, f) by {
            assert(m.dom() =~= Set::empty());
        }
    }
}

/// A total of values that are at most those of another function is at most the
/// total of that function.
pub proof fn lemma_total_le<K, V>(m: Map<K, V>, f: spec_fn(V) -> int, g: spec_fn(V) -> int)
    requires
        m.dom().finite(),
        forall|k: K| #![trigger m[k]] m.contains_key(k) ==> f(m[k]) <= g(m[k]),
    ensures
        total(m, f) <= total(m, g),
    decreases m.dom().len(),
{
    reveal(total);
    if m.dom().len() > 0 {
        let c = m.dom().choose();
        let n = m.remove(c);
        assert forall|k: K| n.contains_key(k) implies f(#[trigger] n[k]) <= g(n[k]) by {
            assert(n[k] == m[k]);
        }
        assert(f(m[c]) <= g(m[c]));
        lemma_total_le(n, f, g);
    }
}

/// The total of a sum is the sum of the totals.
pub proof fn lemma_total_plus<K, V>(
    m: Map<K, V>,
    f: spec_fn(V) -> int,
    g: spec_fn(V) -> int,
    h: spec_fn(V) -> int,
)
    requires
        forall|k: K| #![trigger m[k]] m.contains_key(k) ==> h(m[k]) == f(m[k]) + g(m[k]),
    ensures
        total(m, h) == total(m, f) + total(m, g),
    decreases m.dom().len(),
{
    reveal(total);
    if m.dom().finite() && m.dom().len() > 0 {
        let c = m.dom().choose();
        let n = m.remove(c);
        assert forall|k: K| n.contains_key(k) implies h(#[trigger] n[k]) == f(n[k]) + g(n[k]) by {
            assert(n[k] == m[k]);
        }
        assert(h(m[c]) == f(m[c]) + g(m[c]));
        lemma_total_plus(n, f, g, h);
    }
}

/// Without values other than zero, the total is zero.
pub proof fn lemma_total_zero<K, V>(m: Map<K, V>, f: spec_fn(V) -> int)
    requires
        forall|k: K| #![trigger m[k]] m.contains_key(k) ==> f(m[k]) == 0,
    ensures
        total(m, f) == 0,
    decreases m.dom().len(),
{
    reveal(total);
    if m.dom().finite() && m.dom().len() > 0 {
        let c = m.dom().choose();
        let n = m.remove(c);
        assert forall|k: K| n.contains_key(k) implies f(#[trigger] n[k]) == 0 by {
            assert(n[k] == m[k]);
        }
        assert(f(m[c]) == 0);
        lemma_total_zero(n, f);
    }
}

/// If a function counts the entries of a sequence, its total is the length of
/// that sequence.
pub proof fn lemma_total_count<K, V>(m: Map<K, V>, f: spec_fn(V) -> int, s: Seq<K>)
    requires
        m.dom().finite(),
        s.no_duplicates(),
        forall|i: int| #![trigger s[i]] 0 <= i < s.len() ==> m.contains_key(s[i]),
        forall|k: K| #![trigger m[k]]
            m.contains_key(k) ==> f(m[k]) == if s.contains(k) {
                1int
            } else {
                0
            },
    ensures
        total(m, f) == s.len(),
    decreases s.len(),
{
    if s.len() == 0 {
        lemma_total_zero(m, f);
    } else {
        let k = s.last();
        let t = s.drop_last();
        let n = m.remove(k);
        assert(s[s.len() - 1] == k);
        assert(s.contains(k));
        lemma_total_remove(m, f, k);
        assert forall|i: int| 0 <= i < t.len() implies n.contains_key(#[trigger] t[i]) by {
            assert(t[i] == s[i]);
        }
        assert forall|j: K| n.contains_key(j) implies f(#[trigger] n[j]) == (if t.contains(j) {
            1int
        } else {
            0
        }) by {
            assert(n[j] == m[j]);
            if s.contains(j) {
                let i = choose|i: int| 0 <= i < s.len() && s[i] == j;
                assert(t[i] == j);
            }
            if t.contains(j) {
                let i = choose|i: int| 0 <= i < t.len() && t[i] == j;
                assert(s[i] == j);
            }
        }
        lemma_total_count(n, f, t);
    }
}

} // verus!
