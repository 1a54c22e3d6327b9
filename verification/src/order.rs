//! Facts about strictly sorted sequences.

use vstd::prelude::*;

verus! {

/// `s` is strictly increasing under `lt`.
pub open spec fn strictly_sorted<T>(s: Seq<T>, lt: spec_fn(T, T) -> bool) -> bool {
    forall|i: int, j: int| 0 <= i < j < s.len() ==> lt(#[trigger] s[i], #[trigger] s[j])
}

/// `lt` is a strict order: irreflexive and transitive.
pub open spec fn strict_order<T>(lt: spec_fn(T, T) -> bool) -> bool {
    &&& forall|x: T| !#[trigger] lt(x, x)
    &&& forall|x: T, y: T, z: T| #[trigger] lt(x, y) && #[trigger] lt(y, z) ==> lt(x, z)
}

/// Two strictly sorted sequences with the same elements are the same sequence.
pub proof fn lemma_sorted_unique<T>(a: Seq<T>, b: Seq<T>, lt: spec_fn(T, T) -> bool)
    requires
        strict_order(lt),
        strictly_sorted(a, lt),
        strictly_sorted(b, lt),
        forall|x: T| a.contains(x) <==> b.contains(x),
    ensures
        a == b,
    decreases a.len(),
{
    if a.len() == 0 {
        if b.len() > 0 {
            assert(b.contains(b[0]));
        }
        assert(a =~= b);
    } else if b.len() == 0 {
        assert(a.contains(a[0]));
    } else {
        assert(a.contains(a[0]));
        assert(b.contains(b[0]));
        if a[0] != b[0] {
            let k = choose|k: int| 0 <= k < b.len() && b[k] == a[0];
            let m = choose|m: int| 0 <= m < a.len() && a[m] == b[0];
            assert(lt(b[0], b[k]));
            assert(lt(a[0], a[m]));
            assert(lt(a[0], a[0]));
        }
        let a1 = a.drop_first();
        let b1 = b.drop_first();
        assert forall|x: T| a1.contains(x) <==> b1.contains(x) by {
            if a1.contains(x) {
                let i = choose|i: int| 0 <= i < a1.len() && a1[i] == x;
                assert(a[i + 1] == x);
                assert(lt(a[0], a[i + 1]));
                assert(a.contains(x));
                let j = choose|j: int| 0 <= j < b.len() && b[j] == x;
                if j == 0 {
                    assert(lt(x, x));
                }
                assert(b1[j - 1] == x);
            }
            if b1.contains(x) {
                let i = choose|i: int| 0 <= i < b1.len() && b1[i] == x;
                assert(b[i + 1] == x);
                assert(lt(b[0], b[i + 1]));
                assert(b.contains(x));
                let j = choose|j: int| 0 <= j < a.len() && a[j] == x;
                if j == 0 {
                    assert(lt(x, x));
                }
                assert(a1[j - 1] == x);
            }
        }
        assert forall|i: int, j: int| 0 <= i < j < a1.len() implies lt(#[trigger] a1[i], #[trigger] a1[j]) by {
            assert(a1[i] == a[i + 1] && a1[j] == a[j + 1]);
        }
        assert forall|i: int, j: int| 0 <= i < j < b1.len() implies lt(#[trigger] b1[i], #[trigger] b1[j]) by {
            assert(b1[i] == b[i + 1] && b1[j] == b[j + 1]);
        }
        lemma_sorted_unique(a1, b1, lt);
        assert(a =~= seq![a[0]] + a1);
        assert(b =~= seq![b[0]] + b1);
    }
}

/// Where `x` goes in `s`: before the first element that `x` sorts before, or
/// at the end.
pub proof fn lemma_insert_point<T>(s: Seq<T>, x: T, lt: spec_fn(T, T) -> bool) -> (p: int)
    ensures
        0 <= p <= s.len(),
        forall|q: int| 0 <= q < p ==> !lt(x, #[trigger] s[q]),
        p < s.len() ==> lt(x, s[p]),
    decreases s.len(),
{
    if s.len() == 0 || lt(x, s[0]) {
        0
    } else {
        let r = lemma_insert_point(s.drop_first(), x, lt);
        assert forall|q: int| 0 <= q < r + 1 implies !lt(x, #[trigger] s[q]) by {
            if q > 0 {
                assert(s[q] == s.drop_first()[q - 1]);
            }
        }
        if r + 1 < s.len() {
            assert(s[r + 1] == s.drop_first()[r]);
        }
        r + 1
    }
}

/// Putting `x` after every element smaller than it and before the rest keeps
/// a strictly sorted sequence strictly sorted.
pub proof fn lemma_insert_sorted<T>(s: Seq<T>, x: T, p: int, lt: spec_fn(T, T) -> bool)
    requires
        strict_order(lt),
        strictly_sorted(s, lt),
        0 <= p <= s.len(),
        forall|q: int| 0 <= q < p ==> lt(#[trigger] s[q], x),
        p < s.len() ==> lt(x, s[p]),
    ensures
        strictly_sorted(s.insert(p, x), lt),
        forall|y: T| s.insert(p, x).contains(y) <==> (s.contains(y) || y == x),
{
    let t = s.insert(p, x);
    assert forall|i: int, j: int| 0 <= i < j < t.len() implies lt(#[trigger] t[i], #[trigger] t[j]) by {
        if j < p {
            assert(t[i] == s[i] && t[j] == s[j]);
        } else if j == p {
            assert(t[i] == s[i]);
        } else if i == p {
            assert(t[j] == s[j - 1]);
            if j - 1 > p {
                assert(lt(s[p], s[j - 1]));
            }
        } else if i < p {
            assert(t[i] == s[i] && t[j] == s[j - 1]);
            assert(lt(s[i], x));
            assert(lt(x, s[p]));
            if j - 1 > p {
                assert(lt(s[p], s[j - 1]));
            }
        } else {
            assert(t[i] == s[i - 1] && t[j] == s[j - 1]);
        }
    }
    assert forall|y: T| t.contains(y) <==> (s.contains(y) || y == x) by {
        if t.contains(y) {
            let k = choose|k: int| 0 <= k < t.len() && t[k] == y;
            if k < p {
                assert(s[k] == y);
            } else if k > p {
                assert(s[k - 1] == y);
            }
        }
        if s.contains(y) {
            let k = choose|k: int| 0 <= k < s.len() && s[k] == y;
            if k < p {
                assert(t[k] == y);
            } else {
                assert(t[k + 1] == y);
            }
        }
        if y == x {
            assert(t[p] == x);
        }
    }
}

/// An element of `a` or of `b` is an element of `a + b`.
pub proof fn lemma_concat_contains<T>(a: Seq<T>, b: Seq<T>, x: T)
    ensures
        a.contains(x) ==> (a + b).contains(x),
        b.contains(x) ==> (a + b).contains(x),
{
    if a.contains(x) {
        let k = choose|k: int| 0 <= k < a.len() && a[k] == x;
        assert((a + b)[k] == x);
    }
    if b.contains(x) {
        let k = choose|k: int| 0 <= k < b.len() && b[k] == x;
        assert((a + b)[k + a.len()] == x);
    }
}

} // verus!
