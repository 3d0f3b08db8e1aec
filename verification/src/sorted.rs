//! Lists of entries in the order of their keys.
use vstd::prelude::*;

verus! {

/// Whether every key comes before all that follow it.
pub open spec fn sorted_by<K, V>(s: Seq<(K, V)>, lt: spec_fn(K, K) -> bool) -> bool {
    forall|i: int, j: int|
        0 <= i < j < s.len() ==> lt((#[trigger] s[i]).0, (#[trigger] s[j]).0)
}

/// The entries with `k` bound to `v`, in order.
pub open spec fn sorted_insert<K, V>(
    s: Seq<(K, V)>,
    k: K,
    v: V,
    lt: spec_fn(K, K) -> bool,
) -> Seq<(K, V)>
    decreases s.len(),
{
    if s.len() == 0 {
        seq![(k, v)]
    } else if s[0].0 == k {
        seq![(k, v)] + s.drop_first()
    } else if lt(k, s[0].0) {
        seq![(k, v)] + s
    } else {
        seq![s[0]] + sorted_insert(s.drop_first(), k, v, lt)
    }
}

/// A new key that can be compared with the others takes its place among them.
pub proof fn lemma_sorted_insert<K, V>(s: Seq<(K, V)>, k: K, v: V, lt: spec_fn(K, K) -> bool)
    requires
        sorted_by(s, lt),
        forall|i: int|
            0 <= i < s.len() ==> (#[trigger] s[i]).0 != k && (lt(k, s[i].0) || lt(s[i].0, k)),
        forall|i: int, j: int|
            0 <= i < j < s.len() && lt(k, (#[trigger] s[i]).0) ==> lt(k, (#[trigger] s[j]).0),
    ensures
        sorted_by(sorted_insert(s, k, v, lt), lt),
        forall|x: (K, V)| #[trigger]
            sorted_insert(s, k, v, lt).contains(x) <==> s.contains(x) || x == (k, v),
    decreases s.len(),
{
    let t = sorted_insert(s, k, v, lt);
    if s.len() == 0 {
        assert(t[0] == (k, v));
    } else if lt(k, s[0].0) {
        assert forall|i: int, j: int| 0 <= i < j < t.len() implies lt(
            (#[trigger] t[i]).0,
            (#[trigger] t[j]).0,
        ) by {
            assert(t[j] == s[j - 1]);
            if i > 0 {
                assert(t[i] == s[i - 1]);
            } else if j > 1 {
                assert(lt(k, s[0].0));
            }
        }
        assert forall|x: (K, V)| #[trigger] t.contains(x) <==> s.contains(x) || x == (k, v) by {
            assert(t[0] == (k, v));
            if s.contains(x) {
                let i = s.index_of(x);
                assert(t[i + 1] == x);
            }
            if t.contains(x) {
                let i = t.index_of(x);
                if i > 0 {
                    assert(s[i - 1] == x);
                }
            }
        }
    } else {
        let rest = s.drop_first();
        assert forall|i: int| 0 <= i < rest.len() implies (#[trigger] rest[i]).0 != k && (lt(
            k,
            rest[i].0,
        ) || lt(rest[i].0, k)) by {
            assert(rest[i] == s[i + 1]);
        }
        assert forall|i: int, j: int| 0 <= i < j < rest.len() implies lt(
            (#[trigger] rest[i]).0,
            (#[trigger] rest[j]).0,
        ) by {
            assert(rest[i] == s[i + 1] && rest[j] == s[j + 1]);
        }
        assert forall|i: int, j: int|
            0 <= i < j < rest.len() && lt(k, (#[trigger] rest[i]).0) implies lt(
            k,
            (#[trigger] rest[j]).0,
        ) by {
            assert(rest[i] == s[i + 1] && rest[j] == s[j + 1]);
        }
        lemma_sorted_insert(rest, k, v, lt);
        let after = sorted_insert(rest, k, v, lt);
        assert(s[0].0 != k);
        assert(t == seq![s[0]] + after);
        assert forall|i: int, j: int| 0 <= i < j < t.len() implies lt(
            (#[trigger] t[i]).0,
            (#[trigger] t[j]).0,
        ) by {
            assert(t[j] == after[j - 1]);
            if i > 0 {
                assert(t[i] == after[i - 1]);
            } else {
                assert(after.contains(after[j - 1]));
                if after[j - 1] != (k, v) {
                    let m = rest.index_of(after[j - 1]);
                    assert(s[m + 1] == after[j - 1]);
                } else {
                    assert(lt(s[0].0, k));
                }
            }
        }
        assert forall|x: (K, V)| #[trigger] t.contains(x) <==> s.contains(x) || x == (k, v) by {
            if s.contains(x) {
                let i = s.index_of(x);
                if i == 0 {
                    assert(t[0] == x);
                } else {
                    assert(rest[i - 1] == x);
                    assert(after.contains(x));
                    let j = after.index_of(x);
                    assert(t[j + 1] == x);
                }
            }
            if x == (k, v) {
                assert(after.contains(x));
                let j = after.index_of(x);
                assert(t[j + 1] == x);
            }
            if t.contains(x) {
                let i = t.index_of(x);
                if i == 0 {
                    assert(s[0] == x);
                } else {
                    assert(after[i - 1] == x);
                    assert(after.contains(x));
                    if rest.contains(x) {
                        let j = rest.index_of(x);
                        assert(s[j + 1] == x);
                    }
                }
            }
        }
    }
}

/// Two lists in order with the same entries are the same.
pub proof fn lemma_sorted_unique<K, V>(
    s: Seq<(K, V)>,
    t: Seq<(K, V)>,
    lt: spec_fn(K, K) -> bool,
)
    requires
        sorted_by(s, lt),
        sorted_by(t, lt),
        forall|a: K, b: K| #[trigger] lt(a, b) ==> !lt(b, a),
        forall|x: (K, V)| #[trigger] s.contains(x) <==> t.contains(x),
    ensures
        s == t,
    decreases s.len(),
{
    if s.len() == 0 {
        if t.len() > 0 {
            assert(t.contains(t[0]));
            assert(s.contains(t[0]));
        }
        assert(s =~= t);
    } else {
        assert(s.contains(s[0]));
        assert(t.contains(s[0]));
        assert(t.contains(t[0]));
        assert(s.contains(t[0]));
        let p = t.index_of(s[0]);
        let q = s.index_of(t[0]);
        if p > 0 {
            assert(lt(t[0].0, t[p].0));
            if q > 0 {
                assert(lt(s[0].0, s[q].0));
            }
            assert(lt(t[0].0, s[0].0));
            assert(false);
        }
        let a = s.drop_first();
        let b = t.drop_first();
        assert forall|i: int, j: int| 0 <= i < j < a.len() implies lt(
            (#[trigger] a[i]).0,
            (#[trigger] a[j]).0,
        ) by {
            assert(a[i] == s[i + 1] && a[j] == s[j + 1]);
        }
        assert forall|i: int, j: int| 0 <= i < j < b.len() implies lt(
            (#[trigger] b[i]).0,
            (#[trigger] b[j]).0,
        ) by {
            assert(b[i] == t[i + 1] && b[j] == t[j + 1]);
        }
        assert forall|x: (K, V)| #[trigger] a.contains(x) <==> b.contains(x) by {
            if a.contains(x) {
                let i = a.index_of(x);
                assert(s[i + 1] == x);
                assert(lt(s[0].0, s[i + 1].0));
                assert(s.contains(x));
                let j = t.index_of(x);
                if j == 0 {
                    assert(lt(x.0, x.0));
                }
                assert(b[j - 1] == x);
            }
            if b.contains(x) {
                let i = b.index_of(x);
                assert(t[i + 1] == x);
                assert(lt(t[0].0, t[i + 1].0));
                assert(t.contains(x));
                assert(s.contains(x));
                let j = s.index_of(x);
                if j == 0 {
                    assert(lt(x.0, x.0));
                }
                assert(a[j - 1] == x);
            }
        }
        lemma_sorted_unique(a, b, lt);
        assert(s =~= seq![s[0]] + a);
        assert(t =~= seq![t[0]] + b);
    }
}

} // verus!
