//! Rankings: the items of a set of indices listed in the order of a strict
//! total order.  The stable sorts of the library are rankings in which ties
//! are broken by position.
use vstd::prelude::*;

verus! {

/// `s` lists its items in the order `before`.
pub open spec fn sorted_by(s: Seq<usize>, before: spec_fn(usize, usize) -> bool) -> bool {
    forall|a: int, b: int| 0 <= a < b < s.len() ==> #[trigger] before(s[a], s[b])
}

/// `before` is a strict total order on the items that satisfy `member`.
pub open spec fn strict_total_on(
    before: spec_fn(usize, usize) -> bool,
    member: spec_fn(usize) -> bool,
) -> bool {
    &&& forall|x: usize| #[trigger] member(x) ==> !before(x, x)
    &&& forall|x: usize, y: usize, z: usize|
        member(x) && member(y) && member(z) && #[trigger] before(x, y) && #[trigger] before(y, z)
            ==> before(x, z)
    &&& forall|x: usize, y: usize| #[trigger] member(x) && #[trigger] member(y) && x != y ==> before(x, y) || before(y, x)
}

/// `r` lists exactly the items that satisfy `member`, in the order `before`.
pub open spec fn is_ranking(
    r: Seq<usize>,
    member: spec_fn(usize) -> bool,
    before: spec_fn(usize, usize) -> bool,
) -> bool {
    &&& sorted_by(r, before)
    &&& forall|x: usize| #![trigger r.contains(x)] #![trigger member(x)] r.contains(x) <==> member(x)
}

/// There is only one ranking of a set under a strict total order.
pub proof fn lemma_ranking_unique(
    r1: Seq<usize>,
    r2: Seq<usize>,
    member: spec_fn(usize) -> bool,
    before: spec_fn(usize, usize) -> bool,
)
    requires
        strict_total_on(before, member),
        is_ranking(r1, member, before),
        is_ranking(r2, member, before),
    ensures
        r1 == r2,
    decreases r1.len(),
{
    if r1.len() == 0 {
        if r2.len() > 0 {
            assert(r2.contains(r2[0]));
        }
        assert(r1 =~= r2);
    } else {
        assert(r1.contains(r1[0]));
        assert(r2.len() > 0);
        assert(r2.contains(r2[0]));
        let x = r1[0];
        if r2[0] != x {
            let a = choose|a: int| 0 <= a < r1.len() && r1[a] == r2[0];
            let b = choose|b: int| 0 <= b < r2.len() && r2[b] == x;
            assert(a > 0);
            assert(b > 0);
            assert(before(r1[0], r1[a]));
            assert(before(r2[0], r2[b]));
            assert(before(x, x));
        }
        let m2 = |y: usize| member(y) && y != x;
        let t1 = r1.drop_first();
        let t2 = r2.drop_first();
        assert forall|a: int, b: int| 0 <= a < b < t1.len() implies #[trigger] before(t1[a], t1[b]) by {
            assert(before(r1[a + 1], r1[b + 1]));
        }
        assert forall|a: int, b: int| 0 <= a < b < t2.len() implies #[trigger] before(t2[a], t2[b]) by {
            assert(before(r2[a + 1], r2[b + 1]));
        }
        assert forall|y: usize| #[trigger] t1.contains(y) <==> m2(y) by {
            if t1.contains(y) {
                let k = choose|k: int| 0 <= k < t1.len() && t1[k] == y;
                assert(r1[k + 1] == y);
                assert(r1.contains(y));
                assert(before(r1[0], r1[k + 1]));
            }
            if m2(y) {
                assert(r1.contains(y));
                let k = choose|k: int| 0 <= k < r1.len() && r1[k] == y;
                assert(k > 0);
                assert(t1[k - 1] == y);
            }
        }
        assert forall|y: usize| #[trigger] t2.contains(y) <==> m2(y) by {
            if t2.contains(y) {
                let k = choose|k: int| 0 <= k < t2.len() && t2[k] == y;
                assert(r2[k + 1] == y);
                assert(r2.contains(y));
                assert(before(r2[0], r2[k + 1]));
            }
            if m2(y) {
                assert(r2.contains(y));
                let k = choose|k: int| 0 <= k < r2.len() && r2[k] == y;
                assert(k > 0);
                assert(t2[k - 1] == y);
            }
        }
        lemma_ranking_unique(t1, t2, m2, before);
        assert(r1 =~= seq![x] + t1);
        assert(r2 =~= seq![x] + t2);
    }
}

/// The position at which `x` goes into the sorted list `r`: before the first
/// item that `x` comes before.
pub open spec fn insert_pos(r: Seq<usize>, x: usize, before: spec_fn(usize, usize) -> bool) -> int
    decreases r.len(),
{
    if r.len() == 0 {
        0
    } else if before(x, r[0]) {
        0
    } else {
        1 + insert_pos(r.drop_first(), x, before)
    }
}

proof fn lemma_insert_pos(r: Seq<usize>, x: usize, before: spec_fn(usize, usize) -> bool)
    ensures
        0 <= insert_pos(r, x, before) <= r.len(),
        forall|q: int| 0 <= q < insert_pos(r, x, before) ==> !before(x, #[trigger] r[q]),
        insert_pos(r, x, before) < r.len() ==> before(x, r[insert_pos(r, x, before)]),
    decreases r.len(),
{
    if r.len() > 0 && !before(x, r[0]) {
        let t = r.drop_first();
        lemma_insert_pos(t, x, before);
        assert forall|q: int| 0 <= q < insert_pos(r, x, before) implies !before(x, #[trigger] r[q]) by {
            if q > 0 {
                assert(r[q] == t[q - 1]);
            }
        }
    }
}

/// Every finite set of indices has a ranking under a strict total order.
pub proof fn lemma_ranking_exists(
    member: spec_fn(usize) -> bool,
    before: spec_fn(usize, usize) -> bool,
    n: nat,
)
    requires
        strict_total_on(before, member),
        forall|x: usize| #[trigger] member(x) ==> x < n,
    ensures
        exists|r: Seq<usize>| is_ranking(r, member, before),
    decreases n,
{
    if n > usize::MAX as nat + 1 {
        lemma_ranking_exists(member, before, usize::MAX as nat + 1);
    } else if n == 0 {
        let r: Seq<usize> = seq![];
        assert(is_ranking(r, member, before));
    } else {
        let m = (n - 1) as usize;
        let smaller = |x: usize| member(x) && x < m;
        assert(strict_total_on(before, smaller)) by {
            assert forall|x: usize, y: usize, z: usize|
                smaller(x) && smaller(y) && smaller(z) && #[trigger] before(x, y) && #[trigger] before(y, z)
                implies before(x, z) by {
                assert(member(x) && member(y) && member(z));
            }
            assert forall|x: usize, y: usize| #[trigger] smaller(x) && #[trigger] smaller(y) && x != y
                implies before(x, y) || before(y, x) by {
                assert(member(x) && member(y));
            }
        }
        lemma_ranking_exists(smaller, before, (n - 1) as nat);
        let r = choose|r: Seq<usize>| is_ranking(r, smaller, before);
        if !member(m) {
            assert forall|x: usize| #[trigger] r.contains(x) <==> member(x) by {
                if member(x) {
                    assert(x < n);
                    assert(smaller(x));
                }
            }
            assert(is_ranking(r, member, before));
        } else {
            lemma_insert_pos(r, m, before);
            let p = insert_pos(r, m, before);
            let r2 = r.insert(p, m);
            assert forall|q: int| 0 <= q < r.len() implies #[trigger] smaller(r[q]) by {
                assert(r.contains(r[q]));
            }
            assert forall|q: int| 0 <= q < p implies before(#[trigger] r[q], m) by {
                assert(smaller(r[q]));
                assert(r[q] != m);
            }
            assert forall|q: int| p <= q < r.len() implies before(m, #[trigger] r[q]) by {
                if q > p {
                    assert(before(r[p], r[q]));
                    assert(smaller(r[p]) && smaller(r[q]));
                }
            }
            assert forall|a: int, b: int| 0 <= a < b < r2.len() implies #[trigger] before(r2[a], r2[b]) by {
                if b < p {
                    assert(before(r[a], r[b]));
                } else if a < p && b == p {
                } else if a < p && b > p {
                    assert(before(r[a], r[b - 1]));
                } else if a == p {
                } else {
                    assert(before(r[a - 1], r[b - 1]));
                }
            }
            assert forall|x: usize| #[trigger] r2.contains(x) <==> member(x) by {
                if member(x) {
                    if x == m {
                        assert(r2[p] == x);
                    } else {
                        assert(smaller(x));
                        assert(r.contains(x));
                        let k = choose|k: int| 0 <= k < r.len() && r[k] == x;
                        if k < p {
                            assert(r2[k] == x);
                        } else {
                            assert(r2[k + 1] == x);
                        }
                    }
                }
                if r2.contains(x) {
                    let k = choose|k: int| 0 <= k < r2.len() && r2[k] == x;
                    if k < p {
                        assert(r[k] == x);
                        assert(r.contains(x));
                    } else if k > p {
                        assert(r[k - 1] == x);
                        assert(r.contains(x));
                    }
                }
            }
            assert(is_ranking(r2, member, before));
        }
    }
}

} // verus!
