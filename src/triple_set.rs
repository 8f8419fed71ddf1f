//! Sets of id triples kept as strictly ascending vectors.
use vstd::prelude::*;

use crate::triple::{triple_lt, IdTriple};

verus! {

/// The triples appear in strictly ascending (subject, predicate, object) order.
pub open spec fn sorted_triples(s: Seq<IdTriple>) -> bool {
    forall|i: int, j: int| 0 <= i < j < s.len() ==> triple_lt(#[trigger] s[i], #[trigger] s[j])
}

/// Strictly ascending ids.
pub open spec fn sorted_ids(s: Seq<u64>) -> bool {
    forall|i: int, j: int| 0 <= i < j < s.len() ==> #[trigger] s[i] < #[trigger] s[j]
}

/// Whether `t` is in the strictly ascending `v`, by binary search.
pub fn contains_triple(v: &Vec<IdTriple>, t: IdTriple) -> (r: bool)
    requires
        sorted_triples(v@),
    ensures
        r == v@.contains(t),
{
    let mut lo: usize = 0;
    let mut hi: usize = v.len();
    while lo < hi
        invariant
            0 <= lo <= hi <= v.len(),
            sorted_triples(v@),
            forall|i: int| 0 <= i < lo ==> triple_lt(#[trigger] v@[i], t),
            forall|i: int| hi <= i < v.len() ==> triple_lt(t, #[trigger] v@[i]),
        decreases hi - lo,
    {
        let mid = lo + (hi - lo) / 2;
        let m = v[mid];
        if m == t {
            return true;
        } else if m.less_than(&t) {
            lo = mid + 1;
        } else {
            hi = mid;
        }
    }
    proof {
        if v@.contains(t) {
            let k = choose|k: int| 0 <= k < v@.len() && v@[k] == t;
            assert(triple_lt(v@[k], t) || triple_lt(t, v@[k]));
        }
    }
    false
}

/// Adds `t` to the strictly ascending `v`, keeping it strictly ascending.
pub fn insert_triple(v: &mut Vec<IdTriple>, t: IdTriple)
    requires
        sorted_triples(old(v)@),
    ensures
        sorted_triples(final(v)@),
        forall|x: IdTriple| #[trigger] final(v)@.contains(x) <==> (old(v)@.contains(x) || x == t),
{
    let mut i: usize = 0;
    while i < v.len() && v[i].less_than(&t)
        invariant
            0 <= i <= v.len(),
            forall|k: int| 0 <= k < i ==> triple_lt(#[trigger] v@[k], t),
        decreases v.len() - i,
    {
        i = i + 1;
    }
    if i < v.len() && v[i] == t {
        return;
    }
    let ghost before = v@;
    v.insert(i, t);
    proof {
        assert(forall|k: int| i < k < v@.len() ==> v@[k] == before[k - 1]);
        assert(forall|k: int| 0 <= k < i ==> v@[k] == before[k]);
        assert forall|a: int, b: int| 0 <= a < b < v@.len() implies triple_lt(
            #[trigger] v@[a],
            #[trigger] v@[b],
        ) by {
            if b == i {
            } else if a == i {
                assert(triple_lt(t, before[i as int]));
                if b - 1 > i {
                    assert(triple_lt(before[i as int], before[b - 1]));
                }
            } else if a < i && b > i {
                assert(triple_lt(before[a], before[b - 1]));
            } else if a > i {
                assert(triple_lt(before[a - 1], before[b - 1]));
            } else {
                assert(triple_lt(before[a], before[b]));
            }
        }
        assert forall|x: IdTriple| #[trigger] v@.contains(x) <==> (before.contains(x) || x == t) by {
            if v@.contains(x) && x != t {
                let k = choose|k: int| 0 <= k < v@.len() && v@[k] == x;
                if k < i {
                    assert(before[k] == x);
                } else {
                    assert(before[k - 1] == x);
                }
            }
            if before.contains(x) {
                let k = choose|k: int| 0 <= k < before.len() && before[k] == x;
                if k < i {
                    assert(v@[k] == x);
                } else {
                    assert(v@[k + 1] == x);
                }
            }
            if x == t {
                assert(v@[i as int] == t);
            }
        }
    }
}

/// The triples of `a` that are not in `b`, in ascending order.
pub fn subtract_triples(a: &Vec<IdTriple>, b: &Vec<IdTriple>) -> (r: Vec<IdTriple>)
    requires
        sorted_triples(a@),
        sorted_triples(b@),
    ensures
        sorted_triples(r@),
        forall|x: IdTriple| #[trigger] r@.contains(x) <==> (a@.contains(x) && !b@.contains(x)),
{
    let mut r: Vec<IdTriple> = Vec::new();
    let mut i: usize = 0;
    while i < a.len()
        invariant
            0 <= i <= a.len(),
            sorted_triples(a@),
            sorted_triples(b@),
            sorted_triples(r@),
            forall|k: int| 0 <= k < r@.len() ==> exists|j: int| 0 <= j < i && a@[j] == #[trigger] r@[k],
            forall|x: IdTriple| #[trigger] r@.contains(x) <==> (exists|j: int| 0 <= j < i && a@[j] == x) && !b@.contains(x),
        decreases a.len() - i,
    {
        let t = a[i];
        if !contains_triple(b, t) {
            let ghost before = r@;
            proof {
                assert forall|k: int| 0 <= k < before.len() implies triple_lt(before[k], t) by {
                    let j = choose|j: int| 0 <= j < i && a@[j] == #[trigger] before[k];
                }
            }
            r.push(t);
            proof {
                assert forall|k: int| 0 <= k < r@.len() implies exists|j: int| 0 <= j < i + 1 && a@[j] == #[trigger] r@[k] by {
                    if k < before.len() {
                        let j = choose|j: int| 0 <= j < i && a@[j] == #[trigger] before[k];
                        assert(r@[k] == before[k]);
                    } else {
                        assert(a@[i as int] == r@[k]);
                    }
                }
                assert forall|x: IdTriple| #[trigger] r@.contains(x) <==> (exists|j: int| 0 <= j < i + 1 && a@[j] == x) && !b@.contains(x) by {
                    if r@.contains(x) {
                        let k = choose|k: int| 0 <= k < r@.len() && r@[k] == x;
                        if k < before.len() {
                            assert(before[k] == x);
                            assert(before.contains(x));
                        }
                    }
                    if (exists|j: int| 0 <= j < i + 1 && a@[j] == x) && !b@.contains(x) {
                        if x != t {
                            let j = choose|j: int| 0 <= j < i + 1 && a@[j] == x;
                            assert(j < i);
                            assert(before.contains(x));
                            let k = choose|k: int| 0 <= k < before.len() && before[k] == x;
                            assert(r@[k] == x);
                        } else {
                            assert(r@[before.len() as int] == x);
                        }
                    }
                }
            }
        } else {
            proof {
                assert forall|k: int| 0 <= k < r@.len() implies exists|j: int| 0 <= j < i + 1 && a@[j] == #[trigger] r@[k] by {
                    let j = choose|j: int| 0 <= j < i && a@[j] == #[trigger] r@[k];
                }
                assert forall|x: IdTriple| #[trigger] r@.contains(x) <==> (exists|j: int| 0 <= j < i + 1 && a@[j] == x) && !b@.contains(x) by {
                    if (exists|j: int| 0 <= j < i + 1 && a@[j] == x) && !b@.contains(x) {
                        let j = choose|j: int| 0 <= j < i + 1 && a@[j] == x;
                        assert(j < i);
                    }
                }
            }
        }
        i = i + 1;
    }
    proof {
        assert forall|x: IdTriple| #[trigger] r@.contains(x) <==> (a@.contains(x) && !b@.contains(x)) by {
            if a@.contains(x) {
                let j = choose|j: int| 0 <= j < a@.len() && a@[j] == x;
            }
        }
    }
    r
}

/// The triples of `a` together with those of `b`, in ascending order.
pub fn union_triples(a: &Vec<IdTriple>, b: &Vec<IdTriple>) -> (r: Vec<IdTriple>)
    requires
        sorted_triples(a@),
        sorted_triples(b@),
    ensures
        sorted_triples(r@),
        forall|x: IdTriple| #[trigger] r@.contains(x) <==> (a@.contains(x) || b@.contains(x)),
{
    let mut r: Vec<IdTriple> = a.clone();
    let mut i: usize = 0;
    while i < b.len()
        invariant
            0 <= i <= b.len(),
            sorted_triples(r@),
            forall|x: IdTriple| #[trigger] r@.contains(x) <==> (a@.contains(x) || exists|j: int| 0 <= j < i && b@[j] == x),
        decreases b.len() - i,
    {
        let t = b[i];
        insert_triple(&mut r, t);
        proof {
            assert forall|x: IdTriple| #[trigger] r@.contains(x) <==> (a@.contains(x) || exists|j: int| 0 <= j < i + 1 && b@[j] == x) by {
                if exists|j: int| 0 <= j < i + 1 && b@[j] == x {
                    let j = choose|j: int| 0 <= j < i + 1 && b@[j] == x;
                    if j < i {
                        assert(exists|j: int| 0 <= j < i && b@[j] == x);
                    }
                }
                if x == t {
                    assert(b@[i as int] == x);
                }
            }
        }
        i = i + 1;
    }
    proof {
        assert forall|x: IdTriple| #[trigger] r@.contains(x) <==> (a@.contains(x) || b@.contains(x)) by {
            if b@.contains(x) {
                let j = choose|j: int| 0 <= j < b@.len() && b@[j] == x;
            }
        }
    }
    r
}

/// Adds `x` to the strictly ascending `v`, keeping it strictly ascending.
pub fn insert_id(v: &mut Vec<u64>, x: u64)
    requires
        sorted_ids(old(v)@),
    ensures
        sorted_ids(final(v)@),
        forall|y: u64| #[trigger] final(v)@.contains(y) <==> (old(v)@.contains(y) || y == x),
{
    let mut i: usize = 0;
    while i < v.len() && v[i] < x
        invariant
            0 <= i <= v.len(),
            forall|k: int| 0 <= k < i ==> #[trigger] v@[k] < x,
        decreases v.len() - i,
    {
        i = i + 1;
    }
    if i < v.len() && v[i] == x {
        return;
    }
    let ghost before = v@;
    v.insert(i, x);
    proof {
        assert(forall|k: int| i < k < v@.len() ==> v@[k] == before[k - 1]);
        assert(forall|k: int| 0 <= k < i ==> v@[k] == before[k]);
        assert forall|a: int, b: int| 0 <= a < b < v@.len() implies #[trigger] v@[a] < #[trigger] v@[b] by {
            if b == i {
            } else if a == i {
                if b - 1 > i {
                    assert(before[i as int] < before[b - 1]);
                }
            } else if a < i && b > i {
                assert(before[a] < before[b - 1]);
            } else if a > i {
                assert(before[a - 1] < before[b - 1]);
            } else {
                assert(before[a] < before[b]);
            }
        }
        assert forall|y: u64| #[trigger] v@.contains(y) <==> (before.contains(y) || y == x) by {
            if v@.contains(y) && y != x {
                let k = choose|k: int| 0 <= k < v@.len() && v@[k] == y;
                if k < i {
                    assert(before[k] == y);
                } else {
                    assert(before[k - 1] == y);
                }
            }
            if before.contains(y) {
                let k = choose|k: int| 0 <= k < before.len() && before[k] == y;
                if k < i {
                    assert(v@[k] == y);
                } else {
                    assert(v@[k + 1] == y);
                }
            }
            if y == x {
                assert(v@[i as int] == x);
            }
        }
    }
}

/// A strictly ascending sequence of triples is determined by its elements.
pub proof fn lemma_sorted_triples_unique(a: Seq<IdTriple>, b: Seq<IdTriple>)
    requires
        sorted_triples(a),
        sorted_triples(b),
        forall|t: IdTriple| #[trigger] a.contains(t) <==> b.contains(t),
    ensures
        a == b,
    decreases a.len(),
{
    if a.len() == 0 {
        if b.len() > 0 {
            assert(b.contains(b[0]));
            assert(a.contains(b[0]));
        }
        assert(a =~= b);
    } else {
        assert(a.contains(a[0]));
        let j = choose|j: int| 0 <= j < b.len() && b[j] == a[0];
        assert(b.contains(a[0]));
        assert(b.contains(b[0]));
        assert(a.contains(b[0]));
        let i = choose|i: int| 0 <= i < a.len() && a[i] == b[0];
        if j > 0 {
            assert(triple_lt(b[0], b[j]));
            if i > 0 {
                assert(triple_lt(a[0], a[i]));
            }
        }
        let ta = a.drop_first();
        let tb = b.drop_first();
        assert forall|t: IdTriple| #[trigger] ta.contains(t) <==> tb.contains(t) by {
            if ta.contains(t) {
                let k = choose|k: int| 0 <= k < ta.len() && ta[k] == t;
                assert(a[k + 1] == t);
                assert(triple_lt(a[0], a[k + 1]));
                assert(a.contains(t));
                assert(b.contains(t));
                let m = choose|m: int| 0 <= m < b.len() && b[m] == t;
                assert(m != 0);
                assert(tb[m - 1] == t);
            }
            if tb.contains(t) {
                let k = choose|k: int| 0 <= k < tb.len() && tb[k] == t;
                assert(b[k + 1] == t);
                assert(triple_lt(b[0], b[k + 1]));
                assert(b.contains(t));
                assert(a.contains(t));
                let m = choose|m: int| 0 <= m < a.len() && a[m] == t;
                assert(m != 0);
                assert(ta[m - 1] == t);
            }
        }
        lemma_sorted_triples_unique(ta, tb);
        assert(a =~= b) by {
            assert forall|k: int| 0 <= k < a.len() implies a[k] == b[k] by {
                if k > 0 {
                    assert(a[k] == ta[k - 1]);
                }
            }
        }
    }
}

} // verus!
