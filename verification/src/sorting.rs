//! Stable ordering of indices by a key, largest key first.

use vstd::prelude::*;

verus! {

/// `x` placed into `s` before the first element whose key is strictly
/// smaller than its own, so after every element with a key at least as large.
pub open spec fn insert_desc(x: usize, s: Seq<usize>, keys: Seq<u64>) -> Seq<usize>
    decreases s.len(),
{
    if s.len() == 0 {
        seq![x]
    } else if keys[x as int] > keys[s[0] as int] {
        seq![x] + s
    } else {
        seq![s[0]] + insert_desc(x, s.drop_first(), keys)
    }
}

/// `s` ordered by decreasing key, elements with equal keys keeping their
/// order in `s` (a stable sort by `Reverse(key)`).
pub open spec fn sort_desc(s: Seq<usize>, keys: Seq<u64>) -> Seq<usize>
    decreases s.len(),
{
    if s.len() == 0 {
        s
    } else {
        insert_desc(s.last(), sort_desc(s.drop_last(), keys), keys)
    }
}

/// Inserting is splicing at the first position whose key is below `x`'s.
proof fn lemma_insert_at(x: usize, s: Seq<usize>, keys: Seq<u64>, p: int)
    requires
        0 <= p <= s.len(),
        forall|j: int| 0 <= j < p ==> !(keys[x as int] > keys[#[trigger] s[j] as int]),
        p == s.len() || keys[x as int] > keys[s[p] as int],
    ensures
        insert_desc(x, s, keys) == s.insert(p, x),
    decreases s.len(),
{
    if s.len() == 0 {
        assert(s.insert(p, x) =~= seq![x]);
    } else if p == 0 {
        assert(s.insert(p, x) =~= seq![x] + s);
    } else {
        let t = s.drop_first();
        assert forall|j: int| 0 <= j < p - 1 implies !(keys[x as int] > keys[#[trigger] t[j] as int]) by {
            assert(t[j] == s[j + 1]);
        }
        lemma_insert_at(x, t, keys, p - 1);
        assert(seq![s[0]] + t.insert(p - 1, x) =~= s.insert(p, x));
    }
}

/// `v` ordered by decreasing `keys[i]`, ties in their order in `v`.
pub fn sort_by_key_desc(v: &Vec<usize>, keys: &Vec<u64>) -> (r: Vec<usize>)
    requires
        forall|i: int| 0 <= i < v@.len() ==> #[trigger] v@[i] < keys@.len(),
    ensures
        r@ == sort_desc(v@, keys@),
{
    let mut out: Vec<usize> = Vec::new();
    let n = v.len();
    let mut i: usize = 0;
    assert(v@.take(0) =~= Seq::<usize>::empty());
    while i < n
        invariant
            i <= n,
            n == v@.len(),
            forall|j: int| 0 <= j < v@.len() ==> #[trigger] v@[j] < keys@.len(),
            out@ == sort_desc(v@.take(i as int), keys@),
            forall|j: int| 0 <= j < out@.len() ==> #[trigger] out@[j] < keys@.len(),
        decreases n - i,
    {
        let x = v[i];
        let kx = keys[x];
        let m = out.len();
        let mut p: usize = 0;
        while p < m && !(kx > keys[out[p]])
            invariant
                p <= m,
                m == out@.len(),
                kx == keys@[x as int],
                forall|j: int| 0 <= j < out@.len() ==> #[trigger] out@[j] < keys@.len(),
                forall|j: int| 0 <= j < p ==> !(kx > keys@[#[trigger] out@[j] as int]),
            decreases m - p,
        {
            p = p + 1;
        }
        proof {
            lemma_insert_at(x, out@, keys@, p as int);
            assert(v@.take(i + 1).drop_last() =~= v@.take(i as int));
            assert(v@.take(i + 1).last() == x);
        }
        out.insert(p, x);
        i = i + 1;
    }
    assert(v@.take(n as int) =~= v@);
    out
}

/// Inserting adds exactly the new element.
pub proof fn lemma_insert_desc_elems(x: usize, s: Seq<usize>, keys: Seq<u64>)
    ensures
        insert_desc(x, s, keys).len() == s.len() + 1,
        forall|y: usize| #[trigger] insert_desc(x, s, keys).contains(y) <==> (y == x || s.contains(y)),
    decreases s.len(),
{
    if s.len() > 0 && !(keys[x as int] > keys[s[0] as int]) {
        let t = s.drop_first();
        lemma_insert_desc_elems(x, t, keys);
        let r = insert_desc(x, s, keys);
        assert(r == seq![s[0]] + insert_desc(x, t, keys));
        assert forall|y: usize| #[trigger] r.contains(y) <==> (y == x || s.contains(y)) by {
            if r.contains(y) {
                let i = choose|i: int| 0 <= i < r.len() && r[i] == y;
                if i > 0 {
                    assert(insert_desc(x, t, keys)[i - 1] == y);
                    assert(insert_desc(x, t, keys).contains(y));
                    if t.contains(y) {
                        let j = choose|j: int| 0 <= j < t.len() && t[j] == y;
                        assert(s[j + 1] == y);
                    }
                } else {
                    assert(s[0] == y);
                }
            }
            if y == x || s.contains(y) {
                if y != x && s[0] == y {
                    assert(r[0] == y);
                } else if y == x {
                    assert(insert_desc(x, t, keys).contains(y));
                    let i = choose|i: int| 0 <= i < insert_desc(x, t, keys).len() && insert_desc(x, t, keys)[i] == y;
                    assert(r[i + 1] == y);
                } else {
                    let j = choose|j: int| 0 <= j < s.len() && s[j] == y;
                    assert(t[j - 1] == y);
                    assert(insert_desc(x, t, keys).contains(y));
                    let i = choose|i: int| 0 <= i < insert_desc(x, t, keys).len() && insert_desc(x, t, keys)[i] == y;
                    assert(r[i + 1] == y);
                }
            }
        }
    } else if s.len() > 0 {
        let r = insert_desc(x, s, keys);
        assert(r == seq![x] + s);
        assert forall|y: usize| #[trigger] r.contains(y) <==> (y == x || s.contains(y)) by {
            if r.contains(y) {
                let i = choose|i: int| 0 <= i < r.len() && r[i] == y;
                if i > 0 {
                    assert(s[i - 1] == y);
                }
            }
            if s.contains(y) {
                let j = choose|j: int| 0 <= j < s.len() && s[j] == y;
                assert(r[j + 1] == y);
            }
            if y == x {
                assert(r[0] == y);
            }
        }
    } else {
        assert forall|y: usize| #[trigger] insert_desc(x, s, keys).contains(y) <==> (y == x || s.contains(y)) by {
            if y == x {
                assert(insert_desc(x, s, keys)[0] == x);
            }
        }
    }
}

/// Sorting keeps exactly the elements it was given.
pub proof fn lemma_sort_desc_elems(s: Seq<usize>, keys: Seq<u64>)
    ensures
        sort_desc(s, keys).len() == s.len(),
        forall|y: usize| #[trigger] sort_desc(s, keys).contains(y) <==> s.contains(y),
    decreases s.len(),
{
    if s.len() > 0 {
        let p = s.drop_last();
        lemma_sort_desc_elems(p, keys);
        lemma_insert_desc_elems(s.last(), sort_desc(p, keys), keys);
        assert forall|y: usize| #[trigger] sort_desc(s, keys).contains(y) <==> s.contains(y) by {
            if sort_desc(p, keys).contains(y) {
                assert(p.contains(y));
            }
            if p.contains(y) {
                assert(sort_desc(p, keys).contains(y));
                let j = choose|j: int| 0 <= j < p.len() && p[j] == y;
                assert(s[j] == y);
            }
            if s.contains(y) && y != s.last() {
                let j = choose|j: int| 0 <= j < s.len() && s[j] == y;
                assert(p[j] == y);
            }
            if y == s.last() {
                assert(s[s.len() - 1] == y);
            }
        }
    }
}

/// Where [`insert_desc`] puts `x`: before the first element with a smaller
/// key.
pub open spec fn insert_pos(x: usize, s: Seq<usize>, keys: Seq<u64>) -> nat
    decreases s.len(),
{
    if s.len() == 0 {
        0
    } else if keys[x as int] > keys[s[0] as int] {
        0
    } else {
        1 + insert_pos(x, s.drop_first(), keys)
    }
}

proof fn lemma_insert_pos(x: usize, s: Seq<usize>, keys: Seq<u64>)
    ensures
        insert_pos(x, s, keys) <= s.len(),
        forall|j: int|
            0 <= j < insert_pos(x, s, keys) ==> !(keys[x as int] > keys[#[trigger] s[j] as int]),
        insert_pos(x, s, keys) == s.len() || keys[x as int] > keys[s[insert_pos(x, s, keys) as int] as int],
    decreases s.len(),
{
    if s.len() > 0 && !(keys[x as int] > keys[s[0] as int]) {
        let t = s.drop_first();
        lemma_insert_pos(x, t, keys);
        assert forall|j: int| 0 <= j < insert_pos(x, s, keys) implies !(keys[x as int]
            > keys[#[trigger] s[j] as int]) by {
            if j > 0 {
                assert(s[j] == t[j - 1]);
            }
        }
    }
}

/// `r` runs by decreasing key, equal keys by increasing value.
pub open spec fn ordered_desc(r: Seq<usize>, keys: Seq<u64>) -> bool {
    forall|i: int, j: int|
        0 <= i < j < r.len() ==> keys[r[i] as int] > keys[r[j] as int] || (keys[r[i] as int]
            == keys[r[j] as int] && r[i] < r[j])
}

/// Sorting an increasing sequence yields the largest keys first, and among
/// equal keys their order in the input: the stable sort by decreasing key.
pub proof fn lemma_sort_desc_ordered(s: Seq<usize>, keys: Seq<u64>)
    requires
        forall|i: int, j: int| 0 <= i < j < s.len() ==> s[i] < s[j],
        forall|i: int| 0 <= i < s.len() ==> #[trigger] s[i] < keys.len(),
    ensures
        ordered_desc(sort_desc(s, keys), keys),
    decreases s.len(),
{
    if s.len() > 0 {
        let p = s.drop_last();
        let x = s.last();
        lemma_sort_desc_ordered(p, keys);
        lemma_sort_desc_elems(p, keys);
        let r0 = sort_desc(p, keys);
        lemma_insert_pos(x, r0, keys);
        let q = insert_pos(x, r0, keys) as int;
        lemma_insert_at(x, r0, keys, q);
        let r = sort_desc(s, keys);
        assert(r == r0.insert(q, x));
        assert forall|a: int| 0 <= a < r0.len() implies #[trigger] r0[a] < x by {
            assert(r0.contains(r0[a]));
            assert(p.contains(r0[a]));
            let t = choose|t: int| 0 <= t < p.len() && p[t] == r0[a];
            assert(s[t] == r0[a]);
        }
        assert forall|i: int, j: int| 0 <= i < j < r.len() implies keys[r[i] as int] > keys[r[j] as int] || (
        keys[r[i] as int] == keys[r[j] as int] && r[i] < r[j]) by {
            if j < q {
                assert(r[i] == r0[i] && r[j] == r0[j]);
            } else if j == q {
                assert(r[i] == r0[i] && r[j] == x);
                assert(!(keys[x as int] > keys[r0[i] as int]));
            } else if i < q {
                assert(r[i] == r0[i] && r[j] == r0[j - 1]);
            } else if i == q {
                assert(r[i] == x && r[j] == r0[j - 1]);
                assert(keys[x as int] > keys[r0[q] as int]);
                if j - 1 > q {
                    assert(keys[r0[q] as int] >= keys[r0[j - 1] as int]);
                }
            } else {
                assert(r[i] == r0[i - 1] && r[j] == r0[j - 1]);
            }
        }
    }
}

} // verus!
