//! Normalisation of the tab selection of a product.

use vstd::prelude::*;

verus! {

/// `s` is strictly increasing.
pub open spec fn strictly_increasing(s: Seq<i32>) -> bool {
    forall|i: int, j: int| 0 <= i < j < s.len() ==> #[trigger] s[i] < #[trigger] s[j]
}

/// `r` holds the values of `s`, once each, in increasing order.
pub open spec fn is_sorted_set(r: Seq<i32>, s: Seq<i32>) -> bool {
    &&& strictly_increasing(r)
    &&& forall|x: i32| r.contains(x) <==> s.contains(x)
}

/// The values of `s`, once each, in increasing order (sort, then dedup).
pub open spec fn sorted_set(s: Seq<i32>) -> Seq<i32> {
    choose|r: Seq<i32>| is_sorted_set(r, s)
}

/// The tab ids a request stands for: the given ones, or the default tab
/// (id 1) when none are given.
pub open spec fn requested_tab_ids(tab_ids: Option<Seq<i32>>) -> Seq<i32> {
    match tab_ids {
        Some(v) => if v.len() == 0 { seq![1i32] } else { v },
        None => seq![1i32],
    }
}

/// The view of an optional list of ids.
pub open spec fn ids_view(v: Option<Vec<i32>>) -> Option<Seq<i32>> {
    match v {
        Some(t) => Some(t@),
        None => None,
    }
}

/// The message for a tab id that is not positive.
pub open spec fn invalid_tab_id_message() -> Seq<char> {
    "Invalid tab id"@
}

/// What normalising a tab selection gives: the requested ids sorted and
/// without duplicates, or an error when one of them is not positive.
pub open spec fn normalized_tab_ids(tab_ids: Option<Seq<i32>>) -> Result<Seq<i32>, Seq<char>> {
    let e = requested_tab_ids(tab_ids);
    if exists|i: int| 0 <= i < e.len() && #[trigger] e[i] <= 0 {
        Err(invalid_tab_id_message())
    } else {
        Ok(sorted_set(e))
    }
}

/// Two strictly increasing sequences with the same values are equal.
pub proof fn lemma_sorted_set_unique(r1: Seq<i32>, r2: Seq<i32>)
    requires
        strictly_increasing(r1),
        strictly_increasing(r2),
        forall|x: i32| r1.contains(x) <==> r2.contains(x),
    ensures
        r1 == r2,
    decreases r1.len() + r2.len(),
{
    if r1.len() == 0 {
        if r2.len() > 0 {
            assert(r2.contains(r2[0]));
        }
        assert(r1 =~= r2);
    } else if r2.len() == 0 {
        assert(r1.contains(r1[0]));
    } else {
        let a = r1[0];
        let b = r2[0];
        assert(r1.contains(a));
        assert(r2.contains(b));
        let j = choose|j: int| 0 <= j < r2.len() && r2[j] == a;
        let k = choose|k: int| 0 <= k < r1.len() && r1[k] == b;
        if j > 0 {
            assert(r2[0] < r2[j]);
        }
        if k > 0 {
            assert(r1[0] < r1[k]);
        }
        assert(a == b);
        let t1 = r1.drop_first();
        let t2 = r2.drop_first();
        assert forall|x: i32| t1.contains(x) <==> t2.contains(x) by {
            if t1.contains(x) {
                let p = choose|p: int| 0 <= p < t1.len() && t1[p] == x;
                assert(r1[0] < r1[p + 1]);
                assert(r1.contains(x));
                let q = choose|q: int| 0 <= q < r2.len() && r2[q] == x;
                assert(t2[q - 1] == x);
            }
            if t2.contains(x) {
                let p = choose|p: int| 0 <= p < t2.len() && t2[p] == x;
                assert(r2[0] < r2[p + 1]);
                assert(r2.contains(x));
                let q = choose|q: int| 0 <= q < r1.len() && r1[q] == x;
                assert(t1[q - 1] == x);
            }
        }
        lemma_sorted_set_unique(t1, t2);
        assert(r1 =~= seq![a] + t1);
        assert(r2 =~= seq![b] + t2);
    }
}

/// A sorted set, once shown to exist, is the one `sorted_set` names.
pub proof fn lemma_is_sorted_set(r: Seq<i32>, s: Seq<i32>)
    requires
        is_sorted_set(r, s),
    ensures
        sorted_set(s) == r,
{
    let c = sorted_set(s);
    assert(is_sorted_set(c, s));
    lemma_sorted_set_unique(c, r);
}

/// `r` with `x` put in its place (nothing changes when `r` holds `x`).
pub open spec fn insert_sorted(r: Seq<i32>, x: i32) -> Seq<i32>
    decreases r.len(),
{
    if r.len() == 0 {
        seq![x]
    } else if x < r[0] {
        seq![x] + r
    } else if x == r[0] {
        r
    } else {
        seq![r[0]] + insert_sorted(r.drop_first(), x)
    }
}

proof fn lemma_insert_sorted(r: Seq<i32>, x: i32)
    requires
        strictly_increasing(r),
    ensures
        strictly_increasing(insert_sorted(r, x)),
        forall|y: i32| #[trigger] insert_sorted(r, x).contains(y) <==> (r.contains(y) || y == x),
        insert_sorted(r, x).len() > 0,
        insert_sorted(r, x)[0] == if r.len() > 0 && r[0] < x { r[0] } else { x },
    decreases r.len(),
{
    let s = insert_sorted(r, x);
    if r.len() == 0 {
        assert(s[0] == x);
        assert forall|y: i32| s.contains(y) <==> (r.contains(y) || y == x) by {
            if s.contains(y) {
                let p = choose|p: int| 0 <= p < s.len() && s[p] == y;
            }
        }
    } else if x < r[0] {
        assert forall|i: int, j: int| 0 <= i < j < s.len() implies #[trigger] s[i] < #[trigger] s[j] by {
            if i == 0 {
                assert(s[j] == r[j - 1]);
                if j - 1 > 0 {
                    assert(r[0] < r[j - 1]);
                }
            } else {
                assert(s[i] == r[i - 1] && s[j] == r[j - 1]);
            }
        }
        assert forall|y: i32| s.contains(y) <==> (r.contains(y) || y == x) by {
            if s.contains(y) {
                let p = choose|p: int| 0 <= p < s.len() && s[p] == y;
                if p > 0 {
                    assert(r[p - 1] == y);
                }
            }
            if r.contains(y) {
                let p = choose|p: int| 0 <= p < r.len() && r[p] == y;
                assert(s[p + 1] == y);
            }
            if y == x {
                assert(s[0] == x);
            }
        }
    } else if x == r[0] {
        assert(r.contains(r[0]));
    } else {
        let t = r.drop_first();
        assert forall|i: int, j: int| 0 <= i < j < t.len() implies #[trigger] t[i] < #[trigger] t[j] by {
            assert(t[i] == r[i + 1] && t[j] == r[j + 1]);
        }
        lemma_insert_sorted(t, x);
        let u = insert_sorted(t, x);
        assert(s == seq![r[0]] + u);
        assert forall|i: int, j: int| 0 <= i < j < s.len() implies #[trigger] s[i] < #[trigger] s[j] by {
            if i == 0 {
                assert(s[j] == u[j - 1]);
                assert(u.contains(u[j - 1]));
                if t.contains(u[j - 1]) {
                    let p = choose|p: int| 0 <= p < t.len() && t[p] == u[j - 1];
                    assert(r[0] < r[p + 1]);
                }
            } else {
                assert(s[i] == u[i - 1] && s[j] == u[j - 1]);
            }
        }
        assert forall|y: i32| s.contains(y) <==> (r.contains(y) || y == x) by {
            if s.contains(y) {
                let p = choose|p: int| 0 <= p < s.len() && s[p] == y;
                if p > 0 {
                    assert(u[p - 1] == y);
                    assert(u.contains(y));
                    if t.contains(y) {
                        let q = choose|q: int| 0 <= q < t.len() && t[q] == y;
                        assert(r[q + 1] == y);
                    }
                } else {
                    assert(r[0] == y);
                }
            }
            if r.contains(y) {
                let p = choose|p: int| 0 <= p < r.len() && r[p] == y;
                if p > 0 {
                    assert(t[p - 1] == y);
                    assert(t.contains(y));
                    assert(u.contains(y));
                    let q = choose|q: int| 0 <= q < u.len() && u[q] == y;
                    assert(s[q + 1] == y);
                } else {
                    assert(s[0] == y);
                }
            }
            if y == x {
                assert(u.contains(x));
                let q = choose|q: int| 0 <= q < u.len() && u[q] == x;
                assert(s[q + 1] == x);
            }
        }
    }
}

/// The values of `s` put in place one after the other.
pub open spec fn sorted_by_insertion(s: Seq<i32>) -> Seq<i32>
    decreases s.len(),
{
    if s.len() == 0 {
        Seq::empty()
    } else {
        insert_sorted(sorted_by_insertion(s.drop_last()), s.last())
    }
}

/// Every sequence of ids has a sorted set: the one insertion builds.
pub proof fn lemma_sorted_set_exists(s: Seq<i32>)
    ensures
        is_sorted_set(sorted_by_insertion(s), s),
        is_sorted_set(sorted_set(s), s),
    decreases s.len(),
{
    if s.len() > 0 {
        let t = s.drop_last();
        lemma_sorted_set_exists(t);
        lemma_insert_sorted(sorted_by_insertion(t), s.last());
        assert forall|y: i32| sorted_by_insertion(s).contains(y) <==> s.contains(y) by {
            if t.contains(y) {
                let p = choose|p: int| 0 <= p < t.len() && t[p] == y;
                assert(s[p] == y);
            }
            if s.contains(y) {
                let p = choose|p: int| 0 <= p < s.len() && s[p] == y;
                if p < s.len() - 1 {
                    assert(t[p] == y);
                }
            }
            assert(s[s.len() - 1] == s.last());
        }
    }
    assert(is_sorted_set(sorted_by_insertion(s), s));
}

/// Sorts `v` and removes duplicates.
pub fn sort_dedup(v: &Vec<i32>) -> (r: Vec<i32>)
    ensures
        is_sorted_set(r@, v@),
        r@ == sorted_set(v@),
{
    let mut out: Vec<i32> = Vec::new();
    let mut i: usize = 0;
    while i < v.len()
        invariant
            0 <= i <= v@.len(),
            strictly_increasing(out@),
            forall|x: i32| #[trigger] out@.contains(x) <==> v@.take(i as int).contains(x),
        decreases v@.len() - i,
    {
        let x = v[i];
        let ghost o = out@;
        let mut k: usize = 0;
        while k < out.len() && out[k] < x
            invariant
                0 <= k <= out@.len(),
                o == out@,
                forall|j: int| 0 <= j < k ==> #[trigger] out@[j] < x,
            decreases out@.len() - k,
        {
            k = k + 1;
        }
        let present = k < out.len() && out[k] == x;
        if !present {
            out.insert(k, x);
            assert forall|a: int, b: int| 0 <= a < b < out@.len() implies #[trigger] out@[a] < #[trigger] out@[b] by {
                if b < k {
                } else if b == k {
                } else if a < k {
                    assert(out@[b] == o[b - 1]);
                    assert(o[k as int] >= x);
                    if b - 1 > k {
                        assert(o[k as int] < o[b - 1]);
                    }
                } else if a == k {
                    assert(out@[b] == o[b - 1]);
                    if b - 1 > k {
                        assert(o[k as int] < o[b - 1]);
                    }
                } else {
                    assert(out@[a] == o[a - 1] && out@[b] == o[b - 1]);
                }
            }
        }
        proof {
            let next = v@.take(i + 1);
            assert(next =~= v@.take(i as int).push(x));
            assert forall|y: i32| out@.contains(y) <==> next.contains(y) by {
                if out@.contains(y) {
                    let p = choose|p: int| 0 <= p < out@.len() && out@[p] == y;
                    if !present && p == k {
                        assert(next[i as int] == y);
                    } else {
                        let q = if !present && p > k { p - 1 } else { p };
                        assert(o[q] == y);
                        assert(o.contains(y));
                        let r = choose|r: int| 0 <= r < i && v@.take(i as int)[r] == y;
                        assert(next[r] == y);
                    }
                }
                if next.contains(y) {
                    let p = choose|p: int| 0 <= p < i + 1 && next[p] == y;
                    if p == i {
                        assert(out@[k as int] == y);
                    } else {
                        assert(v@.take(i as int)[p] == y);
                        assert(v@.take(i as int).contains(y));
                        assert(o.contains(y));
                        let q = choose|q: int| 0 <= q < o.len() && o[q] == y;
                        if !present && q >= k {
                            assert(out@[q + 1] == y);
                        } else {
                            assert(out@[q] == y);
                        }
                    }
                }
            }
        }
        i = i + 1;
    }
    assert(v@.take(i as int) =~= v@);
    proof {
        lemma_is_sorted_set(out@, v@);
    }
    out
}

/// Normalises the tab selection of a product: no selection, or an empty
/// one, stands for the default tab (id 1); the ids are sorted and
/// duplicates removed; a selection with an id that is not positive is
/// refused.
pub fn normalize_tab_ids(tab_ids: Option<Vec<i32>>) -> (r: Result<Vec<i32>, String>)
    ensures
        match r {
            Ok(v) => normalized_tab_ids(ids_view(tab_ids)) == Ok::<Seq<i32>, Seq<char>>(v@),
            Err(e) => normalized_tab_ids(ids_view(tab_ids)) == Err::<Seq<i32>, Seq<char>>(e@),
        },
        r matches Ok(v) ==> {
            &&& is_sorted_set(v@, requested_tab_ids(ids_view(tab_ids)))
            &&& v@.len() > 0
            &&& forall|i: int| 0 <= i < v@.len() ==> #[trigger] v@[i] > 0
        },
{
    let ghost req = requested_tab_ids(ids_view(tab_ids));
    let mut ids = match tab_ids {
        Some(v) => v,
        None => vec![1],
    };
    if ids.len() == 0 {
        ids.push(1);
    }
    assert(ids@ =~= req);
    let sorted = sort_dedup(&ids);
    let mut i: usize = 0;
    while i < sorted.len()
        invariant
            0 <= i <= sorted@.len(),
            is_sorted_set(sorted@, req),
            req == requested_tab_ids(ids_view(tab_ids)),
            forall|j: int| 0 <= j < i ==> #[trigger] sorted@[j] > 0,
        decreases sorted@.len() - i,
    {
        if sorted[i] <= 0 {
            proof {
                assert(sorted@.contains(sorted@[i as int]));
                let p = choose|p: int| 0 <= p < req.len() && req[p] == sorted@[i as int];
                assert(req[p] <= 0);
            }
            return Err(String::from_str("Invalid tab id"));
        }
        i = i + 1;
    }
    proof {
        assert forall|p: int| 0 <= p < req.len() implies !(#[trigger] req[p] <= 0) by {
            assert(req.contains(req[p]));
            assert(sorted@.contains(req[p]));
            let q = choose|q: int| 0 <= q < sorted@.len() && sorted@[q] == req[p];
            assert(sorted@[q] > 0);
        }
        assert(req.contains(req[0]));
        assert(sorted@.contains(req[0]));
    }
    Ok(sorted)
}

} // verus!
