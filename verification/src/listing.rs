//! Listings of categories and tabs ordered by name, as the shop shows them.

use vstd::prelude::*;
use crate::models::{named_views, Named, NamedV};
use crate::text::{
    lemma_name_lt_asymmetric, lemma_name_lt_irreflexive, lemma_name_lt_total, lemma_name_lt_transitive,
    name_less, name_lt,
};

verus! {

/// `s` is strictly increasing by name.
pub open spec fn sorted_by_name(s: Seq<NamedV>) -> bool {
    forall|i: int, j: int| 0 <= i < j < s.len() ==> name_lt(#[trigger] s[i].name, #[trigger] s[j].name)
}

/// No two entries of `s` share a name.
pub open spec fn names_distinct(s: Seq<NamedV>) -> bool {
    forall|i: int, j: int| 0 <= i < s.len() && 0 <= j < s.len() && i != j ==> #[trigger] s[i].name != #[trigger] s[j].name
}

/// No two entries of `s` share an id.
pub open spec fn ids_distinct(s: Seq<NamedV>) -> bool {
    forall|i: int, j: int| 0 <= i < s.len() && 0 <= j < s.len() && i != j ==> #[trigger] s[i].id != #[trigger] s[j].id
}

/// Keeps every entry.
pub open spec fn keep_all() -> spec_fn(NamedV) -> bool {
    |x: NamedV| true
}

/// Keeps the entries whose id is in `ids`.
pub open spec fn keep_ids(ids: Seq<i32>) -> spec_fn(NamedV) -> bool {
    |x: NamedV| ids.contains(x.id)
}

/// `r` lists, ordered by name, exactly the entries of `pool` that `keep` selects.
pub open spec fn is_listing(r: Seq<NamedV>, pool: Seq<NamedV>, keep: spec_fn(NamedV) -> bool) -> bool {
    &&& sorted_by_name(r)
    &&& forall|x: NamedV| r.contains(x) <==> (pool.contains(x) && keep(x))
}

/// The entries of `pool` that `keep` selects, ordered by name (the order of
/// an SQL `ORDER BY name`).
pub open spec fn listing(pool: Seq<NamedV>, keep: spec_fn(NamedV) -> bool) -> Seq<NamedV> {
    choose|r: Seq<NamedV>| is_listing(r, pool, keep)
}

/// Two name-ordered sequences with the same entries are equal.
pub proof fn lemma_sorted_unique(r1: Seq<NamedV>, r2: Seq<NamedV>)
    requires
        sorted_by_name(r1),
        sorted_by_name(r2),
        forall|x: NamedV| r1.contains(x) <==> r2.contains(x),
    ensures
        r1 == r2,
    decreases r1.len() + r2.len(),
{
    if r1.len() == 0 {
        if r2.len() > 0 {
            assert(r2.contains(r2[0]));
        }
        assert(r1 =~= r2);
    } else if r2.len() == 0 {
        assert(r1.contains(r1[0]));
    } else {
        let a = r1[0];
        let b = r2[0];
        assert(r1.contains(a));
        assert(r2.contains(b));
        let j = choose|j: int| 0 <= j < r2.len() && r2[j] == a;
        let k = choose|k: int| 0 <= k < r1.len() && r1[k] == b;
        if j > 0 && k > 0 {
            assert(name_lt(b.name, a.name));
            assert(name_lt(a.name, b.name));
            lemma_name_lt_asymmetric(a.name, b.name);
        }
        assert(a == b);
        let t1 = r1.drop_first();
        let t2 = r2.drop_first();
        assert forall|x: NamedV| t1.contains(x) <==> t2.contains(x) by {
            if t1.contains(x) {
                let p = choose|p: int| 0 <= p < t1.len() && t1[p] == x;
                assert(r1[p + 1] == x);
                assert(name_lt(a.name, x.name));
                lemma_name_lt_irreflexive(a.name);
                assert(r1.contains(x));
                let q = choose|q: int| 0 <= q < r2.len() && r2[q] == x;
                assert(q != 0);
                assert(t2[q - 1] == x);
            }
            if t2.contains(x) {
                let p = choose|p: int| 0 <= p < t2.len() && t2[p] == x;
                assert(r2[p + 1] == x);
                assert(name_lt(b.name, x.name));
                lemma_name_lt_irreflexive(b.name);
                assert(r2.contains(x));
                let q = choose|q: int| 0 <= q < r1.len() && r1[q] == x;
                assert(q != 0);
                assert(t1[q - 1] == x);
            }
        }
        lemma_sorted_unique(t1, t2);
        assert(r1 =~= seq![a] + t1);
        assert(r2 =~= seq![b] + t2);
    }
}

/// A listing, once shown to exist, is the one `listing` names.
pub proof fn lemma_is_listing_is_listing(r: Seq<NamedV>, pool: Seq<NamedV>, keep: spec_fn(NamedV) -> bool)
    requires
        is_listing(r, pool, keep),
    ensures
        listing(pool, keep) == r,
{
    let l = listing(pool, keep);
    assert(is_listing(l, pool, keep));
    lemma_sorted_unique(l, r);
}

/// `r` with `x` put in its place by name (nothing changes when `r` holds
/// an entry of that name).
pub open spec fn insert_by_name(r: Seq<NamedV>, x: NamedV) -> Seq<NamedV>
    decreases r.len(),
{
    if r.len() == 0 {
        seq![x]
    } else if name_lt(x.name, r[0].name) {
        seq![x] + r
    } else if x.name == r[0].name {
        r
    } else {
        seq![r[0]] + insert_by_name(r.drop_first(), x)
    }
}

proof fn lemma_insert_by_name(r: Seq<NamedV>, x: NamedV)
    requires
        sorted_by_name(r),
        forall|i: int| 0 <= i < r.len() && (#[trigger] r[i]).name == x.name ==> r[i] == x,
    ensures
        sorted_by_name(insert_by_name(r, x)),
        forall|y: NamedV| #[trigger] insert_by_name(r, x).contains(y) <==> (r.contains(y) || y == x),
        insert_by_name(r, x).len() > 0,
        insert_by_name(r, x)[0] == if r.len() > 0 && name_lt(r[0].name, x.name) { r[0] } else { x },
    decreases r.len(),
{
    let s = insert_by_name(r, x);
    if r.len() == 0 {
        assert(s[0] == x);
        assert forall|y: NamedV| s.contains(y) <==> (r.contains(y) || y == x) by {
            if s.contains(y) {
                let p = choose|p: int| 0 <= p < s.len() && s[p] == y;
            }
        }
        lemma_name_lt_irreflexive(x.name);
    } else if name_lt(x.name, r[0].name) {
        assert forall|i: int, j: int| 0 <= i < j < s.len() implies name_lt(#[trigger] s[i].name, #[trigger] s[j].name) by {
            if i == 0 {
                assert(s[j] == r[j - 1]);
                if j - 1 > 0 {
                    assert(name_lt(r[0].name, r[j - 1].name));
                    lemma_name_lt_transitive(x.name, r[0].name, r[j - 1].name);
                }
            } else {
                assert(s[i] == r[i - 1] && s[j] == r[j - 1]);
            }
        }
        assert forall|y: NamedV| s.contains(y) <==> (r.contains(y) || y == x) by {
            if s.contains(y) {
                let p = choose|p: int| 0 <= p < s.len() && s[p] == y;
                if p > 0 {
                    assert(r[p - 1] == y);
                }
            }
            if r.contains(y) {
                let p = choose|p: int| 0 <= p < r.len() && r[p] == y;
                assert(s[p + 1] == y);
            }
            if y == x {
                assert(s[0] == x);
            }
        }
        lemma_name_lt_asymmetric(x.name, r[0].name);
    } else if x.name == r[0].name {
        assert(r[0] == x);
        assert(r.contains(r[0]));
        lemma_name_lt_irreflexive(x.name);
    } else {
        lemma_name_lt_total(x.name, r[0].name);
        let t = r.drop_first();
        assert forall|i: int, j: int| 0 <= i < j < t.len() implies name_lt(#[trigger] t[i].name, #[trigger] t[j].name) by {
            assert(t[i] == r[i + 1] && t[j] == r[j + 1]);
        }
        assert forall|i: int| 0 <= i < t.len() && (#[trigger] t[i]).name == x.name implies t[i] == x by {
            assert(t[i] == r[i + 1]);
        }
        lemma_insert_by_name(t, x);
        let u = insert_by_name(t, x);
        assert(s == seq![r[0]] + u);
        assert forall|i: int, j: int| 0 <= i < j < s.len() implies name_lt(#[trigger] s[i].name, #[trigger] s[j].name) by {
            if i == 0 {
                assert(s[j] == u[j - 1]);
                assert(u.contains(u[j - 1]));
                if t.contains(u[j - 1]) {
                    let p = choose|p: int| 0 <= p < t.len() && t[p] == u[j - 1];
                    assert(name_lt(r[0].name, r[p + 1].name));
                }
            } else {
                assert(s[i] == u[i - 1] && s[j] == u[j - 1]);
            }
        }
        assert forall|y: NamedV| s.contains(y) <==> (r.contains(y) || y == x) by {
            if s.contains(y) {
                let p = choose|p: int| 0 <= p < s.len() && s[p] == y;
                if p > 0 {
                    assert(u[p - 1] == y);
                    assert(u.contains(y));
                    if t.contains(y) {
                        let q = choose|q: int| 0 <= q < t.len() && t[q] == y;
                        assert(r[q + 1] == y);
                    }
                } else {
                    assert(r[0] == y);
                }
            }
            if r.contains(y) {
                let p = choose|p: int| 0 <= p < r.len() && r[p] == y;
                if p > 0 {
                    assert(t[p - 1] == y);
                    assert(t.contains(y));
                    assert(u.contains(y));
                    let q = choose|q: int| 0 <= q < u.len() && u[q] == y;
                    assert(s[q + 1] == y);
                } else {
                    assert(s[0] == y);
                }
            }
            if y == x {
                assert(u.contains(x));
                let q = choose|q: int| 0 <= q < u.len() && u[q] == x;
                assert(s[q + 1] == x);
            }
        }
    }
}

/// The selected entries of `pool` put in place by name one after the other.
pub open spec fn listed_by_insertion(pool: Seq<NamedV>, keep: spec_fn(NamedV) -> bool) -> Seq<NamedV>
    decreases pool.len(),
{
    if pool.len() == 0 {
        Seq::empty()
    } else if keep(pool.last()) {
        insert_by_name(listed_by_insertion(pool.drop_last(), keep), pool.last())
    } else {
        listed_by_insertion(pool.drop_last(), keep)
    }
}

/// Where names are distinct, the listing exists: the one insertion builds.
pub proof fn lemma_listing_exists(pool: Seq<NamedV>, keep: spec_fn(NamedV) -> bool)
    requires
        names_distinct(pool),
    ensures
        is_listing(listed_by_insertion(pool, keep), pool, keep),
        is_listing(listing(pool, keep), pool, keep),
    decreases pool.len(),
{
    let l = listed_by_insertion(pool, keep);
    if pool.len() > 0 {
        let q = pool.drop_last();
        let x = pool.last();
        assert(names_distinct(q)) by {
            assert forall|i: int, j: int| 0 <= i < q.len() && 0 <= j < q.len() && i != j
                implies #[trigger] q[i].name != #[trigger] q[j].name by {
                assert(q[i] == pool[i] && q[j] == pool[j]);
            }
        }
        lemma_listing_exists(q, keep);
        let r = listed_by_insertion(q, keep);
        if keep(x) {
            assert forall|i: int| 0 <= i < r.len() && (#[trigger] r[i]).name == x.name implies r[i] == x by {
                assert(r.contains(r[i]));
                assert(q.contains(r[i]));
                let p = choose|p: int| 0 <= p < q.len() && q[p] == r[i];
                assert(pool[p] == r[i]);
                assert(pool[pool.len() - 1] == x);
            }
            lemma_insert_by_name(r, x);
        }
        assert forall|y: NamedV| l.contains(y) <==> (pool.contains(y) && keep(y)) by {
            if q.contains(y) {
                let p = choose|p: int| 0 <= p < q.len() && q[p] == y;
                assert(pool[p] == y);
            }
            if pool.contains(y) {
                let p = choose|p: int| 0 <= p < pool.len() && pool[p] == y;
                if p < pool.len() - 1 {
                    assert(q[p] == y);
                }
            }
            assert(pool[pool.len() - 1] == x);
            if keep(x) {
                assert(l.contains(y) == insert_by_name(r, x).contains(y));
            }
        }
    }
    assert(is_listing(l, pool, keep));
}

/// Whether `ids` contains `id`.
pub fn contains_id(ids: &Vec<i32>, id: i32) -> (r: bool)
    ensures
        r == ids@.contains(id),
{
    let mut i: usize = 0;
    while i < ids.len()
        invariant
            0 <= i <= ids@.len(),
            forall|j: int| 0 <= j < i ==> ids@[j] != id,
        decreases ids@.len() - i,
    {
        if ids[i] == id {
            assert(ids@[i as int] == id);
            return true;
        }
        i = i + 1;
    }
    false
}

proof fn lemma_insert_sorted(out: Seq<NamedV>, x: NamedV, k: int)
    requires
        sorted_by_name(out),
        0 <= k <= out.len(),
        forall|i: int| 0 <= i < k ==> name_lt(#[trigger] out[i].name, x.name),
        k < out.len() ==> name_lt(x.name, out[k].name),
    ensures
        sorted_by_name(out.insert(k, x)),
{
    let n = out.insert(k, x);
    assert forall|i: int, j: int| 0 <= i < j < n.len() implies name_lt(#[trigger] n[i].name, #[trigger] n[j].name) by {
        if j < k {
            assert(n[i] == out[i] && n[j] == out[j]);
        } else if j == k {
            assert(n[i] == out[i]);
        } else if i < k {
            assert(n[i] == out[i] && n[j] == out[j - 1]);
            assert(name_lt(out[i].name, x.name));
            if j - 1 == k {
                lemma_name_lt_transitive(out[i].name, x.name, out[k].name);
            } else {
                assert(name_lt(out[k].name, out[j - 1].name));
                lemma_name_lt_transitive(x.name, out[k].name, out[j - 1].name);
                lemma_name_lt_transitive(out[i].name, x.name, out[j - 1].name);
            }
        } else if i == k {
            assert(n[j] == out[j - 1]);
            if j - 1 > k {
                assert(name_lt(out[k].name, out[j - 1].name));
                lemma_name_lt_transitive(x.name, out[k].name, out[j - 1].name);
            }
        } else {
            assert(n[i] == out[i - 1] && n[j] == out[j - 1]);
        }
    }
}

/// Lists, ordered by name, the entries of `pool` (those whose id is in
/// `ids`, when `ids` is given).
pub fn sorted_listing<T: Named>(pool: &Vec<T>, ids: Option<&Vec<i32>>) -> (r: Vec<T>)
    requires
        names_distinct(named_views(pool@)),
    ensures
        is_listing(
            named_views(r@),
            named_views(pool@),
            match ids {
                Some(v) => keep_ids(v@),
                None => keep_all(),
            },
        ),
{
    let ghost keep = match ids {
        Some(v) => keep_ids(v@),
        None => keep_all(),
    };
    let ghost pv = named_views(pool@);
    let mut out: Vec<T> = Vec::new();
    let mut i: usize = 0;
    while i < pool.len()
        invariant
            0 <= i <= pool@.len(),
            pv == named_views(pool@),
            names_distinct(pv),
            keep == (match ids {
                Some(v) => keep_ids(v@),
                None => keep_all(),
            }),
            sorted_by_name(named_views(out@)),
            forall|x: NamedV| #[trigger]
                named_views(out@).contains(x) <==> (pv.take(i as int).contains(x) && keep(x)),
        decreases pool@.len() - i,
    {
        let ghost ov = named_views(out@);
        let x = &pool[i];
        let wanted = match ids {
            Some(v) => contains_id(v, x.id_of()),
            None => true,
        };
        let ghost xv = x.named_view();
        assert(pv[i as int] == xv);
        assert(wanted == keep(xv));
        let mut k: usize = 0;
        if wanted {
            while k < out.len() && !name_less(x.name_of(), out[k].name_of())
                invariant
                    0 <= k <= out@.len(),
                    ov == named_views(out@),
                    xv == x.named_view(),
                    forall|j: int| 0 <= j < k ==> !name_lt(xv.name, #[trigger] ov[j].name),
                decreases out@.len() - k,
            {
                assert(ov[k as int] == out@[k as int].named_view());
                k = k + 1;
            }
            proof {
                assert forall|j: int| 0 <= j < k implies name_lt(#[trigger] ov[j].name, xv.name) by {
                    assert(!name_lt(xv.name, ov[j].name));
                    assert(ov.contains(ov[j]));
                    assert(pv.take(i as int).contains(ov[j]));
                    let p = choose|p: int| 0 <= p < i && pv.take(i as int)[p] == ov[j];
                    assert(pv[p] == ov[j]);
                    assert(ov[j].name != xv.name);
                    lemma_name_lt_total(ov[j].name, xv.name);
                }
                lemma_insert_sorted(ov, xv, k as int);
            }
            out.insert(k, x.duplicate());
            proof {
                assert(named_views(out@) =~= ov.insert(k as int, xv));
            }
        }
        proof {
            let nv = named_views(out@);
            let ghost next = pv.take(i + 1);
            assert(next =~= pv.take(i as int).push(xv));
            assert forall|y: NamedV| nv.contains(y) <==> (pv.take(i + 1).contains(y) && keep(y)) by {
                if nv.contains(y) {
                    let p = choose|p: int| 0 <= p < nv.len() && nv[p] == y;
                    if wanted && p == k {
                        assert(next[i as int] == y);
                    } else {
                        let q = if wanted && p > k { p - 1 } else { p };
                        assert(ov[q] == y);
                        assert(ov.contains(y));
                        let r = choose|r: int| 0 <= r < i && pv.take(i as int)[r] == y;
                        assert(next[r] == y);
                    }
                }
                if pv.take(i + 1).contains(y) && keep(y) {
                    let p = choose|p: int| 0 <= p < i + 1 && next[p] == y;
                    if p == i {
                        assert(nv[k as int] == y);
                    } else {
                        assert(pv.take(i as int)[p] == y);
                        assert(pv.take(i as int).contains(y));
                        assert(ov.contains(y));
                        let q = choose|q: int| 0 <= q < ov.len() && ov[q] == y;
                        if wanted && q >= k {
                            assert(nv[q + 1] == y);
                        } else {
                            assert(nv[q] == y);
                        }
                    }
                }
            }
        }
        i = i + 1;
    }
    assert(pv.take(i as int) =~= pv);
    out
}

} // verus!
