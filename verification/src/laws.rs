//! Properties of the shop that span its operations: what a read gives back
//! after a write, what a refused request changes, what a sale does to the
//! quotas, and what stays as it was.

use vstd::prelude::*;
use crate::database::{
    add_named, add_product_result, after_explicit_one, category_for_name, lemma_id_index, lemma_name_index, name_index, delete_category_result, delete_product_result, delete_tab_result,
    get_product_result, has_id, id_index, init_defaults, lemma_product_index, log, named_entries, next_named_id, product_update_plan, product_view, products_view, any_missing_tab, enqueue_result, mark_entries, pending_entries, OutboxStatus, SyncOutboxEntryV, tab_ids_of, without_id, tabs_by_ids, first_missing_tab, lemma_first_missing_exists, audit, product_index, update_named,
    update_product_result, AuditAction, AuditTable, DatabaseV, NamedTable, ProductRowV,
};
use crate::listing::{ids_distinct, is_listing, keep_all, keep_ids, lemma_listing_exists, listing, names_distinct};
use crate::backup_worker::without_colons;
use crate::sync::trim_trailing_slashes;
use crate::exports::{csv_bytes, csv_record, order_fields, utf8_fields};
use crate::models::{CartItemV, NamedV, OrderItemV, OrderV, Price, ProductSalesCountV, ProductV};
use crate::orders::{cart_totals_fit, order_lines, sold_items, count_index, sales_counts, sales_counts_fit, cart_totals, checkout_in_range, checkout_result, newest_first, qty_in_cart, quota_error, total_index};
use crate::tab_ids::{strictly_increasing, is_sorted_set, lemma_is_sorted_set, lemma_sorted_set_exists, normalized_tab_ids, sorted_set};
use crate::text::{int_text, is_white_space, trim, trim_end, trim_start};

verus! {

proof fn lemma_trim_start_stable(s: Seq<char>)
    ensures
        trim_start(s).len() > 0 ==> !is_white_space(trim_start(s)[0]),
        trim_start(trim_start(s)) == trim_start(s),
    decreases s.len(),
{
    if s.len() > 0 && is_white_space(s[0]) {
        lemma_trim_start_stable(s.drop_first());
    }
}

proof fn lemma_trim_end_stable(s: Seq<char>)
    ensures
        trim_end(s).len() > 0 ==> !is_white_space(trim_end(s).last()),
        trim_end(trim_end(s)) == trim_end(s),
        trim_end(s).len() > 0 ==> trim_end(s)[0] == s[0],
        trim_end(s).len() <= s.len(),
    decreases s.len(),
{
    if s.len() > 0 && is_white_space(s.last()) {
        lemma_trim_end_stable(s.drop_last());
    }
}

/// Trimming a trimmed name changes nothing: a name that was normalised once
/// is normalised to itself, and it neither starts nor ends with white
/// space.
pub proof fn law_trim_idempotent(s: Seq<char>)
    ensures
        trim(trim(s)) == trim(s),
        trim(s).len() > 0 ==> !is_white_space(trim(s)[0]) && !is_white_space(trim(s).last()),
{
    let a = trim_start(s);
    lemma_trim_start_stable(s);
    lemma_trim_end_stable(a);
    let t = trim_end(a);
    if t.len() > 0 {
        assert(!is_white_space(t[0]));
        assert(trim_start(t) == t);
    } else {
        assert(trim_start(t) == t);
    }
    lemma_trim_end_stable(t);
}

/// Normalising a normalised tab selection gives it back unchanged.
pub proof fn law_normalized_tab_ids_idempotent(tab_ids: Option<Seq<i32>>)
    ensures
        normalized_tab_ids(tab_ids) matches Ok(r) ==> normalized_tab_ids(Some(r)) == Ok::<Seq<i32>, Seq<char>>(r),
{
    if let Ok(r) = normalized_tab_ids(tab_ids) {
        let e = crate::tab_ids::requested_tab_ids(tab_ids);
        assert(r == sorted_set(e));
        lemma_sorted_set_exists(e);
        assert(is_sorted_set(r, e));
        assert(r.len() > 0) by {
            assert(e.contains(e[0]));
        }
        assert forall|i: int| 0 <= i < r.len() implies #[trigger] r[i] > 0 by {
            assert(r.contains(r[i]));
            assert(e.contains(r[i]));
            let p = choose|p: int| 0 <= p < e.len() && e[p] == r[i];
            assert(!(e[p] <= 0));
        }
        assert(crate::tab_ids::requested_tab_ids(Some(r)) == r);
        assert(is_sorted_set(r, r));
        lemma_is_sorted_set(r, r);
    }
}

/// A refused request to add, rename or delete a category or a tab leaves
/// the shop as it was (the transaction is rolled back).
pub proof fn law_refused_catalog_edits_change_nothing(d: DatabaseV, t: NamedTable, id: i32, name: Seq<char>)
    ensures
        add_named(d, t, name).1 is Err ==> add_named(d, t, name).0 == d,
        update_named(d, t, id, name).1 is Err ==> update_named(d, t, id, name).0 == d,
        delete_category_result(d, id).1 is Err ==> delete_category_result(d, id).0 == d,
        delete_tab_result(d, id).1 is Err ==> delete_tab_result(d, id).0 == d,
{
}

/// A refused request to add or update a product leaves the shop as it was.
pub proof fn law_refused_product_edits_change_nothing(
    d: DatabaseV,
    id: i32,
    name: Seq<char>,
    price: Price,
    category: Option<Seq<char>>,
    tab_ids: Option<Seq<i32>>,
    sales_limit: Option<i32>,
    new_name: Option<Seq<char>>,
    new_price: Option<Price>,
    new_sales_limit: Option<Option<i32>>,
)
    ensures
        add_product_result(d, name, price, category, tab_ids, sales_limit).1 is Err
            ==> add_product_result(d, name, price, category, tab_ids, sales_limit).0 == d,
        update_product_result(d, id, new_name, new_price, category, tab_ids, new_sales_limit).1 is Err
            ==> update_product_result(d, id, new_name, new_price, category, tab_ids, new_sales_limit).0 == d,
{
}

/// A refused product deletion changes nothing but the audit log, which
/// records the attempt.
pub proof fn law_refused_product_delete_only_audits(d: DatabaseV, id: i32)
    ensures
        delete_product_result(d, id).1 is Err ==> delete_product_result(d, id).0
            == log(d, audit(AuditAction::Delete, AuditTable::Products, int_text(id as int), None, None)),
{
}

/// A refused checkout leaves the shop as it was: no order is stored and no
/// quota is used up. (`checkout_with_pool` states the same of every refusal,
/// an overflowing cart included.)
pub proof fn law_refused_checkout_changes_nothing(
    d: DatabaseV,
    items: Seq<CartItemV>,
    payment_method: Seq<char>,
    comment: Seq<char>,
    total_cents: i32,
    uuid: Seq<char>,
    created_at: Seq<char>,
)
    ensures
        checkout_result(d, items, payment_method, comment, total_cents, uuid, created_at).1 is Err
            ==> checkout_result(d, items, payment_method, comment, total_cents, uuid, created_at).0 == d,
{
}

/// The default category and the default tab (id 1) cannot be deleted; the
/// request is refused and changes nothing.
pub proof fn law_default_rows_cannot_be_deleted(d: DatabaseV)
    ensures
        delete_category_result(d, 1) == (d, Err::<(), Seq<char>>("Default category cannot be deleted"@)),
        delete_tab_result(d, 1) == (d, Err::<(), Seq<char>>("Default tab cannot be deleted"@)),
{
}

/// The export holds the header record, then one record per order: adding
/// an order to the list appends exactly that order's record.
pub proof fn law_export_has_one_record_per_order(orders: Seq<OrderV>, o: OrderV)
    ensures
        csv_bytes(orders.push(o)) == csv_bytes(orders) + csv_record(utf8_fields(order_fields(o))),
{
    assert(orders.push(o).drop_last() =~= orders);
}

/// The orders are listed newest first: by decreasing id.
pub proof fn law_orders_listed_newest_first(d: DatabaseV)
    requires
        d.wf(),
    ensures
        forall|i: int, j: int| 0 <= i < j < d.orders.len()
            ==> #[trigger] newest_first(d.orders)[i].id > #[trigger] newest_first(d.orders)[j].id,
{
    assert forall|i: int, j: int| 0 <= i < j < d.orders.len()
        implies #[trigger] newest_first(d.orders)[i].id > #[trigger] newest_first(d.orders)[j].id by {
        let n = d.orders.len();
        assert(d.orders[n - 1 - j].id < d.orders[n - 1 - i].id);
    }
}

/// After a sale, the new order is the first one listed.
pub proof fn law_new_order_listed_first(
    d: DatabaseV,
    items: Seq<CartItemV>,
    payment_method: Seq<char>,
    comment: Seq<char>,
    total_cents: i32,
    uuid: Seq<char>,
    created_at: Seq<char>,
)
    ensures
        ({
            let (d1, r) = checkout_result(d, items, payment_method, comment, total_cents, uuid, created_at);
            r matches Ok(o) ==> {
                &&& newest_first(d1.orders).len() == d.orders.len() + 1
                &&& newest_first(d1.orders)[0] == o
                &&& newest_first(d1.orders).drop_first() == newest_first(d.orders)
            }
        }),
{
    let (d1, r) = checkout_result(d, items, payment_method, comment, total_cents, uuid, created_at);
    if r is Ok {
        assert(newest_first(d1.orders).drop_first() =~= newest_first(d.orders));
    }
}

proof fn lemma_total_index_found(t: Seq<(i32, i32)>, id: i32)
    ensures
        total_index(t, id) >= 0 ==> total_index(t, id) < t.len() && t[total_index(t, id)].0 == id,
        total_index(t, id) >= -1,
        total_index(t, id) < 0 ==> forall|k: int| 0 <= k < t.len() ==> (#[trigger] t[k]).0 != id,
    decreases t.len(),
{
    if t.len() > 0 {
        lemma_total_index_found(t.drop_last(), id);
        if total_index(t, id) < 0 {
            assert forall|k: int| 0 <= k < t.len() implies (#[trigger] t[k]).0 != id by {
                if k < t.len() - 1 {
                    assert(t.drop_last()[k] == t[k]);
                }
            }
        }
    }
}

proof fn lemma_no_quota_error(d: DatabaseV, t: Seq<(i32, i32)>, k: int)
    requires
        quota_error(d, t) is None,
        0 <= k < t.len(),
    ensures
        product_index(d.products, t[k].0) >= 0,
        ({
            let p = d.products[product_index(d.products, t[k].0)];
            p.sales_limit matches Some(l) ==> p.sales_used + t[k].1 <= l
        }),
    decreases t.len(),
{
    if k > 0 {
        lemma_no_quota_error(d, t.drop_first(), k - 1);
        assert(t.drop_first()[k - 1] == t[k]);
    }
}

/// A sale uses up each product's quota by the quantity of it in the cart,
/// and never beyond the product's sales limit: every product in the cart
/// exists, and a limited product sold in the cart stays within its limit.
pub proof fn law_checkout_respects_quotas(
    d: DatabaseV,
    items: Seq<CartItemV>,
    payment_method: Seq<char>,
    comment: Seq<char>,
    total_cents: i32,
    uuid: Seq<char>,
    created_at: Seq<char>,
)
    requires
        d.wf(),
        checkout_in_range(d, items),
    ensures
        ({
            let (d1, r) = checkout_result(d, items, payment_method, comment, total_cents, uuid, created_at);
            r is Ok ==> {
                &&& d1.products.len() == d.products.len()
                &&& forall|i: int| 0 <= i < d.products.len() ==> {
                    &&& (#[trigger] d1.products[i]).id == d.products[i].id
                    &&& d1.products[i].sales_used == d.products[i].sales_used + qty_in_cart(items, d.products[i].id)
                    &&& (qty_in_cart(items, d.products[i].id) != 0
                        ==> (d1.products[i].sales_limit matches Some(l) ==> d1.products[i].sales_used <= l))
                }
                &&& forall|j: int| 0 <= j < items.len() ==> product_index(d.products, (#[trigger] items[j]).id) >= 0
            }
        }),
{
    let (d1, r) = checkout_result(d, items, payment_method, comment, total_cents, uuid, created_at);
    if r is Ok {
        let t = cart_totals(items);
        assert(quota_error(d, t) is None);
        assert forall|i: int| 0 <= i < d.products.len() implies {
            &&& (#[trigger] d1.products[i]).id == d.products[i].id
            &&& d1.products[i].sales_used == d.products[i].sales_used + qty_in_cart(items, d.products[i].id)
            &&& (qty_in_cart(items, d.products[i].id) != 0
                ==> (d1.products[i].sales_limit matches Some(l) ==> d1.products[i].sales_used <= l))
        } by {
            let id = d.products[i].id;
            lemma_total_index_found(t, id);
            let k = total_index(t, id);
            if k >= 0 {
                lemma_no_quota_error(d, t, k);
                lemma_product_index(d.products, id, i);
            }
        }
        assert forall|j: int| 0 <= j < items.len() implies product_index(d.products, (#[trigger] items[j]).id) >= 0 by {
            lemma_cart_item_has_total(items, j);
            let k = total_index(t, items[j].id);
            lemma_total_index_found(t, items[j].id);
            lemma_no_quota_error(d, t, k);
        }
    }
}

proof fn lemma_total_index_same_keys(t1: Seq<(i32, i32)>, t2: Seq<(i32, i32)>, y: i32)
    requires
        t1.len() == t2.len(),
        forall|i: int| 0 <= i < t1.len() ==> (#[trigger] t1[i]).0 == t2[i].0,
    ensures
        total_index(t1, y) == total_index(t2, y),
    decreases t1.len(),
{
    if t1.len() > 0 {
        let a = t1.drop_last();
        let b = t2.drop_last();
        assert forall|i: int| 0 <= i < a.len() implies (#[trigger] a[i]).0 == b[i].0 by {
            assert(a[i] == t1[i] && b[i] == t2[i]);
        }
        lemma_total_index_same_keys(a, b, y);
        assert(t1.last().0 == t2.last().0) by {
            assert(t1[t1.len() - 1].0 == t2[t1.len() - 1].0);
        }
    }
}

proof fn lemma_cart_item_has_total(items: Seq<CartItemV>, j: int)
    requires
        0 <= j < items.len(),
    ensures
        total_index(cart_totals(items), items[j].id) >= 0,
    decreases items.len(),
{
    let s = items.drop_last();
    let t = cart_totals(s);
    let x = items.last();
    let k = total_index(t, x.id);
    let y = items[j].id;
    lemma_total_index_found(t, x.id);
    if j < items.len() - 1 {
        assert(s[j] == items[j]);
        lemma_cart_item_has_total(s, j);
    }
    if k >= 0 {
        let t2 = t.update(k, (x.id, (t[k].1 + x.quantity) as i32));
        assert forall|i: int| 0 <= i < t2.len() implies (#[trigger] t2[i]).0 == t[i].0 by {}
        lemma_total_index_same_keys(t2, t, y);
        if j == items.len() - 1 {
            assert(y == x.id);
        }
    } else {
        let t2 = t.push((x.id, x.quantity));
        assert(t2.drop_last() =~= t);
    }
}

proof fn lemma_category_for_name(d: DatabaseV, n: Seq<char>)
    requires
        d.wf(),
    ensures
        ({
            let (d1, id) = category_for_name(d, n);
            &&& d1.categories[id_index(d1.categories, id)].name == n
            &&& 0 <= id_index(d1.categories, id) < d1.categories.len()
            &&& d1.products == d.products
            &&& d1.tabs == d.tabs
            &&& d1.orders == d.orders
            &&& d1.next_product_id == d.next_product_id
        }),
{
    let (d1, id) = category_for_name(d, n);
    let k = name_index(d.categories, n);
    if k >= 0 {
        assert(d.categories[k].name == n);
        lemma_id_index(d.categories, d.categories[k].id, k);
    } else {
        let v = NamedV { id: d.next_category_id, name: n };
        let s2 = d.categories.push(v);
        assert(d1.categories == s2);
        assert forall|i: int, j: int| 0 <= i < s2.len() && 0 <= j < s2.len() && i != j
            implies #[trigger] s2[i].id != #[trigger] s2[j].id by {
            if i < d.categories.len() && j < d.categories.len() {
                assert(d.categories[i].id != d.categories[j].id);
            } else if i < d.categories.len() {
                assert(d.categories[i].id < d.next_category_id);
            } else {
                assert(d.categories[j].id < d.next_category_id);
            }
        }
        lemma_id_index(s2, v.id, d.categories.len() as int);
    }
}

/// What is read back after adding a product is what the addition returned:
/// the trimmed name, the price, the category, the sales limit, the tabs,
/// and no sales yet.
pub proof fn law_added_product_reads_back(
    d: DatabaseV,
    name: Seq<char>,
    price: Price,
    category: Option<Seq<char>>,
    tab_ids: Option<Seq<i32>>,
    sales_limit: Option<i32>,
)
    requires
        d.wf(),
    ensures
        ({
            let (d1, r) = add_product_result(d, name, price, category, tab_ids, sales_limit);
            r matches Ok(p) ==> {
                &&& get_product_result(d1, p.id) == Ok::<ProductV, Seq<char>>(p)
                &&& p.name == trim(name)
                &&& p.price_cents == price.cents
                &&& p.sales_limit == sales_limit
                &&& p.sales_used == 0
                &&& p.category_name == (match category { Some(c) => c, None => "Default"@ })
            }
        }),
{
    let (d3, r) = add_product_result(d, name, price, category, tab_ids, sales_limit);
    if let Ok(p) = r {
        let cname = match category {
            Some(c) => c,
            None => "Default"@,
        };
        lemma_category_for_name(d, cname);
        let (d1, cid) = category_for_name(d, cname);
        let id = d1.next_product_id;
        let ps = d3.products;
        assert(ps.len() == d.products.len() + 1);
        assert(ps.drop_last() == d.products);
        assert forall|i: int, j: int| 0 <= i < j < ps.len() implies #[trigger] ps[i].id < #[trigger] ps[j].id by {
            assert(ps[i] == d.products[i]);
            if j < d.products.len() {
                assert(ps[j] == d.products[j]);
            } else {
                assert(d.products[i].id < d.next_product_id);
            }
        }
        lemma_product_index(ps, id, d.products.len() as int);
        assert(d3.categories == d1.categories);
        assert(d3.tabs == d1.tabs);
    }
}

/// Deleting a category moves its products to the default category: the
/// category is gone, every other category stays, the default category
/// stays, and no product refers to the deleted category any more; products
/// change in nothing else.
pub proof fn law_deleted_category_products_move_to_default(d: DatabaseV, id: i32)
    requires
        d.wf(),
    ensures
        ({
            let (d1, r) = delete_category_result(d, id);
            r is Ok ==> {
                &&& !has_id(d1.categories, id)
                &&& has_id(d1.categories, 1)
                &&& forall|c: NamedV| d.categories.contains(c) && c.id != id ==> #[trigger] d1.categories.contains(c)
                &&& d1.products.len() == d.products.len()
                &&& forall|i: int| 0 <= i < d.products.len() ==> #[trigger] d1.products[i] == if d.products[i].category_id == id {
                    ProductRowV { category_id: 1, ..d.products[i] }
                } else {
                    d.products[i]
                }
                &&& forall|i: int| 0 <= i < d1.products.len() ==> (#[trigger] d1.products[i]).category_id != id
            }
        }),
{
    let (d1, r) = delete_category_result(d, id);
    if r is Ok {
        let s = d.categories;
        let k = id_index(s, id);
        assert(0 <= k < s.len() && s[k].id == id);
        let s1 = s.remove(k);
        assert(d1.categories == s1);
        if has_id(s1, id) {
            let j = choose|j: int| 0 <= j < s1.len() && #[trigger] s1[j].id == id;
            if j < k {
                assert(s1[j] == s[j]);
            } else {
                assert(s1[j] == s[j + 1]);
            }
        }
        let one = choose|j: int| 0 <= j < s.len() && #[trigger] s[j].id == 1;
        if one < k {
            assert(s1[one] == s[one]);
        } else {
            assert(s1[one - 1] == s[one]);
        }
        assert forall|c: NamedV| s.contains(c) && c.id != id implies #[trigger] s1.contains(c) by {
            let j = choose|j: int| 0 <= j < s.len() && s[j] == c;
            if j < k {
                assert(s1[j] == c);
            } else {
                assert(j != k);
                assert(s1[j - 1] == c);
            }
        }
    }
}

/// Setting up the default rows is safe to repeat on every start: once it
/// has succeeded, running it again succeeds and changes nothing.
pub proof fn law_initialisation_is_repeatable(d: DatabaseV)
    requires
        d.keys_unique(),
    ensures
        init_defaults(d).1 is Ok ==> init_defaults(init_defaults(d).0) == (init_defaults(d).0, Ok::<(), Seq<char>>(())),
{
    let (e, r) = init_defaults(d);
    if r is Ok {
        let d1 = if has_id(d.categories, 1) || name_index(d.categories, "Default"@) >= 0 {
            d
        } else {
            DatabaseV {
                categories: d.categories.push(NamedV { id: 1, name: "Default"@ }),
                next_category_id: after_explicit_one(d.next_category_id),
                ..d
            }
        };
        if !(has_id(d.categories, 1) || name_index(d.categories, "Default"@) >= 0) {
            assert(d1.categories[d.categories.len() as int].id == 1);
        }
        assert(has_id(d1.categories, 1) || name_index(d1.categories, "Default"@) >= 0);
        let t = d1.tabs;
        let pushed = !(has_id(t, 1) || name_index(t, "Alle"@) >= 0);
        let t2 = if pushed { t.push(NamedV { id: 1, name: "Alle"@ }) } else { t };
        assert(ids_distinct(t2) && names_distinct(t2)) by {
            if pushed {
                assert forall|a: int, b: int| 0 <= a < t2.len() && 0 <= b < t2.len() && a != b
                    implies #[trigger] t2[a].id != #[trigger] t2[b].id && t2[a].name != t2[b].name by {
                    if a < t.len() && b < t.len() {
                        assert(t[a].id != t[b].id && t[a].name != t[b].name);
                    } else if a < t.len() {
                        assert(t[a].id != 1);
                        assert(t[a].name != "Alle"@);
                    } else {
                        assert(t[b].id != 1);
                        assert(t[b].name != "Alle"@);
                    }
                }
            }
        }
        let k = id_index(t2, 1);
        let m = name_index(t2, "Alle"@);
        let alle = NamedV { id: 1, name: "Alle"@ };
        if k < 0 {
            assert(!has_id(t2, 1));
            assert(!pushed) by {
                if pushed {
                    assert(t2[t.len() as int].id == 1);
                }
            }
            assert(e.tabs == t2);
            assert(name_index(e.tabs, "Alle"@) >= 0);
        } else {
            let ft = t2.update(k, alle);
            assert(e.tabs == ft);
            assert(ids_distinct(ft) && names_distinct(ft)) by {
                assert forall|a: int, b: int| 0 <= a < ft.len() && 0 <= b < ft.len() && a != b
                    implies #[trigger] ft[a].id != #[trigger] ft[b].id && ft[a].name != ft[b].name by {
                    assert(t2[a].id != t2[b].id && t2[a].name != t2[b].name);
                    if a == k {
                        assert(t2[a].id == 1);
                        if t2[b].name == "Alle"@ {
                            lemma_name_index(t2, "Alle"@, b);
                        }
                    }
                    if b == k {
                        assert(t2[b].id == 1);
                        if t2[a].name == "Alle"@ {
                            lemma_name_index(t2, "Alle"@, a);
                        }
                    }
                }
            }
            assert(ft[k] == alle);
            lemma_id_index(ft, 1, k);
            lemma_name_index(ft, "Alle"@, k);
            assert(ft.update(k, alle) =~= ft);
        }
    }
}

/// An added category or tab is stored under the next id with its trimmed
/// name, and is found by that id; nothing else of the table changes.
pub proof fn law_added_entry_is_stored(d: DatabaseV, t: NamedTable, name: Seq<char>)
    requires
        d.wf(),
    ensures
        ({
            let (d1, r) = add_named(d, t, name);
            r matches Ok(v) ==> {
                &&& v.name == trim(name)
                &&& v.id == next_named_id(d, t)
                &&& named_entries(d1, t) == named_entries(d, t).push(v)
                &&& named_entries(d1, t)[id_index(named_entries(d1, t), v.id)] == v
                &&& listing(named_entries(d1, t), keep_all()).contains(v)
            }
        }),
{
    let (d1, r) = add_named(d, t, name);
    if let Ok(v) = r {
        let s = named_entries(d, t);
        let s2 = s.push(v);
        assert(named_entries(d1, t) == s2);
        assert forall|i: int| 0 <= i < s.len() implies (#[trigger] s[i]).id < next_named_id(d, t) by {
            match t {
                NamedTable::Categories => assert(d.categories[i].id < d.next_category_id),
                NamedTable::Tabs => assert(d.tabs[i].id < d.next_tab_id),
            }
        }
        assert forall|a: int, b: int| 0 <= a < s2.len() && 0 <= b < s2.len() && a != b
            implies #[trigger] s2[a].id != #[trigger] s2[b].id by {
            if a < s.len() && b < s.len() {
                assert(s[a].id != s[b].id);
            } else if a < s.len() {
                assert(s[a].id < v.id);
            } else {
                assert(s[b].id < v.id);
            }
        }
        lemma_id_index(s2, v.id, s.len() as int);
        assert(names_distinct(s));
        assert(name_index(s, v.name) < 0);
        assert forall|a: int, b: int| 0 <= a < s2.len() && 0 <= b < s2.len() && a != b
            implies #[trigger] s2[a].name != #[trigger] s2[b].name by {
            if a < s.len() && b < s.len() {
                assert(s[a].name != s[b].name);
            } else if a < s.len() {
                assert(s[a].name != v.name);
            } else {
                assert(s[b].name != v.name);
            }
        }
        lemma_listing_exists(s2, keep_all());
        assert(s2[s.len() as int] == v);
        assert(s2.contains(v));
    }
}

/// A renamed category or tab keeps its id and position and takes the
/// trimmed name; every other entry stays as it was.
pub proof fn law_renamed_entry_is_stored(d: DatabaseV, t: NamedTable, id: i32, name: Seq<char>)
    requires
        d.wf(),
    ensures
        ({
            let (d1, r) = update_named(d, t, id, name);
            r matches Ok(v) ==> {
                &&& v == NamedV { id, name: trim(name) }
                &&& named_entries(d1, t).len() == named_entries(d, t).len()
                &&& named_entries(d1, t)[id_index(named_entries(d1, t), id)] == v
                &&& forall|i: int| 0 <= i < named_entries(d, t).len() && named_entries(d, t)[i].id != id
                    ==> #[trigger] named_entries(d1, t)[i] == named_entries(d, t)[i]
            }
        }),
{
    let (d1, r) = update_named(d, t, id, name);
    if let Ok(v) = r {
        let s = named_entries(d, t);
        let k = id_index(s, id);
        let s2 = s.update(k, v);
        assert(named_entries(d1, t) == s2);
        assert(ids_distinct(s));
        assert forall|a: int, b: int| 0 <= a < s2.len() && 0 <= b < s2.len() && a != b
            implies #[trigger] s2[a].id != #[trigger] s2[b].id by {
            assert(s[a].id != s[b].id);
        }
        lemma_id_index(s2, id, k);
    }
}

/// Updating a product changes only the fields given: the name (trimmed),
/// the price and the sales limit take the given values; a given category
/// (found, or created when missing) and a given tab selection (normalised)
/// replace the stored ones. Every field not given stays: its name, price,
/// sales limit, category and tab set; its sales so far always stay. No other
/// product changes, and neither do the tabs and the orders.
pub proof fn law_update_keeps_fields_not_given(
    d: DatabaseV,
    id: i32,
    name: Option<Seq<char>>,
    price: Option<Price>,
    category: Option<Seq<char>>,
    tab_ids: Option<Seq<i32>>,
    sales_limit: Option<Option<i32>>,
)
    requires
        d.wf(),
    ensures
        ({
            let (d1, r) = update_product_result(d, id, name, price, category, tab_ids, sales_limit);
            let k = product_index(d.products, id);
            let row = d.products[k];
            let new_row = d1.products[k];
            r is Ok ==> {
                &&& 0 <= k < d.products.len()
                &&& d1.tabs == d.tabs
                &&& d1.orders == d.orders
                &&& d1.products.len() == d.products.len()
                &&& forall|i: int| 0 <= i < d.products.len() && i != k ==> #[trigger] d1.products[i] == d.products[i]
                &&& new_row.id == id
                &&& new_row.name == (match name { Some(n) => trim(n), None => row.name })
                &&& new_row.price_cents == (match price { Some(p) => p.cents, None => row.price_cents })
                &&& new_row.sales_limit == (match sales_limit { Some(l) => l, None => row.sales_limit })
                &&& new_row.sales_used == row.sales_used
                &&& (category is None ==> d1.categories == d.categories && new_row.category_id == row.category_id)
                &&& (category matches Some(c) ==> d1.categories[id_index(d1.categories, new_row.category_id)].name == c)
                &&& (tab_ids is None ==> new_row.tab_ids == row.tab_ids)
                &&& (tab_ids is Some ==> normalized_tab_ids(tab_ids) == Ok::<Seq<i32>, Seq<char>>(new_row.tab_ids))
            }
        }),
{
    let (d1, r) = update_product_result(d, id, name, price, category, tab_ids, sales_limit);
    if r is Ok {
        let u = product_update_plan(d, id, name, price, category, tab_ids, sales_limit)->Ok_0;
        let k = product_index(d.products, id);
        let row = d.products[k];
        assert(u.k == k && k >= 0);
        let old = product_view(d, row);
        lemma_category_for_name(d, u.category_name);
        if category is None {
            // The category is found again under its own name.
            let cats = d.categories;
            let ci = id_index(cats, row.category_id);
            assert(has_id(cats, row.category_id));
            let cj = choose|j: int| 0 <= j < cats.len() && #[trigger] cats[j].id == row.category_id;
            lemma_id_index(cats, row.category_id, cj);
            assert(old.category_name == cats[ci].name);
            lemma_name_index(cats, cats[ci].name, ci);
            assert(category_for_name(d, u.category_name) == (d, row.category_id));
        }
        if tab_ids is None {
            // The tab set comes back as it was.
            let keep = keep_ids(row.tab_ids);
            lemma_listing_exists(d.tabs, keep);
            let l = listing(d.tabs, keep);
            let ids = tab_ids_of(l);
            assert(u.tab_ids == ids);
            assert forall|x: i32| row.tab_ids.contains(x) <==> ids.contains(x) by {
                if row.tab_ids.contains(x) {
                    let j = choose|j: int| 0 <= j < row.tab_ids.len() && row.tab_ids[j] == x;
                    assert(has_id(d.tabs, row.tab_ids[j]));
                    let q = choose|q: int| 0 <= q < d.tabs.len() && #[trigger] d.tabs[q].id == x;
                    assert(d.tabs.contains(d.tabs[q]));
                    assert(l.contains(d.tabs[q]));
                    let p = choose|p: int| 0 <= p < l.len() && l[p] == d.tabs[q];
                    assert(ids[p] == x);
                }
                if ids.contains(x) {
                    let p = choose|p: int| 0 <= p < ids.len() && ids[p] == x;
                    assert(l.contains(l[p]));
                }
            }
            assert(is_sorted_set(row.tab_ids, ids));
            lemma_is_sorted_set(row.tab_ids, ids);
        } else {
            // A normalised selection is its own sorted set.
            let e = crate::tab_ids::requested_tab_ids(tab_ids);
            lemma_sorted_set_exists(e);
            let ids = sorted_set(e);
            assert(u.tab_ids == ids);
            assert(is_sorted_set(ids, ids));
            lemma_is_sorted_set(ids, ids);
        }
    }
}

/// The units of the product named `name` among order lines.
pub open spec fn units_sold(items: Seq<OrderItemV>, name: Seq<char>) -> int
    decreases items.len(),
{
    if items.len() == 0 {
        0
    } else {
        units_sold(items.drop_last(), name) + if items.last().name == name { items.last().quantity as int } else { 0 }
    }
}

proof fn lemma_count_index_found(c: Seq<ProductSalesCountV>, name: Seq<char>)
    ensures
        count_index(c, name) >= 0 ==> count_index(c, name) < c.len() && c[count_index(c, name)].product_name == name,
        count_index(c, name) < 0 ==> forall|j: int| 0 <= j < c.len() ==> (#[trigger] c[j]).product_name != name,
        count_index(c, name) >= -1,
    decreases c.len(),
{
    if c.len() > 0 {
        lemma_count_index_found(c.drop_last(), name);
        if count_index(c, name) < 0 {
            assert forall|j: int| 0 <= j < c.len() implies (#[trigger] c[j]).product_name != name by {
                if j < c.len() - 1 {
                    assert(c.drop_last()[j] == c[j]);
                }
            }
        }
    }
}

proof fn lemma_count_index_same_names(c1: Seq<ProductSalesCountV>, c2: Seq<ProductSalesCountV>, name: Seq<char>)
    requires
        c1.len() == c2.len(),
        forall|i: int| 0 <= i < c1.len() ==> (#[trigger] c1[i]).product_name == c2[i].product_name,
    ensures
        count_index(c1, name) == count_index(c2, name),
    decreases c1.len(),
{
    if c1.len() > 0 {
        let a = c1.drop_last();
        let b = c2.drop_last();
        assert forall|i: int| 0 <= i < a.len() implies (#[trigger] a[i]).product_name == b[i].product_name by {
            assert(a[i] == c1[i] && b[i] == c2[i]);
        }
        lemma_count_index_same_names(a, b, name);
        assert(c1.last().product_name == c2.last().product_name) by {
            assert(c1[c1.len() - 1].product_name == c2[c1.len() - 1].product_name);
        }
    }
}

proof fn lemma_units_sold_absent(items: Seq<OrderItemV>, name: Seq<char>)
    requires
        !exists|j: int| 0 <= j < items.len() && (#[trigger] items[j]).name == name,
    ensures
        units_sold(items, name) == 0,
    decreases items.len(),
{
    if items.len() > 0 {
        let s = items.drop_last();
        assert forall|j: int| 0 <= j < s.len() implies (#[trigger] s[j]).name != name by {
            assert(s[j] == items[j]);
        }
        lemma_units_sold_absent(s, name);
        assert(items[items.len() - 1] == items.last());
    }
}

/// The sales counts have one entry for each product name that was sold,
/// and that entry holds the units sold under that name.
pub proof fn law_sales_counts_sum_the_lines(items: Seq<OrderItemV>, name: Seq<char>)
    requires
        sales_counts_fit(items),
    ensures
        ({
            let c = sales_counts(items);
            let k = count_index(c, name);
            &&& k >= 0 <==> exists|j: int| 0 <= j < items.len() && (#[trigger] items[j]).name == name
            &&& k >= 0 ==> c[k].product_name == name && c[k].count == units_sold(items, name)
        }),
    decreases items.len(),
{
    let c = sales_counts(items);
    lemma_count_index_found(c, name);
    if items.len() > 0 {
        let s = items.drop_last();
        let x = items.last();
        let c0 = sales_counts(s);
        law_sales_counts_sum_the_lines(s, name);
        lemma_count_index_found(c0, name);
        let k0 = count_index(c0, x.name);
        lemma_count_index_found(c0, x.name);
        law_sales_counts_sum_the_lines(s, x.name);
        if k0 >= 0 {
            let c1 = c0.update(k0, ProductSalesCountV { product_name: x.name, count: (c0[k0].count + x.quantity) as i32 });
            assert(c == c1);
            assert forall|i: int| 0 <= i < c1.len() implies (#[trigger] c1[i]).product_name == c0[i].product_name by {}
            lemma_count_index_same_names(c1, c0, name);
            let k = count_index(c0, name);
            assert(sales_counts_fit(s));
            assert(i32::MIN <= c0[k0].count + x.quantity <= i32::MAX);
            assert(units_sold(items, name) == units_sold(s, name) + if x.name == name { x.quantity as int } else { 0 });
            if k >= 0 {
                if x.name == name {
                    assert(k == k0);
                    assert(c1[k].count == c0[k0].count + x.quantity);
                } else {
                    assert(k != k0);
                    assert(c1[k] == c0[k]);
                }
            }
        } else {
            let c1 = c0.push(ProductSalesCountV { product_name: x.name, count: x.quantity });
            assert(c == c1);
            assert(c1.drop_last() =~= c0);
            if x.name == name {
                lemma_units_sold_absent(s, name);
            }
        }
        assert((exists|j: int| 0 <= j < items.len() && (#[trigger] items[j]).name == name)
            <==> ((exists|j: int| 0 <= j < s.len() && (#[trigger] s[j]).name == name) || x.name == name)) by {
            if exists|j: int| 0 <= j < items.len() && (#[trigger] items[j]).name == name {
                let j = choose|j: int| 0 <= j < items.len() && (#[trigger] items[j]).name == name;
                if j < s.len() {
                    assert(s[j] == items[j]);
                }
            }
            if exists|j: int| 0 <= j < s.len() && (#[trigger] s[j]).name == name {
                let j = choose|j: int| 0 <= j < s.len() && (#[trigger] s[j]).name == name;
                assert(items[j] == s[j]);
            }
            if x.name == name {
                assert(items[items.len() - 1] == x);
            }
        }
    }
}

proof fn lemma_units_sold_concat(a: Seq<OrderItemV>, b: Seq<OrderItemV>, name: Seq<char>)
    ensures
        units_sold(a + b, name) == units_sold(a, name) + units_sold(b, name),
    decreases b.len(),
{
    if b.len() == 0 {
        assert(a + b =~= a);
    } else {
        lemma_units_sold_concat(a, b.drop_last(), name);
        assert((a + b).drop_last() =~= a + b.drop_last());
        assert((a + b).last() == b.last());
    }
}

proof fn lemma_sold_items_prepend(o: OrderV, os: Seq<OrderV>)
    ensures
        sold_items(seq![o] + os) == o.items + sold_items(os),
    decreases os.len(),
{
    let t = seq![o] + os;
    assert(sold_items(t) == sold_items(t.drop_last()) + t.last().items);
    if os.len() == 0 {
        assert(t.drop_last() =~= Seq::<OrderV>::empty());
        assert(sold_items(t.drop_last()) == Seq::<OrderItemV>::empty());
        assert(t.last() == o);
        assert(sold_items(os) == Seq::<OrderItemV>::empty());
        assert(o.items + Seq::<OrderItemV>::empty() =~= o.items);
        assert(Seq::<OrderItemV>::empty() + o.items =~= o.items);
    } else {
        lemma_sold_items_prepend(o, os.drop_last());
        assert(t.drop_last() =~= seq![o] + os.drop_last());
        assert(t.last() == os.last());
        assert(sold_items(os) == sold_items(os.drop_last()) + os.last().items);
        assert(o.items + sold_items(os.drop_last()) + os.last().items =~= o.items + (sold_items(os.drop_last()) + os.last().items));
    }
}

/// After a sale, the units sold under each product name (over all orders)
/// grow by the units of that name in the cart.
pub proof fn law_checkout_adds_cart_to_units_sold(
    d: DatabaseV,
    items: Seq<CartItemV>,
    payment_method: Seq<char>,
    comment: Seq<char>,
    total_cents: i32,
    uuid: Seq<char>,
    created_at: Seq<char>,
    name: Seq<char>,
)
    ensures
        ({
            let (d1, r) = checkout_result(d, items, payment_method, comment, total_cents, uuid, created_at);
            r is Ok ==> units_sold(sold_items(newest_first(d1.orders)), name)
                == units_sold(order_lines(items), name) + units_sold(sold_items(newest_first(d.orders)), name)
        }),
{
    let (d1, r) = checkout_result(d, items, payment_method, comment, total_cents, uuid, created_at);
    if let Ok(o) = r {
        assert(newest_first(d1.orders) =~= seq![o] + newest_first(d.orders));
        lemma_sold_items_prepend(o, newest_first(d.orders));
        lemma_units_sold_concat(o.items, sold_items(newest_first(d.orders)), name);
    }
}

proof fn lemma_without_id_contains(s: Seq<i32>, x: i32)
    requires
        strictly_increasing(s),
    ensures
        forall|y: i32| #[trigger] without_id(s, x).contains(y) <==> (s.contains(y) && y != x),
{
    if s.contains(x) {
        let c = choose|c: int| 0 <= c < s.len() && s[c] == x;
        let t = s.remove(c);
        assert(without_id(s, x) == t);
        assert forall|y: i32| t.contains(y) <==> (s.contains(y) && y != x) by {
            if t.contains(y) {
                let p = choose|p: int| 0 <= p < t.len() && t[p] == y;
                if p < c {
                    assert(s[p] == y);
                    assert(s[p] < s[c]);
                } else {
                    assert(s[p + 1] == y);
                    assert(s[c] < s[p + 1]);
                }
            }
            if s.contains(y) && y != x {
                let p = choose|p: int| 0 <= p < s.len() && s[p] == y;
                if p < c {
                    assert(t[p] == y);
                } else {
                    assert(p != c);
                    assert(t[p - 1] == y);
                }
            }
        }
    }
}

/// Deleting a tab takes it out of every product's tab set: the tab is
/// gone, every product keeps its other tabs and changes in nothing else.
pub proof fn law_deleted_tab_leaves_products(d: DatabaseV, id: i32)
    requires
        d.wf(),
    ensures
        ({
            let (d1, r) = delete_tab_result(d, id);
            r is Ok ==> {
                &&& !has_id(d1.tabs, id)
                &&& has_id(d1.tabs, 1)
                &&& d1.products.len() == d.products.len()
                &&& forall|i: int| 0 <= i < d.products.len() ==> {
                    &&& (#[trigger] d1.products[i]).id == d.products[i].id
                    &&& d1.products[i].name == d.products[i].name
                    &&& d1.products[i].tab_id == d.products[i].tab_id
                    &&& d1.products[i].category_id == d.products[i].category_id
                    &&& d1.products[i].sales_used == d.products[i].sales_used
                    &&& forall|y: i32| #[trigger] d1.products[i].tab_ids.contains(y)
                        <==> (d.products[i].tab_ids.contains(y) && y != id)
                }
            }
        }),
{
    let (d1, r) = delete_tab_result(d, id);
    if r is Ok {
        let s = d.tabs;
        let k = id_index(s, id);
        assert(0 <= k < s.len() && s[k].id == id);
        let s1 = s.remove(k);
        assert(d1.tabs == s1);
        if has_id(s1, id) {
            let j = choose|j: int| 0 <= j < s1.len() && #[trigger] s1[j].id == id;
            if j < k {
                assert(s1[j] == s[j]);
            } else {
                assert(s1[j] == s[j + 1]);
            }
        }
        let one = choose|j: int| 0 <= j < s.len() && #[trigger] s[j].id == 1;
        if one < k {
            assert(s1[one] == s[one]);
        } else {
            assert(s1[one - 1] == s[one]);
        }
        assert forall|i: int| #![trigger d1.products[i]] 0 <= i < d.products.len() implies forall|y: i32| #[trigger] d1.products[i].tab_ids.contains(y)
            <==> (d.products[i].tab_ids.contains(y) && y != id) by {
            lemma_without_id_contains(d.products[i].tab_ids, id);
        }
    }
}

/// A deleted product is no longer found.
pub proof fn law_deleted_product_is_gone(d: DatabaseV, id: i32)
    requires
        d.wf(),
    ensures
        delete_product_result(d, id).1 is Ok
            ==> get_product_result(delete_product_result(d, id).0, id) == Err::<ProductV, Seq<char>>("Product not found"@),
{
    let (d1, r) = delete_product_result(d, id);
    if r is Ok {
        let ps = d.products;
        let k = product_index(ps, id);
        let ps1 = ps.remove(k);
        assert(d1.products == ps1);
        lemma_product_index(ps, id, k);
        if product_index(ps1, id) >= 0 {
            let j = product_index(ps1, id);
            if j < k {
                assert(ps1[j] == ps[j]);
                assert(ps[j].id < ps[k].id);
            } else {
                assert(ps1[j] == ps[j + 1]);
                assert(ps[k].id < ps[j + 1].id);
            }
        }
    }
}

/// The categories and the tabs are listed by name, each exactly once.
pub proof fn law_listings_are_sorted_and_complete(d: DatabaseV)
    requires
        d.wf(),
    ensures
        is_listing(listing(d.categories, keep_all()), d.categories, keep_all()),
        is_listing(listing(d.tabs, keep_all()), d.tabs, keep_all()),
{
    lemma_listing_exists(d.categories, keep_all());
    lemma_listing_exists(d.tabs, keep_all());
}

/// The time in a backup file's name holds no colon (WebDAV servers refuse
/// colons in file names); every other character of the time is kept, in
/// order.
pub proof fn law_backup_time_has_no_colon(timestamp: Seq<char>)
    ensures
        !without_colons(timestamp).contains(':'),
        without_colons(timestamp) == timestamp.filter(|c: char| c != ':'),
    decreases timestamp.len(),
{
    reveal(Seq::filter);
    if timestamp.len() > 0 {
        let t = timestamp.drop_last();
        law_backup_time_has_no_colon(t);
        let w = without_colons(timestamp);
        if w.contains(':') {
            let j = choose|j: int| 0 <= j < w.len() && w[j] == ':';
            if !(timestamp.last() != ':' && j == w.len() - 1) {
                assert(without_colons(t)[j] == ':');
            }
        }
    }
}

/// The outbox address never has a slash doubled before `sync/outbox`: the
/// base address loses all its trailing slashes.
pub proof fn law_outbox_base_has_no_trailing_slash(base: Seq<char>)
    ensures
        trim_trailing_slashes(base).len() == 0 || trim_trailing_slashes(base).last() != '/',
        base.len() >= trim_trailing_slashes(base).len(),
        trim_trailing_slashes(base) == base.take(trim_trailing_slashes(base).len() as int),
    decreases base.len(),
{
    if base.len() > 0 && base.last() == '/' {
        law_outbox_base_has_no_trailing_slash(base.drop_last());
        let r = trim_trailing_slashes(base.drop_last());
        assert(base.drop_last().take(r.len() as int) =~= base.take(r.len() as int));
    } else {
        assert(base.take(base.len() as int) =~= base);
    }
}

proof fn lemma_id_index_found(s: Seq<NamedV>, id: i32)
    ensures
        id_index(s, id) >= 0 ==> id_index(s, id) < s.len() && s[id_index(s, id)].id == id,
        id_index(s, id) < 0 ==> !has_id(s, id),
{
}

/// What is read back after updating a product is what the update
/// returned, its tabs ordered by name: the same id, name, price, category,
/// sales limit and sales so far, and the same set of tabs.
pub proof fn law_updated_product_reads_back(
    d: DatabaseV,
    id: i32,
    name: Option<Seq<char>>,
    price: Option<Price>,
    category: Option<Seq<char>>,
    tab_ids: Option<Seq<i32>>,
    sales_limit: Option<Option<i32>>,
)
    requires
        d.wf(),
    ensures
        ({
            let (d1, r) = update_product_result(d, id, name, price, category, tab_ids, sales_limit);
            r matches Ok(p) ==> (get_product_result(d1, id) matches Ok(q) && {
                &&& q.id == p.id && p.id == id
                &&& q.name == p.name
                &&& q.price_cents == p.price_cents
                &&& q.category_id == p.category_id
                &&& q.category_name == p.category_name
                &&& q.sales_limit == p.sales_limit
                &&& q.sales_used == p.sales_used
                &&& forall|t: NamedV| #[trigger] q.tabs.contains(t) <==> p.tabs.contains(t)
            })
        }),
{
    let (d1, r) = update_product_result(d, id, name, price, category, tab_ids, sales_limit);
    if let Ok(p) = r {
        let u = product_update_plan(d, id, name, price, category, tab_ids, sales_limit)->Ok_0;
        let k = u.k;
        assert(k == product_index(d.products, id) && k >= 0);
        lemma_category_for_name(d, u.category_name);
        let (dc, cid) = category_for_name(d, u.category_name);
        let row = d.products[k];
        assert(row.id == id);
        let ids = u.tab_ids;
        let ps = d1.products;
        assert(ps == dc.products.update(k, ps[k]));
        assert(ps[k].id == id);
        assert forall|i: int, j: int| 0 <= i < j < ps.len() implies #[trigger] ps[i].id < #[trigger] ps[j].id by {
            if i != k && j != k {
                assert(ps[i] == d.products[i] && ps[j] == d.products[j]);
            } else if i == k {
                assert(ps[j] == d.products[j]);
                assert(d.products[k].id < d.products[j].id);
            } else {
                assert(ps[i] == d.products[i]);
                assert(d.products[i].id < d.products[k].id);
            }
        }
        lemma_product_index(ps, id, k);
        assert(d1.tabs == d.tabs);
        assert(d1.categories == dc.categories);
        // The tabs: the listing of the stored set against the tabs in the
        // order of the request.
        lemma_listing_exists(d.tabs, keep_ids(sorted_set(ids)));
        lemma_sorted_set_exists(ids);
        assert(tabs_by_ids(d, ids) == Ok::<Seq<NamedV>, Seq<char>>(u.tabs));
        assert(ids.len() > 0);
        assert(first_missing_tab(d, ids) < 0);
        assert forall|m: int| 0 <= m < ids.len() implies id_index(d.tabs, #[trigger] ids[m]) >= 0 by {
            if id_index(d.tabs, ids[m]) < 0 {
                lemma_first_missing_exists(d, ids, m);
            }
        }
        let q_tabs = listing(d.tabs, keep_ids(sorted_set(ids)));
        assert forall|t: NamedV| #[trigger] q_tabs.contains(t) <==> u.tabs.contains(t) by {
            if q_tabs.contains(t) {
                assert(d.tabs.contains(t) && sorted_set(ids).contains(t.id));
                assert(ids.contains(t.id));
                let m = choose|m: int| 0 <= m < ids.len() && ids[m] == t.id;
                let j = choose|j: int| 0 <= j < d.tabs.len() && d.tabs[j] == t;
                lemma_id_index(d.tabs, t.id, j);
                assert(u.tabs[m] == d.tabs[id_index(d.tabs, ids[m])]);
                assert(u.tabs[m] == t);
            }
            if u.tabs.contains(t) {
                let m = choose|m: int| 0 <= m < u.tabs.len() && u.tabs[m] == t;
                assert(id_index(d.tabs, ids[m]) >= 0);
                lemma_id_index_found(d.tabs, ids[m]);
                let j = id_index(d.tabs, ids[m]);
                assert(t == d.tabs[j]);
                assert(d.tabs.contains(t));
                assert(t.id == ids[m]);
                assert(ids.contains(t.id));
                assert(sorted_set(ids).contains(t.id));
            }
        }
    }
}

proof fn lemma_pending_contains(s: Seq<SyncOutboxEntryV>)
    ensures
        forall|e: SyncOutboxEntryV| #[trigger] pending_entries(s).contains(e)
            <==> (s.contains(e) && e.status != OutboxStatus::Sent),
    decreases s.len(),
{
    if s.len() > 0 {
        let t = s.drop_last();
        lemma_pending_contains(t);
        assert forall|e: SyncOutboxEntryV| #[trigger] pending_entries(s).contains(e)
            <==> (s.contains(e) && e.status != OutboxStatus::Sent) by {
            let p = pending_entries(t);
            if pending_entries(s).contains(e) {
                let j = choose|j: int| 0 <= j < pending_entries(s).len() && pending_entries(s)[j] == e;
                if s.last().status != OutboxStatus::Sent && j == p.len() {
                    assert(s[s.len() - 1] == e);
                } else {
                    assert(p[j] == e);
                    assert(p.contains(e));
                    let q = choose|q: int| 0 <= q < t.len() && t[q] == e;
                    assert(s[q] == e);
                }
            }
            if s.contains(e) && e.status != OutboxStatus::Sent {
                let q = choose|q: int| 0 <= q < s.len() && s[q] == e;
                if q == s.len() - 1 {
                    assert(pending_entries(s)[p.len() as int] == e);
                } else {
                    assert(t[q] == e);
                    assert(p.contains(e));
                    let j = choose|j: int| 0 <= j < p.len() && p[j] == e;
                    assert(pending_entries(s)[j] == e);
                }
            }
        }
    }
}

/// A queued event waits for delivery behind those queued before it.
pub proof fn law_enqueued_event_is_pending(d: DatabaseV, event_type: Seq<char>, payload: Seq<char>)
    ensures
        pending_entries(enqueue_result(d, event_type, payload).outbox) == pending_entries(d.outbox).push(
            SyncOutboxEntryV { id: d.next_outbox_id, event_type, payload, status: OutboxStatus::Pending, last_error: None },
        ),
{
    assert(enqueue_result(d, event_type, payload).outbox.drop_last() =~= d.outbox);
}

/// A delivered entry is no longer pending; marking it changes nothing else
/// of what is pending. A refused entry stays pending, with its error.
pub proof fn law_delivery_marks(d: DatabaseV, id: i64, error: Seq<char>)
    ensures
        forall|e: SyncOutboxEntryV| #[trigger] pending_entries(mark_entries(d.outbox, id, OutboxStatus::Sent, None)).contains(e)
            <==> (pending_entries(d.outbox).contains(e) && e.id != id),
        forall|e: SyncOutboxEntryV| pending_entries(d.outbox).contains(e) && e.id == id ==>
            #[trigger] pending_entries(mark_entries(d.outbox, id, OutboxStatus::Failed, Some(error))).contains(
                SyncOutboxEntryV { status: OutboxStatus::Failed, last_error: Some(error), ..e },
            ),
{
    let s = d.outbox;
    let sent = mark_entries(s, id, OutboxStatus::Sent, None);
    let failed = mark_entries(s, id, OutboxStatus::Failed, Some(error));
    lemma_pending_contains(s);
    lemma_pending_contains(sent);
    lemma_pending_contains(failed);
    assert forall|e: SyncOutboxEntryV| #[trigger] pending_entries(sent).contains(e)
        <==> (pending_entries(s).contains(e) && e.id != id) by {
        if sent.contains(e) && e.status != OutboxStatus::Sent {
            let q = choose|q: int| 0 <= q < sent.len() && sent[q] == e;
            assert(s[q] == e);
        }
        if s.contains(e) && e.status != OutboxStatus::Sent && e.id != id {
            let q = choose|q: int| 0 <= q < s.len() && s[q] == e;
            assert(sent[q] == e);
        }
    }
    assert forall|e: SyncOutboxEntryV| pending_entries(s).contains(e) && e.id == id implies
        #[trigger] pending_entries(failed).contains(SyncOutboxEntryV { status: OutboxStatus::Failed, last_error: Some(error), ..e }) by {
        let q = choose|q: int| 0 <= q < s.len() && s[q] == e;
        assert(failed[q] == SyncOutboxEntryV { status: OutboxStatus::Failed, last_error: Some(error), ..e });
    }
}

/// The units of product `id` in a cart, over all its lines.
pub open spec fn units_in_cart(items: Seq<CartItemV>, id: i32) -> int
    decreases items.len(),
{
    if items.len() == 0 {
        0
    } else {
        units_in_cart(items.drop_last(), id) + if items.last().id == id { items.last().quantity as int } else { 0 }
    }
}

proof fn lemma_units_in_cart_absent(items: Seq<CartItemV>, id: i32)
    requires
        forall|j: int| 0 <= j < items.len() ==> (#[trigger] items[j]).id != id,
    ensures
        units_in_cart(items, id) == 0,
    decreases items.len(),
{
    if items.len() > 0 {
        let s = items.drop_last();
        assert forall|j: int| 0 <= j < s.len() implies (#[trigger] s[j]).id != id by {
            assert(s[j] == items[j]);
        }
        lemma_units_in_cart_absent(s, id);
        assert(items[items.len() - 1] == items.last());
    }
}

/// Each per-product total of a cart belongs to a product of the cart, comes
/// once, and holds all the units of that product in the cart.
proof fn lemma_cart_totals_facts(items: Seq<CartItemV>)
    requires
        cart_totals_fit(items),
    ensures
        forall|k: int| 0 <= k < cart_totals(items).len() ==> {
            &&& (#[trigger] cart_totals(items)[k]).1 == units_in_cart(items, cart_totals(items)[k].0)
            &&& exists|j: int| 0 <= j < items.len() && (#[trigger] items[j]).id == cart_totals(items)[k].0
            &&& total_index(cart_totals(items), cart_totals(items)[k].0) == k
        },
    decreases items.len(),
{
    let t = cart_totals(items);
    if items.len() > 0 {
        let s = items.drop_last();
        let x = items.last();
        let t0 = cart_totals(s);
        lemma_cart_totals_facts(s);
        let k0 = total_index(t0, x.id);
        lemma_total_index_found(t0, x.id);
        assert(items[items.len() - 1] == x);
        if k0 >= 0 {
            let t1 = t0.update(k0, (x.id, (t0[k0].1 + x.quantity) as i32));
            assert(t == t1);
            assert forall|k: int| 0 <= k < t.len() implies {
                &&& (#[trigger] t[k]).1 == units_in_cart(items, t[k].0)
                &&& exists|j: int| 0 <= j < items.len() && (#[trigger] items[j]).id == t[k].0
                &&& total_index(t, t[k].0) == k
            } by {
                assert forall|i: int| 0 <= i < t1.len() implies (#[trigger] t1[i]).0 == t0[i].0 by {}
                lemma_total_index_same_keys(t1, t0, t[k].0);
                let j = choose|j: int| 0 <= j < s.len() && (#[trigger] s[j]).id == t0[k].0;
                assert(items[j] == s[j]);
                if k != k0 {
                    assert(t0[k].0 != x.id);
                }
            }
        } else {
            let t1 = t0.push((x.id, x.quantity));
            assert(t == t1);
            assert(t1.drop_last() =~= t0);
            assert forall|j: int| 0 <= j < s.len() implies (#[trigger] s[j]).id != x.id by {
                if s[j].id == x.id {
                    lemma_cart_item_has_total(s, j);
                }
            }
            lemma_units_in_cart_absent(s, x.id);
            assert forall|k: int| 0 <= k < t.len() implies {
                &&& (#[trigger] t[k]).1 == units_in_cart(items, t[k].0)
                &&& exists|j: int| 0 <= j < items.len() && (#[trigger] items[j]).id == t[k].0
                &&& total_index(t, t[k].0) == k
            } by {
                if k < t0.len() {
                    let j = choose|j: int| 0 <= j < s.len() && (#[trigger] s[j]).id == t0[k].0;
                    assert(items[j] == s[j]);
                    assert(t0[k].0 != x.id);
                } else {
                    lemma_total_index_found(t0, x.id);
                }
            }
        }
    }
}

proof fn lemma_quota_error_none(d: DatabaseV, t: Seq<(i32, i32)>)
    requires
        forall|k: int| 0 <= k < t.len() ==> product_index(d.products, (#[trigger] t[k]).0) >= 0
            && (d.products[product_index(d.products, t[k].0)].sales_limit matches Some(l)
                ==> d.products[product_index(d.products, t[k].0)].sales_used + t[k].1 <= l),
    ensures
        quota_error(d, t) is None,
    decreases t.len(),
{
    if t.len() > 0 {
        let r = t.drop_first();
        assert forall|k: int| 0 <= k < r.len() implies product_index(d.products, (#[trigger] r[k]).0) >= 0
            && (d.products[product_index(d.products, r[k].0)].sales_limit matches Some(l)
                ==> d.products[product_index(d.products, r[k].0)].sales_used + r[k].1 <= l) by {
            assert(r[k] == t[k + 1]);
        }
        lemma_quota_error_none(d, r);
        assert(t[0] == t[0]);
    }
}

proof fn lemma_product_index_of_present(ps: Seq<ProductRowV>, id: i32)
    requires
        exists|j: int| 0 <= j < ps.len() && (#[trigger] ps[j]).id == id,
    ensures
        0 <= product_index(ps, id) < ps.len(),
        ps[product_index(ps, id)].id == id,
{
}

/// A checkout succeeds on every cart that is not empty, whose products all
/// exist, and in which every product with a sales limit stays within it
/// (its sales so far plus its units in the cart), given a uuid no stored
/// order has: the quotas of products that are not in the cart play no part.
pub proof fn law_checkout_succeeds_within_quotas(
    d: DatabaseV,
    items: Seq<CartItemV>,
    payment_method: Seq<char>,
    comment: Seq<char>,
    total_cents: i32,
    uuid: Seq<char>,
    created_at: Seq<char>,
)
    requires
        cart_totals_fit(items),
        items.len() > 0,
        forall|j: int| 0 <= j < items.len() ==> exists|i: int| 0 <= i < d.products.len() && (#[trigger] d.products[i]).id == (#[trigger] items[j]).id,
        forall|i: int, j: int| 0 <= i < d.products.len() && 0 <= j < items.len() && (#[trigger] d.products[i]).id == (#[trigger] items[j]).id
            ==> (d.products[i].sales_limit matches Some(l) ==> d.products[i].sales_used + units_in_cart(items, d.products[i].id) <= l),
        forall|o: int| 0 <= o < d.orders.len() ==> (#[trigger] d.orders[o]).uuid != uuid,
    ensures
        checkout_result(d, items, payment_method, comment, total_cents, uuid, created_at).1 is Ok,
{
    let t = cart_totals(items);
    lemma_cart_totals_facts(items);
    assert forall|k: int| 0 <= k < t.len() implies product_index(d.products, (#[trigger] t[k]).0) >= 0
        && (d.products[product_index(d.products, t[k].0)].sales_limit matches Some(l)
            ==> d.products[product_index(d.products, t[k].0)].sales_used + t[k].1 <= l) by {
        let j = choose|j: int| 0 <= j < items.len() && (#[trigger] items[j]).id == t[k].0;
        let i0 = choose|i: int| 0 <= i < d.products.len() && (#[trigger] d.products[i]).id == items[j].id;
        lemma_product_index_of_present(d.products, t[k].0);
        let i = product_index(d.products, t[k].0);
        assert(d.products[i].id == items[j].id);
    }
    lemma_quota_error_none(d, t);
}

/// The tab ids a request names are all positive and all name tabs.
pub open spec fn tab_request_valid(d: DatabaseV, tab_ids: Option<Seq<i32>>) -> bool {
    tab_ids matches Some(t) ==> forall|j: int| 0 <= j < t.len() ==> #[trigger] t[j] > 0 && has_id(d.tabs, t[j])
}

proof fn lemma_valid_tab_request(d: DatabaseV, tab_ids: Option<Seq<i32>>)
    requires
        d.wf(),
        tab_request_valid(d, tab_ids),
    ensures
        normalized_tab_ids(tab_ids) is Ok,
        normalized_tab_ids(tab_ids)->Ok_0.len() > 0,
        forall|j: int| 0 <= j < normalized_tab_ids(tab_ids)->Ok_0.len()
            ==> id_index(d.tabs, #[trigger] normalized_tab_ids(tab_ids)->Ok_0[j]) >= 0,
{
    let e = crate::tab_ids::requested_tab_ids(tab_ids);
    assert forall|j: int| 0 <= j < e.len() implies #[trigger] e[j] > 0 && has_id(d.tabs, e[j]) by {
        if !(tab_ids matches Some(t) && t.len() > 0) {
            assert(e[j] == 1);
        }
    }
    lemma_sorted_set_exists(e);
    let ids = sorted_set(e);
    assert(e.contains(e[0]));
    assert(ids.contains(e[0]));
    assert forall|j: int| 0 <= j < ids.len() implies id_index(d.tabs, #[trigger] ids[j]) >= 0 by {
        assert(ids.contains(ids[j]));
        assert(e.contains(ids[j]));
        let p = choose|p: int| 0 <= p < e.len() && e[p] == ids[j];
        assert(has_id(d.tabs, e[p]));
    }
}

/// Adding a product succeeds whenever its trimmed name is not empty, its
/// price is positive, its sales limit (if any) is not negative, and the tab
/// ids it names (if any) are positive ids of existing tabs, whatever the
/// category (which is created when missing). A sales limit of 0 is a limit
/// like any other.
pub proof fn law_add_product_succeeds_on_valid_input(
    d: DatabaseV,
    name: Seq<char>,
    price: Price,
    category: Option<Seq<char>>,
    tab_ids: Option<Seq<i32>>,
    sales_limit: Option<i32>,
)
    requires
        d.wf(),
        trim(name).len() > 0,
        !price.not_positive,
        sales_limit matches Some(v) ==> v >= 0,
        tab_request_valid(d, tab_ids),
    ensures
        add_product_result(d, name, price, category, tab_ids, sales_limit).1 is Ok,
        add_product_result(d, name, price, category, tab_ids, sales_limit).1->Ok_0.sales_limit == sales_limit,
{
    lemma_valid_tab_request(d, tab_ids);
    let ids = normalized_tab_ids(tab_ids)->Ok_0;
    assert(!any_missing_tab(d, ids));
}

/// Updating an existing product succeeds whenever the fields given are
/// valid: a name that is not empty once trimmed, a positive price, a sales
/// limit that is not negative (whatever has been sold already), and tab ids
/// that are positive ids of existing tabs; any category name is accepted
/// (it is created when missing). Without a new tab selection, the product
/// keeps its tabs, and it must have some.
pub proof fn law_update_product_succeeds_on_valid_input(
    d: DatabaseV,
    id: i32,
    name: Option<Seq<char>>,
    price: Option<Price>,
    category: Option<Seq<char>>,
    tab_ids: Option<Seq<i32>>,
    sales_limit: Option<Option<i32>>,
)
    requires
        d.wf(),
        exists|i: int| 0 <= i < d.products.len() && (#[trigger] d.products[i]).id == id,
        name matches Some(n) ==> trim(n).len() > 0,
        price matches Some(p) ==> !p.not_positive,
        sales_limit matches Some(Some(v)) ==> v >= 0,
        tab_request_valid(d, tab_ids),
        tab_ids is None ==> forall|i: int| 0 <= i < d.products.len() && (#[trigger] d.products[i]).id == id
            ==> d.products[i].tab_ids.len() > 0,
    ensures
        update_product_result(d, id, name, price, category, tab_ids, sales_limit).1 is Ok,
        sales_limit matches Some(l) ==> update_product_result(d, id, name, price, category, tab_ids, sales_limit).1->Ok_0.sales_limit == l,
{
    lemma_product_index_of_present(d.products, id);
    let k = product_index(d.products, id);
    let row = d.products[k];
    let ids: Seq<i32> = match tab_ids {
        Some(t) => normalized_tab_ids(Some(t))->Ok_0,
        None => tab_ids_of(listing(d.tabs, keep_ids(row.tab_ids))),
    };
    if tab_ids is Some {
        lemma_valid_tab_request(d, tab_ids);
    } else {
        let keep = keep_ids(row.tab_ids);
        lemma_listing_exists(d.tabs, keep);
        let l = listing(d.tabs, keep);
        assert(row.tab_ids.len() > 0);
        assert(has_id(d.tabs, row.tab_ids[0]));
        let q = choose|q: int| 0 <= q < d.tabs.len() && #[trigger] d.tabs[q].id == row.tab_ids[0];
        assert(row.tab_ids.contains(row.tab_ids[0]));
        assert(d.tabs.contains(d.tabs[q]));
        assert(l.contains(d.tabs[q]));
        assert forall|j: int| 0 <= j < ids.len() implies id_index(d.tabs, #[trigger] ids[j]) >= 0 by {
            assert(l.contains(l[j]));
            let p = choose|p: int| 0 <= p < d.tabs.len() && d.tabs[p] == l[j];
            assert(d.tabs[p].id == ids[j]);
        }
    }
    assert(ids.len() > 0);
    assert(first_missing_tab(d, ids) < 0);
}

/// Deleting an existing product succeeds, whatever it has sold: the
/// product is gone and every other product stays.
pub proof fn law_delete_existing_product_succeeds(d: DatabaseV, id: i32)
    requires
        d.wf(),
        exists|i: int| 0 <= i < d.products.len() && (#[trigger] d.products[i]).id == id,
    ensures
        delete_product_result(d, id).1 is Ok,
        delete_product_result(d, id).0.products.len() == d.products.len() - 1,
        forall|i: int| 0 <= i < d.products.len() && (#[trigger] d.products[i]).id != id
            ==> delete_product_result(d, id).0.products.contains(d.products[i]),
{
    lemma_product_index_of_present(d.products, id);
    let k = product_index(d.products, id);
    let ps = delete_product_result(d, id).0.products;
    assert(ps == d.products.remove(k));
    assert forall|i: int| 0 <= i < d.products.len() && (#[trigger] d.products[i]).id != id
        implies ps.contains(d.products[i]) by {
        if i < k {
            assert(ps[i] == d.products[i]);
        } else {
            assert(i != k);
            assert(ps[i - 1] == d.products[i]);
        }
    }
}

/// The product listing shows every stored product, in order, with its own
/// stored fields: its name, price, category (and that category's name), its
/// sales limit and its sales so far, and its tabs ordered by name; each
/// entry is what looking the product up by id gives.
pub proof fn law_product_listing_shows_stored_rows(d: DatabaseV)
    requires
        d.wf(),
    ensures
        products_view(d).len() == d.products.len(),
        forall|i: int| 0 <= i < d.products.len() ==> {
            let p = #[trigger] products_view(d)[i];
            let row = d.products[i];
            &&& p.id == row.id
            &&& p.name == row.name
            &&& p.price_cents == row.price_cents
            &&& p.category_id == row.category_id
            &&& p.sales_limit == row.sales_limit
            &&& p.sales_used == row.sales_used
            &&& exists|c: int| 0 <= c < d.categories.len() && (#[trigger] d.categories[c]).id == row.category_id
                && d.categories[c].name == p.category_name
            &&& is_listing(p.tabs, d.tabs, keep_ids(row.tab_ids))
            &&& get_product_result(d, row.id) == Ok::<ProductV, Seq<char>>(p)
        },
{
    assert forall|i: int| 0 <= i < d.products.len() implies {
        let p = #[trigger] products_view(d)[i];
        let row = d.products[i];
        &&& p.id == row.id
        &&& p.name == row.name
        &&& p.price_cents == row.price_cents
        &&& p.category_id == row.category_id
        &&& p.sales_limit == row.sales_limit
        &&& p.sales_used == row.sales_used
        &&& exists|c: int| 0 <= c < d.categories.len() && (#[trigger] d.categories[c]).id == row.category_id
            && d.categories[c].name == p.category_name
        &&& is_listing(p.tabs, d.tabs, keep_ids(row.tab_ids))
        &&& get_product_result(d, row.id) == Ok::<ProductV, Seq<char>>(p)
    } by {
        let row = d.products[i];
        assert(has_id(d.categories, row.category_id));
        let c = id_index(d.categories, row.category_id);
        assert(d.categories[c].id == row.category_id);
        lemma_listing_exists(d.tabs, keep_ids(row.tab_ids));
        lemma_product_index(d.products, row.id, i);
    }
}

} // verus!
