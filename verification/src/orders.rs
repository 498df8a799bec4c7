//! Checkout with sales quotas, the order history, and sales counts.

use vstd::prelude::*;
use crate::database::{
    audit, log, product_index, product_ids_increasing, row_views, order_views, audit_views, AuditAction,
    AuditEntry, AuditRecord, AuditRecordV, AuditTable, Database, DatabaseV, ProductRowV, find_product,
};
use crate::models::{CartItem, CartItemV, Order, OrderItem, OrderItemV, OrderV, ProductSalesCount, ProductSalesCountV};
use crate::text::{i64_to_string, int_text, push_str};
use crate::database::has_id;

verus! {

/// The index of the first total for product `id`, or -1.
pub open spec fn total_index(t: Seq<(i32, i32)>, id: i32) -> int
    decreases t.len(),
{
    if t.len() == 0 {
        -1
    } else {
        let k = total_index(t.drop_last(), id);
        if k >= 0 {
            k
        } else if t.last().0 == id {
            t.len() - 1
        } else {
            -1
        }
    }
}

proof fn lemma_total_index(t: Seq<(i32, i32)>, id: i32, k: int)
    requires
        0 <= k <= t.len(),
        forall|j: int| 0 <= j < k ==> (#[trigger] t[j]).0 != id,
        k < t.len() ==> t[k].0 == id,
    ensures
        total_index(t, id) == if k < t.len() { k } else { -1 },
    decreases t.len(),
{
    if t.len() > 0 {
        let s = t.drop_last();
        if k < t.len() - 1 {
            assert(s[k] == t[k]);
            lemma_total_index(s, id, k);
        } else {
            assert forall|j: int| 0 <= j < s.len() implies (#[trigger] s[j]).0 != id by {
                assert(s[j] == t[j]);
            }
            lemma_total_index(s, id, s.len() as int);
        }
    }
}

/// The total quantity per product of a cart, in the order in which the
/// products first appear.
pub open spec fn cart_totals(items: Seq<CartItemV>) -> Seq<(i32, i32)>
    decreases items.len(),
{
    if items.len() == 0 {
        Seq::empty()
    } else {
        let t = cart_totals(items.drop_last());
        let x = items.last();
        let k = total_index(t, x.id);
        if k >= 0 {
            t.update(k, (x.id, (t[k].1 + x.quantity) as i32))
        } else {
            t.push((x.id, x.quantity))
        }
    }
}

/// Summing the cart's quantities per product never leaves the range of
/// `i32`.
pub open spec fn cart_totals_fit(items: Seq<CartItemV>) -> bool
    decreases items.len(),
{
    if items.len() == 0 {
        true
    } else {
        let t = cart_totals(items.drop_last());
        let x = items.last();
        let k = total_index(t, x.id);
        &&& cart_totals_fit(items.drop_last())
        &&& k >= 0 ==> i32::MIN <= t[k].1 + x.quantity <= i32::MAX
    }
}

/// The total quantity of product `id` in a cart.
pub open spec fn qty_in_cart(items: Seq<CartItemV>, id: i32) -> int {
    let t = cart_totals(items);
    let k = total_index(t, id);
    if k >= 0 {
        t[k].1 as int
    } else {
        0
    }
}

/// The first reason, going through the cart's products in order, why the
/// cart cannot be sold: an unknown product, or a product whose sales limit
/// the sale would exceed.
pub open spec fn quota_error(d: DatabaseV, t: Seq<(i32, i32)>) -> Option<Seq<char>>
    decreases t.len(),
{
    if t.len() == 0 {
        None
    } else {
        let id = t[0].0;
        let q = t[0].1;
        let k = product_index(d.products, id);
        if k < 0 {
            Some("Product not found: "@ + int_text(id as int))
        } else if d.products[k].sales_limit matches Some(l) && d.products[k].sales_used + q > l {
            Some("Sales limit exceeded for product "@ + d.products[k].name)
        } else {
            quota_error(d, t.drop_first())
        }
    }
}

/// The arithmetic of a checkout stays within `i32`: the cart's totals, and
/// every product's sales count after the sale.
pub open spec fn checkout_in_range(d: DatabaseV, items: Seq<CartItemV>) -> bool {
    &&& cart_totals_fit(items)
    &&& forall|i: int| 0 <= i < d.products.len() ==>
        i32::MIN <= (#[trigger] d.products[i]).sales_used + qty_in_cart(items, d.products[i].id) <= i32::MAX
}

/// The products after a sale of `items`: each product's sales count grows
/// by the quantity of it in the cart.
pub open spec fn record_sales(ps: Seq<ProductRowV>, items: Seq<CartItemV>) -> Seq<ProductRowV> {
    Seq::new(ps.len(), |i: int| ProductRowV { sales_used: (ps[i].sales_used + qty_in_cart(items, ps[i].id)) as i32, ..ps[i] })
}

/// The lines of the order for a cart.
pub open spec fn order_lines(items: Seq<CartItemV>) -> Seq<OrderItemV> {
    Seq::new(items.len(), |i: int| OrderItemV { name: items[i].name, price_cents: items[i].price_cents, quantity: items[i].quantity })
}

/// Some stored order has this uuid.
pub open spec fn uuid_taken(d: DatabaseV, uuid: Seq<char>) -> bool {
    exists|i: int| 0 <= i < d.orders.len() && #[trigger] d.orders[i].uuid == uuid
}

/// Checking out a cart: the cart must not be empty; every product in it
/// must exist and stay within its sales limit; the order's uuid must be
/// new. The order gets the next id and the cart's lines, every product's
/// sales count grows by its quantity in the cart, and the sale is audited.
pub open spec fn checkout_result(
    d: DatabaseV,
    items: Seq<CartItemV>,
    payment_method: Seq<char>,
    comment: Seq<char>,
    total_cents: i32,
    uuid: Seq<char>,
    created_at: Seq<char>,
) -> (DatabaseV, Result<OrderV, Seq<char>>) {
    let qe = quota_error(d, cart_totals(items));
    if items.len() == 0 {
        (d, Err("Cart is empty"@))
    } else if qe is Some {
        (d, Err(qe->Some_0))
    } else if uuid_taken(d, uuid) {
        (d, Err("UNIQUE constraint failed: orders.uuid"@))
    } else {
        let o = OrderV {
            id: d.next_order_id,
            uuid,
            created_at,
            total_cents,
            payment_method,
            items: order_lines(items),
            comment,
        };
        let d1 = DatabaseV {
            orders: d.orders.push(o),
            next_order_id: (d.next_order_id + 1) as i64,
            products: record_sales(d.products, items),
            ..d
        };
        (log(d1, audit(AuditAction::Insert, AuditTable::Orders, uuid, None, Some(AuditRecordV::Order(o)))), Ok(o))
    }
}

/// Finds the first total for product `id`.
fn find_total(t: &Vec<(i32, i32)>, id: i32) -> (r: Option<usize>)
    ensures
        match r {
            Some(k) => k < t@.len() && total_index(t@, id) == k,
            None => total_index(t@, id) == -1,
        },
{
    let mut i: usize = 0;
    while i < t.len()
        invariant
            0 <= i <= t@.len(),
            forall|j: int| 0 <= j < i ==> (#[trigger] t@[j]).0 != id,
        decreases t@.len() - i,
    {
        if t[i].0 == id {
            proof {
                lemma_total_index(t@, id, i as int);
            }
            return Some(i);
        }
        i = i + 1;
    }
    proof {
        lemma_total_index(t@, id, t@.len() as int);
    }
    None
}

/// The per-product totals of a cart, or `None` when summing them leaves
/// the range of `i32`.
pub fn cart_totals_checked(items: &Vec<CartItem>) -> (r: Option<Vec<(i32, i32)>>)
    ensures
        r is Some <==> cart_totals_fit(items.deep_view()),
        r matches Some(t) ==> t@ == cart_totals(items.deep_view()),
{
    let ghost all = items.deep_view();
    let mut t: Vec<(i32, i32)> = Vec::new();
    let mut i: usize = 0;
    while i < items.len()
        invariant
            0 <= i <= items@.len(),
            all == items.deep_view(),
            t@ == cart_totals(all.take(i as int)),
            cart_totals_fit(all.take(i as int)),
        decreases items@.len() - i,
    {
        let x = &items[i];
        let ghost pre = all.take(i as int);
        let ghost next = all.take(i + 1);
        assert(next.drop_last() =~= pre);
        assert(next.last() == x@);
        match find_total(&t, x.id) {
            Some(k) => {
                match t[k].1.checked_add(x.quantity) {
                    Some(v) => {
                        t.set(k, (x.id, v));
                    },
                    None => {
                        proof {
                            assert(!cart_totals_fit(next));
                            lemma_fit_prefix(all, i + 1);
                            assert(all.take(all.len() as int) =~= all);
                        }
                        return None;
                    },
                }
            },
            None => {
                t.push((x.id, x.quantity));
            },
        }
        i = i + 1;
    }
    assert(all.take(i as int) =~= all);
    Some(t)
}

proof fn lemma_fit_prefix(all: Seq<CartItemV>, n: int)
    requires
        0 <= n <= all.len(),
        !cart_totals_fit(all.take(n)),
    ensures
        !cart_totals_fit(all),
    decreases all.len() - n,
{
    if n < all.len() {
        assert(all.take(n + 1).drop_last() =~= all.take(n));
        lemma_fit_prefix(all, n + 1);
    } else {
        assert(all.take(n) =~= all);
    }
}

/// Whether a checkout's arithmetic stays within `i32` (see
/// `checkout_in_range`).
pub fn checkout_fits(db: &Database, items: &Vec<CartItem>) -> (r: bool)
    ensures
        r == checkout_in_range(db@, items.deep_view()),
{
    let ghost d = db@;
    let t = match cart_totals_checked(items) {
        Some(t) => t,
        None => return false,
    };
    let mut i: usize = 0;
    while i < db.products.len()
        invariant
            0 <= i <= db.products@.len(),
            d == db@,
            t@ == cart_totals(items.deep_view()),
            forall|j: int| 0 <= j < i ==>
                i32::MIN <= (#[trigger] d.products[j]).sales_used + qty_in_cart(items.deep_view(), d.products[j].id) <= i32::MAX,
        decreases db.products@.len() - i,
    {
        let row = &db.products[i];
        assert(d.products[i as int] == row@);
        match find_total(&t, row.id) {
            Some(k) => {
                if row.sales_used.checked_add(t[k].1).is_none() {
                    return false;
                }
            },
            None => {},
        }
        i = i + 1;
    }
    true
}

/// Converts a cart to the lines of its order.
pub fn order_items_from_cart(items: &Vec<CartItem>) -> (r: Vec<OrderItem>)
    ensures
        r.deep_view() == order_lines(items.deep_view()),
{
    let mut r: Vec<OrderItem> = Vec::new();
    let mut i: usize = 0;
    while i < items.len()
        invariant
            0 <= i <= items@.len(),
            r@.len() == i,
            forall|j: int| 0 <= j < i ==> #[trigger] r@[j]@ == order_lines(items.deep_view())[j],
        decreases items@.len() - i,
    {
        let x = &items[i];
        r.push(OrderItem { name: x.name.clone(), price_cents: x.price_cents, quantity: x.quantity });
        i = i + 1;
    }
    assert(r.deep_view() =~= order_lines(items.deep_view()));
    r
}

/// Whether some stored order has this uuid.
fn has_uuid(db: &Database, uuid: &String) -> (r: bool)
    ensures
        r == uuid_taken(db@, uuid@),
{
    let mut i: usize = 0;
    while i < db.orders.len()
        invariant
            0 <= i <= db.orders@.len(),
            forall|j: int| 0 <= j < i ==> (#[trigger] db@.orders[j]).uuid != uuid@,
        decreases db.orders@.len() - i,
    {
        assert(db@.orders[i as int] == db.orders@[i as int]@);
        if db.orders[i].uuid == *uuid {
            assert(db@.orders[i as int].uuid == uuid@);
            return true;
        }
        i = i + 1;
    }
    false
}

/// Checks the cart's products against the stored products.
fn check_quotas(db: &Database, t: &Vec<(i32, i32)>) -> (r: Option<String>)
    requires
        product_ids_increasing(db@.products),
    ensures
        match r {
            Some(e) => quota_error(db@, t@) == Some(e@),
            None => quota_error(db@, t@) is None,
        },
{
    let ghost d = db@;
    assert(t@.skip(0) =~= t@);
    let mut i: usize = 0;
    while i < t.len()
        invariant
            0 <= i <= t@.len(),
            d == db@,
            product_ids_increasing(d.products),
            quota_error(d, t@) == quota_error(d, t@.skip(i as int)),
        decreases t@.len() - i,
    {
        let ghost rest = t@.skip(i as int);
        assert(rest[0] == t@[i as int]);
        assert(rest.drop_first() =~= t@.skip(i + 1));
        let (id, q) = t[i];
        match find_product(&db.products, id) {
            None => {
                let mut msg = String::from_str("Product not found: ");
                let number = i64_to_string(id as i64);
                push_str(&mut msg, number.as_str());
                return Some(msg);
            },
            Some(k) => {
                let row = &db.products[k];
                assert(d.products[k as int] == row@);
                match row.sales_limit {
                    Some(limit) => {
                        if row.sales_used as i64 + q as i64 > limit as i64 {
                            let mut msg = String::from_str("Sales limit exceeded for product ");
                            push_str(&mut msg, row.name.as_str());
                            return Some(msg);
                        }
                    },
                    None => {},
                }
            },
        }
        i = i + 1;
    }
    assert(t@.skip(i as int) =~= Seq::<(i32, i32)>::empty());
    None
}

/// The view of a result that carries an order.
pub open spec fn order_result(r: Result<Order, String>) -> Result<OrderV, Seq<char>> {
    match r {
        Ok(o) => Ok(o@),
        Err(e) => Err(e@),
    }
}

/// Checks out a cart (see `checkout_result`) as an order with the given
/// total, uuid and creation time.
pub fn checkout_with(
    db: &mut Database,
    items: Vec<CartItem>,
    payment_method: String,
    comment: String,
    total_cents: i32,
    uuid: String,
    created_at: String,
) -> (r: Result<Order, String>)
    requires
        old(db)@.wf(),
        old(db)@.has_room(),
        checkout_in_range(old(db)@, items.deep_view()),
    ensures
        final(db)@.wf(),
        (final(db)@, order_result(r)) == checkout_result(
            old(db)@,
            items.deep_view(),
            payment_method@,
            comment@,
            total_cents,
            uuid@,
            created_at@,
        ),
        r is Err ==> final(db)@ == old(db)@,
{
    let ghost d = db@;
    let ghost iv = items.deep_view();
    if items.len() == 0 {
        return Err(String::from_str("Cart is empty"));
    }
    let totals = cart_totals_checked(&items).unwrap();
    match check_quotas(db, &totals) {
        Some(e) => return Err(e),
        None => {},
    }
    if has_uuid(db, &uuid) {
        return Err(String::from_str("UNIQUE constraint failed: orders.uuid"));
    }
    let mut i: usize = 0;
    while i < db.products.len()
        invariant
            0 <= i <= db.products@.len(),
            db.products@.len() == d.products.len(),
            totals@ == cart_totals(iv),
            checkout_in_range(d, iv),
            forall|j: int| 0 <= j < i ==> #[trigger] row_views(db.products@)[j] == record_sales(d.products, iv)[j],
            forall|j: int| i <= j < d.products.len() ==> #[trigger] row_views(db.products@)[j] == d.products[j],
            db.categories@ == old(db).categories@,
            db.tabs@ == old(db).tabs@,
            db.orders@ == old(db).orders@,
            db.audit_log@ == old(db).audit_log@,
            db.next_category_id == old(db).next_category_id,
            db.next_tab_id == old(db).next_tab_id,
            db.next_product_id == old(db).next_product_id,
            db.next_order_id == old(db).next_order_id,
            db.outbox@ == old(db).outbox@,
            db.next_outbox_id == old(db).next_outbox_id,
            d == old(db)@,
        decreases db.products@.len() - i,
    {
        assert(row_views(db.products@)[i as int] == d.products[i as int]);
        let ghost before = db.products@;
        let pid = db.products[i].id;
        match find_total(&totals, pid) {
            Some(k) => {
                assert(i32::MIN <= d.products[i as int].sales_used + qty_in_cart(iv, d.products[i as int].id) <= i32::MAX);
                let mut row = db.products[i].duplicate();
                row.sales_used = row.sales_used + totals[k].1;
                db.products.set(i, row);
            },
            None => {},
        }
        proof {
            assert forall|j: int| 0 <= j < db.products@.len() && j != i implies db.products@[j] == before[j] by {}
            assert(row_views(db.products@)[i as int] == record_sales(d.products, iv)[i as int]);
            assert forall|j: int| 0 <= j < i implies #[trigger] row_views(db.products@)[j] == record_sales(d.products, iv)[j] by {
                assert(row_views(db.products@)[j] == row_views(before)[j]);
            }
            assert forall|j: int| i < j < d.products.len() implies #[trigger] row_views(db.products@)[j] == d.products[j] by {
                assert(row_views(db.products@)[j] == row_views(before)[j]);
            }
        }
        i = i + 1;
    }
    assert(row_views(db.products@) =~= record_sales(d.products, iv));
    let order = Order {
        id: db.next_order_id,
        uuid,
        created_at,
        total_cents,
        payment_method,
        items: order_items_from_cart(&items),
        comment,
    };
    db.orders.push(order.duplicate());
    db.next_order_id = db.next_order_id + 1;
    db.audit_log.push(AuditEntry {
        action: AuditAction::Insert,
        table: AuditTable::Orders,
        record_id: order.uuid.clone(),
        old_values: None,
        new_values: Some(AuditRecord::Order(order.duplicate())),
    });
    proof {
        let rv = row_views(db.products@);
        assert(order_views(db.orders@) =~= d.orders.push(order@));
        assert(audit_views(db.audit_log@) =~= d.audit_log.push(
            audit(AuditAction::Insert, AuditTable::Orders, order.uuid@, None, Some(AuditRecordV::Order(order@))),
        ));
        assert forall|a: int, b: int| 0 <= a < b < rv.len() implies #[trigger] rv[a].id < #[trigger] rv[b].id by {
            assert(d.products[a].id < d.products[b].id);
        }
        assert forall|a: int| 0 <= a < rv.len() implies #[trigger] rv[a].id < db@.next_product_id by {
            assert(d.products[a].id < d.next_product_id);
        }
        assert forall|a: int| #![trigger rv[a]] 0 <= a < rv.len() implies {
            &&& has_id(db@.categories, rv[a].category_id)
            &&& has_id(db@.tabs, rv[a].tab_id)
        } by {
            assert(rv[a].category_id == d.products[a].category_id);
        }
        let os = db@.orders;
        assert forall|a: int, b: int| 0 <= a < b < os.len() implies #[trigger] os[a].id < #[trigger] os[b].id by {
            if b < d.orders.len() {
                assert(d.orders[a].id < d.orders[b].id);
            } else {
                assert(d.orders[a].id < d.next_order_id);
            }
        }
        assert forall|a: int| 0 <= a < os.len() implies #[trigger] os[a].id < db@.next_order_id by {
            if a < d.orders.len() {
                assert(d.orders[a].id < d.next_order_id);
            }
        }
    }
    Ok(order)
}


/// A lower-case hexadecimal digit.
pub open spec fn is_lower_hex(c: char) -> bool {
    ('0' as u32 <= c as u32 <= '9' as u32) || ('a' as u32 <= c as u32 <= 'f' as u32)
}

/// The hyphenated text of a random (version 4) uuid: 36 characters, hyphens
/// at positions 8, 13, 18 and 23, lower-case hexadecimal digits elsewhere,
/// the version digit `4` at position 14 and one of `8`, `9`, `a`, `b` (the
/// variant) at position 19.
pub open spec fn is_uuid_v4_text(s: Seq<char>) -> bool {
    &&& s.len() == 36
    &&& forall|i: int| 0 <= i < 36 ==> if i == 8 || i == 13 || i == 18 || i == 23 {
        #[trigger] s[i] == '-'
    } else {
        is_lower_hex(s[i])
    }
    &&& s[14] == '4'
    &&& (s[19] == '8' || s[19] == '9' || s[19] == 'a' || s[19] == 'b')
}

/// The RFC 3339 text of a time in UTC: at least the 25 characters of
/// `YYYY-MM-DDTHH:MM:SS+00:00`, ending with the offset `+00:00`.
pub open spec fn is_utc_rfc3339_text(s: Seq<char>) -> bool {
    &&& s.len() >= 25
    &&& s.subrange(s.len() - 6, s.len() as int) == "+00:00"@
}

/// Draws a fresh order uuid.
///
/// Calls `uuid::Uuid::new_v4` and writes the uuid in its hyphenated form
/// (`Display`, lower-case). The uuid is random; the contract claims only
/// the shape of its text (`is_uuid_v4_text`): the hyphenated layout and the
/// version and variant digits that `new_v4` sets.
#[verifier::external_body]
fn new_order_uuid() -> (r: String)
    ensures
        is_uuid_v4_text(r@),
{
    uuid::Uuid::new_v4().to_string()
}

/// The current time in RFC 3339 form.
///
/// Calls `chrono::Utc::now` and writes the time with `to_rfc3339`. The time
/// depends on the clock; the contract claims only the shape of its text
/// (`is_utc_rfc3339_text`): at least a date, a time and the UTC offset
/// `+00:00`, which `to_rfc3339` writes for UTC.
#[verifier::external_body]
fn now_rfc3339() -> (r: String)
    ensures
        is_utc_rfc3339_text(r@),
{
    chrono::Utc::now().to_rfc3339()
}

/// The message for a cart whose sums would leave the range of `i32`.
pub open spec fn overflow_message() -> Seq<char> {
    "integer overflow"@
}

/// Checks out a cart (see `checkout_result`): the order gets a fresh uuid
/// and the current time, and the given total (the cart's total in cents).
/// A cart whose quantities, summed per product or added to a product's
/// sales so far, would leave the range of `i32` is refused with "integer
/// overflow". A refused checkout changes nothing.
pub fn checkout_with_pool(
    db: &mut Database,
    items: Vec<CartItem>,
    payment_method: String,
    comment: String,
    total_cents: i32,
) -> (r: Result<Order, String>)
    requires
        old(db)@.wf(),
        old(db)@.has_room(),
    ensures
        final(db)@.wf(),
        !checkout_in_range(old(db)@, items.deep_view()) ==> (r matches Err(e) && e@ == overflow_message()),
        checkout_in_range(old(db)@, items.deep_view()) ==> exists|uuid: Seq<char>, created_at: Seq<char>| {
            &&& is_uuid_v4_text(uuid)
            &&& is_utc_rfc3339_text(created_at)
            &&& (final(db)@, order_result(r)) == #[trigger] checkout_result(
                old(db)@,
                items.deep_view(),
                payment_method@,
                comment@,
                total_cents,
                uuid,
                created_at,
            )
        },
        r matches Ok(o) ==> is_uuid_v4_text(o.uuid@) && is_utc_rfc3339_text(o.created_at@) && o.total_cents == total_cents,
        r is Err ==> final(db)@ == old(db)@,
{
    if !checkout_fits(db, &items) {
        return Err(String::from_str("integer overflow"));
    }
    let uuid = new_order_uuid();
    let created_at = now_rfc3339();
    let ghost u = uuid@;
    let ghost t = created_at@;
    let ghost iv = items.deep_view();
    let ghost pm = payment_method@;
    let ghost cm = comment@;
    let r = checkout_with(db, items, payment_method, comment, total_cents, uuid, created_at);
    assert((db@, order_result(r)) == checkout_result(old(db)@, iv, pm, cm, total_cents, u, t));
    r
}

/// The orders, newest first.
pub open spec fn newest_first(orders: Seq<OrderV>) -> Seq<OrderV> {
    Seq::new(orders.len(), |i: int| orders[orders.len() - 1 - i])
}

/// Lists the orders, newest first.
pub fn get_orders_with_pool(db: &Database) -> (r: Vec<Order>)
    ensures
        r.deep_view() == newest_first(db@.orders),
{
    let ghost os = db@.orders;
    let n = db.orders.len();
    let mut r: Vec<Order> = Vec::new();
    let mut i: usize = 0;
    while i < n
        invariant
            0 <= i <= n,
            n == db.orders@.len(),
            os == db@.orders,
            r@.len() == i,
            forall|j: int| 0 <= j < i ==> #[trigger] r@[j]@ == newest_first(os)[j],
        decreases n - i,
    {
        let o = &db.orders[n - 1 - i];
        assert(os[n - 1 - i] == o@);
        r.push(o.duplicate());
        i = i + 1;
    }
    assert(r.deep_view() =~= newest_first(os));
    r
}

/// The lines of a list of orders, one order after the other.
pub open spec fn sold_items(orders: Seq<OrderV>) -> Seq<OrderItemV>
    decreases orders.len(),
{
    if orders.len() == 0 {
        Seq::empty()
    } else {
        sold_items(orders.drop_last()) + orders.last().items
    }
}

/// The index of the first count for product `name`, or -1.
pub open spec fn count_index(c: Seq<ProductSalesCountV>, name: Seq<char>) -> int
    decreases c.len(),
{
    if c.len() == 0 {
        -1
    } else {
        let k = count_index(c.drop_last(), name);
        if k >= 0 {
            k
        } else if c.last().product_name == name {
            c.len() - 1
        } else {
            -1
        }
    }
}

proof fn lemma_count_index(c: Seq<ProductSalesCountV>, name: Seq<char>, k: int)
    requires
        0 <= k <= c.len(),
        forall|j: int| 0 <= j < k ==> (#[trigger] c[j]).product_name != name,
        k < c.len() ==> c[k].product_name == name,
    ensures
        count_index(c, name) == if k < c.len() { k } else { -1 },
    decreases c.len(),
{
    if c.len() > 0 {
        let s = c.drop_last();
        if k < c.len() - 1 {
            assert(s[k] == c[k]);
            lemma_count_index(s, name, k);
        } else {
            assert forall|j: int| 0 <= j < s.len() implies (#[trigger] s[j]).product_name != name by {
                assert(s[j] == c[j]);
            }
            lemma_count_index(s, name, s.len() as int);
        }
    }
}

/// Units sold per product name, in the order in which the names first
/// appear.
pub open spec fn sales_counts(items: Seq<OrderItemV>) -> Seq<ProductSalesCountV>
    decreases items.len(),
{
    if items.len() == 0 {
        Seq::empty()
    } else {
        let c = sales_counts(items.drop_last());
        let x = items.last();
        let k = count_index(c, x.name);
        if k >= 0 {
            c.update(k, ProductSalesCountV { product_name: x.name, count: (c[k].count + x.quantity) as i32 })
        } else {
            c.push(ProductSalesCountV { product_name: x.name, count: x.quantity })
        }
    }
}

/// Summing the units sold per name never leaves the range of `i32`.
pub open spec fn sales_counts_fit(items: Seq<OrderItemV>) -> bool
    decreases items.len(),
{
    if items.len() == 0 {
        true
    } else {
        let c = sales_counts(items.drop_last());
        let x = items.last();
        let k = count_index(c, x.name);
        &&& sales_counts_fit(items.drop_last())
        &&& k >= 0 ==> i32::MIN <= c[k].count + x.quantity <= i32::MAX
    }
}

proof fn lemma_counts_fit_prefix(all: Seq<OrderItemV>, n: int)
    requires
        0 <= n <= all.len(),
        !sales_counts_fit(all.take(n)),
    ensures
        !sales_counts_fit(all),
    decreases all.len() - n,
{
    if n < all.len() {
        assert(all.take(n + 1).drop_last() =~= all.take(n));
        lemma_counts_fit_prefix(all, n + 1);
    } else {
        assert(all.take(n) =~= all);
    }
}

proof fn lemma_sold_items_split(os: Seq<OrderV>, n: int)
    requires
        0 <= n < os.len(),
    ensures
        sold_items(os.take(n + 1)) == sold_items(os.take(n)) + os[n].items,
{
    assert(os.take(n + 1).drop_last() =~= os.take(n));
}

/// Finds the first count for product `name`.
fn find_count(c: &Vec<ProductSalesCount>, name: &String) -> (r: Option<usize>)
    ensures
        match r {
            Some(k) => k < c@.len() && count_index(c.deep_view(), name@) == k,
            None => count_index(c.deep_view(), name@) == -1,
        },
{
    let ghost cv = c.deep_view();
    let mut i: usize = 0;
    while i < c.len()
        invariant
            0 <= i <= c@.len(),
            cv == c.deep_view(),
            forall|j: int| 0 <= j < i ==> (#[trigger] cv[j]).product_name != name@,
        decreases c@.len() - i,
    {
        assert(cv[i as int] == c@[i as int]@);
        if c[i].product_name == *name {
            proof {
                lemma_count_index(cv, name@, i as int);
            }
            return Some(i);
        }
        i = i + 1;
    }
    proof {
        lemma_count_index(cv, name@, cv.len() as int);
    }
    None
}

/// Units sold per product name over all orders (newest first), or `None`
/// when summing leaves the range of `i32`.
pub fn product_sales_count_checked(db: &Database) -> (r: Option<Vec<ProductSalesCount>>)
    ensures
        r is Some <==> sales_counts_fit(sold_items(newest_first(db@.orders))),
        r matches Some(v) ==> v.deep_view() == sales_counts(sold_items(newest_first(db@.orders))),
{
    let orders = get_orders_with_pool(db);
    let ghost os = orders.deep_view();
    let ghost all = sold_items(os);
    let mut counts: Vec<ProductSalesCount> = Vec::new();
    let ghost mut seen: Seq<OrderItemV> = Seq::empty();
    let mut oi: usize = 0;
    assert(os.take(0) =~= Seq::<OrderV>::empty());
    while oi < orders.len()
        invariant
            0 <= oi <= orders@.len(),
            os == orders.deep_view(),
            os == newest_first(db@.orders),
            all == sold_items(os),
            seen == sold_items(os.take(oi as int)),
            counts.deep_view() == sales_counts(seen),
            sales_counts_fit(seen),
        decreases orders@.len() - oi,
    {
        let order = &orders[oi];
        assert(os[oi as int] == order@);
        let ghost base = seen;
        let mut ii: usize = 0;
        assert(order@.items.take(0) =~= Seq::<OrderItemV>::empty());
        assert(base + order@.items.take(0) =~= base);
        while ii < order.items.len()
            invariant
                0 <= ii <= order.items@.len(),
                os == orders.deep_view(),
                os == newest_first(db@.orders),
                all == sold_items(os),
                0 <= oi < orders@.len(),
                order@ == os[oi as int],
                base == sold_items(os.take(oi as int)),
                seen == base + order@.items.take(ii as int),
                counts.deep_view() == sales_counts(seen),
                sales_counts_fit(seen),
            decreases order.items@.len() - ii,
        {
            let x = &order.items[ii];
            let ghost next = base + order@.items.take(ii + 1);
            assert(order@.items[ii as int] == x@);
            assert(next.drop_last() =~= seen);
            assert(next.last() == x@);
            match find_count(&counts, &x.name) {
                Some(k) => {
                    let cur = counts[k].count;
                    match cur.checked_add(x.quantity) {
                        Some(v) => {
                            counts.set(k, ProductSalesCount { product_name: x.name.clone(), count: v });
                            assert(counts.deep_view() =~= sales_counts(next));
                        },
                        None => {
                            proof {
                                assert(!sales_counts_fit(next));
                                lemma_sold_items_split(os, oi as int);
                                let whole = sold_items(os.take(oi + 1));
                                assert(whole =~= base + order@.items);
                                assert(whole.take(next.len() as int) =~= next);
                                lemma_counts_fit_prefix(whole, next.len() as int);
                                lemma_sold_prefix_fit(os, oi + 1);
                            }
                            return None;
                        },
                    }
                },
                None => {
                    counts.push(ProductSalesCount { product_name: x.name.clone(), count: x.quantity });
                    assert(counts.deep_view() =~= sales_counts(next));
                },
            }
            proof {
                seen = next;
            }
            ii = ii + 1;
        }
        proof {
            assert(order@.items.take(ii as int) =~= order@.items);
            lemma_sold_items_split(os, oi as int);
        }
        oi = oi + 1;
    }
    assert(os.take(oi as int) =~= os);
    Some(counts)
}

proof fn lemma_sold_prefix_fit(os: Seq<OrderV>, n: int)
    requires
        0 <= n <= os.len(),
        !sales_counts_fit(sold_items(os.take(n))),
    ensures
        !sales_counts_fit(sold_items(os)),
    decreases os.len() - n,
{
    if n < os.len() {
        lemma_sold_items_split(os, n);
        let a = sold_items(os.take(n + 1));
        assert(a.take(sold_items(os.take(n)).len() as int) =~= sold_items(os.take(n)));
        lemma_counts_fit_prefix(a, sold_items(os.take(n)).len() as int);
        lemma_sold_prefix_fit(os, n + 1);
    } else {
        assert(os.take(n) =~= os);
    }
}

/// Whether counting the units sold stays within `i32`.
pub fn product_sales_count_fits(db: &Database) -> (r: bool)
    ensures
        r == sales_counts_fit(sold_items(newest_first(db@.orders))),
{
    product_sales_count_checked(db).is_some()
}

/// Units sold per product name over all orders, in the order in which the
/// names first appear going through the orders newest first.
pub fn get_product_sales_count_with_pool(db: &Database) -> (r: Vec<ProductSalesCount>)
    requires
        sales_counts_fit(sold_items(newest_first(db@.orders))),
    ensures
        r.deep_view() == sales_counts(sold_items(newest_first(db@.orders))),
{
    product_sales_count_checked(db).unwrap()
}

} // verus!
