//! The shop's stored state and the operations on it.
//!
//! `Database` holds the tables of the shop (categories, tabs, products with
//! their tab assignments and sales quotas, orders, and the audit log) and the
//! next id each table hands out. Every operation is stated as a function from
//! the state before (and the request) to the state after and the answer;
//! an operation that fails leaves the state as it was, except where the
//! audit log records the attempt.

use vstd::prelude::*;
use crate::listing::{
    ids_distinct, is_listing, keep_all, keep_ids, lemma_is_listing_is_listing, listing, names_distinct,
    sorted_listing,
};
use crate::models::{
    named_views, Category, Named, NamedV, Order, OrderV, Price, Product, ProductV, Tab,
};
use crate::tab_ids::{
    is_sorted_set, normalize_tab_ids, normalized_tab_ids, sort_dedup, sorted_set, strictly_increasing,
};
use crate::text::{empty_name_message, i64_to_string, int_text, normalize_product_name, push_str, trim};

verus! {

/// The view of a stored product row.
pub struct ProductRowV {
    pub id: i32,
    pub name: Seq<char>,
    pub price_cents: i32,
    pub category_id: i32,
    pub tab_id: i32,
    pub tab_ids: Seq<i32>,
    pub sales_limit: Option<i32>,
    pub sales_used: i32,
}

/// A stored product: its own fields, its primary tab, the set of its tabs
/// (increasing ids), and its sales quota.
#[derive(Debug, Clone)]
pub struct ProductRow {
    pub id: i32,
    pub name: String,
    pub price_cents: i32,
    pub category_id: i32,
    pub tab_id: i32,
    pub tab_ids: Vec<i32>,
    pub sales_limit: Option<i32>,
    pub sales_used: i32,
}

impl View for ProductRow {
    type V = ProductRowV;

    open spec fn view(&self) -> ProductRowV {
        ProductRowV {
            id: self.id,
            name: self.name@,
            price_cents: self.price_cents,
            category_id: self.category_id,
            tab_id: self.tab_id,
            tab_ids: self.tab_ids@,
            sales_limit: self.sales_limit,
            sales_used: self.sales_used,
        }
    }
}

impl ProductRow {
    /// A copy of this row.
    pub fn duplicate(&self) -> (r: ProductRow)
        ensures
            r@ == self@,
    {
        ProductRow {
            id: self.id,
            name: self.name.clone(),
            price_cents: self.price_cents,
            category_id: self.category_id,
            tab_id: self.tab_id,
            tab_ids: self.tab_ids.clone(),
            sales_limit: self.sales_limit,
            sales_used: self.sales_used,
        }
    }
}

/// What an audit entry records.
#[derive(Debug, Clone, Copy)]
pub enum AuditAction {
    Insert,
    Update,
    Delete,
}

/// The table an audit entry is about.
#[derive(Debug, Clone, Copy)]
pub enum AuditTable {
    Products,
    Categories,
    Tabs,
    Orders,
}

/// The view of a value recorded in the audit log.
pub enum AuditRecordV {
    Product(ProductV),
    Category(NamedV),
    Tab(NamedV),
    Order(OrderV),
}

/// A value recorded in the audit log.
#[derive(Debug)]
pub enum AuditRecord {
    Product(Product),
    Category(Category),
    Tab(Tab),
    Order(Order),
}

impl View for AuditRecord {
    type V = AuditRecordV;

    open spec fn view(&self) -> AuditRecordV {
        match self {
            AuditRecord::Product(p) => AuditRecordV::Product(p@),
            AuditRecord::Category(c) => AuditRecordV::Category(c@),
            AuditRecord::Tab(t) => AuditRecordV::Tab(t@),
            AuditRecord::Order(o) => AuditRecordV::Order(o@),
        }
    }
}

/// The view of an audit entry.
pub struct AuditEntryV {
    pub action: AuditAction,
    pub table: AuditTable,
    pub record_id: Seq<char>,
    pub old_values: Option<AuditRecordV>,
    pub new_values: Option<AuditRecordV>,
}

/// An entry of the audit log.
#[derive(Debug)]
pub struct AuditEntry {
    pub action: AuditAction,
    pub table: AuditTable,
    pub record_id: String,
    pub old_values: Option<AuditRecord>,
    pub new_values: Option<AuditRecord>,
}

/// The view of an optional audit record.
pub open spec fn record_view(r: Option<AuditRecord>) -> Option<AuditRecordV> {
    match r {
        Some(x) => Some(x@),
        None => None,
    }
}

impl View for AuditEntry {
    type V = AuditEntryV;

    open spec fn view(&self) -> AuditEntryV {
        AuditEntryV {
            action: self.action,
            table: self.table,
            record_id: self.record_id@,
            old_values: record_view(self.old_values),
            new_values: record_view(self.new_values),
        }
    }
}

/// The audit entry for an action.
pub open spec fn audit(
    action: AuditAction,
    table: AuditTable,
    record_id: Seq<char>,
    old_values: Option<AuditRecordV>,
    new_values: Option<AuditRecordV>,
) -> AuditEntryV {
    AuditEntryV { action, table, record_id, old_values, new_values }
}

/// The view of the shop's stored state.
pub struct DatabaseV {
    pub categories: Seq<NamedV>,
    pub tabs: Seq<NamedV>,
    pub products: Seq<ProductRowV>,
    pub orders: Seq<OrderV>,
    pub audit_log: Seq<AuditEntryV>,
    pub next_category_id: i32,
    pub next_tab_id: i32,
    pub next_product_id: i32,
    pub next_order_id: i64,
    pub outbox: Seq<SyncOutboxEntryV>,
    pub next_outbox_id: i64,
}

/// The shop's stored state.
pub struct Database {
    pub categories: Vec<Category>,
    pub tabs: Vec<Tab>,
    pub products: Vec<ProductRow>,
    pub orders: Vec<Order>,
    pub audit_log: Vec<AuditEntry>,
    pub next_category_id: i32,
    pub next_tab_id: i32,
    pub next_product_id: i32,
    pub next_order_id: i64,
    pub outbox: Vec<SyncOutboxEntry>,
    pub next_outbox_id: i64,
}

/// The views of a sequence of product rows.
pub open spec fn row_views(s: Seq<ProductRow>) -> Seq<ProductRowV> {
    Seq::new(s.len(), |i: int| s[i]@)
}

/// The views of a sequence of orders.
pub open spec fn order_views(s: Seq<Order>) -> Seq<OrderV> {
    Seq::new(s.len(), |i: int| s[i]@)
}

/// The views of a sequence of audit entries.
pub open spec fn audit_views(s: Seq<AuditEntry>) -> Seq<AuditEntryV> {
    Seq::new(s.len(), |i: int| s[i]@)
}

impl View for Database {
    type V = DatabaseV;

    open spec fn view(&self) -> DatabaseV {
        DatabaseV {
            categories: named_views(self.categories@),
            tabs: named_views(self.tabs@),
            products: row_views(self.products@),
            orders: order_views(self.orders@),
            audit_log: audit_views(self.audit_log@),
            next_category_id: self.next_category_id,
            next_tab_id: self.next_tab_id,
            next_product_id: self.next_product_id,
            next_order_id: self.next_order_id,
            outbox: outbox_views(self.outbox@),
            next_outbox_id: self.next_outbox_id,
        }
    }
}

/// The index of the entry with id `id`, or -1.
pub open spec fn id_index(s: Seq<NamedV>, id: i32) -> int {
    if exists|i: int| 0 <= i < s.len() && #[trigger] s[i].id == id {
        choose|i: int| 0 <= i < s.len() && #[trigger] s[i].id == id
    } else {
        -1
    }
}

/// The index of the entry named `name`, or -1.
pub open spec fn name_index(s: Seq<NamedV>, name: Seq<char>) -> int {
    if exists|i: int| 0 <= i < s.len() && #[trigger] s[i].name == name {
        choose|i: int| 0 <= i < s.len() && #[trigger] s[i].name == name
    } else {
        -1
    }
}

/// The index of the product with id `id`, or -1.
pub open spec fn product_index(s: Seq<ProductRowV>, id: i32) -> int {
    if exists|i: int| 0 <= i < s.len() && #[trigger] s[i].id == id {
        choose|i: int| 0 <= i < s.len() && #[trigger] s[i].id == id
    } else {
        -1
    }
}

pub proof fn lemma_id_index(s: Seq<NamedV>, id: i32, k: int)
    requires
        ids_distinct(s),
        0 <= k < s.len(),
        s[k].id == id,
    ensures
        id_index(s, id) == k,
{
    assert(s[k].id == id);
}

pub proof fn lemma_name_index(s: Seq<NamedV>, name: Seq<char>, k: int)
    requires
        names_distinct(s),
        0 <= k < s.len(),
        s[k].name == name,
    ensures
        name_index(s, name) == k,
{
    assert(s[k].name == name);
}

/// The product ids of `s` increase strictly.
pub open spec fn product_ids_increasing(s: Seq<ProductRowV>) -> bool {
    forall|i: int, j: int| 0 <= i < j < s.len() ==> #[trigger] s[i].id < #[trigger] s[j].id
}

pub proof fn lemma_product_index(s: Seq<ProductRowV>, id: i32, k: int)
    requires
        product_ids_increasing(s),
        0 <= k < s.len(),
        s[k].id == id,
    ensures
        product_index(s, id) == k,
{
    assert(s[k].id == id);
    let c = product_index(s, id);
    if c < k {
        assert(s[c].id < s[k].id);
    } else if c > k {
        assert(s[k].id < s[c].id);
    }
}

/// Whether a category or tab with this id exists.
pub open spec fn has_id(s: Seq<NamedV>, id: i32) -> bool {
    exists|i: int| 0 <= i < s.len() && #[trigger] s[i].id == id
}

impl DatabaseV {
    /// The invariant of the stored state: ids and names are unique, the
    /// default category and tab (id 1) exist, every product refers to an
    /// existing category and existing tabs, products and orders are kept in
    /// increasing id order, and the next ids exceed every id in use.
    pub open spec fn wf(self) -> bool {
        &&& ids_distinct(self.categories)
        &&& names_distinct(self.categories)
        &&& ids_distinct(self.tabs)
        &&& names_distinct(self.tabs)
        &&& has_id(self.categories, 1)
        &&& has_id(self.tabs, 1)
        &&& forall|i: int| 0 <= i < self.categories.len() ==> #[trigger] self.categories[i].id < self.next_category_id
        &&& forall|i: int| 0 <= i < self.tabs.len() ==> #[trigger] self.tabs[i].id < self.next_tab_id
        &&& product_ids_increasing(self.products)
        &&& forall|i: int| 0 <= i < self.products.len() ==> #[trigger] self.products[i].id < self.next_product_id
        &&& forall|i: int| #![trigger self.products[i]] 0 <= i < self.products.len() ==> {
            &&& has_id(self.categories, self.products[i].category_id)
            &&& has_id(self.tabs, self.products[i].tab_id)
            &&& strictly_increasing(self.products[i].tab_ids)
            &&& forall|j: int| 0 <= j < self.products[i].tab_ids.len() ==> has_id(self.tabs, #[trigger] self.products[i].tab_ids[j])
        }
        &&& forall|i: int, j: int| 0 <= i < j < self.orders.len() ==> #[trigger] self.orders[i].id < #[trigger] self.orders[j].id
        &&& forall|i: int| 0 <= i < self.orders.len() ==> #[trigger] self.orders[i].id < self.next_order_id
    }

    /// There is room for one more id in every table.
    pub open spec fn has_room(self) -> bool {
        &&& self.next_category_id < i32::MAX
        &&& self.next_tab_id < i32::MAX
        &&& self.next_product_id < i32::MAX
        &&& self.next_order_id < i64::MAX
    }
}

/// The message for a category name that is taken.
pub open spec fn category_exists_message() -> Seq<char> {
    "Category already exists"@
}

/// The message for an unknown category.
pub open spec fn category_not_found_message() -> Seq<char> {
    "Category not found"@
}

/// The message for a tab name that is taken.
pub open spec fn tab_exists_message() -> Seq<char> {
    "Tab already exists"@
}

/// The message for an unknown tab.
pub open spec fn tab_not_found_message() -> Seq<char> {
    "Tab not found"@
}

/// The message SQLite gives when a row would refer to a missing row.
pub open spec fn foreign_key_message() -> Seq<char> {
    "FOREIGN KEY constraint failed"@
}

/// Which table of named values an operation works on.
pub enum NamedTable {
    Categories,
    Tabs,
}

/// The entries of a table of named values.
pub open spec fn named_entries(d: DatabaseV, t: NamedTable) -> Seq<NamedV> {
    match t {
        NamedTable::Categories => d.categories,
        NamedTable::Tabs => d.tabs,
    }
}

/// `d` with the entries of a table of named values replaced.
pub open spec fn with_named_entries(d: DatabaseV, t: NamedTable, s: Seq<NamedV>) -> DatabaseV {
    match t {
        NamedTable::Categories => DatabaseV { categories: s, ..d },
        NamedTable::Tabs => DatabaseV { tabs: s, ..d },
    }
}

/// The next id of a table of named values.
pub open spec fn next_named_id(d: DatabaseV, t: NamedTable) -> i32 {
    match t {
        NamedTable::Categories => d.next_category_id,
        NamedTable::Tabs => d.next_tab_id,
    }
}

/// `d` with the next id of a table of named values advanced.
pub open spec fn advance_named_id(d: DatabaseV, t: NamedTable) -> DatabaseV {
    match t {
        NamedTable::Categories => DatabaseV { next_category_id: (d.next_category_id + 1) as i32, ..d },
        NamedTable::Tabs => DatabaseV { next_tab_id: (d.next_tab_id + 1) as i32, ..d },
    }
}

/// The audit table of a table of named values.
pub open spec fn audit_table_of(t: NamedTable) -> AuditTable {
    match t {
        NamedTable::Categories => AuditTable::Categories,
        NamedTable::Tabs => AuditTable::Tabs,
    }
}

/// The audit record of a named value.
pub open spec fn named_record(t: NamedTable, v: NamedV) -> AuditRecordV {
    match t {
        NamedTable::Categories => AuditRecordV::Category(v),
        NamedTable::Tabs => AuditRecordV::Tab(v),
    }
}

/// The message for a name that is taken.
pub open spec fn exists_message(t: NamedTable) -> Seq<char> {
    match t {
        NamedTable::Categories => category_exists_message(),
        NamedTable::Tabs => tab_exists_message(),
    }
}

/// The message for an unknown id.
pub open spec fn not_found_message(t: NamedTable) -> Seq<char> {
    match t {
        NamedTable::Categories => category_not_found_message(),
        NamedTable::Tabs => tab_not_found_message(),
    }
}

/// `d` with `a` appended to the audit log.
pub open spec fn log(d: DatabaseV, a: AuditEntryV) -> DatabaseV {
    DatabaseV { audit_log: d.audit_log.push(a), ..d }
}

/// Adding a category or a tab: the name is trimmed and must not be empty or
/// taken; the new entry gets the next id and the addition is audited.
pub open spec fn add_named(d: DatabaseV, t: NamedTable, name: Seq<char>) -> (DatabaseV, Result<NamedV, Seq<char>>) {
    let n = trim(name);
    let s = named_entries(d, t);
    if n.len() == 0 {
        (d, Err(empty_name_message()))
    } else if name_index(s, n) >= 0 {
        (d, Err(exists_message(t)))
    } else {
        let v = NamedV { id: next_named_id(d, t), name: n };
        let d1 = advance_named_id(with_named_entries(d, t, s.push(v)), t);
        (log(d1, audit(AuditAction::Insert, audit_table_of(t), int_text(v.id as int), None, Some(named_record(t, v)))), Ok(v))
    }
}

/// Renaming a category or a tab: the name is trimmed and must not be empty;
/// the id must exist; the name must not belong to another entry. The
/// rename is audited with the old and the new value.
pub open spec fn update_named(d: DatabaseV, t: NamedTable, id: i32, name: Seq<char>) -> (DatabaseV, Result<NamedV, Seq<char>>) {
    let n = trim(name);
    let s = named_entries(d, t);
    let k = id_index(s, id);
    if n.len() == 0 {
        (d, Err(empty_name_message()))
    } else if k < 0 {
        (d, Err(not_found_message(t)))
    } else if s[k].name != n && name_index(s, n) >= 0 && s[name_index(s, n)].id != id {
        (d, Err(exists_message(t)))
    } else {
        let v = NamedV { id, name: n };
        let d1 = with_named_entries(d, t, s.update(k, v));
        (log(d1, audit(AuditAction::Update, audit_table_of(t), int_text(id as int), Some(named_record(t, s[k])), Some(named_record(t, v)))), Ok(v))
    }
}

/// The products with every reference to category `id` moved to the default
/// category.
pub open spec fn reassign_category(ps: Seq<ProductRowV>, id: i32) -> Seq<ProductRowV> {
    Seq::new(ps.len(), |i: int| if ps[i].category_id == id { ProductRowV { category_id: 1, ..ps[i] } } else { ps[i] })
}

/// `s` without the value `x` (`s` holds it at most once).
pub open spec fn without_id(s: Seq<i32>, x: i32) -> Seq<i32> {
    if s.contains(x) {
        s.remove(choose|j: int| 0 <= j < s.len() && s[j] == x)
    } else {
        s
    }
}

/// The products with tab `id` taken out of their tab sets.
pub open spec fn remove_tab_from_products(ps: Seq<ProductRowV>, id: i32) -> Seq<ProductRowV> {
    Seq::new(ps.len(), |i: int| ProductRowV { tab_ids: without_id(ps[i].tab_ids, id), ..ps[i] })
}

/// Some product has tab `id` as its primary tab.
pub open spec fn tab_is_primary(ps: Seq<ProductRowV>, id: i32) -> bool {
    exists|i: int| 0 <= i < ps.len() && #[trigger] ps[i].tab_id == id
}

/// Deleting a category: the default category cannot be deleted; the id must
/// exist; its products move to the default category.
pub open spec fn delete_category_result(d: DatabaseV, id: i32) -> (DatabaseV, Result<(), Seq<char>>) {
    let k = id_index(d.categories, id);
    if id == 1 {
        (d, Err("Default category cannot be deleted"@))
    } else if k < 0 {
        (d, Err(category_not_found_message()))
    } else {
        let d1 = DatabaseV { categories: d.categories.remove(k), products: reassign_category(d.products, id), ..d };
        (log(d1, audit(AuditAction::Delete, AuditTable::Categories, int_text(id as int), Some(AuditRecordV::Category(d.categories[k])), None)), Ok(()))
    }
}

/// Deleting a tab: the default tab cannot be deleted; the id must exist; a
/// tab that is some product's primary tab cannot be deleted (the reference
/// would dangle); otherwise it leaves every product's tab set.
pub open spec fn delete_tab_result(d: DatabaseV, id: i32) -> (DatabaseV, Result<(), Seq<char>>) {
    let k = id_index(d.tabs, id);
    if id == 1 {
        (d, Err("Default tab cannot be deleted"@))
    } else if k < 0 {
        (d, Err(tab_not_found_message()))
    } else if tab_is_primary(d.products, id) {
        (d, Err(foreign_key_message()))
    } else {
        let d1 = DatabaseV { tabs: d.tabs.remove(k), products: remove_tab_from_products(d.products, id), ..d };
        (log(d1, audit(AuditAction::Delete, AuditTable::Tabs, int_text(id as int), Some(AuditRecordV::Tab(d.tabs[k])), None)), Ok(()))
    }
}

/// The view of a result that carries a named value.
pub open spec fn named_result<T: Named>(r: Result<T, String>) -> Result<NamedV, Seq<char>> {
    match r {
        Ok(v) => Ok(v.named_view()),
        Err(e) => Err(e@),
    }
}

/// The view of a result without a value.
pub open spec fn unit_result(r: Result<(), String>) -> Result<(), Seq<char>> {
    match r {
        Ok(()) => Ok(()),
        Err(e) => Err(e@),
    }
}

/// Finds the entry with id `id`.
pub fn find_by_id<T: Named>(v: &Vec<T>, id: i32) -> (r: Option<usize>)
    ensures
        match r {
            Some(k) => k < v@.len() && named_views(v@)[k as int].id == id,
            None => !has_id(named_views(v@), id),
        },
{
    let mut i: usize = 0;
    while i < v.len()
        invariant
            0 <= i <= v@.len(),
            forall|j: int| 0 <= j < i ==> #[trigger] named_views(v@)[j].id != id,
        decreases v@.len() - i,
    {
        if v[i].id_of() == id {
            return Some(i);
        }
        i = i + 1;
    }
    None
}

/// Finds the entry named `name`.
pub fn find_by_name<T: Named>(v: &Vec<T>, name: &str) -> (r: Option<usize>)
    ensures
        match r {
            Some(k) => k < v@.len() && named_views(v@)[k as int].name == name@,
            None => name_index(named_views(v@), name@) == -1,
        },
{
    let mut i: usize = 0;
    while i < v.len()
        invariant
            0 <= i <= v@.len(),
            forall|j: int| 0 <= j < i ==> #[trigger] named_views(v@)[j].name != name@,
        decreases v@.len() - i,
    {
        if str_eq(v[i].name_of(), name) {
            return Some(i);
        }
        i = i + 1;
    }
    None
}

/// Whether two strings are equal.
pub fn str_eq(a: &str, b: &str) -> (r: bool)
    ensures
        r == (a@ == b@),
{
    let sa = a.to_owned();
    let sb = b.to_owned();
    sa == sb
}


proof fn lemma_has_id_after_remove(s: Seq<NamedV>, k: int, id: i32)
    requires
        0 <= k < s.len(),
        has_id(s, id),
        s[k].id != id,
    ensures
        has_id(s.remove(k), id),
{
    let m = choose|m: int| 0 <= m < s.len() && #[trigger] s[m].id == id;
    if m < k {
        assert(s.remove(k)[m] == s[m]);
    } else {
        assert(s.remove(k)[m - 1] == s[m]);
    }
}

proof fn lemma_has_id_after_push(s: Seq<NamedV>, v: NamedV, id: i32)
    requires
        has_id(s, id),
    ensures
        has_id(s.push(v), id),
{
    let m = choose|m: int| 0 <= m < s.len() && #[trigger] s[m].id == id;
    assert(s.push(v)[m] == s[m]);
}

proof fn lemma_has_id_after_update(s: Seq<NamedV>, k: int, v: NamedV, id: i32)
    requires
        0 <= k < s.len(),
        has_id(s, id),
        v.id == s[k].id,
    ensures
        has_id(s.update(k, v), id),
{
    let m = choose|m: int| 0 <= m < s.len() && #[trigger] s[m].id == id;
    assert(s.update(k, v)[m].id == id);
}

/// Adds an entry named `name` (already normalised) unless the name is taken.
fn add_entry<T: Named>(entries: &mut Vec<T>, id: i32, name: String) -> (r: Option<T>)
    requires
        ids_distinct(named_views(old(entries)@)),
        names_distinct(named_views(old(entries)@)),
        !has_id(named_views(old(entries)@), id),
    ensures
        ({
            let s = named_views(old(entries)@);
            if name_index(s, name@) >= 0 {
                r is None && final(entries)@ == old(entries)@
            } else {
                r is Some && r->Some_0.named_view() == (NamedV { id, name: name@ })
                    && named_views(final(entries)@) == s.push(NamedV { id, name: name@ })
            }
        }),
        ids_distinct(named_views(final(entries)@)),
        names_distinct(named_views(final(entries)@)),
{
    let ghost s = named_views(entries@);
    let ghost n = name@;
    if find_by_name(entries, name.as_str()).is_some() {
        return None;
    }
    let v = T::make(id, name);
    entries.push(v.duplicate());
    proof {
        let nv = NamedV { id, name: n };
        assert(named_views(entries@) =~= s.push(nv));
        assert forall|a: int, b: int| 0 <= a < s.len() + 1 && 0 <= b < s.len() + 1 && a != b
            implies #[trigger] named_views(entries@)[a].name != #[trigger] named_views(entries@)[b].name by {
            if a < s.len() && b < s.len() {
                assert(s[a].name != s[b].name);
            } else if a < s.len() {
                assert(s[a].name != nv.name);
            } else {
                assert(s[b].name != nv.name);
            }
        }
        assert forall|a: int, b: int| 0 <= a < s.len() + 1 && 0 <= b < s.len() + 1 && a != b
            implies #[trigger] named_views(entries@)[a].id != #[trigger] named_views(entries@)[b].id by {
            if a < s.len() && b < s.len() {
                assert(s[a].id != s[b].id);
            } else if a < s.len() {
                assert(s[a].id != id);
            } else {
                assert(s[b].id != id);
            }
        }
    }
    Some(v)
}

/// Adds a category: the name is trimmed and must be neither empty nor the
/// name of an existing category.
pub fn add_category_with_pool(db: &mut Database, name: String) -> (r: Result<Category, String>)
    requires
        old(db)@.wf(),
        old(db)@.has_room(),
    ensures
        final(db)@.wf(),
        (final(db)@, named_result(r)) == add_named(old(db)@, NamedTable::Categories, name@),
{
    let ghost d = db@;
    let id = db.next_category_id;
    let normalized = match normalize_product_name(name.as_str()) {
        Ok(n) => n,
        Err(e) => return Err(e),
    };
    let r = add_entry(&mut db.categories, id, normalized);
    match r {
        Some(c) => {
            db.next_category_id = id + 1;
            let record_id = i64_to_string(id as i64);
            db.audit_log.push(AuditEntry {
                action: AuditAction::Insert,
                table: AuditTable::Categories,
                record_id,
                old_values: None,
                new_values: Some(AuditRecord::Category(c.duplicate())),
            });
            proof {
                let v = NamedV { id, name: trim(name@) };
                assert(audit_views(db.audit_log@) =~= d.audit_log.push(
                    audit(AuditAction::Insert, AuditTable::Categories, int_text(id as int), None, Some(AuditRecordV::Category(v))),
                ));
                lemma_has_id_after_push(d.categories, v, 1);
                assert forall|i: int| 0 <= i < d.products.len() implies has_id(db@.categories, (#[trigger] db@.products[i]).category_id) by {
                    lemma_has_id_after_push(d.categories, v, d.products[i].category_id);
                }
            }
            Ok(c)
        },
        None => Err(String::from_str("Category already exists")),
    }
}

/// Adds a tab: the name is trimmed and must be neither empty nor the name
/// of an existing tab.
pub fn add_tab_with_pool(db: &mut Database, name: String) -> (r: Result<Tab, String>)
    requires
        old(db)@.wf(),
        old(db)@.has_room(),
    ensures
        final(db)@.wf(),
        (final(db)@, named_result(r)) == add_named(old(db)@, NamedTable::Tabs, name@),
{
    let ghost d = db@;
    let id = db.next_tab_id;
    let normalized = match normalize_product_name(name.as_str()) {
        Ok(n) => n,
        Err(e) => return Err(e),
    };
    let r = add_entry(&mut db.tabs, id, normalized);
    match r {
        Some(t) => {
            db.next_tab_id = id + 1;
            let record_id = i64_to_string(id as i64);
            db.audit_log.push(AuditEntry {
                action: AuditAction::Insert,
                table: AuditTable::Tabs,
                record_id,
                old_values: None,
                new_values: Some(AuditRecord::Tab(t.duplicate())),
            });
            proof {
                let v = NamedV { id, name: trim(name@) };
                assert(audit_views(db.audit_log@) =~= d.audit_log.push(
                    audit(AuditAction::Insert, AuditTable::Tabs, int_text(id as int), None, Some(AuditRecordV::Tab(v))),
                ));
                lemma_has_id_after_push(d.tabs, v, 1);
                assert forall|i: int| 0 <= i < d.products.len() implies {
                    &&& has_id(db@.tabs, (#[trigger] db@.products[i]).tab_id)
                    &&& forall|j: int| 0 <= j < db@.products[i].tab_ids.len() ==> has_id(db@.tabs, #[trigger] db@.products[i].tab_ids[j])
                } by {
                    lemma_has_id_after_push(d.tabs, v, d.products[i].tab_id);
                    assert forall|j: int| 0 <= j < db@.products[i].tab_ids.len() implies has_id(db@.tabs, #[trigger] db@.products[i].tab_ids[j]) by {
                        lemma_has_id_after_push(d.tabs, v, d.products[i].tab_ids[j]);
                    }
                }
            }
            Ok(t)
        },
        None => Err(String::from_str("Tab already exists")),
    }
}


/// Why renaming an entry failed.
enum RenameError {
    NotFound,
    NameTaken,
}

/// Renames entry `id` to `name` (already normalised) when the id exists and
/// the name is not another entry's; returns the old and the new entry.
fn rename_entry<T: Named>(entries: &mut Vec<T>, id: i32, name: String) -> (r: Result<(T, T), RenameError>)
    requires
        ids_distinct(named_views(old(entries)@)),
        names_distinct(named_views(old(entries)@)),
    ensures
        ({
            let s = named_views(old(entries)@);
            let n = name@;
            let k = id_index(s, id);
            if k < 0 {
                r matches Err(RenameError::NotFound) && final(entries)@ == old(entries)@
            } else if s[k].name != n && name_index(s, n) >= 0 && s[name_index(s, n)].id != id {
                r matches Err(RenameError::NameTaken) && final(entries)@ == old(entries)@
            } else {
                r matches Ok((o, v)) && o.named_view() == s[k] && v.named_view() == (NamedV { id, name: n })
                    && named_views(final(entries)@) == s.update(k, NamedV { id, name: n })
            }
        }),
        ids_distinct(named_views(final(entries)@)),
        names_distinct(named_views(final(entries)@)),
{
    let ghost s = named_views(entries@);
    let ghost n = name@;
    let k = match find_by_id(entries, id) {
        Some(k) => k,
        None => return Err(RenameError::NotFound),
    };
    proof {
        lemma_id_index(s, id, k as int);
    }
    let old_entry = entries[k].duplicate();
    if !str_eq(old_entry.name_of(), name.as_str()) {
        match find_by_name(entries, name.as_str()) {
            Some(m) => {
                proof {
                    lemma_name_index(s, n, m as int);
                }
                if entries[m].id_of() != id {
                    return Err(RenameError::NameTaken);
                }
            },
            None => {},
        }
    }
    let v = T::make(id, name);
    let copy = v.duplicate();
    entries.set(k, v);
    proof {
        let nv = NamedV { id, name: n };
        assert(named_views(entries@) =~= s.update(k as int, nv));
        if s[k as int].name != n {
            assert forall|i: int| 0 <= i < s.len() && i != k implies s[i].name != n by {
                if s[i].name == n {
                    lemma_name_index(s, n, i);
                    assert(s[i].id != id);
                }
            }
        }
        assert forall|a: int, b: int| 0 <= a < s.len() && 0 <= b < s.len() && a != b
            implies #[trigger] named_views(entries@)[a].name != #[trigger] named_views(entries@)[b].name by {
            if a != k && b != k {
                assert(s[a].name != s[b].name);
            } else if a == k {
                assert(s[b].name != s[k as int].name);
            } else {
                assert(s[a].name != s[k as int].name);
            }
        }
        assert forall|a: int, b: int| 0 <= a < s.len() && 0 <= b < s.len() && a != b
            implies #[trigger] named_views(entries@)[a].id != #[trigger] named_views(entries@)[b].id by {
            assert(s[a].id != s[b].id);
        }
    }
    Ok((old_entry, copy))
}

/// Renames a category: the name is trimmed and must not be empty; the
/// category must exist; the name must not belong to another category.
pub fn update_category_with_pool(db: &mut Database, id: i32, name: String) -> (r: Result<Category, String>)
    requires
        old(db)@.wf(),
    ensures
        final(db)@.wf(),
        (final(db)@, named_result(r)) == update_named(old(db)@, NamedTable::Categories, id, name@),
{
    let ghost d = db@;
    let normalized = match normalize_product_name(name.as_str()) {
        Ok(n) => n,
        Err(e) => return Err(e),
    };
    match rename_entry(&mut db.categories, id, normalized) {
        Err(RenameError::NotFound) => Err(String::from_str("Category not found")),
        Err(RenameError::NameTaken) => Err(String::from_str("Category already exists")),
        Ok((old_entry, v)) => {
            let record_id = i64_to_string(id as i64);
            let result = v.duplicate();
            db.audit_log.push(AuditEntry {
                action: AuditAction::Update,
                table: AuditTable::Categories,
                record_id,
                old_values: Some(AuditRecord::Category(old_entry)),
                new_values: Some(AuditRecord::Category(v)),
            });
            proof {
                let k = id_index(d.categories, id);
                let nv = NamedV { id, name: trim(name@) };
                assert(audit_views(db.audit_log@) =~= d.audit_log.push(
                    audit(AuditAction::Update, AuditTable::Categories, int_text(id as int),
                        Some(AuditRecordV::Category(d.categories[k])), Some(AuditRecordV::Category(nv))),
                ));
                lemma_has_id_after_update(d.categories, k, nv, 1);
                assert forall|i: int| 0 <= i < d.products.len() implies has_id(db@.categories, (#[trigger] db@.products[i]).category_id) by {
                    lemma_has_id_after_update(d.categories, k, nv, d.products[i].category_id);
                }
                assert forall|i: int| 0 <= i < db@.categories.len() implies #[trigger] db@.categories[i].id < db@.next_category_id by {
                    assert(d.categories[i].id < d.next_category_id);
                }
            }
            Ok(result)
        },
    }
}

/// Renames a tab: the name is trimmed and must not be empty; the tab must
/// exist; the name must not belong to another tab.
pub fn update_tab_with_pool(db: &mut Database, id: i32, name: String) -> (r: Result<Tab, String>)
    requires
        old(db)@.wf(),
    ensures
        final(db)@.wf(),
        (final(db)@, named_result(r)) == update_named(old(db)@, NamedTable::Tabs, id, name@),
{
    let ghost d = db@;
    let normalized = match normalize_product_name(name.as_str()) {
        Ok(n) => n,
        Err(e) => return Err(e),
    };
    match rename_entry(&mut db.tabs, id, normalized) {
        Err(RenameError::NotFound) => Err(String::from_str("Tab not found")),
        Err(RenameError::NameTaken) => Err(String::from_str("Tab already exists")),
        Ok((old_entry, v)) => {
            let record_id = i64_to_string(id as i64);
            let result = v.duplicate();
            db.audit_log.push(AuditEntry {
                action: AuditAction::Update,
                table: AuditTable::Tabs,
                record_id,
                old_values: Some(AuditRecord::Tab(old_entry)),
                new_values: Some(AuditRecord::Tab(v)),
            });
            proof {
                let k = id_index(d.tabs, id);
                let nv = NamedV { id, name: trim(name@) };
                assert(audit_views(db.audit_log@) =~= d.audit_log.push(
                    audit(AuditAction::Update, AuditTable::Tabs, int_text(id as int),
                        Some(AuditRecordV::Tab(d.tabs[k])), Some(AuditRecordV::Tab(nv))),
                ));
                lemma_has_id_after_update(d.tabs, k, nv, 1);
                assert forall|i: int| 0 <= i < d.products.len() implies {
                    &&& has_id(db@.tabs, (#[trigger] db@.products[i]).tab_id)
                    &&& forall|j: int| 0 <= j < db@.products[i].tab_ids.len() ==> has_id(db@.tabs, #[trigger] db@.products[i].tab_ids[j])
                } by {
                    lemma_has_id_after_update(d.tabs, k, nv, d.products[i].tab_id);
                    assert forall|j: int| 0 <= j < db@.products[i].tab_ids.len() implies has_id(db@.tabs, #[trigger] db@.products[i].tab_ids[j]) by {
                        lemma_has_id_after_update(d.tabs, k, nv, d.products[i].tab_ids[j]);
                    }
                }
                assert forall|i: int| 0 <= i < db@.tabs.len() implies #[trigger] db@.tabs[i].id < db@.next_tab_id by {
                    assert(d.tabs[i].id < d.next_tab_id);
                }
            }
            Ok(result)
        },
    }
}

/// Lists the categories ordered by name.
pub fn get_categories_with_pool(db: &Database) -> (r: Vec<Category>)
    requires
        db@.wf(),
    ensures
        named_views(r@) == listing(db@.categories, keep_all()),
{
    let r = sorted_listing(&db.categories, None);
    proof {
        lemma_is_listing_is_listing(named_views(r@), db@.categories, keep_all());
    }
    r
}

/// Lists the tabs ordered by name.
pub fn get_tabs_with_pool(db: &Database) -> (r: Vec<Tab>)
    requires
        db@.wf(),
    ensures
        named_views(r@) == listing(db@.tabs, keep_all()),
{
    let r = sorted_listing(&db.tabs, None);
    proof {
        lemma_is_listing_is_listing(named_views(r@), db@.tabs, keep_all());
    }
    r
}


/// Deletes a category; its products move to the default category. The
/// default category cannot be deleted.
pub fn delete_category_with_pool(db: &mut Database, id: i32) -> (r: Result<(), String>)
    requires
        old(db)@.wf(),
    ensures
        final(db)@.wf(),
        (final(db)@, unit_result(r)) == delete_category_result(old(db)@, id),
{
    let ghost d = db@;
    if id == 1 {
        return Err(String::from_str("Default category cannot be deleted"));
    }
    let k = match find_by_id(&db.categories, id) {
        Some(k) => k,
        None => return Err(String::from_str("Category not found")),
    };
    proof {
        lemma_id_index(d.categories, id, k as int);
    }
    let mut i: usize = 0;
    while i < db.products.len()
        invariant
            0 <= i <= db.products@.len(),
            db.products@.len() == d.products.len(),
            forall|j: int| 0 <= j < i ==> #[trigger] row_views(db.products@)[j] == reassign_category(d.products, id)[j],
            forall|j: int| i <= j < d.products.len() ==> #[trigger] row_views(db.products@)[j] == d.products[j],
            db.categories@ == old(db).categories@,
            db.tabs@ == old(db).tabs@,
            db.orders@ == old(db).orders@,
            db.audit_log@ == old(db).audit_log@,
            db.next_category_id == old(db).next_category_id,
            db.next_tab_id == old(db).next_tab_id,
            db.next_product_id == old(db).next_product_id,
            db.next_order_id == old(db).next_order_id,
            db.outbox@ == old(db).outbox@,
            db.next_outbox_id == old(db).next_outbox_id,
            d == old(db)@,
        decreases db.products@.len() - i,
    {
        assert(row_views(db.products@)[i as int] == d.products[i as int]);
        let ghost before = db.products@;
        if db.products[i].category_id == id {
            let mut row = db.products[i].duplicate();
            row.category_id = 1;
            db.products.set(i, row);
        }
        proof {
            assert forall|j: int| 0 <= j < db.products@.len() && j != i implies db.products@[j] == before[j] by {}
            assert(row_views(db.products@)[i as int] == reassign_category(d.products, id)[i as int]);
            assert forall|j: int| 0 <= j < i implies #[trigger] row_views(db.products@)[j] == reassign_category(d.products, id)[j] by {
                assert(row_views(db.products@)[j] == row_views(before)[j]);
            }
            assert forall|j: int| i < j < d.products.len() implies #[trigger] row_views(db.products@)[j] == d.products[j] by {
                assert(row_views(db.products@)[j] == row_views(before)[j]);
            }
        }
        i = i + 1;
    }
    assert(row_views(db.products@) =~= reassign_category(d.products, id));
    let removed = db.categories.remove(k);
    let record_id = i64_to_string(id as i64);
    db.audit_log.push(AuditEntry {
        action: AuditAction::Delete,
        table: AuditTable::Categories,
        record_id,
        old_values: Some(AuditRecord::Category(removed)),
        new_values: None,
    });
    proof {
        let c = d.categories;
        assert(named_views(db.categories@) =~= c.remove(k as int));
        assert(audit_views(db.audit_log@) =~= d.audit_log.push(
            audit(AuditAction::Delete, AuditTable::Categories, int_text(id as int), Some(AuditRecordV::Category(c[k as int])), None),
        ));
        lemma_has_id_after_remove(c, k as int, 1);
        let nc = db@.categories;
        assert forall|a: int, b: int| 0 <= a < nc.len() && 0 <= b < nc.len() && a != b
            implies #[trigger] nc[a].name != #[trigger] nc[b].name && nc[a].id != nc[b].id by {
            let a2 = if a < k { a } else { a + 1 };
            let b2 = if b < k { b } else { b + 1 };
            assert(nc[a] == c[a2] && nc[b] == c[b2]);
        }
        assert forall|a: int| 0 <= a < nc.len() implies #[trigger] nc[a].id < db@.next_category_id by {
            let a2 = if a < k { a } else { a + 1 };
            assert(nc[a] == c[a2]);
        }
        assert forall|j: int| 0 <= j < d.products.len() implies has_id(nc, (#[trigger] db@.products[j]).category_id) by {
            if d.products[j].category_id != id {
                lemma_has_id_after_remove(c, k as int, d.products[j].category_id);
            }
        }
    }
    Ok(())
}

/// The index of `x` in `v`.
fn find_i32(v: &Vec<i32>, x: i32) -> (r: Option<usize>)
    ensures
        match r {
            Some(j) => j < v@.len() && v@[j as int] == x,
            None => !v@.contains(x),
        },
{
    let mut i: usize = 0;
    while i < v.len()
        invariant
            0 <= i <= v@.len(),
            forall|j: int| 0 <= j < i ==> v@[j] != x,
        decreases v@.len() - i,
    {
        if v[i] == x {
            return Some(i);
        }
        i = i + 1;
    }
    None
}

proof fn lemma_without_id(s: Seq<i32>, x: i32, j: int)
    requires
        strictly_increasing(s),
        0 <= j < s.len(),
        s[j] == x,
    ensures
        without_id(s, x) == s.remove(j),
        strictly_increasing(s.remove(j)),
{
    assert(s.contains(x));
    let c = choose|c: int| 0 <= c < s.len() && s[c] == x;
    if c < j {
        assert(s[c] < s[j]);
    } else if c > j {
        assert(s[j] < s[c]);
    }
    let t = s.remove(j);
    assert forall|a: int, b: int| 0 <= a < b < t.len() implies #[trigger] t[a] < #[trigger] t[b] by {
        let a2 = if a < j { a } else { a + 1 };
        let b2 = if b < j { b } else { b + 1 };
        assert(t[a] == s[a2] && t[b] == s[b2]);
    }
}

/// Whether tab `id` is some product's primary tab.
fn is_primary_tab(products: &Vec<ProductRow>, id: i32) -> (r: bool)
    ensures
        r == tab_is_primary(row_views(products@), id),
{
    let mut p: usize = 0;
    while p < products.len()
        invariant
            0 <= p <= products@.len(),
            forall|j: int| 0 <= j < p ==> (#[trigger] row_views(products@)[j]).tab_id != id,
        decreases products@.len() - p,
    {
        assert(row_views(products@)[p as int] == products@[p as int]@);
        if products[p].tab_id == id {
            assert(row_views(products@)[p as int].tab_id == id);
            return true;
        }
        p = p + 1;
    }
    false
}

/// Deletes a tab; it leaves the tab sets of all products. The default tab,
/// and a tab that is some product's primary tab, cannot be deleted.
pub fn delete_tab_with_pool(db: &mut Database, id: i32) -> (r: Result<(), String>)
    requires
        old(db)@.wf(),
    ensures
        final(db)@.wf(),
        (final(db)@, unit_result(r)) == delete_tab_result(old(db)@, id),
{
    let ghost d = db@;
    if id == 1 {
        return Err(String::from_str("Default tab cannot be deleted"));
    }
    let k = match find_by_id(&db.tabs, id) {
        Some(k) => k,
        None => return Err(String::from_str("Tab not found")),
    };
    proof {
        lemma_id_index(d.tabs, id, k as int);
    }
    if is_primary_tab(&db.products, id) {
        return Err(String::from_str("FOREIGN KEY constraint failed"));
    }
    let mut i: usize = 0;
    while i < db.products.len()
        invariant
            0 <= i <= db.products@.len(),
            db.products@.len() == d.products.len(),
            forall|j: int| 0 <= j < i ==> #[trigger] row_views(db.products@)[j] == remove_tab_from_products(d.products, id)[j],
            forall|j: int| i <= j < d.products.len() ==> #[trigger] row_views(db.products@)[j] == d.products[j],
            forall|j: int| #![trigger d.products[j]] 0 <= j < d.products.len() ==> strictly_increasing(d.products[j].tab_ids),
            db.categories@ == old(db).categories@,
            db.tabs@ == old(db).tabs@,
            db.orders@ == old(db).orders@,
            db.audit_log@ == old(db).audit_log@,
            db.next_category_id == old(db).next_category_id,
            db.next_tab_id == old(db).next_tab_id,
            db.next_product_id == old(db).next_product_id,
            db.next_order_id == old(db).next_order_id,
            db.outbox@ == old(db).outbox@,
            db.next_outbox_id == old(db).next_outbox_id,
            d == old(db)@,
        decreases db.products@.len() - i,
    {
        assert(row_views(db.products@)[i as int] == d.products[i as int]);
        let ghost before = db.products@;
        match find_i32(&db.products[i].tab_ids, id) {
            Some(j) => {
                proof {
                    lemma_without_id(d.products[i as int].tab_ids, id, j as int);
                }
                let mut row = db.products[i].duplicate();
                row.tab_ids.remove(j);
                db.products.set(i, row);
            },
            None => {},
        }
        proof {
            assert forall|j: int| 0 <= j < db.products@.len() && j != i implies db.products@[j] == before[j] by {}
            assert(row_views(db.products@)[i as int] == remove_tab_from_products(d.products, id)[i as int]);
            assert forall|j: int| 0 <= j < i implies #[trigger] row_views(db.products@)[j] == remove_tab_from_products(d.products, id)[j] by {
                assert(row_views(db.products@)[j] == row_views(before)[j]);
            }
            assert forall|j: int| i < j < d.products.len() implies #[trigger] row_views(db.products@)[j] == d.products[j] by {
                assert(row_views(db.products@)[j] == row_views(before)[j]);
            }
        }
        i = i + 1;
    }
    assert(row_views(db.products@) =~= remove_tab_from_products(d.products, id));
    let removed = db.tabs.remove(k);
    let record_id = i64_to_string(id as i64);
    db.audit_log.push(AuditEntry {
        action: AuditAction::Delete,
        table: AuditTable::Tabs,
        record_id,
        old_values: Some(AuditRecord::Tab(removed)),
        new_values: None,
    });
    proof {
        let c = d.tabs;
        assert(named_views(db.tabs@) =~= c.remove(k as int));
        assert(!tab_is_primary(d.products, id));
        assert(audit_views(db.audit_log@) =~= d.audit_log.push(
            audit(AuditAction::Delete, AuditTable::Tabs, int_text(id as int), Some(AuditRecordV::Tab(c[k as int])), None),
        ));
        lemma_has_id_after_remove(c, k as int, 1);
        let nc = db@.tabs;
        assert forall|a: int, b: int| 0 <= a < nc.len() && 0 <= b < nc.len() && a != b
            implies #[trigger] nc[a].name != #[trigger] nc[b].name && nc[a].id != nc[b].id by {
            let a2 = if a < k { a } else { a + 1 };
            let b2 = if b < k { b } else { b + 1 };
            assert(nc[a] == c[a2] && nc[b] == c[b2]);
        }
        assert forall|a: int| 0 <= a < nc.len() implies #[trigger] nc[a].id < db@.next_tab_id by {
            let a2 = if a < k { a } else { a + 1 };
            assert(nc[a] == c[a2]);
        }
        assert forall|j: int| 0 <= j < d.products.len() implies {
            &&& has_id(nc, (#[trigger] db@.products[j]).tab_id)
            &&& strictly_increasing(db@.products[j].tab_ids)
            &&& forall|q: int| 0 <= q < db@.products[j].tab_ids.len() ==> has_id(nc, #[trigger] db@.products[j].tab_ids[q])
        } by {
            let old_ids = d.products[j].tab_ids;
            assert(d.products[j].tab_id != id);
            lemma_has_id_after_remove(c, k as int, d.products[j].tab_id);
            if old_ids.contains(id) {
                let q0 = choose|q: int| 0 <= q < old_ids.len() && old_ids[q] == id;
                lemma_without_id(old_ids, id, q0);
            }
            let new_ids = db@.products[j].tab_ids;
            assert forall|q: int| 0 <= q < new_ids.len() implies has_id(nc, #[trigger] new_ids[q]) by {
                if old_ids.contains(id) {
                    let q0 = choose|q: int| 0 <= q < old_ids.len() && old_ids[q] == id;
                    let q2 = if q < q0 { q } else { q + 1 };
                    assert(new_ids[q] == old_ids[q2]);
                    assert(old_ids[q2] != id);
                    lemma_has_id_after_remove(c, k as int, old_ids[q2]);
                } else {
                    assert(new_ids[q] == old_ids[q]);
                    assert(old_ids[q] != id);
                    lemma_has_id_after_remove(c, k as int, old_ids[q]);
                }
            }
        }
    }
    Ok(())
}


/// A product as the shop shows it: its row, its category's name, and its
/// tabs ordered by name.
pub open spec fn product_view(d: DatabaseV, row: ProductRowV) -> ProductV {
    ProductV {
        id: row.id,
        name: row.name,
        price_cents: row.price_cents,
        category_id: row.category_id,
        category_name: d.categories[id_index(d.categories, row.category_id)].name,
        sales_limit: row.sales_limit,
        sales_used: row.sales_used,
        tabs: listing(d.tabs, keep_ids(row.tab_ids)),
    }
}

/// All products as the shop shows them, in increasing id order.
pub open spec fn products_view(d: DatabaseV) -> Seq<ProductV> {
    Seq::new(d.products.len(), |i: int| product_view(d, d.products[i]))
}

/// The message for an unknown product.
pub open spec fn product_not_found_message() -> Seq<char> {
    "Product not found"@
}

/// Looking a product up by id.
pub open spec fn get_product_result(d: DatabaseV, id: i32) -> Result<ProductV, Seq<char>> {
    let k = product_index(d.products, id);
    if k < 0 {
        Err(product_not_found_message())
    } else {
        Ok(product_view(d, d.products[k]))
    }
}

/// The tabs of a product, ordered by name (none for an unknown product).
pub open spec fn tabs_for_product(d: DatabaseV, product_id: i32) -> Seq<NamedV> {
    let k = product_index(d.products, product_id);
    if k < 0 {
        Seq::empty()
    } else {
        listing(d.tabs, keep_ids(d.products[k].tab_ids))
    }
}

/// The position of the first id of `ids` that names no tab, or -1.
pub open spec fn first_missing_tab(d: DatabaseV, ids: Seq<i32>) -> int {
    if exists|j: int| 0 <= j < ids.len() && id_index(d.tabs, #[trigger] ids[j]) < 0 {
        choose|j: int| 0 <= j < ids.len() && id_index(d.tabs, #[trigger] ids[j]) < 0
            && forall|m: int| 0 <= m < j ==> id_index(d.tabs, #[trigger] ids[m]) >= 0
    } else {
        -1
    }
}

/// The message for an empty tab selection.
pub open spec fn no_tabs_message() -> Seq<char> {
    "At least one tab is required"@
}

/// Resolving tab ids to tabs, in the order given: the selection must not be
/// empty and every id must name a tab (the first that does not is reported).
pub open spec fn tabs_by_ids(d: DatabaseV, ids: Seq<i32>) -> Result<Seq<NamedV>, Seq<char>> {
    let m = first_missing_tab(d, ids);
    if ids.len() == 0 {
        Err(no_tabs_message())
    } else if m >= 0 {
        Err("Tab not found: "@ + int_text(ids[m] as int))
    } else {
        Ok(Seq::new(ids.len(), |i: int| d.tabs[id_index(d.tabs, ids[i])]))
    }
}

/// The id of the category named `name`, if there is one.
pub open spec fn category_id_by_name(d: DatabaseV, name: Seq<char>) -> Option<i32> {
    let k = name_index(d.categories, name);
    if k >= 0 {
        Some(d.categories[k].id)
    } else {
        None
    }
}

/// The id of the tab named `name`, if there is one.
pub open spec fn tab_id_by_name(d: DatabaseV, name: Seq<char>) -> Option<i32> {
    let k = name_index(d.tabs, name);
    if k >= 0 {
        Some(d.tabs[k].id)
    } else {
        None
    }
}

/// Creating a category named `name` (not audited); a taken name violates
/// the uniqueness of category names.
pub open spec fn create_category_result(d: DatabaseV, name: Seq<char>) -> (DatabaseV, Result<i32, Seq<char>>) {
    if name_index(d.categories, name) >= 0 {
        (d, Err("UNIQUE constraint failed: categories.name"@))
    } else {
        let v = NamedV { id: d.next_category_id, name };
        (DatabaseV { categories: d.categories.push(v), next_category_id: (d.next_category_id + 1) as i32, ..d }, Ok(v.id))
    }
}

/// The category named `name`, created when there is none.
pub open spec fn category_for_name(d: DatabaseV, name: Seq<char>) -> (DatabaseV, i32) {
    match category_id_by_name(d, name) {
        Some(id) => (d, id),
        None => (create_category_result(d, name).0, d.next_category_id),
    }
}

/// The view of a result that carries a product.
pub open spec fn product_result(r: Result<Product, String>) -> Result<ProductV, Seq<char>> {
    match r {
        Ok(p) => Ok(p@),
        Err(e) => Err(e@),
    }
}

/// Finds the product with id `id`.
pub fn find_product(products: &Vec<ProductRow>, id: i32) -> (r: Option<usize>)
    requires
        product_ids_increasing(row_views(products@)),
    ensures
        match r {
            Some(k) => k < products@.len() && product_index(row_views(products@), id) == k,
            None => product_index(row_views(products@), id) == -1,
        },
{
    let mut i: usize = 0;
    while i < products.len()
        invariant
            0 <= i <= products@.len(),
            product_ids_increasing(row_views(products@)),
            forall|j: int| 0 <= j < i ==> #[trigger] row_views(products@)[j].id != id,
        decreases products@.len() - i,
    {
        assert(row_views(products@)[i as int] == products@[i as int]@);
        if products[i].id == id {
            proof {
                lemma_product_index(row_views(products@), id, i as int);
            }
            return Some(i);
        }
        i = i + 1;
    }
    None
}

/// Shows a stored product as the shop shows it.
pub fn show_product(db: &Database, row: &ProductRow) -> (p: Product)
    requires
        db@.wf(),
        has_id(db@.categories, row.category_id),
    ensures
        p@ == product_view(db@, row@),
{
    let ghost d = db@;
    let k = find_by_id(&db.categories, row.category_id).unwrap();
    proof {
        lemma_id_index(d.categories, row.category_id, k as int);
    }
    let tabs = sorted_listing(&db.tabs, Some(&row.tab_ids));
    proof {
        lemma_is_listing_is_listing(named_views(tabs@), d.tabs, keep_ids(row.tab_ids@));
        assert(tabs.deep_view() =~= named_views(tabs@));
    }
    Product {
        id: row.id,
        name: row.name.clone(),
        price_cents: row.price_cents,
        category_id: row.category_id,
        category_name: db.categories[k].name.clone(),
        sales_limit: row.sales_limit,
        sales_used: row.sales_used,
        tabs,
    }
}

/// Lists all products, in increasing id order.
pub fn get_products_with_pool(db: &Database) -> (r: Vec<Product>)
    requires
        db@.wf(),
    ensures
        r.deep_view() == products_view(db@),
{
    let ghost d = db@;
    let mut r: Vec<Product> = Vec::new();
    let mut i: usize = 0;
    while i < db.products.len()
        invariant
            0 <= i <= db.products@.len(),
            d == db@,
            d.wf(),
            r@.len() == i,
            forall|j: int| 0 <= j < i ==> #[trigger] r@[j]@ == product_view(d, d.products[j]),
        decreases db.products@.len() - i,
    {
        assert(d.products[i as int] == db.products@[i as int]@);
        let p = show_product(db, &db.products[i]);
        r.push(p);
        i = i + 1;
    }
    assert(r.deep_view() =~= products_view(d));
    r
}

/// Looks a product up by id.
pub fn get_product_with_pool(db: &Database, id: i32) -> (r: Result<Product, String>)
    requires
        db@.wf(),
    ensures
        product_result(r) == get_product_result(db@, id),
{
    match find_product(&db.products, id) {
        Some(k) => {
            assert(db@.products[k as int] == db.products@[k as int]@);
            Ok(show_product(db, &db.products[k]))
        },
        None => Err(String::from_str("Product not found")),
    }
}

/// Lists the tabs of a product, ordered by name.
pub fn get_tabs_for_product(db: &Database, product_id: i32) -> (r: Vec<Tab>)
    requires
        db@.wf(),
    ensures
        named_views(r@) == tabs_for_product(db@, product_id),
{
    match find_product(&db.products, product_id) {
        Some(k) => {
            assert(db@.products[k as int] == db.products@[k as int]@);
            let r = sorted_listing(&db.tabs, Some(&db.products[k].tab_ids));
            proof {
                lemma_is_listing_is_listing(named_views(r@), db@.tabs, keep_ids(db@.products[k as int].tab_ids));
            }
            r
        },
        None => {
            let r: Vec<Tab> = Vec::new();
            assert(named_views(r@) =~= Seq::<NamedV>::empty());
            r
        },
    }
}

/// The view of a result that carries a list of tabs.
pub open spec fn tabs_result(r: Result<Vec<Tab>, String>) -> Result<Seq<NamedV>, Seq<char>> {
    match r {
        Ok(v) => Ok(named_views(v@)),
        Err(e) => Err(e@),
    }
}

/// Resolves tab ids to tabs, in the order given.
pub fn get_tabs_by_ids(db: &Database, tab_ids: &Vec<i32>) -> (r: Result<Vec<Tab>, String>)
    requires
        db@.wf(),
    ensures
        tabs_result(r) == tabs_by_ids(db@, tab_ids@),
{
    let ghost d = db@;
    let ghost ids = tab_ids@;
    if tab_ids.len() == 0 {
        return Err(String::from_str("At least one tab is required"));
    }
    let mut tabs: Vec<Tab> = Vec::new();
    let mut i: usize = 0;
    while i < tab_ids.len()
        invariant
            0 <= i <= ids.len(),
            ids == tab_ids@,
            d == db@,
            d.wf(),
            tabs@.len() == i,
            forall|j: int| 0 <= j < i ==> id_index(d.tabs, #[trigger] ids[j]) >= 0,
            forall|j: int| 0 <= j < i ==> #[trigger] tabs@[j]@ == d.tabs[id_index(d.tabs, ids[j])],
        decreases ids.len() - i,
    {
        match find_by_id(&db.tabs, tab_ids[i]) {
            Some(k) => {
                proof {
                    lemma_id_index(d.tabs, ids[i as int], k as int);
                }
                tabs.push(db.tabs[k].duplicate());
            },
            None => {
                proof {
                    assert(id_index(d.tabs, ids[i as int]) < 0);
                    let m = first_missing_tab(d, ids);
                    assert(m >= 0);
                    if m < i {
                        assert(id_index(d.tabs, ids[m]) >= 0);
                    } else if m > i {
                        assert(id_index(d.tabs, ids[i as int]) >= 0);
                    }
                }
                let mut msg = String::from_str("Tab not found: ");
                let number = i64_to_string(tab_ids[i] as i64);
                push_str(&mut msg, number.as_str());
                return Err(msg);
            },
        }
        i = i + 1;
    }
    proof {
        assert(first_missing_tab(d, ids) == -1);
        assert(named_views(tabs@) =~= Seq::new(ids.len(), |j: int| d.tabs[id_index(d.tabs, ids[j])]));
    }
    Ok(tabs)
}

/// The id of the category named `name`, if there is one.
pub fn get_category_by_name(db: &Database, category_name: &str) -> (r: Option<i32>)
    requires
        db@.wf(),
    ensures
        r == category_id_by_name(db@, category_name@),
{
    match find_by_name(&db.categories, category_name) {
        Some(k) => {
            proof {
                lemma_name_index(db@.categories, category_name@, k as int);
            }
            Some(db.categories[k].id)
        },
        None => None,
    }
}

/// The id of the tab named `name`, if there is one.
pub fn get_tab_by_name(db: &Database, tab_name: &str) -> (r: Option<i32>)
    requires
        db@.wf(),
    ensures
        r == tab_id_by_name(db@, tab_name@),
{
    match find_by_name(&db.tabs, tab_name) {
        Some(k) => {
            proof {
                lemma_name_index(db@.tabs, tab_name@, k as int);
            }
            Some(db.tabs[k].id)
        },
        None => None,
    }
}

/// The view of a result that carries an id.
pub open spec fn id_result(r: Result<i32, String>) -> Result<i32, Seq<char>> {
    match r {
        Ok(v) => Ok(v),
        Err(e) => Err(e@),
    }
}

/// Creates a category named `category_name`, which must not be taken.
pub fn create_category(db: &mut Database, category_name: &str) -> (r: Result<i32, String>)
    requires
        old(db)@.wf(),
        old(db)@.has_room(),
    ensures
        final(db)@.wf(),
        (final(db)@, id_result(r)) == create_category_result(old(db)@, category_name@),
{
    let ghost d = db@;
    let id = db.next_category_id;
    match add_entry(&mut db.categories, id, category_name.to_owned()) {
        Some(_) => {
            db.next_category_id = id + 1;
            proof {
                let v = NamedV { id, name: category_name@ };
                lemma_has_id_after_push(d.categories, v, 1);
                assert forall|i: int| 0 <= i < d.products.len() implies has_id(db@.categories, (#[trigger] db@.products[i]).category_id) by {
                    lemma_has_id_after_push(d.categories, v, d.products[i].category_id);
                }
                assert(db@.categories =~= d.categories.push(v));
                assert(db@.orders =~= d.orders);
                assert forall|i: int| 0 <= i < db@.categories.len() implies #[trigger] db@.categories[i].id < db@.next_category_id by {
                    if i < d.categories.len() {
                        assert(d.categories[i].id < d.next_category_id);
                    }
                }
            }
            Ok(id)
        },
        None => Err(String::from_str("UNIQUE constraint failed: categories.name")),
    }
}


/// The message for a price that is not positive.
pub open spec fn price_message() -> Seq<char> {
    "Price must be greater than or equal to 0"@
}

/// Checks a price: a price that is zero or less is refused.
pub fn validate_price(price: Price) -> (r: Result<(), String>)
    ensures
        r is Ok <==> !price.not_positive,
        r matches Err(e) ==> e@ == price_message(),
{
    if price.not_positive {
        return Err(String::from_str("Price must be greater than or equal to 0"));
    }
    Ok(())
}

/// The message for a negative sales limit.
pub open spec fn sales_limit_message() -> Seq<char> {
    "Sales limit must be greater than or equal to 0"@
}

/// The view of an optional string.
pub open spec fn opt_str(o: Option<String>) -> Option<Seq<char>> {
    match o {
        Some(s) => Some(s@),
        None => None,
    }
}

/// Some id of `ids` names no tab.
pub open spec fn any_missing_tab(d: DatabaseV, ids: Seq<i32>) -> bool {
    exists|j: int| 0 <= j < ids.len() && id_index(d.tabs, #[trigger] ids[j]) < 0
}

/// Adding a product: the name is trimmed and must not be empty, the price
/// must be positive, a sales limit must not be negative, and the tab
/// selection is normalised and must name existing tabs. The category (by
/// default "Default") is looked up by name and created when missing. The new
/// product gets the next id, has sold nothing yet, and the addition is
/// audited.
pub open spec fn add_product_result(
    d: DatabaseV,
    name: Seq<char>,
    price: Price,
    category: Option<Seq<char>>,
    tab_ids: Option<Seq<i32>>,
    sales_limit: Option<i32>,
) -> (DatabaseV, Result<ProductV, Seq<char>>) {
    let n = trim(name);
    let cname = match category {
        Some(c) => c,
        None => "Default"@,
    };
    if n.len() == 0 {
        (d, Err(empty_name_message()))
    } else if price.not_positive {
        (d, Err(price_message()))
    } else if sales_limit matches Some(v) && v < 0 {
        (d, Err(sales_limit_message()))
    } else {
        match normalized_tab_ids(tab_ids) {
            Err(e) => (d, Err(e)),
            Ok(ids) => if any_missing_tab(d, ids) {
                (d, Err(foreign_key_message()))
            } else {
                let c = category_for_name(d, cname);
                let d1 = c.0;
                let id = d1.next_product_id;
                let row = ProductRowV {
                    id,
                    name: n,
                    price_cents: price.cents,
                    category_id: c.1,
                    tab_id: ids[0],
                    tab_ids: ids,
                    sales_limit,
                    sales_used: 0,
                };
                let p = ProductV {
                    id,
                    name: n,
                    price_cents: price.cents,
                    category_id: c.1,
                    category_name: cname,
                    sales_limit,
                    sales_used: 0,
                    tabs: listing(d1.tabs, keep_ids(ids)),
                };
                let d2 = DatabaseV { products: d1.products.push(row), next_product_id: (id + 1) as i32, ..d1 };
                (log(d2, audit(AuditAction::Insert, AuditTable::Products, int_text(id as int), None, Some(AuditRecordV::Product(p)))), Ok(p))
            },
        }
    }
}

/// Makes sure a category named `name` exists and returns its id.
fn ensure_category(db: &mut Database, name: &str) -> (r: i32)
    requires
        old(db)@.wf(),
        old(db)@.has_room(),
    ensures
        final(db)@.wf(),
        (final(db)@, r) == category_for_name(old(db)@, name@),
        has_id(final(db)@.categories, r),
        final(db)@.next_product_id == old(db)@.next_product_id,
        final(db)@.next_order_id == old(db)@.next_order_id,
        final(db)@.next_tab_id == old(db)@.next_tab_id,
        final(db)@.next_category_id <= old(db)@.next_category_id + 1,
{
    match get_category_by_name(db, name) {
        Some(c) => {
            proof {
                let k = name_index(db@.categories, name@);
                assert(db@.categories[k].id == c);
            }
            c
        },
        None => {
            let ghost d = db@;
            let id = db.next_category_id;
            let r = create_category(db, name);
            proof {
                assert(db@.categories[d.categories.len() as int].id == id);
            }
            id
        },
    }
}

/// Whether every id of `ids` names a tab.
fn all_tabs_exist(db: &Database, ids: &Vec<i32>) -> (r: bool)
    requires
        db@.wf(),
    ensures
        r == !any_missing_tab(db@, ids@),
{
    let mut i: usize = 0;
    while i < ids.len()
        invariant
            0 <= i <= ids@.len(),
            db@.wf(),
            forall|j: int| 0 <= j < i ==> id_index(db@.tabs, #[trigger] ids@[j]) >= 0,
        decreases ids@.len() - i,
    {
        match find_by_id(&db.tabs, ids[i]) {
            Some(k) => {
                proof {
                    lemma_id_index(db@.tabs, ids@[i as int], k as int);
                }
            },
            None => {
                assert(id_index(db@.tabs, ids@[i as int]) < 0);
                return false;
            },
        }
        i = i + 1;
    }
    true
}

/// Adds a product (see `add_product_result`).
pub fn add_product_with_pool(
    db: &mut Database,
    name: String,
    price: Price,
    category: Option<String>,
    tab_ids: Option<Vec<i32>>,
    sales_limit: Option<i32>,
) -> (r: Result<Product, String>)
    requires
        old(db)@.wf(),
        old(db)@.has_room(),
    ensures
        final(db)@.wf(),
        (final(db)@, product_result(r)) == add_product_result(
            old(db)@,
            name@,
            price,
            opt_str(category),
            crate::tab_ids::ids_view(tab_ids),
            sales_limit,
        ),
{
    let ghost d = db@;
    let ghost cname = match opt_str(category) {
        Some(c) => c,
        None => "Default"@,
    };
    let normalized = match normalize_product_name(name.as_str()) {
        Ok(n) => n,
        Err(e) => return Err(e),
    };
    if price.not_positive {
        return Err(String::from_str("Price must be greater than or equal to 0"));
    }
    match sales_limit {
        Some(v) => {
            if v < 0 {
                return Err(String::from_str("Sales limit must be greater than or equal to 0"));
            }
        },
        None => {},
    }
    let category_name = match category {
        Some(c) => c,
        None => String::from_str("Default"),
    };
    let ids = match normalize_tab_ids(tab_ids) {
        Ok(v) => v,
        Err(e) => return Err(e),
    };
    if !all_tabs_exist(db, &ids) {
        return Err(String::from_str("FOREIGN KEY constraint failed"));
    }
    let category_id = ensure_category(db, category_name.as_str());
    let ghost d1 = db@;
    let id = db.next_product_id;
    let tabs = sorted_listing(&db.tabs, Some(&ids));
    proof {
        lemma_is_listing_is_listing(named_views(tabs@), d1.tabs, keep_ids(ids@));
        assert(tabs.deep_view() =~= named_views(tabs@));
    }
    let product = Product {
        id,
        name: normalized.clone(),
        price_cents: price.cents,
        category_id,
        category_name,
        sales_limit,
        sales_used: 0,
        tabs,
    };
    let primary = ids[0];
    let row = ProductRow {
        id,
        name: normalized,
        price_cents: price.cents,
        category_id,
        tab_id: primary,
        tab_ids: ids,
        sales_limit,
        sales_used: 0,
    };
    db.products.push(row);
    db.next_product_id = id + 1;
    let record_id = i64_to_string(id as i64);
    db.audit_log.push(AuditEntry {
        action: AuditAction::Insert,
        table: AuditTable::Products,
        record_id,
        old_values: None,
        new_values: Some(AuditRecord::Product(product.duplicate())),
    });
    proof {
        let rv = row_views(db.products@);
        assert(rv =~= d1.products.push(rv[d1.products.len() as int]));
        assert(audit_views(db.audit_log@) =~= d1.audit_log.push(
            audit(AuditAction::Insert, AuditTable::Products, int_text(id as int), None, Some(AuditRecordV::Product(product@))),
        ));
        assert(db@.orders =~= d1.orders);
        assert(db@.categories =~= d1.categories);
        assert(db@.tabs =~= d1.tabs);
        assert(ids@.contains(ids@[0]));
        assert forall|i: int, j: int| 0 <= i < j < rv.len() implies #[trigger] rv[i].id < #[trigger] rv[j].id by {
            if j < d1.products.len() {
                assert(d1.products[i].id < d1.products[j].id);
            } else {
                assert(d1.products[i].id < d1.next_product_id);
            }
        }
        assert forall|i: int| 0 <= i < rv.len() implies #[trigger] rv[i].id < db@.next_product_id by {
            if i < d1.products.len() {
                assert(d1.products[i].id < d1.next_product_id);
            }
        }
        assert(!any_missing_tab(d, ids@));
        assert forall|j: int| 0 <= j < ids@.len() implies has_id(db@.tabs, #[trigger] ids@[j]) by {
            assert(id_index(d.tabs, ids@[j]) >= 0);
            let w = id_index(d.tabs, ids@[j]);
            assert(db@.tabs[w].id == ids@[j]);
        }
        assert(has_id(db@.tabs, ids@[0]));
    }
    Ok(product)
}


/// The ids of a list of tabs.
pub open spec fn tab_ids_of(tabs: Seq<NamedV>) -> Seq<i32> {
    Seq::new(tabs.len(), |i: int| tabs[i].id)
}

/// The final values of a product update, once every check has passed.
pub struct ProductUpdateV {
    pub k: int,
    pub name: Seq<char>,
    pub price_cents: i32,
    pub category_name: Seq<char>,
    pub sales_limit: Option<i32>,
    pub tab_ids: Seq<i32>,
    pub tabs: Seq<NamedV>,
}

/// Checking a product update: the product must exist. Each field that is
/// given replaces the stored one (a name is trimmed and must not be empty,
/// a price must be positive, a sales limit must not be negative, a tab
/// selection is normalised); fields not given are kept, and without a tab
/// selection the current tabs, in name order, are kept. The tabs must be
/// non-empty and exist.
pub open spec fn product_update_plan(
    d: DatabaseV,
    id: i32,
    name: Option<Seq<char>>,
    price: Option<Price>,
    category: Option<Seq<char>>,
    tab_ids: Option<Seq<i32>>,
    sales_limit: Option<Option<i32>>,
) -> Result<ProductUpdateV, Seq<char>> {
    let k = product_index(d.products, id);
    let row = d.products[k];
    let old = product_view(d, row);
    let n = match name {
        Some(x) => trim(x),
        None => row.name,
    };
    let cname = match category {
        Some(c) => c,
        None => old.category_name,
    };
    let limit = match sales_limit {
        Some(l) => l,
        None => row.sales_limit,
    };
    let cents = match price {
        Some(p) => p.cents,
        None => row.price_cents,
    };
    let ids_r: Result<Seq<i32>, Seq<char>> = match tab_ids {
        Some(t) => normalized_tab_ids(Some(t)),
        None => Ok(tab_ids_of(old.tabs)),
    };
    if k < 0 {
        Err("Query returned no rows"@)
    } else if name is Some && n.len() == 0 {
        Err(empty_name_message())
    } else if price matches Some(p) && p.not_positive {
        Err(price_message())
    } else if sales_limit matches Some(Some(v)) && v < 0 {
        Err(sales_limit_message())
    } else {
        match ids_r {
            Err(e) => Err(e),
            Ok(ids) => match tabs_by_ids(d, ids) {
                Err(e) => Err(e),
                Ok(tabs) => Ok(ProductUpdateV {
                    k,
                    name: n,
                    price_cents: cents,
                    category_name: cname,
                    sales_limit: limit,
                    tab_ids: ids,
                    tabs,
                }),
            },
        }
    }
}

/// Applying a checked product update: the category is looked up by name and
/// created when missing; the first tab becomes the primary tab and the tab
/// set becomes the given tabs; the update is audited with the old and the
/// new product, and the new product is returned.
pub open spec fn apply_product_update(d: DatabaseV, id: i32, u: ProductUpdateV) -> (DatabaseV, ProductV) {
    let row = d.products[u.k];
    let old = product_view(d, row);
    let c = category_for_name(d, u.category_name);
    let new_row = ProductRowV {
        id,
        name: u.name,
        price_cents: u.price_cents,
        category_id: c.1,
        tab_id: u.tabs[0].id,
        tab_ids: sorted_set(u.tab_ids),
        sales_limit: u.sales_limit,
        sales_used: row.sales_used,
    };
    let p = ProductV {
        id,
        name: u.name,
        price_cents: u.price_cents,
        category_id: c.1,
        category_name: u.category_name,
        sales_limit: u.sales_limit,
        sales_used: row.sales_used,
        tabs: u.tabs,
    };
    let d1 = DatabaseV { products: c.0.products.update(u.k, new_row), ..c.0 };
    (log(d1, audit(AuditAction::Update, AuditTable::Products, int_text(id as int),
        Some(AuditRecordV::Product(old)), Some(AuditRecordV::Product(p)))), p)
}

/// Updating a product: the update is checked, then applied.
pub open spec fn update_product_result(
    d: DatabaseV,
    id: i32,
    name: Option<Seq<char>>,
    price: Option<Price>,
    category: Option<Seq<char>>,
    tab_ids: Option<Seq<i32>>,
    sales_limit: Option<Option<i32>>,
) -> (DatabaseV, Result<ProductV, Seq<char>>) {
    match product_update_plan(d, id, name, price, category, tab_ids, sales_limit) {
        Err(e) => (d, Err(e)),
        Ok(u) => {
            let a = apply_product_update(d, id, u);
            (a.0, Ok(a.1))
        },
    }
}

/// The ids of a list of tabs.
fn ids_of_tabs(tabs: &Vec<Tab>) -> (r: Vec<i32>)
    ensures
        r@ == tab_ids_of(named_views(tabs@)),
{
    let mut r: Vec<i32> = Vec::new();
    let mut i: usize = 0;
    while i < tabs.len()
        invariant
            0 <= i <= tabs@.len(),
            r@.len() == i,
            forall|j: int| 0 <= j < i ==> #[trigger] r@[j] == tabs@[j].id,
        decreases tabs@.len() - i,
    {
        r.push(tabs[i].id);
        i = i + 1;
    }
    assert(r@ =~= tab_ids_of(named_views(tabs@)));
    r
}

/// The final values of a checked product update.
pub struct ProductUpdate {
    pub k: usize,
    pub name: String,
    pub price_cents: i32,
    pub category_name: String,
    pub sales_limit: Option<i32>,
    pub tab_ids: Vec<i32>,
    pub tabs: Vec<Tab>,
}

impl View for ProductUpdate {
    type V = ProductUpdateV;

    open spec fn view(&self) -> ProductUpdateV {
        ProductUpdateV {
            k: self.k as int,
            name: self.name@,
            price_cents: self.price_cents,
            category_name: self.category_name@,
            sales_limit: self.sales_limit,
            tab_ids: self.tab_ids@,
            tabs: named_views(self.tabs@),
        }
    }
}

/// Checks a product update (see `product_update_plan`).
fn plan_product_update(
    db: &Database,
    id: i32,
    name: Option<String>,
    price: Option<Price>,
    category: Option<String>,
    tab_ids: Option<Vec<i32>>,
    sales_limit: Option<Option<i32>>,
) -> (r: Result<ProductUpdate, String>)
    requires
        db@.wf(),
    ensures
        match r {
            Ok(u) => product_update_plan(db@, id, opt_str(name), price, opt_str(category),
                crate::tab_ids::ids_view(tab_ids), sales_limit) == Ok::<ProductUpdateV, Seq<char>>(u@),
            Err(e) => product_update_plan(db@, id, opt_str(name), price, opt_str(category),
                crate::tab_ids::ids_view(tab_ids), sales_limit) == Err::<ProductUpdateV, Seq<char>>(e@),
        },
{
    let ghost d = db@;
    let k = match find_product(&db.products, id) {
        Some(k) => k,
        None => return Err(String::from_str("Query returned no rows")),
    };
    let row = &db.products[k];
    assert(d.products[k as int] == row@);
    let old_product = show_product(db, row);
    let final_name = match name {
        Some(n) => match normalize_product_name(n.as_str()) {
            Ok(t) => t,
            Err(e) => return Err(e),
        },
        None => row.name.clone(),
    };
    let final_cents = match price {
        Some(p) => {
            if p.not_positive {
                return Err(String::from_str("Price must be greater than or equal to 0"));
            }
            p.cents
        },
        None => row.price_cents,
    };
    let final_category_name = match category {
        Some(c) => c,
        None => old_product.category_name.clone(),
    };
    let final_limit = match sales_limit {
        Some(l) => {
            match l {
                Some(v) => {
                    if v < 0 {
                        return Err(String::from_str("Sales limit must be greater than or equal to 0"));
                    }
                },
                None => {},
            }
            l
        },
        None => row.sales_limit,
    };
    let final_ids = match tab_ids {
        Some(t) => match normalize_tab_ids(Some(t)) {
            Ok(v) => v,
            Err(e) => return Err(e),
        },
        None => {
            assert(old_product.tabs.deep_view() =~= named_views(old_product.tabs@));
            ids_of_tabs(&old_product.tabs)
        },
    };
    let final_tabs = match get_tabs_by_ids(db, &final_ids) {
        Ok(t) => t,
        Err(e) => return Err(e),
    };
    Ok(ProductUpdate {
        k,
        name: final_name,
        price_cents: final_cents,
        category_name: final_category_name,
        sales_limit: final_limit,
        tab_ids: final_ids,
        tabs: final_tabs,
    })
}

/// Applies a checked product update (see `apply_product_update`).
#[verifier::rlimit(40)]
fn apply_update(db: &mut Database, id: i32, u: ProductUpdate) -> (r: Product)
    requires
        old(db)@.wf(),
        old(db)@.has_room(),
        0 <= u.k < old(db)@.products.len(),
        old(db)@.products[u.k as int].id == id,
        tabs_by_ids(old(db)@, u.tab_ids@) == Ok::<Seq<NamedV>, Seq<char>>(named_views(u.tabs@)),
    ensures
        final(db)@.wf(),
        (final(db)@, r@) == apply_product_update(old(db)@, id, u@),
{
    let ghost d = db@;
    let ghost uv = u@;
    let ghost ids = u.tab_ids@;
    let k = u.k;
    let row = db.products[k].duplicate();
    assert(d.products[k as int] == row@);
    let old_product = show_product(db, &row);
    assert(named_views(u.tabs@).len() == ids.len());
    let category_id = ensure_category(db, u.category_name.as_str());
    let ghost d1 = db@;
    let tab_set = sort_dedup(&u.tab_ids);
    let primary = u.tabs[0].id;
    let new_row = ProductRow {
        id,
        name: u.name.clone(),
        price_cents: u.price_cents,
        category_id,
        tab_id: primary,
        tab_ids: tab_set,
        sales_limit: u.sales_limit,
        sales_used: row.sales_used,
    };
    proof {
        assert(u.tabs.deep_view() =~= named_views(u.tabs@));
    }
    let product = Product {
        id,
        name: u.name,
        price_cents: u.price_cents,
        category_id,
        category_name: u.category_name,
        sales_limit: u.sales_limit,
        sales_used: row.sales_used,
        tabs: u.tabs,
    };
    db.products.set(k, new_row);
    let record_id = i64_to_string(id as i64);
    db.audit_log.push(AuditEntry {
        action: AuditAction::Update,
        table: AuditTable::Products,
        record_id,
        old_values: Some(AuditRecord::Product(old_product)),
        new_values: Some(AuditRecord::Product(product.duplicate())),
    });
    proof {
        let rv = row_views(db.products@);
        assert(rv =~= d1.products.update(k as int, rv[k as int]));
        assert(d1.products =~= d.products);
        assert(db@.orders =~= d1.orders);
        assert(db@.categories =~= d1.categories);
        assert(db@.tabs =~= d1.tabs);
        assert(d1.tabs =~= d.tabs);
        assert forall|i: int, j: int| 0 <= i < j < rv.len() implies #[trigger] rv[i].id < #[trigger] rv[j].id by {
            assert(d.products[i].id < d.products[j].id);
        }
        assert forall|i: int| 0 <= i < rv.len() implies #[trigger] rv[i].id < db@.next_product_id by {
            assert(d.products[i].id < d.next_product_id);
        }
        assert(first_missing_tab(d, ids) < 0);
        assert forall|j: int| 0 <= j < ids.len() implies has_id(db@.tabs, #[trigger] ids[j]) by {
            if id_index(d.tabs, ids[j]) < 0 {
                lemma_first_missing_exists(d, ids, j);
            }
            let w = id_index(d.tabs, ids[j]);
            assert(db@.tabs[w].id == ids[j]);
        }
        let set = tab_set@;
        assert forall|j: int| 0 <= j < set.len() implies has_id(db@.tabs, #[trigger] set[j]) by {
            assert(set.contains(set[j]));
            assert(ids.contains(set[j]));
            let q = choose|q: int| 0 <= q < ids.len() && ids[q] == set[j];
            assert(has_id(db@.tabs, ids[q]));
        }
        assert(has_id(db@.tabs, ids[0]));
        let w0 = id_index(d.tabs, ids[0]);
        assert(named_views(u.tabs@)[0] == d.tabs[w0]);
        assert(d.tabs[w0].id == ids[0]);
        assert forall|i: int| 0 <= i < rv.len() implies has_id(db@.tabs, (#[trigger] rv[i]).tab_id) by {
            if i != k {
                assert(rv[i] == d.products[i]);
            }
        }
        assert(audit_views(db.audit_log@) =~= d1.audit_log.push(
            audit(AuditAction::Update, AuditTable::Products, int_text(id as int),
                Some(AuditRecordV::Product(product_view(d, d.products[k as int]))), Some(AuditRecordV::Product(product@))),
        ));
    }
    product
}

/// Updates a product (see `update_product_result`).
pub fn update_product_with_pool(
    db: &mut Database,
    id: i32,
    name: Option<String>,
    price: Option<Price>,
    category: Option<String>,
    tab_ids: Option<Vec<i32>>,
    sales_limit: Option<Option<i32>>,
) -> (r: Result<Product, String>)
    requires
        old(db)@.wf(),
        old(db)@.has_room(),
    ensures
        final(db)@.wf(),
        (final(db)@, product_result(r)) == update_product_result(
            old(db)@,
            id,
            opt_str(name),
            price,
            opt_str(category),
            crate::tab_ids::ids_view(tab_ids),
            sales_limit,
        ),
{
    match plan_product_update(db, id, name, price, category, tab_ids, sales_limit) {
        Err(e) => Err(e),
        Ok(u) => Ok(apply_update(db, id, u)),
    }
}

/// A tab selection with a missing tab has a first missing tab.
pub proof fn lemma_first_missing_exists(d: DatabaseV, ids: Seq<i32>, m: int)
    requires
        0 <= m < ids.len(),
        id_index(d.tabs, ids[m]) < 0,
    ensures
        first_missing_tab(d, ids) >= 0,
    decreases m,
{
    if exists|j: int| 0 <= j < m && id_index(d.tabs, #[trigger] ids[j]) < 0 {
        let j = choose|j: int| 0 <= j < m && id_index(d.tabs, #[trigger] ids[j]) < 0;
        lemma_first_missing_exists(d, ids, j);
    } else {
        assert(id_index(d.tabs, ids[m]) < 0 && forall|q: int| 0 <= q < m ==> id_index(d.tabs, #[trigger] ids[q]) >= 0);
    }
}

/// Deleting a product: the attempt is audited; the product must exist.
pub open spec fn delete_product_result(d: DatabaseV, id: i32) -> (DatabaseV, Result<(), Seq<char>>) {
    let k = product_index(d.products, id);
    let d1 = log(d, audit(AuditAction::Delete, AuditTable::Products, int_text(id as int), None, None));
    if k < 0 {
        (d1, Err(product_not_found_message()))
    } else {
        (DatabaseV { products: d1.products.remove(k), ..d1 }, Ok(()))
    }
}

/// The sales limit part of a product update as the screen sends it: the
/// limit (possibly none) is applied only when the screen says it changed.
pub fn sales_limit_update(sales_limit: Option<i32>, changed: Option<bool>) -> (r: Option<Option<i32>>)
    ensures
        changed == Some(true) ==> r == Some(sales_limit),
        changed != Some(true) ==> r is None,
{
    match changed {
        Some(true) => Some(sales_limit),
        _ => None,
    }
}

/// Deletes a product (see `delete_product_result`).
pub fn delete_product_with_pool(db: &mut Database, id: i32) -> (r: Result<(), String>)
    requires
        old(db)@.wf(),
    ensures
        final(db)@.wf(),
        (final(db)@, unit_result(r)) == delete_product_result(old(db)@, id),
{
    let ghost d = db@;
    let found = find_product(&db.products, id);
    let record_id = i64_to_string(id as i64);
    db.audit_log.push(AuditEntry {
        action: AuditAction::Delete,
        table: AuditTable::Products,
        record_id,
        old_values: None,
        new_values: None,
    });
    assert(audit_views(db.audit_log@) =~= d.audit_log.push(
        audit(AuditAction::Delete, AuditTable::Products, int_text(id as int), None, None),
    ));
    assert(db@.orders =~= d.orders);
    assert(db@.products =~= d.products);
    match found {
        Some(k) => {
            db.products.remove(k);
            proof {
                let rv = row_views(db.products@);
                assert(rv =~= d.products.remove(k as int));
                assert forall|i: int, j: int| 0 <= i < j < rv.len() implies #[trigger] rv[i].id < #[trigger] rv[j].id by {
                    let i2 = if i < k { i } else { i + 1 };
                    let j2 = if j < k { j } else { j + 1 };
                    assert(d.products[i2].id < d.products[j2].id);
                }
                assert forall|i: int| 0 <= i < rv.len() implies #[trigger] rv[i].id < db@.next_product_id by {
                    let i2 = if i < k { i } else { i + 1 };
                    assert(d.products[i2].id < d.next_product_id);
                }
                assert forall|i: int| 0 <= i < rv.len() implies has_id(db@.categories, (#[trigger] rv[i]).category_id) by {
                    let i2 = if i < k { i } else { i + 1 };
                    assert(rv[i] == d.products[i2]);
                }
            }
            Ok(())
        },
        None => Err(String::from_str("Product not found")),
    }
}


/// Whether no two entries share an id or a name.
fn distinct_entries<T: Named>(v: &Vec<T>) -> (r: bool)
    ensures
        r == (ids_distinct(named_views(v@)) && names_distinct(named_views(v@))),
{
    let ghost s = named_views(v@);
    let mut i: usize = 0;
    while i < v.len()
        invariant
            0 <= i <= v@.len(),
            s == named_views(v@),
            forall|a: int, b: int| 0 <= a < i && 0 <= b < s.len() && a != b ==> #[trigger] s[a].id != #[trigger] s[b].id,
            forall|a: int, b: int| 0 <= a < i && 0 <= b < s.len() && a != b ==> #[trigger] s[a].name != #[trigger] s[b].name,
        decreases v@.len() - i,
    {
        let mut j: usize = 0;
        while j < v.len()
            invariant
                0 <= j <= v@.len(),
                0 <= i < v@.len(),
                s == named_views(v@),
                forall|a: int, b: int| 0 <= a < i && 0 <= b < s.len() && a != b ==> #[trigger] s[a].id != #[trigger] s[b].id,
                forall|a: int, b: int| 0 <= a < i && 0 <= b < s.len() && a != b ==> #[trigger] s[a].name != #[trigger] s[b].name,
                forall|b: int| 0 <= b < j && b != i ==> s[i as int].id != #[trigger] s[b].id,
                forall|b: int| 0 <= b < j && b != i ==> s[i as int].name != #[trigger] s[b].name,
            decreases v@.len() - j,
        {
            assert(s[i as int] == v@[i as int].named_view());
            assert(s[j as int] == v@[j as int].named_view());
            if j != i {
                let same_id = v[i].id_of() == v[j].id_of();
                let same_name = str_eq(v[i].name_of(), v[j].name_of());
                if same_id || same_name {
                    assert(s[i as int].id == s[j as int].id || s[i as int].name == s[j as int].name);
                    return false;
                }
                assert(s[i as int].id != s[j as int].id && s[i as int].name != s[j as int].name);
            }
            j = j + 1;
        }
        proof {
            assert forall|b: int| 0 <= b < s.len() && b != i implies #[trigger] s[i as int].id != s[b].id by {}
            assert forall|a: int, b: int| 0 <= a < i + 1 && 0 <= b < s.len() && a != b implies #[trigger] s[a].name != #[trigger] s[b].name by {
                if a == i {
                    assert(s[i as int].name != s[b].name);
                }
            }
        }
        i = i + 1;
    }
    true
}

/// Whether every id of a table is below `next`.
fn ids_below<T: Named>(v: &Vec<T>, next: i32) -> (r: bool)
    ensures
        r == forall|i: int| 0 <= i < v@.len() ==> #[trigger] named_views(v@)[i].id < next,
{
    let mut i: usize = 0;
    while i < v.len()
        invariant
            0 <= i <= v@.len(),
            forall|j: int| 0 <= j < i ==> #[trigger] named_views(v@)[j].id < next,
        decreases v@.len() - i,
    {
        if v[i].id_of() >= next {
            assert(named_views(v@)[i as int].id >= next);
            return false;
        }
        i = i + 1;
    }
    true
}

/// Whether a stored product row refers to existing rows and has an
/// increasing tab set.
fn row_consistent(db: &Database, row: &ProductRow) -> (r: bool)
    ensures
        r == ({
            &&& has_id(db@.categories, row@.category_id)
            &&& has_id(db@.tabs, row@.tab_id)
            &&& strictly_increasing(row@.tab_ids)
            &&& forall|j: int| 0 <= j < row@.tab_ids.len() ==> has_id(db@.tabs, #[trigger] row@.tab_ids[j])
        }),
{
    let c = find_by_id(&db.categories, row.category_id);
    if c.is_none() {
        assert(!has_id(db@.categories, row@.category_id));
        return false;
    }
    let t = find_by_id(&db.tabs, row.tab_id);
    if t.is_none() {
        assert(!has_id(db@.tabs, row@.tab_id));
        return false;
    }
    proof {
        let k1 = c->Some_0 as int;
        let k2 = t->Some_0 as int;
        assert(db@.categories[k1].id == row@.category_id);
        assert(db@.tabs[k2].id == row@.tab_id);
    }
    let ids = &row.tab_ids;
    let mut i: usize = 0;
    while i < ids.len()
        invariant
            0 <= i <= ids@.len(),
            ids@ == row@.tab_ids,
            forall|j: int| 0 <= j < i ==> has_id(db@.tabs, #[trigger] ids@[j]),
            forall|a: int, b: int| 0 <= a < b < i ==> #[trigger] ids@[a] < #[trigger] ids@[b],
        decreases ids@.len() - i,
    {
        if i > 0 && ids[i - 1] >= ids[i] {
            assert(!(ids@[i - 1] < ids@[i as int]));
            return false;
        }
        if find_by_id(&db.tabs, ids[i]).is_none() {
            assert(!has_id(db@.tabs, ids@[i as int]));
            return false;
        }
        proof {
            assert forall|a: int, b: int| 0 <= a < b < i + 1 implies #[trigger] ids@[a] < #[trigger] ids@[b] by {
                if b == i && a < i - 1 {
                    assert(ids@[a] < ids@[i - 1]);
                }
            }
        }
        i = i + 1;
    }
    true
}

impl Database {
    /// A fresh shop: the default category "Default" and the default tab
    /// "Alle" (both id 1), and nothing else.
    pub fn new() -> (db: Database)
        ensures
            db@.wf(),
            db@.has_room(),
            db@.categories == seq![NamedV { id: 1, name: "Default"@ }],
            db@.tabs == seq![NamedV { id: 1, name: "Alle"@ }],
            db@.products.len() == 0,
            db@.orders.len() == 0,
            db@.audit_log.len() == 0,
            db@.next_category_id == 2,
            db@.next_tab_id == 2,
            db@.next_product_id == 1,
            db@.next_order_id == 1,
            db@.outbox.len() == 0,
            db@.next_outbox_id == 1,
    {
        let mut categories: Vec<Category> = Vec::new();
        categories.push(Category { id: 1, name: String::from_str("Default") });
        let mut tabs: Vec<Tab> = Vec::new();
        tabs.push(Tab { id: 1, name: String::from_str("Alle") });
        let db = Database {
            categories,
            tabs,
            products: Vec::new(),
            orders: Vec::new(),
            audit_log: Vec::new(),
            next_category_id: 2,
            next_tab_id: 2,
            next_product_id: 1,
            next_order_id: 1,
            outbox: Vec::new(),
            next_outbox_id: 1,
        };
        proof {
            assert(db@.categories =~= seq![NamedV { id: 1, name: "Default"@ }]);
            assert(db@.tabs =~= seq![NamedV { id: 1, name: "Alle"@ }]);
            assert(db@.categories[0].id == 1);
            assert(db@.tabs[0].id == 1);
            assert(db@.products =~= Seq::<ProductRowV>::empty());
            assert(db@.orders =~= Seq::<OrderV>::empty());
            assert(db@.outbox =~= Seq::<SyncOutboxEntryV>::empty());
        }
        db
    }

    /// Whether the state satisfies the invariant (`DatabaseV::wf`).
    pub fn is_well_formed(&self) -> (r: bool)
        ensures
            r == self@.wf(),
    {
        let ghost d = self@;
        if !distinct_entries(&self.categories) || !distinct_entries(&self.tabs) {
            return false;
        }
        if find_by_id(&self.categories, 1).is_none() || find_by_id(&self.tabs, 1).is_none() {
            return false;
        }
        if !ids_below(&self.categories, self.next_category_id) || !ids_below(&self.tabs, self.next_tab_id) {
            return false;
        }
        let mut i: usize = 0;
        while i < self.products.len()
            invariant
                0 <= i <= self.products@.len(),
                d == self@,
                forall|a: int, b: int| 0 <= a < b < i ==> #[trigger] d.products[a].id < #[trigger] d.products[b].id,
                forall|a: int| 0 <= a < i ==> #[trigger] d.products[a].id < d.next_product_id,
                forall|a: int| #![trigger d.products[a]] 0 <= a < i ==> {
                    &&& has_id(d.categories, d.products[a].category_id)
                    &&& has_id(d.tabs, d.products[a].tab_id)
                    &&& strictly_increasing(d.products[a].tab_ids)
                    &&& forall|j: int| 0 <= j < d.products[a].tab_ids.len() ==> has_id(d.tabs, #[trigger] d.products[a].tab_ids[j])
                },
            decreases self.products@.len() - i,
        {
            let row = &self.products[i];
            assert(d.products[i as int] == row@);
            if row.id >= self.next_product_id {
                assert(d.products[i as int].id >= d.next_product_id);
                return false;
            }
            if i > 0 && self.products[i - 1].id >= row.id {
                assert(d.products[i - 1] == self.products@[i - 1]@);
                assert(!(d.products[i - 1].id < d.products[i as int].id));
                return false;
            }
            if !row_consistent(self, row) {
                assert(!({
                    &&& has_id(d.categories, d.products[i as int].category_id)
                    &&& has_id(d.tabs, d.products[i as int].tab_id)
                    &&& strictly_increasing(d.products[i as int].tab_ids)
                    &&& forall|j: int| 0 <= j < d.products[i as int].tab_ids.len() ==> has_id(d.tabs, #[trigger] d.products[i as int].tab_ids[j])
                }));
                return false;
            }
            proof {
                if i > 0 {
                    assert(d.products[i - 1] == self.products@[i - 1]@);
                }
                assert forall|a: int, b: int| 0 <= a < b < i + 1 implies #[trigger] d.products[a].id < #[trigger] d.products[b].id by {
                    if b == i && a < i - 1 {
                        assert(d.products[a].id < d.products[i - 1].id);
                    }
                }
            }
            i = i + 1;
        }
        let mut k: usize = 0;
        while k < self.orders.len()
            invariant
                0 <= k <= self.orders@.len(),
                d == self@,
                forall|a: int, b: int| 0 <= a < b < k ==> #[trigger] d.orders[a].id < #[trigger] d.orders[b].id,
                forall|a: int| 0 <= a < k ==> #[trigger] d.orders[a].id < d.next_order_id,
            decreases self.orders@.len() - k,
        {
            assert(d.orders[k as int] == self.orders@[k as int]@);
            if self.orders[k].id >= self.next_order_id {
                assert(d.orders[k as int].id >= d.next_order_id);
                return false;
            }
            if k > 0 && self.orders[k - 1].id >= self.orders[k].id {
                assert(d.orders[k - 1] == self.orders@[k - 1]@);
                assert(!(d.orders[k - 1].id < d.orders[k as int].id));
                return false;
            }
            proof {
                if k > 0 {
                    assert(d.orders[k - 1] == self.orders@[k - 1]@);
                }
                assert forall|a: int, b: int| 0 <= a < b < k + 1 implies #[trigger] d.orders[a].id < #[trigger] d.orders[b].id by {
                    if b == k && a < k - 1 {
                        assert(d.orders[a].id < d.orders[k - 1].id);
                    }
                }
            }
            k = k + 1;
        }
        true
    }

    /// Whether every table has room for one more id.
    pub fn has_room(&self) -> (r: bool)
        ensures
            r == self@.has_room(),
    {
        self.next_category_id < i32::MAX && self.next_tab_id < i32::MAX && self.next_product_id < i32::MAX
            && self.next_order_id < i64::MAX
    }
}


impl DatabaseV {
    /// Ids and names are unique in the categories and in the tabs (as the
    /// schema's keys guarantee).
    pub open spec fn keys_unique(self) -> bool {
        &&& ids_distinct(self.categories)
        &&& names_distinct(self.categories)
        &&& ids_distinct(self.tabs)
        &&& names_distinct(self.tabs)
    }
}

/// The next id after an explicit insert of id 1.
pub open spec fn after_explicit_one(next: i32) -> i32 {
    if next < 2 { 2 } else { next }
}

/// Making sure the default rows exist: the category "Default" with id 1
/// (unless id 1 or the name is taken), the tab "Alle" with id 1 (likewise),
/// and tab 1 named "Alle" (which fails when another tab has that name).
pub open spec fn init_defaults(d: DatabaseV) -> (DatabaseV, Result<(), Seq<char>>) {
    let d1 = if has_id(d.categories, 1) || name_index(d.categories, "Default"@) >= 0 {
        d
    } else {
        DatabaseV {
            categories: d.categories.push(NamedV { id: 1, name: "Default"@ }),
            next_category_id: after_explicit_one(d.next_category_id),
            ..d
        }
    };
    let d2 = if has_id(d1.tabs, 1) || name_index(d1.tabs, "Alle"@) >= 0 {
        d1
    } else {
        DatabaseV { tabs: d1.tabs.push(NamedV { id: 1, name: "Alle"@ }), next_tab_id: after_explicit_one(d1.next_tab_id), ..d1 }
    };
    let k = id_index(d2.tabs, 1);
    let m = name_index(d2.tabs, "Alle"@);
    if k < 0 {
        (d2, Ok(()))
    } else if m >= 0 && d2.tabs[m].id != 1 {
        (d2, Err("UNIQUE constraint failed: tabs.name"@))
    } else {
        (DatabaseV { tabs: d2.tabs.update(k, NamedV { id: 1, name: "Alle"@ }), ..d2 }, Ok(()))
    }
}

impl Database {
    /// Whether ids and names are unique in the categories and in the tabs.
    pub fn keys_unique(&self) -> (r: bool)
        ensures
            r == self@.keys_unique(),
    {
        distinct_entries(&self.categories) && distinct_entries(&self.tabs)
    }
}

/// Makes sure the default category and tab exist (see `init_defaults`).
pub fn init_db_with_pool(db: &mut Database) -> (r: Result<(), String>)
    requires
        old(db)@.keys_unique(),
    ensures
        final(db)@.keys_unique(),
        (final(db)@, unit_result(r)) == init_defaults(old(db)@),
{
    let ghost d = db@;
    let default_category = String::from_str("Default");
    let default_tab = String::from_str("Alle");
    if find_by_id(&db.categories, 1).is_none() && find_by_name(&db.categories, default_category.as_str()).is_none() {
        let next = if db.next_category_id < 2 { 2 } else { db.next_category_id };
        match add_entry(&mut db.categories, 1, default_category) {
            Some(_) => {},
            None => {},
        }
        db.next_category_id = next;
    } else {
        proof {
            if !has_id(d.categories, 1) {
                assert(name_index(d.categories, "Default"@) >= 0);
            }
        }
    }
    let ghost d1 = db@;
    if find_by_id(&db.tabs, 1).is_none() && find_by_name(&db.tabs, default_tab.as_str()).is_none() {
        let next = if db.next_tab_id < 2 { 2 } else { db.next_tab_id };
        match add_entry(&mut db.tabs, 1, default_tab.clone()) {
            Some(_) => {},
            None => {},
        }
        db.next_tab_id = next;
    }
    let ghost d2 = db@;
    match find_by_id(&db.tabs, 1) {
        None => Ok(()),
        Some(k) => {
            proof {
                lemma_id_index(d2.tabs, 1, k as int);
            }
            match find_by_name(&db.tabs, default_tab.as_str()) {
                Some(m) => {
                    proof {
                        lemma_name_index(d2.tabs, "Alle"@, m as int);
                    }
                    if db.tabs[m].id != 1 {
                        return Err(String::from_str("UNIQUE constraint failed: tabs.name"));
                    }
                },
                None => {},
            }
            let ghost t = d2.tabs;
            db.tabs.set(k, Tab { id: 1, name: default_tab });
            proof {
                let nt = db@.tabs;
                assert(nt =~= t.update(k as int, NamedV { id: 1, name: "Alle"@ }));
                assert forall|a: int, b: int| 0 <= a < nt.len() && 0 <= b < nt.len() && a != b
                    implies #[trigger] nt[a].name != #[trigger] nt[b].name && nt[a].id != nt[b].id by {
                    assert(t[a].id != t[b].id && t[a].name != t[b].name);
                    if a == k && t[b].name == "Alle"@ {
                        lemma_name_index(t, "Alle"@, b);
                    }
                    if b == k && t[a].name == "Alle"@ {
                        lemma_name_index(t, "Alle"@, a);
                    }
                }
            }
            Ok(())
        },
    }
}

/// Where an outbox entry stands.
#[derive(Clone, Copy, Debug, PartialEq, Eq, Structural)]
pub enum OutboxStatus {
    /// Queued, not yet delivered.
    Pending,
    /// Delivered.
    Sent,
    /// Refused at its last delivery (it is tried again).
    Failed,
}

/// The view of an outbox entry.
pub struct SyncOutboxEntryV {
    pub id: i64,
    pub event_type: Seq<char>,
    pub payload: Seq<char>,
    pub status: OutboxStatus,
    pub last_error: Option<Seq<char>>,
}

/// An event queued for the central API: its type, its payload (JSON
/// text), where its delivery stands, and the error of its last refusal.
#[derive(Debug)]
pub struct SyncOutboxEntry {
    pub id: i64,
    pub event_type: String,
    pub payload: String,
    pub status: OutboxStatus,
    pub last_error: Option<String>,
}

impl View for SyncOutboxEntry {
    type V = SyncOutboxEntryV;

    open spec fn view(&self) -> SyncOutboxEntryV {
        SyncOutboxEntryV {
            id: self.id,
            event_type: self.event_type@,
            payload: self.payload@,
            status: self.status,
            last_error: opt_str(self.last_error),
        }
    }
}

impl SyncOutboxEntry {
    /// A copy of the entry.
    pub fn duplicate(&self) -> (r: SyncOutboxEntry)
        ensures
            r@ == self@,
    {
        SyncOutboxEntry {
            id: self.id,
            event_type: self.event_type.clone(),
            payload: self.payload.clone(),
            status: self.status,
            last_error: match &self.last_error {
                Some(e) => Some(e.clone()),
                None => None,
            },
        }
    }
}

/// The views of a sequence of outbox entries.
pub open spec fn outbox_views(s: Seq<SyncOutboxEntry>) -> Seq<SyncOutboxEntryV> {
    Seq::new(s.len(), |i: int| s[i]@)
}

/// Queueing an event: it gets the next outbox id and waits for delivery.
pub open spec fn enqueue_result(d: DatabaseV, event_type: Seq<char>, payload: Seq<char>) -> DatabaseV {
    let e = SyncOutboxEntryV { id: d.next_outbox_id, event_type, payload, status: OutboxStatus::Pending, last_error: None };
    DatabaseV { outbox: d.outbox.push(e), next_outbox_id: (d.next_outbox_id + 1) as i64, ..d }
}

/// The entries not yet delivered, oldest first.
pub open spec fn pending_entries(s: Seq<SyncOutboxEntryV>) -> Seq<SyncOutboxEntryV>
    decreases s.len(),
{
    if s.len() == 0 {
        Seq::empty()
    } else if s.last().status != OutboxStatus::Sent {
        pending_entries(s.drop_last()).push(s.last())
    } else {
        pending_entries(s.drop_last())
    }
}

/// The outbox with the entries of id `id` given a new status and error
/// (no entry changes when none has that id).
pub open spec fn mark_entries(
    s: Seq<SyncOutboxEntryV>,
    id: i64,
    status: OutboxStatus,
    error: Option<Seq<char>>,
) -> Seq<SyncOutboxEntryV> {
    Seq::new(s.len(), |i: int| if s[i].id == id { SyncOutboxEntryV { status, last_error: error, ..s[i] } } else { s[i] })
}

/// Queues an event for the central API (see `enqueue_result`).
pub fn enqueue_sync_outbox_event_with_pool(db: &mut Database, event_type: String, payload: String) -> (r: Result<(), String>)
    requires
        old(db).next_outbox_id < i64::MAX,
    ensures
        r is Ok,
        final(db)@ == enqueue_result(old(db)@, event_type@, payload@),
{
    let ghost d = db@;
    let id = db.next_outbox_id;
    db.outbox.push(SyncOutboxEntry { id, event_type, payload, status: OutboxStatus::Pending, last_error: None });
    db.next_outbox_id = id + 1;
    assert(db@.outbox =~= enqueue_result(d, event_type@, payload@).outbox);
    Ok(())
}

/// Lists the entries not yet delivered, oldest first.
pub fn list_pending_sync_outbox_entries_with_pool(db: &Database) -> (r: Vec<SyncOutboxEntry>)
    ensures
        outbox_views(r@) == pending_entries(db@.outbox),
{
    let ghost all = db@.outbox;
    let mut r: Vec<SyncOutboxEntry> = Vec::new();
    let mut i: usize = 0;
    while i < db.outbox.len()
        invariant
            0 <= i <= db.outbox@.len(),
            all == db@.outbox,
            outbox_views(r@) == pending_entries(all.take(i as int)),
        decreases db.outbox@.len() - i,
    {
        let e = &db.outbox[i];
        let ghost before = r@;
        proof {
            assert(all.take(i + 1).drop_last() =~= all.take(i as int));
            assert(all.take(i + 1).last() == all[i as int]);
            assert(all[i as int] == e@);
        }
        if e.status != OutboxStatus::Sent {
            r.push(e.duplicate());
            assert(outbox_views(r@) =~= outbox_views(before).push(e@));
        }
        i = i + 1;
    }
    assert(all.take(i as int) =~= all);
    r
}

/// Gives the entries of id `id` a new status and error.
fn mark_outbox_entry(db: &mut Database, id: i64, status: OutboxStatus, error: Option<String>)
    ensures
        final(db)@ == (DatabaseV { outbox: mark_entries(old(db)@.outbox, id, status, opt_str(error)), ..old(db)@ }),
{
    let ghost d = db@;
    let ghost target = mark_entries(d.outbox, id, status, opt_str(error));
    let mut out: Vec<SyncOutboxEntry> = Vec::new();
    let mut i: usize = 0;
    while i < db.outbox.len()
        invariant
            0 <= i <= db.outbox@.len(),
            d == db@,
            target == mark_entries(d.outbox, id, status, opt_str(error)),
            out@.len() == i,
            forall|j: int| 0 <= j < i ==> #[trigger] out@[j]@ == target[j],
        decreases db.outbox@.len() - i,
    {
        let cur = &db.outbox[i];
        assert(d.outbox[i as int] == cur@);
        if cur.id == id {
            let last_error = match &error {
                Some(e) => Some(e.clone()),
                None => None,
            };
            out.push(SyncOutboxEntry {
                id: cur.id,
                event_type: cur.event_type.clone(),
                payload: cur.payload.clone(),
                status,
                last_error,
            });
        } else {
            out.push(cur.duplicate());
        }
        i = i + 1;
    }
    db.outbox = out;
    assert(db@.outbox =~= target);
}

/// Marks the entries of id `id` delivered.
pub fn mark_sync_outbox_entry_sent_with_pool(db: &mut Database, id: i64) -> (r: Result<(), String>)
    ensures
        r is Ok,
        final(db)@ == (DatabaseV { outbox: mark_entries(old(db)@.outbox, id, OutboxStatus::Sent, None), ..old(db)@ }),
{
    mark_outbox_entry(db, id, OutboxStatus::Sent, None);
    Ok(())
}

/// Marks the entries of id `id` refused, with the error.
pub fn mark_sync_outbox_entry_failed_with_pool(db: &mut Database, id: i64, error: &str) -> (r: Result<(), String>)
    ensures
        r is Ok,
        final(db)@ == (DatabaseV {
            outbox: mark_entries(old(db)@.outbox, id, OutboxStatus::Failed, Some(error@)),
            ..old(db)@
        }),
{
    mark_outbox_entry(db, id, OutboxStatus::Failed, Some(error.to_string()));
    Ok(())
}

/// `std::path::PathBuf`, carried through as the location of the database
/// file.
#[verifier::external_type_specification]
#[verifier::external_body]
pub struct ExPathBuf(std::path::PathBuf);

/// Where the shop's database lives: a SQLite file.
pub struct SqliteManager {
    pub path: std::path::PathBuf,
}

impl SqliteManager {
    /// A manager for the database file at `path`.
    pub fn file(path: std::path::PathBuf) -> (r: SqliteManager)
        ensures
            r.path == path,
    {
        SqliteManager { path }
    }
}

} // verus!
