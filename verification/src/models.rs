//! The shop's data: categories, tabs, products, carts, orders.
//!
//! Prices are held in cents. Each type has a view over mathematical values
//! that the contracts speak of.

use vstd::prelude::*;

verus! {

/// The view of a category or a tab: an id and a name.
pub struct NamedV {
    pub id: i32,
    pub name: Seq<char>,
}

/// A product category.
#[derive(Debug, Clone)]
pub struct Category {
    pub id: i32,
    pub name: String,
}

/// A tab of the point-of-sale screen, grouping products.
#[derive(Debug, Clone)]
pub struct Tab {
    pub id: i32,
    pub name: String,
}

impl View for Category {
    type V = NamedV;

    open spec fn view(&self) -> NamedV {
        NamedV { id: self.id, name: self.name@ }
    }
}

impl DeepView for Category {
    type V = NamedV;

    open spec fn deep_view(&self) -> NamedV {
        NamedV { id: self.id, name: self.name@ }
    }
}

impl View for Tab {
    type V = NamedV;

    open spec fn view(&self) -> NamedV {
        NamedV { id: self.id, name: self.name@ }
    }
}

impl DeepView for Tab {
    type V = NamedV;

    open spec fn deep_view(&self) -> NamedV {
        NamedV { id: self.id, name: self.name@ }
    }
}

/// Something with an id and a name: a category or a tab.
pub trait Named: Sized {
    spec fn named_view(&self) -> NamedV;

    fn id_of(&self) -> (r: i32)
        ensures
            r == self.named_view().id,
    ;

    fn name_of(&self) -> (r: &str)
        ensures
            r@ == self.named_view().name,
    ;

    fn duplicate(&self) -> (r: Self)
        ensures
            r.named_view() == self.named_view(),
    ;

    fn make(id: i32, name: String) -> (r: Self)
        ensures
            r.named_view() == (NamedV { id, name: name@ }),
    ;
}

impl Named for Category {
    open spec fn named_view(&self) -> NamedV {
        self@
    }

    fn id_of(&self) -> (r: i32) {
        self.id
    }

    fn name_of(&self) -> (r: &str) {
        self.name.as_str()
    }

    fn duplicate(&self) -> (r: Self) {
        Category { id: self.id, name: self.name.clone() }
    }

    fn make(id: i32, name: String) -> (r: Self) {
        Category { id, name }
    }
}

impl Named for Tab {
    open spec fn named_view(&self) -> NamedV {
        self@
    }

    fn id_of(&self) -> (r: i32) {
        self.id
    }

    fn name_of(&self) -> (r: &str) {
        self.name.as_str()
    }

    fn duplicate(&self) -> (r: Self) {
        Tab { id: self.id, name: self.name.clone() }
    }

    fn make(id: i32, name: String) -> (r: Self) {
        Tab { id, name }
    }
}

/// The views of a sequence of named values.
pub open spec fn named_views<T: Named>(s: Seq<T>) -> Seq<NamedV> {
    Seq::new(s.len(), |i: int| s[i].named_view())
}

/// A price as the shop's rules read it: its amount in cents and whether it
/// is zero or less (such a price is refused).
#[derive(Debug, Clone, Copy)]
pub struct Price {
    pub cents: i32,
    pub not_positive: bool,
}

/// The view of a product as the shop shows it.
pub struct ProductV {
    pub id: i32,
    pub name: Seq<char>,
    pub price_cents: i32,
    pub category_id: i32,
    pub category_name: Seq<char>,
    pub sales_limit: Option<i32>,
    pub sales_used: i32,
    pub tabs: Seq<NamedV>,
}

/// A product, with its category, its sales quota and its tabs.
#[derive(Debug, Clone)]
pub struct Product {
    pub id: i32,
    pub name: String,
    pub price_cents: i32,
    pub category_id: i32,
    pub category_name: String,
    pub sales_limit: Option<i32>,
    pub sales_used: i32,
    pub tabs: Vec<Tab>,
}

impl View for Product {
    type V = ProductV;

    open spec fn view(&self) -> ProductV {
        ProductV {
            id: self.id,
            name: self.name@,
            price_cents: self.price_cents,
            category_id: self.category_id,
            category_name: self.category_name@,
            sales_limit: self.sales_limit,
            sales_used: self.sales_used,
            tabs: self.tabs.deep_view(),
        }
    }
}

impl DeepView for Product {
    type V = ProductV;

    open spec fn deep_view(&self) -> ProductV {
        self@
    }
}

/// The view of a cart line.
pub struct CartItemV {
    pub id: i32,
    pub name: Seq<char>,
    pub price_cents: i32,
    pub quantity: i32,
}

/// A line of the cart at checkout: a product, its unit price and a quantity.
#[derive(Debug, Clone)]
pub struct CartItem {
    pub id: i32,
    pub name: String,
    pub price_cents: i32,
    pub quantity: i32,
}

impl View for CartItem {
    type V = CartItemV;

    open spec fn view(&self) -> CartItemV {
        CartItemV { id: self.id, name: self.name@, price_cents: self.price_cents, quantity: self.quantity }
    }
}

impl DeepView for CartItem {
    type V = CartItemV;

    open spec fn deep_view(&self) -> CartItemV {
        self@
    }
}

/// The view of an order line.
pub struct OrderItemV {
    pub name: Seq<char>,
    pub price_cents: i32,
    pub quantity: i32,
}

/// A line of a stored order.
#[derive(Debug, Clone)]
pub struct OrderItem {
    pub name: String,
    pub price_cents: i32,
    pub quantity: i32,
}

impl View for OrderItem {
    type V = OrderItemV;

    open spec fn view(&self) -> OrderItemV {
        OrderItemV { name: self.name@, price_cents: self.price_cents, quantity: self.quantity }
    }
}

impl DeepView for OrderItem {
    type V = OrderItemV;

    open spec fn deep_view(&self) -> OrderItemV {
        self@
    }
}

/// The view of an order.
pub struct OrderV {
    pub id: i64,
    pub uuid: Seq<char>,
    pub created_at: Seq<char>,
    pub total_cents: i32,
    pub payment_method: Seq<char>,
    pub items: Seq<OrderItemV>,
    pub comment: Seq<char>,
}

/// A completed sale.
#[derive(Debug, Clone)]
pub struct Order {
    pub id: i64,
    pub uuid: String,
    pub created_at: String,
    pub total_cents: i32,
    pub payment_method: String,
    pub items: Vec<OrderItem>,
    pub comment: String,
}

impl View for Order {
    type V = OrderV;

    open spec fn view(&self) -> OrderV {
        OrderV {
            id: self.id,
            uuid: self.uuid@,
            created_at: self.created_at@,
            total_cents: self.total_cents,
            payment_method: self.payment_method@,
            items: self.items.deep_view(),
            comment: self.comment@,
        }
    }
}

impl DeepView for Order {
    type V = OrderV;

    open spec fn deep_view(&self) -> OrderV {
        self@
    }
}

/// The view of a sales count.
pub struct ProductSalesCountV {
    pub product_name: Seq<char>,
    pub count: i32,
}

/// How many units of a product (by name) were sold over all orders.
#[derive(Debug, Clone)]
pub struct ProductSalesCount {
    pub product_name: String,
    pub count: i32,
}

impl View for ProductSalesCount {
    type V = ProductSalesCountV;

    open spec fn view(&self) -> ProductSalesCountV {
        ProductSalesCountV { product_name: self.product_name@, count: self.count }
    }
}

impl DeepView for ProductSalesCount {
    type V = ProductSalesCountV;

    open spec fn deep_view(&self) -> ProductSalesCountV {
        self@
    }
}

/// Copies a list of tabs.
pub fn copy_tabs(v: &Vec<Tab>) -> (r: Vec<Tab>)
    ensures
        r.deep_view() == v.deep_view(),
{
    let mut r: Vec<Tab> = Vec::new();
    let mut i: usize = 0;
    while i < v.len()
        invariant
            0 <= i <= v@.len(),
            r@.len() == i,
            forall|j: int| 0 <= j < i ==> #[trigger] r@[j].deep_view() == v@[j].deep_view(),
        decreases v@.len() - i,
    {
        r.push(v[i].duplicate());
        i = i + 1;
    }
    assert(r.deep_view() =~= v.deep_view());
    r
}

impl Product {
    /// A copy of this product.
    pub fn duplicate(&self) -> (r: Product)
        ensures
            r@ == self@,
    {
        Product {
            id: self.id,
            name: self.name.clone(),
            price_cents: self.price_cents,
            category_id: self.category_id,
            category_name: self.category_name.clone(),
            sales_limit: self.sales_limit,
            sales_used: self.sales_used,
            tabs: copy_tabs(&self.tabs),
        }
    }
}

/// Copies a list of order lines.
pub fn copy_order_items(v: &Vec<OrderItem>) -> (r: Vec<OrderItem>)
    ensures
        r.deep_view() == v.deep_view(),
{
    let mut r: Vec<OrderItem> = Vec::new();
    let mut i: usize = 0;
    while i < v.len()
        invariant
            0 <= i <= v@.len(),
            r@.len() == i,
            forall|j: int| 0 <= j < i ==> #[trigger] r@[j].deep_view() == v@[j].deep_view(),
        decreases v@.len() - i,
    {
        let it = &v[i];
        r.push(OrderItem { name: it.name.clone(), price_cents: it.price_cents, quantity: it.quantity });
        i = i + 1;
    }
    assert(r.deep_view() =~= v.deep_view());
    r
}

impl Order {
    /// A copy of this order.
    pub fn duplicate(&self) -> (r: Order)
        ensures
            r@ == self@,
    {
        Order {
            id: self.id,
            uuid: self.uuid.clone(),
            created_at: self.created_at.clone(),
            total_cents: self.total_cents,
            payment_method: self.payment_method.clone(),
            items: copy_order_items(&self.items),
            comment: self.comment.clone(),
        }
    }
}

} // verus!
