use kassa_lt::database::{
    add_category_with_pool, add_product_with_pool, delete_category_with_pool, delete_product_with_pool,
    get_categories_with_pool, get_product_with_pool, get_products_with_pool, init_db_with_pool,
    update_category_with_pool, update_product_with_pool, Database,
};
use kassa_lt::models::{CartItem, Price};
use kassa_lt::orders::{checkout_with_pool, get_orders_with_pool, get_product_sales_count_with_pool};

fn test_db() -> Database {
    let mut db = Database::new();
    init_db_with_pool(&mut db).expect("initialize test schema");
    db
}

fn price(p: f64) -> Price {
    Price { cents: (p * 100.0).round() as i32, not_positive: p <= 0.0 }
}

fn cart_item(id: i32, name: &str, p: f64, quantity: i32) -> (CartItem, f64) {
    (CartItem { id, name: name.to_string(), price_cents: price(p).cents, quantity }, p)
}

/// The cart's total in cents, each line rounded on its own.
fn total_cents(lines: &[(CartItem, f64)]) -> i32 {
    lines.iter().map(|(item, p)| (p * item.quantity as f64 * 100.0).round() as i32).sum()
}

fn checkout(db: &mut Database, lines: Vec<(CartItem, f64)>, payment: &str, comment: &str) -> Result<kassa_lt::models::Order, String> {
    let total = total_cents(&lines);
    let items: Vec<CartItem> = lines.into_iter().map(|(item, _)| item).collect();
    checkout_with_pool(db, items, payment.to_string(), comment.to_string(), total)
}

#[test]
fn add_product_persists_and_trims_name() {
    let mut db = test_db();

    let product = add_product_with_pool(&mut db, "  Espresso  ".to_string(), price(2.5), None, None, None)
        .expect("add product");

    assert_eq!(product.name, "Espresso");
    assert_eq!(product.price_cents, 250);
    assert_eq!(product.sales_limit, None);
    assert_eq!(product.sales_used, 0);

    let products = get_products_with_pool(&db);
    assert_eq!(products.len(), 1);
    assert_eq!(products[0].name, "Espresso");
    assert_eq!(products[0].price_cents, 250);
}

#[test]
fn add_product_rejects_invalid_input() {
    let mut db = test_db();

    assert_eq!(
        add_product_with_pool(&mut db, "   ".to_string(), price(1.0), None, None, None).unwrap_err(),
        "Product name cannot be empty"
    );
    assert_eq!(
        add_product_with_pool(&mut db, "Tea".to_string(), price(-0.1), None, None, None).unwrap_err(),
        "Price must be greater than or equal to 0"
    );
}

#[test]
fn add_product_can_set_sales_limit() {
    let mut db = test_db();

    let product = add_product_with_pool(&mut db, "Juice".to_string(), price(3.10), None, None, Some(12))
        .expect("add product");

    assert_eq!(product.sales_limit, Some(12));
    assert_eq!(product.sales_used, 0);

    let fetched = get_product_with_pool(&db, product.id).expect("fetch product");
    assert_eq!(fetched.sales_limit, Some(12));
    assert_eq!(fetched.sales_used, 0);
}

#[test]
fn add_product_rejects_negative_sales_limit() {
    let mut db = test_db();

    assert_eq!(
        add_product_with_pool(&mut db, "Milk".to_string(), price(1.90), None, None, Some(-1)).unwrap_err(),
        "Sales limit must be greater than or equal to 0"
    );
}

#[test]
fn checkout_persists_order_and_items() {
    let mut db = test_db();

    let tea = add_product_with_pool(&mut db, "Tea".to_string(), price(1.25), None, None, None).expect("add tea");
    let cake = add_product_with_pool(&mut db, "Cake".to_string(), price(2.10), None, None, None).expect("add cake");

    let items = vec![cart_item(tea.id, "Tea", 1.25, 2), cart_item(cake.id, "Cake", 2.10, 1)];

    let order = checkout(&mut db, items, "card", "Customer requested extra cream").expect("checkout");

    assert_eq!(order.payment_method, "card");
    assert_eq!(order.total_cents, 460);
    assert_eq!(order.items.len(), 2);
    assert_eq!(order.comment, "Customer requested extra cream");

    let orders = get_orders_with_pool(&db);
    assert_eq!(orders.len(), 1);
    assert_eq!(orders[0].uuid, order.uuid);
    assert_eq!(orders[0].payment_method, "card");
    assert_eq!(orders[0].total_cents, 460);
    assert_eq!(orders[0].items.len(), 2);
    assert_eq!(orders[0].items[0].name, "Tea");
    assert_eq!(orders[0].items[1].name, "Cake");
}

#[test]
fn checkout_rejects_empty_cart() {
    let mut db = test_db();

    assert_eq!(checkout(&mut db, Vec::new(), "cash", "").unwrap_err(), "Cart is empty");
}

#[test]
fn add_and_get_product_round_trips_through_database() {
    let mut db = test_db();

    let created = add_product_with_pool(&mut db, "Coffee".to_string(), price(2.50), None, None, None).unwrap();
    let fetched = get_product_with_pool(&db, created.id).unwrap();

    assert_eq!(fetched.id, created.id);
    assert_eq!(fetched.name, "Coffee");
    assert_eq!(fetched.price_cents, 250);
    assert_eq!(fetched.sales_limit, None);
    assert_eq!(fetched.sales_used, 0);
}

#[test]
fn update_product_can_change_name_only() {
    let mut db = test_db();

    let created = add_product_with_pool(&mut db, "Tea".to_string(), price(1.20), None, None, None).unwrap();
    let updated = update_product_with_pool(&mut db, created.id, Some("Green Tea".to_string()), None, None, None, None)
        .unwrap();

    assert_eq!(updated.id, created.id);
    assert_eq!(updated.name, "Green Tea");
    assert_eq!(updated.price_cents, 120);

    let fetched = get_product_with_pool(&db, created.id).unwrap();
    assert_eq!(fetched.name, "Green Tea");
    assert_eq!(fetched.price_cents, 120);
}

#[test]
fn update_product_can_clear_sales_limit() {
    let mut db = test_db();

    let created = add_product_with_pool(&mut db, "Soda".to_string(), price(1.50), None, None, Some(5)).unwrap();

    // clear the sales limit by passing Some(None)
    let updated = update_product_with_pool(&mut db, created.id, None, None, None, None, Some(None)).unwrap();

    assert_eq!(updated.sales_limit, None);

    let fetched = get_product_with_pool(&db, created.id).unwrap();
    assert_eq!(fetched.sales_limit, None);
}

#[test]
fn update_product_can_change_price_only() {
    let mut db = test_db();

    let created = add_product_with_pool(&mut db, "Cake".to_string(), price(3.40), None, None, None).unwrap();
    let updated = update_product_with_pool(&mut db, created.id, None, Some(price(4.10)), None, None, None).unwrap();

    assert_eq!(updated.id, created.id);
    assert_eq!(updated.name, "Cake");
    assert_eq!(updated.price_cents, 410);

    let fetched = get_product_with_pool(&db, created.id).unwrap();
    assert_eq!(fetched.name, "Cake");
    assert_eq!(fetched.price_cents, 410);
}

#[test]
fn delete_product_removes_row() {
    let mut db = test_db();

    let created = add_product_with_pool(&mut db, "Latte".to_string(), price(2.90), None, None, None).unwrap();
    delete_product_with_pool(&mut db, created.id).unwrap();

    assert_eq!(get_product_with_pool(&db, created.id).unwrap_err(), "Product not found");
}

#[test]
fn default_category_exists_after_initialization() {
    let db = test_db();

    let categories = get_categories_with_pool(&db);

    assert_eq!(categories.len(), 1);
    assert_eq!(categories[0].id, 1);
    assert_eq!(categories[0].name, "Default");
}

#[test]
fn add_category_persists_and_trims_name() {
    let mut db = test_db();

    let category = add_category_with_pool(&mut db, "  Bakery  ".to_string()).expect("add category");

    assert_eq!(category.name, "Bakery");
    assert!(category.id > 1);

    let categories = get_categories_with_pool(&db);
    assert_eq!(categories.len(), 2);
    assert!(categories.iter().any(|item| item.name == "Bakery"));
}

#[test]
fn update_category_changes_name() {
    let mut db = test_db();

    let category = add_category_with_pool(&mut db, "Drinks".to_string()).expect("add category");
    let updated = update_category_with_pool(&mut db, category.id, "Beverages".to_string()).expect("update category");

    assert_eq!(updated.id, category.id);
    assert_eq!(updated.name, "Beverages");

    let categories = get_categories_with_pool(&db);
    assert!(categories.iter().any(|item| item.id == category.id && item.name == "Beverages"));
}

#[test]
fn delete_category_reassigns_products_to_default() {
    let mut db = test_db();

    let category = add_category_with_pool(&mut db, "Specials".to_string()).expect("add category");
    let product = add_product_with_pool(
        &mut db,
        "Soup".to_string(),
        price(4.20),
        Some(category.name.clone()),
        None,
        None,
    )
    .expect("add product");

    delete_category_with_pool(&mut db, category.id).expect("delete category");

    let fetched = get_product_with_pool(&db, product.id).expect("fetch product");
    assert_eq!(fetched.category_id, 1);
    assert_eq!(fetched.category_name, "Default");

    let categories = get_categories_with_pool(&db);
    assert!(!categories.iter().any(|item| item.id == category.id));
}

#[test]
fn default_category_cannot_be_deleted() {
    let mut db = test_db();

    assert_eq!(delete_category_with_pool(&mut db, 1).unwrap_err(), "Default category cannot be deleted");
}

#[test]
fn get_product_sales_count_returns_correct_counts() {
    let mut db = test_db();

    let tea = add_product_with_pool(&mut db, "Tea".to_string(), price(1.25), None, None, None).expect("add tea");
    let cake = add_product_with_pool(&mut db, "Cake".to_string(), price(2.10), None, None, None).expect("add cake");

    let order_1 = vec![cart_item(tea.id, "Tea", 1.25, 2), cart_item(cake.id, "Cake", 2.10, 1)];
    let order_2 = vec![cart_item(tea.id, "Tea", 1.25, 4)];

    checkout(&mut db, order_1, "card", "").expect("checkout");
    checkout(&mut db, order_2, "card", "").expect("checkout");

    let counts = get_product_sales_count_with_pool(&db);
    assert_eq!(counts.len(), 2);
    let tea_count = counts.iter().find(|c| c.product_name == "Tea").unwrap();
    let cake_count = counts.iter().find(|c| c.product_name == "Cake").unwrap();
    assert_eq!(tea_count.count, 6);
    assert_eq!(cake_count.count, 1);
}

#[test]
fn checkout_increments_sales_used_and_blocks_when_limit_is_exceeded() {
    let mut db = test_db();

    let product = add_product_with_pool(&mut db, "Soda".to_string(), price(1.50), None, None, Some(3))
        .expect("add product");

    checkout(&mut db, vec![cart_item(product.id, &product.name, 1.50, 2)], "cash", "").expect("first checkout");

    let fetched = get_product_with_pool(&db, product.id).expect("fetch product");
    assert_eq!(fetched.sales_used, 2);
    assert_eq!(fetched.sales_limit, Some(3));

    let error = checkout(&mut db, vec![cart_item(product.id, &product.name, 1.50, 2)], "cash", "").unwrap_err();

    assert_eq!(error, "Sales limit exceeded for product Soda");

    let fetched = get_product_with_pool(&db, product.id).expect("fetch product again");
    assert_eq!(fetched.sales_used, 2);
}
