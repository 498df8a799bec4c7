use kassa_lt::backup_worker::{
    backup_file_name, backup_remote_path, backup_state_after, remove_colons, worker_step, BackupState,
    WorkerAction, WorkerEvent,
};
use kassa_lt::config::{
    backup_config_or_default, backup_config_to_initialise, default_backup_config, default_sync_config,
    resolve_instance_id, sync_config_or_default, sync_config_to_initialise, BackupProtocol, SyncWorkerConfig,
    WebDavAuthMethod,
};
use kassa_lt::database::{
    add_category_with_pool, add_product_with_pool, add_tab_with_pool, create_category, delete_category_with_pool,
    delete_product_with_pool, delete_tab_with_pool, get_categories_with_pool, get_category_by_name,
    get_product_with_pool, get_products_with_pool, get_tab_by_name, get_tabs_by_ids, get_tabs_for_product,
    get_tabs_with_pool, init_db_with_pool, update_category_with_pool, update_product_with_pool,
    update_tab_with_pool, Database, SqliteManager, enqueue_sync_outbox_event_with_pool,
    list_pending_sync_outbox_entries_with_pool, mark_sync_outbox_entry_failed_with_pool,
    mark_sync_outbox_entry_sent_with_pool, OutboxStatus,
};
use kassa_lt::exports::{cents_to_string, create_csv, items_summary};
use kassa_lt::models::{CartItem, Order, OrderItem, Price};
use kassa_lt::orders::{
    cart_totals_checked, checkout_fits, checkout_with, checkout_with_pool, get_orders_with_pool,
    get_product_sales_count_with_pool, product_sales_count_checked,
};
use kassa_lt::sync::{
    delivery_outcome, sale_created_event_type, sync_outbox_uri, sync_start, sync_state_after, NoopPublisher,
    PublisherChoice, SyncPublisher, SyncRouter, SyncStart, SyncState,
};
use kassa_lt::tab_ids::{normalize_tab_ids, sort_dedup};

fn shop() -> Database {
    let mut db = Database::new();
    init_db_with_pool(&mut db).unwrap();
    db
}

fn cents(c: i32) -> Price {
    Price { cents: c, not_positive: c <= 0 }
}

fn item(id: i32, name: &str, price_cents: i32, quantity: i32) -> CartItem {
    CartItem { id, name: name.to_string(), price_cents, quantity }
}

fn order(id: i64, created_at: &str, total_cents: i32, items: Vec<OrderItem>) -> Order {
    Order {
        id,
        uuid: format!("uuid-{}", id),
        created_at: created_at.to_string(),
        total_cents,
        payment_method: "cash".to_string(),
        items,
        comment: String::new(),
    }
}

fn line(name: &str, price_cents: i32, quantity: i32) -> OrderItem {
    OrderItem { name: name.to_string(), price_cents, quantity }
}

#[test]
fn fresh_shop_has_default_category_and_tab() {
    let db = Database::new();
    assert!(db.is_well_formed());
    assert!(db.has_room());
    let cats = get_categories_with_pool(&db);
    assert_eq!(cats.len(), 1);
    assert_eq!((cats[0].id, cats[0].name.as_str()), (1, "Default"));
    let tabs = get_tabs_with_pool(&db);
    assert_eq!(tabs.len(), 1);
    assert_eq!((tabs[0].id, tabs[0].name.as_str()), (1, "Alle"));
}

#[test]
fn initialisation_can_be_repeated() {
    let mut db = shop();
    init_db_with_pool(&mut db).unwrap();
    init_db_with_pool(&mut db).unwrap();
    assert_eq!(get_categories_with_pool(&db).len(), 1);
    assert_eq!(get_tabs_with_pool(&db).len(), 1);
    assert_eq!(db.next_category_id, 2);
    assert_eq!(db.next_tab_id, 2);
}

#[test]
fn categories_are_listed_by_name() {
    let mut db = shop();
    add_category_with_pool(&mut db, "Drinks".to_string()).unwrap();
    add_category_with_pool(&mut db, "Bakery".to_string()).unwrap();
    add_category_with_pool(&mut db, "Zz".to_string()).unwrap();
    let names: Vec<String> = get_categories_with_pool(&db).into_iter().map(|c| c.name).collect();
    assert_eq!(names, vec!["Bakery", "Default", "Drinks", "Zz"]);
}

#[test]
fn category_names_are_unique_and_not_empty() {
    let mut db = shop();
    let before = db.audit_log.len();
    assert_eq!(add_category_with_pool(&mut db, " Default ".to_string()).unwrap_err(), "Category already exists");
    assert_eq!(add_category_with_pool(&mut db, "\t".to_string()).unwrap_err(), "Product name cannot be empty");
    assert_eq!(db.audit_log.len(), before);
    let drinks = add_category_with_pool(&mut db, "Drinks".to_string()).unwrap();
    assert_eq!(drinks.id, 2);
    assert_eq!(
        update_category_with_pool(&mut db, drinks.id, "Default".to_string()).unwrap_err(),
        "Category already exists"
    );
    assert_eq!(update_category_with_pool(&mut db, 99, "X".to_string()).unwrap_err(), "Category not found");
    let same = update_category_with_pool(&mut db, drinks.id, " Drinks ".to_string()).unwrap();
    assert_eq!(same.name, "Drinks");
    assert_eq!(delete_category_with_pool(&mut db, 42).unwrap_err(), "Category not found");
}

#[test]
fn tabs_are_added_renamed_and_deleted() {
    let mut db = shop();
    let bar = add_tab_with_pool(&mut db, " Bar ".to_string()).unwrap();
    assert_eq!(bar.name, "Bar");
    assert_eq!(add_tab_with_pool(&mut db, "Bar".to_string()).unwrap_err(), "Tab already exists");
    let kitchen = update_tab_with_pool(&mut db, bar.id, "Kitchen".to_string()).unwrap();
    assert_eq!(kitchen.id, bar.id);
    assert_eq!(update_tab_with_pool(&mut db, 77, "X".to_string()).unwrap_err(), "Tab not found");
    assert_eq!(delete_tab_with_pool(&mut db, 1).unwrap_err(), "Default tab cannot be deleted");
    assert_eq!(delete_tab_with_pool(&mut db, 77).unwrap_err(), "Tab not found");

    let p = add_product_with_pool(&mut db, "Beer".to_string(), cents(400), None, Some(vec![bar.id, 1]), None).unwrap();
    assert_eq!(p.tabs.len(), 2);
    // Tab 1 is the primary tab of the product (the smallest id), so the
    // kitchen tab can go: it leaves the product's tab set.
    delete_tab_with_pool(&mut db, bar.id).unwrap();
    let fetched = get_product_with_pool(&db, p.id).unwrap();
    assert_eq!(fetched.tabs.len(), 1);
    assert_eq!(fetched.tabs[0].id, 1);
    assert_eq!(get_tabs_with_pool(&db).len(), 1);
}

#[test]
fn a_primary_tab_cannot_be_deleted() {
    let mut db = shop();
    let bar = add_tab_with_pool(&mut db, "Bar".to_string()).unwrap();
    add_product_with_pool(&mut db, "Beer".to_string(), cents(400), None, Some(vec![bar.id]), None).unwrap();
    assert_eq!(delete_tab_with_pool(&mut db, bar.id).unwrap_err(), "FOREIGN KEY constraint failed");
    assert_eq!(get_tabs_with_pool(&db).len(), 2);
}

#[test]
fn product_tabs_are_normalised_and_checked() {
    let mut db = shop();
    let b = add_tab_with_pool(&mut db, "B".to_string()).unwrap();
    let a = add_tab_with_pool(&mut db, "A".to_string()).unwrap();
    let p = add_product_with_pool(&mut db, "X".to_string(), cents(100), None, Some(vec![a.id, b.id, a.id]), None).unwrap();
    let names: Vec<String> = p.tabs.iter().map(|t| t.name.clone()).collect();
    assert_eq!(names, vec!["A", "B"]);
    let fetched = get_tabs_for_product(&db, p.id);
    assert_eq!(fetched.len(), 2);
    assert_eq!(fetched[0].name, "A");
    assert!(get_tabs_for_product(&db, 999).is_empty());
    assert_eq!(
        add_product_with_pool(&mut db, "Y".to_string(), cents(100), None, Some(vec![0]), None).unwrap_err(),
        "Invalid tab id"
    );
    assert_eq!(
        add_product_with_pool(&mut db, "Y".to_string(), cents(100), None, Some(vec![55]), None).unwrap_err(),
        "FOREIGN KEY constraint failed"
    );
    let dflt = add_product_with_pool(&mut db, "Z".to_string(), cents(100), None, Some(vec![]), None).unwrap();
    assert_eq!(dflt.tabs.len(), 1);
    assert_eq!(dflt.tabs[0].id, 1);
    assert_eq!(get_tabs_by_ids(&db, &vec![]).unwrap_err(), "At least one tab is required");
    assert_eq!(get_tabs_by_ids(&db, &vec![1, 9]).unwrap_err(), "Tab not found: 9");
    assert_eq!(get_tabs_by_ids(&db, &vec![b.id, 1]).unwrap().len(), 2);
}

#[test]
fn tab_id_normalisation() {
    assert_eq!(normalize_tab_ids(None).unwrap(), vec![1]);
    assert_eq!(normalize_tab_ids(Some(vec![])).unwrap(), vec![1]);
    assert_eq!(normalize_tab_ids(Some(vec![5, 2, 5, 3])).unwrap(), vec![2, 3, 5]);
    assert_eq!(normalize_tab_ids(Some(vec![3, -1])).unwrap_err(), "Invalid tab id");
    let once = normalize_tab_ids(Some(vec![9, 4, 4])).unwrap();
    assert_eq!(normalize_tab_ids(Some(once.clone())).unwrap(), once);
    assert_eq!(sort_dedup(&vec![3, 1, 2, 3, 1]), vec![1, 2, 3]);
}

#[test]
fn products_find_and_create_their_category_by_name() {
    let mut db = shop();
    assert_eq!(get_category_by_name(&db, "Default"), Some(1));
    assert_eq!(get_category_by_name(&db, "Snacks"), None);
    let p = add_product_with_pool(&mut db, "Chips".to_string(), cents(150), Some("Snacks".to_string()), None, None).unwrap();
    assert_eq!(p.category_name, "Snacks");
    assert_eq!(get_category_by_name(&db, "Snacks"), Some(p.category_id));
    assert_eq!(create_category(&mut db, "Snacks").unwrap_err(), "UNIQUE constraint failed: categories.name");
    assert_eq!(get_tab_by_name(&db, "Alle"), Some(1));
    assert_eq!(get_tab_by_name(&db, "Nope"), None);
}

#[test]
fn refused_product_requests_change_nothing() {
    let mut db = shop();
    let p = add_product_with_pool(&mut db, "Tea".to_string(), cents(120), None, None, Some(2)).unwrap();
    let log = db.audit_log.len();
    assert_eq!(
        update_product_with_pool(&mut db, p.id, Some("  ".to_string()), None, None, None, None).unwrap_err(),
        "Product name cannot be empty"
    );
    assert_eq!(
        update_product_with_pool(&mut db, p.id, None, Some(cents(0)), None, None, None).unwrap_err(),
        "Price must be greater than or equal to 0"
    );
    assert_eq!(
        update_product_with_pool(&mut db, p.id, None, None, None, None, Some(Some(-3))).unwrap_err(),
        "Sales limit must be greater than or equal to 0"
    );
    assert_eq!(
        update_product_with_pool(&mut db, 404, None, None, None, None, None).unwrap_err(),
        "Query returned no rows"
    );
    assert_eq!(db.audit_log.len(), log);
    let fetched = get_product_with_pool(&db, p.id).unwrap();
    assert_eq!(fetched.name, "Tea");
    assert_eq!(fetched.price_cents, 120);
    assert_eq!(fetched.sales_limit, Some(2));
}

#[test]
fn deleting_a_missing_product_is_audited_and_refused() {
    let mut db = shop();
    let before = db.audit_log.len();
    assert_eq!(delete_product_with_pool(&mut db, 5).unwrap_err(), "Product not found");
    assert_eq!(db.audit_log.len(), before + 1);
}

#[test]
fn update_moves_product_to_another_category_and_tabs() {
    let mut db = shop();
    let bar = add_tab_with_pool(&mut db, "Bar".to_string()).unwrap();
    let p = add_product_with_pool(&mut db, "Wine".to_string(), cents(500), None, None, None).unwrap();
    let u = update_product_with_pool(
        &mut db,
        p.id,
        None,
        None,
        Some("Drinks".to_string()),
        Some(vec![bar.id]),
        None,
    )
    .unwrap();
    assert_eq!(u.category_name, "Drinks");
    assert_eq!(u.tabs.len(), 1);
    assert_eq!(u.tabs[0].id, bar.id);
    let fetched = get_product_with_pool(&db, p.id).unwrap();
    assert_eq!(fetched.category_name, "Drinks");
    assert_eq!(fetched.tabs[0].name, "Bar");
}

#[test]
fn checkout_checks_products_quotas_and_uuids() {
    let mut db = shop();
    let soda = add_product_with_pool(&mut db, "Soda".to_string(), cents(150), None, None, Some(5)).unwrap();
    let chips = add_product_with_pool(&mut db, "Chips".to_string(), cents(200), None, None, None).unwrap();
    let cart = vec![item(soda.id, "Soda", 150, 2), item(chips.id, "Chips", 200, 1), item(soda.id, "Soda", 150, 3)];
    assert!(checkout_fits(&db, &cart));
    let totals = cart_totals_checked(&cart).unwrap();
    assert_eq!(totals, vec![(soda.id, 5), (chips.id, 1)]);
    let o = checkout_with(&mut db, cart, "card".to_string(), "".to_string(), 950, "u-1".to_string(), "t".to_string()).unwrap();
    assert_eq!(o.id, 1);
    assert_eq!(o.items.len(), 3);
    assert_eq!(get_product_with_pool(&db, soda.id).unwrap().sales_used, 5);
    assert_eq!(get_product_with_pool(&db, chips.id).unwrap().sales_used, 1);

    let log = db.audit_log.len();
    let err = checkout_with(&mut db, vec![item(soda.id, "Soda", 150, 1)], "card".to_string(), "".to_string(), 150, "u-2".to_string(), "t".to_string()).unwrap_err();
    assert_eq!(err, "Sales limit exceeded for product Soda");
    let err = checkout_with(&mut db, vec![item(99, "Ghost", 1, 1)], "card".to_string(), "".to_string(), 1, "u-3".to_string(), "t".to_string()).unwrap_err();
    assert_eq!(err, "Product not found: 99");
    let err = checkout_with(&mut db, vec![item(chips.id, "Chips", 200, 1)], "card".to_string(), "".to_string(), 200, "u-1".to_string(), "t".to_string()).unwrap_err();
    assert_eq!(err, "UNIQUE constraint failed: orders.uuid");
    assert_eq!(db.audit_log.len(), log);
    assert_eq!(get_orders_with_pool(&db).len(), 1);

    assert!(!checkout_fits(&db, &vec![item(chips.id, "Chips", 200, i32::MAX), item(chips.id, "Chips", 200, 1)]));
    assert!(cart_totals_checked(&vec![item(1, "a", 1, i32::MAX), item(1, "a", 1, 1)]).is_none());
}

#[test]
fn checkout_draws_a_uuid_and_lists_newest_first() {
    let mut db = shop();
    let tea = add_product_with_pool(&mut db, "Tea".to_string(), cents(125), None, None, None).unwrap();
    let first = checkout_with_pool(&mut db, vec![item(tea.id, "Tea", 125, 1)], "cash".to_string(), "".to_string(), 125).unwrap();
    let second = checkout_with_pool(&mut db, vec![item(tea.id, "Tea", 125, 2)], "card".to_string(), "x".to_string(), 250).unwrap();
    assert_eq!(first.uuid.len(), 36);
    for (i, c) in first.uuid.chars().enumerate() {
        if [8, 13, 18, 23].contains(&i) {
            assert_eq!(c, '-');
        } else {
            assert!(c.is_ascii_hexdigit() && !c.is_ascii_uppercase());
        }
    }
    assert_eq!(first.uuid.chars().nth(14), Some('4'));
    assert!(matches!(first.uuid.chars().nth(19), Some('8' | '9' | 'a' | 'b')));
    assert!(first.created_at.ends_with("+00:00"));
    assert!(first.created_at.len() >= 25);
    assert_ne!(first.uuid, second.uuid);
    assert!(!first.created_at.is_empty());
    let orders = get_orders_with_pool(&db);
    assert_eq!(orders.len(), 2);
    assert_eq!(orders[0].id, second.id);
    assert_eq!(orders[1].id, first.id);
    assert!(orders[0].id > orders[1].id);
}

#[test]
fn sales_counts_add_up_the_lines_by_name() {
    let mut db = shop();
    let tea = add_product_with_pool(&mut db, "Tea".to_string(), cents(125), None, None, None).unwrap();
    let cake = add_product_with_pool(&mut db, "Cake".to_string(), cents(210), None, None, None).unwrap();
    checkout_with(&mut db, vec![item(tea.id, "Tea", 125, 2)], "c".to_string(), "".to_string(), 250, "a".to_string(), "t".to_string()).unwrap();
    checkout_with(&mut db, vec![item(cake.id, "Cake", 210, 1), item(tea.id, "Tea", 125, 4)], "c".to_string(), "".to_string(), 710, "b".to_string(), "t".to_string()).unwrap();
    let counts = get_product_sales_count_with_pool(&db);
    // Names in the order of first appearance, newest order first.
    assert_eq!(counts.len(), 2);
    assert_eq!((counts[0].product_name.as_str(), counts[0].count), ("Cake", 1));
    assert_eq!((counts[1].product_name.as_str(), counts[1].count), ("Tea", 6));
    assert!(product_sales_count_checked(&db).is_some());
    assert!(product_sales_count_checked(&shop()).unwrap().is_empty());
}

#[test]
fn deleting_a_category_moves_its_products_only() {
    let mut db = shop();
    let specials = add_category_with_pool(&mut db, "Specials".to_string()).unwrap();
    let soup = add_product_with_pool(&mut db, "Soup".to_string(), cents(420), Some("Specials".to_string()), None, None).unwrap();
    let tea = add_product_with_pool(&mut db, "Tea".to_string(), cents(120), Some("Drinks".to_string()), None, None).unwrap();
    delete_category_with_pool(&mut db, specials.id).unwrap();
    assert_eq!(get_product_with_pool(&db, soup.id).unwrap().category_id, 1);
    assert_eq!(get_product_with_pool(&db, tea.id).unwrap().category_name, "Drinks");
    assert_eq!(get_products_with_pool(&db).len(), 2);
}

#[test]
fn csv_export_lists_header_and_orders() {
    let orders = vec![
        order(2, "2026-01-02T10:00:00+00:00", 460, vec![line("Tea", 125, 2), line("Cake", 210, 1)]),
        order(1, "2026-01-01T09:00:00+00:00", 100, vec![line("Water, still", 100, 1)]),
        order(3, "2026-01-03T08:00:00+00:00", 5, vec![]),
    ];
    let csv = create_csv(&orders).unwrap();
    assert_eq!(
        csv,
        "Order ID,Date,Total (cents),Items\n\
         2,2026-01-02T10:00:00+00:00,4.6,Tea x2; Cake x1\n\
         1,2026-01-01T09:00:00+00:00,1,\"Water, still x1\"\n\
         3,2026-01-03T08:00:00+00:00,0.05,\n"
    );
    assert_eq!(create_csv(&vec![]).unwrap(), "Order ID,Date,Total (cents),Items\n");
}

#[test]
fn csv_fields_are_written_like_the_shop_shows_them() {
    assert_eq!(items_summary(&vec![line("A", 1, 1), line("B", 2, 10)]), "A x1; B x10");
    assert_eq!(items_summary(&vec![]), "");
    assert_eq!(cents_to_string(460), "4.6");
    assert_eq!(cents_to_string(-5), "-0.05");
}

#[test]
fn config_defaults_and_initialisation() {
    let b = default_backup_config();
    assert_eq!(b.protocol, BackupProtocol::WebDAV);
    assert_eq!(b.webdav_url, "http://localhost:8080");
    assert_eq!(b.username, "alice");
    assert_eq!(b.password, "secret1234");
    assert_eq!(b.auth_method, WebDavAuthMethod::Digest);
    assert!(b.enabled);
    let s = default_sync_config();
    assert!(!s.enabled);
    assert_eq!(s.central_api_base_url, "http://localhost:8080/api/v1");

    let stored = SyncWorkerConfig { enabled: true, central_api_base_url: "https://x".to_string() };
    assert_eq!(sync_config_or_default(Some(stored.clone())).central_api_base_url, "https://x");
    assert!(!sync_config_or_default(None).enabled);
    assert!(sync_config_to_initialise(&Some(stored)).is_none());
    assert_eq!(sync_config_to_initialise(&None).unwrap().central_api_base_url, "http://localhost:8080/api/v1");
    assert_eq!(backup_config_or_default(None).username, "alice");
    assert!(backup_config_to_initialise(&Some(default_backup_config())).is_none());
    assert!(backup_config_to_initialise(&None).unwrap().enabled);

    assert_eq!(resolve_instance_id(Some("abc".to_string()), "new".to_string()), ("abc".to_string(), false));
    assert_eq!(resolve_instance_id(None, "new".to_string()), ("new".to_string(), true));
}

#[test]
fn backup_files_are_named_without_colons() {
    assert_eq!(remove_colons("2026-07-02T10:11:12+00:00"), "2026-07-02T101112+0000");
    assert_eq!(remove_colons(""), "");
    let name = backup_file_name("inst-1", "2026-07-02T10:11:12+00:00");
    assert_eq!(name, "inst-1-2026-07-02T101112+0000.sqlite");
    assert_eq!(backup_remote_path(&name), "/inst-1-2026-07-02T101112+0000.sqlite");
    let _ = SqliteManager::file(std::path::PathBuf::from("/tmp/kassalt.db"));
}

#[test]
fn worker_decisions() {
    assert_eq!(worker_step(WorkerEvent::ConfigChanged, true), WorkerAction::RestartTimer);
    assert_eq!(worker_step(WorkerEvent::ConfigChanged, false), WorkerAction::RestartTimer);
    assert_eq!(worker_step(WorkerEvent::Tick, true), WorkerAction::Run);
    assert_eq!(worker_step(WorkerEvent::Tick, false), WorkerAction::Skip);
    match backup_state_after(Err("boom".to_string()), "t1".to_string()) {
        BackupState::Failed { timestamp, error } => assert_eq!((timestamp.as_str(), error.as_str()), ("t1", "boom")),
        other => panic!("unexpected {:?}", other),
    }
    assert!(matches!(backup_state_after(Ok(()), "t2".to_string()), BackupState::Successful { .. }));
    assert!(matches!(sync_state_after(Ok(()), "t".to_string()), SyncState::Successful { .. }));
    assert!(matches!(sync_state_after(Err("e".to_string()), "t".to_string()), SyncState::Failed { .. }));
}

#[test]
fn sync_decisions() {
    assert_eq!(sync_start(false, 3), SyncStart::Disabled);
    assert_eq!(sync_start(true, 0), SyncStart::NothingPending);
    assert_eq!(sync_start(true, 2), SyncStart::Send);
    assert_eq!(sync_outbox_uri("http://h/api/v1/"), "http://h/api/v1/sync/outbox");
    assert_eq!(sync_outbox_uri("http://h/api//"), "http://h/api/sync/outbox");
    assert_eq!(sync_outbox_uri("http://h"), "http://h/sync/outbox");
    assert_eq!(sync_outbox_uri("///"), "/sync/outbox");
    assert!(delivery_outcome(true, "200 OK", "").is_ok());
    assert_eq!(delivery_outcome(false, "500 Internal Server Error", "oops").unwrap_err(), "status=500 Internal Server Error body=oops");
    assert_eq!(sale_created_event_type(), "sale.created");
}

#[test]
fn sync_router_switches_between_disabled_and_outbox_publishers() {
    let mut router = SyncRouter::new_disabled();
    assert_eq!(router.publisher(), PublisherChoice::Noop);

    router.set_enabled(true);
    assert_eq!(router.publisher(), PublisherChoice::Outbox);

    router.set_enabled(false);
    let disabled_publisher = router.publisher();
    assert_eq!(disabled_publisher, PublisherChoice::Noop);
    let sample = Order {
        id: 1,
        uuid: "order-uuid".to_string(),
        created_at: "2026-07-02T00:00:00Z".to_string(),
        total_cents: 500,
        payment_method: "cash".to_string(),
        items: vec![line("Coffee", 250, 2)],
        comment: "no sugar".to_string(),
    };
    NoopPublisher.publish_sale_created(&sample).expect("noop publish");
}

#[test]
fn outbox_publisher_writes_sale_created_event() {
    let mut db = shop();
    let mut order = serde_json::Map::new();
    order.insert("uuid".to_string(), serde_json::Value::String("order-uuid".to_string()));
    order.insert("comment".to_string(), serde_json::Value::String("no sugar".to_string()));
    let mut payload = serde_json::Map::new();
    payload.insert("order".to_string(), serde_json::Value::Object(order));
    let payload = serde_json::Value::Object(payload).to_string();

    enqueue_sync_outbox_event_with_pool(&mut db, sale_created_event_type(), payload).expect("publish");

    let events = list_pending_sync_outbox_entries_with_pool(&db);
    assert_eq!(events.len(), 1);
    assert_eq!(events[0].event_type, "sale.created");

    let payload: serde_json::Value = serde_json::from_str(&events[0].payload).expect("payload");
    assert_eq!(payload["order"]["uuid"], "order-uuid");
    assert_eq!(payload["order"]["comment"], "no sugar");
}

#[test]
fn outbox_entries_leave_pending_once_sent() {
    let mut db = shop();
    enqueue_sync_outbox_event_with_pool(&mut db, "a".to_string(), "{}".to_string()).unwrap();
    enqueue_sync_outbox_event_with_pool(&mut db, "b".to_string(), "[]".to_string()).unwrap();
    let pending = list_pending_sync_outbox_entries_with_pool(&db);
    assert_eq!(pending.iter().map(|e| e.id).collect::<Vec<_>>(), vec![1, 2]);
    mark_sync_outbox_entry_failed_with_pool(&mut db, 1, "status=500 body=x").unwrap();
    let pending = list_pending_sync_outbox_entries_with_pool(&db);
    assert_eq!(pending.len(), 2);
    assert_eq!(pending[0].status, OutboxStatus::Failed);
    assert_eq!(pending[0].last_error.as_deref(), Some("status=500 body=x"));
    mark_sync_outbox_entry_sent_with_pool(&mut db, 1).unwrap();
    mark_sync_outbox_entry_sent_with_pool(&mut db, 99).unwrap();
    let pending = list_pending_sync_outbox_entries_with_pool(&db);
    assert_eq!(pending.len(), 1);
    assert_eq!(pending[0].id, 2);
    assert_eq!(pending[0].event_type, "b");
    assert_eq!(db.next_outbox_id, 3);
    assert_eq!(get_categories_with_pool(&db).len(), 1);
}

#[test]
fn csv_export_quotes_fields_that_need_it() {
    let orders = vec![order(7, "t", 100, vec![line("Say \"hi\"", 100, 1), line("a\nb", 1, 2)])];
    assert_eq!(
        create_csv(&orders).unwrap(),
        "Order ID,Date,Total (cents),Items\n7,t,1,\"Say \"\"hi\"\" x1; a\nb x2\"\n"
    );
}

#[test]
fn checkout_refuses_carts_that_overflow_and_changes_nothing() {
    let mut db = shop();
    let tea = add_product_with_pool(&mut db, "Tea".to_string(), cents(125), None, None, None).unwrap();
    let log = db.audit_log.len();
    let err = checkout_with_pool(
        &mut db,
        vec![item(tea.id, "Tea", 125, i32::MAX), item(tea.id, "Tea", 125, 1)],
        "cash".to_string(),
        "".to_string(),
        0,
    )
    .unwrap_err();
    assert_eq!(err, "integer overflow");
    assert_eq!(db.audit_log.len(), log);
    assert!(get_orders_with_pool(&db).is_empty());
    assert_eq!(get_product_with_pool(&db, tea.id).unwrap().sales_used, 0);
    let err = checkout_with_pool(&mut db, vec![item(99, "Ghost", 1, 1)], "cash".to_string(), "".to_string(), 1).unwrap_err();
    assert_eq!(err, "Product not found: 99");
    assert!(get_orders_with_pool(&db).is_empty());
}
