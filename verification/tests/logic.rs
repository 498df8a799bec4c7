use kassa_lt::database::validate_price;
use kassa_lt::models::{CartItem, Price};
use kassa_lt::orders::order_items_from_cart;
use kassa_lt::text::normalize_product_name;

fn price(p: f64) -> Price {
    Price { cents: (p * 100.0).round() as i32, not_positive: p <= 0.0 }
}

#[test]
fn normalize_product_name_trims_and_rejects_empty_names() {
    assert_eq!(normalize_product_name("  Coffee  ").unwrap(), "Coffee");
    assert_eq!(
        normalize_product_name("   ").unwrap_err(),
        "Product name cannot be empty"
    );
}

#[test]
fn validate_price_rejects_negative_values() {
    assert!(validate_price(price(1.25)).is_ok());
    assert_eq!(
        validate_price(price(0.0)).unwrap_err(),
        "Price must be greater than or equal to 0"
    );
    assert_eq!(
        validate_price(price(-0.5)).unwrap_err(),
        "Price must be greater than or equal to 0"
    );
}

#[test]
fn order_items_are_copied_from_cart_items() {
    let items = vec![CartItem {
        id: 1,
        name: "Water".to_string(),
        price_cents: price(0.99).cents,
        quantity: 3,
    }];

    let order_items = order_items_from_cart(&items);

    assert_eq!(order_items.len(), 1);
    assert_eq!(order_items[0].name, "Water");
    assert_eq!(order_items[0].price_cents, 99);
    assert_eq!(order_items[0].quantity, 3);
}

#[test]
fn normalize_product_name_trims_unicode_white_space() {
    assert_eq!(normalize_product_name("\u{3000}\tTee\u{00A0}\n").unwrap(), "Tee");
    assert_eq!(normalize_product_name("a b").unwrap(), "a b");
    assert_eq!(
        normalize_product_name("\u{2028}\u{85}").unwrap_err(),
        "Product name cannot be empty"
    );
    assert_eq!(normalize_product_name("").unwrap_err(), "Product name cannot be empty");
}

#[test]
fn normalize_product_name_matches_str_trim() {
    let samples = [
        "  x ", "\u{200B}x\u{200B}", "\u{FEFF} y", "\u{1680}z\u{205F}", "\r\nw\x0b", "ü ", " 😀 ",
    ];
    for s in samples.iter() {
        let expected = s.trim();
        match normalize_product_name(s) {
            Ok(n) => assert_eq!(n, expected),
            Err(_) => assert!(expected.is_empty()),
        }
    }
}

#[test]
fn normalized_names_are_normalized_again_unchanged() {
    let once = normalize_product_name("  Green Tea \t").unwrap();
    let twice = normalize_product_name(&once).unwrap();
    assert_eq!(once, twice);
}
