//! Catalog management and stock-aware recording, exercised through the
//! public interface.

use inventory_ledger::inventory::Inventory;
use inventory_ledger::inventory::InventoryError;
use inventory_ledger::inventory::Product;
use inventory_ledger::inventory::Purchase;
use inventory_ledger::inventory::Sale;

fn product(name: &str, description: &str, price: u64, quantity: u32) -> Product {
    Product {
        name: name.to_string(),
        description: description.to_string(),
        price,
        quantity,
    }
}

fn sale(name: &str, quantity_sold: u32, sale_price: u64) -> Sale {
    Sale { product_name: name.to_string(), quantity_sold, sale_price }
}

fn purchase(name: &str, quantity_purchased: u32, purchase_price: u64) -> Purchase {
    Purchase { product_name: name.to_string(), quantity_purchased, purchase_price }
}

#[test]
fn add_then_lookup() {
    let mut inv = Inventory::new();
    inv.add_product(product("Widget", "a widget", 1000, 5));
    let p = inv.get_product(&"Widget".to_string()).expect("Widget should be cataloged");
    assert_eq!(p.name, "Widget");
    assert_eq!(p.description, "a widget");
    assert_eq!(p.price, 1000);
    assert_eq!(p.quantity, 5);
}

#[test]
fn add_overwrites_existing_entry() {
    let mut inv = Inventory::new();
    inv.add_product(product("Widget", "old", 1000, 5));
    inv.add_product(product("Widget", "new", 2000, 7));
    assert_eq!(inv.catalog().len(), 1);
    let p = inv.get_product(&"Widget".to_string()).unwrap();
    assert_eq!(p.description, "new");
    assert_eq!(p.price, 2000);
    assert_eq!(p.quantity, 7);
}

#[test]
fn edit_replaces_all_fields() {
    let mut inv = Inventory::new();
    inv.add_product(product("Widget", "old", 1000, 5));
    inv.edit_product(&"Widget".to_string(), product("Widget", "new", 900, 3));
    let p = inv.get_product(&"Widget".to_string()).unwrap();
    assert_eq!(p.description, "new");
    assert_eq!(p.price, 900);
    assert_eq!(p.quantity, 3);
}

#[test]
fn edit_keeps_entry_under_original_key() {
    let mut inv = Inventory::new();
    inv.add_product(product("Widget", "old", 1000, 5));
    inv.edit_product(&"Widget".to_string(), product("Gizmo", "renamed", 1100, 4));
    // The record's name field changed, but the entry is still keyed "Widget".
    assert!(inv.get_product(&"Gizmo".to_string()).is_none());
    let p = inv.get_product(&"Widget".to_string()).unwrap();
    assert_eq!(p.name, "Gizmo");
    assert_eq!(inv.catalog()[0].key, "Widget");
}

#[test]
fn edit_of_missing_key_is_silent_noop() {
    let mut inv = Inventory::new();
    inv.edit_product(&"Widget".to_string(), product("Widget", "d", 1000, 5));
    assert_eq!(inv.catalog().len(), 0);
}

#[test]
fn delete_removes_entry() {
    let mut inv = Inventory::new();
    inv.add_product(product("Widget", "d", 1000, 5));
    inv.delete_product(&"Widget".to_string());
    assert!(inv.get_product(&"Widget".to_string()).is_none());
    assert_eq!(inv.catalog().len(), 0);
}

#[test]
fn delete_of_missing_key_is_silent_noop() {
    let mut inv = Inventory::new();
    inv.add_product(product("Widget", "d", 1000, 5));
    inv.delete_product(&"Gadget".to_string());
    assert_eq!(inv.catalog().len(), 1);
}

#[test]
fn delete_does_not_cascade_to_logs() {
    let mut inv = Inventory::new();
    inv.add_product(product("Widget", "d", 1000, 5));
    assert_eq!(inv.record_sale(sale("Widget", 2, 1200)), Ok(()));
    inv.delete_product(&"Widget".to_string());
    assert_eq!(inv.sales_log().len(), 1);
    assert_eq!(inv.sales_log()[0].product_name, "Widget");
}

#[test]
fn sale_decrements_stock_and_logs() {
    let mut inv = Inventory::new();
    inv.add_product(product("Widget", "d", 1000, 5));
    assert_eq!(inv.record_sale(sale("Widget", 3, 1200)), Ok(()));
    assert_eq!(inv.get_product(&"Widget".to_string()).unwrap().quantity, 2);
    assert_eq!(inv.sales_log().len(), 1);
    assert_eq!(inv.sales_log()[0].quantity_sold, 3);
    assert_eq!(inv.sales_log()[0].sale_price, 1200);
}

#[test]
fn insufficient_stock_sale_is_rejected_and_non_mutating() {
    let mut inv = Inventory::new();
    inv.add_product(product("Widget", "d", 1000, 2));
    assert_eq!(
        inv.record_sale(sale("Widget", 10, 1200)),
        Err(InventoryError::InsufficientStock)
    );
    assert_eq!(inv.get_product(&"Widget".to_string()).unwrap().quantity, 2);
    assert_eq!(inv.sales_log().len(), 0);
}

#[test]
fn sale_of_unknown_product_is_rejected_and_non_mutating() {
    let mut inv = Inventory::new();
    assert_eq!(
        inv.record_sale(sale("Widget", 1, 1200)),
        Err(InventoryError::ProductNotFound)
    );
    assert_eq!(inv.sales_log().len(), 0);
    assert_eq!(inv.catalog().len(), 0);
}

#[test]
fn purchase_of_unknown_product_is_rejected_and_non_mutating() {
    let mut inv = Inventory::new();
    assert_eq!(
        inv.record_purchase(purchase("Gadget", 5, 200)),
        Err(InventoryError::ProductNotFound)
    );
    assert_eq!(inv.purchases_log().len(), 0);
    assert_eq!(inv.catalog().len(), 0);
}

#[test]
fn purchase_increments_stock_and_logs() {
    let mut inv = Inventory::new();
    inv.add_product(product("Widget", "d", 1000, 1));
    assert_eq!(inv.record_purchase(purchase("Widget", 5, 600)), Ok(()));
    assert_eq!(inv.get_product(&"Widget".to_string()).unwrap().quantity, 6);
    assert_eq!(inv.purchases_log().len(), 1);
    assert_eq!(inv.purchases_log()[0].quantity_purchased, 5);
}

#[test]
fn zero_quantity_sale_is_accepted_and_logged() {
    let mut inv = Inventory::new();
    inv.add_product(product("Widget", "d", 1000, 5));
    assert_eq!(inv.record_sale(sale("Widget", 0, 1200)), Ok(()));
    assert_eq!(inv.get_product(&"Widget".to_string()).unwrap().quantity, 5);
    assert_eq!(inv.sales_log().len(), 1);
}

#[test]
fn stock_conservation_over_a_mixed_run() {
    let mut inv = Inventory::new();
    inv.add_product(product("Widget", "d", 1000, 10));
    assert_eq!(inv.record_purchase(purchase("Widget", 5, 600)), Ok(()));
    assert_eq!(inv.record_sale(sale("Widget", 3, 1200)), Ok(()));
    // This one fails and must count for nothing.
    assert_eq!(
        inv.record_sale(sale("Widget", 20, 1200)),
        Err(InventoryError::InsufficientStock)
    );
    assert_eq!(inv.record_purchase(purchase("Widget", 2, 650)), Ok(()));
    // final = initial + purchased - sold, over the operations that succeeded.
    assert_eq!(inv.get_product(&"Widget".to_string()).unwrap().quantity, 10 + 5 + 2 - 3);
    assert_eq!(inv.sales_log().len(), 1);
    assert_eq!(inv.purchases_log().len(), 2);
}
