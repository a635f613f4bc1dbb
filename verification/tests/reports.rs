//! The aggregate reports: totals, cost of goods sold, and the documented
//! volatility of the profit figure. Prices are in minor units throughout.

use inventory_ledger::inventory::Inventory;
use inventory_ledger::inventory::Product;
use inventory_ledger::inventory::Purchase;
use inventory_ledger::inventory::Sale;

fn product(name: &str, description: &str, price: u64, quantity: u32) -> Product {
    Product {
        name: name.to_string(),
        description: description.to_string(),
        price,
        quantity,
    }
}

fn sale(name: &str, quantity_sold: u32, sale_price: u64) -> Sale {
    Sale { product_name: name.to_string(), quantity_sold, sale_price }
}

fn purchase(name: &str, quantity_purchased: u32, purchase_price: u64) -> Purchase {
    Purchase { product_name: name.to_string(), quantity_purchased, purchase_price }
}

#[test]
fn empty_ledger_reports_zero() {
    let inv = Inventory::new();
    assert_eq!(inv.calculate_total_sales(), 0);
    assert_eq!(inv.calculate_total_purchases(), 0);
    assert_eq!(inv.calculate_cost_of_sold_goods(), 0);
    assert_eq!(inv.calculate_total_profit(), 0);
}

#[test]
fn widget_sale_scenario() {
    // Catalog empty, add a 10.00 widget with 5 on hand, sell 3 at 12.00:
    // stock 2, revenue 36.00, profit 36.00 - 3 x 10.00 = 6.00.
    let mut inv = Inventory::new();
    inv.add_product(product("Widget", "desc", 1000, 5));
    assert_eq!(inv.record_sale(sale("Widget", 3, 1200)), Ok(()));
    assert_eq!(inv.get_product(&"Widget".to_string()).unwrap().quantity, 2);
    assert_eq!(inv.calculate_total_sales(), 3600);
    assert_eq!(inv.calculate_total_profit(), 600);
}

#[test]
fn total_sales_sums_every_record() {
    let mut inv = Inventory::new();
    inv.add_product(product("Widget", "d", 1000, 10));
    inv.add_product(product("Gadget", "d", 500, 10));
    assert_eq!(inv.record_sale(sale("Widget", 2, 1200)), Ok(()));
    assert_eq!(inv.record_sale(sale("Gadget", 4, 700)), Ok(()));
    assert_eq!(inv.calculate_total_sales(), 2 * 1200 + 4 * 700);
}

#[test]
fn total_purchases_sums_every_record() {
    let mut inv = Inventory::new();
    inv.add_product(product("Widget", "d", 1000, 0));
    assert_eq!(inv.record_purchase(purchase("Widget", 5, 200)), Ok(()));
    assert_eq!(inv.record_purchase(purchase("Widget", 3, 250)), Ok(()));
    assert_eq!(inv.calculate_total_purchases(), 5 * 200 + 3 * 250);
}

#[test]
fn totals_do_not_depend_on_recording_order() {
    let mut first = Inventory::new();
    first.add_product(product("Widget", "d", 1000, 10));
    first.add_product(product("Gadget", "d", 500, 10));
    assert_eq!(first.record_sale(sale("Widget", 2, 1200)), Ok(()));
    assert_eq!(first.record_sale(sale("Gadget", 4, 700)), Ok(()));
    assert_eq!(first.record_purchase(purchase("Widget", 5, 200)), Ok(()));
    assert_eq!(first.record_purchase(purchase("Gadget", 1, 450)), Ok(()));

    let mut second = Inventory::new();
    second.add_product(product("Widget", "d", 1000, 10));
    second.add_product(product("Gadget", "d", 500, 10));
    assert_eq!(second.record_sale(sale("Gadget", 4, 700)), Ok(()));
    assert_eq!(second.record_sale(sale("Widget", 2, 1200)), Ok(()));
    assert_eq!(second.record_purchase(purchase("Gadget", 1, 450)), Ok(()));
    assert_eq!(second.record_purchase(purchase("Widget", 5, 200)), Ok(()));

    assert_eq!(first.calculate_total_sales(), second.calculate_total_sales());
    assert_eq!(first.calculate_total_purchases(), second.calculate_total_purchases());
}

#[test]
fn profit_changes_when_price_is_edited_after_sales() {
    let mut inv = Inventory::new();
    inv.add_product(product("Widget", "d", 1000, 5));
    assert_eq!(inv.record_sale(sale("Widget", 2, 1500)), Ok(()));
    // Cost side valued at the current catalog price of 10.00.
    assert_eq!(inv.calculate_total_profit(), 2 * 1500 - 2 * 1000);
    inv.edit_product(&"Widget".to_string(), product("Widget", "d", 800, 3));
    // Recomputation now values the same sale at 8.00 a unit.
    assert_eq!(inv.calculate_total_profit(), 2 * 1500 - 2 * 800);
    assert_ne!(2 * 1500 - 2 * 1000, 2 * 1500 - 2 * 800);
}

#[test]
fn profit_counts_revenue_but_no_cost_for_deleted_products() {
    let mut inv = Inventory::new();
    inv.add_product(product("Widget", "d", 1000, 5));
    assert_eq!(inv.record_sale(sale("Widget", 2, 1500)), Ok(()));
    inv.delete_product(&"Widget".to_string());
    assert_eq!(inv.calculate_total_sales(), 3000);
    assert_eq!(inv.calculate_cost_of_sold_goods(), 0);
    assert_eq!(inv.calculate_total_profit(), 3000);
}

#[test]
fn profit_can_be_negative() {
    let mut inv = Inventory::new();
    inv.add_product(product("Widget", "d", 1000, 5));
    // Sold below the cataloged unit price.
    assert_eq!(inv.record_sale(sale("Widget", 2, 400)), Ok(()));
    assert_eq!(inv.calculate_total_profit(), 2 * 400 - 2 * 1000);
}

#[test]
fn snapshots_expose_catalog_and_logs() {
    let mut inv = Inventory::new();
    inv.add_product(product("Widget", "d", 1000, 5));
    assert_eq!(inv.record_sale(sale("Widget", 1, 1200)), Ok(()));
    assert_eq!(inv.record_purchase(purchase("Widget", 2, 600)), Ok(()));
    assert_eq!(inv.catalog().len(), 1);
    assert_eq!(inv.catalog()[0].key, "Widget");
    assert_eq!(inv.sales_log().len(), 1);
    assert_eq!(inv.purchases_log().len(), 1);
    assert_eq!(inv.purchases_log()[0].purchase_price, 600);
}
