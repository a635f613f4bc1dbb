//! The ledger's global laws, proved over the model: stock conservation
//! across any run of recording operations, order-independence of the two
//! aggregate totals, and the volatility of the profit figure under price
//! edits.

use vstd::prelude::*;

use crate::model::apply_edit;
use crate::model::apply_purchase;
use crate::model::apply_sale;
use crate::model::has_key;
use crate::model::keys_unique;
use crate::model::lemma_apply_edit;
use crate::model::lemma_apply_purchase;
use crate::model::lemma_apply_sale;
use crate::model::product_at;
use crate::model::product_of;
use crate::model::profit;
use crate::model::purchase_admissible;
use crate::model::purchases_cost;
use crate::model::quantity_purchased_for;
use crate::model::quantity_sold_for;
use crate::model::sale_admissible;
use crate::model::sale_cost_basis;
use crate::model::sales_revenue;
use crate::model::sold_goods_cost;
use crate::model::stock_of;
use crate::model::EntryModel;
use crate::model::InventoryModel;
use crate::model::ProductModel;
use crate::model::PurchaseModel;
use crate::model::SaleModel;

verus! {

/// One step of ledger history: a candidate sale or a candidate purchase,
/// admissible or not.
pub enum StockOp {
    Sell(SaleModel),
    Buy(PurchaseModel),
}

/// Apply one candidate operation: an admissible one takes effect, a
/// refused one leaves the ledger exactly as it was.
pub open spec fn apply_op(inv: InventoryModel, op: StockOp) -> InventoryModel {
    match op {
        StockOp::Sell(s) => apply_sale(inv, s),
        StockOp::Buy(p) => apply_purchase(inv, p),
    }
}

/// Run a whole sequence of candidate operations, oldest first.
pub open spec fn run_ops(inv: InventoryModel, ops: Seq<StockOp>) -> InventoryModel
    decreases ops.len(),
{
    if ops.len() == 0 {
        inv
    } else {
        apply_op(run_ops(inv, ops.drop_last()), ops.last())
    }
}

/// Stock conservation. Over any sequence of candidate sale and purchase
/// operations, and for any catalog key, the final stock equals the initial
/// stock plus the units purchased minus the units sold — counting, through
/// the log suffixes that the run appended, exactly the operations that
/// succeeded. Along the way: the logs only grow, and what was logged
/// before the run is still logged, unchanged and in order.
pub proof fn lemma_stock_conservation(inv: InventoryModel, ops: Seq<StockOp>, key: Seq<char>)
    requires
        keys_unique(inv.entries),
    ensures
        keys_unique(run_ops(inv, ops).entries),
        run_ops(inv, ops).sales.len() >= inv.sales.len(),
        run_ops(inv, ops).sales.take(inv.sales.len() as int) == inv.sales,
        run_ops(inv, ops).purchases.len() >= inv.purchases.len(),
        run_ops(inv, ops).purchases.take(inv.purchases.len() as int) == inv.purchases,
        stock_of(run_ops(inv, ops), key) == stock_of(inv, key) + quantity_purchased_for(
            run_ops(inv, ops).purchases.skip(inv.purchases.len() as int),
            key,
        ) - quantity_sold_for(run_ops(inv, ops).sales.skip(inv.sales.len() as int), key),
    decreases ops.len(),
{
    let r = run_ops(inv, ops);
    if ops.len() == 0 {
        assert(r.sales.take(inv.sales.len() as int) =~= inv.sales);
        assert(r.purchases.take(inv.purchases.len() as int) =~= inv.purchases);
        assert(r.sales.skip(inv.sales.len() as int) =~= Seq::<SaleModel>::empty());
        assert(r.purchases.skip(inv.purchases.len() as int) =~= Seq::<PurchaseModel>::empty());
    } else {
        let front = ops.drop_last();
        let m = run_ops(inv, front);
        lemma_stock_conservation(inv, front, key);
        let ns = inv.sales.len() as int;
        let np = inv.purchases.len() as int;
        match ops.last() {
            StockOp::Sell(s) => {
                lemma_apply_sale(m, s);
                if sale_admissible(m, s) {
                    assert(r.sales == m.sales.push(s));
                    assert(r.sales.take(ns) =~= inv.sales);
                    assert(r.sales.skip(ns) =~= m.sales.skip(ns).push(s));
                    assert(r.sales.skip(ns).drop_last() =~= m.sales.skip(ns));
                    assert(quantity_sold_for(r.sales.skip(ns), key) == quantity_sold_for(
                        m.sales.skip(ns),
                        key,
                    ) + if s.product_name == key {
                        s.quantity_sold
                    } else {
                        0
                    });
                    if s.product_name == key {
                        assert(stock_of(r, key) == stock_of(m, key) - s.quantity_sold);
                    } else {
                        assert(product_of(r.entries, key) == product_of(m.entries, key));
                        assert(stock_of(r, key) == stock_of(m, key));
                    }
                } else {
                    assert(r == m);
                }
            },
            StockOp::Buy(p) => {
                lemma_apply_purchase(m, p);
                if purchase_admissible(m, p) {
                    assert(r.purchases == m.purchases.push(p));
                    assert(r.purchases.take(np) =~= inv.purchases);
                    assert(r.purchases.skip(np) =~= m.purchases.skip(np).push(p));
                    assert(r.purchases.skip(np).drop_last() =~= m.purchases.skip(np));
                    assert(quantity_purchased_for(r.purchases.skip(np), key)
                        == quantity_purchased_for(m.purchases.skip(np), key) + if p.product_name
                        == key {
                        p.quantity_purchased
                    } else {
                        0
                    });
                    if p.product_name == key {
                        assert(stock_of(r, key) == stock_of(m, key) + p.quantity_purchased);
                    } else {
                        assert(product_of(r.entries, key) == product_of(m.entries, key));
                        assert(stock_of(r, key) == stock_of(m, key));
                    }
                } else {
                    assert(r == m);
                }
            },
        }
    }
}

/// Removing one record from a sales log lowers the revenue sum by exactly
/// that record's contribution.
proof fn lemma_revenue_remove(sales: Seq<SaleModel>, i: int)
    requires
        0 <= i < sales.len(),
    ensures
        sales_revenue(sales) == sales_revenue(sales.remove(i)) + sales[i].quantity_sold
            * sales[i].sale_price,
    decreases sales.len(),
{
    if i == sales.len() - 1 {
        assert(sales.remove(i) =~= sales.drop_last());
    } else {
        let front = sales.drop_last();
        lemma_revenue_remove(front, i);
        assert(sales.remove(i).drop_last() =~= front.remove(i));
        assert(sales.remove(i).last() == sales.last());
    }
}

/// Removing one record from a purchases log lowers the cost sum by exactly
/// that record's contribution.
proof fn lemma_purchases_remove(purchases: Seq<PurchaseModel>, i: int)
    requires
        0 <= i < purchases.len(),
    ensures
        purchases_cost(purchases) == purchases_cost(purchases.remove(i))
            + purchases[i].quantity_purchased * purchases[i].purchase_price,
    decreases purchases.len(),
{
    if i == purchases.len() - 1 {
        assert(purchases.remove(i) =~= purchases.drop_last());
    } else {
        let front = purchases.drop_last();
        lemma_purchases_remove(front, i);
        assert(purchases.remove(i).drop_last() =~= front.remove(i));
        assert(purchases.remove(i).last() == purchases.last());
    }
}

/// Aggregate additivity for sales: the total revenue is the sum of the
/// per-record contributions and nothing more, so any two logs holding the
/// same records — in whatever order — have the same total.
pub proof fn lemma_total_sales_order_irrelevant(s1: Seq<SaleModel>, s2: Seq<SaleModel>)
    requires
        s1.to_multiset() == s2.to_multiset(),
    ensures
        sales_revenue(s1) == sales_revenue(s2),
    decreases s1.len(),
{
    broadcast use vstd::seq_lib::group_to_multiset_ensures;

    if s1.len() == 0 {
        assert(s1.to_multiset().len() == 0);
        assert(s2.to_multiset().len() == s2.len());
        assert(s2.len() == 0);
    } else {
        let n1 = s1.len() - 1;
        let x = s1.last();
        assert(s1.to_multiset().count(x) > 0) by {
            assert(s1.contains(x));
        }
        assert(s2.contains(x)) by {
            assert(s2.to_multiset().count(x) > 0);
        }
        let i = choose|i: int| 0 <= i < s2.len() && s2[i] == x;
        assert(s1.remove(n1).to_multiset() =~= s1.to_multiset().remove(x));
        assert(s2.remove(i).to_multiset() =~= s2.to_multiset().remove(x));
        assert(s1.remove(n1) =~= s1.drop_last());
        assert(s1.drop_last().to_multiset() == s2.remove(i).to_multiset());
        lemma_total_sales_order_irrelevant(s1.drop_last(), s2.remove(i));
        lemma_revenue_remove(s2, i);
    }
}

/// Aggregate additivity for purchases: any two logs holding the same
/// records, in whatever order, have the same total cost.
pub proof fn lemma_total_purchases_order_irrelevant(p1: Seq<PurchaseModel>, p2: Seq<PurchaseModel>)
    requires
        p1.to_multiset() == p2.to_multiset(),
    ensures
        purchases_cost(p1) == purchases_cost(p2),
    decreases p1.len(),
{
    broadcast use vstd::seq_lib::group_to_multiset_ensures;

    if p1.len() == 0 {
        assert(p1.to_multiset().len() == 0);
        assert(p2.to_multiset().len() == p2.len());
        assert(p2.len() == 0);
    } else {
        let n1 = p1.len() - 1;
        let x = p1.last();
        assert(p1.to_multiset().count(x) > 0) by {
            assert(p1.contains(x));
        }
        assert(p2.contains(x)) by {
            assert(p2.to_multiset().count(x) > 0);
        }
        let i = choose|i: int| 0 <= i < p2.len() && p2[i] == x;
        assert(p1.remove(n1).to_multiset() =~= p1.to_multiset().remove(x));
        assert(p2.remove(i).to_multiset() =~= p2.to_multiset().remove(x));
        assert(p1.remove(n1) =~= p1.drop_last());
        assert(p1.drop_last().to_multiset() == p2.remove(i).to_multiset());
        lemma_total_purchases_order_irrelevant(p1.drop_last(), p2.remove(i));
        lemma_purchases_remove(p2, i);
    }
}

/// Re-pricing the product under one key shifts the cost of goods sold by
/// the units sold under that key times the price difference; every other
/// key's contribution stays as it was.
proof fn lemma_cost_after_reprice(
    entries: Seq<EntryModel>,
    entries2: Seq<EntryModel>,
    key: Seq<char>,
    sales: Seq<SaleModel>,
)
    requires
        has_key(entries, key),
        has_key(entries2, key),
        forall|k: Seq<char>| k != key ==> product_of(entries2, k) == product_of(entries, k),
    ensures
        sold_goods_cost(entries2, sales) - sold_goods_cost(entries, sales) == quantity_sold_for(
            sales,
            key,
        ) * (product_at(entries2, key).price - product_at(entries, key).price),
    decreases sales.len(),
{
    let d = product_at(entries2, key).price - product_at(entries, key).price;
    if sales.len() == 0 {
    } else {
        let front = sales.drop_last();
        let s = sales.last();
        lemma_cost_after_reprice(entries, entries2, key, front);
        let q0 = quantity_sold_for(front, key);
        if s.product_name == key {
            assert(sale_cost_basis(entries2, s) - sale_cost_basis(entries, s) == s.quantity_sold
                * d) by (nonlinear_arith)
                requires
                    sale_cost_basis(entries2, s) == s.quantity_sold * product_at(
                        entries2,
                        key,
                    ).price,
                    sale_cost_basis(entries, s) == s.quantity_sold * product_at(
                        entries,
                        key,
                    ).price,
                    d == product_at(entries2, key).price - product_at(entries, key).price,
            ;
            assert(q0 * d + s.quantity_sold * d == (q0 + s.quantity_sold) * d)
                by (nonlinear_arith);
            assert(quantity_sold_for(sales, key) == q0 + s.quantity_sold);
        } else {
            assert(product_of(entries2, s.product_name) == product_of(entries, s.product_name));
            if has_key(entries, s.product_name) {
                assert(has_key(entries2, s.product_name));
                assert(product_at(entries2, s.product_name) == product_at(
                    entries,
                    s.product_name,
                ));
            } else {
                assert(!has_key(entries2, s.product_name));
            }
            assert(sale_cost_basis(entries2, s) == sale_cost_basis(entries, s));
            assert(quantity_sold_for(sales, key) == q0);
        }
    }
}

/// Profit volatility. Profit values the cost of every past sale at the
/// price the catalog holds now, so editing a product's price after sales
/// of it were recorded changes the profit a recomputation reports: by
/// exactly the units sold under that key times the price change, and hence
/// to a different figure whenever some units were sold and the price
/// really changed.
pub proof fn lemma_profit_volatility(inv: InventoryModel, key: Seq<char>, updated: ProductModel)
    requires
        keys_unique(inv.entries),
        has_key(inv.entries, key),
        quantity_sold_for(inv.sales, key) > 0,
        updated.price != product_at(inv.entries, key).price,
    ensures
        profit(apply_edit(inv, key, updated)) - profit(inv) == quantity_sold_for(inv.sales, key)
            * (product_at(inv.entries, key).price - updated.price),
        profit(apply_edit(inv, key, updated)) != profit(inv),
{
    lemma_apply_edit(inv, key, updated);
    let inv2 = apply_edit(inv, key, updated);
    assert(product_of(inv2.entries, key) == Some(updated));
    assert(has_key(inv2.entries, key) && product_at(inv2.entries, key) == updated);
    lemma_cost_after_reprice(inv.entries, inv2.entries, key, inv.sales);
    assert(inv2.sales == inv.sales);
    let q = quantity_sold_for(inv.sales, key);
    let p1 = product_at(inv.entries, key).price;
    let p2 = updated.price;
    assert(q * (p1 - p2) == -(q * (p2 - p1))) by (nonlinear_arith);
    assert(q * (p1 - p2) != 0) by (nonlinear_arith)
        requires
            q > 0,
            p1 != p2,
    ;
}

} // verus!
