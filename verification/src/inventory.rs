//! The executable ledger: a product catalog held as a vector of keyed
//! entries with pairwise-distinct keys, the two append-only logs, and the
//! operations and aggregate computations over them. Every operation is
//! specified against the transition functions of `crate::model`.

use vstd::prelude::*;

use crate::model::apply_add;
use crate::model::apply_delete;
use crate::model::apply_edit;
use crate::model::apply_purchase;
use crate::model::apply_sale;
use crate::model::has_key;
use crate::model::key_index;
use crate::model::lemma_apply_add;
use crate::model::lemma_apply_delete;
use crate::model::lemma_apply_edit;
use crate::model::lemma_apply_purchase;
use crate::model::lemma_apply_sale;
use crate::model::lemma_cost_prefix_bound;
use crate::model::lemma_cost_step;
use crate::model::lemma_purchases_prefix_bound;
use crate::model::lemma_purchases_step;
use crate::model::lemma_revenue_prefix_bound;
use crate::model::lemma_revenue_step;
use crate::model::product_at;
use crate::model::product_of;
use crate::model::profit;
use crate::model::purchase_admissible;
use crate::model::purchases_cost;
use crate::model::sale_admissible;
use crate::model::sales_revenue;
use crate::model::sold_goods_cost;
use crate::model::stock_of;
use crate::model::EntryModel;
use crate::model::InventoryModel;
use crate::model::ProductModel;
use crate::model::PurchaseModel;
use crate::model::SaleModel;

verus! {

/// A product record: display name, free-form description, unit price in
/// minor units, and units currently on hand.
#[derive(Debug, Clone, PartialEq)]
pub struct Product {
    pub name: String,
    pub description: String,
    pub price: u64,
    pub quantity: u32,
}

/// One recorded sale: the catalog key it refers to, the units that left
/// stock, and the revenue per unit at the time of the sale.
#[derive(Debug, Clone, PartialEq)]
pub struct Sale {
    pub product_name: String,
    pub quantity_sold: u32,
    pub sale_price: u64,
}

/// One recorded purchase: the catalog key it refers to, the units that
/// entered stock, and the cost per unit at the time of the purchase.
#[derive(Debug, Clone, PartialEq)]
pub struct Purchase {
    pub product_name: String,
    pub quantity_purchased: u32,
    pub purchase_price: u64,
}

/// One catalog entry: the key the product is stored under and the record
/// itself. Editing may leave a record whose `name` field differs from the
/// key, so the key is kept explicitly.
#[derive(Debug, Clone, PartialEq)]
pub struct CatalogEntry {
    pub key: String,
    pub product: Product,
}

/// The two ways a recording operation can be refused.
#[derive(Debug, Clone, Copy, PartialEq, Eq, Structural)]
pub enum InventoryError {
    /// The operation referenced a catalog key with no entry.
    ProductNotFound,
    /// A sale asked for more units than are on hand.
    InsufficientStock,
}

/// The ledger: the catalog and the two append-only transaction logs. The
/// catalog keeps at most one entry per key.
pub struct Inventory {
    products: Vec<CatalogEntry>,
    sales: Vec<Sale>,
    purchases: Vec<Purchase>,
}

impl View for Product {
    type V = ProductModel;

    open spec fn view(&self) -> ProductModel {
        ProductModel {
            name: self.name@,
            description: self.description@,
            price: self.price as int,
            quantity: self.quantity as int,
        }
    }
}

impl View for Sale {
    type V = SaleModel;

    open spec fn view(&self) -> SaleModel {
        SaleModel {
            product_name: self.product_name@,
            quantity_sold: self.quantity_sold as int,
            sale_price: self.sale_price as int,
        }
    }
}

impl View for Purchase {
    type V = PurchaseModel;

    open spec fn view(&self) -> PurchaseModel {
        PurchaseModel {
            product_name: self.product_name@,
            quantity_purchased: self.quantity_purchased as int,
            purchase_price: self.purchase_price as int,
        }
    }
}

impl View for CatalogEntry {
    type V = EntryModel;

    open spec fn view(&self) -> EntryModel {
        EntryModel { key: self.key@, product: self.product@ }
    }
}

impl View for Inventory {
    type V = InventoryModel;

    closed spec fn view(&self) -> InventoryModel {
        InventoryModel {
            entries: self.products@.map_values(|e: CatalogEntry| e@),
            sales: self.sales@.map_values(|s: Sale| s@),
            purchases: self.purchases@.map_values(|p: Purchase| p@),
        }
    }
}

impl Inventory {
    /// An empty ledger: no products, no recorded history.
    pub fn new() -> (r: Inventory)
        ensures
            r@ == InventoryModel::empty(),
            r@.wf(),
    {
        let inv = Inventory { products: Vec::new(), sales: Vec::new(), purchases: Vec::new() };
        proof {
            assert(inv@ =~= InventoryModel::empty());
        }
        inv
    }

    /// Linear scan for the entry stored under `name`; returns its index.
    fn find(&self, name: &String) -> (r: Option<usize>)
        requires
            self@.wf(),
        ensures
            match r {
                Some(i) => has_key(self@.entries, name@) && i < self.products@.len() && key_index(
                    self@.entries,
                    name@,
                ) == i as int,
                None => !has_key(self@.entries, name@),
            },
    {
        let n: usize = self.products.len();
        let mut i: usize = 0;
        while i < n
            invariant
                self@.wf(),
                n == self.products@.len(),
                i <= n,
                forall|j: int| 0 <= j < i ==> self.products@[j].key@ != name@,
            decreases n - i,
        {
            if self.products[i].key == *name {
                proof {
                    assert(self@.entries[i as int].key == name@);
                    assert(has_key(self@.entries, name@));
                    let j = key_index(self@.entries, name@);
                    assert(0 <= j < self@.entries.len() && self@.entries[j].key == name@);
                    if j != i as int {
                        assert(false);
                    }
                }
                return Some(i);
            }
            i += 1;
        }
        proof {
            if has_key(self@.entries, name@) {
                let j = key_index(self@.entries, name@);
                assert(0 <= j < self@.entries.len() && self@.entries[j].key == name@);
                assert(self.products@[j].key@ == name@);
                assert(false);
            }
        }
        None
    }

    /// Catalog lookup by key, for display and for callers that want to test
    /// a product's state before recording against it.
    pub fn get_product(&self, name: &String) -> (r: Option<&Product>)
        requires
            self@.wf(),
        ensures
            match r {
                Some(p) => product_of(self@.entries, name@) == Some(p@),
                None => product_of(self@.entries, name@) is None,
            },
    {
        match self.find(name) {
            Some(i) => {
                let p = &self.products[i].product;
                proof {
                    assert(self@.entries[i as int] == self.products@[i as int]@);
                }
                Some(p)
            },
            None => None,
        }
    }

    /// Read-only snapshot of the catalog, in storage order; the order
    /// carries no meaning.
    pub fn catalog(&self) -> (r: &Vec<CatalogEntry>)
        ensures
            r@.map_values(|e: CatalogEntry| e@) == self@.entries,
    {
        &self.products
    }

    /// Read-only view of the sales log, in chronological recording order.
    pub fn sales_log(&self) -> (r: &Vec<Sale>)
        ensures
            r@.map_values(|s: Sale| s@) == self@.sales,
    {
        &self.sales
    }

    /// Read-only view of the purchases log, in chronological recording
    /// order.
    pub fn purchases_log(&self) -> (r: &Vec<Purchase>)
        ensures
            r@.map_values(|p: Purchase| p@) == self@.purchases,
    {
        &self.purchases
    }

    /// Insert a product under its own name, or replace whatever the catalog
    /// already holds under that name: last write wins, and no error is
    /// reported on overwrite. The logs are untouched.
    pub fn add_product(&mut self, product: Product)
        requires
            old(self)@.wf(),
        ensures
            final(self)@.wf(),
            final(self)@ == apply_add(old(self)@, product@),
            product_of(final(self)@.entries, product@.name) == Some(product@),
            forall|k: Seq<char>| k != product@.name ==> product_of(final(self)@.entries, k)
                == product_of(old(self)@.entries, k),
            final(self)@.sales == old(self)@.sales,
            final(self)@.purchases == old(self)@.purchases,
    {
        proof {
            lemma_apply_add(self@, product@);
        }
        let ghost m0 = self@;
        let key = product.name.clone();
        match self.find(&key) {
            Some(i) => {
                let entry = CatalogEntry { key, product };
                self.products[i] = entry;
                proof {
                    assert(self@.entries =~= m0.entries.update(i as int, entry@));
                    assert(self@ =~= apply_add(m0, product@));
                }
            },
            None => {
                let entry = CatalogEntry { key, product };
                self.products.push(entry);
                proof {
                    assert(self@.entries =~= m0.entries.push(entry@));
                    assert(self@ =~= apply_add(m0, product@));
                }
            },
        }
    }

    /// Replace every field of the product stored under `product_name`,
    /// keeping the entry under its original key even when the replacement
    /// carries a different name. Editing an absent key is a silent no-op
    /// rather than an error. The logs are untouched.
    pub fn edit_product(&mut self, product_name: &String, new_product: Product)
        requires
            old(self)@.wf(),
        ensures
            final(self)@.wf(),
            final(self)@ == apply_edit(old(self)@, product_name@, new_product@),
            has_key(old(self)@.entries, product_name@) ==> product_of(
                final(self)@.entries,
                product_name@,
            ) == Some(new_product@),
            !has_key(old(self)@.entries, product_name@) ==> final(self)@ == old(self)@,
            forall|k: Seq<char>| k != product_name@ ==> product_of(final(self)@.entries, k)
                == product_of(old(self)@.entries, k),
            final(self)@.sales == old(self)@.sales,
            final(self)@.purchases == old(self)@.purchases,
    {
        proof {
            lemma_apply_edit(self@, product_name@, new_product@);
        }
        let ghost m0 = self@;
        match self.find(product_name) {
            Some(i) => {
                let entry = CatalogEntry { key: product_name.clone(), product: new_product };
                self.products[i] = entry;
                proof {
                    assert(self@.entries =~= m0.entries.update(i as int, entry@));
                    assert(self@ =~= apply_edit(m0, product_name@, new_product@));
                }
            },
            None => {},
        }
    }

    /// Remove the entry stored under `product_name` if there is one; a
    /// silent no-op otherwise. Log records that mention the key stay in the
    /// logs: deletion does not cascade.
    pub fn delete_product(&mut self, product_name: &String)
        requires
            old(self)@.wf(),
        ensures
            final(self)@.wf(),
            final(self)@ == apply_delete(old(self)@, product_name@),
            !has_key(final(self)@.entries, product_name@),
            !has_key(old(self)@.entries, product_name@) ==> final(self)@ == old(self)@,
            forall|k: Seq<char>| k != product_name@ ==> product_of(final(self)@.entries, k)
                == product_of(old(self)@.entries, k),
            final(self)@.sales == old(self)@.sales,
            final(self)@.purchases == old(self)@.purchases,
    {
        proof {
            lemma_apply_delete(self@, product_name@);
        }
        let ghost m0 = self@;
        match self.find(product_name) {
            Some(i) => {
                self.products.remove(i);
                proof {
                    assert(self@.entries =~= m0.entries.remove(i as int));
                    assert(self@ =~= apply_delete(m0, product_name@));
                }
            },
            None => {},
        }
    }

    /// Record a sale. The sale goes through exactly when its product is
    /// cataloged and has at least `quantity_sold` units on hand; then the
    /// stock is decremented and the record appended to the sales log, both
    /// or neither. A sale for an uncataloged key is refused with
    /// `ProductNotFound`, one beyond the stock with `InsufficientStock`,
    /// and a refused sale leaves the ledger exactly as it was. A sale of
    /// zero units is accepted and logged.
    pub fn record_sale(&mut self, sale: Sale) -> (r: Result<(), InventoryError>)
        requires
            old(self)@.wf(),
        ensures
            final(self)@.wf(),
            final(self)@ == apply_sale(old(self)@, sale@),
            r is Ok <==> sale_admissible(old(self)@, sale@),
            !has_key(old(self)@.entries, sale@.product_name) ==> r == Err::<
                (),
                InventoryError,
            >(InventoryError::ProductNotFound),
            has_key(old(self)@.entries, sale@.product_name) && !sale_admissible(old(self)@, sale@)
                ==> r == Err::<(), InventoryError>(InventoryError::InsufficientStock),
            !sale_admissible(old(self)@, sale@) ==> final(self)@ == old(self)@,
            sale_admissible(old(self)@, sale@) ==> {
                &&& final(self)@.sales == old(self)@.sales.push(sale@)
                &&& final(self)@.purchases == old(self)@.purchases
                &&& stock_of(final(self)@, sale@.product_name) == stock_of(
                    old(self)@,
                    sale@.product_name,
                ) - sale@.quantity_sold
                &&& forall|k: Seq<char>| k != sale@.product_name ==> product_of(
                    final(self)@.entries,
                    k,
                ) == product_of(old(self)@.entries, k)
            },
    {
        proof {
            lemma_apply_sale(self@, sale@);
        }
        let ghost m0 = self@;
        match self.find(&sale.product_name) {
            None => Err(InventoryError::ProductNotFound),
            Some(i) => {
                if self.products[i].product.quantity >= sale.quantity_sold {
                    proof {
                        assert(self@.entries[i as int] == self.products@[i as int]@);
                        assert(sale_admissible(m0, sale@));
                    }
                    let mut entry = self.products.remove(i);
                    entry.product.quantity = entry.product.quantity - sale.quantity_sold;
                    self.products.insert(i, entry);
                    self.sales.push(sale);
                    proof {
                        assert(self@.entries =~= apply_sale(m0, sale@).entries);
                        assert(self@.sales =~= m0.sales.push(sale@));
                        assert(self@ =~= apply_sale(m0, sale@));
                    }
                    Ok(())
                } else {
                    proof {
                        assert(self@.entries[i as int] == self.products@[i as int]@);
                        assert(!sale_admissible(m0, sale@));
                    }
                    Err(InventoryError::InsufficientStock)
                }
            },
        }
    }

    /// Record a purchase. The purchase goes through exactly when its
    /// product is cataloged; then the stock is incremented and the record
    /// appended to the purchases log, both or neither. A purchase for an
    /// uncataloged key is refused with `ProductNotFound` and leaves the
    /// ledger exactly as it was. The caller keeps the incremented stock
    /// within its machine representation; the domain itself puts no upper
    /// bound on stock.
    pub fn record_purchase(&mut self, purchase: Purchase) -> (r: Result<(), InventoryError>)
        requires
            old(self)@.wf(),
            purchase_admissible(old(self)@, purchase@) ==> stock_of(
                old(self)@,
                purchase@.product_name,
            ) + purchase@.quantity_purchased <= u32::MAX,
        ensures
            final(self)@.wf(),
            final(self)@ == apply_purchase(old(self)@, purchase@),
            r is Ok <==> purchase_admissible(old(self)@, purchase@),
            !purchase_admissible(old(self)@, purchase@) ==> r == Err::<
                (),
                InventoryError,
            >(InventoryError::ProductNotFound) && final(self)@ == old(self)@,
            purchase_admissible(old(self)@, purchase@) ==> {
                &&& final(self)@.purchases == old(self)@.purchases.push(purchase@)
                &&& final(self)@.sales == old(self)@.sales
                &&& stock_of(final(self)@, purchase@.product_name) == stock_of(
                    old(self)@,
                    purchase@.product_name,
                ) + purchase@.quantity_purchased
                &&& forall|k: Seq<char>| k != purchase@.product_name ==> product_of(
                    final(self)@.entries,
                    k,
                ) == product_of(old(self)@.entries, k)
            },
    {
        proof {
            lemma_apply_purchase(self@, purchase@);
        }
        let ghost m0 = self@;
        match self.find(&purchase.product_name) {
            None => Err(InventoryError::ProductNotFound),
            Some(i) => {
                proof {
                    assert(self@.entries[i as int] == self.products@[i as int]@);
                    assert(stock_of(m0, purchase@.product_name) == self.products@[i as int].product.quantity
                        as int) by {
                        assert(product_at(m0.entries, purchase@.product_name) == m0.entries[
                        i as int].product);
                    }
                }
                let mut entry = self.products.remove(i);
                entry.product.quantity = entry.product.quantity + purchase.quantity_purchased;
                self.products.insert(i, entry);
                self.purchases.push(purchase);
                proof {
                    assert(self@.entries =~= apply_purchase(m0, purchase@).entries);
                    assert(self@.purchases =~= m0.purchases.push(purchase@));
                    assert(self@ =~= apply_purchase(m0, purchase@));
                }
                Ok(())
            },
        }
    }

    /// Total revenue of the sales log: the sum over every record of units
    /// sold times the sale price per unit. Pure: the ledger is not changed.
    /// The full log is counted whatever the catalog holds now.
    pub fn calculate_total_sales(&self) -> (r: u128)
        requires
            self@.wf(),
            sales_revenue(self@.sales) <= u128::MAX,
        ensures
            r as int == sales_revenue(self@.sales),
    {
        let n: usize = self.sales.len();
        let mut total: u128 = 0;
        let mut i: usize = 0;
        while i < n
            invariant
                self@.wf(),
                sales_revenue(self@.sales) <= u128::MAX,
                n == self.sales@.len(),
                i <= n,
                total as int == sales_revenue(self@.sales.take(i as int)),
            decreases n - i,
        {
            proof {
                assert(self@.sales[i as int] == self.sales@[i as int]@);
                lemma_revenue_step(self@.sales, i as int);
                lemma_revenue_prefix_bound(self@.sales, i as int + 1);
                assert(self@.sales[i as int].quantity_sold * self@.sales[i as int].sale_price
                    <= u32::MAX * u64::MAX) by (nonlinear_arith)
                    requires
                        0 <= self@.sales[i as int].quantity_sold <= u32::MAX,
                        0 <= self@.sales[i as int].sale_price <= u64::MAX,
                ;
            }
            let contribution: u128 = (self.sales[i].quantity_sold as u128) * (self.sales[i].sale_price
                as u128);
            total = total + contribution;
            i += 1;
        }
        proof {
            assert(self@.sales.take(n as int) =~= self@.sales);
        }
        total
    }

    /// Total cost of the purchases log: the sum over every record of units
    /// bought times the purchase price per unit. Pure, and counted over the
    /// full log whatever the catalog holds now.
    pub fn calculate_total_purchases(&self) -> (r: u128)
        requires
            self@.wf(),
            purchases_cost(self@.purchases) <= u128::MAX,
        ensures
            r as int == purchases_cost(self@.purchases),
    {
        let n: usize = self.purchases.len();
        let mut total: u128 = 0;
        let mut i: usize = 0;
        while i < n
            invariant
                self@.wf(),
                purchases_cost(self@.purchases) <= u128::MAX,
                n == self.purchases@.len(),
                i <= n,
                total as int == purchases_cost(self@.purchases.take(i as int)),
            decreases n - i,
        {
            proof {
                assert(self@.purchases[i as int] == self.purchases@[i as int]@);
                lemma_purchases_step(self@.purchases, i as int);
                lemma_purchases_prefix_bound(self@.purchases, i as int + 1);
                assert(self@.purchases[i as int].quantity_purchased * self@.purchases[i as int].purchase_price
                    <= u32::MAX * u64::MAX) by (nonlinear_arith)
                    requires
                        0 <= self@.purchases[i as int].quantity_purchased <= u32::MAX,
                        0 <= self@.purchases[i as int].purchase_price <= u64::MAX,
                ;
            }
            let contribution: u128 = (self.purchases[i].quantity_purchased as u128)
                * (self.purchases[i].purchase_price as u128);
            total = total + contribution;
            i += 1;
        }
        proof {
            assert(self@.purchases.take(n as int) =~= self@.purchases);
        }
        total
    }

    /// The cost of the goods sold so far, valuing every sale at the unit
    /// price the catalog holds for its product now — not at the price in
    /// force when the sale was recorded. A sale whose product has been
    /// deleted since contributes nothing to the cost.
    pub fn calculate_cost_of_sold_goods(&self) -> (r: u128)
        requires
            self@.wf(),
            sold_goods_cost(self@.entries, self@.sales) <= u128::MAX,
        ensures
            r as int == sold_goods_cost(self@.entries, self@.sales),
    {
        let n: usize = self.sales.len();
        let mut total: u128 = 0;
        let mut i: usize = 0;
        while i < n
            invariant
                self@.wf(),
                sold_goods_cost(self@.entries, self@.sales) <= u128::MAX,
                n == self.sales@.len(),
                i <= n,
                total as int == sold_goods_cost(self@.entries, self@.sales.take(i as int)),
            decreases n - i,
        {
            proof {
                assert(self@.sales[i as int] == self.sales@[i as int]@);
                lemma_cost_step(self@.entries, self@.sales, i as int);
                lemma_cost_prefix_bound(self@.entries, self@.sales, i as int + 1);
            }
            let contribution: u128 = match self.find(&self.sales[i].product_name) {
                Some(j) => {
                    proof {
                        assert(self@.entries[j as int] == self.products@[j as int]@);
                        assert(product_at(self@.entries, self@.sales[i as int].product_name)
                            == self@.entries[j as int].product);
                        assert(self@.sales[i as int].quantity_sold * self@.entries[j as int].product.price
                            <= u32::MAX * u64::MAX) by (nonlinear_arith)
                            requires
                                0 <= self@.sales[i as int].quantity_sold <= u32::MAX,
                                0 <= self@.entries[j as int].product.price <= u64::MAX,
                        ;
                    }
                    (self.sales[i].quantity_sold as u128) * (self.products[j].product.price
                        as u128)
                },
                None => 0,
            };
            total = total + contribution;
            i += 1;
        }
        proof {
            assert(self@.sales.take(n as int) =~= self@.sales);
        }
        total
    }

    /// Profit as the ledger defines it: total sales revenue minus the cost
    /// of the goods sold at current catalog prices. Editing a price or
    /// deleting a product therefore changes the profit that a later call
    /// reports; the figure is deliberately not a stable historical one.
    pub fn calculate_total_profit(&self) -> (r: i128)
        requires
            self@.wf(),
            sales_revenue(self@.sales) <= i128::MAX,
            sold_goods_cost(self@.entries, self@.sales) <= i128::MAX,
        ensures
            r as int == profit(self@),
    {
        proof {
            lemma_revenue_prefix_bound(self@.sales, 0);
            assert(self@.sales.take(0) =~= Seq::<SaleModel>::empty());
            lemma_cost_prefix_bound(self@.entries, self@.sales, 0);
        }
        let revenue: u128 = self.calculate_total_sales();
        let cost: u128 = self.calculate_cost_of_sold_goods();
        (revenue as i128) - (cost as i128)
    }
}

} // verus!
