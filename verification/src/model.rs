//! The mathematical model of the ledger: catalog entries, log records and
//! the whole inventory as sequences of unbounded integers and character
//! sequences, together with the transition functions that the executable
//! operations are specified against and the derived aggregate sums.

use vstd::prelude::*;

verus! {

/// Model of one product record: the display name, a free-form description,
/// the unit price in minor units, and the units currently on hand.
#[verifier::ext_equal]
pub struct ProductModel {
    pub name: Seq<char>,
    pub description: Seq<char>,
    pub price: int,
    pub quantity: int,
}

/// Model of one catalog entry. The catalog is keyed by the name the product
/// was stored under; editing an entry may leave a product whose `name` field
/// differs from the key, so the key is kept alongside the record.
#[verifier::ext_equal]
pub struct EntryModel {
    pub key: Seq<char>,
    pub product: ProductModel,
}

/// Model of one recorded sale: which catalog key it refers to, how many
/// units left stock, and the revenue per unit at the time of the sale.
#[verifier::ext_equal]
pub struct SaleModel {
    pub product_name: Seq<char>,
    pub quantity_sold: int,
    pub sale_price: int,
}

/// Model of one recorded purchase: which catalog key it refers to, how many
/// units entered stock, and the cost per unit at the time of the purchase.
#[verifier::ext_equal]
pub struct PurchaseModel {
    pub product_name: Seq<char>,
    pub quantity_purchased: int,
    pub purchase_price: int,
}

/// Model of the whole ledger: the catalog and the two append-only logs,
/// each in chronological recording order.
#[verifier::ext_equal]
pub struct InventoryModel {
    pub entries: Seq<EntryModel>,
    pub sales: Seq<SaleModel>,
    pub purchases: Seq<PurchaseModel>,
}

/// Some catalog entry carries this key.
pub open spec fn has_key(entries: Seq<EntryModel>, key: Seq<char>) -> bool {
    exists|i: int| 0 <= i < entries.len() && entries[i].key == key
}

/// The index of the entry carrying this key; meaningful only when `has_key`
/// holds, and unique under `keys_unique`.
pub open spec fn key_index(entries: Seq<EntryModel>, key: Seq<char>) -> int {
    choose|i: int| 0 <= i < entries.len() && entries[i].key == key
}

/// The product stored under this key; meaningful only when `has_key` holds.
pub open spec fn product_at(entries: Seq<EntryModel>, key: Seq<char>) -> ProductModel {
    entries[key_index(entries, key)].product
}

/// Catalog lookup as a partial function from keys to products.
pub open spec fn product_of(entries: Seq<EntryModel>, key: Seq<char>) -> Option<ProductModel> {
    if has_key(entries, key) {
        Some(product_at(entries, key))
    } else {
        None
    }
}

/// No two catalog entries share a key.
pub open spec fn keys_unique(entries: Seq<EntryModel>) -> bool {
    forall|i: int, j: int| 0 <= i < j < entries.len() ==> entries[i].key != entries[j].key
}

/// The ranges a product model inherits from the machine representation:
/// a price that fits `u64` and a stock count that fits `u32`.
pub open spec fn product_ok(p: ProductModel) -> bool {
    0 <= p.price <= u64::MAX && 0 <= p.quantity <= u32::MAX
}

/// Range conditions for a recorded sale.
pub open spec fn sale_ok(s: SaleModel) -> bool {
    0 <= s.quantity_sold <= u32::MAX && 0 <= s.sale_price <= u64::MAX
}

/// Range conditions for a recorded purchase.
pub open spec fn purchase_ok(p: PurchaseModel) -> bool {
    0 <= p.quantity_purchased <= u32::MAX && 0 <= p.purchase_price <= u64::MAX
}

impl InventoryModel {
    /// The ledger a fresh process starts from: no products, no history.
    pub open spec fn empty() -> InventoryModel {
        InventoryModel { entries: Seq::empty(), sales: Seq::empty(), purchases: Seq::empty() }
    }

    /// Well-formedness: catalog keys are unique and every stored number is
    /// within the range of its machine representation.
    pub open spec fn wf(self) -> bool {
        &&& keys_unique(self.entries)
        &&& forall|i: int| 0 <= i < self.entries.len() ==> product_ok(#[trigger] self.entries[i].product)
        &&& forall|i: int| 0 <= i < self.sales.len() ==> sale_ok(#[trigger] self.sales[i])
        &&& forall|i: int| 0 <= i < self.purchases.len() ==> purchase_ok(#[trigger] self.purchases[i])
    }
}

/// Adding a product inserts a fresh entry keyed by the product's name, or
/// replaces the entry already stored under that key; last write wins.
pub open spec fn apply_add(inv: InventoryModel, p: ProductModel) -> InventoryModel {
    let entry = EntryModel { key: p.name, product: p };
    if has_key(inv.entries, p.name) {
        InventoryModel {
            entries: inv.entries.update(key_index(inv.entries, p.name), entry),
            sales: inv.sales,
            purchases: inv.purchases,
        }
    } else {
        InventoryModel {
            entries: inv.entries.push(entry),
            sales: inv.sales,
            purchases: inv.purchases,
        }
    }
}

/// Editing replaces every field of the product stored under `key` but keeps
/// the entry under its original key, even when the replacement carries a
/// different `name`. Editing an absent key is a silent no-op.
pub open spec fn apply_edit(inv: InventoryModel, key: Seq<char>, p: ProductModel) -> InventoryModel {
    if has_key(inv.entries, key) {
        InventoryModel {
            entries: inv.entries.update(
                key_index(inv.entries, key),
                EntryModel { key: key, product: p },
            ),
            sales: inv.sales,
            purchases: inv.purchases,
        }
    } else {
        inv
    }
}

/// Deleting removes the entry stored under `key` and touches nothing else;
/// deleting an absent key is a silent no-op. Past log records that mention
/// the key stay in the logs untouched.
pub open spec fn apply_delete(inv: InventoryModel, key: Seq<char>) -> InventoryModel {
    if has_key(inv.entries, key) {
        InventoryModel {
            entries: inv.entries.remove(key_index(inv.entries, key)),
            sales: inv.sales,
            purchases: inv.purchases,
        }
    } else {
        inv
    }
}

/// A sale goes through exactly when its product is in the catalog and has at
/// least the requested units on hand. A sale of zero units is admissible and
/// is still logged.
pub open spec fn sale_admissible(inv: InventoryModel, s: SaleModel) -> bool {
    has_key(inv.entries, s.product_name) && s.quantity_sold <= product_at(
        inv.entries,
        s.product_name,
    ).quantity
}

/// An admissible sale decrements the product's stock and appends the record
/// to the sales log; an inadmissible one changes nothing.
pub open spec fn apply_sale(inv: InventoryModel, s: SaleModel) -> InventoryModel {
    if sale_admissible(inv, s) {
        let i = key_index(inv.entries, s.product_name);
        let e = inv.entries[i];
        InventoryModel {
            entries: inv.entries.update(
                i,
                EntryModel {
                    key: e.key,
                    product: ProductModel {
                        name: e.product.name,
                        description: e.product.description,
                        price: e.product.price,
                        quantity: e.product.quantity - s.quantity_sold,
                    },
                },
            ),
            sales: inv.sales.push(s),
            purchases: inv.purchases,
        }
    } else {
        inv
    }
}

/// A purchase goes through exactly when its product is in the catalog.
pub open spec fn purchase_admissible(inv: InventoryModel, p: PurchaseModel) -> bool {
    has_key(inv.entries, p.product_name)
}

/// An admissible purchase increments the product's stock and appends the
/// record to the purchases log; an inadmissible one changes nothing.
pub open spec fn apply_purchase(inv: InventoryModel, p: PurchaseModel) -> InventoryModel {
    if purchase_admissible(inv, p) {
        let i = key_index(inv.entries, p.product_name);
        let e = inv.entries[i];
        InventoryModel {
            entries: inv.entries.update(
                i,
                EntryModel {
                    key: e.key,
                    product: ProductModel {
                        name: e.product.name,
                        description: e.product.description,
                        price: e.product.price,
                        quantity: e.product.quantity + p.quantity_purchased,
                    },
                },
            ),
            sales: inv.sales,
            purchases: inv.purchases.push(p),
        }
    } else {
        inv
    }
}

/// Total revenue of a sales log: the sum over every record of units sold
/// times the sale price per unit.
pub open spec fn sales_revenue(sales: Seq<SaleModel>) -> int
    decreases sales.len(),
{
    if sales.len() == 0 {
        0
    } else {
        sales_revenue(sales.drop_last()) + sales.last().quantity_sold * sales.last().sale_price
    }
}

/// Total cost of a purchases log: the sum over every record of units bought
/// times the purchase price per unit.
pub open spec fn purchases_cost(purchases: Seq<PurchaseModel>) -> int
    decreases purchases.len(),
{
    if purchases.len() == 0 {
        0
    } else {
        purchases_cost(purchases.drop_last()) + purchases.last().quantity_purchased
            * purchases.last().purchase_price
    }
}

/// The cost side of one sale, valued at the price the catalog holds now: if
/// the referenced product is still cataloged, units sold times its current
/// unit price; if it has been deleted since, zero.
pub open spec fn sale_cost_basis(entries: Seq<EntryModel>, s: SaleModel) -> int {
    if has_key(entries, s.product_name) {
        s.quantity_sold * product_at(entries, s.product_name).price
    } else {
        0
    }
}

/// Total cost of the goods sold so far, valued at current catalog prices.
pub open spec fn sold_goods_cost(entries: Seq<EntryModel>, sales: Seq<SaleModel>) -> int
    decreases sales.len(),
{
    if sales.len() == 0 {
        0
    } else {
        sold_goods_cost(entries, sales.drop_last()) + sale_cost_basis(entries, sales.last())
    }
}

/// Profit as the ledger defines it: revenue of all sales minus the cost of
/// the goods sold, the cost valued at the catalog prices current at the time
/// the figure is computed — not at the prices in force when each sale was
/// recorded.
pub open spec fn profit(inv: InventoryModel) -> int {
    sales_revenue(inv.sales) - sold_goods_cost(inv.entries, inv.sales)
}

/// The units on hand under a key, read as zero for an absent key.
pub open spec fn stock_of(inv: InventoryModel, key: Seq<char>) -> int {
    if has_key(inv.entries, key) {
        product_at(inv.entries, key).quantity
    } else {
        0
    }
}

/// The units a sales log records as sold under one key.
pub open spec fn quantity_sold_for(sales: Seq<SaleModel>, key: Seq<char>) -> int
    decreases sales.len(),
{
    if sales.len() == 0 {
        0
    } else {
        quantity_sold_for(sales.drop_last(), key) + if sales.last().product_name == key {
            sales.last().quantity_sold
        } else {
            0
        }
    }
}

/// The units a purchases log records as bought under one key.
pub open spec fn quantity_purchased_for(purchases: Seq<PurchaseModel>, key: Seq<char>) -> int
    decreases purchases.len(),
{
    if purchases.len() == 0 {
        0
    } else {
        quantity_purchased_for(purchases.drop_last(), key) + if purchases.last().product_name
            == key {
            purchases.last().quantity_purchased
        } else {
            0
        }
    }
}

/// Replacing the entry at a key's own index keeps the keys unique, stores
/// the replacement under that key, and leaves every other key's lookup
/// untouched.
pub proof fn lemma_update_lookup(entries: Seq<EntryModel>, i: int, e: EntryModel)
    requires
        keys_unique(entries),
        0 <= i < entries.len(),
        entries[i].key == e.key,
    ensures
        keys_unique(entries.update(i, e)),
        has_key(entries.update(i, e), e.key),
        key_index(entries.update(i, e), e.key) == i,
        product_of(entries.update(i, e), e.key) == Some(e.product),
        forall|k: Seq<char>| k != e.key ==> product_of(entries.update(i, e), k) == product_of(
            entries,
            k,
        ),
{
    let u = entries.update(i, e);
    assert(u[i].key == e.key);
    assert(has_key(u, e.key));
    let j = key_index(u, e.key);
    assert(0 <= j < u.len() && u[j].key == e.key);
    if j != i {
        assert(entries[j].key == e.key);
        assert(entries[i].key == e.key);
        assert(false);
    }
    assert forall|k: Seq<char>| k != e.key implies product_of(u, k) == product_of(entries, k) by {
        if has_key(entries, k) {
            let a = key_index(entries, k);
            assert(0 <= a < entries.len() && entries[a].key == k);
            assert(a != i);
            assert(u[a].key == k);
            assert(has_key(u, k));
            let b = key_index(u, k);
            assert(0 <= b < u.len() && u[b].key == k);
            assert(b != i);
            assert(entries[b].key == k);
            assert(a == b);
        } else {
            if has_key(u, k) {
                let b = key_index(u, k);
                assert(0 <= b < u.len() && u[b].key == k);
                assert(b != i);
                assert(entries[b].key == k);
                assert(false);
            }
        }
    }
}

/// Appending an entry under a fresh key keeps the keys unique, stores the
/// entry under its key, and leaves every other key's lookup untouched.
pub proof fn lemma_push_lookup(entries: Seq<EntryModel>, e: EntryModel)
    requires
        keys_unique(entries),
        !has_key(entries, e.key),
    ensures
        keys_unique(entries.push(e)),
        has_key(entries.push(e), e.key),
        key_index(entries.push(e), e.key) == entries.len(),
        product_of(entries.push(e), e.key) == Some(e.product),
        forall|k: Seq<char>| k != e.key ==> product_of(entries.push(e), k) == product_of(
            entries,
            k,
        ),
{
    let u = entries.push(e);
    let n = entries.len() as int;
    assert forall|i: int, j: int| 0 <= i < j < u.len() implies u[i].key != u[j].key by {
        if j < n {
            assert(entries[i].key != entries[j].key);
        } else {
            assert(u[j] == e);
            assert(u[i] == entries[i]);
            if entries[i].key == e.key {
                assert(has_key(entries, e.key));
            }
        }
    }
    assert(u[n].key == e.key);
    assert(has_key(u, e.key));
    let j = key_index(u, e.key);
    assert(0 <= j < u.len() && u[j].key == e.key);
    if j != n {
        assert(entries[j].key == e.key);
        assert(has_key(entries, e.key));
    }
    assert forall|k: Seq<char>| k != e.key implies product_of(u, k) == product_of(entries, k) by {
        if has_key(entries, k) {
            let a = key_index(entries, k);
            assert(0 <= a < entries.len() && entries[a].key == k);
            assert(u[a].key == k);
            assert(has_key(u, k));
            let b = key_index(u, k);
            assert(0 <= b < u.len() && u[b].key == k);
            if b == n {
                assert(u[b].key == e.key);
            }
            assert(entries[b].key == k);
            assert(a == b);
        } else {
            if has_key(u, k) {
                let b = key_index(u, k);
                assert(0 <= b < u.len() && u[b].key == k);
                if b == n {
                    assert(u[b].key == e.key);
                }
                assert(entries[b].key == k);
                assert(false);
            }
        }
    }
}

/// Removing the entry at a key's own index keeps the keys unique, removes
/// that key from the catalog, and leaves every other key's lookup untouched.
pub proof fn lemma_remove_lookup(entries: Seq<EntryModel>, i: int)
    requires
        keys_unique(entries),
        0 <= i < entries.len(),
    ensures
        keys_unique(entries.remove(i)),
        !has_key(entries.remove(i), entries[i].key),
        forall|k: Seq<char>| k != entries[i].key ==> product_of(entries.remove(i), k)
            == product_of(entries, k),
{
    let u = entries.remove(i);
    let kk = entries[i].key;
    assert forall|a: int, b: int| 0 <= a < b < u.len() implies u[a].key != u[b].key by {
        let a0: int = if a < i {
            a
        } else {
            a + 1
        };
        let b0: int = if b < i {
            b
        } else {
            b + 1
        };
        assert(u[a] == entries[a0]);
        assert(u[b] == entries[b0]);
        assert(entries[a0].key != entries[b0].key);
    }
    if has_key(u, kk) {
        let b = key_index(u, kk);
        assert(0 <= b < u.len() && u[b].key == kk);
        let b0: int = if b < i {
            b
        } else {
            b + 1
        };
        assert(u[b] == entries[b0]);
        assert(b0 != i);
        assert(entries[b0].key == kk && entries[i].key == kk);
        assert(false);
    }
    assert forall|k: Seq<char>| k != kk implies product_of(u, k) == product_of(entries, k) by {
        if has_key(entries, k) {
            let a = key_index(entries, k);
            assert(0 <= a < entries.len() && entries[a].key == k);
            assert(a != i);
            let a1: int = if a < i {
                a
            } else {
                a - 1
            };
            assert(u[a1] == entries[a]);
            assert(has_key(u, k));
            let b = key_index(u, k);
            assert(0 <= b < u.len() && u[b].key == k);
            let b0: int = if b < i {
                b
            } else {
                b + 1
            };
            assert(u[b] == entries[b0]);
            assert(entries[b0].key == k);
            assert(b0 == a);
        } else {
            if has_key(u, k) {
                let b = key_index(u, k);
                assert(0 <= b < u.len() && u[b].key == k);
                let b0: int = if b < i {
                    b
                } else {
                    b + 1
                };
                assert(u[b] == entries[b0]);
                assert(has_key(entries, k));
                assert(false);
            }
        }
    }
}

/// One more sales record extends the revenue sum by that record's
/// units-times-price contribution.
pub proof fn lemma_revenue_step(sales: Seq<SaleModel>, i: int)
    requires
        0 <= i < sales.len(),
    ensures
        sales_revenue(sales.take(i + 1)) == sales_revenue(sales.take(i)) + sales[i].quantity_sold
            * sales[i].sale_price,
{
    assert(sales.take(i + 1).drop_last() =~= sales.take(i));
    assert(sales.take(i + 1).last() == sales[i]);
}

/// Every prefix of an in-range sales log contributes no more than the whole
/// log: each record's contribution is non-negative.
pub proof fn lemma_revenue_prefix_bound(sales: Seq<SaleModel>, i: int)
    requires
        0 <= i <= sales.len(),
        forall|j: int| 0 <= j < sales.len() ==> sale_ok(#[trigger] sales[j]),
    ensures
        sales_revenue(sales.take(i)) <= sales_revenue(sales),
    decreases sales.len() - i,
{
    if i == sales.len() {
        assert(sales.take(i) =~= sales);
    } else {
        lemma_revenue_step(sales, i);
        assert(sales[i].quantity_sold * sales[i].sale_price >= 0) by (nonlinear_arith)
            requires
                sales[i].quantity_sold >= 0,
                sales[i].sale_price >= 0,
        ;
        lemma_revenue_prefix_bound(sales, i + 1);
    }
}

/// One more purchase record extends the cost sum by that record's
/// units-times-price contribution.
pub proof fn lemma_purchases_step(purchases: Seq<PurchaseModel>, i: int)
    requires
        0 <= i < purchases.len(),
    ensures
        purchases_cost(purchases.take(i + 1)) == purchases_cost(purchases.take(i))
            + purchases[i].quantity_purchased * purchases[i].purchase_price,
{
    assert(purchases.take(i + 1).drop_last() =~= purchases.take(i));
    assert(purchases.take(i + 1).last() == purchases[i]);
}

/// Every prefix of an in-range purchases log costs no more than the whole
/// log: each record's contribution is non-negative.
pub proof fn lemma_purchases_prefix_bound(purchases: Seq<PurchaseModel>, i: int)
    requires
        0 <= i <= purchases.len(),
        forall|j: int| 0 <= j < purchases.len() ==> purchase_ok(#[trigger] purchases[j]),
    ensures
        purchases_cost(purchases.take(i)) <= purchases_cost(purchases),
    decreases purchases.len() - i,
{
    if i == purchases.len() {
        assert(purchases.take(i) =~= purchases);
    } else {
        lemma_purchases_step(purchases, i);
        assert(purchases[i].quantity_purchased * purchases[i].purchase_price >= 0)
            by (nonlinear_arith)
            requires
                purchases[i].quantity_purchased >= 0,
                purchases[i].purchase_price >= 0,
        ;
        lemma_purchases_prefix_bound(purchases, i + 1);
    }
}

/// One more sales record extends the cost-of-goods-sold sum by that
/// record's cost basis at current catalog prices.
pub proof fn lemma_cost_step(entries: Seq<EntryModel>, sales: Seq<SaleModel>, i: int)
    requires
        0 <= i < sales.len(),
    ensures
        sold_goods_cost(entries, sales.take(i + 1)) == sold_goods_cost(entries, sales.take(i))
            + sale_cost_basis(entries, sales[i]),
{
    assert(sales.take(i + 1).drop_last() =~= sales.take(i));
    assert(sales.take(i + 1).last() == sales[i]);
}

/// A sale's cost basis is never negative when the log and the catalog are
/// in range.
pub proof fn lemma_cost_basis_nonneg(entries: Seq<EntryModel>, s: SaleModel)
    requires
        sale_ok(s),
        forall|j: int| 0 <= j < entries.len() ==> product_ok(#[trigger] entries[j].product),
    ensures
        sale_cost_basis(entries, s) >= 0,
{
    if has_key(entries, s.product_name) {
        let i = key_index(entries, s.product_name);
        assert(0 <= i < entries.len() && entries[i].key == s.product_name);
        assert(product_ok(entries[i].product));
        assert(s.quantity_sold * entries[i].product.price >= 0) by (nonlinear_arith)
            requires
                s.quantity_sold >= 0,
                entries[i].product.price >= 0,
        ;
    }
}

/// Every prefix of the sales log is valued at no more than the whole log.
pub proof fn lemma_cost_prefix_bound(entries: Seq<EntryModel>, sales: Seq<SaleModel>, i: int)
    requires
        0 <= i <= sales.len(),
        forall|j: int| 0 <= j < sales.len() ==> sale_ok(#[trigger] sales[j]),
        forall|j: int| 0 <= j < entries.len() ==> product_ok(#[trigger] entries[j].product),
    ensures
        sold_goods_cost(entries, sales.take(i)) <= sold_goods_cost(entries, sales),
    decreases sales.len() - i,
{
    if i == sales.len() {
        assert(sales.take(i) =~= sales);
    } else {
        lemma_cost_step(entries, sales, i);
        lemma_cost_basis_nonneg(entries, sales[i]);
        lemma_cost_prefix_bound(entries, sales, i + 1);
    }
}

/// What adding a product does to lookups: the product's name now resolves
/// to it, no other key changes, the logs stay as they were, and a
/// well-formed ledger stays well-formed.
pub proof fn lemma_apply_add(inv: InventoryModel, p: ProductModel)
    requires
        keys_unique(inv.entries),
    ensures
        keys_unique(apply_add(inv, p).entries),
        product_of(apply_add(inv, p).entries, p.name) == Some(p),
        forall|k: Seq<char>| k != p.name ==> product_of(apply_add(inv, p).entries, k)
            == product_of(inv.entries, k),
        apply_add(inv, p).sales == inv.sales,
        apply_add(inv, p).purchases == inv.purchases,
        inv.wf() && product_ok(p) ==> apply_add(inv, p).wf(),
{
    let entry = EntryModel { key: p.name, product: p };
    if has_key(inv.entries, p.name) {
        let i = key_index(inv.entries, p.name);
        assert(0 <= i < inv.entries.len() && inv.entries[i].key == p.name);
        lemma_update_lookup(inv.entries, i, entry);
    } else {
        lemma_push_lookup(inv.entries, entry);
    }
}

/// What editing does to lookups: when the key is cataloged, it now resolves
/// to the replacement product and no other key changes; when it is not, the
/// ledger is untouched. The logs stay as they were either way, and a
/// well-formed ledger stays well-formed.
pub proof fn lemma_apply_edit(inv: InventoryModel, key: Seq<char>, p: ProductModel)
    requires
        keys_unique(inv.entries),
    ensures
        keys_unique(apply_edit(inv, key, p).entries),
        has_key(inv.entries, key) ==> product_of(apply_edit(inv, key, p).entries, key) == Some(p),
        forall|k: Seq<char>| k != key ==> product_of(apply_edit(inv, key, p).entries, k)
            == product_of(inv.entries, k),
        !has_key(inv.entries, key) ==> apply_edit(inv, key, p) == inv,
        apply_edit(inv, key, p).sales == inv.sales,
        apply_edit(inv, key, p).purchases == inv.purchases,
        inv.wf() && product_ok(p) ==> apply_edit(inv, key, p).wf(),
{
    if has_key(inv.entries, key) {
        let i = key_index(inv.entries, key);
        assert(0 <= i < inv.entries.len() && inv.entries[i].key == key);
        lemma_update_lookup(inv.entries, i, EntryModel { key: key, product: p });
    }
}

/// What deleting does to lookups: the key no longer resolves, no other key
/// changes, the logs stay as they were — past records that mention the key
/// are kept — and a well-formed ledger stays well-formed.
pub proof fn lemma_apply_delete(inv: InventoryModel, key: Seq<char>)
    requires
        keys_unique(inv.entries),
    ensures
        keys_unique(apply_delete(inv, key).entries),
        !has_key(apply_delete(inv, key).entries, key),
        forall|k: Seq<char>| k != key ==> product_of(apply_delete(inv, key).entries, k)
            == product_of(inv.entries, k),
        !has_key(inv.entries, key) ==> apply_delete(inv, key) == inv,
        apply_delete(inv, key).sales == inv.sales,
        apply_delete(inv, key).purchases == inv.purchases,
        inv.wf() ==> apply_delete(inv, key).wf(),
{
    if has_key(inv.entries, key) {
        let i = key_index(inv.entries, key);
        assert(0 <= i < inv.entries.len() && inv.entries[i].key == key);
        lemma_remove_lookup(inv.entries, i);
        assert(inv.entries[i].key == key);
    }
}

/// What recording a sale does: an admissible sale lowers its product's
/// stock by the quantity sold, appends exactly its record to the sales log
/// and changes nothing else; an inadmissible one leaves the ledger exactly
/// as it was. Well-formedness is preserved.
pub proof fn lemma_apply_sale(inv: InventoryModel, s: SaleModel)
    requires
        keys_unique(inv.entries),
    ensures
        keys_unique(apply_sale(inv, s).entries),
        !sale_admissible(inv, s) ==> apply_sale(inv, s) == inv,
        sale_admissible(inv, s) ==> {
            &&& apply_sale(inv, s).sales == inv.sales.push(s)
            &&& apply_sale(inv, s).purchases == inv.purchases
            &&& stock_of(apply_sale(inv, s), s.product_name) == stock_of(inv, s.product_name)
                - s.quantity_sold
            &&& product_of(apply_sale(inv, s).entries, s.product_name) matches Some(p) && p
                == ProductModel {
                quantity: product_at(inv.entries, s.product_name).quantity - s.quantity_sold,
                ..product_at(inv.entries, s.product_name)
            }
            &&& forall|k: Seq<char>| k != s.product_name ==> product_of(
                apply_sale(inv, s).entries,
                k,
            ) == product_of(inv.entries, k)
        },
        inv.wf() && sale_ok(s) ==> apply_sale(inv, s).wf(),
{
    if sale_admissible(inv, s) {
        let i = key_index(inv.entries, s.product_name);
        assert(0 <= i < inv.entries.len() && inv.entries[i].key == s.product_name);
        let e = inv.entries[i];
        let e2 = EntryModel {
            key: e.key,
            product: ProductModel {
                name: e.product.name,
                description: e.product.description,
                price: e.product.price,
                quantity: e.product.quantity - s.quantity_sold,
            },
        };
        lemma_update_lookup(inv.entries, i, e2);
        if inv.wf() && sale_ok(s) {
            let u = apply_sale(inv, s);
            assert forall|j: int| 0 <= j < u.entries.len() implies product_ok(
                #[trigger] u.entries[j].product,
            ) by {
                if j != i {
                    assert(u.entries[j] == inv.entries[j]);
                }
            }
            assert forall|j: int| 0 <= j < u.sales.len() implies sale_ok(
                #[trigger] u.sales[j],
            ) by {
                if j < inv.sales.len() {
                    assert(u.sales[j] == inv.sales[j]);
                }
            }
        }
    }
}

/// What recording a purchase does: an admissible purchase raises its
/// product's stock by the quantity bought, appends exactly its record to
/// the purchases log and changes nothing else; one for an uncataloged key
/// leaves the ledger exactly as it was. Well-formedness is preserved as
/// long as the raised stock still fits its machine representation.
pub proof fn lemma_apply_purchase(inv: InventoryModel, p: PurchaseModel)
    requires
        keys_unique(inv.entries),
    ensures
        keys_unique(apply_purchase(inv, p).entries),
        !purchase_admissible(inv, p) ==> apply_purchase(inv, p) == inv,
        purchase_admissible(inv, p) ==> {
            &&& apply_purchase(inv, p).purchases == inv.purchases.push(p)
            &&& apply_purchase(inv, p).sales == inv.sales
            &&& stock_of(apply_purchase(inv, p), p.product_name) == stock_of(inv, p.product_name)
                + p.quantity_purchased
            &&& product_of(apply_purchase(inv, p).entries, p.product_name) matches Some(q) && q
                == ProductModel {
                quantity: product_at(inv.entries, p.product_name).quantity + p.quantity_purchased,
                ..product_at(inv.entries, p.product_name)
            }
            &&& forall|k: Seq<char>| k != p.product_name ==> product_of(
                apply_purchase(inv, p).entries,
                k,
            ) == product_of(inv.entries, k)
        },
        inv.wf() && purchase_ok(p) && (purchase_admissible(inv, p) ==> stock_of(
            inv,
            p.product_name,
        ) + p.quantity_purchased <= u32::MAX) ==> apply_purchase(inv, p).wf(),
{
    if purchase_admissible(inv, p) {
        let i = key_index(inv.entries, p.product_name);
        assert(0 <= i < inv.entries.len() && inv.entries[i].key == p.product_name);
        let e = inv.entries[i];
        let e2 = EntryModel {
            key: e.key,
            product: ProductModel {
                name: e.product.name,
                description: e.product.description,
                price: e.product.price,
                quantity: e.product.quantity + p.quantity_purchased,
            },
        };
        lemma_update_lookup(inv.entries, i, e2);
        if inv.wf() && purchase_ok(p) && stock_of(inv, p.product_name) + p.quantity_purchased
            <= u32::MAX {
            let u = apply_purchase(inv, p);
            assert forall|j: int| 0 <= j < u.entries.len() implies product_ok(
                #[trigger] u.entries[j].product,
            ) by {
                if j != i {
                    assert(u.entries[j] == inv.entries[j]);
                }
            }
            assert forall|j: int| 0 <= j < u.purchases.len() implies purchase_ok(
                #[trigger] u.purchases[j],
            ) by {
                if j < inv.purchases.len() {
                    assert(u.purchases[j] == inv.purchases[j]);
                }
            }
        }
    }
}

} // verus!
