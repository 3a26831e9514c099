use vstd::prelude::*;

use crate::model::{AddItemRequest, Amount, DbError, Item, MonthlyBudget};
use crate::order::{key_bytes, lemma_text_lt_irreflexive, lemma_text_lt_transitive, text_lt};
use crate::store::{
    added, budget_of, delete_outcome, has_bad, has_id, has_month, import_outcome, item_from,
    lemma_listed_before_irreflexive, listed_before, listing, replaced, set_budget_outcome,
    Database,
};

verus! {

/// After an item is added, a listing holds exactly one record with its id, and that
/// record carries the given fields; the id was used by no earlier item.
pub proof fn law_added_item_listed_once(
    old: Database,
    request: AddItemRequest,
    created_at: String,
    id: i64,
    new: Database,
    out: Seq<Item>,
)
    requires
        old.wf(),
        new.wf(),
        added(old, request, created_at, id, new),
        listing(new.items(), out),
    ensures
        !has_id(old.items(), id),
        exists|k: int| 0 <= k < out.len() && out[k] == item_from(id, request, created_at),
        forall|i: int, j: int|
            0 <= i < out.len() && 0 <= j < out.len() && #[trigger] out[i].id == id && #[trigger] out[j].id == id
                ==> i == j,
{
    old.lemma_wf();
    new.lemma_wf();
    let x = item_from(id, request, created_at);
    let n = old.items().len() as int;
    assert(new.items()[n] == x);
    assert(out.contains(new.items()[n]));
    assert forall|i: int, j: int|
        0 <= i < out.len() && 0 <= j < out.len() && #[trigger] out[i].id == id && #[trigger] out[j].id == id
            implies i == j by {
        if i != j {
            let a = choose|a: int| 0 <= a < new.items().len() && new.items()[a] == out[i];
            let b = choose|b: int| 0 <= b < new.items().len() && new.items()[b] == out[j];
            assert(new.items().contains(out[i]));
            assert(new.items().contains(out[j]));
            if a < b {
                assert(new.items()[a].id < new.items()[b].id);
            } else if b < a {
                assert(new.items()[b].id < new.items()[a].id);
            } else {
                lemma_listed_before_irreflexive(out[i]);
                if i < j {
                    assert(listed_before(out[i], out[j]));
                } else {
                    assert(listed_before(out[j], out[i]));
                }
            }
        }
    }
}

/// Deleting the same id twice in a row: the first call succeeds, the second reports
/// `NotFound`.
pub proof fn law_delete_twice(
    db0: Database,
    id: i64,
    r1: Result<(), DbError>,
    db1: Database,
    r2: Result<(), DbError>,
    db2: Database,
)
    requires
        db0.wf(),
        has_id(db0.items(), id),
        delete_outcome(db0, id, r1, db1),
        delete_outcome(db1, id, r2, db2),
    ensures
        r1 is Ok,
        r2 == Err::<(), DbError>(DbError::NotFound(id)),
        db2 == db1,
{
    db0.lemma_wf();
    let k = choose|k: int| 0 <= k < db0.items().len() && #[trigger] db0.items()[k].id == id
        && db1.items() == db0.items().remove(k);
    if has_id(db1.items(), id) {
        let j = choose|j: int| 0 <= j < db1.items().len() && #[trigger] db1.items()[j].id == id;
        if j < k {
            assert(db0.items()[j].id < db0.items()[k].id);
        } else {
            assert(db1.items()[j] == db0.items()[j + 1]);
            assert(db0.items()[k].id < db0.items()[j + 1].id);
        }
    }
}

/// An update keeps nothing of the old record but its id: the item with that id is
/// exactly the one the request describes.
pub proof fn law_update_replaces_whole_item(
    old: Database,
    id: i64,
    request: AddItemRequest,
    created_at: String,
    new: Database,
)
    requires
        replaced(old, id, request, created_at, new),
    ensures
        exists|k: int| 0 <= k < new.items().len() && new.items()[k] == item_from(id, request, created_at),
{
    let k = choose|k: int| 0 <= k < old.items().len() && #[trigger] old.items()[k].id == id
        && new.items() == old.items().update(k, item_from(id, request, created_at));
    assert(new.items()[k] == item_from(id, request, created_at));
}

/// Setting a month's budget twice leaves the second amount, in the one row for that month.
pub proof fn law_budget_upsert(
    db0: Database,
    month: String,
    a1: Amount,
    r1: Result<(), DbError>,
    db1: Database,
    month2: String,
    a2: Amount,
    r2: Result<(), DbError>,
    db2: Database,
)
    requires
        db0.wf(),
        db1.wf(),
        db2.wf(),
        month2@ == month@,
        set_budget_outcome(db0, month, a1, r1, db1),
        r1 is Ok,
        set_budget_outcome(db1, month2, a2, r2, db2),
    ensures
        r2 is Ok,
        budget_of(db2.budgets(), month@) == Some(a2),
        exists|k: int| 0 <= k < db2.budgets().len() && #[trigger] db2.budgets()[k].month@ == month@
            && forall|j: int| 0 <= j < db2.budgets().len() && j != k ==> #[trigger] db2.budgets()[j].month@ != month@,
{
    db2.lemma_wf();
    if has_month(db0.budgets(), month@) {
        let k = choose|k: int| 0 <= k < db0.budgets().len() && #[trigger] db0.budgets()[k].month@ == month@
            && db1.budgets() == db0.budgets().update(k, MonthlyBudget { id: db0.budgets()[k].id, month: db0.budgets()[k].month, budget_amount: a1 });
        assert(db1.budgets()[k].month@ == month@);
    } else {
        assert(db1.budgets()[db0.budgets().len() as int].month@ == month@);
    }
    assert(has_month(db1.budgets(), month2@));
    let k = choose|k: int| 0 <= k < db1.budgets().len() && #[trigger] db1.budgets()[k].month@ == month2@
        && db2.budgets() == db1.budgets().update(k, MonthlyBudget { id: db1.budgets()[k].id, month: db1.budgets()[k].month, budget_amount: a2 });
    assert(db2.budgets()[k].month@ == month@);
    assert(has_month(db2.budgets(), month@));
    let c = choose|c: int| 0 <= c < db2.budgets().len() && #[trigger] db2.budgets()[c].month@ == month@;
    if c != k {
        assert(db2.budgets()[c].month@ != db2.budgets()[k].month@);
    }
    assert forall|j: int| 0 <= j < db2.budgets().len() && j != k implies #[trigger] db2.budgets()[j].month@ != month@ by {
        assert(db2.budgets()[j].month@ != db2.budgets()[k].month@);
    }
}

/// Once a month's budget is set, reading it gives the amount set.
pub proof fn law_budget_set_then_get(
    old: Database,
    month: String,
    amount: Amount,
    r: Result<(), DbError>,
    new: Database,
)
    requires
        new.wf(),
        set_budget_outcome(old, month, amount, r, new),
        r is Ok,
    ensures
        budget_of(new.budgets(), month@) == Some(amount),
{
    new.lemma_wf();
    let k = if has_month(old.budgets(), month@) {
        let k = choose|k: int| 0 <= k < old.budgets().len() && #[trigger] old.budgets()[k].month@ == month@
            && new.budgets() == old.budgets().update(k, MonthlyBudget { id: old.budgets()[k].id, month: old.budgets()[k].month, budget_amount: amount });
        k
    } else {
        old.budgets().len() as int
    };
    assert(new.budgets()[k].month@ == month@ && new.budgets()[k].budget_amount == amount);
    let c = choose|c: int| 0 <= c < new.budgets().len() && #[trigger] new.budgets()[c].month@ == month@;
    if c != k {
        assert(new.budgets()[c].month@ != new.budgets()[k].month@);
    }
}

/// A store with no budget rows knows no budget for any month: the answer is "absent".
pub proof fn law_fresh_store_has_no_budget(db: Database, month: Seq<char>)
    requires
        db.budgets().len() == 0,
    ensures
        budget_of(db.budgets(), month) is None,
{
}

/// An import with one record that could not be read reports `Parse` and adds nothing.
pub proof fn law_import_is_atomic(
    old: Database,
    records: Seq<Result<Item, String>>,
    now: String,
    r: Result<(), DbError>,
    new: Database,
)
    requires
        has_bad(records),
        import_outcome(old, records, now, r, new),
    ensures
        r matches Err(DbError::Parse(_)),
        new.items() == old.items(),
{
}

/// In a listing, an item with a later timestamp comes before one with an earlier
/// timestamp, whatever order they were inserted in.
pub proof fn law_listing_most_recent_first(items: Seq<Item>, out: Seq<Item>, i: int, j: int)
    requires
        listing(items, out),
        0 <= i < out.len(),
        0 <= j < out.len(),
        text_lt(key_bytes(out[i].created_at@), key_bytes(out[j].created_at@)),
    ensures
        j < i,
{
    let (ki, kj) = (key_bytes(out[i].created_at@), key_bytes(out[j].created_at@));
    lemma_text_lt_irreflexive(ki);
    if i < j {
        assert(listed_before(out[i], out[j]));
        if text_lt(kj, ki) {
            lemma_text_lt_transitive(ki, kj, ki);
        }
    }
}

} // verus!
