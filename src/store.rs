use vstd::prelude::*;

use crate::model::{copy_budget, copy_item, AddItemRequest, Amount, DbError, Item, MonthlyBudget};
use crate::order::{
    bytes_lt, key_bytes, lemma_text_lt_irreflexive, lemma_text_lt_transitive, lemma_text_total,
    text_lt,
};

verus! {

/// `a` is listed before `b`: it is more recent, or equally recent and inserted earlier.
pub open spec fn listed_before(a: Item, b: Item) -> bool {
    text_lt(key_bytes(b.created_at@), key_bytes(a.created_at@)) || (key_bytes(a.created_at@)
        == key_bytes(b.created_at@) && a.id < b.id)
}

/// Every item of `s` is listed before every later one.
pub open spec fn sorted_for_listing(s: Seq<Item>) -> bool {
    forall|i: int, j: int| 0 <= i < j < s.len() ==> #[trigger] listed_before(s[i], s[j])
}

/// `out` holds exactly the items of `items`, most recent first.
pub open spec fn listing(items: Seq<Item>, out: Seq<Item>) -> bool {
    &&& out.len() == items.len()
    &&& forall|i: int| 0 <= i < out.len() ==> items.contains(#[trigger] out[i])
    &&& forall|j: int| 0 <= j < items.len() ==> out.contains(#[trigger] items[j])
    &&& sorted_for_listing(out)
}

/// Some item of `items` has the id `id`.
pub open spec fn has_id(items: Seq<Item>, id: i64) -> bool {
    exists|k: int| 0 <= k < items.len() && #[trigger] items[k].id == id
}

/// Some budget row of `budgets` is for `month`.
pub open spec fn has_month(budgets: Seq<MonthlyBudget>, month: Seq<char>) -> bool {
    exists|k: int| 0 <= k < budgets.len() && #[trigger] budgets[k].month@ == month
}

/// The amount budgeted for `month`, or `None` where no row is for it.
pub open spec fn budget_of(budgets: Seq<MonthlyBudget>, month: Seq<char>) -> Option<Amount> {
    if has_month(budgets, month) {
        let k = choose|k: int| 0 <= k < budgets.len() && #[trigger] budgets[k].month@ == month;
        Some(budgets[k].budget_amount)
    } else {
        None
    }
}

/// The timestamp an item gets: the one given, unless it is absent or empty.
pub open spec fn resolved_created_at(given: Option<String>, now: String) -> String {
    match given {
        Some(s) => if s@.len() > 0 {
            s
        } else {
            now
        },
        None => now,
    }
}

/// The item that a request makes under `id` with timestamp `created_at`.
pub open spec fn item_from(id: i64, request: AddItemRequest, created_at: String) -> Item {
    Item {
        id,
        value: request.value,
        item_type: request.item_type,
        name: request.name,
        created_at,
    }
}

/// The store: the items, in the order they were inserted, and the monthly budgets.
pub struct Database {
    items: Vec<Item>,
    budgets: Vec<MonthlyBudget>,
    next_id: i64,
    next_budget_id: i64,
}

impl Database {
    /// The items, in the order they were inserted.
    pub closed spec fn items(&self) -> Seq<Item> {
        self.items@
    }

    /// The budget rows.
    pub closed spec fn budgets(&self) -> Seq<MonthlyBudget> {
        self.budgets@
    }

    /// The id that the next inserted item gets.
    pub closed spec fn next_id(&self) -> i64 {
        self.next_id
    }

    /// The id that the next budget row gets.
    pub closed spec fn next_budget_id(&self) -> i64 {
        self.next_budget_id
    }

    /// Ids are positive, below the next one and rise in insertion order;
    /// no two budget rows are for the same month.
    pub closed spec fn wf(&self) -> bool {
        &&& 1 <= self.next_id
        &&& forall|i: int| 0 <= i < self.items@.len() ==> 1 <= #[trigger] self.items@[i].id < self.next_id
        &&& forall|i: int, j: int| 0 <= i < j < self.items@.len() ==> #[trigger] self.items@[i].id < #[trigger] self.items@[j].id
        &&& 1 <= self.next_budget_id
        &&& forall|i: int| 0 <= i < self.budgets@.len() ==> 1 <= #[trigger] self.budgets@[i].id < self.next_budget_id
        &&& forall|i: int, j: int| 0 <= i < j < self.budgets@.len() ==> #[trigger] self.budgets@[i].id < #[trigger] self.budgets@[j].id
        &&& forall|i: int, j: int| 0 <= i < self.budgets@.len() && 0 <= j < self.budgets@.len() && i != j
            ==> #[trigger] self.budgets@[i].month@ != #[trigger] self.budgets@[j].month@
    }

    /// What a well-formed store guarantees of its items and budget rows.
    pub proof fn lemma_wf(&self)
        requires
            self.wf(),
        ensures
            1 <= self.next_id(),
            forall|i: int| 0 <= i < self.items().len() ==> 1 <= #[trigger] self.items()[i].id < self.next_id(),
            forall|i: int, j: int| 0 <= i < j < self.items().len() ==> #[trigger] self.items()[i].id < #[trigger] self.items()[j].id,
            forall|i: int, j: int| 0 <= i < self.budgets().len() && 0 <= j < self.budgets().len() && i != j
                ==> #[trigger] self.budgets()[i].month@ != #[trigger] self.budgets()[j].month@,
    {
    }

    /// An empty store.
    pub fn new() -> (r: Database)
        ensures
            r.wf(),
            r.items() == Seq::<Item>::empty(),
            r.budgets() == Seq::<MonthlyBudget>::empty(),
            r.next_id() == 1,
            r.next_budget_id() == 1,
    {
        Database { items: Vec::new(), budgets: Vec::new(), next_id: 1, next_budget_id: 1 }
    }
}

pub proof fn lemma_listed_before_transitive(a: Item, b: Item, c: Item)
    requires
        listed_before(a, b),
        listed_before(b, c),
    ensures
        listed_before(a, c),
{
    let (ka, kb, kc) = (key_bytes(a.created_at@), key_bytes(b.created_at@), key_bytes(c.created_at@));
    if text_lt(kb, ka) && text_lt(kc, kb) {
        lemma_text_lt_transitive(kc, kb, ka);
    }
}

pub proof fn lemma_listed_before_total(a: Item, b: Item)
    requires
        a.id != b.id,
    ensures
        listed_before(a, b) || listed_before(b, a),
{
    lemma_text_total(key_bytes(a.created_at@), key_bytes(b.created_at@));
}

pub proof fn lemma_listed_before_irreflexive(a: Item)
    ensures
        !listed_before(a, a),
{
    lemma_text_lt_irreflexive(key_bytes(a.created_at@));
}

/// Whether `a` is listed before `b`.
fn comes_before(a: &Item, b: &Item) -> (r: bool)
    ensures
        r == listed_before(*a, *b),
{
    let ka = a.created_at.as_str().as_bytes();
    let kb = b.created_at.as_str().as_bytes();
    if bytes_lt(kb, ka) {
        true
    } else if bytes_lt(ka, kb) {
        false
    } else {
        proof {
            lemma_text_total(ka@, kb@);
        }
        a.id < b.id
    }
}

/// The first position of `out` whose item is listed after `x`.
fn insertion_point(out: &Vec<Item>, x: &Item) -> (p: usize)
    ensures
        p <= out@.len(),
        forall|j: int| 0 <= j < p ==> !listed_before(*x, #[trigger] out@[j]),
        p < out@.len() ==> listed_before(*x, out@[p as int]),
{
    let mut p: usize = 0;
    while p < out.len()
        invariant
            p <= out@.len(),
            forall|j: int| 0 <= j < p ==> !listed_before(*x, #[trigger] out@[j]),
        decreases out@.len() - p,
    {
        if comes_before(x, &out[p]) {
            return p;
        }
        p += 1;
    }
    p
}

/// All items, most recent first; items with the same timestamp in insertion order.
pub fn get_items(db: &Database) -> (r: Vec<Item>)
    requires
        db.wf(),
    ensures
        listing(db.items(), r@),
{
    proof {
        db.lemma_wf();
    }
    let ghost items = db.items();
    let mut out: Vec<Item> = Vec::new();
    let mut k: usize = 0;
    while k < db.items.len()
        invariant
            items == db.items@,
            db.wf(),
            forall|i: int, j: int| 0 <= i < j < items.len() ==> #[trigger] items[i].id < #[trigger] items[j].id,
            0 <= k <= items.len(),
            out@.len() == k,
            forall|i: int| 0 <= i < out@.len() ==> exists|j: int| 0 <= j < k && #[trigger] out@[i] == #[trigger] items[j],
            forall|j: int| 0 <= j < k ==> out@.contains(#[trigger] items[j]),
            sorted_for_listing(out@),
        decreases items.len() - k,
    {
        let x = copy_item(&db.items[k]);
        let p = insertion_point(&out, &x);
        let ghost before = out@;
        proof {
            assert forall|j: int| 0 <= j < p implies listed_before(#[trigger] before[j], x) by {
                let jj = choose|jj: int| 0 <= jj < k && before[j] == #[trigger] items[jj];
                assert(items[jj].id < items[k as int].id);
                lemma_listed_before_total(before[j], x);
            }
            assert forall|j: int| p <= j < before.len() implies listed_before(x, #[trigger] before[j]) by {
                if j > p {
                    assert(listed_before(before[p as int], before[j]));
                    lemma_listed_before_transitive(x, before[p as int], before[j]);
                }
            }
        }
        out.insert(p, x);
        proof {
            let now = out@;
            assert(now == before.insert(p as int, x));
            assert forall|i: int, j: int| 0 <= i < j < now.len() implies #[trigger] listed_before(now[i], now[j]) by {
                if j < p {
                    assert(listed_before(before[i], before[j]));
                } else if j == p {
                } else if i < p {
                    assert(listed_before(before[i], x));
                    assert(listed_before(x, before[j - 1]));
                    lemma_listed_before_transitive(before[i], x, before[j - 1]);
                } else if i == p {
                } else {
                    assert(listed_before(before[i - 1], before[j - 1]));
                }
            }
            assert forall|i: int| 0 <= i < now.len() implies exists|j: int| 0 <= j < k + 1 && #[trigger] now[i] == #[trigger] items[j] by {
                if i < p {
                    assert(now[i] == before[i]);
                } else if i == p {
                    assert(now[i] == items[k as int]);
                } else {
                    assert(now[i] == before[i - 1]);
                }
            }
            assert forall|j: int| 0 <= j < k + 1 implies now.contains(#[trigger] items[j]) by {
                if j < k {
                    let i = choose|i: int| 0 <= i < before.len() && before[i] == items[j];
                    if i < p {
                        assert(now[i] == items[j]);
                    } else {
                        assert(now[i + 1] == items[j]);
                    }
                } else {
                    assert(now[p as int] == items[j]);
                }
            }
        }
        k += 1;
    }
    proof {
        assert forall|i: int| 0 <= i < out@.len() implies items.contains(#[trigger] out@[i]) by {
            let j = choose|j: int| 0 <= j < k && out@[i] == #[trigger] items[j];
        }
    }
    out
}

/// `new` is `old` with one item added under the next id, made from `request` with
/// timestamp `created_at`; budgets are untouched.
pub open spec fn added(old: Database, request: AddItemRequest, created_at: String, id: i64, new: Database) -> bool {
    &&& id == old.next_id()
    &&& new.items() == old.items().push(item_from(id, request, created_at))
    &&& new.next_id() == id + 1
    &&& new.budgets() == old.budgets()
    &&& new.next_budget_id() == old.next_budget_id()
}

/// Adds an item made from `request`; its timestamp is the one given, or `now` where
/// that is absent or empty. Returns the fresh id. Fails, changing nothing, only when
/// the ids are used up.
pub fn add_item_at(db: &mut Database, request: AddItemRequest, now: String) -> (r: Result<i64, DbError>)
    requires
        old(db).wf(),
    ensures
        final(db).wf(),
        r.is_ok() <==> old(db).next_id() < i64::MAX,
        r matches Ok(id) ==> added(*old(db), request, resolved_created_at(request.created_at, now), id, *final(db)),
        r matches Err(e) ==> e is Write && *final(db) == *old(db),
{
    if db.next_id == i64::MAX {
        return Err(DbError::Write("no item id is left".to_owned()));
    }
    let created_at = match request.created_at {
        Some(s) => if !s.as_str().is_empty() {
            s
        } else {
            now
        },
        None => now,
    };
    let id = db.next_id;
    let item = Item {
        id,
        value: request.value,
        item_type: request.item_type,
        name: request.name,
        created_at,
    };
    db.items.push(item);
    db.next_id = id + 1;
    Ok(id)
}

/// Adds an item made from `request`, stamped with the current time where the request
/// gives no timestamp or an empty one. Returns the fresh id. Fails with `Write`,
/// changing nothing, where the ids are used up or where the clock gives no time.
pub fn add_item(db: &mut Database, request: AddItemRequest) -> (r: Result<i64, DbError>)
    requires
        old(db).wf(),
    ensures
        final(db).wf(),
        r is Ok ==> old(db).next_id() < i64::MAX,
        request.created_at matches Some(s) && s@.len() > 0 ==> (r is Ok <==> old(db).next_id() < i64::MAX),
        r matches Ok(id) ==> exists|now: String| now@.len() > 0 && added(*old(db), request, #[trigger] resolved_created_at(request.created_at, now), id, *final(db)),
        r is Ok && request.created_at is Some && request.created_at->Some_0@.len() > 0 ==> added(*old(db), request, request.created_at->Some_0, r->Ok_0, *final(db)),
        r matches Err(e) ==> e is Write && *final(db) == *old(db),
{
    let needs_now = match &request.created_at {
        Some(s) => s.as_str().is_empty(),
        None => true,
    };
    let now = if needs_now {
        match crate::clock::now_rfc3339() {
            Some(t) => t,
            None => {
                return Err(DbError::Write("the clock gives no current time".to_owned()));
            },
        }
    } else {
        String::new()
    };
    let ghost given = request.created_at;
    let ghost stamp = now;
    let r = add_item_at(db, request, now);
    proof {
        let w = if needs_now { stamp } else { given->Some_0 };
        assert(resolved_created_at(given, w) == resolved_created_at(given, stamp));
        assert(w@.len() > 0);
    }
    r
}

fn find_item(items: &Vec<Item>, id: i64) -> (r: Option<usize>)
    ensures
        r matches Some(k) ==> k < items@.len() && items@[k as int].id == id,
        r is None ==> !has_id(items@, id),
{
    let mut k: usize = 0;
    while k < items.len()
        invariant
            k <= items@.len(),
            forall|j: int| 0 <= j < k ==> #[trigger] items@[j].id != id,
        decreases items@.len() - k,
    {
        if items[k].id == id {
            return Some(k);
        }
        k += 1;
    }
    None
}

/// `new` is `old` without the item at position `k`, whose id is `id`.
pub open spec fn deleted(old: Database, id: i64, new: Database) -> bool {
    &&& exists|k: int| 0 <= k < old.items().len() && #[trigger] old.items()[k].id == id
        && new.items() == old.items().remove(k)
    &&& new.next_id() == old.next_id()
    &&& new.budgets() == old.budgets()
    &&& new.next_budget_id() == old.next_budget_id()
}

/// What `delete_item` does: it removes the item with id `id` where there is one, and
/// otherwise reports `NotFound` and changes nothing.
pub open spec fn delete_outcome(old: Database, id: i64, r: Result<(), DbError>, new: Database) -> bool {
    &&& r.is_ok() <==> has_id(old.items(), id)
    &&& r.is_ok() ==> deleted(old, id, new)
    &&& r.is_err() ==> r == Err::<(), DbError>(DbError::NotFound(id)) && new == old
}

/// Removes the item with id `id`; fails with `NotFound`, changing nothing, where there is none.
pub fn delete_item(db: &mut Database, id: i64) -> (r: Result<(), DbError>)
    requires
        old(db).wf(),
    ensures
        final(db).wf(),
        delete_outcome(*old(db), id, r, *final(db)),
{
    match find_item(&db.items, id) {
        Some(k) => {
            let ghost before = db.items@;
            db.items.remove(k);
            proof {
                assert(db.items() == before.remove(k as int));
                assert forall|i: int, j: int| 0 <= i < j < db.items@.len() implies #[trigger] db.items@[i].id < #[trigger] db.items@[j].id by {
                    if i < k && j >= k {
                        assert(db.items@[j] == before[j + 1]);
                    } else if i >= k {
                        assert(db.items@[i] == before[i + 1]);
                        assert(db.items@[j] == before[j + 1]);
                    }
                }
                assert forall|i: int| 0 <= i < db.items@.len() implies 1 <= #[trigger] db.items@[i].id < db.next_id by {
                    if i >= k {
                        assert(db.items@[i] == before[i + 1]);
                    }
                }
            }
            Ok(())
        },
        None => Err(DbError::NotFound(id)),
    }
}

/// `new` is `old` with every field of the item with id `id` but the id replaced.
pub open spec fn replaced(old: Database, id: i64, request: AddItemRequest, created_at: String, new: Database) -> bool {
    &&& exists|k: int| 0 <= k < old.items().len() && #[trigger] old.items()[k].id == id
        && new.items() == old.items().update(k, item_from(id, request, created_at))
    &&& new.next_id() == old.next_id()
    &&& new.budgets() == old.budgets()
    &&& new.next_budget_id() == old.next_budget_id()
}

/// Replaces every field but the id of the item with id `id` by those of `request`.
/// Fails with `NotFound` where no item has that id, and otherwise with `Write` where
/// the request has no timestamp; a failure changes nothing.
pub fn update_item(db: &mut Database, id: i64, request: AddItemRequest) -> (r: Result<(), DbError>)
    requires
        old(db).wf(),
    ensures
        final(db).wf(),
        r.is_ok() <==> has_id(old(db).items(), id) && request.created_at is Some,
        r matches Ok(_) ==> replaced(*old(db), id, request, request.created_at->Some_0, *final(db)),
        !has_id(old(db).items(), id) ==> r == Err::<(), DbError>(DbError::NotFound(id)),
        has_id(old(db).items(), id) && request.created_at is None ==> r matches Err(DbError::Write(_)),
        r is Err ==> *final(db) == *old(db),
{
    match find_item(&db.items, id) {
        Some(k) => match request.created_at {
            Some(created_at) => {
                let item = Item {
                    id,
                    value: request.value,
                    item_type: request.item_type,
                    name: request.name,
                    created_at,
                };
                let ghost before = db.items@;
                db.items[k] = item;
                proof {
                    assert(before[k as int].id == id);
                    assert(db.items() == before.update(k as int, item));
                }
                Ok(())
            },
            None => Err(DbError::Write("an item needs a timestamp".to_owned())),
        },
        None => Err(DbError::NotFound(id)),
    }
}

/// The item that an imported record becomes under `id`: its own fields, with the
/// timestamp resolved as `add_item` resolves it.
pub open spec fn imported_item(rec: Item, id: i64, now: String) -> Item {
    Item { id, created_at: resolved_created_at(Some(rec.created_at), now), ..rec }
}

/// Some record that was read has an empty timestamp, so the import needs the time.
pub open spec fn needs_clock(records: Seq<Result<Item, String>>) -> bool {
    exists|k: int| 0 <= k < records.len() && #[trigger] records[k] is Ok && records[k]->Ok_0.created_at@.len() == 0
}

/// Position `k` holds a record that could not be read, and every record before it was read.
pub open spec fn first_bad(records: Seq<Result<Item, String>>, k: int) -> bool {
    &&& 0 <= k < records.len()
    &&& records[k] is Err
    &&& forall|j: int| 0 <= j < k ==> #[trigger] records[j] is Ok
}

/// Some record could not be read.
pub open spec fn has_bad(records: Seq<Result<Item, String>>) -> bool {
    exists|k: int| 0 <= k < records.len() && #[trigger] records[k] is Err
}

/// `new` is `old` with every record of `records` appended, in order, under fresh ids,
/// those without a timestamp stamped with `now`.
pub open spec fn imported(old: Database, records: Seq<Result<Item, String>>, now: String, new: Database) -> bool {
    let n = old.items().len();
    &&& new.items().len() == n + records.len()
    &&& new.items().subrange(0, n as int) == old.items()
    &&& forall|k: int| 0 <= k < records.len() ==> #[trigger] new.items()[n + k] == imported_item(
        records[k]->Ok_0,
        (old.next_id() + k) as i64,
        now,
    )
    &&& new.next_id() == old.next_id() + records.len()
    &&& new.budgets() == old.budgets()
    &&& new.next_budget_id() == old.next_budget_id()
}

/// What `import_data_at` does with the time `now`: all records are added, or none.
pub open spec fn import_outcome(old: Database, records: Seq<Result<Item, String>>, now: String, r: Result<(), DbError>, new: Database) -> bool {
    &&& r is Ok <==> !has_bad(records) && old.next_id() + records.len() <= i64::MAX
    &&& r is Ok ==> imported(old, records, now, new)
    &&& (has_bad(records) ==> r matches Err(DbError::Parse(_)))
    &&& (r matches Err(DbError::Parse(m)) ==> exists|k: int| first_bad(records, k) && records[k] == Err::<Item, String>(m))
    &&& (!has_bad(records) && old.next_id() + records.len() > i64::MAX ==> r matches Err(DbError::Write(_)))
    &&& r is Err ==> new == old
}

/// Adds every record as a new item under a fresh id, ignoring the ids the records
/// carry, as `add_item_at` adds one: a record with an empty timestamp gets `now`. All of
/// them are added or, on failure, none. Fails with `Parse` where a record could not be
/// read (the first such record's message), and with `Write` where too few ids are left.
pub fn import_data_at(db: &mut Database, records: Vec<Result<Item, String>>, now: String) -> (r: Result<(), DbError>)
    requires
        old(db).wf(),
    ensures
        final(db).wf(),
        import_outcome(*old(db), records@, now, r, *final(db)),
{
    let mut k: usize = 0;
    while k < records.len()
        invariant
            *db == *old(db),
            old(db).wf(),
            k <= records@.len(),
            forall|j: int| 0 <= j < k ==> #[trigger] records@[j] is Ok,
        decreases records@.len() - k,
    {
        match &records[k] {
            Ok(_) => {},
            Err(m) => {
                proof {
                    assert(first_bad(records@, k as int));
                }
                return Err(DbError::Parse(m.clone()));
            },
        }
        k += 1;
    }
    if records.len() as u64 > (i64::MAX - db.next_id) as u64 {
        return Err(DbError::Write("too few item ids are left".to_owned()));
    }
    let ghost old_db = *db;
    let ghost n = db.items@.len();
    let mut k: usize = 0;
    while k < records.len()
        invariant
            old_db.wf(),
            forall|j: int| 0 <= j < records@.len() ==> #[trigger] records@[j] is Ok,
            old_db.next_id + records@.len() <= i64::MAX,
            n == old_db.items@.len(),
            k <= records@.len(),
            db.items@.len() == n + k,
            db.items@.subrange(0, n as int) == old_db.items@,
            forall|j: int| 0 <= j < k ==> #[trigger] db.items@[n + j] == imported_item(
                records@[j]->Ok_0,
                (old_db.next_id + j) as i64,
                now,
            ),
            db.next_id == old_db.next_id + k,
            db.budgets == old_db.budgets,
            db.next_budget_id == old_db.next_budget_id,
            db.wf(),
        decreases records@.len() - k,
    {
        assert(records@[k as int] is Ok);
        let r = &records[k];
        if let Ok(rec) = r {
            let id = db.next_id;
            let created_at = if rec.created_at.as_str().is_empty() {
                now.clone()
            } else {
                rec.created_at.clone()
            };
            let item = Item {
                id,
                value: rec.value,
                item_type: rec.item_type.clone(),
                name: rec.name.clone(),
                created_at,
            };
            let ghost before = db.items@;
            db.items.push(item);
            db.next_id = id + 1;
            proof {
                assert(db.items@[n + k] == item);
                assert forall|j: int| 0 <= j < k + 1 implies #[trigger] db.items@[n + j] == imported_item(
                    records@[j]->Ok_0,
                    (old_db.next_id + j) as i64,
                    now,
                ) by {
                    if j < k {
                        assert(db.items@[n + j] == before[n + j]);
                    }
                }
                assert(db.items@.subrange(0, n as int) =~= before.subrange(0, n as int));
            }
        }
        k += 1;
    }
    Ok(())
}

/// Imports the records as `import_data_at` does, stamping those with an empty
/// timestamp with the current time. The clock is read only where every record was read
/// and some record needs it; where it then gives no time, the import fails with `Write`
/// and changes nothing.
pub fn import_data(db: &mut Database, records: Vec<Result<Item, String>>) -> (r: Result<(), DbError>)
    requires
        old(db).wf(),
    ensures
        final(db).wf(),
        r is Ok ==> !has_bad(records@) && old(db).next_id() + records@.len() <= i64::MAX,
        !needs_clock(records@) || has_bad(records@) ==> (r is Ok <==> !has_bad(records@) && old(db).next_id() + records@.len() <= i64::MAX),
        r is Err ==> *final(db) == *old(db),
        (exists|now: String| (needs_clock(records@) && !has_bad(records@) ==> now@.len() > 0) && #[trigger] import_outcome(*old(db), records@, now, r, *final(db)))
            || (needs_clock(records@) && !has_bad(records@) && (r matches Err(DbError::Write(_))) && *final(db) == *old(db)),
{
    let mut needs_now = false;
    let mut any_bad = false;
    let mut k: usize = 0;
    while k < records.len()
        invariant
            k <= records@.len(),
            !needs_now ==> forall|j: int| 0 <= j < k ==> !(#[trigger] records@[j] is Ok && records@[j]->Ok_0.created_at@.len() == 0),
            needs_now ==> needs_clock(records@),
            !any_bad ==> forall|j: int| 0 <= j < k ==> #[trigger] records@[j] is Ok,
            any_bad ==> has_bad(records@),
        decreases records@.len() - k,
    {
        match &records[k] {
            Ok(rec) => {
                if rec.created_at.as_str().is_empty() {
                    needs_now = true;
                }
            },
            Err(_) => {
                any_bad = true;
            },
        }
        k += 1;
    }
    let now = if needs_now && !any_bad {
        match crate::clock::now_rfc3339() {
            Some(t) => t,
            None => {
                return Err(DbError::Write("the clock gives no current time".to_owned()));
            },
        }
    } else {
        String::new()
    };
    let ghost stamp = now;
    let ghost recs = records@;
    let r = import_data_at(db, records, now);
    proof {
        assert((needs_clock(recs) && !has_bad(recs) ==> stamp@.len() > 0) && import_outcome(*old(db), recs, stamp, r, *db));
    }
    r
}

/// The last `n` items inserted, oldest first; all items where there are fewer.
pub fn newest_items(db: &Database, n: usize) -> (r: Vec<Item>)
    ensures
        r@ == db.items().subrange(
            if n <= db.items().len() { db.items().len() - n } else { 0 },
            db.items().len() as int,
        ),
{
    let len = db.items.len();
    let start: usize = if n <= len { len - n } else { 0 };
    let mut out: Vec<Item> = Vec::new();
    let mut k: usize = start;
    while k < len
        invariant
            start <= k <= len,
            len == db.items@.len(),
            out@ == db.items@.subrange(start as int, k as int),
        decreases len - k,
    {
        out.push(copy_item(&db.items[k]));
        proof {
            assert(out@ =~= db.items@.subrange(start as int, k + 1));
        }
        k += 1;
    }
    out
}

/// The budget row for `month`, with its id, or `None` where there is none.
pub fn budget_row(db: &Database, month: &String) -> (r: Option<MonthlyBudget>)
    ensures
        r is Some <==> has_month(db.budgets(), month@),
        r matches Some(b) ==> b.month@ == month@ && exists|k: int| 0 <= k < db.budgets().len() && #[trigger] db.budgets()[k] == b,
{
    match find_budget(&db.budgets, month) {
        Some(k) => {
            let b = copy_budget(&db.budgets[k]);
            proof {
                assert(db.budgets()[k as int] == b);
            }
            Some(b)
        },
        None => None,
    }
}

fn find_budget(budgets: &Vec<MonthlyBudget>, month: &String) -> (r: Option<usize>)
    ensures
        r matches Some(k) ==> k < budgets@.len() && budgets@[k as int].month@ == month@,
        r is None ==> !has_month(budgets@, month@),
{
    let mut k: usize = 0;
    while k < budgets.len()
        invariant
            k <= budgets@.len(),
            forall|j: int| 0 <= j < k ==> #[trigger] budgets@[j].month@ != month@,
        decreases budgets@.len() - k,
    {
        if budgets[k].month == *month {
            return Some(k);
        }
        k += 1;
    }
    None
}

/// The amount budgeted for `month`, or `None` where none was ever set; the month
/// string is not checked, and a malformed one finds nothing.
pub fn get_monthly_budget(db: &Database, month: String) -> (r: Option<Amount>)
    requires
        db.wf(),
    ensures
        r == budget_of(db.budgets(), month@),
{
    match find_budget(&db.budgets, &month) {
        Some(k) => {
            proof {
                let c = choose|c: int| 0 <= c < db.budgets@.len() && #[trigger] db.budgets@[c].month@ == month@;
                if c != k {
                    assert(db.budgets@[c].month@ != db.budgets@[k as int].month@);
                }
            }
            Some(db.budgets[k].budget_amount)
        },
        None => None,
    }
}

/// `new` is `old` with the budget for `month` set to `amount`: the row for that month
/// keeps its id and takes the amount, or a row is appended where there was none.
pub open spec fn budget_set(old: Database, month: String, amount: Amount, new: Database) -> bool {
    &&& if has_month(old.budgets(), month@) {
        &&& exists|k: int| 0 <= k < old.budgets().len() && #[trigger] old.budgets()[k].month@ == month@
            && new.budgets() == old.budgets().update(
            k,
            MonthlyBudget { id: old.budgets()[k].id, month: old.budgets()[k].month, budget_amount: amount },
        )
        &&& new.next_budget_id() == old.next_budget_id()
    } else {
        &&& new.budgets() == old.budgets().push(
            MonthlyBudget { id: old.next_budget_id(), month, budget_amount: amount },
        )
        &&& new.next_budget_id() == old.next_budget_id() + 1
    }
    &&& new.items() == old.items()
    &&& new.next_id() == old.next_id()
}

/// What `set_monthly_budget` does: it sets the budget, or reports `Write` and changes
/// nothing where a new row is needed and no id is left.
pub open spec fn set_budget_outcome(old: Database, month: String, amount: Amount, r: Result<(), DbError>, new: Database) -> bool {
    &&& r is Ok <==> has_month(old.budgets(), month@) || old.next_budget_id() < i64::MAX
    &&& r is Ok ==> budget_set(old, month, amount, new)
    &&& (r matches Err(e) ==> e is Write && new == old)
}

/// Sets the budget for `month` to `amount`, replacing any earlier amount in place.
/// Fails with `Write`, changing nothing, only where a new row is needed and no id is left.
pub fn set_monthly_budget(db: &mut Database, month: String, amount: Amount) -> (r: Result<(), DbError>)
    requires
        old(db).wf(),
    ensures
        final(db).wf(),
        set_budget_outcome(*old(db), month, amount, r, *final(db)),
{
    match find_budget(&db.budgets, &month) {
        Some(k) => {
            let ghost before = db.budgets@;
            let row = MonthlyBudget { id: db.budgets[k].id, month: db.budgets[k].month.clone(), budget_amount: amount };
            db.budgets[k] = row;
            proof {
                assert(before[k as int].month@ == month@);
                assert(db.budgets() == before.update(k as int, row));
            }
            Ok(())
        },
        None => {
            if db.next_budget_id == i64::MAX {
                return Err(DbError::Write("no budget id is left".to_owned()));
            }
            let id = db.next_budget_id;
            db.budgets.push(MonthlyBudget { id, month, budget_amount: amount });
            db.next_budget_id = id + 1;
            Ok(())
        },
    }
}

/// Rows that can make up a store: ids positive and rising in the order given, and no
/// two budget rows for the same month.
pub open spec fn rows_valid(items: Seq<Item>, budgets: Seq<MonthlyBudget>) -> bool {
    &&& forall|i: int| 0 <= i < items.len() ==> 1 <= #[trigger] items[i].id < i64::MAX
    &&& forall|i: int, j: int| 0 <= i < j < items.len() ==> #[trigger] items[i].id < #[trigger] items[j].id
    &&& forall|i: int| 0 <= i < budgets.len() ==> 1 <= #[trigger] budgets[i].id < i64::MAX
    &&& forall|i: int, j: int| 0 <= i < j < budgets.len() ==> #[trigger] budgets[i].id < #[trigger] budgets[j].id
    &&& forall|i: int, j: int| 0 <= i < budgets.len() && 0 <= j < budgets.len() && i != j
        ==> #[trigger] budgets[i].month@ != #[trigger] budgets[j].month@
}

fn ids_rising(items: &Vec<Item>) -> (r: bool)
    ensures
        r == ((forall|i: int| 0 <= i < items@.len() ==> 1 <= #[trigger] items@[i].id < i64::MAX)
            && (forall|i: int, j: int| 0 <= i < j < items@.len() ==> #[trigger] items@[i].id < #[trigger] items@[j].id)),
{
    let mut k: usize = 0;
    while k < items.len()
        invariant
            k <= items@.len(),
            forall|i: int| 0 <= i < k ==> 1 <= #[trigger] items@[i].id < i64::MAX,
            forall|i: int, j: int| 0 <= i < j < k ==> #[trigger] items@[i].id < #[trigger] items@[j].id,
        decreases items@.len() - k,
    {
        let id = items[k].id;
        if id < 1 || id == i64::MAX {
            assert(!(1 <= items@[k as int].id < i64::MAX));
            return false;
        }
        if k > 0 && items[k - 1].id >= id {
            assert(!(items@[k - 1].id < items@[k as int].id));
            return false;
        }
        proof {
            assert forall|i: int, j: int| 0 <= i < j < k + 1 implies #[trigger] items@[i].id < #[trigger] items@[j].id by {
                if j == k && i < k - 1 {
                    assert(items@[i].id < items@[k - 1].id);
                }
            }
        }
        k += 1;
    }
    true
}

fn budgets_valid(budgets: &Vec<MonthlyBudget>) -> (r: bool)
    ensures
        r == ((forall|i: int| 0 <= i < budgets@.len() ==> 1 <= #[trigger] budgets@[i].id < i64::MAX)
            && (forall|i: int, j: int| 0 <= i < j < budgets@.len() ==> #[trigger] budgets@[i].id < #[trigger] budgets@[j].id)
            && (forall|i: int, j: int| 0 <= i < budgets@.len() && 0 <= j < budgets@.len() && i != j
                ==> #[trigger] budgets@[i].month@ != #[trigger] budgets@[j].month@)),
{
    let mut k: usize = 0;
    while k < budgets.len()
        invariant
            k <= budgets@.len(),
            forall|i: int| 0 <= i < k ==> 1 <= #[trigger] budgets@[i].id < i64::MAX,
            forall|i: int, j: int| 0 <= i < j < k ==> #[trigger] budgets@[i].id < #[trigger] budgets@[j].id,
            forall|i: int, j: int| 0 <= i < k && 0 <= j < k && i != j ==> #[trigger] budgets@[i].month@ != #[trigger] budgets@[j].month@,
        decreases budgets@.len() - k,
    {
        let id = budgets[k].id;
        if id < 1 || id == i64::MAX {
            assert(!(1 <= budgets@[k as int].id < i64::MAX));
            return false;
        }
        if k > 0 && budgets[k - 1].id >= id {
            assert(!(budgets@[k - 1].id < budgets@[k as int].id));
            return false;
        }
        let mut j: usize = 0;
        while j < k
            invariant
                j <= k < budgets@.len(),
                forall|i: int| 0 <= i < j ==> #[trigger] budgets@[i].month@ != budgets@[k as int].month@,
            decreases k - j,
        {
            if budgets[j].month == budgets[k].month {
                assert(budgets@[j as int].month@ == budgets@[k as int].month@);
                return false;
            }
            j += 1;
        }
        proof {
            assert forall|i: int, j: int| 0 <= i < j < k + 1 implies #[trigger] budgets@[i].id < #[trigger] budgets@[j].id by {
                if j == k && i < k - 1 {
                    assert(budgets@[i].id < budgets@[k - 1].id);
                }
            }
        }
        k += 1;
    }
    true
}

impl Database {
    /// A store holding the given rows, as read back from storage: the items in
    /// insertion order, the budget rows in the order they were created. Fails with
    /// `Init` where the rows could not have come from a store.
    pub fn restore(items: Vec<Item>, budgets: Vec<MonthlyBudget>) -> (r: Result<Database, DbError>)
        ensures
            r is Ok <==> rows_valid(items@, budgets@),
            r matches Ok(db) ==> db.wf() && db.items() == items@ && db.budgets() == budgets@,
            r matches Ok(db) ==> db.next_id() == (if items@.len() == 0 { 1 } else { items@.last().id + 1 }),
            r matches Ok(db) ==> db.next_budget_id() == (if budgets@.len() == 0 { 1 } else { budgets@.last().id + 1 }),
            r matches Err(e) ==> e is Init,
    {
        if !ids_rising(&items) || !budgets_valid(&budgets) {
            return Err(DbError::Init("stored rows are not consistent".to_owned()));
        }
        let next_id = if items.len() == 0 {
            1
        } else {
            items[items.len() - 1].id + 1
        };
        let next_budget_id = if budgets.len() == 0 {
            1
        } else {
            budgets[budgets.len() - 1].id + 1
        };
        proof {
            assert forall|i: int| 0 <= i < items@.len() implies #[trigger] items@[i].id < next_id by {
                if i < items@.len() - 1 {
                    assert(items@[i].id < items@[items@.len() - 1].id);
                }
            }
            assert forall|i: int| 0 <= i < budgets@.len() implies #[trigger] budgets@[i].id < next_budget_id by {
                if i < budgets@.len() - 1 {
                    assert(budgets@[i].id < budgets@[budgets@.len() - 1].id);
                }
            }
        }
        Ok(Database { items, budgets, next_id, next_budget_id })
    }
}

} // verus!
