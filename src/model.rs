use vstd::prelude::*;

verus! {

/// A monetary amount, held as the IEEE-754 bit pattern of a 64-bit float.
/// The store never computes with amounts: it keeps them and hands them back unchanged.
#[derive(Clone, Copy, Debug, PartialEq, Eq, Structural)]
pub struct Amount {
    pub bits: u64,
}

impl Amount {
    pub fn from_bits(bits: u64) -> (r: Amount)
        ensures
            r.bits == bits,
    {
        Amount { bits }
    }
}

/// One monetary record.
#[derive(Clone, Debug)]
pub struct Item {
    pub id: i64,
    pub value: Amount,
    pub item_type: String,
    pub name: String,
    pub created_at: String,
}

/// The fields a caller supplies for a new or replaced item.
#[derive(Clone, Debug)]
pub struct AddItemRequest {
    pub name: String,
    pub value: Amount,
    pub item_type: String,
    pub created_at: Option<String>,
}

/// The budget set for one calendar month, keyed by its `"YYYY-MM"` string.
#[derive(Clone, Debug)]
pub struct MonthlyBudget {
    pub id: i64,
    pub month: String,
    pub budget_amount: Amount,
}

/// The kinds of failure the store reports.
#[derive(Clone, Debug)]
pub enum DbError {
    /// The store could not be prepared.
    Init(String),
    /// A read failed.
    Query(String),
    /// A write could not be carried out; nothing was changed.
    Write(String),
    /// No item has the given id.
    NotFound(i64),
    /// An imported record could not be read.
    Parse(String),
}

/// An exact copy of an item.
pub fn copy_item(i: &Item) -> (r: Item)
    ensures
        r == *i,
{
    Item {
        id: i.id,
        value: i.value,
        item_type: i.item_type.clone(),
        name: i.name.clone(),
        created_at: i.created_at.clone(),
    }
}

/// An exact copy of a budget row.
pub fn copy_budget(b: &MonthlyBudget) -> (r: MonthlyBudget)
    ensures
        r == *b,
{
    MonthlyBudget { id: b.id, month: b.month.clone(), budget_amount: b.budget_amount }
}

} // verus!
