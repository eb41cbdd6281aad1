//! A signed running total, with snapshots of its value.
use vstd::prelude::*;

verus! {

#[derive(Clone, Debug)]
pub struct I64Aggregator {
    value: i64,
}

#[derive(Clone, Copy, Debug, PartialEq, Eq, Structural)]
pub enum I64Snapshot {
    V1 { value: i64 },
}

impl I64Aggregator {
    /// The current total.
    pub closed spec fn view(&self) -> i64 {
        self.value
    }
}

pub fn new_i64_aggregator() -> (r: I64Aggregator)
    ensures
        r.view() == 0,
{
    I64Aggregator { value: 0 }
}

pub fn new_i64_aggregator_with_value(value: i64) -> (r: I64Aggregator)
    ensures
        r.view() == value,
{
    I64Aggregator { value }
}

pub fn create_i64_snapshot(value: i64) -> (r: I64Snapshot)
    ensures
        r == (I64Snapshot::V1 { value }),
{
    I64Snapshot::V1 { value }
}

impl I64Aggregator {
    pub fn read(&self) -> (r: i64)
        ensures
            r == self.view(),
    {
        self.value
    }

    /// Adds `amount` (which may be negative) to the total.
    pub fn add(&mut self, amount: i64)
        requires
            i64::MIN <= old(self).view() + amount <= i64::MAX,
        ensures
            final(self).view() == old(self).view() + amount,
    {
        self.value = self.value + amount;
    }

    pub fn is_at_least(&self, amount: i64) -> (r: bool)
        ensures
            r == (self.view() >= amount),
    {
        self.value >= amount
    }

    pub fn snapshot(&self) -> (r: I64Snapshot)
        ensures
            r == (I64Snapshot::V1 { value: self.view() }),
    {
        I64Snapshot::V1 { value: self.value }
    }
}

impl I64Snapshot {
    pub fn get_value(&self) -> (r: i64)
        ensures
            r == match *self {
                I64Snapshot::V1 { value } => value,
            },
    {
        match self {
            I64Snapshot::V1 { value } => *value,
        }
    }
}

/// Adding two amounts one after the other adds their sum.
pub proof fn lemma_add_accumulates(start: int, a: int, b: int)
    ensures
        (start + a) + b == start + (a + b),
{
}

} // verus!
