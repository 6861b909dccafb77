use vstd::prelude::*;

verus! {

/// One employee's record, as the record store keeps it.
#[derive(Clone, Debug, PartialEq)]
pub struct Employee {
    pub id: i32,
    pub name: String,
    pub position: String,
    pub address: String,
    pub city: String,
    pub state: String,
    pub phone: String,
    pub filing_status: String,
    pub dependents: String,
    pub pay_rate: String,
}

} // verus!
