use vstd::prelude::*;

pub mod balances;
pub mod email;
pub mod forms;
pub mod ledger;
pub mod money;
pub mod pages;
pub mod text;
pub mod transactions;
pub mod validation;

verus! {

} // verus!
