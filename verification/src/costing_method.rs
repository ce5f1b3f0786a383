//! The order in which lots are spent from.
use vstd::prelude::*;
use crate::strings::string_from;

verus! {

/// An `InventoryCostingMethod` determines the order in which a `Lot` is chosen when posting
/// `ActionRecord` amounts as individual `Movement`s.
#[derive(Clone, Copy, Debug, PartialEq, Eq, Structural)]
pub enum InventoryCostingMethod {
    /// 1. LIFO according to the order the lot was created.
    LIFObyLotCreationDate,
    /// 2. LIFO according to the basis date of the lot.
    LIFObyLotBasisDate,
    /// 3. FIFO according to the order the lot was created.
    FIFObyLotCreationDate,
    /// 4. FIFO according to the basis date of the lot.
    FIFObyLotBasisDate,
}

impl InventoryCostingMethod {
    /// The method as it is displayed.
    pub fn to_string(&self) -> (r: String)
        ensures
            r@ == (match *self {
                InventoryCostingMethod::LIFObyLotCreationDate => "LIFO by lot creation date"@,
                InventoryCostingMethod::LIFObyLotBasisDate => "LIFO by lot basis date"@,
                InventoryCostingMethod::FIFObyLotCreationDate => "FIFO by lot creation date"@,
                InventoryCostingMethod::FIFObyLotBasisDate => "FIFO by lot basis date"@,
            }),
    {
        match *self {
            InventoryCostingMethod::LIFObyLotCreationDate => string_from("LIFO by lot creation date"),
            InventoryCostingMethod::LIFObyLotBasisDate => string_from("LIFO by lot basis date"),
            InventoryCostingMethod::FIFObyLotCreationDate => string_from("FIFO by lot creation date"),
            InventoryCostingMethod::FIFObyLotBasisDate => string_from("FIFO by lot basis date"),
        }
    }
}

} // verus!
