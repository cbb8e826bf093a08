use vstd::prelude::*;

verus! {

pub type ID = u32;

pub type Payment = u128;

/// One receipt as seen by the summation circuit.
#[derive(Clone, Copy, PartialEq, Eq, Debug)]
pub struct Receipt {
    pub id: ID,
    pub payment_amount: Payment,
    pub signature: (),
}

/// The placeholder that fills the row of an id no receipt carries.
pub open spec fn null_receipt(id: ID) -> Receipt {
    Receipt { id, payment_amount: 0, signature: () }
}

impl Receipt {
    /// Ids range over `0..MAX_ID`; a receipt may carry `MAX_ID` itself but is never emitted.
    pub const MAX_ID: ID = 2048;

    pub fn null(id: ID) -> (r: Receipt)
        ensures
            r == null_receipt(id),
    {
        Receipt { id, payment_amount: 0, signature: () }
    }
}

} // verus!
