use vstd::prelude::*;

verus! {

/// Why a wallet could not emit a transaction.
#[derive(Debug, Clone, Copy, PartialEq, Eq, Structural)]
pub enum TransactionError {
    NotEnoughSold,
}

impl TransactionError {
    /// A short description of the error.
    pub fn message(&self) -> (r: &'static str)
        ensures
            r@ == "Not enough sold"@,
    {
        match self {
            TransactionError::NotEnoughSold => "Not enough sold",
        }
    }
}

} // verus!
