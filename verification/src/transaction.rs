//! Ledger events: a transaction record and the five event kinds.

use vstd::prelude::*;
use crate::money::Money;

verus! {

/// One event record from the input stream. `amount` carries a value only
/// for deposits and withdrawals.
#[derive(Clone, Copy)]
pub struct Tx {
    pub client: u16,
    pub id: u32,
    pub amount: Option<Money>,
}

/// A tagged ledger event.
#[derive(Clone, Copy)]
pub enum Transaction {
    Deposit(Tx),
    Withdrawal(Tx),
    Dispute(Tx),
    Resolve(Tx),
    Chargeback(Tx),
}

/// The amount of a record as a mathematical integer count of
/// ten-thousandths, if the record carries one.
pub open spec fn amount_view(a: Option<Money>) -> Option<int> {
    match a {
        Some(m) => Some(m@),
        None => None,
    }
}

impl Transaction {
    /// The record wrapped by the event.
    pub open spec fn spec_tx(self) -> Tx {
        match self {
            Transaction::Deposit(tx) => tx,
            Transaction::Withdrawal(tx) => tx,
            Transaction::Dispute(tx) => tx,
            Transaction::Resolve(tx) => tx,
            Transaction::Chargeback(tx) => tx,
        }
    }

    /// The client the event belongs to.
    pub open spec fn spec_client(self) -> u16 {
        self.spec_tx().client
    }

    /// The record wrapped by the event.
    pub fn tx(&self) -> (t: Tx)
        ensures
            t == self.spec_tx(),
    {
        match self {
            Transaction::Deposit(tx) => *tx,
            Transaction::Withdrawal(tx) => *tx,
            Transaction::Dispute(tx) => *tx,
            Transaction::Resolve(tx) => *tx,
            Transaction::Chargeback(tx) => *tx,
        }
    }

    /// The client the event belongs to.
    pub fn client(&self) -> (c: u16)
        ensures
            c == self.spec_client(),
    {
        self.tx().client
    }
}

} // verus!
