//! Ledger events and the dispute lifecycle of a retained deposit.

use crate::decimal::Decimal;
use vstd::prelude::*;

verus! {

/// Largest number of fractional digits an event's amount may carry.
pub const DECIMAL_PRECISION: u32 = 4;

/// Identifies an account.
#[derive(Clone, Copy, Debug, Default, Eq, Hash, PartialEq, Structural)]
pub struct ClientId(pub u16);

/// Identifies a transaction. Deposits and withdrawals each bring a fresh one;
/// disputes, resolves and chargebacks name the deposit they act on.
#[derive(Clone, Copy, Debug, Eq, Hash, PartialEq, Structural)]
pub struct TxId(pub u32);

/// The kind of a ledger event.
#[derive(Clone, Copy, Debug, Eq, PartialEq, Structural)]
pub enum TransactionType {
    Chargeback,
    Deposit,
    Dispute,
    Resolve,
    Withdrawal,
}

/// The dispute lifecycle of a retained deposit. `ChargedBack` is final.
#[derive(Clone, Copy, Debug, Eq, PartialEq, Structural)]
pub enum TransactionState {
    Open,
    ActiveDispute,
    ChargedBack,
}

impl Default for TransactionState {
    fn default() -> (s: Self)
        ensures
            s == TransactionState::Open,
    {
        TransactionState::Open
    }
}

/// One ledger event. Deposits and withdrawals carry an amount; the other
/// kinds carry none and act on the deposit that `tx` names.
#[derive(Clone, Copy, Debug, PartialEq)]
pub struct Transaction {
    pub _type: TransactionType,
    pub client: ClientId,
    pub tx: TxId,
    pub amount: Option<Decimal>,
    pub state: TransactionState,
}

impl Transaction {
    /// The amount carried, zero where there is none.
    pub open spec fn spec_amount(self) -> Decimal {
        match self.amount {
            Some(a) => a,
            None => Decimal::from_parts(0, 0),
        }
    }

    /// The amount is not negative and has at most four fractional digits.
    pub open spec fn spec_valid_tx_data(self) -> bool {
        &&& self.spec_amount().spec_mantissa() >= 0
        &&& self.spec_amount().spec_scale() <= DECIMAL_PRECISION
    }

    /// Deposits and withdrawals must bring an identifier not seen before.
    pub open spec fn spec_requires_unique_tx(self) -> bool {
        self._type is Deposit || self._type is Withdrawal
    }

    /// Only deposits are retained for later disputes.
    pub open spec fn spec_requires_history(self) -> bool {
        self._type is Deposit
    }

    /// Whether the amount carried, if any, is a valid amount.
    pub open spec fn wf(self) -> bool {
        match self.amount {
            Some(a) => a.wf(),
            None => true,
        }
    }

    /// The same event with its dispute lifecycle set to `state`.
    pub open spec fn with_state(self, state: TransactionState) -> Transaction {
        Transaction { state, ..self }
    }

    /// The amount carried, zero where there is none.
    pub fn amount_or_zero(&self) -> (a: Decimal)
        ensures
            a == self.spec_amount(),
    {
        match self.amount {
            Some(a) => a,
            None => Decimal::zero(),
        }
    }

    /// Whether the amount is acceptable: not negative, and with at most four
    /// fractional digits. Zero is acceptable. An amount with more digits is
    /// refused, not rounded.
    pub fn valid_tx_data(&self) -> (r: bool)
        ensures
            r == self.spec_valid_tx_data(),
    {
        let amount = self.amount_or_zero();
        !amount.is_sign_negative() && amount.scale() <= DECIMAL_PRECISION
    }

    /// Whether the event's identifier must be globally fresh: true of
    /// deposits and withdrawals, false of the kinds that point at an earlier
    /// transaction.
    pub fn requires_unique_tx(&self) -> (r: bool)
        ensures
            r == self.spec_requires_unique_tx(),
    {
        match self._type {
            TransactionType::Withdrawal | TransactionType::Deposit => true,
            TransactionType::Dispute | TransactionType::Resolve | TransactionType::Chargeback => {
                false
            },
        }
    }

    /// Whether the event is retained so that later events can refer to it:
    /// true of deposits only.
    pub fn requires_history(&self) -> (r: bool)
        ensures
            r == self.spec_requires_history(),
    {
        match self._type {
            TransactionType::Deposit => true,
            TransactionType::Withdrawal
            | TransactionType::Dispute
            | TransactionType::Resolve
            | TransactionType::Chargeback => false,
        }
    }
}

} // verus!
