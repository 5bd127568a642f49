//! One client's balances and the rules by which an event changes them.

use crate::decimal::{
    difference, lemma_add_exact, lemma_add_then_sub, lemma_from_parts, lemma_sub_exact,
    lemma_sub_then_add, sum, Decimal,
};
use crate::transaction::{ClientId, Transaction, TransactionState, TransactionType};
use vstd::prelude::*;

verus! {

/// What an event does to an account, once every condition has been looked
/// at. An event whose conditions are not all met is `Ignored`: it never
/// changes a part of the account.
pub enum Effect {
    /// Nothing changes.
    Ignored,
    /// A deposit: `available` and `total` grow by the amount.
    Credit(Decimal),
    /// A withdrawal: `available` and `total` shrink by the amount.
    Debit(Decimal),
    /// A dispute: the amount moves from `available` to `held`.
    Hold(Decimal),
    /// A resolve: the amount moves from `held` back to `available`.
    Release(Decimal),
    /// A chargeback: `held` and `total` shrink by the amount, and the account
    /// is locked.
    Reverse(Decimal),
}

/// The balances of one client.
#[derive(Clone, Copy, Debug, PartialEq)]
pub struct Account {
    pub client: ClientId,
    pub available: Decimal,
    pub held: Decimal,
    /// `available + held`.
    pub total: Decimal,
    /// Set by a chargeback, never reset.
    pub locked: bool,
}

/// The deposit that an event refers to, as it is before the event is applied.
pub open spec fn before(referenced_tx: Option<&mut Transaction>) -> Option<Transaction> {
    match referenced_tx {
        Some(r) => Some(*r),
        None => None,
    }
}

/// The deposit that an event refers to, where it is only read.
pub open spec fn read(referenced: Option<&Transaction>) -> Option<Transaction> {
    match referenced {
        Some(r) => Some(*r),
        None => None,
    }
}

/// Whether `referenced` is a deposit in the lifecycle state `required` with a
/// positive amount: what a dispute, a resolve or a chargeback needs in order
/// to act.
pub open spec fn actionable(referenced: Option<Transaction>, required: TransactionState) -> bool {
    match referenced {
        Some(r) => r._type is Deposit && r.state == required && r.spec_amount().units() > 0,
        None => false,
    }
}

impl Effect {
    /// The lifecycle state of the referenced deposit after the effect, given
    /// its state before: a hold opens a dispute, a release closes it, a
    /// reversal ends it for good.
    pub open spec fn next_state(self, state: TransactionState) -> TransactionState {
        match self {
            Effect::Hold(_) => TransactionState::ActiveDispute,
            Effect::Release(_) => TransactionState::Open,
            Effect::Reverse(_) => TransactionState::ChargedBack,
            _ => state,
        }
    }
}

impl Account {
    /// Whether the three balances are valid amounts.
    pub open spec fn wf(self) -> bool {
        self.available.wf() && self.held.wf() && self.total.wf()
    }

    /// `total == available + held`, as numbers.
    pub open spec fn balanced(self) -> bool {
        self.total.units() == self.available.units() + self.held.units()
    }

    /// A locked account ignores deposits and withdrawals; disputes, resolves
    /// and chargebacks still reach it.
    pub open spec fn spec_is_locked_tx(self, tx: Transaction) -> bool {
        self.locked && (tx._type is Deposit || tx._type is Withdrawal)
    }

    /// What `tx` does to this account, given the deposit it refers to.
    pub open spec fn spec_effect(self, tx: Transaction, referenced: Option<Transaction>) -> Effect {
        if self.spec_is_locked_tx(tx) {
            Effect::Ignored
        } else {
            match tx._type {
                TransactionType::Deposit => Effect::Credit(tx.spec_amount()),
                TransactionType::Withdrawal => if self.available.units()
                    >= tx.spec_amount().units() {
                    Effect::Debit(tx.spec_amount())
                } else {
                    Effect::Ignored
                },
                TransactionType::Dispute => if actionable(referenced, TransactionState::Open) {
                    Effect::Hold(referenced->0.spec_amount())
                } else {
                    Effect::Ignored
                },
                TransactionType::Resolve => if actionable(
                    referenced,
                    TransactionState::ActiveDispute,
                ) {
                    Effect::Release(referenced->0.spec_amount())
                } else {
                    Effect::Ignored
                },
                TransactionType::Chargeback => if actionable(
                    referenced,
                    TransactionState::ActiveDispute,
                ) {
                    Effect::Reverse(referenced->0.spec_amount())
                } else {
                    Effect::Ignored
                },
            }
        }
    }

    /// Whether the balances that `effect` produces are representable without
    /// rounding.
    pub open spec fn spec_fits(self, effect: Effect) -> bool {
        match effect {
            Effect::Ignored => true,
            Effect::Credit(a) => Decimal::add_fits(self.available, a) && Decimal::add_fits(
                self.total,
                a,
            ),
            Effect::Debit(a) => Decimal::sub_fits(self.available, a) && Decimal::sub_fits(
                self.total,
                a,
            ),
            Effect::Hold(a) => Decimal::sub_fits(self.available, a) && Decimal::add_fits(
                self.held,
                a,
            ),
            Effect::Release(a) => Decimal::add_fits(self.available, a) && Decimal::sub_fits(
                self.held,
                a,
            ),
            Effect::Reverse(a) => Decimal::sub_fits(self.total, a) && Decimal::sub_fits(
                self.held,
                a,
            ),
        }
    }

    /// The account after `effect`.
    pub open spec fn spec_apply(self, effect: Effect) -> Account {
        match effect {
            Effect::Ignored => self,
            Effect::Credit(a) => Account {
                available: Decimal::spec_add(self.available, a),
                total: Decimal::spec_add(self.total, a),
                ..self
            },
            Effect::Debit(a) => Account {
                available: Decimal::spec_sub(self.available, a),
                total: Decimal::spec_sub(self.total, a),
                ..self
            },
            Effect::Hold(a) => Account {
                available: Decimal::spec_sub(self.available, a),
                held: Decimal::spec_add(self.held, a),
                ..self
            },
            Effect::Release(a) => Account {
                available: Decimal::spec_add(self.available, a),
                held: Decimal::spec_sub(self.held, a),
                ..self
            },
            Effect::Reverse(a) => Account {
                total: Decimal::spec_sub(self.total, a),
                held: Decimal::spec_sub(self.held, a),
                locked: true,
                ..self
            },
        }
    }

    /// The referenced deposit after `tx`: only its dispute lifecycle can
    /// have moved.
    pub open spec fn spec_reference_after(
        self,
        tx: Transaction,
        referenced: Option<Transaction>,
    ) -> Option<Transaction> {
        match referenced {
            Some(r) => Some(r.with_state(self.spec_effect(tx, referenced).next_state(r.state))),
            None => None,
        }
    }

    /// Whether `tx` can be applied: the balances it produces are
    /// representable without rounding.
    pub open spec fn spec_can_apply(self, tx: Transaction, referenced: Option<Transaction>) -> bool {
        self.spec_fits(self.spec_effect(tx, referenced))
    }

    /// The account after `tx`.
    pub open spec fn spec_apply_tx(self, tx: Transaction, referenced: Option<Transaction>) -> Account {
        self.spec_apply(self.spec_effect(tx, referenced))
    }

    /// A fresh account: zero balances, not locked.
    pub open spec fn spec_new(client: ClientId) -> Account {
        Account {
            client,
            available: Decimal::from_parts(0, 0),
            held: Decimal::from_parts(0, 0),
            total: Decimal::from_parts(0, 0),
            locked: false,
        }
    }

    /// A fresh account: zero balances, not locked.
    pub fn new(client: ClientId) -> (a: Account)
        ensures
            a == Account::spec_new(client),
    {
        Account {
            client,
            available: Decimal::zero(),
            held: Decimal::zero(),
            total: Decimal::zero(),
            locked: false,
        }
    }

    /// Whether the lock keeps `tx` out.
    fn is_locked_tx(&self, tx: &Transaction) -> (r: bool)
        ensures
            r == self.spec_is_locked_tx(*tx),
    {
        match tx._type {
            TransactionType::Deposit | TransactionType::Withdrawal => self.locked,
            TransactionType::Dispute
            | TransactionType::Chargeback
            | TransactionType::Resolve => false,
        }
    }
}

impl Account {
    /// What `tx` does to this account, given the deposit it refers to. Every
    /// condition is looked at here, so that an event either acts in full or
    /// not at all.
    pub fn effect_of(&self, tx: &Transaction, referenced: Option<&Transaction>) -> (e: Effect)
        ensures
            e == self.spec_effect(*tx, read(referenced)),
    {
        if self.is_locked_tx(tx) {
            return Effect::Ignored;
        }
        match tx._type {
            TransactionType::Deposit => Effect::Credit(tx.amount_or_zero()),
            TransactionType::Withdrawal => {
                let amount = tx.amount_or_zero();
                if self.available.ge(amount) {
                    Effect::Debit(amount)
                } else {
                    Effect::Ignored
                }
            },
            TransactionType::Dispute => match disputed_amount(referenced, TransactionState::Open) {
                Some(amount) => Effect::Hold(amount),
                None => Effect::Ignored,
            },
            TransactionType::Resolve => match disputed_amount(
                referenced,
                TransactionState::ActiveDispute,
            ) {
                Some(amount) => Effect::Release(amount),
                None => Effect::Ignored,
            },
            TransactionType::Chargeback => match disputed_amount(
                referenced,
                TransactionState::ActiveDispute,
            ) {
                Some(amount) => Effect::Reverse(amount),
                None => Effect::Ignored,
            },
        }
    }

    /// Whether the balances that `effect` produces are representable without
    /// rounding.
    pub fn fits(&self, effect: &Effect) -> (ok: bool)
        ensures
            ok == self.spec_fits(*effect),
    {
        match effect {
            Effect::Ignored => true,
            Effect::Credit(a) => self.available.can_add(*a) && self.total.can_add(*a),
            Effect::Debit(a) => self.available.can_sub(*a) && self.total.can_sub(*a),
            Effect::Hold(a) => self.available.can_sub(*a) && self.held.can_add(*a),
            Effect::Release(a) => self.available.can_add(*a) && self.held.can_sub(*a),
            Effect::Reverse(a) => self.total.can_sub(*a) && self.held.can_sub(*a),
        }
    }

    /// Whether `tx` can be applied: whether the balances it produces are
    /// representable without rounding.
    pub fn can_apply(&self, tx: &Transaction, referenced: Option<&Transaction>) -> (ok: bool)
        ensures
            ok == self.spec_can_apply(*tx, read(referenced)),
    {
        let effect = self.effect_of(tx, referenced);
        self.fits(&effect)
    }

    /// Changes the balances as `effect` says.
    fn apply(&mut self, effect: Effect)
        requires
            old(self).spec_fits(effect),
        ensures
            *final(self) == old(self).spec_apply(effect),
    {
        match effect {
            Effect::Ignored => {},
            Effect::Credit(a) => {
                self.available = sum(self.available, a);
                self.total = sum(self.total, a);
            },
            Effect::Debit(a) => {
                self.available = difference(self.available, a);
                self.total = difference(self.total, a);
            },
            Effect::Hold(a) => {
                self.available = difference(self.available, a);
                self.held = sum(self.held, a);
            },
            Effect::Release(a) => {
                self.available = sum(self.available, a);
                self.held = difference(self.held, a);
            },
            Effect::Reverse(a) => {
                self.total = difference(self.total, a);
                self.held = difference(self.held, a);
                self.locked = true;
            },
        }
    }

    /// Applies `tx` to the account. `referenced_tx` is the deposit that a
    /// dispute, a resolve or a chargeback names, if it is known; its dispute
    /// lifecycle moves together with the balances.
    ///
    /// An event whose conditions are not met changes nothing: a deposit or
    /// withdrawal on a locked account, a withdrawal beyond the available
    /// funds, a dispute, resolve or chargeback whose deposit is missing, is
    /// no deposit, is in the wrong lifecycle state or has no positive amount.
    pub fn apply_tx(&mut self, tx: &Transaction, referenced_tx: Option<&mut Transaction>)
        requires
            old(self).spec_can_apply(*tx, before(referenced_tx)),
        ensures
            *final(self) == old(self).spec_apply_tx(*tx, before(referenced_tx)),
            match referenced_tx {
                Some(r) => *final(r) == r.with_state(
                    old(self).spec_effect(*tx, Some(*r)).next_state(r.state),
                ),
                None => true,
            },
            old(self).balanced() ==> final(self).balanced(),
            final(self).locked == (old(self).locked || old(self).spec_effect(
                *tx,
                before(referenced_tx),
            ) is Reverse),
            final(self).client == old(self).client,
    {
        proof {
            use_type_invariant(&self.available);
            use_type_invariant(&self.held);
            use_type_invariant(&self.total);
            if let Some(a) = tx.amount {
                use_type_invariant(&a);
            }
        }
        match referenced_tx {
            Some(r) => {
                let effect = self.effect_of(tx, Some(&*r));
                proof {
                    if let Some(a) = r.amount {
                        use_type_invariant(&a);
                    }
                    lemma_apply_balanced(*self, *tx, Some(*r));
                }
                r.state = effect.next(r.state);
                self.apply(effect);
            },
            None => {
                let effect = self.effect_of(tx, None);
                proof {
                    lemma_apply_balanced(*self, *tx, None);
                }
                self.apply(effect);
            },
        }
    }
}

impl Effect {
    /// The lifecycle state of the referenced deposit after the effect.
    fn next(&self, state: TransactionState) -> (s: TransactionState)
        ensures
            s == self.next_state(state),
    {
        match self {
            Effect::Hold(_) => TransactionState::ActiveDispute,
            Effect::Release(_) => TransactionState::Open,
            Effect::Reverse(_) => TransactionState::ChargedBack,
            _ => state,
        }
    }
}

/// The amount of `referenced` where a dispute, resolve or chargeback can act
/// on it: it is a deposit in the state `required` with a positive amount.
fn disputed_amount(referenced: Option<&Transaction>, required: TransactionState) -> (r: Option<
    Decimal,
>)
    ensures
        r is Some <==> actionable(read(referenced), required),
        r is Some ==> r->0 == read(referenced)->0.spec_amount(),
{
    match referenced {
        Some(t) => {
            let amount = t.amount_or_zero();
            proof {
                lemma_from_parts(0, 0);
            }
            if t._type == TransactionType::Deposit && t.state == required && amount.gt(
                Decimal::zero(),
            ) {
                Some(amount)
            } else {
                None
            }
        },
        None => None,
    }
}

/// Whether the referenced deposit, if any, carries a valid amount.
pub open spec fn wf_reference(referenced: Option<Transaction>) -> bool {
    match referenced {
        Some(r) => r.wf(),
        None => true,
    }
}

/// Applying an event keeps `total == available + held`, keeps the balances
/// valid, and never unlocks the account.
pub proof fn lemma_apply_balanced(account: Account, tx: Transaction, referenced: Option<Transaction>)
    requires
        account.wf(),
        tx.wf(),
        wf_reference(referenced),
        account.spec_can_apply(tx, referenced),
    ensures
        account.spec_apply_tx(tx, referenced).wf(),
        account.balanced() ==> account.spec_apply_tx(tx, referenced).balanced(),
        account.locked ==> account.spec_apply_tx(tx, referenced).locked,
        account.spec_apply_tx(tx, referenced).client == account.client,
{
    lemma_from_parts(0, 0);
    match account.spec_effect(tx, referenced) {
        Effect::Ignored => {},
        Effect::Credit(a) => {
            lemma_add_exact(account.available, a);
            lemma_add_exact(account.total, a);
        },
        Effect::Debit(a) => {
            lemma_sub_exact(account.available, a);
            lemma_sub_exact(account.total, a);
        },
        Effect::Hold(a) => {
            lemma_sub_exact(account.available, a);
            lemma_add_exact(account.held, a);
        },
        Effect::Release(a) => {
            lemma_add_exact(account.available, a);
            lemma_sub_exact(account.held, a);
        },
        Effect::Reverse(a) => {
            lemma_sub_exact(account.total, a);
            lemma_sub_exact(account.held, a);
        },
    }
}

/// A resolve or a chargeback that is applied a second time, to the account
/// and the deposit as the first application left them, changes neither: the
/// first one either did nothing, or moved the deposit out of the state in
/// which it can be resolved or charged back.
pub proof fn lemma_resolve_chargeback_idempotent(
    account: Account,
    tx: Transaction,
    referenced: Option<Transaction>,
)
    requires
        tx._type is Resolve || tx._type is Chargeback,
    ensures
        ({
            let once = account.spec_apply_tx(tx, referenced);
            let left = account.spec_reference_after(tx, referenced);
            &&& once.spec_effect(tx, left) is Ignored
            &&& once.spec_apply_tx(tx, left) == once
            &&& once.spec_reference_after(tx, left) == left
        }),
{
}

/// A dispute of a deposit that is open, followed by a resolve, gives back the
/// balances from before the dispute: `available` and `held` have their old
/// values, `total` and the lock never moved, and the deposit is open again.
/// Where the dispute can be applied, so can the resolve.
pub proof fn lemma_dispute_resolve_round_trip(
    account: Account,
    deposit: Transaction,
    dispute: Transaction,
    resolve: Transaction,
)
    requires
        account.wf(),
        deposit.wf(),
        deposit.state is Open,
        dispute._type is Dispute,
        resolve._type is Resolve,
        account.spec_can_apply(dispute, Some(deposit)),
    ensures
        ({
            let disputed = account.spec_apply_tx(dispute, Some(deposit));
            let held_deposit = account.spec_reference_after(dispute, Some(deposit));
            let resolved = disputed.spec_apply_tx(resolve, held_deposit);
            &&& disputed.spec_can_apply(resolve, held_deposit)
            &&& resolved.available.units() == account.available.units()
            &&& resolved.held.units() == account.held.units()
            &&& resolved.total == account.total
            &&& resolved.locked == account.locked
            &&& resolved.client == account.client
            &&& disputed.spec_reference_after(resolve, held_deposit) == Some(deposit)
        }),
{
    lemma_from_parts(0, 0);
    if actionable(Some(deposit), TransactionState::Open) {
        let a = deposit.spec_amount();
        lemma_sub_then_add(account.available, a);
        lemma_add_then_sub(account.held, a);
    }
}

impl Default for Account {
    fn default() -> (a: Account)
        ensures
            a == Account::spec_new(ClientId(0)),
    {
        Account::new(ClientId(0))
    }
}

} // verus!
