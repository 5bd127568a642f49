//! The ledger driver: routes each event to its account, keeps the deposits
//! that later events may refer to, and refuses a stream that reuses the
//! identifier of a deposit or withdrawal.

use crate::account::{lemma_apply_balanced, Account};
use crate::decimal::lemma_from_parts;
use crate::transaction::{ClientId, Transaction, TransactionState};
use std::collections::{HashMap, HashSet};
use vstd::prelude::*;

verus! {

/// Why a run was given up. Either one ends the run: no snapshot is produced.
#[derive(Clone, Copy, Debug, Eq, PartialEq, Structural)]
pub enum LedgerError {
    /// A deposit or withdrawal brought an identifier that an earlier deposit
    /// or withdrawal had already used.
    DuplicateTransaction,
    /// A balance left the range that can be represented without rounding.
    BalanceOverflow,
}

/// The state of a run: the accounts in the order in which they were first
/// touched, the deposits retained for later disputes, and the identifiers
/// that deposits and withdrawals have used so far.
pub struct LedgerView {
    pub accounts: Seq<Account>,
    pub history: Map<u32, Transaction>,
    pub seen: Set<u32>,
}

impl LedgerView {
    /// The state before any event.
    pub open spec fn empty() -> LedgerView {
        LedgerView { accounts: Seq::empty(), history: Map::empty(), seen: Set::empty() }
    }

    /// Whether an account exists for `client`.
    pub open spec fn has_account(self, client: ClientId) -> bool {
        exists|i: int| 0 <= i < self.accounts.len() && #[trigger] self.accounts[i].client == client
    }

    /// The place of the account of `client`, where it has one.
    pub open spec fn position(self, client: ClientId) -> int {
        choose|i: int| 0 <= i < self.accounts.len() && #[trigger] self.accounts[i].client == client
    }

    /// The account of `client`: the one on record, or a fresh one.
    pub open spec fn account(self, client: ClientId) -> Account {
        if self.has_account(client) {
            self.accounts[self.position(client)]
        } else {
            Account::spec_new(client)
        }
    }

    /// The accounts once `account` has replaced the one on record for its
    /// client, or has been added at the end where there was none.
    pub open spec fn with_account(self, account: Account) -> Seq<Account> {
        if self.has_account(account.client) {
            self.accounts.update(self.position(account.client), account)
        } else {
            self.accounts.push(account)
        }
    }

    /// The retained deposit that carries the identifier of `tx`.
    pub open spec fn referenced(self, tx: Transaction) -> Option<Transaction> {
        if self.history.contains_key(tx.tx.0) {
            Some(self.history[tx.tx.0])
        } else {
            None
        }
    }

    /// Whether the account of `client` exists and is locked.
    pub open spec fn is_locked(self, client: ClientId) -> bool {
        self.has_account(client) && self.accounts[self.position(client)].locked
    }

    /// The identifiers in use once `tx` has been let in.
    pub open spec fn seen_after(self, tx: Transaction) -> Set<u32> {
        if tx.spec_requires_unique_tx() {
            self.seen.insert(tx.tx.0)
        } else {
            self.seen
        }
    }

    /// The retained deposits once `tx` has been applied to `account`.
    pub open spec fn history_after(self, account: Account, tx: Transaction) -> Map<
        u32,
        Transaction,
    > {
        let moved = match account.spec_reference_after(tx, self.referenced(tx)) {
            Some(r) => self.history.insert(tx.tx.0, r),
            None => self.history,
        };
        if tx.spec_requires_history() {
            moved.insert(tx.tx.0, tx.with_state(TransactionState::Open))
        } else {
            moved
        }
    }

    /// One event.
    ///
    /// - An event with an unacceptable amount is skipped: nothing changes.
    /// - A deposit or withdrawal whose identifier is in use ends the run.
    /// - Otherwise the account of the event's client is created if need be.
    /// - An event that names a deposit of another client is skipped.
    /// - An event whose balances cannot be represented ends the run.
    /// - Otherwise the event is applied to the account and to the deposit it
    ///   names, and a deposit is retained, open, under its identifier.
    pub open spec fn step(self, tx: Transaction) -> Result<LedgerView, LedgerError> {
        let account = self.account(tx.client);
        let referenced = self.referenced(tx);
        if !tx.spec_valid_tx_data() {
            Ok(self)
        } else if tx.spec_requires_unique_tx() && self.seen.contains(tx.tx.0) {
            Err(LedgerError::DuplicateTransaction)
        } else if referenced is Some && referenced->0.client != tx.client {
            Ok(
                LedgerView {
                    accounts: self.with_account(account),
                    history: self.history,
                    seen: self.seen_after(tx),
                },
            )
        } else if !account.spec_can_apply(tx, referenced) {
            Err(LedgerError::BalanceOverflow)
        } else {
            Ok(
                LedgerView {
                    accounts: self.with_account(account.spec_apply_tx(tx, referenced)),
                    history: self.history_after(account, tx),
                    seen: self.seen_after(tx),
                },
            )
        }
    }

    /// What holds of every state that a run reaches: no client has two
    /// accounts; every account has valid balances with
    /// `total == available + held`; every retained transaction is a deposit
    /// with a valid amount, kept under its own identifier, and that
    /// identifier counts as used.
    pub open spec fn wf(self) -> bool {
        &&& forall|i: int, j: int|
            0 <= i < self.accounts.len() && 0 <= j < self.accounts.len() && i != j
                ==> #[trigger] self.accounts[i].client != #[trigger] self.accounts[j].client
        &&& forall|i: int|
            0 <= i < self.accounts.len() ==> (#[trigger] self.accounts[i]).wf()
                && self.accounts[i].balanced()
        &&& forall|k: u32| #[trigger]
            self.history.contains_key(k) ==> {
                &&& self.history[k].wf()
                &&& self.history[k].tx.0 == k
                &&& self.history[k]._type is Deposit
                &&& self.seen.contains(k)
            }
    }
}

/// The state after a whole stream, or the error that ended the run.
pub open spec fn spec_run(events: Seq<Transaction>) -> Result<LedgerView, LedgerError>
    decreases events.len(),
{
    if events.len() == 0 {
        Ok(LedgerView::empty())
    } else {
        match spec_run(events.drop_last()) {
            Ok(state) => state.step(events.last()),
            Err(e) => Err(e),
        }
    }
}

/// Whether every event of a stream carries a valid amount, if any.
pub open spec fn wf_events(events: Seq<Transaction>) -> bool {
    forall|i: int| 0 <= i < events.len() ==> (#[trigger] events[i]).wf()
}

/// In a state without double accounts, the account at place `i` is the one
/// that its client is looked up under.
pub proof fn lemma_position(state: LedgerView, i: int)
    requires
        state.wf(),
        0 <= i < state.accounts.len(),
    ensures
        state.has_account(state.accounts[i].client),
        state.position(state.accounts[i].client) == i,
        state.account(state.accounts[i].client) == state.accounts[i],
{
    let c = state.accounts[i].client;
    let p = state.position(c);
    assert(0 <= p < state.accounts.len() && state.accounts[p].client == c);
}

/// Replacing or adding an account keeps every other account in its place,
/// and puts the new one where its client is looked up.
pub proof fn lemma_with_account(state: LedgerView, account: Account)
    requires
        state.wf(),
        account.wf(),
        account.balanced(),
    ensures
        ({
            let next = LedgerView { accounts: state.with_account(account), ..state };
            &&& next.wf()
            &&& next.has_account(account.client)
            &&& next.account(account.client) == account
            &&& next.accounts.len() >= state.accounts.len()
            &&& forall|i: int|
                0 <= i < state.accounts.len() ==> (#[trigger] next.accounts[i]).client
                    == state.accounts[i].client
            &&& forall|i: int|
                0 <= i < state.accounts.len() && state.accounts[i].client != account.client
                    ==> #[trigger] next.accounts[i] == state.accounts[i]
        }),
{
    let next = LedgerView { accounts: state.with_account(account), ..state };
    let c = account.client;
    if state.has_account(c) {
        let p = state.position(c);
        assert(0 <= p < state.accounts.len() && state.accounts[p].client == c);
        assert(next.accounts[p] == account);
        assert(next.accounts.len() == state.accounts.len());
        assert forall|i: int, j: int|
            0 <= i < next.accounts.len() && 0 <= j < next.accounts.len() && i != j implies #[trigger] next.accounts[i].client
            != #[trigger] next.accounts[j].client by {
            assert(next.accounts[i].client == state.accounts[i].client);
            assert(next.accounts[j].client == state.accounts[j].client);
        }
        assert(next.wf());
        lemma_position(next, p);
    } else {
        let p = state.accounts.len() as int;
        assert(next.accounts[p] == account);
        assert forall|i: int, j: int|
            0 <= i < next.accounts.len() && 0 <= j < next.accounts.len() && i != j implies #[trigger] next.accounts[i].client
            != #[trigger] next.accounts[j].client by {
            if i < p {
                assert(next.accounts[i] == state.accounts[i]);
            }
            if j < p {
                assert(next.accounts[j] == state.accounts[j]);
            }
        }
        assert(next.wf());
        lemma_position(next, p);
    }
}

/// A fresh account has valid balances, all zero.
pub proof fn lemma_fresh_account(client: ClientId)
    ensures
        Account::spec_new(client).wf(),
        Account::spec_new(client).balanced(),
        !Account::spec_new(client).locked,
        Account::spec_new(client).client == client,
{
    lemma_from_parts(0, 0);
}

/// The account that an event is routed to has valid balances with
/// `total == available + held`.
pub proof fn lemma_account_wf(state: LedgerView, client: ClientId)
    requires
        state.wf(),
    ensures
        state.account(client).wf(),
        state.account(client).balanced(),
        state.account(client).client == client,
        state.account(client).locked == state.is_locked(client),
{
    lemma_fresh_account(client);
    if state.has_account(client) {
        let p = state.position(client);
        assert(0 <= p < state.accounts.len() && state.accounts[p].client == client);
    }
}

/// One event keeps what holds of every state, `total == available + held`
/// for every account included; it leaves every account in its place, and it
/// never unlocks one.
pub proof fn lemma_step(state: LedgerView, tx: Transaction)
    requires
        state.wf(),
        tx.wf(),
        state.step(tx) is Ok,
    ensures
        ({
            let next = state.step(tx)->Ok_0;
            &&& next.wf()
            &&& next.accounts.len() >= state.accounts.len()
            &&& forall|i: int|
                0 <= i < state.accounts.len() ==> (#[trigger] next.accounts[i]).client
                    == state.accounts[i].client
            &&& forall|i: int|
                0 <= i < state.accounts.len() && state.accounts[i].locked
                    ==> (#[trigger] next.accounts[i]).locked
            &&& forall|client: ClientId| #[trigger]
                state.is_locked(client) ==> next.is_locked(client)
        }),
{
    let next = state.step(tx)->Ok_0;
    let account = state.account(tx.client);
    let referenced = state.referenced(tx);
    lemma_account_wf(state, tx.client);
    if !tx.spec_valid_tx_data() {
    } else {
        let changed = if referenced is Some && referenced->0.client != tx.client {
            account
        } else {
            account.spec_apply_tx(tx, referenced)
        };
        if !(referenced is Some && referenced->0.client != tx.client) {
            lemma_apply_balanced(account, tx, referenced);
        }
        lemma_with_account(state, changed);
        let mid = LedgerView { accounts: state.with_account(changed), ..state };
        assert(next.accounts == mid.accounts);
        assert forall|i: int| 0 <= i < state.accounts.len() && state.accounts[i].locked implies (
        #[trigger] next.accounts[i]).locked by {
            if state.accounts[i].client == tx.client {
                lemma_position(state, i);
                lemma_position(mid, i);
            }
        }
        assert forall|k: u32| #[trigger] next.history.contains_key(k) implies {
            &&& next.history[k].wf()
            &&& next.history[k].tx.0 == k
            &&& next.history[k]._type is Deposit
            &&& next.seen.contains(k)
        } by {
            if state.history.contains_key(k) {
                assert(state.history[k].wf());
            }
        }
    }
    assert forall|client: ClientId| #[trigger] state.is_locked(client) implies next.is_locked(
        client,
    ) by {
        let p = state.position(client);
        assert(0 <= p < state.accounts.len() && state.accounts[p].client == client);
        assert(next.accounts[p].locked);
        lemma_position(next, p);
    }
}

/// Every state that a run reaches has `total == available + held` for every
/// account, along with the rest of what holds of every state.
pub proof fn lemma_run_wf(events: Seq<Transaction>)
    requires
        wf_events(events),
        spec_run(events) is Ok,
    ensures
        spec_run(events)->Ok_0.wf(),
    decreases events.len(),
{
    if events.len() > 0 {
        lemma_run_wf(events.drop_last());
        lemma_step(spec_run(events.drop_last())->Ok_0, events.last());
    }
}

/// A run that reaches the end of a stream had reached the end of each of its
/// prefixes.
pub proof fn lemma_run_prefix(events: Seq<Transaction>, n: int)
    requires
        0 <= n <= events.len(),
        spec_run(events) is Ok,
    ensures
        spec_run(events.take(n)) is Ok,
    decreases events.len(),
{
    if n == events.len() {
        assert(events.take(n) == events);
    } else {
        assert(events.drop_last().take(n) == events.take(n));
        lemma_run_prefix(events.drop_last(), n);
    }
}

/// A lock is never lifted: an account that is locked after the first `n`
/// events of a stream is locked after the whole stream, whatever the later
/// events are.
pub proof fn lemma_lock_is_monotonic(events: Seq<Transaction>, n: int, client: ClientId)
    requires
        wf_events(events),
        0 <= n <= events.len(),
        spec_run(events) is Ok,
        spec_run(events.take(n))->Ok_0.is_locked(client),
    ensures
        spec_run(events.take(n)) is Ok,
        spec_run(events)->Ok_0.is_locked(client),
    decreases events.len(),
{
    lemma_run_prefix(events, n);
    if n == events.len() {
        assert(events.take(n) == events);
    } else {
        let shorter = events.drop_last();
        assert(shorter.take(n) == events.take(n));
        lemma_lock_is_monotonic(shorter, n, client);
        lemma_run_wf(shorter);
        lemma_step(spec_run(shorter)->Ok_0, events.last());
    }
}

/// The running state of a ledger: the accounts in the order in which they
/// were first touched, the place of each client's account, the retained
/// deposits, and the identifiers that deposits and withdrawals have used.
pub struct Ledger {
    accounts: Vec<Account>,
    index: HashMap<u16, usize>,
    history: HashMap<u32, Transaction>,
    seen: HashSet<u32>,
}

impl View for Ledger {
    type V = LedgerView;

    closed spec fn view(&self) -> LedgerView {
        LedgerView { accounts: self.accounts@, history: self.history@, seen: self.seen@ }
    }
}

impl Ledger {
    /// Whether `index` names the place of every account, and of nothing
    /// else.
    spec fn indexed(&self) -> bool {
        &&& forall|c: u16| #[trigger]
            self.index@.contains_key(c) ==> self.index@[c] < self.accounts.len()
                && self.accounts[self.index@[c] as int].client == ClientId(c)
        &&& forall|i: int|
            0 <= i < self.accounts.len() ==> self.index@.contains_key(
                (#[trigger] self.accounts[i]).client.0,
            ) && self.index@[self.accounts[i].client.0] == i
    }

    /// Whether the ledger is in a state that a run can reach: what
    /// `LedgerView::wf` says of its view, and the place of every account on
    /// record.
    pub closed spec fn wf(&self) -> bool {
        self@.wf() && self.indexed()
    }

    /// A ledger in a reachable state has a view in a reachable state: among
    /// the rest, `total == available + held` for every account.
    pub proof fn lemma_wf_view(&self)
        requires
            self.wf(),
        ensures
            self@.wf(),
    {
    }

    /// A ledger before any event.
    pub fn new() -> (ledger: Ledger)
        ensures
            ledger.wf(),
            ledger@ == LedgerView::empty(),
    {
        broadcast use vstd::std_specs::hash::group_hash_axioms;

        let ledger = Ledger {
            accounts: Vec::new(),
            index: HashMap::new(),
            history: HashMap::new(),
            seen: HashSet::new(),
        };
        assert(ledger@.accounts =~= Seq::empty());
        assert(ledger@.history =~= Map::empty());
        assert(ledger@.seen =~= Set::empty());
        ledger
    }

    /// The place of the account of `client`, where it has one.
    fn slot_of(&self, client: ClientId) -> (slot: Option<usize>)
        requires
            self.wf(),
        ensures
            slot is Some <==> self@.has_account(client),
            slot is Some ==> slot->0 < self.accounts.len() && slot->0 == self@.position(client),
    {
        broadcast use vstd::std_specs::hash::group_hash_axioms;

        match self.index.get(&client.0) {
            Some(i) => {
                proof {
                    assert(self.index@.contains_key(client.0));
                    assert(self@.accounts[*i as int].client == client);
                    lemma_position(self@, *i as int);
                }
                Some(*i)
            },
            None => {
                proof {
                    if self@.has_account(client) {
                        let p = self@.position(client);
                        assert(self.accounts[p].client == client);
                        assert(self.index@.contains_key(self.accounts[p].client.0));
                    }
                }
                None
            },
        }
    }

    /// Puts `account` where its client's account is, or at the end where the
    /// client has none yet.
    fn put(&mut self, slot: Option<usize>, account: Account)
        requires
            old(self).indexed(),
            old(self)@.wf(),
            slot is Some <==> old(self)@.has_account(account.client),
            slot is Some ==> slot->0 < old(self).accounts.len() && slot->0 == old(self)@.position(
                account.client,
            ),
        ensures
            final(self).indexed(),
            final(self)@.accounts == old(self)@.with_account(account),
            final(self)@.history == old(self)@.history,
            final(self)@.seen == old(self)@.seen,
    {
        broadcast use vstd::std_specs::hash::group_hash_axioms;

        match slot {
            Some(i) => {
                proof {
                    let p = old(self)@.position(account.client);
                    assert(old(self)@.accounts[p].client == account.client);
                }
                self.accounts.set(i, account);
                assert forall|j: int| 0 <= j < self.accounts.len() implies self.index@.contains_key(
                    (#[trigger] self.accounts[j]).client.0,
                ) && self.index@[self.accounts[j].client.0] == j by {
                    assert(self.accounts[j].client == old(self).accounts[j].client);
                }
            },
            None => {
                let at = self.accounts.len();
                proof {
                    if self.index@.contains_key(account.client.0) {
                        let k = self.index@[account.client.0] as int;
                        assert(self@.accounts[k].client == account.client);
                    }
                }
                self.index.insert(account.client.0, at);
                self.accounts.push(account);
                assert forall|j: int| 0 <= j < self.accounts.len() implies self.index@.contains_key(
                    (#[trigger] self.accounts[j]).client.0,
                ) && self.index@[self.accounts[j].client.0] == j by {
                    if j < at {
                        assert(self.accounts[j] == old(self).accounts[j]);
                        assert(old(self).index@.contains_key(old(self).accounts[j].client.0));
                    }
                }
                assert forall|c: u16| #[trigger] self.index@.contains_key(c) implies self.index@[c]
                    < self.accounts.len() && self.accounts[self.index@[c] as int].client
                    == ClientId(c) by {
                    if c != account.client.0 {
                        assert(old(self).index@.contains_key(c));
                        assert(self.accounts[old(self).index@[c] as int] == old(
                            self,
                        ).accounts[old(self).index@[c] as int]);
                    }
                }
            },
        }
    }
}

impl Ledger {
    /// Takes one event of the stream.
    ///
    /// On `Ok` the ledger has moved as `LedgerView::step` says: the event
    /// was applied, or skipped. On `Err` the run is over and the ledger is
    /// as it was.
    pub fn process(&mut self, tx: &Transaction) -> (r: Result<(), LedgerError>)
        requires
            old(self).wf(),
        ensures
            final(self).wf(),
            match r {
                Ok(_) => old(self)@.step(*tx) == Ok::<LedgerView, LedgerError>(final(self)@),
                Err(e) => old(self)@.step(*tx) == Err::<LedgerView, LedgerError>(e) && final(self)@
                    == old(self)@,
            },
            forall|client: ClientId| #[trigger]
                old(self)@.is_locked(client) ==> final(self)@.is_locked(client),
    {
        broadcast use vstd::std_specs::hash::group_hash_axioms;

        proof {
            if let Some(a) = tx.amount {
                use_type_invariant(&a);
            }
        }
        if !tx.valid_tx_data() {
            return Ok(());
        }
        let unique = tx.requires_unique_tx();
        if unique && self.seen.contains(&tx.tx.0) {
            return Err(LedgerError::DuplicateTransaction);
        }
        let slot = self.slot_of(tx.client);
        let mut account = match slot {
            Some(i) => self.accounts[i],
            None => Account::new(tx.client),
        };
        let referenced: Option<Transaction> = match self.history.get(&tx.tx.0) {
            Some(r) => Some(*r),
            None => None,
        };
        proof {
            lemma_account_wf(self@, tx.client);
            assert(account == self@.account(tx.client));
            assert(referenced == self@.referenced(*tx));
        }
        let ghost before = account;
        match referenced {
            Some(r) => {
                if r.client == tx.client {
                    if !account.can_apply(tx, Some(&r)) {
                        return Err(LedgerError::BalanceOverflow);
                    }
                    let mut moved = r;
                    account.apply_tx(tx, Some(&mut moved));
                    self.history.insert(tx.tx.0, moved);
                    if tx.requires_history() {
                        self.history.insert(tx.tx.0, opened(tx));
                    }
                }
            },
            None => {
                if !account.can_apply(tx, None) {
                    return Err(LedgerError::BalanceOverflow);
                }
                account.apply_tx(tx, None);
                if tx.requires_history() {
                    self.history.insert(tx.tx.0, opened(tx));
                }
            },
        }
        if unique {
            self.seen.insert(tx.tx.0);
        }
        proof {
            assert(self@.history =~= if referenced is Some && referenced->0.client != tx.client {
                old(self)@.history
            } else {
                old(self)@.history_after(before, *tx)
            });
            assert(self@.seen =~= old(self)@.seen_after(*tx));
            assert(self@.accounts == old(self)@.accounts);
        }
        let ghost mid = self@;
        self.put(slot, account);
        proof {
            assert(mid.with_account(account) == old(self)@.with_account(account));
            lemma_step(old(self)@, *tx);
        }
        Ok(())
    }

    /// The accounts, in the order in which they were first touched.
    pub fn accounts(&self) -> (snapshot: Vec<Account>)
        ensures
            snapshot@ == self@.accounts,
    {
        let mut snapshot: Vec<Account> = Vec::new();
        let mut i: usize = 0;
        while i < self.accounts.len()
            invariant
                i <= self.accounts.len(),
                snapshot@ == self.accounts@.take(i as int),
            decreases self.accounts.len() - i,
        {
            snapshot.push(self.accounts[i]);
            proof {
                assert(self.accounts@.take(i + 1) == self.accounts@.take(i as int).push(
                    self.accounts@[i as int],
                ));
            }
            i = i + 1;
        }
        proof {
            assert(self.accounts@.take(i as int) == self.accounts@);
        }
        snapshot
    }
}

/// The deposit as it is retained: with its dispute lifecycle open.
fn opened(tx: &Transaction) -> (t: Transaction)
    ensures
        t == tx.with_state(TransactionState::Open),
{
    Transaction {
        _type: tx._type,
        client: tx.client,
        tx: tx.tx,
        amount: tx.amount,
        state: TransactionState::Open,
    }
}

/// Runs a whole stream of events, in order, on a fresh ledger, and gives the
/// snapshot of every account that an event touched, in the order of first
/// touch.
///
/// The run is given up, with no snapshot at all, at the first deposit or
/// withdrawal that reuses an identifier, and at the first event that would
/// take a balance out of the representable range.
pub fn run(events: &Vec<Transaction>) -> (r: Result<Vec<Account>, LedgerError>)
    ensures
        match r {
            Ok(snapshot) => spec_run(events@) is Ok && snapshot@ == spec_run(
                events@,
            )->Ok_0.accounts,
            Err(e) => spec_run(events@) == Err::<LedgerView, LedgerError>(e),
        },
        r is Ok ==> forall|i: int|
            0 <= i < r->Ok_0.len() ==> (#[trigger] r->Ok_0[i]).balanced(),
        r is Ok ==> forall|i: int, j: int|
            0 <= i < j < r->Ok_0.len() ==> (#[trigger] r->Ok_0[i]).client
                != (#[trigger] r->Ok_0[j]).client,
{
    let mut ledger = Ledger::new();
    let mut i: usize = 0;
    while i < events.len()
        invariant
            i <= events.len(),
            ledger.wf(),
            spec_run(events@.take(i as int)) == Ok::<LedgerView, LedgerError>(ledger@),
        decreases events.len() - i,
    {
        proof {
            assert(events@.take(i + 1).drop_last() == events@.take(i as int));
            assert(events@.take(i + 1).last() == events@[i as int]);
        }
        match ledger.process(&events[i]) {
            Ok(_) => {},
            Err(e) => {
                proof {
                    lemma_run_stops(events@, i + 1);
                }
                return Err(e);
            },
        }
        i = i + 1;
    }
    proof {
        assert(events@.take(i as int) == events@);
    }
    Ok(ledger.accounts())
}

/// A run that has failed on a prefix of a stream fails in the same way on
/// the whole stream.
pub proof fn lemma_run_stops(events: Seq<Transaction>, n: int)
    requires
        0 <= n <= events.len(),
        spec_run(events.take(n)) is Err,
    ensures
        spec_run(events) == spec_run(events.take(n)),
    decreases events.len(),
{
    if n == events.len() {
        assert(events.take(n) == events);
    } else {
        assert(events.drop_last().take(n) == events.take(n));
        lemma_run_stops(events.drop_last(), n);
    }
}

} // verus!
