//! One client's account: funds, the set of accepted deposits, and the
//! dispute lifecycle, with the accounting invariants proved for every event.

use vstd::prelude::*;
use crate::money::{Money, AMOUNT_LIMIT};
use crate::transaction::{Transaction, Tx, amount_view};

verus! {

/// Largest balance magnitude, in ten-thousandths, that an account's
/// `available` or `held` funds may reach.
pub open spec fn limit() -> int {
    AMOUNT_LIMIT as int
}

/// Mathematical state of one account.
#[verifier::ext_equal]
pub struct AccountModel {
    pub client: u16,
    pub available: int,
    pub held: int,
    pub total: int,
    pub locked: bool,
    /// Every accepted deposit, by transaction id.
    pub deposits: Map<u32, int>,
    /// Ids currently under dispute, in the order the disputes arrived.
    pub disputed: Seq<u32>,
    /// Ids of accepted withdrawals.
    pub withdrawn: Seq<u32>,
}

/// Sum of the recorded deposit amounts for the given ids.
pub open spec fn sum_amounts(ids: Seq<u32>, deposits: Map<u32, int>) -> int
    decreases ids.len(),
{
    if ids.len() == 0 {
        0
    } else {
        sum_amounts(ids.drop_last(), deposits) + deposits[ids.last()]
    }
}

/// The account invariants: the double-entry identity, non-negative held
/// funds backed exactly by the disputed deposits, and bounded balances.
pub open spec fn wf(m: AccountModel) -> bool {
    &&& m.total == m.available + m.held
    &&& -limit() <= m.available <= limit()
    &&& 0 <= m.held <= limit()
    &&& m.held == sum_amounts(m.disputed, m.deposits)
    &&& m.disputed.no_duplicates()
    &&& forall|i: int|
        0 <= i < m.disputed.len() ==> m.deposits.dom().contains(#[trigger] m.disputed[i])
    &&& forall|id: u32| #[trigger]
        m.deposits.dom().contains(id) ==> 0 < m.deposits[id] <= 2 * limit()
    &&& m.withdrawn.no_duplicates()
}

/// A freshly created account: zero balances, nothing recorded, unlocked.
pub open spec fn fresh_account(client: u16) -> AccountModel {
    AccountModel {
        client,
        available: 0,
        held: 0,
        total: 0,
        locked: false,
        deposits: Map::empty(),
        disputed: Seq::empty(),
        withdrawn: Seq::empty(),
    }
}

/// A deposit of `a` under id `id` is accepted exactly here.
pub open spec fn deposit_applies(m: AccountModel, id: u32, a: int) -> bool {
    &&& !m.locked
    &&& a > 0
    &&& !m.deposits.dom().contains(id)
    &&& m.available + a <= limit()
}

/// Effect of a deposit event on the model.
pub open spec fn spec_deposit(m: AccountModel, id: u32, amount: Option<int>) -> AccountModel {
    match amount {
        Some(a) => if deposit_applies(m, id, a) {
            AccountModel {
                available: m.available + a,
                total: m.total + a,
                deposits: m.deposits.insert(id, a),
                ..m
            }
        } else {
            m
        },
        None => m,
    }
}

/// A withdrawal of `a` under id `id` is accepted exactly here.
pub open spec fn withdraw_applies(m: AccountModel, id: u32, a: int) -> bool {
    &&& !m.locked
    &&& a > 0
    &&& !m.withdrawn.contains(id)
    &&& m.available - a >= 0
}

/// Effect of a withdrawal event on the model.
pub open spec fn spec_withdraw(m: AccountModel, id: u32, amount: Option<int>) -> AccountModel {
    match amount {
        Some(a) => if withdraw_applies(m, id, a) {
            AccountModel {
                available: m.available - a,
                total: m.total - a,
                withdrawn: m.withdrawn.push(id),
                ..m
            }
        } else {
            m
        },
        None => m,
    }
}

/// A dispute of id `id` takes effect exactly here: the id names a known
/// deposit not already under dispute, and the moved funds stay
/// representable.
pub open spec fn dispute_applies(m: AccountModel, id: u32) -> bool {
    &&& !m.disputed.contains(id)
    &&& m.deposits.dom().contains(id)
    &&& m.available - m.deposits[id] >= -limit()
    &&& m.held + m.deposits[id] <= limit()
}

/// Effect of a dispute event on the model: the deposit's amount moves
/// from available to held; the total is unchanged.
pub open spec fn spec_dispute(m: AccountModel, id: u32) -> AccountModel {
    if dispute_applies(m, id) {
        let a = m.deposits[id];
        AccountModel {
            available: m.available - a,
            held: m.held + a,
            disputed: m.disputed.push(id),
            ..m
        }
    } else {
        m
    }
}

/// A resolve of id `id` takes effect exactly here.
pub open spec fn resolve_applies(m: AccountModel, id: u32) -> bool {
    &&& m.disputed.contains(id)
    &&& m.available + m.deposits[id] <= limit()
}

/// Effect of a resolve event on the model: the disputed amount moves back
/// from held to available; the total is unchanged.
pub open spec fn spec_resolve(m: AccountModel, id: u32) -> AccountModel {
    if resolve_applies(m, id) {
        let a = m.deposits[id];
        AccountModel {
            available: m.available + a,
            held: m.held - a,
            disputed: m.disputed.remove(m.disputed.index_of(id)),
            ..m
        }
    } else {
        m
    }
}

/// A chargeback of id `id` takes effect exactly here.
pub open spec fn chargeback_applies(m: AccountModel, id: u32) -> bool {
    m.disputed.contains(id)
}

/// Effect of a chargeback event on the model: the held amount leaves the
/// account altogether and the account locks.
pub open spec fn spec_chargeback(m: AccountModel, id: u32) -> AccountModel {
    if chargeback_applies(m, id) {
        let a = m.deposits[id];
        AccountModel {
            held: m.held - a,
            total: m.total - a,
            disputed: m.disputed.remove(m.disputed.index_of(id)),
            locked: true,
            ..m
        }
    } else {
        m
    }
}

/// Effect of any single event on the model.
pub open spec fn account_step(m: AccountModel, t: Transaction) -> AccountModel {
    match t {
        Transaction::Deposit(tx) => spec_deposit(m, tx.id, amount_view(tx.amount)),
        Transaction::Withdrawal(tx) => spec_withdraw(m, tx.id, amount_view(tx.amount)),
        Transaction::Dispute(tx) => spec_dispute(m, tx.id),
        Transaction::Resolve(tx) => spec_resolve(m, tx.id),
        Transaction::Chargeback(tx) => spec_chargeback(m, tx.id),
    }
}

/// Removing entry `j` takes exactly that entry's amount out of the sum.
proof fn lemma_sum_remove(ids: Seq<u32>, deposits: Map<u32, int>, j: int)
    requires
        0 <= j < ids.len(),
    ensures
        sum_amounts(ids.remove(j), deposits) == sum_amounts(ids, deposits) - deposits[ids[j]],
    decreases ids.len(),
{
    if j == ids.len() - 1 {
        assert(ids.remove(j) =~= ids.drop_last());
    } else {
        let shorter = ids.drop_last();
        assert(ids.remove(j).last() == ids.last());
        assert(ids.remove(j).drop_last() =~= shorter.remove(j));
        lemma_sum_remove(shorter, deposits, j);
        assert(shorter[j] == ids[j]);
    }
}

/// A sum of positive amounts is non-negative.
proof fn lemma_sum_nonneg(ids: Seq<u32>, deposits: Map<u32, int>)
    requires
        forall|i: int| 0 <= i < ids.len() ==> deposits[#[trigger] ids[i]] > 0,
    ensures
        sum_amounts(ids, deposits) >= 0,
    decreases ids.len(),
{
    if ids.len() > 0 {
        lemma_sum_nonneg(ids.drop_last(), deposits);
    }
}

/// The sum depends only on the amounts recorded for the listed ids.
proof fn lemma_sum_congruence(ids: Seq<u32>, d1: Map<u32, int>, d2: Map<u32, int>)
    requires
        forall|i: int| 0 <= i < ids.len() ==> d1[#[trigger] ids[i]] == d2[ids[i]],
    ensures
        sum_amounts(ids, d1) == sum_amounts(ids, d2),
    decreases ids.len(),
{
    if ids.len() > 0 {
        lemma_sum_congruence(ids.drop_last(), d1, d2);
    }
}

/// In a well-formed account the sum never drops below any one entry.
proof fn lemma_sum_entry_bound(ids: Seq<u32>, deposits: Map<u32, int>, j: int)
    requires
        0 <= j < ids.len(),
        forall|i: int| 0 <= i < ids.len() ==> deposits[#[trigger] ids[i]] > 0,
    ensures
        sum_amounts(ids, deposits) >= deposits[ids[j]],
{
    lemma_sum_remove(ids, deposits, j);
    let rest = ids.remove(j);
    assert(forall|i: int| 0 <= i < rest.len() ==> deposits[#[trigger] rest[i]] > 0) by {
        assert(forall|i: int| 0 <= i < rest.len() ==> rest[i] == if i < j {
            ids[i]
        } else {
            ids[i + 1]
        });
    }
    lemma_sum_nonneg(rest, deposits);
}

/// Every event preserves the account invariants: in particular the
/// double-entry identity `total == available + held` and `held >= 0`
/// hold after every processed event.
pub proof fn lemma_step_preserves_wf(m: AccountModel, t: Transaction)
    requires
        wf(m),
    ensures
        wf(account_step(m, t)),
{
    match t {
        Transaction::Deposit(tx) => lemma_deposit_preserves_wf(m, tx.id, amount_view(tx.amount)),
        Transaction::Withdrawal(tx) => lemma_withdraw_preserves_wf(
            m,
            tx.id,
            amount_view(tx.amount),
        ),
        Transaction::Dispute(tx) => lemma_dispute_preserves_wf(m, tx.id),
        Transaction::Resolve(tx) => lemma_resolve_preserves_wf(m, tx.id),
        Transaction::Chargeback(tx) => lemma_chargeback_preserves_wf(m, tx.id),
    }
}

pub proof fn lemma_deposit_preserves_wf(m: AccountModel, id: u32, amount: Option<int>)
    requires
        wf(m),
    ensures
        wf(spec_deposit(m, id, amount)),
{
    if let Some(a) = amount {
        if deposit_applies(m, id, a) {
            let m2 = spec_deposit(m, id, amount);
            assert(forall|i: int|
                0 <= i < m.disputed.len() ==> m.deposits[#[trigger] m.disputed[i]]
                    == m2.deposits[m.disputed[i]]);
            lemma_sum_congruence(m.disputed, m.deposits, m2.deposits);
        }
    }
}

pub proof fn lemma_withdraw_preserves_wf(m: AccountModel, id: u32, amount: Option<int>)
    requires
        wf(m),
    ensures
        wf(spec_withdraw(m, id, amount)),
{
}

pub proof fn lemma_dispute_preserves_wf(m: AccountModel, id: u32)
    requires
        wf(m),
    ensures
        wf(spec_dispute(m, id)),
{
    if dispute_applies(m, id) {
        let m2 = spec_dispute(m, id);
        assert(m2.disputed.drop_last() =~= m.disputed);
    }
}

pub proof fn lemma_resolve_preserves_wf(m: AccountModel, id: u32)
    requires
        wf(m),
    ensures
        wf(spec_resolve(m, id)),
{
    if resolve_applies(m, id) {
        let j = m.disputed.index_of(id);
        assert(0 <= j < m.disputed.len() && m.disputed[j] == id);
        let m2 = spec_resolve(m, id);
        assert(forall|i: int| 0 <= i < m.disputed.len() ==> m.deposits[#[trigger] m.disputed[i]] > 0);
        lemma_sum_remove(m.disputed, m.deposits, j);
        assert(forall|i: int| 0 <= i < m2.disputed.len() ==> m2.disputed[i] == if i < j {
            m.disputed[i]
        } else {
            m.disputed[i + 1]
        });
        assert(forall|i: int| 0 <= i < m2.disputed.len() ==> deposits_positive_at(m, m2.disputed, i));
        lemma_sum_nonneg(m2.disputed, m.deposits);
    }
}

/// The amount recorded for entry `i` of `ids` is positive in `m`.
pub open spec fn deposits_positive_at(m: AccountModel, ids: Seq<u32>, i: int) -> bool {
    m.deposits[ids[i]] > 0
}

pub proof fn lemma_chargeback_preserves_wf(m: AccountModel, id: u32)
    requires
        wf(m),
    ensures
        wf(spec_chargeback(m, id)),
{
    if chargeback_applies(m, id) {
        let j = m.disputed.index_of(id);
        assert(0 <= j < m.disputed.len() && m.disputed[j] == id);
        let m2 = spec_chargeback(m, id);
        lemma_sum_remove(m.disputed, m.deposits, j);
        assert(forall|i: int| 0 <= i < m2.disputed.len() ==> m2.disputed[i] == if i < j {
            m.disputed[i]
        } else {
            m.disputed[i + 1]
        });
        assert(forall|i: int| 0 <= i < m2.disputed.len() ==> deposits_positive_at(m, m2.disputed, i));
        lemma_sum_nonneg(m2.disputed, m.deposits);
        lemma_sum_entry_bound(m.disputed, m.deposits, j);
    }
}

/// No event moves an account to another client.
pub proof fn lemma_account_step_client(m: AccountModel, t: Transaction)
    ensures
        account_step(m, t).client == m.client,
{
}

/// A resolve that follows an accepted dispute of the same id restores the
/// account exactly to its state before the dispute.
pub proof fn lemma_resolve_undoes_dispute(m: AccountModel, id: u32)
    requires
        wf(m),
        dispute_applies(m, id),
    ensures
        resolve_applies(spec_dispute(m, id), id),
        spec_resolve(spec_dispute(m, id), id) == m,
{
    let d = spec_dispute(m, id);
    let a = m.deposits[id];
    assert(d.disputed.last() == id);
    assert(d.disputed.contains(id));
    let j = d.disputed.index_of(id);
    assert(0 <= j < d.disputed.len() && d.disputed[j] == id);
    assert(j == m.disputed.len()) by {
        if j < m.disputed.len() {
            assert(m.disputed[j] == d.disputed[j]);
            assert(m.disputed.contains(id));
        }
    }
    assert(d.disputed.remove(j) =~= m.disputed);
    assert(spec_resolve(d, id) =~= m);
}

/// One accepted deposit, kept to settle later disputes of its id.
pub struct DepositEntry {
    pub id: u32,
    pub amount: Money,
}

/// The ids of the recorded deposits, in order of acceptance.
pub open spec fn entry_ids(s: Seq<DepositEntry>) -> Seq<u32> {
    s.map_values(|e: DepositEntry| e.id)
}

/// The recorded deposits as a map from id to amount.
pub open spec fn deposits_map(s: Seq<DepositEntry>) -> Map<u32, int>
    decreases s.len(),
{
    if s.len() == 0 {
        Map::empty()
    } else {
        deposits_map(s.drop_last()).insert(s.last().id, s.last().amount@)
    }
}

proof fn lemma_deposits_map_dom(s: Seq<DepositEntry>, id: u32)
    ensures
        deposits_map(s).dom().contains(id) <==> exists|j: int|
            0 <= j < s.len() && (#[trigger] s[j]).id == id,
    decreases s.len(),
{
    if s.len() > 0 {
        lemma_deposits_map_dom(s.drop_last(), id);
        if s.last().id == id {
            assert(s[s.len() - 1].id == id);
        } else if exists|j: int| 0 <= j < s.len() - 1 && (#[trigger] s.drop_last()[j]).id == id {
            let j = choose|j: int| 0 <= j < s.len() - 1 && (#[trigger] s.drop_last()[j]).id == id;
            assert(s[j].id == id);
        } else if exists|j: int| 0 <= j < s.len() && (#[trigger] s[j]).id == id {
            let j = choose|j: int| 0 <= j < s.len() && (#[trigger] s[j]).id == id;
            assert(j < s.len() - 1 ==> s.drop_last()[j].id == id);
        }
    }
}

proof fn lemma_deposits_map_get(s: Seq<DepositEntry>, j: int)
    requires
        entry_ids(s).no_duplicates(),
        0 <= j < s.len(),
    ensures
        deposits_map(s).dom().contains(s[j].id),
        deposits_map(s)[s[j].id] == s[j].amount@,
    decreases s.len(),
{
    if j < s.len() - 1 {
        assert(entry_ids(s.drop_last()) =~= entry_ids(s).drop_last());
        lemma_deposits_map_get(s.drop_last(), j);
        assert(entry_ids(s)[j] != entry_ids(s)[s.len() - 1]);
    }
}

/// Both sides of one client's double-entry book.
pub struct DoubleEntryBook {
    pub available_funds: Money,
    pub held_funds: Money,
    pub total_funds: Money,
}

/// One client's account: its book, its accepted deposits and withdrawals,
/// and the ids currently under dispute.
pub struct Account {
    client: u16,
    locked: bool,
    book: DoubleEntryBook,
    deposits: Vec<DepositEntry>,
    disputed: Vec<u32>,
    withdrawn: Vec<u32>,
}

impl View for Account {
    type V = AccountModel;

    closed spec fn view(&self) -> AccountModel {
        AccountModel {
            client: self.client,
            available: self.book.available_funds@,
            held: self.book.held_funds@,
            total: self.book.total_funds@,
            locked: self.locked,
            deposits: deposits_map(self.deposits@),
            disputed: self.disputed@,
            withdrawn: self.withdrawn@,
        }
    }
}

/// Whether `v` holds `id`, by linear scan.
fn vec_contains_u32(v: &Vec<u32>, id: u32) -> (r: bool)
    ensures
        r == v@.contains(id),
{
    let mut i: usize = 0;
    while i < v.len()
        invariant
            i <= v@.len(),
            forall|j: int| 0 <= j < i ==> v@[j] != id,
        decreases v@.len() - i,
    {
        if v[i] == id {
            return true;
        }
        i += 1;
    }
    false
}

/// The position of `id` in `v`, which must hold it exactly once.
fn index_of_u32(v: &Vec<u32>, id: u32) -> (j: usize)
    requires
        v@.contains(id),
        v@.no_duplicates(),
    ensures
        j < v@.len(),
        v@[j as int] == id,
        j as int == v@.index_of(id),
{
    let mut i: usize = 0;
    while i < v.len()
        invariant
            i <= v@.len(),
            v@.contains(id),
            v@.no_duplicates(),
            forall|j: int| 0 <= j < i ==> v@[j] != id,
        decreases v@.len() - i,
    {
        if v[i] == id {
            proof {
                let w = v@.index_of(id);
                assert(0 <= w < v@.len() && v@[w] == id);
            }
            return i;
        }
        i += 1;
    }
    proof {
        let w = choose|w: int| 0 <= w < v@.len() && v@[w] == id;
        assert(false);
    }
    0
}

impl Account {
    /// The representation keeps at most one deposit entry per id.
    pub closed spec fn repr_inv(&self) -> bool {
        entry_ids(self.deposits@).no_duplicates()
    }

    /// The account is well formed: unique deposit ids and the model
    /// invariants of `wf`.
    pub open spec fn inv(&self) -> bool {
        self.repr_inv() && wf(self@)
    }

    /// A fresh account for `client`: zero balances, unlocked.
    pub fn new(client: u16) -> (a: Account)
        ensures
            a@ == fresh_account(client),
            a.inv(),
    {
        let a = Account {
            client,
            locked: false,
            book: DoubleEntryBook {
                available_funds: Money::zero(),
                held_funds: Money::zero(),
                total_funds: Money::zero(),
            },
            deposits: Vec::new(),
            disputed: Vec::new(),
            withdrawn: Vec::new(),
        };
        proof {
            assert(a@ =~= fresh_account(client));
        }
        a
    }

    /// Whether the account refuses further deposits and withdrawals.
    pub fn locked(&self) -> (r: bool)
        ensures
            r == self@.locked,
    {
        self.locked
    }

    /// The client this account belongs to.
    pub fn client(&self) -> (c: u16)
        ensures
            c == self@.client,
    {
        self.client
    }

    /// The account's book.
    pub fn book(&self) -> (b: &DoubleEntryBook)
        ensures
            b.available_funds@ == self@.available,
            b.held_funds@ == self@.held,
            b.total_funds@ == self@.total,
    {
        &self.book
    }

    /// Whether a deposit under `id` was accepted earlier.
    fn contains_deposit(&self, id: u32) -> (r: bool)
        ensures
            r == self@.deposits.dom().contains(id),
    {
        let mut i: usize = 0;
        while i < self.deposits.len()
            invariant
                i <= self.deposits@.len(),
                forall|j: int| 0 <= j < i ==> (#[trigger] self.deposits@[j]).id != id,
            decreases self.deposits@.len() - i,
        {
            if self.deposits[i].id == id {
                proof {
                    lemma_deposits_map_dom(self.deposits@, id);
                }
                return true;
            }
            i += 1;
        }
        proof {
            lemma_deposits_map_dom(self.deposits@, id);
        }
        false
    }

    /// The recorded amount of the deposit under `id`, if there is one.
    fn deposit_amount(&self, id: u32) -> (r: Option<i64>)
        requires
            self.repr_inv(),
        ensures
            match r {
                Some(v) => self@.deposits.dom().contains(id) && self@.deposits[id] == v,
                None => !self@.deposits.dom().contains(id),
            },
    {
        let mut i: usize = 0;
        while i < self.deposits.len()
            invariant
                self.repr_inv(),
                i <= self.deposits@.len(),
                forall|j: int| 0 <= j < i ==> (#[trigger] self.deposits@[j]).id != id,
            decreases self.deposits@.len() - i,
        {
            if self.deposits[i].id == id {
                proof {
                    lemma_deposits_map_get(self.deposits@, i as int);
                }
                return Some(self.deposits[i].amount.raw());
            }
            i += 1;
        }
        proof {
            lemma_deposits_map_dom(self.deposits@, id);
        }
        None
    }

    /// Apply a deposit event. Accepted exactly when the account is not
    /// locked, the amount is present and positive, the id is new, and the
    /// grown balance stays representable; otherwise the account is
    /// unchanged. Repeating an accepted id is a no-op, and a locked
    /// account never moves.
    pub fn deposit(&mut self, tx: Tx)
        requires
            old(self).inv(),
        ensures
            final(self).inv(),
            final(self)@ == spec_deposit(old(self)@, tx.id, amount_view(tx.amount)),
            old(self)@.locked ==> final(self)@ == old(self)@,
            old(self)@.deposits.dom().contains(tx.id) ==> final(self)@ == old(self)@,
    {
        let amount = match tx.amount {
            Some(m) => m,
            None => {
                return ;
            },
        };
        if self.locked {
            return ;
        }
        if amount.raw() <= 0 {
            return ;
        }
        if self.contains_deposit(tx.id) {
            return ;
        }
        let avail = self.book.available_funds.raw();
        let grown = match avail.checked_add(amount.raw()) {
            Some(s) => s,
            None => {
                return ;
            },
        };
        if grown > AMOUNT_LIMIT {
            return ;
        }
        proof {
            lemma_deposit_preserves_wf(self@, tx.id, amount_view(tx.amount));
        }
        let total = self.book.total_funds.raw();
        self.book.available_funds = Money::from_raw(grown);
        self.book.total_funds = Money::from_raw(total + amount.raw());
        self.deposits.push(DepositEntry { id: tx.id, amount });
        proof {
            let s = old(self).deposits@;
            assert(self.deposits@.drop_last() =~= s);
            assert(entry_ids(self.deposits@) =~= entry_ids(s).push(tx.id));
            lemma_deposits_map_dom(s, tx.id);
            assert(forall|j: int|
                0 <= j < entry_ids(s).len() ==> entry_ids(s)[j] == (#[trigger] s[j]).id);
            assert(self@ =~= spec_deposit(old(self)@, tx.id, amount_view(tx.amount)));
        }
    }

    /// Apply a withdrawal event. Accepted exactly when the account is not
    /// locked, the amount is present and positive, the id was not
    /// withdrawn before, and the available funds cover it; otherwise the
    /// account is unchanged. A withdrawal never drives the available
    /// funds below zero, and a locked account never moves.
    pub fn withdraw(&mut self, tx: Tx)
        requires
            old(self).inv(),
        ensures
            final(self).inv(),
            final(self)@ == spec_withdraw(old(self)@, tx.id, amount_view(tx.amount)),
            old(self)@.locked ==> final(self)@ == old(self)@,
            final(self)@.available >= 0 || final(self)@.available == old(self)@.available,
    {
        let amount = match tx.amount {
            Some(m) => m,
            None => {
                return ;
            },
        };
        if self.locked {
            return ;
        }
        if amount.raw() <= 0 {
            return ;
        }
        if vec_contains_u32(&self.withdrawn, tx.id) {
            return ;
        }
        let avail = self.book.available_funds.raw();
        let rest = match avail.checked_sub(amount.raw()) {
            Some(d) => d,
            None => {
                return ;
            },
        };
        if rest < 0 {
            return ;
        }
        proof {
            lemma_withdraw_preserves_wf(self@, tx.id, amount_view(tx.amount));
        }
        let total = self.book.total_funds.raw();
        self.book.available_funds = Money::from_raw(rest);
        self.book.total_funds = Money::from_raw(total - amount.raw());
        self.withdrawn.push(tx.id);
        proof {
            assert(self@ =~= spec_withdraw(old(self)@, tx.id, amount_view(tx.amount)));
        }
    }

    /// Apply a dispute event. Takes effect exactly when the id names a
    /// known deposit not already under dispute and the moved funds stay
    /// representable; otherwise the account is unchanged. The deposit's
    /// amount moves from available to held; the total is unchanged, so
    /// available may go negative when the funds were already spent.
    pub fn dispute(&mut self, tx: Tx)
        requires
            old(self).inv(),
        ensures
            final(self).inv(),
            final(self)@ == spec_dispute(old(self)@, tx.id),
            final(self)@.total == old(self)@.total,
    {
        if vec_contains_u32(&self.disputed, tx.id) {
            return ;
        }
        let a = match self.deposit_amount(tx.id) {
            Some(v) => v,
            None => {
                return ;
            },
        };
        let shrunk = self.book.available_funds.raw() - a;
        if shrunk < -AMOUNT_LIMIT {
            return ;
        }
        let grown = self.book.held_funds.raw() + a;
        if grown > AMOUNT_LIMIT {
            return ;
        }
        proof {
            lemma_dispute_preserves_wf(self@, tx.id);
        }
        self.book.available_funds = Money::from_raw(shrunk);
        self.book.held_funds = Money::from_raw(grown);
        self.disputed.push(tx.id);
        proof {
            assert(self@ =~= spec_dispute(old(self)@, tx.id));
        }
    }

    /// Apply a resolve event. Takes effect exactly when the id is under
    /// dispute and the restored balance stays representable; otherwise
    /// the account is unchanged. The disputed amount moves back from held
    /// to available; the total is unchanged.
    pub fn resolve(&mut self, tx: Tx)
        requires
            old(self).inv(),
        ensures
            final(self).inv(),
            final(self)@ == spec_resolve(old(self)@, tx.id),
            final(self)@.total == old(self)@.total,
    {
        if !vec_contains_u32(&self.disputed, tx.id) {
            return ;
        }
        proof {
            let i = self@.disputed.index_of(tx.id);
            assert(0 <= i < self@.disputed.len() && self@.disputed[i] == tx.id);
        }
        let a = match self.deposit_amount(tx.id) {
            Some(v) => v,
            None => {
                proof {
                    assert(false);
                }
                return ;
            },
        };
        let grown = self.book.available_funds.raw() + a;
        if grown > AMOUNT_LIMIT {
            return ;
        }
        proof {
            lemma_resolve_preserves_wf(self@, tx.id);
        }
        let j = index_of_u32(&self.disputed, tx.id);
        self.book.available_funds = Money::from_raw(grown);
        self.book.held_funds = Money::from_raw(self.book.held_funds.raw() - a);
        self.disputed.remove(j);
        proof {
            assert(self@ =~= spec_resolve(old(self)@, tx.id));
        }
    }

    /// Apply a chargeback event. Takes effect exactly when the id is
    /// under dispute; otherwise the account is unchanged. The held amount
    /// leaves the account altogether and the account locks.
    pub fn chargeback(&mut self, tx: Tx)
        requires
            old(self).inv(),
        ensures
            final(self).inv(),
            final(self)@ == spec_chargeback(old(self)@, tx.id),
            final(self)@.available == old(self)@.available,
            chargeback_applies(old(self)@, tx.id) ==> final(self)@.locked,
    {
        if !vec_contains_u32(&self.disputed, tx.id) {
            return ;
        }
        proof {
            let i = self@.disputed.index_of(tx.id);
            assert(0 <= i < self@.disputed.len() && self@.disputed[i] == tx.id);
        }
        let a = match self.deposit_amount(tx.id) {
            Some(v) => v,
            None => {
                proof {
                    assert(false);
                }
                return ;
            },
        };
        proof {
            lemma_chargeback_preserves_wf(self@, tx.id);
        }
        let j = index_of_u32(&self.disputed, tx.id);
        self.book.held_funds = Money::from_raw(self.book.held_funds.raw() - a);
        self.book.total_funds = Money::from_raw(self.book.total_funds.raw() - a);
        self.disputed.remove(j);
        self.locked = true;
        proof {
            assert(self@ =~= spec_chargeback(old(self)@, tx.id));
        }
    }

    /// Apply any single event to the account it belongs to.
    pub fn apply(&mut self, t: Transaction)
        requires
            old(self).inv(),
        ensures
            final(self).inv(),
            final(self)@ == account_step(old(self)@, t),
    {
        match t {
            Transaction::Deposit(tx) => self.deposit(tx),
            Transaction::Withdrawal(tx) => self.withdraw(tx),
            Transaction::Dispute(tx) => self.dispute(tx),
            Transaction::Resolve(tx) => self.resolve(tx),
            Transaction::Chargeback(tx) => self.chargeback(tx),
        }
    }
}

} // verus!
