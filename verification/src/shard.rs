//! A shard: the accounts of one worker's partition of the clients, in
//! first-seen order, with a hash index from client to position.

use vstd::prelude::*;
use crate::account::{
    Account, AccountModel, account_step, fresh_account, lemma_account_step_client,
    lemma_step_preserves_wf, wf,
};
use crate::output::{AccountOutput, outputs_view, snapshot_of, snapshots_of};
use crate::transaction::Transaction;

verus! {

#[verifier::external_type_specification]
#[verifier::external_body]
#[verifier::reject_recursive_types(K)]
#[verifier::reject_recursive_types(V)]
#[verifier::reject_recursive_types(S)]
pub struct ExIndexMap<K, V, S>(indexmap::IndexMap<K, V, S>);

/// A hash index from client to position in the account list.
pub type ClientIndex = indexmap::IndexMap<u16, usize>;

/// What the client index holds: its entries as a map.
pub uninterp spec fn index_entries(m: ClientIndex) -> Map<u16, usize>;

/// Relies on indexmap::IndexMap::new: a new map has no entries.
#[verifier::external_body]
fn client_index_new() -> (fresh: ClientIndex)
    ensures
        index_entries(fresh) == (Map::<u16, usize>::empty()),
{
    indexmap::IndexMap::new()
}

/// Relies on indexmap::IndexMap::get: the value stored under the key, if
/// the key is present.
#[verifier::external_body]
fn client_index_get(m: &ClientIndex, client: u16) -> (r: Option<usize>)
    ensures
        match r {
            Some(i) => index_entries(*m).dom().contains(client) && index_entries(*m)[client]
                == i,
            None => !index_entries(*m).dom().contains(client),
        },
{
    m.get(&client).copied()
}

/// Relies on indexmap::IndexMap::insert: the key now maps to the value
/// and every other entry is kept.
#[verifier::external_body]
fn client_index_insert(m: &mut ClientIndex, client: u16, pos: usize)
    ensures
        index_entries(*final(m)) == index_entries(*old(m)).insert(client, pos),
{
    m.insert(client, pos);
}

/// Each client appears on at most one account of the sequence.
pub open spec fn clients_distinct(s: Seq<AccountModel>) -> bool {
    forall|i: int, j: int|
        0 <= i < s.len() && 0 <= j < s.len() && i != j ==> (#[trigger] s[i]).client != (
        #[trigger] s[j]).client
}

/// Every account of the sequence satisfies the account invariants.
pub open spec fn all_wf(s: Seq<AccountModel>) -> bool {
    forall|i: int| 0 <= i < s.len() ==> wf(#[trigger] s[i])
}

/// Effect of one event on a shard: it reaches the account of its client,
/// which is created on first contact, appended after the existing ones.
pub open spec fn shard_step(s: Seq<AccountModel>, t: Transaction) -> Seq<AccountModel> {
    let c = t.spec_client();
    if exists|i: int| 0 <= i < s.len() && (#[trigger] s[i]).client == c {
        let i = choose|i: int| 0 <= i < s.len() && (#[trigger] s[i]).client == c;
        s.update(i, account_step(s[i], t))
    } else {
        s.push(account_step(fresh_account(c), t))
    }
}

/// The accounts of a shard after it consumed a whole event sequence, in
/// first-seen client order.
pub open spec fn shard_run(events: Seq<Transaction>) -> Seq<AccountModel>
    decreases events.len(),
{
    if events.len() == 0 {
        Seq::empty()
    } else {
        shard_step(shard_run(events.drop_last()), events.last())
    }
}

/// One event keeps every account of a shard well formed and the clients
/// distinct.
pub proof fn lemma_shard_step_wf(s: Seq<AccountModel>, t: Transaction)
    requires
        all_wf(s),
        clients_distinct(s),
    ensures
        all_wf(shard_step(s, t)),
        clients_distinct(shard_step(s, t)),
{
    let c = t.spec_client();
    if exists|i: int| 0 <= i < s.len() && (#[trigger] s[i]).client == c {
        let i = choose|i: int| 0 <= i < s.len() && (#[trigger] s[i]).client == c;
        lemma_step_preserves_wf(s[i], t);
        lemma_account_step_client(s[i], t);
        let s2 = shard_step(s, t);
        assert(forall|j: int| 0 <= j < s2.len() && j != i ==> s2[j] == s[j]);
    } else {
        lemma_step_preserves_wf(fresh_account(c), t);
        lemma_account_step_client(fresh_account(c), t);
        let s2 = shard_step(s, t);
        assert(forall|j: int| 0 <= j < s.len() ==> s2[j] == s[j]);
        assert(s2[s.len() as int].client == c);
    }
}

/// After any number of processed events, every account of the shard
/// satisfies the accounting invariants — in particular
/// `total == available + held` and `held >= 0` — and no client appears
/// twice.
pub proof fn lemma_shard_run_wf(events: Seq<Transaction>)
    ensures
        all_wf(shard_run(events)),
        clients_distinct(shard_run(events)),
    decreases events.len(),
{
    if events.len() > 0 {
        lemma_shard_run_wf(events.drop_last());
        lemma_shard_step_wf(shard_run(events.drop_last()), events.last());
    }
}

/// The accounts of one partition of the clients, in the order the
/// clients first appeared.
pub struct Shard {
    accounts: Vec<Account>,
    index: ClientIndex,
}

impl View for Shard {
    type V = Seq<AccountModel>;

    closed spec fn view(&self) -> Seq<AccountModel> {
        self.accounts@.map_values(|a: Account| a@)
    }
}

impl Shard {
    /// The index lists exactly the stored clients, each at its position,
    /// and every stored account is well formed.
    pub closed spec fn repr_inv(&self) -> bool {
        &&& forall|i: int|
            0 <= i < self.accounts@.len() ==> index_entries(self.index).dom().contains(
                (#[trigger] self.accounts@[i])@.client,
            ) && index_entries(self.index)[self.accounts@[i]@.client] == i
        &&& forall|c: u16| #[trigger]
            index_entries(self.index).dom().contains(c) ==> index_entries(self.index)[c]
                < self.accounts@.len() && self.accounts@[index_entries(self.index)[c] as int]@.client
                == c
        &&& forall|i: int| 0 <= i < self.accounts@.len() ==> (#[trigger] self.accounts@[i]).inv()
    }

    /// The shard invariant: distinct clients, well-formed accounts.
    pub open spec fn inv(&self) -> bool {
        self.repr_inv() && clients_distinct(self@) && all_wf(self@)
    }

    /// An empty shard.
    pub fn new() -> (s: Shard)
        ensures
            s@ == Seq::<AccountModel>::empty(),
            s.inv(),
    {
        let s = Shard { accounts: Vec::new(), index: client_index_new() };
        proof {
            assert(s@ =~= Seq::<AccountModel>::empty());
        }
        s
    }

    /// Route one event to the account of its client, creating that
    /// account on first contact.
    pub fn apply(&mut self, t: Transaction)
        requires
            old(self).inv(),
        ensures
            final(self).inv(),
            final(self)@ == shard_step(old(self)@, t),
    {
        let c = t.client();
        match client_index_get(&self.index, c) {
            Some(i) => {
                proof {
                    assert(self.accounts@[i as int]@.client == c);
                    assert(self@[i as int].client == c);
                }
                let acc = &mut self.accounts[i];
                acc.apply(t);
                proof {
                    let s = old(self)@;
                    let w = choose|w: int| 0 <= w < s.len() && (#[trigger] s[w]).client == c;
                    assert(w == i as int);
                    assert(self@ =~= shard_step(old(self)@, t));
                }
            },
            None => {
                let pos = self.accounts.len();
                let mut acc = Account::new(c);
                acc.apply(t);
                self.accounts.push(acc);
                client_index_insert(&mut self.index, c, pos);
                proof {
                    let s = old(self)@;
                    assert(forall|w: int|
                        0 <= w < s.len() ==> (#[trigger] s[w]).client == old(
                            self,
                        ).accounts@[w]@.client);
                    assert(!(exists|w: int| 0 <= w < s.len() && (#[trigger] s[w]).client == c));
                    assert(self@ =~= shard_step(old(self)@, t));
                }
            },
        }
    }

    /// One snapshot per stored account, in first-seen client order.
    pub fn snapshots(&self) -> (v: Vec<AccountOutput>)
        ensures
            outputs_view(v@) == snapshots_of(self@),
    {
        let mut v: Vec<AccountOutput> = Vec::new();
        let mut i: usize = 0;
        while i < self.accounts.len()
            invariant
                i <= self.accounts@.len(),
                outputs_view(v@) =~= snapshots_of(self@.subrange(0, i as int)),
            decreases self.accounts@.len() - i,
        {
            let ghost old_v = v@;
            proof {
                assert(outputs_view(old_v).len() == old_v.len());
                assert(snapshots_of(self@.subrange(0, i as int)).len() == i as int);
                assert(old_v.len() == i as int);
            }
            let acc = &self.accounts[i];
            let book = acc.book();
            v.push(
                AccountOutput {
                    client: acc.client(),
                    available: book.available_funds,
                    held: book.held_funds,
                    total: book.total_funds,
                    locked: acc.locked(),
                },
            );
            i += 1;
            proof {
                let k = i as int - 1;
                assert(v@.len() == i as int);
                assert(outputs_view(v@).len() == v@.len());
                assert(v@[k].client == self.accounts@[k]@.client);
                assert(v@[k]@.client == self.accounts@[k]@.client);
                assert(self@[k] == self.accounts@[k]@);
                assert(v@[k]@ == snapshot_of(self@[k]));
                assert(outputs_view(v@).len() == i as int);
                assert(snapshots_of(self@.subrange(0, i as int)).len() == i as int);
                assert forall|j: int| 0 <= j < i as int implies outputs_view(v@)[j]
                    == snapshots_of(self@.subrange(0, i as int))[j] by {
                    assert(outputs_view(v@)[j] == v@[j]@);
                    assert(snapshots_of(self@.subrange(0, i as int))[j] == snapshot_of(
                        self@.subrange(0, i as int)[j],
                    ));
                    assert(self@.subrange(0, i as int)[j] == self@[j]);
                    if j < k {
                        assert(v@[j] == old_v[j]);
                        assert(outputs_view(old_v)[j] == old_v[j]@);
                        assert(outputs_view(old_v)[j] == snapshots_of(self@.subrange(0, k))[j]);
                        assert(snapshots_of(self@.subrange(0, k))[j] == snapshot_of(
                            self@.subrange(0, k)[j],
                        ));
                        assert(self@.subrange(0, k)[j] == self@[j]);
                    } else {
                        assert(v@[j]@ == snapshot_of(self@[k]));
                    }
                }
                assert(outputs_view(v@) =~= snapshots_of(self@.subrange(0, i as int)));
            }
        }
        proof {
            assert(self@.subrange(0, self.accounts@.len() as int) =~= self@);
        }
        v
    }
}

/// A worker: the single consumer that owns one shard and feeds it the
/// events it receives, then reports the shard's snapshots.
pub struct Worker {
    id: u16,
    shard: Shard,
}

impl View for Worker {
    type V = Seq<AccountModel>;

    closed spec fn view(&self) -> Seq<AccountModel> {
        self.shard@
    }
}

impl Worker {
    /// A worker with the given id and an empty shard.
    pub fn new(id: u16) -> (w: Worker)
        ensures
            w@ == Seq::<AccountModel>::empty(),
            w.inv(),
    {
        Worker { id, shard: Shard::new() }
    }

    /// The shard invariant, carried by the worker.
    pub closed spec fn inv(&self) -> bool {
        self.shard.inv()
    }

    /// This worker's id.
    pub fn id(&self) -> u16 {
        self.id
    }

    /// Feed one received event to the shard.
    pub fn process(&mut self, t: Transaction)
        requires
            old(self).inv(),
        ensures
            final(self).inv(),
            final(self)@ == shard_step(old(self)@, t),
    {
        self.shard.apply(t);
    }

    /// Emit the shard's snapshots once no further event will arrive.
    pub fn finish(&self) -> (v: Vec<AccountOutput>)
        ensures
            outputs_view(v@) == snapshots_of(self@),
    {
        self.shard.snapshots()
    }

    /// Drain a whole queue of events in arrival order, then emit the
    /// snapshots: the single-threaded core of the worker loop.
    pub fn run(&mut self, events: &Vec<Transaction>) -> (rows: Vec<AccountOutput>)
        requires
            old(self).inv(),
            old(self)@ == Seq::<AccountModel>::empty(),
        ensures
            final(self).inv(),
            final(self)@ == shard_run(events@),
            outputs_view(rows@) == snapshots_of(shard_run(events@)),
    {
        let mut j: usize = 0;
        while j < events.len()
            invariant
                self.inv(),
                j <= events@.len(),
                self@ == shard_run(events@.subrange(0, j as int)),
            decreases events@.len() - j,
        {
            self.process(events[j]);
            j += 1;
            proof {
                let cur = events@.subrange(0, j as int);
                assert(cur.drop_last() =~= events@.subrange(0, j as int - 1));
                assert(cur.last() == events@[j as int - 1]);
            }
        }
        proof {
            assert(events@.subrange(0, events@.len() as int) =~= events@);
        }
        self.finish()
    }
}

} // verus!
