//! The engine: routes each event to the shard of its client and collects
//! every shard's snapshots when the stream ends. Processing an event
//! sequence is a pure function of that sequence, shard by shard, which is
//! what makes the sharded run reproducible.

use vstd::prelude::*;
use crate::account::AccountModel;
use crate::output::{AccountOutput, SnapshotModel, csv_text, outputs_view, snapshots_of};
use crate::shard::{Worker, shard_run, shard_step};
use crate::transaction::Transaction;

verus! {

/// The shard an event for `client` lands on among `n` workers.
pub open spec fn spec_route(client: u16, n: nat) -> nat
    recommends
        n > 0,
{
    client as nat % n
}

/// Pick the worker for a client: all events of one client land on one
/// worker, so they are applied in arrival order.
pub fn route(client: u16, n: usize) -> (i: usize)
    requires
        n > 0,
    ensures
        i as nat == spec_route(client, n as nat),
        i < n,
{
    (client as usize) % n
}

/// The subsequence of an event stream that shard `i` of `n` receives, in
/// stream order.
pub open spec fn events_for(events: Seq<Transaction>, n: nat, i: nat) -> Seq<Transaction>
    decreases events.len(),
{
    if events.len() == 0 {
        Seq::empty()
    } else {
        let rest = events_for(events.drop_last(), n, i);
        if spec_route(events.last().spec_client(), n) == i {
            rest.push(events.last())
        } else {
            rest
        }
    }
}

/// The rows emitted for the first `k` of `n` shards, in shard order.
pub open spec fn rows_upto(events: Seq<Transaction>, n: nat, k: nat) -> Seq<SnapshotModel>
    decreases k,
{
    if k == 0 {
        Seq::empty()
    } else {
        rows_upto(events, n, (k - 1) as nat) + snapshots_of(
            shard_run(events_for(events, n, (k - 1) as nat)),
        )
    }
}

/// Every row an engine of `n` workers emits for an event stream: the
/// shards' snapshots, concatenated in shard order.
pub open spec fn engine_rows(events: Seq<Transaction>, n: nat) -> Seq<SnapshotModel> {
    rows_upto(events, n, n)
}

/// The clients named by an event sequence, each once, in the order they
/// first appear.
pub open spec fn first_seen_clients(events: Seq<Transaction>) -> Seq<u16>
    decreases events.len(),
{
    if events.len() == 0 {
        Seq::empty()
    } else {
        let p = first_seen_clients(events.drop_last());
        if p.contains(events.last().spec_client()) {
            p
        } else {
            p.push(events.last().spec_client())
        }
    }
}

/// The clients of a sequence of accounts, in order.
pub open spec fn clients_of(s: Seq<AccountModel>) -> Seq<u16> {
    s.map_values(|m: AccountModel| m.client)
}

/// A shard that consumed an event sequence holds exactly one account per
/// client that appeared in it, in first-seen order; so its snapshots are
/// one row per such client, and no others.
pub proof fn lemma_one_row_per_client(events: Seq<Transaction>)
    ensures
        clients_of(shard_run(events)) == first_seen_clients(events),
        clients_of(shard_run(events)).no_duplicates(),
        snapshots_of(shard_run(events)).map_values(|r: SnapshotModel| r.client)
            == first_seen_clients(events),
    decreases events.len(),
{
    if events.len() == 0 {
        assert(clients_of(shard_run(events)) =~= Seq::<u16>::empty());
        assert(snapshots_of(shard_run(events)).map_values(|r: SnapshotModel| r.client) =~= Seq::<
            u16,
        >::empty());
    } else {
        let pre = events.drop_last();
        lemma_one_row_per_client(pre);
        let s = shard_run(pre);
        let t = events.last();
        let c = t.spec_client();
        let p = first_seen_clients(pre);
        if exists|i: int| 0 <= i < s.len() && (#[trigger] s[i]).client == c {
            let i = choose|i: int| 0 <= i < s.len() && (#[trigger] s[i]).client == c;
            crate::account::lemma_account_step_client(s[i], t);
            assert(clients_of(shard_step(s, t)) =~= clients_of(s));
            assert(clients_of(s)[i] == c);
            assert(p.contains(c));
            assert(first_seen_clients(events) == p);
        } else {
            crate::account::lemma_account_step_client(crate::account::fresh_account(c), t);
            assert(clients_of(shard_step(s, t)) =~= clients_of(s).push(c));
            assert(!p.contains(c)) by {
                if p.contains(c) {
                    let i = choose|i: int| 0 <= i < p.len() && p[i] == c;
                    assert(clients_of(s)[i] == c);
                    assert(s[i].client == c);
                }
            }
            assert(first_seen_clients(events) == p.push(c));
            assert(clients_of(shard_step(s, t)) =~= p.push(c));
        }
        assert(snapshots_of(shard_run(events)).map_values(|r: SnapshotModel| r.client)
            =~= clients_of(shard_run(events)));
    }
}

/// Any two row sequences that an engine may emit for the same events and
/// the same worker count are equal, and render to byte-identical output:
/// the emitted text is a function of the stream and the shard count
/// alone.
pub proof fn lemma_runs_identical(
    events: Seq<Transaction>,
    n: nat,
    a: Seq<SnapshotModel>,
    b: Seq<SnapshotModel>,
)
    requires
        a == engine_rows(events, n),
        b == engine_rows(events, n),
    ensures
        a == b,
        csv_text(a) == csv_text(b),
{
}

/// The engine: one worker per shard; each event reaches exactly one
/// worker, chosen by its client.
pub struct Engine {
    workers: Vec<Worker>,
    processed: Ghost<Seq<Transaction>>,
}

impl Engine {
    /// The events fed in so far, in arrival order.
    pub closed spec fn processed_events(&self) -> Seq<Transaction> {
        self.processed@
    }

    /// How many workers the engine runs.
    pub closed spec fn worker_count(&self) -> nat {
        self.workers@.len()
    }

    /// Every worker's shard holds exactly the accounts that its share of
    /// the processed events produces.
    pub closed spec fn inv(&self) -> bool {
        &&& self.workers@.len() > 0
        &&& forall|i: int|
            0 <= i < self.workers@.len() ==> (#[trigger] self.workers@[i]).inv()
                && self.workers@[i]@ == shard_run(
                events_for(self.processed@, self.workers@.len(), i as nat),
            )
    }

    /// An engine of `workers` workers, each with an empty shard.
    pub fn new(workers: usize) -> (e: Engine)
        requires
            workers >= 1,
        ensures
            e.inv(),
            e.worker_count() == workers,
            e.processed_events() == Seq::<Transaction>::empty(),
    {
        let mut ws: Vec<Worker> = Vec::new();
        let mut id: usize = 0;
        while id < workers
            invariant
                id <= workers,
                ws@.len() == id,
                forall|i: int| 0 <= i < id ==> (#[trigger] ws@[i]).inv() && ws@[i]@
                    == Seq::<AccountModel>::empty(),
            decreases workers - id,
        {
            ws.push(Worker::new(id as u16));
            id += 1;
        }
        let e = Engine { workers: ws, processed: Ghost(Seq::empty()) };
        proof {
            assert forall|i: int| 0 <= i < e.workers@.len() implies (#[trigger] e.workers@[i]).inv()
                && e.workers@[i]@ == shard_run(
                events_for(e.processed@, e.workers@.len(), i as nat),
            ) by {
                assert(events_for(e.processed@, e.workers@.len(), i as nat) =~= Seq::<
                    Transaction,
                >::empty());
            }
        }
        e
    }

    /// Route one event to the worker of its client and apply it there.
    pub fn process(&mut self, t: Transaction)
        requires
            old(self).inv(),
        ensures
            final(self).inv(),
            final(self).worker_count() == old(self).worker_count(),
            final(self).processed_events() == old(self).processed_events().push(t),
    {
        let n = self.workers.len();
        let i = route(t.client(), n);
        let w = &mut self.workers[i];
        w.process(t);
        self.processed = Ghost(self.processed@.push(t));
        proof {
            let p = old(self).processed@;
            let nn = n as nat;
            assert(self.processed@.drop_last() =~= p);
            assert forall|j: int| 0 <= j < self.workers@.len() implies (
            #[trigger] self.workers@[j]).inv() && self.workers@[j]@ == shard_run(
                events_for(self.processed@, nn, j as nat),
            ) by {
                if j == i as int {
                    let s2 = events_for(self.processed@, nn, j as nat);
                    assert(s2 == events_for(p, nn, j as nat).push(t));
                    assert(s2.len() > 0 && s2.last() == t);
                    assert(s2.drop_last() =~= events_for(p, nn, j as nat));
                    assert(shard_run(s2) == shard_step(
                        shard_run(events_for(p, nn, j as nat)),
                        t,
                    ));
                } else {
                    assert(events_for(self.processed@, nn, j as nat) == events_for(
                        p,
                        nn,
                        j as nat,
                    ));
                    assert(self.workers@[j] == old(self).workers@[j]);
                }
            }
        }
    }

    /// Collect every worker's snapshots, in shard order: the rows are a
    /// function of the processed events and the worker count alone.
    pub fn finish(&self) -> (rows: Vec<AccountOutput>)
        requires
            self.inv(),
        ensures
            outputs_view(rows@) == engine_rows(self.processed_events(), self.worker_count()),
    {
        let ghost p = self.processed@;
        let ghost nn = self.workers@.len();
        let mut rows: Vec<AccountOutput> = Vec::new();
        let mut k: usize = 0;
        while k < self.workers.len()
            invariant
                self.inv(),
                k <= self.workers@.len(),
                nn == self.workers@.len(),
                p == self.processed@,
                outputs_view(rows@) =~= rows_upto(p, nn, k as nat),
            decreases self.workers@.len() - k,
        {
            let w = &self.workers[k];
            let mut part = w.finish();
            let ghost part0 = part@;
            let ghost before = rows@;
            rows.append(&mut part);
            k += 1;
            proof {
                assert(rows@ == before + part0);
                assert(outputs_view(rows@) =~= outputs_view(before) + outputs_view(part0));
                assert(outputs_view(rows@) =~= rows_upto(p, nn, k as nat));
            }
        }
        rows
    }

    /// Feed a whole event sequence through the engine, then collect all
    /// snapshots: one in-process run of the pipeline.
    pub fn run(self, events: &Vec<Transaction>) -> (rows: Vec<AccountOutput>)
        requires
            self.inv(),
            self.processed_events() == Seq::<Transaction>::empty(),
        ensures
            outputs_view(rows@) == engine_rows(events@, self.worker_count()),
    {
        let mut engine = self;
        let ghost n0 = engine.worker_count();
        let mut j: usize = 0;
        while j < events.len()
            invariant
                engine.inv(),
                j <= events@.len(),
                engine.worker_count() == n0,
                engine.processed_events() == events@.subrange(0, j as int),
            decreases events@.len() - j,
        {
            engine.process(events[j]);
            j += 1;
            proof {
                assert(events@.subrange(0, j as int) =~= events@.subrange(
                    0,
                    j as int - 1,
                ).push(events@[j as int - 1]));
            }
        }
        proof {
            assert(events@.subrange(0, events@.len() as int) =~= events@);
        }
        engine.finish()
    }
}

} // verus!
