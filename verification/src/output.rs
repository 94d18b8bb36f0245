//! Account snapshots: the per-client rows the engine emits when it stops.

use vstd::prelude::*;
use crate::digits::{dec_digits, push_decimal};
use crate::money::{Money, money_text};
use crate::account::AccountModel;

verus! {

/// Mathematical content of one output row.
#[verifier::ext_equal]
pub struct SnapshotModel {
    pub client: u16,
    pub available: int,
    pub held: int,
    pub total: int,
    pub locked: bool,
}

/// One emitted row: a client's final balances and lock state.
#[derive(Clone, Copy)]
pub struct AccountOutput {
    pub client: u16,
    pub available: Money,
    pub held: Money,
    pub total: Money,
    pub locked: bool,
}

impl View for AccountOutput {
    type V = SnapshotModel;

    open spec fn view(&self) -> SnapshotModel {
        SnapshotModel {
            client: self.client,
            available: self.available@,
            held: self.held@,
            total: self.total@,
            locked: self.locked,
        }
    }
}

/// The row an account in state `m` is reported as.
pub open spec fn snapshot_of(m: AccountModel) -> SnapshotModel {
    SnapshotModel {
        client: m.client,
        available: m.available,
        held: m.held,
        total: m.total,
        locked: m.locked,
    }
}

/// The rows for a whole sequence of accounts, in order.
pub open spec fn snapshots_of(s: Seq<AccountModel>) -> Seq<SnapshotModel> {
    s.map_values(|m: AccountModel| snapshot_of(m))
}

/// The models of a sequence of emitted rows.
pub open spec fn outputs_view(v: Seq<AccountOutput>) -> Seq<SnapshotModel> {
    v.map_values(|o: AccountOutput| o@)
}

/// The header line `client,available,held,total,locked` and a newline.
pub open spec fn header_text() -> Seq<u8> {
    seq![
        99u8,
        108,
        105,
        101,
        110,
        116,
        44,
        97,
        118,
        97,
        105,
        108,
        97,
        98,
        108,
        101,
        44,
        104,
        101,
        108,
        100,
        44,
        116,
        111,
        116,
        97,
        108,
        44,
        108,
        111,
        99,
        107,
        101,
        100,
        10,
    ]
}

/// The literal `true` or `false`.
pub open spec fn bool_text(b: bool) -> Seq<u8> {
    if b {
        seq![116u8, 114, 117, 101]
    } else {
        seq![102u8, 97, 108, 115, 101]
    }
}

/// One output line: the client, the three balances with four fractional
/// digits each, and the lock flag, comma-separated, newline-terminated.
pub open spec fn row_text(r: SnapshotModel) -> Seq<u8> {
    dec_digits(r.client as nat) + seq![44u8] + money_text(r.available) + seq![44u8] + money_text(
        r.held,
    ) + seq![44u8] + money_text(r.total) + seq![44u8] + bool_text(r.locked) + seq![10u8]
}

/// The whole emitted text: the header, then one line per row, in order.
pub open spec fn csv_text(rows: Seq<SnapshotModel>) -> Seq<u8>
    decreases rows.len(),
{
    if rows.len() == 0 {
        header_text()
    } else {
        csv_text(rows.drop_last()) + row_text(rows.last())
    }
}

/// Append one output line for `row`.
#[verifier::rlimit(80)]
fn push_row(out: &mut Vec<u8>, row: &AccountOutput)
    ensures
        final(out)@ == old(out)@ + row_text(row@),
{
    push_decimal(row.client as u64, out);
    out.push(44);
    let mut avail = row.available.format();
    out.append(&mut avail);
    out.push(44);
    let mut held = row.held.format();
    out.append(&mut held);
    out.push(44);
    let mut total = row.total.format();
    out.append(&mut total);
    out.push(44);
    if row.locked {
        out.push(116);
        out.push(114);
        out.push(117);
        out.push(101);
    } else {
        out.push(102);
        out.push(97);
        out.push(108);
        out.push(115);
        out.push(101);
    }
    out.push(10);
    proof {
        assert(out@ =~= old(out)@ + row_text(row@));
    }
}

/// Render the emitted rows as the output text: a pure function of the
/// rows, so equal snapshots give byte-identical output.
pub fn render_csv(rows: &Vec<AccountOutput>) -> (out: Vec<u8>)
    ensures
        out@ == csv_text(outputs_view(rows@)),
{
    let mut out: Vec<u8> = Vec::new();
    let mut header: Vec<u8> = vec![
        99u8, 108, 105, 101, 110, 116, 44, 97, 118, 97, 105, 108, 97, 98, 108, 101, 44, 104, 101,
        108, 100, 44, 116, 111, 116, 97, 108, 44, 108, 111, 99, 107, 101, 100, 10,
    ];
    out.append(&mut header);
    proof {
        assert(out@ =~= csv_text(outputs_view(rows@).subrange(0, 0)));
    }
    let mut i: usize = 0;
    while i < rows.len()
        invariant
            i <= rows@.len(),
            out@ =~= csv_text(outputs_view(rows@).subrange(0, i as int)),
        decreases rows@.len() - i,
    {
        let ghost pre = outputs_view(rows@).subrange(0, i as int);
        push_row(&mut out, &rows[i]);
        i += 1;
        proof {
            let cur = outputs_view(rows@).subrange(0, i as int);
            assert(cur.drop_last() =~= pre);
            assert(cur.last() == rows@[i - 1]@);
            assert(out@ =~= csv_text(pre) + row_text(rows@[i - 1]@));
        }
    }
    proof {
        assert(outputs_view(rows@).subrange(0, rows@.len() as int) =~= outputs_view(rows@));
    }
    out
}

} // verus!
