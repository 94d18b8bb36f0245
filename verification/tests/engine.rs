use txledger::decode::{check_header, decode_line};
use txledger::engine::{Engine, route};
use txledger::output::{AccountOutput, render_csv};
use txledger::shard::Worker;
use txledger::transaction::Transaction;
use txledger::writer::Writer;

/// Decode a whole input text, header line first, skipping bad rows.
fn decode_input(input: &str) -> Vec<Transaction> {
    let mut lines = input.lines();
    let header = lines.next().expect("input must have a header");
    assert!(check_header(&header.as_bytes().to_vec()));
    let mut events = Vec::new();
    for line in lines {
        if let Some(t) = decode_line(&line.as_bytes().to_vec()) {
            events.push(t);
        }
    }
    events
}

fn run(input: &str, workers: usize) -> Vec<AccountOutput> {
    let engine = Engine::new(workers);
    engine.run(&decode_input(input))
}

fn row(rows: &[AccountOutput], client: u16) -> (i64, i64, i64, bool) {
    let r = rows
        .iter()
        .find(|r| r.client == client)
        .expect("missing client row");
    (r.available.raw(), r.held.raw(), r.total.raw(), r.locked)
}

#[test]
fn basic_deposit_and_withdraw() {
    let rows = run(
        "type,client,tx,amount\n\
         deposit,1,1,1.0\n\
         deposit,2,2,2.0\n\
         deposit,1,3,2.0\n\
         withdrawal,1,4,1.5\n\
         withdrawal,2,5,3.0\n",
        4,
    );
    assert_eq!(rows.len(), 2);
    assert_eq!(row(&rows, 1), (15000, 0, 15000, false));
    assert_eq!(row(&rows, 2), (20000, 0, 20000, false));
}

#[test]
fn dispute_then_resolve() {
    let rows = run(
        "type,client,tx,amount\n\
         deposit,1,1,10.0\n\
         dispute,1,1,\n\
         resolve,1,1,\n",
        2,
    );
    assert_eq!(rows.len(), 1);
    assert_eq!(row(&rows, 1), (100000, 0, 100000, false));
}

#[test]
fn dispute_then_chargeback_locks_account() {
    let rows = run(
        "type,client,tx,amount\n\
         deposit,1,1,10.0\n\
         dispute,1,1,\n\
         chargeback,1,1,\n\
         deposit,1,2,5.0\n",
        2,
    );
    assert_eq!(rows.len(), 1);
    assert_eq!(row(&rows, 1), (0, 0, 0, true));
}

#[test]
fn dispute_after_spent_funds_goes_negative() {
    let rows = run(
        "type,client,tx,amount\n\
         deposit,1,1,10.0\n\
         withdrawal,1,2,8.0\n\
         dispute,1,1,\n",
        3,
    );
    let (available, held, total, locked) = row(&rows, 1);
    assert_eq!((available, held, total, locked), (-80000, 100000, 20000, false));
    assert_eq!(total, available + held);
}

#[test]
fn amounts_truncate_to_four_digits() {
    let rows = run("type,client,tx,amount\ndeposit,1,1,1.23456\n", 1);
    assert_eq!(row(&rows, 1), (12345, 0, 12345, false));
}

#[test]
fn deposits_are_idempotent_by_id() {
    let rows = run(
        "type,client,tx,amount\n\
         deposit,1,1,5.0\n\
         deposit,1,1,5.0\n",
        2,
    );
    assert_eq!(row(&rows, 1), (50000, 0, 50000, false));
}

#[test]
fn bad_rows_are_skipped_without_aborting() {
    let rows = run(
        "type,client,tx,amount\n\
         deposit,1,1,1.0\n\
         nonsense,1,2,1.0\n\
         deposit,1,3,badmoney\n\
         deposit,1,4,1.0\n",
        2,
    );
    assert_eq!(row(&rows, 1), (20000, 0, 20000, false));
}

#[test]
fn one_row_per_seen_client_in_first_seen_order() {
    let rows = run(
        "type,client,tx,amount\n\
         deposit,5,1,1.0\n\
         deposit,3,2,1.0\n\
         dispute,9,9,\n\
         deposit,5,3,1.0\n",
        1,
    );
    let clients: Vec<u16> = rows.iter().map(|r| r.client).collect();
    assert_eq!(clients, vec![5, 3, 9]);
}

#[test]
fn routing_is_stable_per_client() {
    for client in [0u16, 1, 7, 65535] {
        let a = route(client, 4);
        let b = route(client, 4);
        assert_eq!(a, b);
        assert!(a < 4);
        assert_eq!(a, client as usize % 4);
    }
}

#[test]
fn two_runs_render_byte_identical_output() {
    let input = "type,client,tx,amount\n\
                 deposit,1,1,10.0\n\
                 deposit,2,2,3.5\n\
                 withdrawal,1,3,2.0\n\
                 dispute,2,2,\n\
                 deposit,3,4,0.0001\n";
    let first = render_csv(&run(input, 4));
    let second = render_csv(&run(input, 4));
    assert_eq!(first, second);
}

#[test]
fn worker_processes_and_reports_its_shard() {
    let mut worker = Worker::new(0);
    for t in decode_input(
        "type,client,tx,amount\n\
         deposit,8,1,2.0\n\
         deposit,4,2,1.0\n\
         withdrawal,8,3,0.5\n",
    ) {
        worker.process(t);
    }
    let rows = worker.finish();
    let clients: Vec<u16> = rows.iter().map(|r| r.client).collect();
    assert_eq!(clients, vec![8, 4]);
    assert_eq!(row(&rows, 8), (15000, 0, 15000, false));
    assert_eq!(row(&rows, 4), (10000, 0, 10000, false));
}

#[test]
fn rendered_output_has_header_and_exact_rows() {
    let rows = run(
        "type,client,tx,amount\n\
         deposit,1,1,1.5\n\
         deposit,2,2,10.0\n\
         dispute,2,2,\n\
         chargeback,2,2,\n",
        1,
    );
    let text = String::from_utf8(render_csv(&rows)).unwrap();
    assert_eq!(
        text,
        "client,available,held,total,locked\n\
         1,1.5000,0.0000,1.5000,false\n\
         2,0.0000,0.0000,0.0000,true\n"
    );
}

#[test]
fn sharded_and_single_worker_runs_agree_per_client() {
    let input = "type,client,tx,amount\n\
                 deposit,1,1,10.0\n\
                 deposit,2,2,5.0\n\
                 deposit,3,3,2.0\n\
                 withdrawal,2,4,1.0\n\
                 dispute,1,1,\n\
                 chargeback,1,1,\n";
    let wide = run(input, 5);
    let narrow = run(input, 1);
    for client in [1u16, 2, 3] {
        assert_eq!(row(&wide, client), row(&narrow, client));
    }
}

#[test]
fn worker_run_drains_a_whole_queue() {
    let events = decode_input(
        "type,client,tx,amount\n\
         deposit,6,1,4.0\n\
         dispute,6,1,\n",
    );
    let mut worker = Worker::new(0);
    let rows = worker.run(&events);
    assert_eq!(rows.len(), 1);
    assert_eq!(row(&rows, 6), (0, 40000, 40000, false));
}

#[test]
fn writer_marks_the_end() {
    let w = Writer::new();
    assert!(w.end());
}
