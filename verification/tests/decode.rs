use txledger::decode::{check_header, decode_line};
use txledger::transaction::Transaction;

fn decode(s: &str) -> Option<Transaction> {
    decode_line(&s.as_bytes().to_vec())
}

#[test]
fn decode_deposit_row() {
    match decode("deposit,1,1,1.0") {
        Some(Transaction::Deposit(tx)) => {
            assert_eq!(tx.client, 1);
            assert_eq!(tx.id, 1);
            assert_eq!(tx.amount.unwrap().raw(), 10000);
        },
        _ => panic!("expected a deposit"),
    }
}

#[test]
fn decode_tolerates_whitespace_around_fields() {
    match decode(" withdrawal , 2 , 5 , 3.0 ") {
        Some(Transaction::Withdrawal(tx)) => {
            assert_eq!(tx.client, 2);
            assert_eq!(tx.id, 5);
            assert_eq!(tx.amount.unwrap().raw(), 30000);
        },
        _ => panic!("expected a withdrawal"),
    }
}

#[test]
fn decode_dispute_with_trailing_comma() {
    match decode("dispute,1,1,") {
        Some(Transaction::Dispute(tx)) => {
            assert_eq!(tx.client, 1);
            assert_eq!(tx.id, 1);
            assert!(tx.amount.is_none());
        },
        _ => panic!("expected a dispute"),
    }
}

#[test]
fn decode_three_field_row() {
    match decode("resolve,7,9") {
        Some(Transaction::Resolve(tx)) => {
            assert_eq!(tx.client, 7);
            assert_eq!(tx.id, 9);
            assert!(tx.amount.is_none());
        },
        _ => panic!("expected a resolve"),
    }
}

#[test]
fn decode_chargeback_row() {
    assert!(matches!(
        decode("chargeback,65535,4294967295,"),
        Some(Transaction::Chargeback(_))
    ));
}

#[test]
fn decode_rejects_unknown_kind() {
    assert!(decode("transfer,1,1,1.0").is_none());
    assert!(decode("Deposit,1,1,1.0").is_none());
    assert!(decode("withdraw,1,1,1.0").is_none());
}

#[test]
fn decode_rejects_bad_numbers() {
    assert!(decode("deposit,notanumber,1,1.0").is_none());
    assert!(decode("deposit,1,notanumber,1.0").is_none());
    assert!(decode("deposit,65536,1,1.0").is_none());
    assert!(decode("deposit,1,4294967296,1.0").is_none());
    assert!(decode("deposit,-1,1,1.0").is_none());
}

#[test]
fn decode_rejects_bad_amount() {
    assert!(decode("deposit,1,1,1.2.3").is_none());
    assert!(decode("deposit,1,1,abc").is_none());
}

#[test]
fn decode_rejects_wrong_field_count() {
    assert!(decode("deposit,1").is_none());
    assert!(decode("deposit").is_none());
    assert!(decode("deposit,1,1,1.0,extra").is_none());
    assert!(decode("").is_none());
}

#[test]
fn header_is_recognised() {
    assert!(check_header(&b"type,client,tx,amount".to_vec()));
    assert!(check_header(&b"type, client, tx, amount".to_vec()));
    assert!(!check_header(&b"type,client,tx".to_vec()));
    assert!(!check_header(&b"client,type,tx,amount".to_vec()));
    assert!(!check_header(&b"type,client,tx,amount,extra".to_vec()));
    assert!(!check_header(&b"deposit,1,1,1.0".to_vec()));
}
