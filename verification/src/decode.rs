//! Decoding input rows: `type,client,tx,amount` into ledger events.
//! Malformed rows decode to nothing and are skipped by the caller.

use vstd::prelude::*;
use crate::digits::{
    after_delim, before_delim, has_delim, lemma_delim_split, parse_digits_range, spec_parse_digits,
    trim, trim_range,
};
use crate::money::{Money, parse_money_range, spec_parse_money};
use crate::transaction::{Transaction, Tx};

verus! {

/// The event kind `deposit`.
pub open spec fn kw_deposit() -> Seq<u8> {
    seq![100u8, 101, 112, 111, 115, 105, 116]
}

/// The event kind `withdrawal`.
pub open spec fn kw_withdrawal() -> Seq<u8> {
    seq![119u8, 105, 116, 104, 100, 114, 97, 119, 97, 108]
}

/// The event kind `dispute`.
pub open spec fn kw_dispute() -> Seq<u8> {
    seq![100u8, 105, 115, 112, 117, 116, 101]
}

/// The event kind `resolve`.
pub open spec fn kw_resolve() -> Seq<u8> {
    seq![114u8, 101, 115, 111, 108, 118, 101]
}

/// The event kind `chargeback`.
pub open spec fn kw_chargeback() -> Seq<u8> {
    seq![99u8, 104, 97, 114, 103, 101, 98, 97, 99, 107]
}

/// What the four trimmed fields of a row decode to: the kind must be one
/// of the five keywords, the client a number below two to the sixteenth,
/// the id below two to the thirty-second; a non-empty amount must be
/// valid money text.
pub open spec fn decode_fields(
    kind: Seq<u8>,
    client: Seq<u8>,
    id: Seq<u8>,
    amt: Seq<u8>,
) -> Option<Transaction> {
    match (spec_parse_digits(client, u16::MAX as int), spec_parse_digits(id, u32::MAX as int)) {
        (Some(c), Some(i)) => {
            if amt.len() == 0 {
                make_event(kind, c as u16, i as u32, None)
            } else {
                match spec_parse_money(amt) {
                    Some(v) => make_event(kind, c as u16, i as u32, Some(Money::from_int(v))),
                    None => None,
                }
            }
        },
        _ => None,
    }
}

/// The event a decoded row denotes, by its kind keyword.
pub open spec fn make_event(kind: Seq<u8>, c: u16, i: u32, amount: Option<Money>) -> Option<
    Transaction,
> {
    let tx = Tx { client: c, id: i, amount };
    if kind == kw_deposit() {
        Some(Transaction::Deposit(tx))
    } else if kind == kw_withdrawal() {
        Some(Transaction::Withdrawal(tx))
    } else if kind == kw_dispute() {
        Some(Transaction::Dispute(tx))
    } else if kind == kw_resolve() {
        Some(Transaction::Resolve(tx))
    } else if kind == kw_chargeback() {
        Some(Transaction::Chargeback(tx))
    } else {
        None
    }
}

/// What one input line decodes to: three or four comma-separated fields,
/// whitespace around fields tolerated, the fourth (the amount) optional
/// and possibly empty.
pub open spec fn decode_line_spec(s: Seq<u8>) -> Option<Transaction> {
    if !has_delim(s, 44) {
        None
    } else {
        let f0 = before_delim(s, 44);
        let r1 = after_delim(s, 44);
        if !has_delim(r1, 44) {
            None
        } else {
            let f1 = before_delim(r1, 44);
            let r2 = after_delim(r1, 44);
            let f2 = before_delim(r2, 44);
            let amt = if has_delim(r2, 44) {
                after_delim(r2, 44)
            } else {
                Seq::empty()
            };
            if has_delim(amt, 44) {
                None
            } else {
                decode_fields(trim(f0), trim(f1), trim(f2), trim(amt))
            }
        }
    }
}

/// The position of the first comma at or after `from`, or `n` without
/// one.
fn find_comma(line: &Vec<u8>, from: usize, n: usize) -> (p: usize)
    requires
        from <= n <= line@.len(),
    ensures
        from <= p <= n,
        forall|j: int| from <= j < p ==> line@[j] != 44,
        p < n ==> line@[p as int] == 44,
{
    let mut p = from;
    while p < n
        invariant
            from <= p <= n <= line@.len(),
            forall|j: int| from <= j < p ==> line@[j] != 44,
        ensures
            from <= p <= n,
            forall|j: int| from <= j < p ==> line@[j] != 44,
            p < n ==> line@[p as int] == 44,
        decreases n - p,
    {
        if line[p] == 44 {
            break ;
        }
        p += 1;
    }
    p
}

/// Whether `line[lo..hi]` is exactly the bytes of `kw`.
fn range_eq(line: &Vec<u8>, lo: usize, hi: usize, kw: &Vec<u8>) -> (r: bool)
    requires
        lo <= hi <= line@.len(),
    ensures
        r == (line@.subrange(lo as int, hi as int) == kw@),
{
    let ghost s = line@.subrange(lo as int, hi as int);
    if hi - lo != kw.len() {
        return false;
    }
    let mut i: usize = 0;
    while i < kw.len()
        invariant
            lo <= hi <= line@.len(),
            i <= kw@.len(),
            hi - lo == kw@.len(),
            s == line@.subrange(lo as int, hi as int),
            forall|j: int| 0 <= j < i ==> s[j] == kw@[j],
        decreases kw@.len() - i,
    {
        if line[lo + i] != kw[i] {
            proof {
                assert(s[i as int] != kw@[i as int]);
            }
            return false;
        }
        i += 1;
    }
    proof {
        assert(s =~= kw@);
    }
    true
}

/// Decode one input line, or nothing when it is malformed: wrong field
/// count, non-numeric client or id, out-of-range numbers, a bad amount,
/// or an unknown kind.
#[verifier::rlimit(80)]
pub fn decode_line(line: &Vec<u8>) -> (r: Option<Transaction>)
    ensures
        r == decode_line_spec(line@),
{
    let ghost s = line@;
    let n = line.len();
    let c1 = find_comma(line, 0, n);
    proof {
        lemma_delim_split(s, 44, c1 as int);
    }
    if c1 == n {
        return None;
    }
    let ghost r1 = s.subrange(c1 as int + 1, n as int);
    let c2 = find_comma(line, c1 + 1, n);
    proof {
        assert forall|j: int| 0 <= j < c2 - c1 - 1 implies r1[j] != 44 by {
            assert(r1[j] == s[j + c1 + 1]);
        }
        if c2 < n {
            assert(r1[c2 - c1 - 1] == s[c2 as int]);
        }
        lemma_delim_split(r1, 44, c2 as int - c1 as int - 1);
    }
    if c2 == n {
        return None;
    }
    let ghost r2 = s.subrange(c2 as int + 1, n as int);
    proof {
        assert(after_delim(r1, 44) =~= r2);
        assert(before_delim(r1, 44) =~= s.subrange(c1 as int + 1, c2 as int));
    }
    let c3 = find_comma(line, c2 + 1, n);
    proof {
        assert forall|j: int| 0 <= j < c3 - c2 - 1 implies r2[j] != 44 by {
            assert(r2[j] == s[j + c2 + 1]);
        }
        if c3 < n {
            assert(r2[c3 - c2 - 1] == s[c3 as int]);
        }
        lemma_delim_split(r2, 44, c3 as int - c2 as int - 1);
        assert(before_delim(r2, 44) =~= s.subrange(c2 as int + 1, c3 as int));
    }
    let ghost amt = if has_delim(r2, 44) {
        after_delim(r2, 44)
    } else {
        Seq::<u8>::empty()
    };
    if c3 < n {
        proof {
            assert(amt =~= s.subrange(c3 as int + 1, n as int));
        }
        let c4 = find_comma(line, c3 + 1, n);
        proof {
            assert forall|j: int| 0 <= j < c4 - c3 - 1 implies amt[j] != 44 by {
                assert(amt[j] == s[j + c3 + 1]);
            }
            if c4 < n {
                assert(amt[c4 - c3 - 1] == s[c4 as int]);
            }
            lemma_delim_split(amt, 44, c4 as int - c3 as int - 1);
        }
        if c4 < n {
            return None;
        }
    } else {
        proof {
            assert(!has_delim(amt, 44));
        }
    }
    // the four trimmed fields
    let (k_lo, k_hi) = trim_range(line, 0, c1);
    let (cl_lo, cl_hi) = trim_range(line, c1 + 1, c2);
    let (id_lo, id_hi) = trim_range(line, c2 + 1, c3);
    let client_v = match parse_digits_range(line, cl_lo, cl_hi, 65535) {
        Some(v) => v,
        None => {
            return None;
        },
    };
    let id_v = match parse_digits_range(line, id_lo, id_hi, 4294967295) {
        Some(v) => v,
        None => {
            return None;
        },
    };
    let amount: Option<Money> = if c3 < n {
        let (a_lo, a_hi) = trim_range(line, c3 + 1, n);
        if a_lo == a_hi {
            proof {
                assert(trim(amt).len() == 0);
            }
            None
        } else {
            match parse_money_range(line, a_lo, a_hi) {
                Some(v) => Some(Money::from_raw(v)),
                None => {
                    return None;
                },
            }
        }
    } else {
        proof {
            assert(trim(amt) =~= Seq::<u8>::empty());
        }
        None
    };
    let tx = Tx { client: client_v as u16, id: id_v as u32, amount };
    let kw_dep: Vec<u8> = vec![100u8, 101, 112, 111, 115, 105, 116];
    let kw_wit: Vec<u8> = vec![119u8, 105, 116, 104, 100, 114, 97, 119, 97, 108];
    let kw_dis: Vec<u8> = vec![100u8, 105, 115, 112, 117, 116, 101];
    let kw_res: Vec<u8> = vec![114u8, 101, 115, 111, 108, 118, 101];
    let kw_chb: Vec<u8> = vec![99u8, 104, 97, 114, 103, 101, 98, 97, 99, 107];
    proof {
        assert(kw_dep@ =~= kw_deposit());
        assert(kw_wit@ =~= kw_withdrawal());
        assert(kw_dis@ =~= kw_dispute());
        assert(kw_res@ =~= kw_resolve());
        assert(kw_chb@ =~= kw_chargeback());
    }
    if range_eq(line, k_lo, k_hi, &kw_dep) {
        Some(Transaction::Deposit(tx))
    } else if range_eq(line, k_lo, k_hi, &kw_wit) {
        Some(Transaction::Withdrawal(tx))
    } else if range_eq(line, k_lo, k_hi, &kw_dis) {
        Some(Transaction::Dispute(tx))
    } else if range_eq(line, k_lo, k_hi, &kw_res) {
        Some(Transaction::Resolve(tx))
    } else if range_eq(line, k_lo, k_hi, &kw_chb) {
        Some(Transaction::Chargeback(tx))
    } else {
        None
    }
}

/// The column name `type`.
pub open spec fn kw_type() -> Seq<u8> {
    seq![116u8, 121, 112, 101]
}

/// The column name `client`.
pub open spec fn kw_client() -> Seq<u8> {
    seq![99u8, 108, 105, 101, 110, 116]
}

/// The column name `tx`.
pub open spec fn kw_tx() -> Seq<u8> {
    seq![116u8, 120]
}

/// The column name `amount`.
pub open spec fn kw_amount() -> Seq<u8> {
    seq![97u8, 109, 111, 117, 110, 116]
}

/// Whether a line is the expected header: exactly the four column names
/// `type`, `client`, `tx`, `amount`, comma-separated, whitespace around
/// fields tolerated.
pub open spec fn header_matches(s: Seq<u8>) -> bool {
    let r1 = after_delim(s, 44);
    let r2 = after_delim(r1, 44);
    let r3 = after_delim(r2, 44);
    &&& has_delim(s, 44)
    &&& has_delim(r1, 44)
    &&& has_delim(r2, 44)
    &&& !has_delim(r3, 44)
    &&& trim(before_delim(s, 44)) == kw_type()
    &&& trim(before_delim(r1, 44)) == kw_client()
    &&& trim(before_delim(r2, 44)) == kw_tx()
    &&& trim(r3) == kw_amount()
}

/// Check the header row of the input before any events are decoded.
#[verifier::rlimit(80)]
pub fn check_header(line: &Vec<u8>) -> (r: bool)
    ensures
        r == header_matches(line@),
{
    let ghost s = line@;
    let n = line.len();
    let c1 = find_comma(line, 0, n);
    proof {
        lemma_delim_split(s, 44, c1 as int);
    }
    if c1 == n {
        return false;
    }
    let ghost r1 = s.subrange(c1 as int + 1, n as int);
    let c2 = find_comma(line, c1 + 1, n);
    proof {
        assert forall|j: int| 0 <= j < c2 - c1 - 1 implies r1[j] != 44 by {
            assert(r1[j] == s[j + c1 + 1]);
        }
        if c2 < n {
            assert(r1[c2 - c1 - 1] == s[c2 as int]);
        }
        lemma_delim_split(r1, 44, c2 as int - c1 as int - 1);
    }
    if c2 == n {
        return false;
    }
    let ghost r2 = s.subrange(c2 as int + 1, n as int);
    proof {
        assert(after_delim(r1, 44) =~= r2);
        assert(before_delim(r1, 44) =~= s.subrange(c1 as int + 1, c2 as int));
    }
    let c3 = find_comma(line, c2 + 1, n);
    proof {
        assert forall|j: int| 0 <= j < c3 - c2 - 1 implies r2[j] != 44 by {
            assert(r2[j] == s[j + c2 + 1]);
        }
        if c3 < n {
            assert(r2[c3 - c2 - 1] == s[c3 as int]);
        }
        lemma_delim_split(r2, 44, c3 as int - c2 as int - 1);
        assert(before_delim(r2, 44) =~= s.subrange(c2 as int + 1, c3 as int));
    }
    if c3 == n {
        return false;
    }
    let ghost r3 = s.subrange(c3 as int + 1, n as int);
    proof {
        assert(after_delim(r2, 44) =~= r3);
    }
    let c4 = find_comma(line, c3 + 1, n);
    proof {
        assert forall|j: int| 0 <= j < c4 - c3 - 1 implies r3[j] != 44 by {
            assert(r3[j] == s[j + c3 + 1]);
        }
        if c4 < n {
            assert(r3[c4 - c3 - 1] == s[c4 as int]);
        }
        lemma_delim_split(r3, 44, c4 as int - c3 as int - 1);
    }
    if c4 < n {
        return false;
    }
    let (t_lo, t_hi) = trim_range(line, 0, c1);
    let (cl_lo, cl_hi) = trim_range(line, c1 + 1, c2);
    let (tx_lo, tx_hi) = trim_range(line, c2 + 1, c3);
    let (am_lo, am_hi) = trim_range(line, c3 + 1, n);
    let kw_ty: Vec<u8> = vec![116u8, 121, 112, 101];
    let kw_cl: Vec<u8> = vec![99u8, 108, 105, 101, 110, 116];
    let kw_t: Vec<u8> = vec![116u8, 120];
    let kw_am: Vec<u8> = vec![97u8, 109, 111, 117, 110, 116];
    proof {
        assert(kw_ty@ =~= kw_type());
        assert(kw_cl@ =~= kw_client());
        assert(kw_t@ =~= kw_tx());
        assert(kw_am@ =~= kw_amount());
    }
    let ok = range_eq(line, t_lo, t_hi, &kw_ty) && range_eq(line, cl_lo, cl_hi, &kw_cl)
        && range_eq(line, tx_lo, tx_hi, &kw_t) && range_eq(line, am_lo, am_hi, &kw_am);
    ok
}

} // verus!
