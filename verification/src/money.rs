//! Fixed-point money: a signed amount with exactly four fractional decimal
//! digits, stored as the underlying integer number of ten-thousandths.

use vstd::prelude::*;
use crate::digits::{
    after_delim, all_digits, before_delim, dec_digits, digits_val, is_digit, lemma_digits_val_bound,
    lemma_digits_val_pad_zeros, lemma_delim_split, parse_digits_range, pow10, push_decimal,
    reveal_pow10_small, trim, trim_range,
};

verus! {

/// Largest magnitude, in ten-thousandths, that an amount read from the
/// input may have: fourteen integer digits and four fractional digits.
pub const AMOUNT_LIMIT: i64 = 999_999_999_999_999_999;

/// A signed fixed-point decimal with four fractional digits.
/// The stored integer is the amount in ten-thousandths.
#[derive(Clone, Copy, PartialEq, Eq, Structural, Debug)]
pub struct Money {
    raw: i64,
}

impl View for Money {
    type V = int;

    closed spec fn view(&self) -> int {
        self.raw as int
    }
}

impl Money {
    /// The zero amount.
    pub fn zero() -> (m: Money)
        ensures
            m@ == 0,
    {
        Money { raw: 0 }
    }

    /// The amount of `raw` ten-thousandths.
    pub fn from_raw(raw: i64) -> (m: Money)
        ensures
            m@ == raw,
            m == Money::from_int(raw as int),
    {
        Money { raw }
    }

    /// The amount as a count of ten-thousandths.
    pub fn raw(self) -> (r: i64)
        ensures
            r == self@,
    {
        self.raw
    }

    /// Whether the amount is strictly negative.
    pub fn is_negative(self) -> (r: bool)
        ensures
            r == (self@ < 0),
    {
        self.raw < 0
    }

    /// Whether the amount is zero.
    pub fn is_zero(self) -> (r: bool)
        ensures
            r == (self@ == 0),
    {
        self.raw == 0
    }

    /// Exact sum, or `None` when it does not fit the representation.
    pub fn add(self, other: Money) -> (r: Option<Money>)
        ensures
            match r {
                Some(s) => s@ == self@ + other@,
                None => !(i64::MIN <= self@ + other@ <= i64::MAX),
            },
    {
        match self.raw.checked_add(other.raw) {
            Some(s) => Some(Money { raw: s }),
            None => None,
        }
    }

    /// Exact difference, or `None` when it does not fit the representation.
    pub fn sub(self, other: Money) -> (r: Option<Money>)
        ensures
            match r {
                Some(s) => s@ == self@ - other@,
                None => !(i64::MIN <= self@ - other@ <= i64::MAX),
            },
    {
        match self.raw.checked_sub(other.raw) {
            Some(s) => Some(Money { raw: s }),
            None => None,
        }
    }

    /// Whether `self` is strictly below `other`.
    pub fn lt(self, other: Money) -> (r: bool)
        ensures
            r == (self@ < other@),
    {
        self.raw < other.raw
    }

    /// The amount of `v` ten-thousandths, at the specification level.
    pub closed spec fn from_int(v: int) -> Money {
        Money { raw: v as i64 }
    }

    /// `from_int` denotes exactly its argument while it fits.
    pub proof fn lemma_from_int(v: int)
        requires
            i64::MIN <= v <= i64::MAX,
        ensures
            Money::from_int(v)@ == v,
    {
    }

    /// Read an amount from decimal text: an optional sign after optional
    /// whitespace, digits with an optional decimal point, at most
    /// fourteen integer digits; fractional digits beyond the fourth are
    /// truncated toward zero.
    pub fn parse(text: &Vec<u8>) -> (r: Option<Money>)
        ensures
            match r {
                Some(m) => spec_parse_money(text@) == Some(m@) && m == Money::from_int(
                    spec_parse_money(text@).unwrap(),
                ),
                None => spec_parse_money(text@) is None,
            },
    {
        match parse_money_range(text, 0, text.len()) {
            Some(v) => {
                proof {
                    assert(text@.subrange(0, text@.len() as int) =~= text@);
                }
                Some(Money { raw: v })
            },
            None => {
                proof {
                    assert(text@.subrange(0, text@.len() as int) =~= text@);
                }
                None
            },
        }
    }

    /// Write the amount with a sign for negative values, at least one
    /// integer digit and exactly four fractional digits.
    pub fn format(self) -> (out: Vec<u8>)
        ensures
            out@ == money_text(self@),
    {
        let raw = self.raw;
        let mag: u64 = if raw == i64::MIN {
            9223372036854775808u64
        } else if raw < 0 {
            (-raw) as u64
        } else {
            raw as u64
        };
        let mut out: Vec<u8> = Vec::new();
        if raw < 0 {
            out.push(45);
        }
        push_decimal(mag / 10000, &mut out);
        out.push(46);
        let r = mag % 10000;
        out.push(48 + (r / 1000) as u8);
        out.push(48 + ((r / 100) % 10) as u8);
        out.push(48 + ((r / 10) % 10) as u8);
        out.push(48 + (r % 10) as u8);
        proof {
            assert(mag as int == if self@ < 0 {
                -self@
            } else {
                self@
            });
            assert(out@ =~= money_text(self@));
        }
        out
    }
}

/// The four fractional digit bytes of a remainder `r` below ten
/// thousand.
pub open spec fn frac4_text(r: int) -> Seq<u8> {
    seq![
        (48 + r / 1000) as u8,
        (48 + (r / 100) % 10) as u8,
        (48 + (r / 10) % 10) as u8,
        (48 + r % 10) as u8,
    ]
}

/// The canonical text of the amount of `v` ten-thousandths: an optional
/// minus sign, the integer digits without leading zeros, a point, four
/// fractional digits.
pub open spec fn money_text(v: int) -> Seq<u8> {
    let mag = if v < 0 {
        -v
    } else {
        v
    };
    let sign: Seq<u8> = if v < 0 {
        seq![45u8]
    } else {
        Seq::empty()
    };
    sign + dec_digits((mag / 10000) as nat) + seq![46u8] + frac4_text(mag % 10000)
}

/// The first four fractional digit bytes, padded with zeros on the
/// right.
pub open spec fn pad4(f: Seq<u8>) -> Seq<u8> {
    if f.len() >= 4 {
        f.subrange(0, 4)
    } else {
        f + Seq::new((4 - f.len()) as nat, |i: int| 48u8)
    }
}

/// What money text denotes, in ten-thousandths: after trimming, an
/// optional sign, then digits with at most one decimal point and at
/// least one digit in all; at most fourteen integer digits; fractional
/// digits beyond the fourth are dropped, truncating toward zero.
pub open spec fn spec_parse_money(s: Seq<u8>) -> Option<int> {
    let t = trim(s);
    let neg = t.len() > 0 && t[0] == 45;
    let signed = t.len() > 0 && (t[0] == 43 || t[0] == 45);
    let b = if signed {
        t.subrange(1, t.len() as int)
    } else {
        t
    };
    let ip = before_delim(b, 46);
    let fp = after_delim(b, 46);
    if all_digits(ip) && all_digits(fp) && ip.len() + fp.len() >= 1 && digits_val(ip)
        <= 99_999_999_999_999 {
        let mag = digits_val(ip) * 10000 + digits_val(pad4(fp));
        Some(
            if neg {
                -mag
            } else {
                mag
            },
        )
    } else {
        None
    }
}

/// Read `line[lo..hi]` as money text, in ten-thousandths.
#[verifier::rlimit(80)]
pub fn parse_money_range(line: &Vec<u8>, lo: usize, hi: usize) -> (r: Option<i64>)
    requires
        lo <= hi <= line@.len(),
    ensures
        match r {
            Some(v) => spec_parse_money(line@.subrange(lo as int, hi as int)) == Some(v as int),
            None => spec_parse_money(line@.subrange(lo as int, hi as int)) is None,
        },
{
    let ghost s0 = line@.subrange(lo as int, hi as int);
    let (t_lo, t_hi) = trim_range(line, lo, hi);
    let ghost t = trim(s0);
    let mut a = t_lo;
    let mut neg = false;
    if a < t_hi {
        let c = line[a];
        if c == 45 {
            neg = true;
            a += 1;
        } else if c == 43 {
            a += 1;
        }
    }
    let ghost b = line@.subrange(a as int, t_hi as int);
    proof {
        assert(t == line@.subrange(t_lo as int, t_hi as int));
        if a != t_lo {
            assert(b =~= t.subrange(1, t.len() as int));
        }
    }
    // locate the decimal point
    let mut d: usize = a;
    while d < t_hi
        invariant
            a <= d <= t_hi <= line@.len(),
            forall|j: int| a <= j < d ==> line@[j] != 46,
        ensures
            a <= d <= t_hi,
            forall|j: int| a <= j < d ==> line@[j] != 46,
            d < t_hi ==> line@[d as int] == 46,
        decreases t_hi - d,
    {
        if line[d] == 46 {
            break ;
        }
        d += 1;
    }
    proof {
        lemma_delim_split(b, 46, d as int - a as int);
        assert(before_delim(b, 46) =~= line@.subrange(a as int, d as int));
        if d < t_hi {
            assert(after_delim(b, 46) =~= line@.subrange(d as int + 1, t_hi as int));
        }
    }
    let ghost ip = before_delim(b, 46);
    let ghost fp = after_delim(b, 46);
    // at least one digit in all
    let digits_before = d - a;
    let digits_after: usize = if d < t_hi {
        t_hi - d - 1
    } else {
        0
    };
    if digits_before + digits_after == 0 {
        proof {
            assert(ip.len() == 0);
            assert(fp.len() == 0);
            assert(spec_parse_money(s0) is None);
        }
        return None;
    }
    // integer part
    let int_val: u64 = if a == d {
        0
    } else {
        match parse_digits_range(line, a, d, 99_999_999_999_999) {
            Some(v) => v,
            None => {
                proof {
                    if all_digits(ip) {
                        lemma_digits_val_bound(ip);
                    }
                    assert(spec_parse_money(s0) is None);
                }
                return None;
            },
        }
    };
    proof {
        if a == d {
            assert(ip =~= Seq::<u8>::empty());
        }
    }
    // fractional part: value of the first four digits, the rest checked
    let mut frac_scaled: u64 = 0;
    if d < t_hi {
        let fstart = d + 1;
        let flen = t_hi - fstart;
        let e = if flen > 4 {
            fstart + 4
        } else {
            t_hi
        };
        let v4: u64 = if fstart == e {
            0
        } else {
            match parse_digits_range(line, fstart, e, 9999) {
                Some(v) => v,
                None => {
                    proof {
                        let head = line@.subrange(fstart as int, e as int);
                        if all_digits(head) {
                            lemma_digits_val_bound(head);
                            crate::digits::lemma_pow10_increases(head.len(), 4);
                            reveal_pow10_small();
                            assert(digits_val(head) <= 9999);
                        }
                        assert(!all_digits(head));
                        let w = choose|w: int| 0 <= w < head.len() && !is_digit(#[trigger] head[w]);
                        assert(fp[w] == head[w]);
                        assert(!all_digits(fp));
                    }
                    return None;
                },
            }
        };
        let mut q = e;
        while q < t_hi
            invariant
                fstart <= e <= q <= t_hi <= line@.len(),
                fp == line@.subrange(fstart as int, t_hi as int),
                forall|j: int| e <= j < q ==> is_digit(#[trigger] line@[j]),
            ensures
                e <= q <= t_hi,
                forall|j: int| e <= j < q ==> is_digit(#[trigger] line@[j]),
                q < t_hi ==> !is_digit(line@[q as int]),
            decreases t_hi - q,
        {
            let c = line[q];
            if c < 48 || c > 57 {
                break ;
            }
            q += 1;
        }
        if q < t_hi {
            proof {
                assert(fp[q as int - fstart as int] == line@[q as int]);
                assert(!all_digits(fp));
                assert(spec_parse_money(s0) is None);
            }
            return None;
        }
        let scale: u64 = if flen >= 4 {
            1
        } else if flen == 3 {
            10
        } else if flen == 2 {
            100
        } else if flen == 1 {
            1000
        } else {
            10000
        };
        frac_scaled = v4 * scale;
        proof {
            reveal_pow10_small();
            assert(all_digits(fp)) by {
                assert(forall|j: int|
                    0 <= j < fp.len() ==> fp[j] == #[trigger] line@[j + fstart]);
            }
            if flen >= 4 {
                assert(pad4(fp) =~= line@.subrange(fstart as int, e as int));
                assert(frac_scaled as int == digits_val(pad4(fp)));
            } else {
                assert(fp =~= line@.subrange(fstart as int, e as int));
                lemma_digits_val_pad_zeros(fp, (4 - fp.len()) as nat);
                if fstart == e {
                    assert(fp =~= Seq::<u8>::empty());
                }
                assert(v4 as int == digits_val(fp));
                assert(scale as int == pow10((4 - fp.len()) as nat));
                assert(frac_scaled as int == digits_val(pad4(fp)));
            }
            lemma_digits_val_bound(pad4(fp));
            assert(pad4(fp).len() == 4);
        }
    } else {
        proof {
            assert(fp =~= Seq::<u8>::empty());
            assert(pad4(fp) =~= Seq::new(4, |i: int| 48u8));
            crate::digits::lemma_digits_val_zeros(pad4(fp));
        }
    }
    proof {
        reveal_pow10_small();
        assert(frac_scaled < 10000);
    }
    let mag: u64 = int_val * 10000 + frac_scaled;
    if neg {
        Some(-(mag as i64))
    } else {
        Some(mag as i64)
    }
}

} // verus!
