//! Decimal digit strings: their numeric value, bounds, formatting, and
//! the splitting of byte sequences at a delimiter.

use vstd::prelude::*;

verus! {

/// Whether `b` is an ASCII decimal digit.
pub open spec fn is_digit(b: u8) -> bool {
    48 <= b <= 57
}

/// The numeric value of one digit byte.
pub open spec fn digit_val(b: u8) -> int {
    b - 48
}

/// Whether every byte of `s` is a digit.
pub open spec fn all_digits(s: Seq<u8>) -> bool {
    forall|i: int| 0 <= i < s.len() ==> is_digit(#[trigger] s[i])
}

/// The number a digit string denotes, most significant digit first.
pub open spec fn digits_val(s: Seq<u8>) -> int
    decreases s.len(),
{
    if s.len() == 0 {
        0
    } else {
        digits_val(s.drop_last()) * 10 + digit_val(s.last())
    }
}

/// Ten to the `n`.
pub open spec fn pow10(n: nat) -> int
    decreases n,
{
    if n == 0 {
        1
    } else {
        10 * pow10((n - 1) as nat)
    }
}

/// A digit string's value is bounded by ten to its length.
pub proof fn lemma_digits_val_bound(s: Seq<u8>)
    requires
        all_digits(s),
    ensures
        0 <= digits_val(s) < pow10(s.len()),
    decreases s.len(),
{
    if s.len() > 0 {
        lemma_digits_val_bound(s.drop_last());
    }
}

/// A digit string that starts with a nonzero digit is at least ten to
/// one less than its length.
pub proof fn lemma_digits_val_lower(s: Seq<u8>)
    requires
        all_digits(s),
        s.len() > 0,
        s[0] != 48,
    ensures
        digits_val(s) >= pow10((s.len() - 1) as nat),
    decreases s.len(),
{
    if s.len() == 1 {
        assert(is_digit(s[0]));
        assert(s.drop_last() =~= Seq::empty());
        assert(digits_val(s.drop_last()) == 0);
        assert(digits_val(s) == digit_val(s[0]));
        assert(pow10(0) == 1);
    } else {
        let dl = s.drop_last();
        assert(dl[0] == s[0]);
        assert(all_digits(dl)) by {
            assert(forall|i: int| 0 <= i < dl.len() ==> dl[i] == #[trigger] s[i]);
        }
        lemma_digits_val_lower(dl);
        assert(is_digit(s[s.len() - 1]));
        assert(digits_val(s) == digits_val(dl) * 10 + digit_val(s.last()));
        assert(pow10((s.len() - 1) as nat) == 10 * pow10((s.len() - 2) as nat));
        assert(digits_val(dl) * 10 >= pow10((s.len() - 2) as nat) * 10);
    }
}

/// A string of zero digits denotes zero.
pub proof fn lemma_digits_val_zeros(s: Seq<u8>)
    requires
        forall|i: int| 0 <= i < s.len() ==> #[trigger] s[i] == 48,
    ensures
        digits_val(s) == 0,
    decreases s.len(),
{
    if s.len() > 0 {
        lemma_digits_val_zeros(s.drop_last());
    }
}

/// Leading zeros do not change a digit string's value.
pub proof fn lemma_digits_val_skip_zeros(s: Seq<u8>, k: int)
    requires
        0 <= k <= s.len(),
        forall|i: int| 0 <= i < k ==> #[trigger] s[i] == 48,
    ensures
        digits_val(s.subrange(k, s.len() as int)) == digits_val(s),
    decreases s.len(),
{
    if k == s.len() {
        lemma_digits_val_zeros(s);
        assert(s.subrange(k, s.len() as int) =~= Seq::empty());
    } else {
        let rest = s.subrange(k, s.len() as int);
        if s.len() > 0 {
            assert(rest.len() > 0);
            assert(rest.drop_last() =~= s.drop_last().subrange(k, s.len() as int - 1));
            assert(rest.last() == s.last());
            lemma_digits_val_skip_zeros(s.drop_last(), k);
        }
    }
}

/// Appending zero digits multiplies the value by ten per digit.
pub proof fn lemma_digits_val_pad_zeros(s: Seq<u8>, k: nat)
    ensures
        digits_val(s + Seq::new(k, |i: int| 48u8)) == digits_val(s) * pow10(k),
    decreases k,
{
    let zeros = Seq::new(k, |i: int| 48u8);
    if k == 0 {
        assert(s + zeros =~= s);
    } else {
        let padded = s + zeros;
        assert(padded.len() == s.len() + k);
        assert(padded.last() == 48);
        assert(padded.drop_last() =~= s + Seq::new((k - 1) as nat, |i: int| 48u8));
        lemma_digits_val_pad_zeros(s, (k - 1) as nat);
        assert(digits_val(s) * pow10((k - 1) as nat) * 10 == digits_val(s) * (pow10(
            (k - 1) as nat,
        ) * 10)) by (nonlinear_arith);
    }
}

/// The decimal text of `n`: no leading zeros, a single `0` for zero.
pub open spec fn dec_digits(n: nat) -> Seq<u8>
    decreases n,
{
    if n < 10 {
        seq![(48 + n) as u8]
    } else {
        dec_digits(n / 10).push((48 + n % 10) as u8)
    }
}

/// Append the decimal text of `n`.
pub fn push_decimal(n: u64, out: &mut Vec<u8>)
    ensures
        final(out)@ == old(out)@ + dec_digits(n as nat),
    decreases n,
{
    if n >= 10 {
        push_decimal(n / 10, out);
    }
    out.push(48 + (n % 10) as u8);
    proof {
        assert(out@ =~= old(out)@ + dec_digits(n as nat));
    }
}

/// What a bounded read of a digit range yields: the denoted number when
/// the range is non-empty, all digits, and within `max`; nothing
/// otherwise.
pub open spec fn spec_parse_digits(s: Seq<u8>, max: int) -> Option<u64> {
    if s.len() >= 1 && all_digits(s) && 0 <= digits_val(s) <= max {
        Some(digits_val(s) as u64)
    } else {
        None
    }
}

/// Read `line[lo..hi]` as a decimal number of at most `max`.
pub fn parse_digits_range(line: &Vec<u8>, lo: usize, hi: usize, max: u64) -> (r: Option<u64>)
    requires
        lo <= hi <= line@.len(),
        max < 10_000_000_000_000_000_000,
    ensures
        r == spec_parse_digits(line@.subrange(lo as int, hi as int), max as int),
{
    let ghost s = line@.subrange(lo as int, hi as int);
    if lo == hi {
        return None;
    }
    // any non-digit rejects the whole range
    let mut i: usize = lo;
    while i < hi
        invariant
            lo <= i <= hi <= line@.len(),
            s == line@.subrange(lo as int, hi as int),
            forall|j: int| 0 <= j < i - lo ==> is_digit(#[trigger] s[j]),
        decreases hi - i,
    {
        let b = line[i];
        if b < 48 || b > 57 {
            proof {
                assert(s[i - lo as int] == b);
                assert(!all_digits(s));
            }
            return None;
        }
        i += 1;
    }
    proof {
        assert(all_digits(s));
    }
    // skip leading zeros
    let mut z: usize = lo;
    while z < hi && line[z] == 48
        invariant
            lo <= z <= hi <= line@.len(),
            s == line@.subrange(lo as int, hi as int),
            forall|j: int| 0 <= j < z - lo ==> #[trigger] s[j] == 48,
        decreases hi - z,
    {
        z += 1;
    }
    proof {
        lemma_digits_val_skip_zeros(s, z as int - lo as int);
        assert(s.subrange(z as int - lo as int, s.len() as int) =~= line@.subrange(
            z as int,
            hi as int,
        ));
    }
    let ghost stripped = line@.subrange(z as int, hi as int);
    proof {
        assert forall|j: int| 0 <= j < stripped.len() implies is_digit(#[trigger] stripped[j]) by {
            assert(stripped[j] == s[j + z - lo]);
        }
        assert(pow10(19) == 10_000_000_000_000_000_000) by {
            reveal_with_fuel(pow10, 21);
        }
        assert(pow10(18) == 1_000_000_000_000_000_000) by {
            reveal_with_fuel(pow10, 21);
        }
    }
    if hi - z > 19 {
        proof {
            assert(stripped[0] == s[z as int - lo as int]);
            assert(stripped[0] != 48);
            lemma_digits_val_lower(stripped);
            assert(pow10((stripped.len() - 1) as nat) >= pow10(19)) by {
                lemma_pow10_increases(19, (stripped.len() - 1) as nat);
            }
        }
        return None;
    }
    // accumulate the at most 19 remaining digits
    let mut acc: u64 = 0;
    let mut k: usize = z;
    while k < hi
        invariant
            z <= k <= hi <= line@.len(),
            s == line@.subrange(lo as int, hi as int),
            stripped == line@.subrange(z as int, hi as int),
            lo <= z <= hi,
            all_digits(s),
            hi - z <= 19,
            forall|j: int| 0 <= j < stripped.len() ==> stripped[j] == #[trigger] s[j + z - lo],
            all_digits(stripped),
            pow10(18) == 1_000_000_000_000_000_000,
            acc as int == digits_val(stripped.subrange(0, k as int - z as int)),
        decreases hi - k,
    {
        proof {
            assert(line@[k as int] == s[k as int - lo as int]);
            assert(is_digit(s[k as int - lo as int]));
            let pre = stripped.subrange(0, k as int - z as int);
            lemma_digits_val_bound(pre);
            lemma_pow10_increases(pre.len(), 18);
        }
        let d = line[k] - 48;
        let big = acc * 10;
        let next = big + d as u64;
        proof {
            let pre = stripped.subrange(0, k as int - z as int);
            let ext = stripped.subrange(0, k as int - z as int + 1);
            assert(ext.drop_last() =~= pre);
            assert(ext.last() == s[k as int - lo as int]);
        }
        acc = next;
        k += 1;
    }
    proof {
        assert(stripped.subrange(0, stripped.len() as int) =~= stripped);
        lemma_digits_val_skip_zeros(s, z as int - lo as int);
        assert(s.subrange(z as int - lo as int, s.len() as int) =~= stripped);
    }
    if acc > max {
        return None;
    }
    Some(acc)
}

/// Powers of ten grow with the exponent.
pub proof fn lemma_pow10_increases(a: nat, b: nat)
    requires
        a <= b,
    ensures
        pow10(a) <= pow10(b),
    decreases b,
{
    if a < b {
        lemma_pow10_increases(a, (b - 1) as nat);
        lemma_pow10_positive((b - 1) as nat);
    }
}

/// Powers of ten are positive.
pub proof fn lemma_pow10_positive(n: nat)
    ensures
        pow10(n) >= 1,
    decreases n,
{
    if n > 0 {
        lemma_pow10_positive((n - 1) as nat);
    }
}

/// The small powers of ten, spelled out.
pub proof fn reveal_pow10_small()
    ensures
        pow10(0) == 1,
        pow10(1) == 10,
        pow10(2) == 100,
        pow10(3) == 1000,
        pow10(4) == 10000,
        pow10(14) == 100_000_000_000_000,
        pow10(18) == 1_000_000_000_000_000_000,
{
    reveal_with_fuel(pow10, 20);
}

/// The bytes of `s` before the first `d`, or all of `s` without one.
pub open spec fn before_delim(s: Seq<u8>, d: u8) -> Seq<u8>
    decreases s.len(),
{
    if s.len() == 0 || s[0] == d {
        Seq::empty()
    } else {
        seq![s[0]] + before_delim(s.subrange(1, s.len() as int), d)
    }
}

/// The bytes of `s` after the first `d`, or nothing without one.
pub open spec fn after_delim(s: Seq<u8>, d: u8) -> Seq<u8>
    decreases s.len(),
{
    if s.len() == 0 {
        Seq::empty()
    } else if s[0] == d {
        s.subrange(1, s.len() as int)
    } else {
        after_delim(s.subrange(1, s.len() as int), d)
    }
}

/// Whether `s` holds the byte `d`.
pub open spec fn has_delim(s: Seq<u8>, d: u8) -> bool {
    exists|i: int| 0 <= i < s.len() && s[i] == d
}

/// Splitting at the first occurrence of the delimiter, located at `j`
/// (or absent when `j` is the length).
pub proof fn lemma_delim_split(s: Seq<u8>, d: u8, j: int)
    requires
        0 <= j <= s.len(),
        forall|i: int| 0 <= i < j ==> s[i] != d,
        j < s.len() ==> s[j] == d,
    ensures
        before_delim(s, d) == s.subrange(0, j),
        j < s.len() ==> has_delim(s, d) && after_delim(s, d) == s.subrange(j + 1, s.len() as int),
        j == s.len() ==> !has_delim(s, d) && after_delim(s, d) == Seq::<u8>::empty(),
    decreases s.len(),
{
    if s.len() == 0 {
        assert(before_delim(s, d) =~= s.subrange(0, j));
        assert(after_delim(s, d) =~= Seq::<u8>::empty());
    } else if j == 0 {
        assert(before_delim(s, d) =~= s.subrange(0, 0));
    } else {
        let rest = s.subrange(1, s.len() as int);
        lemma_delim_split(rest, d, j - 1);
        assert(before_delim(s, d) =~= s.subrange(0, j)) by {
            assert(rest.subrange(0, j - 1) =~= s.subrange(1, j));
            assert(before_delim(s, d) == seq![s[0]] + s.subrange(1, j));
        }
        if j < s.len() {
            assert(rest.subrange(j, rest.len() as int) =~= s.subrange(j + 1, s.len() as int));
        } else {
            assert(!has_delim(s, d)) by {
                if has_delim(s, d) {
                    let w = choose|w: int| 0 <= w < s.len() && s[w] == d;
                    assert(s[w] != d);
                }
            }
        }
    }
}

/// Whether the byte is field whitespace: space, tab or carriage return.
pub open spec fn is_ws(b: u8) -> bool {
    b == 32 || b == 9 || b == 13
}

/// `s` without leading whitespace.
pub open spec fn trim_front(s: Seq<u8>) -> Seq<u8>
    decreases s.len(),
{
    if s.len() > 0 && is_ws(s[0]) {
        trim_front(s.subrange(1, s.len() as int))
    } else {
        s
    }
}

/// `s` without trailing whitespace.
pub open spec fn trim_back(s: Seq<u8>) -> Seq<u8>
    decreases s.len(),
{
    if s.len() > 0 && is_ws(s.last()) {
        trim_back(s.drop_last())
    } else {
        s
    }
}

/// `s` without leading and trailing whitespace.
pub open spec fn trim(s: Seq<u8>) -> Seq<u8> {
    trim_back(trim_front(s))
}

/// Dropping exactly the leading whitespace gives `trim_front`.
pub proof fn lemma_trim_front(s: Seq<u8>, k: int)
    requires
        0 <= k <= s.len(),
        forall|i: int| 0 <= i < k ==> is_ws(#[trigger] s[i]),
        k < s.len() ==> !is_ws(s[k]),
    ensures
        trim_front(s) == s.subrange(k, s.len() as int),
    decreases s.len(),
{
    if k == 0 {
        assert(trim_front(s) =~= s.subrange(0, s.len() as int));
    } else {
        let rest = s.subrange(1, s.len() as int);
        lemma_trim_front(rest, k - 1);
        assert(rest.subrange(k - 1, rest.len() as int) =~= s.subrange(k, s.len() as int));
    }
}

/// Dropping exactly the trailing whitespace gives `trim_back`.
pub proof fn lemma_trim_back(s: Seq<u8>, h: int)
    requires
        0 <= h <= s.len(),
        forall|i: int| h <= i < s.len() ==> is_ws(#[trigger] s[i]),
        h > 0 ==> !is_ws(s[h - 1]),
    ensures
        trim_back(s) == s.subrange(0, h),
    decreases s.len(),
{
    if h == s.len() {
        if s.len() > 0 {
            assert(!is_ws(s.last()));
        }
        assert(trim_back(s) =~= s.subrange(0, h));
    } else {
        assert(is_ws(s.last()));
        lemma_trim_back(s.drop_last(), h);
    }
}

/// Locate `trim(line[lo..hi])` inside the line: the subrange from the
/// first non-whitespace byte to just past the last one.
pub fn trim_range(line: &Vec<u8>, lo: usize, hi: usize) -> (r: (usize, usize))
    requires
        lo <= hi <= line@.len(),
    ensures
        lo <= r.0 <= r.1 <= hi,
        line@.subrange(r.0 as int, r.1 as int) == trim(line@.subrange(lo as int, hi as int)),
{
    let ghost s = line@.subrange(lo as int, hi as int);
    let mut a: usize = lo;
    while a < hi
        invariant
            lo <= a <= hi <= line@.len(),
            s == line@.subrange(lo as int, hi as int),
            forall|i: int| 0 <= i < a - lo ==> is_ws(#[trigger] s[i]),
        ensures
            lo <= a <= hi,
            forall|i: int| 0 <= i < a - lo ==> is_ws(#[trigger] s[i]),
            a < hi ==> !is_ws(s[a - lo]),
        decreases hi - a,
    {
        let c = line[a];
        if !(c == 32 || c == 9 || c == 13) {
            break ;
        }
        a += 1;
    }
    let mut b: usize = hi;
    while b > a
        invariant
            lo <= a <= b <= hi <= line@.len(),
            s == line@.subrange(lo as int, hi as int),
            a < hi ==> !is_ws(s[a - lo]),
            forall|i: int| b - lo <= i < s.len() ==> is_ws(#[trigger] s[i]),
        ensures
            lo <= a <= b <= hi,
            forall|i: int| b - lo <= i < s.len() ==> is_ws(#[trigger] s[i]),
            b > a ==> !is_ws(s[b - 1 - lo]),
        decreases b,
    {
        let c = line[b - 1];
        if !(c == 32 || c == 9 || c == 13) {
            break ;
        }
        b -= 1;
    }
    proof {
        lemma_trim_front(s, a as int - lo as int);
        let t = s.subrange(a as int - lo as int, s.len() as int);
        assert(t =~= line@.subrange(a as int, hi as int));
        lemma_trim_back(t, b as int - a as int);
        assert(t.subrange(0, b as int - a as int) =~= line@.subrange(a as int, b as int));
    }
    (a, b)
}

} // verus!
