//! The numeric grammar. The parser consumes a greedy run of numeric-looking
//! bytes and then asks whether the run is a well-formed decimal number:
//! an optional sign, then digits with at most one dot (at least one digit),
//! then an optional exponent (`e`/`E`, optional sign, at least one digit).
//! Over the bytes the scanner can consume, this is exactly the set a
//! standard 64-bit floating-point reader accepts.

use vstd::prelude::*;

verus! {

/// An ASCII decimal digit.
pub open spec fn is_digit(b: u8) -> bool {
    48 <= b <= 57
}

/// A byte the number scanner consumes: digit, `.`, `+`, `-`, `e`, `E`.
pub open spec fn is_num_byte(b: u8) -> bool {
    is_digit(b) || b == 46 || b == 43 || b == 45 || b == 69 || b == 101
}

/// The first index in `[i, end)` holding a non-digit, or `end`.
pub open spec fn digits_end(s: Seq<u8>, i: int, end: int) -> int
    decreases end - i,
{
    if i < end && is_digit(s[i]) {
        digits_end(s, i + 1, end)
    } else {
        i
    }
}

/// The first index in `[i, end)` holding `e` or `E`, or `end`.
pub open spec fn exp_start(s: Seq<u8>, i: int, end: int) -> int
    decreases end - i,
{
    if i < end && !(s[i] == 69 || s[i] == 101) {
        exp_start(s, i + 1, end)
    } else if i < end {
        i
    } else {
        end
    }
}

/// Digits with at most one dot, and at least one digit.
pub open spec fn mantissa_valid(s: Seq<u8>, lo: int, hi: int) -> bool {
    let d1 = digits_end(s, lo, hi);
    if d1 == hi {
        d1 > lo
    } else if s[d1] == 46 {
        let d2 = digits_end(s, d1 + 1, hi);
        d2 == hi && (d1 > lo || d2 > d1 + 1)
    } else {
        false
    }
}

/// An optional sign followed by at least one digit, and nothing else.
pub open spec fn exp_valid(s: Seq<u8>, lo: int, hi: int) -> bool {
    let l2 = if lo < hi && (s[lo] == 43 || s[lo] == 45) {
        lo + 1
    } else {
        lo
    };
    l2 < hi && digits_end(s, l2, hi) == hi
}

/// Whether `s[lo..hi]` is a well-formed decimal number.
pub open spec fn num_valid(s: Seq<u8>, lo: int, hi: int) -> bool {
    let l1 = if lo < hi && (s[lo] == 43 || s[lo] == 45) {
        lo + 1
    } else {
        lo
    };
    let e = exp_start(s, l1, hi);
    mantissa_valid(s, l1, e) && (e == hi || exp_valid(s, e + 1, hi))
}

/// The digit scan stays inside its window.
pub proof fn lemma_digits_end_bounds(s: Seq<u8>, i: int, end: int)
    requires
        0 <= i <= end,
    ensures
        i <= digits_end(s, i, end) <= end,
    decreases end - i,
{
    if i < end && is_digit(s[i]) {
        lemma_digits_end_bounds(s, i + 1, end);
    }
}

/// The exponent scan stays inside its window.
pub proof fn lemma_exp_start_bounds(s: Seq<u8>, i: int, end: int)
    requires
        0 <= i <= end,
    ensures
        i <= exp_start(s, i, end) <= end,
    decreases end - i,
{
    if i < end && !(s[i] == 69 || s[i] == 101) {
        lemma_exp_start_bounds(s, i + 1, end);
    }
}

/// Scanning for the digit end inside a window is scanning the cut-out bytes.
pub proof fn lemma_digits_end_shift(s: Seq<u8>, lo: int, hi: int, i: int, end: int)
    requires
        0 <= lo <= i <= end <= hi <= s.len(),
    ensures
        digits_end(s, i, end) == digits_end(s.subrange(lo, hi), i - lo, end - lo) + lo,
    decreases end - i,
{
    let t = s.subrange(lo, hi);
    if i < end {
        assert(t[i - lo] == s[i]);
        if is_digit(s[i]) {
            lemma_digits_end_shift(s, lo, hi, i + 1, end);
        }
    }
}

/// Scanning for the exponent letter inside a window is scanning the cut-out
/// bytes.
pub proof fn lemma_exp_start_shift(s: Seq<u8>, lo: int, hi: int, i: int, end: int)
    requires
        0 <= lo <= i <= end <= hi <= s.len(),
    ensures
        exp_start(s, i, end) == exp_start(s.subrange(lo, hi), i - lo, end - lo) + lo,
    decreases end - i,
{
    let t = s.subrange(lo, hi);
    if i < end {
        assert(t[i - lo] == s[i]);
        if !(s[i] == 69 || s[i] == 101) {
            lemma_exp_start_shift(s, lo, hi, i + 1, end);
        }
    }
}

/// Whether a byte run is a well-formed number does not depend on what stands
/// around it.
pub proof fn lemma_num_valid_shift(s: Seq<u8>, lo: int, hi: int)
    requires
        0 <= lo <= hi <= s.len(),
    ensures
        num_valid(s, lo, hi) == num_valid(s.subrange(lo, hi), 0, hi - lo),
{
    let t = s.subrange(lo, hi);
    if lo < hi {
        assert(t[0] == s[lo]);
    }
    let l1 = if lo < hi && (s[lo] == 43 || s[lo] == 45) {
        lo + 1
    } else {
        lo
    };
    lemma_exp_start_bounds(s, l1, hi);
    lemma_exp_start_shift(s, lo, hi, l1, hi);
    let e = exp_start(s, l1, hi);
    // the mantissa window
    lemma_digits_end_bounds(s, l1, e);
    lemma_digits_end_shift(s, lo, hi, l1, e);
    let d1 = digits_end(s, l1, e);
    if d1 < e {
        assert(t[d1 - lo] == s[d1]);
        lemma_digits_end_shift(s, lo, hi, d1 + 1, e);
    }
    // the exponent window
    if e < hi {
        let lo2 = e + 1;
        if lo2 < hi {
            assert(t[lo2 - lo] == s[lo2]);
        }
        let l2 = if lo2 < hi && (s[lo2] == 43 || s[lo2] == 45) {
            lo2 + 1
        } else {
            lo2
        };
        lemma_digits_end_shift(s, lo, hi, l2, hi);
    }
}

/// Decides `is_num_byte`.
pub fn num_byte(b: u8) -> (r: bool)
    ensures
        r == is_num_byte(b),
{
    (48 <= b && b <= 57) || b == 46 || b == 43 || b == 45 || b == 69 || b == 101
}

/// Scans past digits, starting at `i`.
fn scan_digits(s: &[u8], i: usize, end: usize) -> (r: usize)
    requires
        i <= end <= s@.len(),
    ensures
        i <= r <= end,
        r == digits_end(s@, i as int, end as int),
{
    let mut j = i;
    loop
        invariant
            i <= j <= end <= s@.len(),
            digits_end(s@, i as int, end as int) == digits_end(s@, j as int, end as int),
        decreases end - j,
    {
        if j == end {
            return j;
        }
        let b = s[j];
        if !(48 <= b && b <= 57) {
            return j;
        }
        j += 1;
    }
}

/// Scans for the first `e` or `E`, starting at `i`.
fn scan_exp_start(s: &[u8], i: usize, end: usize) -> (r: usize)
    requires
        i <= end <= s@.len(),
    ensures
        i <= r <= end,
        r == exp_start(s@, i as int, end as int),
{
    let mut j = i;
    loop
        invariant
            i <= j <= end <= s@.len(),
            exp_start(s@, i as int, end as int) == exp_start(s@, j as int, end as int),
        decreases end - j,
    {
        if j == end {
            return j;
        }
        let b = s[j];
        if b == 69 || b == 101 {
            return j;
        }
        j += 1;
    }
}

/// Decides whether the byte run `s[lo..hi]` is a well-formed number.
pub fn check_number(s: &[u8], lo: usize, hi: usize) -> (r: bool)
    requires
        lo <= hi <= s@.len(),
    ensures
        r == num_valid(s@, lo as int, hi as int),
{
    let l1 = if lo < hi && (s[lo] == 43 || s[lo] == 45) {
        lo + 1
    } else {
        lo
    };
    let e = scan_exp_start(s, l1, hi);
    // mantissa: s[l1..e]
    let d1 = scan_digits(s, l1, e);
    let mantissa_ok = if d1 == e {
        d1 > l1
    } else if s[d1] == 46 {
        let d2 = scan_digits(s, d1 + 1, e);
        d2 == e && (d1 > l1 || d2 > d1 + 1)
    } else {
        false
    };
    if !mantissa_ok {
        return false;
    }
    if e == hi {
        return true;
    }
    // exponent: s[e + 1..hi]
    let lo2 = e + 1;
    let l2 = if lo2 < hi && (s[lo2] == 43 || s[lo2] == 45) {
        lo2 + 1
    } else {
        lo2
    };
    if l2 >= hi {
        return false;
    }
    let d3 = scan_digits(s, l2, hi);
    d3 == hi
}

} // verus!
