//! The wire grammar's building blocks: line terminators, decimal numbers and
//! the textual grammar of doubles, each as a spec function with a verified
//! executable counterpart.

use vstd::prelude::*;

verus! {

broadcast use vstd::seq::group_seq_axioms, vstd::std_specs::vec::group_vec_axioms;

/// Carriage return, one half of the line terminator.
pub const CR: u8 = 13;

/// Line feed, the other half of the line terminator.
pub const LF: u8 = 10;

/// Upper bound on bulk payload lengths and aggregate element counts, a
/// hardening limit: a declared length or count above it is rejected as
/// malformed, and a frame beyond it is not encodable.
pub const MAX_SIZE: usize = 0x7fff_ffff;

/// A line-delimited text payload may not contain the line terminator bytes.
pub open spec fn line_ok(s: Seq<u8>) -> bool {
    forall|i: int| 0 <= i < s.len() ==> s[i] != CR && s[i] != LF
}

/// An ASCII decimal digit.
pub open spec fn is_digit(b: u8) -> bool {
    48 <= b <= 57
}

/// Every byte of `s` is an ASCII decimal digit.
pub open spec fn all_digits(s: Seq<u8>) -> bool {
    forall|i: int| 0 <= i < s.len() ==> is_digit(#[trigger] s[i])
}

/// The first position at or after `from` that does not hold a digit
/// (`s.len()` when the digits run to the end).
pub open spec fn first_non_digit(s: Seq<u8>, from: int) -> int
    recommends
        0 <= from <= s.len(),
    decreases s.len() - from,
{
    if 0 <= from < s.len() && is_digit(s[from]) {
        first_non_digit(s, from + 1)
    } else {
        from
    }
}

/// What `first_non_digit` returns: the end of the digit run that starts at
/// `from`.
pub proof fn lemma_first_non_digit(s: Seq<u8>, from: int)
    requires
        0 <= from <= s.len(),
    ensures
        from <= first_non_digit(s, from) <= s.len(),
        forall|j: int| from <= j < first_non_digit(s, from) ==> is_digit(#[trigger] s[j]),
        first_non_digit(s, from) < s.len() ==> !is_digit(s[first_non_digit(s, from)]),
    decreases s.len() - from,
{
    if from < s.len() && is_digit(s[from]) {
        lemma_first_non_digit(s, from + 1);
    }
}

/// Finds the end of the digit run that starts at `from`.
pub fn scan_digits(s: &[u8], from: usize) -> (r: usize)
    requires
        from <= s@.len(),
    ensures
        r == first_non_digit(s@, from as int),
        from <= r <= s@.len(),
    decreases s@.len() - from,
{
    proof {
        lemma_first_non_digit(s@, from as int);
    }
    if from < s.len() && 48 <= s[from] && s[from] <= 57 {
        scan_digits(s, from + 1)
    } else {
        from
    }
}

/// The value of a run of ASCII digits, most significant first.
pub open spec fn digits_val(s: Seq<u8>) -> int
    recommends
        all_digits(s),
    decreases s.len(),
{
    if s.len() == 0 {
        0
    } else {
        digits_val(s.drop_last()) * 10 + (s.last() - 48)
    }
}

/// Digit runs have non-negative values.
pub proof fn lemma_digits_val_nonneg(s: Seq<u8>)
    requires
        all_digits(s),
    ensures
        digits_val(s) >= 0,
    decreases s.len(),
{
    if s.len() > 0 {
        assert(all_digits(s.drop_last())) by {
            assert(forall|i: int|
                0 <= i < s.len() - 1 ==> s.drop_last()[i] == #[trigger] s[i]);
        }
        lemma_digits_val_nonneg(s.drop_last());
    }
}

/// Extending a digit run cannot shrink its value.
pub proof fn lemma_digits_val_take_le(s: Seq<u8>, k: int)
    requires
        all_digits(s),
        0 <= k <= s.len(),
    ensures
        digits_val(s.take(k)) <= digits_val(s),
    decreases s.len() - k,
{
    if k == s.len() {
        assert(s.take(k) =~= s);
    } else {
        lemma_digits_val_take_le(s, k + 1);
        assert(s.take(k + 1).drop_last() =~= s.take(k));
        assert(all_digits(s.take(k))) by {
            assert(forall|i: int| 0 <= i < k ==> s.take(k)[i] == #[trigger] s[i]);
        }
        lemma_digits_val_nonneg(s.take(k));
        assert(digits_val(s.take(k + 1)) == digits_val(s.take(k)) * 10 + (s.take(k + 1).last()
            - 48));
        assert(digits_val(s.take(k)) * 10 >= digits_val(s.take(k)));
        assert(is_digit(s[k]));
    }
}

/// The decimal digits of a non-negative number, most significant first.
pub open spec fn dec_of(n: nat) -> Seq<u8>
    decreases n,
{
    if n < 10 {
        seq![(48 + n) as u8]
    } else {
        dec_of(n / 10).push((48 + n % 10) as u8)
    }
}

/// The shape of `dec_of`: at least one digit, all digits, and no leading zero
/// unless the number itself is zero.
pub proof fn lemma_dec_of_shape(n: nat)
    ensures
        dec_of(n).len() >= 1,
        all_digits(dec_of(n)),
        dec_of(n)[0] == 48 <==> n == 0,
    decreases n,
{
    if n >= 10 {
        lemma_dec_of_shape(n / 10);
        assert(forall|i: int|
            0 <= i < dec_of(n / 10).len() ==> dec_of(n)[i] == #[trigger] dec_of(n / 10)[i]);
        assert(is_digit(dec_of(n).last()));
        assert(all_digits(dec_of(n))) by {
            assert(forall|i: int|
                0 <= i < dec_of(n).len() - 1 ==> is_digit(#[trigger] dec_of(n)[i]));
        }
    }
}

/// Reading the digits of `n` back gives `n`.
pub proof fn lemma_dec_of_val(n: nat)
    ensures
        digits_val(dec_of(n)) == n,
    decreases n,
{
    if n < 10 {
        assert((48 + n) as u8 == 48 + n);
        assert(dec_of(n).drop_last() =~= Seq::<u8>::empty());
        assert(digits_val(Seq::<u8>::empty()) == 0);
        assert(dec_of(n).last() == (48 + n) as u8);
        assert(digits_val(dec_of(n)) == digits_val(dec_of(n).drop_last()) * 10 + (dec_of(n).last()
            - 48));
    } else {
        lemma_dec_of_val(n / 10);
        assert(dec_of(n).drop_last() =~= dec_of(n / 10));
        assert(dec_of(n).last() == (48 + n % 10) as u8);
        assert(digits_val(dec_of(n)) == digits_val(dec_of(n / 10)) * 10 + n % 10);
        assert(n / 10 * 10 + n % 10 == n) by {
            vstd::arithmetic::div_mod::lemma_fundamental_div_mod(n as int, 10);
        }
        assert(digits_val(dec_of(n)) == n / 10 * 10 + n % 10);
    }
}

/// The value of the digit run `s[lo..hi)`, unless it exceeds `cap`.
pub fn digits_value_capped(s: &[u8], lo: usize, hi: usize, cap: u64) -> (r: Option<u64>)
    requires
        lo <= hi <= s@.len(),
        all_digits(s@.subrange(lo as int, hi as int)),
    ensures
        match r {
            Some(v) => v == digits_val(s@.subrange(lo as int, hi as int)) && v <= cap,
            None => digits_val(s@.subrange(lo as int, hi as int)) > cap,
        },
{
    let ghost whole = s@.subrange(lo as int, hi as int);
    let mut k: usize = lo;
    let mut acc: u64 = 0;
    proof {
        assert(s@.subrange(lo as int, lo as int) =~= whole.take(0));
    }
    while k < hi
        invariant
            lo <= k <= hi <= s@.len(),
            all_digits(whole),
            whole == s@.subrange(lo as int, hi as int),
            acc <= cap,
            acc == digits_val(whole.take(k - lo)),
        decreases hi - k,
    {
        proof {
            assert(whole[k - lo] == s@[k as int]);
            assert(is_digit(whole[k - lo]));
        }
        let d: u64 = (s[k] - 48) as u64;
        let wide: u128 = acc as u128 * 10 + d as u128;
        proof {
            assert(whole.take(k - lo + 1).drop_last() =~= whole.take(k - lo));
            assert(all_digits(whole.take(k - lo + 1))) by {
                assert(forall|i: int|
                    0 <= i < k - lo + 1 ==> whole.take(k - lo + 1)[i] == #[trigger] whole[i]);
            }
            assert(digits_val(whole.take(k - lo + 1)) == digits_val(whole.take(k - lo)) * 10 + d);
        }
        if wide > cap as u128 {
            proof {
                lemma_digits_val_take_le(whole, k - lo + 1);
            }
            return None;
        }
        acc = wide as u64;
        k += 1;
    }
    proof {
        assert(whole.take(hi - lo) =~= whole);
    }
    Some(acc)
}

/// The first position at or after `from` where a CR immediately followed by
/// an LF starts.
pub open spec fn find_crlf_from(s: Seq<u8>, from: int) -> Option<int>
    recommends
        0 <= from,
    decreases s.len() - from,
{
    if from + 2 > s.len() {
        None
    } else if s[from] == CR && s[from + 1] == LF {
        Some(from)
    } else {
        find_crlf_from(s, from + 1)
    }
}

/// A CR immediately followed by an LF stands at `i`.
pub open spec fn crlf_at(s: Seq<u8>, i: int) -> bool {
    0 <= i && i + 2 <= s.len() && s[i] == CR && s[i + 1] == LF
}

/// What `find_crlf_from` returns: the first line terminator at or after
/// `from`, or the fact that there is none.
pub proof fn lemma_find_crlf_from(s: Seq<u8>, from: int)
    requires
        0 <= from,
    ensures
        match find_crlf_from(s, from) {
            Some(i) => from <= i && crlf_at(s, i) && forall|j: int|
                from <= j < i ==> !crlf_at(s, j),
            None => forall|j: int| from <= j ==> !crlf_at(s, j),
        },
    decreases s.len() - from,
{
    if from + 2 <= s.len() && !(s[from] == CR && s[from + 1] == LF) {
        lemma_find_crlf_from(s, from + 1);
    }
}

/// Where a line terminator stands at `i` and none stands earlier, the scan
/// from `from` finds exactly `i`.
pub proof fn lemma_find_crlf_at(s: Seq<u8>, from: int, i: int)
    requires
        0 <= from <= i,
        crlf_at(s, i),
        forall|j: int| from <= j < i ==> !crlf_at(s, j),
    ensures
        find_crlf_from(s, from) == Option::Some(i),
{
    lemma_find_crlf_from(s, from);
    match find_crlf_from(s, from) {
        Option::None => {
            assert(!crlf_at(s, i));
        },
        Option::Some(w) => {
            if w < i {
                assert(!crlf_at(s, w));
            } else if w > i {
                assert(!crlf_at(s, i));
            }
        },
    }
}

/// Where no line terminator stands at or after `from`, the scan finds none.
pub proof fn lemma_find_crlf_none(s: Seq<u8>, from: int)
    requires
        0 <= from,
        forall|j: int| from <= j ==> !crlf_at(s, j),
    ensures
        find_crlf_from(s, from) is None,
{
    lemma_find_crlf_from(s, from);
    match find_crlf_from(s, from) {
        Option::None => {
        },
        Option::Some(w) => {
            assert(!crlf_at(s, w));
        },
    }
}

/// Finds the first line terminator at or after `from`.
pub fn find_crlf(s: &[u8], from: usize) -> (r: Option<usize>)
    ensures
        match r {
            Some(i) => from <= i && find_crlf_from(s@, from as int) == Some(i as int),
            None => find_crlf_from(s@, from as int) is None,
        },
{
    let mut k: usize = from;
    loop
        invariant
            from <= k,
            find_crlf_from(s@, from as int) == find_crlf_from(s@, k as int),
        decreases s@.len() + 2 - k,
    {
        if s.len() < 2 || k > s.len() - 2 {
            return None;
        }
        if s[k] == CR && s[k + 1] == LF {
            return Some(k);
        }
        k += 1;
    }
}

/// An exponent marker with a non-empty, optionally signed digit run that
/// reaches the end of the text.
pub open spec fn exp_ok(s: Seq<u8>, i: int) -> bool {
    &&& 0 <= i < s.len()
    &&& (s[i] == 101 || s[i] == 69)
    &&& {
        let j = if i + 1 < s.len() && (s[i + 1] == 43 || s[i + 1] == 45) {
            i + 2
        } else {
            i + 1
        };
        j < s.len() && first_non_digit(s, j) == s.len()
    }
}

/// The numeric grammar of a double's text: optional sign, integral digits,
/// optional fraction, optional exponent.
pub open spec fn double_num_ok(s: Seq<u8>) -> bool {
    let i0: int = if s.len() > 0 && (s[0] == 43 || s[0] == 45) {
        1
    } else {
        0
    };
    let i1 = first_non_digit(s, i0);
    &&& i0 <= s.len()
    &&& i1 > i0
    &&& if i1 == s.len() {
        true
    } else if s[i1] == 46 {
        let i2 = first_non_digit(s, i1 + 1);
        i2 > i1 + 1 && (i2 == s.len() || exp_ok(s, i2))
    } else {
        exp_ok(s, i1)
    }
}

/// The full grammar of a double's text: the special forms `inf`, `-inf` and
/// `nan`, or a number.
pub open spec fn double_text_ok(s: Seq<u8>) -> bool {
    ||| s =~= seq![105u8, 110u8, 102u8]
    ||| s =~= seq![45u8, 105u8, 110u8, 102u8]
    ||| s =~= seq![110u8, 97u8, 110u8]
    ||| double_num_ok(s)
}

/// Checks a double's text against the grammar.
pub fn double_text_check(s: &[u8]) -> (r: bool)
    ensures
        r == double_text_ok(s@),
{
    if s.len() == 3 && s[0] == 105 && s[1] == 110 && s[2] == 102 {
        proof {
            assert(s@ =~= seq![105u8, 110u8, 102u8]);
        }
        return true;
    }
    if s.len() == 4 && s[0] == 45 && s[1] == 105 && s[2] == 110 && s[3] == 102 {
        proof {
            assert(s@ =~= seq![45u8, 105u8, 110u8, 102u8]);
        }
        return true;
    }
    if s.len() == 3 && s[0] == 110 && s[1] == 97 && s[2] == 110 {
        proof {
            assert(s@ =~= seq![110u8, 97u8, 110u8]);
        }
        return true;
    }
    proof {
        if s@.len() == 3 && s@ =~= seq![105u8, 110u8, 102u8] {
            assert(s@[0] == 105 && s@[1] == 110 && s@[2] == 102);
        }
        if s@.len() == 4 && s@ =~= seq![45u8, 105u8, 110u8, 102u8] {
            assert(s@[0] == 45 && s@[1] == 105 && s@[2] == 110 && s@[3] == 102);
        }
        if s@.len() == 3 && s@ =~= seq![110u8, 97u8, 110u8] {
            assert(s@[0] == 110 && s@[1] == 97 && s@[2] == 110);
        }
    }
    double_num_check(s)
}

fn double_num_check(s: &[u8]) -> (r: bool)
    ensures
        r == double_num_ok(s@),
{
    let i0: usize = if s.len() > 0 && (s[0] == 43 || s[0] == 45) {
        1
    } else {
        0
    };
    if i0 > s.len() {
        return false;
    }
    let i1 = scan_digits(s, i0);
    if i1 <= i0 {
        return false;
    }
    if i1 == s.len() {
        return true;
    }
    if s[i1] == 46 {
        let i2 = scan_digits(s, i1 + 1);
        if i2 <= i1 + 1 {
            return false;
        }
        if i2 == s.len() {
            return true;
        }
        exp_check(s, i2)
    } else {
        exp_check(s, i1)
    }
}

fn exp_check(s: &[u8], i: usize) -> (r: bool)
    requires
        i < s@.len(),
    ensures
        r == exp_ok(s@, i as int),
{
    if !(s[i] == 101 || s[i] == 69) {
        return false;
    }
    let j: usize = if i + 1 < s.len() && (s[i + 1] == 43 || s[i + 1] == 45) {
        i + 2
    } else {
        i + 1
    };
    if j >= s.len() {
        return false;
    }
    scan_digits(s, j) == s.len()
}

/// Every byte the double grammar admits is printable, so in particular no
/// line terminator stands in a double's text.
pub proof fn lemma_double_text_line_ok(s: Seq<u8>)
    requires
        double_text_ok(s),
    ensures
        line_ok(s),
{
    if double_num_ok(s) {
        let i0: int = if s.len() > 0 && (s[0] == 43 || s[0] == 45) {
            1
        } else {
            0
        };
        let i1 = first_non_digit(s, i0);
        lemma_first_non_digit(s, i0);
        assert forall|p: int| 0 <= p < s.len() implies s[p] != CR && s[p] != LF by {
            if p < i0 {
                assert(s[p] == 43 || s[p] == 45);
            } else if p < i1 {
                assert(is_digit(s[p]));
            } else {
                assert(i1 < s.len());
                if s[i1] == 46 {
                    let i2 = first_non_digit(s, i1 + 1);
                    lemma_first_non_digit(s, i1 + 1);
                    if p == i1 {
                        assert(s[p] == 46);
                    } else if p < i2 {
                        assert(is_digit(s[p]));
                    } else {
                        assert(exp_ok(s, i2));
                        lemma_exp_bytes(s, i2, p);
                    }
                } else {
                    lemma_exp_bytes(s, i1, p);
                }
            }
        }
    }
}

proof fn lemma_exp_bytes(s: Seq<u8>, i: int, p: int)
    requires
        exp_ok(s, i),
        i <= p < s.len(),
    ensures
        s[p] != CR && s[p] != LF,
{
    let j = if i + 1 < s.len() && (s[i + 1] == 43 || s[i + 1] == 45) {
        i + 2
    } else {
        i + 1
    };
    lemma_first_non_digit(s, j);
    if p == i {
        assert(s[p] == 101 || s[p] == 69);
    } else if p < j {
        assert(s[p] == 43 || s[p] == 45);
    } else {
        assert(is_digit(s[p]));
    }
}

} // verus!
