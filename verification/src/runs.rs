//! What the natural order means on strings of digits: numbers without a
//! leading zero are ordered by value, and a leading zero makes the order
//! that of the digits from left to right.

use std::cmp::Ordering;
use vstd::prelude::*;

use crate::compare::{byte_order, digit_at, first_difference, natural_order, order_from, order_in_run};
use crate::digits::{is_digit, is_zero};

verus! {

/// Every byte of the string is a decimal digit.
pub open spec fn all_digits(s: Seq<u8>) -> bool {
    forall|k: int| 0 <= k < s.len() ==> is_digit(#[trigger] s[k])
}

/// The string is a number as it is usually written: digits only, at least
/// one, and the first of them not `0`.
pub open spec fn is_number(s: Seq<u8>) -> bool {
    all_digits(s) && s.len() > 0 && !is_zero(s[0])
}

/// The value of a string of digits read as a decimal number.
pub open spec fn number(s: Seq<u8>) -> int
    decreases s.len(),
{
    if s.len() == 0 {
        0
    } else {
        number(s.drop_last()) * 10 + (s.last() - 48)
    }
}

/// The order of two integers.
pub open spec fn int_order(x: int, y: int) -> Ordering {
    if x < y {
        Ordering::Less
    } else if x > y {
        Ordering::Greater
    } else {
        Ordering::Equal
    }
}

/// The order of two strings from position `i` on when they are compared
/// byte by byte: the first difference decides, and a string is less than
/// each longer one that begins with it.
pub open spec fn lexical_from(a: Seq<u8>, b: Seq<u8>, i: int) -> Ordering
    decreases a.len() - i,
{
    if i < 0 || (i >= a.len() && i >= b.len()) {
        Ordering::Equal
    } else if i >= a.len() {
        Ordering::Less
    } else if i >= b.len() {
        Ordering::Greater
    } else if a[i] != b[i] {
        byte_order(a[i], b[i])
    } else {
        lexical_from(a, b, i + 1)
    }
}

/// The string is empty or ends in a byte that is no digit, so that no digit
/// run reaches beyond it.
pub open spec fn ends_outside_run(s: Seq<u8>) -> bool {
    s.len() > 0 ==> !is_digit(s.last())
}

/// Reading one more digit multiplies the value by ten and adds the digit.
proof fn lemma_number_step(s: Seq<u8>, i: int)
    requires
        0 <= i < s.len(),
    ensures
        number(s.take(i + 1)) == number(s.take(i)) * 10 + (s[i] - 48),
{
    assert(s.take(i + 1).drop_last() =~= s.take(i));
}

/// The digits that follow a beginning of a number make it at least ten times
/// as large.
proof fn lemma_number_grows(s: Seq<u8>, i: int, j: int)
    requires
        all_digits(s),
        0 <= i < j <= s.len(),
    ensures
        number(s.take(j)) >= 10 * number(s.take(i)),
        number(s.take(i)) >= 0,
    decreases j,
{
    lemma_number_nonnegative(s, i);
    lemma_number_step(s, j - 1);
    if i < j - 1 {
        lemma_number_grows(s, i, j - 1);
    }
}

/// A number with more digits than `i` is at least ten times the number that
/// its first `i` digits make.
proof fn lemma_number_outgrows(s: Seq<u8>, i: int)
    requires
        all_digits(s),
        0 <= i < s.len(),
    ensures
        number(s) >= 10 * number(s.take(i)),
{
    lemma_number_grows(s, i, s.len() as int);
    assert(s.take(s.len() as int) =~= s);
}

/// All the digits of a string make its number.
proof fn lemma_number_whole(s: Seq<u8>, i: int)
    requires
        i == s.len(),
    ensures
        number(s.take(i)) == number(s),
{
    assert(s.take(i) =~= s);
}

proof fn lemma_number_nonnegative(s: Seq<u8>, i: int)
    requires
        all_digits(s),
        0 <= i <= s.len(),
    ensures
        number(s.take(i)) >= 0,
    decreases i,
{
    if i > 0 {
        lemma_number_nonnegative(s, i - 1);
        lemma_number_step(s, i - 1);
    }
}

proof fn lemma_numbers_in_run(a: Seq<u8>, b: Seq<u8>, i: int, pending: Ordering)
    requires
        all_digits(a),
        all_digits(b),
        1 <= i <= a.len(),
        i <= b.len(),
        pending == int_order(number(a.take(i)), number(b.take(i))),
        1 <= number(a.take(i)) < 10 * number(b.take(i)),
        1 <= number(b.take(i)) < 10 * number(a.take(i)),
    ensures
        order_in_run(a, b, i, false, pending) == int_order(number(a), number(b)),
    decreases a.len() - i,
{
    if i < a.len() && i < b.len() {
        lemma_number_step(a, i);
        lemma_number_step(b, i);
        lemma_numbers_in_run(a, b, i + 1, first_difference(pending, a[i], b[i]));
    } else if i < a.len() {
        lemma_number_outgrows(a, i);
        lemma_number_whole(b, i);
    } else if i < b.len() {
        lemma_number_outgrows(b, i);
        lemma_number_whole(a, i);
    } else {
        lemma_number_whole(a, i);
        lemma_number_whole(b, i);
        assert(order_from(a, b, i) == Ordering::Equal);
    }
}

proof fn lemma_digits_in_run(a: Seq<u8>, b: Seq<u8>, i: int)
    requires
        all_digits(a),
        all_digits(b),
        0 <= i <= a.len(),
        i <= b.len(),
    ensures
        order_in_run(a, b, i, true, Ordering::Equal) == lexical_from(a, b, i),
    decreases a.len() - i,
{
    if i < a.len() && i < b.len() {
        if a[i] == b[i] {
            lemma_digits_in_run(a, b, i + 1);
        }
    } else {
        assert(i >= a.len() && i >= b.len() ==> order_from(a, b, i) == Ordering::Equal);
    }
}

proof fn lemma_shift_from(p: Seq<u8>, a: Seq<u8>, b: Seq<u8>, k: int)
    requires
        0 <= k,
    ensures
        order_from(p + a, p + b, p.len() + k) == order_from(a, b, k),
    decreases a.len() - k, 0int,
{
    if k < a.len() && k < b.len() {
        assert((p + a)[p.len() + k] == a[k]);
        assert((p + b)[p.len() + k] == b[k]);
        if is_digit(a[k]) && is_digit(b[k]) {
            let aligned_left = is_zero(a[k]) || is_zero(b[k]);
            lemma_shift_in_run(p, a, b, k + 1, aligned_left, byte_order(a[k], b[k]));
        } else if a[k] == b[k] {
            lemma_shift_from(p, a, b, k + 1);
        }
    }
}

proof fn lemma_shift_in_run(
    p: Seq<u8>,
    a: Seq<u8>,
    b: Seq<u8>,
    k: int,
    aligned_left: bool,
    pending: Ordering,
)
    requires
        0 <= k,
    ensures
        order_in_run(p + a, p + b, p.len() + k, aligned_left, pending) == order_in_run(
            a,
            b,
            k,
            aligned_left,
            pending,
        ),
    decreases a.len() - k, 1int,
{
    if k < a.len() {
        assert((p + a)[p.len() + k] == a[k]);
    }
    if k < b.len() {
        assert((p + b)[p.len() + k] == b[k]);
    }
    assert(digit_at(p + a, p.len() + k) == digit_at(a, k));
    assert(digit_at(p + b, p.len() + k) == digit_at(b, k));
    if digit_at(a, k) && digit_at(b, k) {
        lemma_shift_in_run(p, a, b, k + 1, aligned_left, first_difference(pending, a[k], b[k]));
    } else if !digit_at(a, k) && !digit_at(b, k) {
        lemma_shift_from(p, a, b, k);
    }
}

proof fn lemma_stem_from(p: Seq<u8>, a: Seq<u8>, b: Seq<u8>, i: int, n: int)
    requires
        0 <= i <= n,
        n == p.len(),
        ends_outside_run(p),
    ensures
        order_from(p + a, p + b, i) == order_from(p + a, p + b, n),
    decreases n - i, 0int,
{
    if i < n {
        assert((p + a)[i] == p[i]);
        assert((p + b)[i] == p[i]);
        if is_digit(p[i]) {
            lemma_stem_in_run(p, a, b, i + 1, n, is_zero(p[i]));
        } else {
            lemma_stem_from(p, a, b, i + 1, n);
        }
    }
}

proof fn lemma_stem_in_run(
    p: Seq<u8>,
    a: Seq<u8>,
    b: Seq<u8>,
    i: int,
    n: int,
    aligned_left: bool,
)
    requires
        0 <= i < n,
        n == p.len(),
        ends_outside_run(p),
    ensures
        order_in_run(p + a, p + b, i, aligned_left, Ordering::Equal) == order_from(
            p + a,
            p + b,
            n,
        ),
    decreases n - i, 1int,
{
    assert((p + a)[i] == p[i]);
    assert((p + b)[i] == p[i]);
    if is_digit(p[i]) {
        lemma_stem_in_run(p, a, b, i + 1, n, aligned_left);
    } else {
        lemma_stem_from(p, a, b, i, n);
    }
}

/// Two numbers without a leading zero are ordered by their value.
pub proof fn lemma_numbers_compare_by_value(a: Seq<u8>, b: Seq<u8>)
    requires
        is_number(a),
        is_number(b),
    ensures
        natural_order(a, b) == int_order(number(a), number(b)),
{
    lemma_number_step(a, 0);
    lemma_number_step(b, 0);
    assert(number(a.take(0)) == 0);
    assert(number(b.take(0)) == 0);
    lemma_numbers_in_run(a, b, 1, byte_order(a[0], b[0]));
}

/// Two strings of digits of which one begins with `0` are ordered digit by
/// digit from the left, whatever their lengths.
pub proof fn lemma_leading_zero_compares_by_digits(a: Seq<u8>, b: Seq<u8>)
    requires
        all_digits(a),
        all_digits(b),
        a.len() > 0,
        b.len() > 0,
        is_zero(a[0]) || is_zero(b[0]),
    ensures
        natural_order(a, b) == lexical_from(a, b, 0),
{
    if a[0] == b[0] {
        lemma_digits_in_run(a, b, 1);
    }
}

/// A common beginning that does not end in a digit does not change the order
/// of what follows it.
pub proof fn lemma_common_stem(p: Seq<u8>, a: Seq<u8>, b: Seq<u8>)
    requires
        ends_outside_run(p),
    ensures
        natural_order(p + a, p + b) == natural_order(a, b),
{
    lemma_stem_from(p, a, b, 0, p.len() + 0int);
    lemma_shift_from(p, a, b, 0);
}

/// Names made of one stem and a number each are ordered by their numbers.
pub proof fn lemma_numbered_names(p: Seq<u8>, x: Seq<u8>, y: Seq<u8>)
    requires
        ends_outside_run(p),
        is_number(x),
        is_number(y),
    ensures
        natural_order(p + x, p + y) == int_order(number(x), number(y)),
{
    lemma_common_stem(p, x, y);
    lemma_numbers_compare_by_value(x, y);
}

} // verus!
