//! The natural order of byte strings: runs of decimal digits are compared as
//! numbers, everything else byte by byte.

use std::cmp::Ordering;
use vstd::prelude::*;

use crate::digits::{is_digit, is_digit_byte, is_zero, is_zero_byte, pos};

verus! {

/// The order of two bytes by their value.
pub open spec fn byte_order(x: u8, y: u8) -> Ordering {
    if x < y {
        Ordering::Less
    } else if x > y {
        Ordering::Greater
    } else {
        Ordering::Equal
    }
}

/// The order seen from the other side.
pub open spec fn reversed(o: Ordering) -> Ordering {
    match o {
        Ordering::Less => Ordering::Greater,
        Ordering::Equal => Ordering::Equal,
        Ordering::Greater => Ordering::Less,
    }
}

/// Position `i` of `s` exists and holds a decimal digit.
pub open spec fn digit_at(s: Seq<u8>, i: int) -> bool {
    0 <= i < s.len() && is_digit(s[i])
}

/// The first difference seen so far in a digit run, extended by the pair of
/// digits `x` and `y`.
pub open spec fn first_difference(pending: Ordering, x: u8, y: u8) -> Ordering {
    if pending == Ordering::Equal {
        byte_order(x, y)
    } else {
        pending
    }
}

/// The order of `a` and `b` from position `i` on, outside a digit run.
///
/// Two bytes that are not both digits are compared by value; the side that
/// ends first is the smaller one. Where both sides hold a digit a run begins.
/// If one of the two first digits is `0` the run is compared left-aligned:
/// the first pair of digits that differs decides. Otherwise it is compared
/// right-aligned: the longer run is the greater number, and the first pair
/// that differs decides between runs of one length.
pub open spec fn order_from(a: Seq<u8>, b: Seq<u8>, i: int) -> Ordering
    decreases a.len() - i, 0int,
{
    if i < 0 {
        Ordering::Equal
    } else if i >= a.len() && i >= b.len() {
        Ordering::Equal
    } else if i >= a.len() {
        Ordering::Less
    } else if i >= b.len() {
        Ordering::Greater
    } else if is_digit(a[i]) && is_digit(b[i]) {
        let aligned_left = is_zero(a[i]) || is_zero(b[i]);
        let pending = byte_order(a[i], b[i]);
        if aligned_left && pending != Ordering::Equal {
            pending
        } else {
            order_in_run(a, b, i + 1, aligned_left, pending)
        }
    } else if a[i] != b[i] {
        byte_order(a[i], b[i])
    } else {
        order_from(a, b, i + 1)
    }
}

/// The order of `a` and `b` from position `i` on, inside a digit run that
/// both sides share up to `i`. `pending` is the first difference among the
/// digits of the run before `i`.
pub open spec fn order_in_run(
    a: Seq<u8>,
    b: Seq<u8>,
    i: int,
    aligned_left: bool,
    pending: Ordering,
) -> Ordering
    decreases a.len() - i, 1int,
{
    if digit_at(a, i) && digit_at(b, i) {
        let next = first_difference(pending, a[i], b[i]);
        if aligned_left && next != Ordering::Equal {
            next
        } else {
            order_in_run(a, b, i + 1, aligned_left, next)
        }
    } else if digit_at(a, i) {
        Ordering::Greater
    } else if digit_at(b, i) {
        Ordering::Less
    } else if pending != Ordering::Equal {
        pending
    } else {
        order_from(a, b, i)
    }
}

/// The natural order of two byte strings.
pub open spec fn natural_order(a: Seq<u8>, b: Seq<u8>) -> Ordering {
    order_from(a, b, 0)
}

/// The two strings have one length and hold the same bytes from `i` on.
pub open spec fn same_from(a: Seq<u8>, b: Seq<u8>, i: int) -> bool {
    a.len() == b.len() && forall|k: int| i <= k < a.len() ==> a[k] == b[k]
}

fn order_bytes(x: u8, y: u8) -> (o: Ordering)
    ensures
        o == byte_order(x, y),
{
    if x < y {
        Ordering::Less
    } else if x > y {
        Ordering::Greater
    } else {
        Ordering::Equal
    }
}

/// Compares two byte strings in natural order.
pub fn compare(left: &[u8], right: &[u8]) -> (o: Ordering)
    ensures
        o == natural_order(left@, right@),
{
    let mut i: usize = 0;
    loop
        invariant
            i <= left.len(),
            i <= right.len(),
            natural_order(left@, right@) == order_from(left@, right@, pos(i)),
        decreases left.len() - i,
    {
        if i >= left.len() {
            if i >= right.len() {
                return Ordering::Equal;
            }
            return Ordering::Less;
        }
        if i >= right.len() {
            return Ordering::Greater;
        }
        let l: u8 = left[i];
        let r: u8 = right[i];
        if is_digit_byte(l) && is_digit_byte(r) {
            let aligned_left = is_zero_byte(l) || is_zero_byte(r);
            let mut pending = order_bytes(l, r);
            if aligned_left {
                match pending {
                    Ordering::Equal => {},
                    Ordering::Less => {
                        return Ordering::Less;
                    },
                    Ordering::Greater => {
                        return Ordering::Greater;
                    },
                }
            }
            let ghost first: usize = i;
            i = i + 1;
            loop
                invariant
                    first < i,
                    i <= left.len(),
                    i <= right.len(),
                    natural_order(left@, right@) == order_in_run(
                        left@,
                        right@,
                        pos(i),
                        aligned_left,
                        pending,
                    ),
                ensures
                    first < i,
                    i <= left.len(),
                    i <= right.len(),
                    !digit_at(left@, pos(i)),
                    !digit_at(right@, pos(i)),
                    natural_order(left@, right@) == order_in_run(
                        left@,
                        right@,
                        pos(i),
                        aligned_left,
                        pending,
                    ),
                decreases left.len() - i,
            {
                let dl = i < left.len() && is_digit_byte(left[i]);
                let dr = i < right.len() && is_digit_byte(right[i]);
                if dl && dr {
                    match pending {
                        Ordering::Equal => {
                            pending = order_bytes(left[i], right[i]);
                        },
                        _ => {},
                    }
                    if aligned_left {
                        match pending {
                            Ordering::Equal => {},
                            Ordering::Less => {
                                return Ordering::Less;
                            },
                            Ordering::Greater => {
                                return Ordering::Greater;
                            },
                        }
                    }
                    i = i + 1;
                } else if dl {
                    return Ordering::Greater;
                } else if dr {
                    return Ordering::Less;
                } else {
                    break ;
                }
            }
            match pending {
                Ordering::Equal => {},
                Ordering::Less => {
                    return Ordering::Less;
                },
                Ordering::Greater => {
                    return Ordering::Greater;
                },
            }
        } else {
            if l < r {
                return Ordering::Less;
            }
            if l > r {
                return Ordering::Greater;
            }
            i = i + 1;
        }
    }
}

proof fn lemma_reversed_from(a: Seq<u8>, b: Seq<u8>, i: int)
    requires
        0 <= i,
    ensures
        order_from(b, a, i) == reversed(order_from(a, b, i)),
    decreases a.len() - i, 0int,
{
    if i < a.len() && i < b.len() {
        if is_digit(a[i]) && is_digit(b[i]) {
            let aligned_left = is_zero(a[i]) || is_zero(b[i]);
            lemma_reversed_in_run(a, b, i + 1, aligned_left, byte_order(a[i], b[i]));
        } else if a[i] == b[i] {
            lemma_reversed_from(a, b, i + 1);
        }
    }
}

proof fn lemma_reversed_in_run(
    a: Seq<u8>,
    b: Seq<u8>,
    i: int,
    aligned_left: bool,
    pending: Ordering,
)
    requires
        0 <= i,
    ensures
        order_in_run(b, a, i, aligned_left, reversed(pending)) == reversed(
            order_in_run(a, b, i, aligned_left, pending),
        ),
    decreases a.len() - i, 1int,
{
    if digit_at(a, i) && digit_at(b, i) {
        let next = first_difference(pending, a[i], b[i]);
        assert(first_difference(reversed(pending), b[i], a[i]) == reversed(next));
        lemma_reversed_in_run(a, b, i + 1, aligned_left, next);
    } else if !digit_at(a, i) && !digit_at(b, i) && pending == Ordering::Equal {
        lemma_reversed_from(a, b, i);
    }
}

proof fn lemma_equal_from(a: Seq<u8>, b: Seq<u8>, i: int)
    requires
        0 <= i <= a.len(),
        i <= b.len(),
    ensures
        order_from(a, b, i) == Ordering::Equal <==> same_from(a, b, i),
    decreases a.len() - i, 0int,
{
    if i < a.len() && i < b.len() {
        if is_digit(a[i]) && is_digit(b[i]) {
            let aligned_left = is_zero(a[i]) || is_zero(b[i]);
            lemma_equal_in_run(a, b, i + 1, aligned_left, byte_order(a[i], b[i]));
        } else if a[i] == b[i] {
            lemma_equal_from(a, b, i + 1);
        }
        assert(same_from(a, b, i) <==> a[i] == b[i] && same_from(a, b, i + 1));
    }
}

proof fn lemma_equal_in_run(
    a: Seq<u8>,
    b: Seq<u8>,
    i: int,
    aligned_left: bool,
    pending: Ordering,
)
    requires
        0 <= i <= a.len(),
        i <= b.len(),
    ensures
        order_in_run(a, b, i, aligned_left, pending) == Ordering::Equal <==> pending
            == Ordering::Equal && same_from(a, b, i),
    decreases a.len() - i, 1int,
{
    if digit_at(a, i) && digit_at(b, i) {
        let next = first_difference(pending, a[i], b[i]);
        lemma_equal_in_run(a, b, i + 1, aligned_left, next);
        assert(same_from(a, b, i) <==> a[i] == b[i] && same_from(a, b, i + 1));
    } else if digit_at(a, i) {
        assert(same_from(a, b, i) ==> a[i] == b[i]);
    } else if digit_at(b, i) {
        assert(same_from(a, b, i) ==> a[i] == b[i]);
    } else if pending == Ordering::Equal {
        lemma_equal_from(a, b, i);
    }
}

/// The three orders are those of some `x`, `y` and `z` of a totally ordered
/// set: `xy` of `x` against `y`, `yz` of `y` against `z`, `xz` of `x` against
/// `z`.
spec fn coherent(xy: Ordering, yz: Ordering, xz: Ordering) -> bool {
    &&& xy == Ordering::Equal ==> xz == yz
    &&& yz == Ordering::Equal ==> xz == xy
    &&& xy == Ordering::Less && yz == Ordering::Less ==> xz == Ordering::Less
    &&& xy == Ordering::Greater && yz == Ordering::Greater ==> xz == Ordering::Greater
}

proof fn lemma_coherent_from(a: Seq<u8>, b: Seq<u8>, c: Seq<u8>, i: int)
    requires
        0 <= i,
    ensures
        coherent(order_from(a, b, i), order_from(b, c, i), order_from(a, c, i)),
    decreases a.len() - i, 0int,
{
    if i < a.len() && i < b.len() && i < c.len() {
        let (x, y, z) = (a[i], b[i], c[i]);
        if is_digit(x) && is_digit(y) && is_digit(z) {
            if !is_zero(x) && !is_zero(y) && !is_zero(z) {
                lemma_coherent_in_run(
                    a,
                    b,
                    c,
                    i + 1,
                    false,
                    byte_order(x, y),
                    byte_order(y, z),
                    byte_order(x, z),
                );
            } else if is_zero(x) && is_zero(y) && is_zero(z) {
                lemma_coherent_in_run(
                    a,
                    b,
                    c,
                    i + 1,
                    true,
                    Ordering::Equal,
                    Ordering::Equal,
                    Ordering::Equal,
                );
            }
        } else if x == y && y == z {
            lemma_coherent_from(a, b, c, i + 1);
        }
    }
}

proof fn lemma_coherent_in_run(
    a: Seq<u8>,
    b: Seq<u8>,
    c: Seq<u8>,
    i: int,
    aligned_left: bool,
    ab: Ordering,
    bc: Ordering,
    ac: Ordering,
)
    requires
        0 <= i,
        coherent(ab, bc, ac),
        aligned_left ==> ab == Ordering::Equal && bc == Ordering::Equal,
    ensures
        coherent(
            order_in_run(a, b, i, aligned_left, ab),
            order_in_run(b, c, i, aligned_left, bc),
            order_in_run(a, c, i, aligned_left, ac),
        ),
    decreases a.len() - i, 1int,
{
    if digit_at(a, i) && digit_at(b, i) && digit_at(c, i) {
        let (x, y, z) = (a[i], b[i], c[i]);
        if !aligned_left {
            lemma_coherent_in_run(
                a,
                b,
                c,
                i + 1,
                false,
                first_difference(ab, x, y),
                first_difference(bc, y, z),
                first_difference(ac, x, z),
            );
        } else if x == y && y == z {
            lemma_coherent_in_run(a, b, c, i + 1, true, ab, bc, ac);
        }
    } else if !digit_at(a, i) && !digit_at(b, i) && !digit_at(c, i) {
        lemma_coherent_from(a, b, c, i);
    }
}

proof fn lemma_prefix_from(a: Seq<u8>, b: Seq<u8>, i: int)
    requires
        0 <= i <= a.len(),
        a.len() < b.len(),
        a.is_prefix_of(b),
    ensures
        order_from(a, b, i) == Ordering::Less,
    decreases a.len() - i, 0int,
{
    if i < a.len() {
        assert(a[i] == b[i]);
        if is_digit(a[i]) {
            lemma_prefix_in_run(a, b, i + 1, is_zero(a[i]));
        } else {
            lemma_prefix_from(a, b, i + 1);
        }
    }
}

proof fn lemma_prefix_in_run(a: Seq<u8>, b: Seq<u8>, i: int, aligned_left: bool)
    requires
        0 <= i <= a.len(),
        a.len() < b.len(),
        a.is_prefix_of(b),
    ensures
        order_in_run(a, b, i, aligned_left, Ordering::Equal) == Ordering::Less,
    decreases a.len() - i, 1int,
{
    if i < a.len() {
        assert(a[i] == b[i]);
        if is_digit(a[i]) {
            lemma_prefix_in_run(a, b, i + 1, aligned_left);
        } else {
            lemma_prefix_from(a, b, i);
        }
    } else if !digit_at(b, i) {
        lemma_prefix_from(a, b, i);
    }
}

/// Exchanging the two strings reverses the order: what is less one way is
/// greater the other way, and what is equal stays equal.
pub proof fn lemma_compare_reverses(a: Seq<u8>, b: Seq<u8>)
    ensures
        natural_order(b, a) == reversed(natural_order(a, b)),
{
    lemma_reversed_from(a, b, 0);
}

/// Two strings are equal in natural order exactly when they are the same
/// string, byte for byte.
pub proof fn lemma_equal_iff_identical(a: Seq<u8>, b: Seq<u8>)
    ensures
        natural_order(a, b) == Ordering::Equal <==> a == b,
{
    lemma_equal_from(a, b, 0);
    if same_from(a, b, 0) {
        assert(a =~= b);
    }
}

/// Equality in natural order is transitive.
pub proof fn lemma_equal_transitive(a: Seq<u8>, b: Seq<u8>, c: Seq<u8>)
    requires
        natural_order(a, b) == Ordering::Equal,
        natural_order(b, c) == Ordering::Equal,
    ensures
        natural_order(a, c) == Ordering::Equal,
{
    lemma_equal_iff_identical(a, b);
    lemma_equal_iff_identical(b, c);
    lemma_equal_iff_identical(a, c);
}

/// The natural order is transitive: a string that is not greater than a
/// second, which is not greater than a third, is not greater than the third,
/// and it is less if one of the two steps is.
pub proof fn lemma_compare_transitive(a: Seq<u8>, b: Seq<u8>, c: Seq<u8>)
    requires
        natural_order(a, b) != Ordering::Greater,
        natural_order(b, c) != Ordering::Greater,
    ensures
        natural_order(a, c) != Ordering::Greater,
        natural_order(a, b) == Ordering::Less || natural_order(b, c) == Ordering::Less
            ==> natural_order(a, c) == Ordering::Less,
{
    lemma_coherent_from(a, b, c, 0);
}

/// A string is less than every longer string that begins with it.
pub proof fn lemma_proper_prefix_is_less(a: Seq<u8>, b: Seq<u8>)
    requires
        a.len() < b.len(),
        a.is_prefix_of(b),
    ensures
        natural_order(a, b) == Ordering::Less,
{
    lemma_prefix_from(a, b, 0);
}

} // verus!
