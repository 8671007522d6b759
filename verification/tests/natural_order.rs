use std::cmp::Ordering;

use idx_binary::compare;

fn ordered(mut items: Vec<&[u8]>) -> Vec<&[u8]> {
    items.sort_by(|a, b| compare(a, b));
    items
}

#[test]
fn leading_zero_run_is_compared_digit_by_digit() {
    assert_eq!(compare(b"015", b"12"), Ordering::Less);
    assert_eq!(compare(b"12", b"015"), Ordering::Greater);
    assert_eq!(compare(b"01", b"001"), Ordering::Greater);
    assert_eq!(compare(b"0", b"00"), Ordering::Less);
    assert_eq!(compare(b"10", b"09"), Ordering::Greater);
}

#[test]
fn run_without_leading_zero_is_compared_by_magnitude() {
    assert_eq!(compare(b"file2", b"file10"), Ordering::Less);
    assert_eq!(compare(b"file10", b"file2"), Ordering::Greater);
    assert_eq!(compare(b"15", b"123"), Ordering::Less);
    assert_eq!(compare(b"9", b"10"), Ordering::Less);
    assert_eq!(compare(b"123", b"124"), Ordering::Less);
    assert_eq!(compare(b"199", b"200"), Ordering::Less);
    assert_eq!(compare(b"21", b"12"), Ordering::Greater);
}

#[test]
fn first_difference_decides_between_runs_of_one_length() {
    assert_eq!(compare(b"a132", b"a123"), Ordering::Greater);
    assert_eq!(compare(b"a123x", b"a123y"), Ordering::Less);
    assert_eq!(compare(b"1203", b"1230"), Ordering::Less);
}

#[test]
fn equal_strings_compare_equal() {
    assert_eq!(compare(b"a", b"a"), Ordering::Equal);
    assert_eq!(compare(b"", b""), Ordering::Equal);
    assert_eq!(compare(b"file10", b"file10"), Ordering::Equal);
    assert_eq!(compare(b"007", b"007"), Ordering::Equal);
    assert_eq!(compare(b"a1b22c333", b"a1b22c333"), Ordering::Equal);
}

#[test]
fn the_side_that_ends_first_is_less() {
    assert_eq!(compare(b"", b"a"), Ordering::Less);
    assert_eq!(compare(b"a", b""), Ordering::Greater);
    assert_eq!(compare(b"abc", b"ab"), Ordering::Greater);
    assert_eq!(compare(b"ab", b"abc"), Ordering::Less);
    assert_eq!(compare(b"", b"0"), Ordering::Less);
    assert_eq!(compare(b"a1", b"a"), Ordering::Greater);
}

#[test]
fn bytes_outside_runs_are_compared_by_value() {
    assert_eq!(compare(b"a", b"b"), Ordering::Less);
    assert_eq!(compare(b"b", b"a"), Ordering::Greater);
    assert_eq!(compare(b"a", b"1"), Ordering::Greater);
    assert_eq!(compare(b"1", b"a"), Ordering::Less);
    assert_eq!(compare(&[0xff], &[0x00]), Ordering::Greater);
    assert_eq!(compare(b"/", b"0"), Ordering::Less);
    assert_eq!(compare(b":", b"9"), Ordering::Greater);
}

#[test]
fn a_run_ends_at_the_first_byte_that_is_no_digit() {
    assert_eq!(compare(b"12a", b"12b"), Ordering::Less);
    assert_eq!(compare(b"12a3", b"12a10"), Ordering::Less);
    assert_eq!(compare(b"1a", b"10"), Ordering::Less);
    assert_eq!(compare(b"01a", b"01"), Ordering::Greater);
    assert_eq!(compare(b"2a", b"12"), Ordering::Less);
    assert_eq!(compare(b"7-", b"7"), Ordering::Greater);
}

#[test]
fn exchanging_the_sides_reverses_the_order() {
    let samples: Vec<&[u8]> = vec![
        b"", b"a", b"ab", b"abc", b"0", b"00", b"01", b"015", b"1", b"9", b"10", b"12", b"123",
        b"file2", b"file10", b"file02", b"b1", b"b2", b"b10", b"x9y", b"x10y", b"x09y",
    ];
    for a in samples.iter() {
        for b in samples.iter() {
            assert_eq!(compare(a, b), compare(b, a).reverse());
        }
    }
}

#[test]
fn equal_means_identical() {
    let samples: Vec<&[u8]> = vec![
        b"", b"a", b"0", b"00", b"01", b"1", b"10", b"010", b"a1", b"a01", b"a10", b"a1b",
    ];
    for a in samples.iter() {
        for b in samples.iter() {
            assert_eq!(compare(a, b) == Ordering::Equal, a == b);
        }
    }
}

#[test]
fn equality_is_transitive() {
    let a = b"item007".to_vec();
    let b = b"item007".to_vec();
    let c = b"item007".to_vec();
    assert_eq!(compare(&a, &b), Ordering::Equal);
    assert_eq!(compare(&b, &c), Ordering::Equal);
    assert_eq!(compare(&a, &c), Ordering::Equal);
}

#[test]
fn numbered_names_sort_by_number() {
    let sorted = ordered(vec![b"b2", b"b10", b"b1"]);
    let expected: Vec<&[u8]> = vec![b"b1", b"b2", b"b10"];
    assert_eq!(sorted, expected);
}

#[test]
fn the_order_is_transitive() {
    let samples: Vec<&[u8]> = vec![
        b"", b"a", b"ab", b"0", b"00", b"01", b"015", b"1", b"9", b"10", b"12", b"123", b"1a",
        b"0a", b"a0", b"a1", b"a01", b"a10", b"a9", b"/", b":", b"x9y", b"x10y", b"x09y",
    ];
    for a in samples.iter() {
        for b in samples.iter() {
            for c in samples.iter() {
                if compare(a, b) != Ordering::Greater && compare(b, c) != Ordering::Greater {
                    assert!(compare(a, c) != Ordering::Greater);
                    if compare(a, b) == Ordering::Less || compare(b, c) == Ordering::Less {
                        assert_eq!(compare(a, c), Ordering::Less);
                    }
                }
            }
        }
    }
}

#[test]
fn a_string_is_less_than_its_extensions() {
    let stems: Vec<&[u8]> = vec![b"", b"a", b"1", b"0", b"a1", b"a01", b"12b"];
    let tails: Vec<&[u8]> = vec![b"a", b"0", b"1", b"9x", b"/", b":", b"00"];
    for stem in stems.iter() {
        for tail in tails.iter() {
            let mut longer = stem.to_vec();
            longer.extend_from_slice(tail);
            assert_eq!(compare(stem, &longer), Ordering::Less);
            assert_eq!(compare(&longer, stem), Ordering::Greater);
        }
    }
}

#[test]
fn numbers_are_ordered_by_value() {
    let values: Vec<u32> = vec![1, 2, 9, 10, 11, 19, 20, 99, 100, 101, 123, 132, 999, 1000, 4096];
    for x in values.iter() {
        for y in values.iter() {
            let a = format!("{}", x);
            let b = format!("{}", y);
            assert_eq!(compare(a.as_bytes(), b.as_bytes()), x.cmp(y));
        }
    }
}

#[test]
fn a_leading_zero_orders_by_digits_from_the_left() {
    let with_zero: Vec<&[u8]> = vec![b"0", b"00", b"01", b"015", b"09", b"0100", b"007"];
    let others: Vec<&[u8]> = vec![b"0", b"01", b"1", b"12", b"100", b"9", b"015", b"0099"];
    for a in with_zero.iter() {
        for b in others.iter() {
            assert_eq!(compare(a, b), a.cmp(b));
            assert_eq!(compare(b, a), b.cmp(a));
        }
    }
}

#[test]
fn numbered_names_are_ordered_by_number() {
    let numbers: Vec<u32> = vec![1, 2, 9, 10, 11, 20, 99, 100, 250, 1000];
    for stem in ["", "file", "a1b", "v0.", "img-"] {
        for x in numbers.iter() {
            for y in numbers.iter() {
                let a = format!("{}{}", stem, x);
                let b = format!("{}{}", stem, y);
                assert_eq!(compare(a.as_bytes(), b.as_bytes()), x.cmp(y));
            }
        }
    }
}

#[test]
fn a_common_stem_outside_a_run_does_not_matter() {
    let tails: Vec<&[u8]> = vec![b"", b"a", b"0", b"01", b"1", b"10", b"2", b"2x", b"x2", b"015"];
    for stem in [&b"row-"[..], b"7x", b" ", b"a10b"] {
        for a in tails.iter() {
            for b in tails.iter() {
                let mut left = stem.to_vec();
                left.extend_from_slice(a);
                let mut right = stem.to_vec();
                right.extend_from_slice(b);
                assert_eq!(compare(&left, &right), compare(a, b));
            }
        }
    }
}

#[test]
fn a_stem_that_ends_in_a_digit_joins_the_run() {
    assert_eq!(compare(b"9", b"10"), Ordering::Less);
    assert_eq!(compare(b"19", b"110"), Ordering::Less);
    assert_eq!(compare(b"1", b"01"), Ordering::Greater);
    assert_eq!(compare(b"01", b"001"), Ordering::Greater);
    assert_eq!(compare(b"11", b"101"), Ordering::Less);
}
