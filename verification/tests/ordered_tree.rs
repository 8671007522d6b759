use std::cmp::Ordering;

use idx_binary::compare;
use idx_file::{Avltriee, AvltrieeSearch, AvltrieeUpdate};

/// A short byte string, held in place, that the tree orders as the column
/// does.
#[derive(Clone, Copy, Default, Debug)]
struct Natural {
    len: usize,
    bytes: [u8; 8],
}

impl Natural {
    fn new(content: &[u8]) -> Natural {
        let mut bytes = [0u8; 8];
        bytes[..content.len()].copy_from_slice(content);
        Natural { len: content.len(), bytes }
    }

    fn content(&self) -> &[u8] {
        &self.bytes[..self.len]
    }
}

impl PartialEq for Natural {
    fn eq(&self, other: &Natural) -> bool {
        compare(self.content(), other.content()) == Ordering::Equal
    }
}

impl Eq for Natural {}

impl PartialOrd for Natural {
    fn partial_cmp(&self, other: &Natural) -> Option<Ordering> {
        Some(compare(self.content(), other.content()))
    }
}

impl Ord for Natural {
    fn cmp(&self, other: &Natural) -> Ordering {
        compare(self.content(), other.content())
    }
}

fn walk(tree: &Avltriee<Natural>) -> Vec<Vec<u8>> {
    tree.iter().map(|row| tree.value(row).unwrap().content().to_vec()).collect()
}

#[test]
fn rows_are_walked_in_natural_order() {
    let mut tree: Avltriee<Natural> = Avltriee::new();
    for content in [&b"b2"[..], b"b10", b"b1"] {
        tree.insert(&Natural::new(content));
    }
    assert_eq!(walk(&tree), vec![b"b1".to_vec(), b"b2".to_vec(), b"b10".to_vec()]);
}

#[test]
fn a_search_finds_the_row_of_equal_bytes() {
    let mut tree: Avltriee<Natural> = Avltriee::new();
    let first = tree.insert(&Natural::new(b"file2"));
    let second = tree.insert(&Natural::new(b"file10"));
    assert_eq!(tree.row(&Natural::new(b"file2")), Some(first));
    assert_eq!(tree.row(&Natural::new(b"file10")), Some(second));
    assert_eq!(tree.row(&Natural::new(b"file02")), None);
    let edge = tree.edge(&Natural::new(b"file10"));
    assert_eq!(edge, (Some(second), Ordering::Equal));
}

#[test]
fn the_walk_stays_ordered_through_inserts_and_deletes() {
    let mut tree: Avltriee<Natural> = Avltriee::new();
    let mut rows = Vec::new();
    for content in [
        &b"n7"[..], b"n10", b"n007", b"m", b"n7", b"", b"n8", b"n70", b"n08", b"n", b"n1x", b"n1",
    ] {
        rows.push(tree.insert(&Natural::new(content)));
    }
    let sorted = |walked: &Vec<Vec<u8>>| {
        walked.windows(2).all(|pair| compare(&pair[0], &pair[1]) != Ordering::Greater)
    };
    let walked = walk(&tree);
    assert_eq!(walked.len(), 12);
    assert!(sorted(&walked));
    tree.delete(rows[1]);
    tree.delete(rows[4]);
    tree.delete(rows[5]);
    let walked = walk(&tree);
    assert_eq!(walked.len(), 9);
    assert!(sorted(&walked));
    assert!(walked.contains(&b"n7".to_vec()));
    assert!(!walked.contains(&b"n10".to_vec()));
    assert!(!walked.contains(&b"".to_vec()));
    assert_eq!(
        walked,
        vec![
            b"m".to_vec(),
            b"n".to_vec(),
            b"n007".to_vec(),
            b"n08".to_vec(),
            b"n1".to_vec(),
            b"n1x".to_vec(),
            b"n7".to_vec(),
            b"n8".to_vec(),
            b"n70".to_vec(),
        ]
    );
}
