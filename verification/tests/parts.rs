use lazysort::insertion::insertion_sort;
use lazysort::order::is_above;
use lazysort::partition::partition_by_last;
use lazysort::reverse::ReverseOrder;
use std::cmp::Ordering;

/// Ranks by `key` alone, so that two values can rank equal and differ.
#[derive(Debug, Clone, Copy, PartialEq, Eq)]
struct Tagged {
    key: u8,
    tag: char,
}

impl PartialOrd for Tagged {
    fn partial_cmp(&self, other: &Self) -> Option<Ordering> {
        Some(self.cmp(other))
    }
}

impl Ord for Tagged {
    fn cmp(&self, other: &Self) -> Ordering {
        self.key.cmp(&other.key)
    }
}

fn tagged(key: u8, tag: char) -> Tagged {
    Tagged { key, tag }
}

#[test]
fn is_above_is_strict() {
    assert!(is_above(&3, &2));
    assert!(!is_above(&2, &2));
    assert!(!is_above(&1, &2));
}

#[test]
fn insertion_sort_puts_largest_first() {
    let mut v = vec![2, 4, 2, 5, 8, 4, 3, 4, 6];
    insertion_sort(&mut v);
    assert_eq!(v, vec![8, 6, 5, 4, 4, 4, 3, 2, 2]);
}

#[test]
fn insertion_sort_of_none_and_one() {
    let mut none: Vec<u8> = vec![];
    insertion_sort(&mut none);
    assert_eq!(none, Vec::<u8>::new());
    let mut one = vec![1u8];
    insertion_sort(&mut one);
    assert_eq!(one, vec![1]);
}

#[test]
fn insertion_sort_keeps_equal_ranks_in_order() {
    let mut v = vec![
        tagged(1, 'a'),
        tagged(3, 'b'),
        tagged(1, 'c'),
        tagged(2, 'd'),
        tagged(3, 'e'),
        tagged(1, 'f'),
    ];
    insertion_sort(&mut v);
    let tags: String = v.iter().map(|t| t.tag).collect();
    assert_eq!(tags, "bedacf");
}

#[test]
fn partition_puts_what_is_above_the_pivot_first() {
    let mut v = vec![1, 9, 3, 7, 5, 8, 2, 5];
    let split = partition_by_last(&mut v);
    assert_eq!(split, 3);
    assert_eq!(v[7], 5);
    assert!(v[..split].iter().all(|x| *x > 5));
    assert!(v[split..7].iter().all(|x| *x <= 5));
    let mut all = v.clone();
    all.sort();
    assert_eq!(all, vec![1, 2, 3, 5, 5, 7, 8, 9]);
}

#[test]
fn partition_with_nothing_above_and_nothing_else() {
    let mut low = vec![1, 2, 3, 9];
    assert_eq!(partition_by_last(&mut low), 0);
    assert_eq!(low[3], 9);
    let mut high = vec![7, 8, 9, 1];
    assert_eq!(partition_by_last(&mut high), 3);
    assert_eq!(high, vec![7, 8, 9, 1]);
    let mut alone = vec![4];
    assert_eq!(partition_by_last(&mut alone), 0);
    assert_eq!(alone, vec![4]);
}

#[test]
fn reverse_order_compares_the_other_way_round() {
    let two = ReverseOrder(2);
    let five = ReverseOrder(5);
    assert_eq!(two.cmp(&five), Ordering::Greater);
    assert_eq!(five.cmp(&two), Ordering::Less);
    assert_eq!(two.cmp(&ReverseOrder(2)), Ordering::Equal);
    assert_eq!(two.partial_cmp(&five), Some(Ordering::Greater));
    assert_eq!(five.partial_cmp(&two), Some(Ordering::Less));
    assert_eq!(five.partial_cmp(&ReverseOrder(5)), Some(Ordering::Equal));
    assert!(two.outranks(&five));
    assert!(!five.outranks(&two));
    assert!(!two.outranks(&ReverseOrder(2)));
}
