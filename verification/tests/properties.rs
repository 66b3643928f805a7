use lazysort::heap::HeapSort;
use lazysort::quick::{QuickSort, QuickSortInternal, Recursive, SMALL_POOL};
use lazysort::LazySortIterator;
use std::cmp::Ordering;

/// A fixed scramble of `0..n` with every third value repeated.
fn scrambled(n: usize) -> Vec<u32> {
    let mut state: u64 = 0x2545_f491_4f6c_dd1d;
    let mut v = Vec::with_capacity(n);
    for _ in 0..n {
        state ^= state << 13;
        state ^= state >> 7;
        state ^= state << 17;
        v.push((state % (2 * n as u64 / 3 + 1)) as u32);
    }
    v
}

fn sorted(v: &[u32]) -> Vec<u32> {
    let mut s = v.to_vec();
    s.sort();
    s
}

/// Ranks by `key` alone, so that two values can rank equal and differ.
#[derive(Debug, Clone, Copy, PartialEq, Eq)]
struct Keyed {
    key: u32,
    tag: u32,
}

impl PartialOrd for Keyed {
    fn partial_cmp(&self, other: &Self) -> Option<Ordering> {
        Some(self.cmp(other))
    }
}

impl Ord for Keyed {
    fn cmp(&self, other: &Self) -> Ordering {
        self.key.cmp(&other.key)
    }
}

#[test]
fn duplicates_come_out_ascending_from_both() {
    let v = vec![2, 4, 2, 5, 8, 4, 3, 4, 6];
    let quick: Vec<i32> = v.iter().cloned().quick_sort().collect();
    let heap: Vec<i32> = v.iter().cloned().heap_sort().collect();
    assert_eq!(quick, vec![2, 2, 3, 4, 4, 4, 5, 6, 8]);
    assert_eq!(heap, vec![2, 2, 3, 4, 4, 4, 5, 6, 8]);
}

#[test]
fn duplicates_reversed_come_out_descending() {
    let v = vec![2, 4, 2, 5, 8, 4, 3, 4, 6];
    let mut quick: Vec<i32> = v.iter().cloned().quick_sort().collect();
    quick.reverse();
    assert_eq!(quick, vec![8, 6, 5, 4, 4, 4, 3, 2, 2]);
}

#[test]
fn full_run_is_the_sorted_input() {
    for n in [0usize, 1, 2, 3, 31, 32, 33, 34, 64, 65, 100, 1000, 5000] {
        let v = scrambled(n);
        let quick = v.iter().cloned().quick_sort().collect();
        let heap = v.iter().cloned().heap_sort().collect();
        assert_eq!(sorted(&v), quick, "quick_sort of {} elements", n);
        assert_eq!(sorted(&v), heap, "heap_sort of {} elements", n);
    }
}

#[test]
fn threshold_pool_is_sorted_at_once() {
    let v = scrambled(32);
    assert_eq!(SMALL_POOL, 32);
    let state = QuickSortInternal::new(v.clone());
    match state {
        QuickSortInternal::Base(ref pool) => {
            let mut descending = sorted(&v);
            descending.reverse();
            assert_eq!(pool, &descending);
        }
        QuickSortInternal::Recursive(_) => panic!("a pool of 32 is not partitioned"),
    }
    assert_eq!(v.iter().cloned().quick_sort().collect(), sorted(&v));
}

#[test]
fn pool_above_threshold_is_kept_for_partitioning() {
    let v = scrambled(33);
    let state = QuickSortInternal::new(v.clone());
    match state {
        QuickSortInternal::Base(_) => panic!("a pool of 33 is not sorted at once"),
        QuickSortInternal::Recursive(ref rec) => {
            assert_eq!(rec.greater, v);
            assert!(rec.less.is_none());
        }
    }
    assert_eq!(v.iter().cloned().quick_sort().collect(), sorted(&v));
}

#[test]
fn prefix_is_the_prefix_of_the_sorted_input() {
    let v = scrambled(200);
    let s = sorted(&v);
    for k in [0usize, 1, 2, 10, 33, 100, 199, 200] {
        let mut quick = v.iter().cloned().quick_sort();
        let mut heap = v.iter().cloned().heap_sort();
        assert_eq!(quick.take(k), s[..k].to_vec());
        assert_eq!(heap.take(k), s[..k].to_vec());
        assert_eq!(quick.size_hint(), (200 - k, Some(200 - k)));
        assert_eq!(heap.size_hint(), (200 - k, Some(200 - k)));
        assert_eq!(quick.collect(), s[k..].to_vec());
        assert_eq!(heap.collect(), s[k..].to_vec());
    }
}

#[test]
fn take_beyond_the_end_gives_what_is_there() {
    let v = scrambled(40);
    let mut quick = v.iter().cloned().quick_sort();
    let mut heap = v.iter().cloned().heap_sort();
    assert_eq!(quick.take(41), sorted(&v));
    assert_eq!(heap.take(usize::MAX), sorted(&v));
    assert_eq!(quick.take(5), Vec::<u32>::new());
    assert_eq!(heap.take(5), Vec::<u32>::new());
}

#[test]
fn size_hint_counts_down_on_both_paths() {
    for n in [32usize, 33, 150] {
        let v = scrambled(n);
        let mut quick = v.iter().cloned().quick_sort();
        let mut heap = v.iter().cloned().heap_sort();
        for i in 0..=n {
            assert_eq!(quick.size_hint(), (n - i, Some(n - i)));
            assert_eq!(heap.size_hint(), (n - i, Some(n - i)));
            let q = quick.next();
            let h = heap.next();
            assert_eq!(q.is_some(), i < n);
            assert_eq!(h.is_some(), i < n);
        }
    }
}

#[test]
fn empty_input_ends_at_once() {
    let v: Vec<u64> = vec![];
    let mut quick = v.iter().cloned().quick_sort();
    let mut heap = v.iter().cloned().heap_sort();
    assert_eq!(quick.size_hint(), (0, Some(0)));
    assert_eq!(heap.size_hint(), (0, Some(0)));
    assert_eq!(quick.next(), None);
    assert_eq!(heap.next(), None);
    assert_eq!(quick.size_hint(), (0, Some(0)));
    assert_eq!(heap.size_hint(), (0, Some(0)));
}

#[test]
fn drained_sort_keeps_returning_none() {
    for n in [3usize, 40] {
        let v = scrambled(n);
        let mut quick = v.iter().cloned().quick_sort();
        let mut heap = v.iter().cloned().heap_sort();
        for _ in 0..n {
            assert!(quick.next().is_some());
            assert!(heap.next().is_some());
        }
        for _ in 0..5 {
            assert_eq!(quick.next(), None);
            assert_eq!(heap.next(), None);
            assert_eq!(quick.size_hint(), (0, Some(0)));
            assert_eq!(heap.size_hint(), (0, Some(0)));
        }
    }
}

#[test]
fn both_sorts_agree() {
    for n in [0usize, 1, 9, 32, 33, 500] {
        let v = scrambled(n);
        let quick = QuickSort::new(v.clone()).collect();
        let heap = HeapSort::new(v.clone()).collect();
        assert_eq!(quick, heap);
    }
}

#[test]
fn both_sorts_agree_up_to_equal_ranks() {
    let v: Vec<Keyed> = scrambled(300)
        .into_iter()
        .enumerate()
        .map(|(tag, key)| Keyed { key: key % 17, tag: tag as u32 })
        .collect();
    let quick = QuickSort::new(v.clone()).collect();
    let heap = HeapSort::new(v.clone()).collect();
    assert_eq!(quick.len(), 300);
    assert_eq!(heap.len(), 300);
    for i in 0..300 {
        assert_eq!(quick[i].key, heap[i].key);
    }
    let mut quick_tags: Vec<u32> = quick.iter().map(|k| k.tag).collect();
    let mut heap_tags: Vec<u32> = heap.iter().map(|k| k.tag).collect();
    quick_tags.sort();
    heap_tags.sort();
    let all: Vec<u32> = (0..300).collect();
    assert_eq!(quick_tags, all);
    assert_eq!(heap_tags, all);
}

#[test]
fn sorted_and_reversed_inputs() {
    let up: Vec<u32> = (0..500).collect();
    let down: Vec<u32> = (0..500).rev().collect();
    let same: Vec<u32> = vec![7; 500];
    assert_eq!(up.iter().cloned().quick_sort().collect(), up);
    assert_eq!(down.iter().cloned().quick_sort().collect(), up);
    assert_eq!(same.iter().cloned().quick_sort().collect(), same);
    assert_eq!(up.iter().cloned().heap_sort().collect(), up);
    assert_eq!(down.iter().cloned().heap_sort().collect(), up);
    assert_eq!(same.iter().cloned().heap_sort().collect(), same);
}

#[test]
fn owned_elements_are_moved_not_copied() {
    let words = vec!["pear", "apple", "fig", "apple", "quince"];
    let quick = words.iter().map(|w| w.to_string()).quick_sort().collect();
    let heap = words.iter().map(|w| w.to_string()).heap_sort().collect();
    let expected: Vec<String> =
        vec!["apple", "apple", "fig", "pear", "quince"].into_iter().map(String::from).collect();
    assert_eq!(quick, expected);
    assert_eq!(heap, expected);
}

#[test]
fn recursive_state_steps_through_split_and_pivot() {
    let mut rec = Recursive::new(vec![5u32, 1, 4, 2, 3]);
    assert_eq!(rec.size_hint(), (5, Some(5)));
    assert!(rec.less.is_none());
    assert_eq!(rec.next(), Some(1));
    assert_eq!(rec.size_hint(), (4, Some(4)));
    assert_eq!(rec.greater.last(), Some(&4));
    assert!(rec.less.is_some());
    assert_eq!(rec.next(), Some(2));
    assert_eq!(rec.next(), Some(3));
    assert!(rec.less.is_some());
    assert_eq!(rec.next(), Some(4));
    assert!(rec.less.is_none());
    assert_eq!(rec.greater, vec![5]);
    assert_eq!(rec.next(), Some(5));
    assert_eq!(rec.next(), None);
    assert_eq!(rec.size_hint(), (0, Some(0)));
}

#[test]
fn recursive_state_of_one_and_of_none() {
    let mut one = Recursive::new(vec![9u8]);
    assert_eq!(one.next(), Some(9));
    assert_eq!(one.next(), None);
    let mut none = Recursive::new(Vec::<u8>::new());
    assert_eq!(none.size_hint(), (0, Some(0)));
    assert_eq!(none.next(), None);
}

#[test]
fn internal_state_produces_and_counts() {
    let mut state = QuickSortInternal::new(vec![3i64, -1, 2]);
    assert_eq!(state.size_hint(), (3, Some(3)));
    assert_eq!(state.next(), Some(-1));
    assert_eq!(state.next(), Some(2));
    assert_eq!(state.size_hint(), (1, Some(1)));
    assert_eq!(state.next(), Some(3));
    assert_eq!(state.next(), None);
}

#[test]
fn clone_goes_on_from_the_same_state() {
    for n in [10usize, 100] {
        let v = scrambled(n);
        let mut first = v.iter().cloned().quick_sort();
        assert_eq!(first.take(n / 2), sorted(&v)[..n / 2].to_vec());
        let second = first.clone();
        assert_eq!(second.size_hint(), (n - n / 2, Some(n - n / 2)));
        assert_eq!(first.collect(), sorted(&v)[n / 2..].to_vec());
        assert_eq!(second.collect(), sorted(&v)[n / 2..].to_vec());
    }
}

#[test]
fn clone_of_internal_states() {
    let base = QuickSortInternal::new(vec![2u8, 3, 1]);
    let mut copy = base.clone();
    assert_eq!(copy.next(), Some(1));
    let mut rec = Recursive::new(vec![5u32, 1, 4, 2, 3]);
    assert_eq!(rec.next(), Some(1));
    let mut twin = rec.clone();
    assert_eq!(twin.greater, rec.greater);
    assert_eq!(twin.next(), Some(2));
    assert_eq!(rec.next(), Some(2));
}
