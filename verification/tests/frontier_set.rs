use rubiks_solver::collapse::ExtResultCollapse;
use rubiks_solver::heap::MinHeap;
use rubiks_solver::merge::Head;
use rubiks_solver::order::{Comparison, TotalOrder};
use rubiks_solver::sorted_vec::{merge_two, sort_range, SortedVec};

fn sv(items: &[u64]) -> SortedVec<u64> {
    SortedVec::from_vec(items.to_vec())
}

#[test]
fn new_is_empty() {
    let s: SortedVec<u64> = SortedVec::new();
    assert_eq!(s.len(), 0);
    assert!(s.items.is_empty());
}

#[test]
fn from_vec_sorts_and_drops_repeats() {
    assert_eq!(sv(&[5, 3, 9, 3, 1, 9, 9]).items, vec![1, 3, 5, 9]);
    assert_eq!(sv(&[]).items, Vec::<u64>::new());
    assert_eq!(sv(&[7]).items, vec![7]);
    assert_eq!(sv(&[2, 2, 2, 2]).items, vec![2]);
}

#[test]
fn from_vec_on_many_values() {
    let mut input = Vec::new();
    let mut x: u64 = 12345;
    for _ in 0..5000 {
        x = x.wrapping_mul(6364136223846793005).wrapping_add(1442695040888963407);
        input.push((x >> 33) % 1000);
    }
    let got = SortedVec::from_vec(input.clone());
    let mut expected = input;
    expected.sort();
    expected.dedup();
    assert_eq!(got.items, expected);
}

#[test]
fn from_array_sorts_and_drops_repeats() {
    assert_eq!(SortedVec::from_array([4u64, 1, 3, 1]).items, vec![1, 3, 4]);
    assert_eq!(SortedVec::from_array([8u64]).items, vec![8]);
    assert_eq!(SortedVec::<u64>::from_array([]).len(), 0);
}

#[test]
fn sort_range_sorts_only_the_range() {
    let v = vec![9u64, 4, 7, 4, 1, 0];
    assert_eq!(sort_range(&v, 1, 5), vec![1, 4, 7]);
    assert_eq!(sort_range(&v, 2, 2), Vec::<u64>::new());
}

#[test]
fn merge_two_is_the_union() {
    assert_eq!(merge_two(&vec![1u64, 3, 5], &vec![2, 3, 6, 7]), vec![1, 2, 3, 5, 6, 7]);
    assert_eq!(merge_two(&vec![], &vec![4u64]), vec![4]);
}

#[test]
fn insert_keeps_order_and_skips_what_is_there() {
    let mut s: SortedVec<u64> = SortedVec::new();
    for x in [5, 1, 9, 5, 3, 1, 7, 9] {
        s.insert(x);
    }
    assert_eq!(s.items, vec![1, 3, 5, 7, 9]);
    assert_eq!(s.len(), 5);
    s.insert(0);
    s.insert(10);
    assert_eq!(s.items, vec![0, 1, 3, 5, 7, 9, 10]);
}

#[test]
fn index_of_finds_or_says_where_to_put() {
    let s = sv(&[10, 20, 30, 40]);
    assert_eq!(s.index_of(&10), Ok(0));
    assert_eq!(s.index_of(&30), Ok(2));
    assert_eq!(s.index_of(&40), Ok(3));
    assert_eq!(s.index_of(&5), Err(0));
    assert_eq!(s.index_of(&25), Err(2));
    assert_eq!(s.index_of(&45), Err(4));
    assert_eq!(sv(&[]).index_of(&1), Err(0));
}

#[test]
fn intersection_with_gives_the_least_common_value() {
    assert_eq!(sv(&[1, 4, 6, 9]).intersection_with(&sv(&[2, 6, 9])), Some(6));
    assert_eq!(sv(&[1, 4]).intersection_with(&sv(&[2, 6])), None);
    assert_eq!(sv(&[]).intersection_with(&sv(&[2, 6])), None);
    assert_eq!(sv(&[3]).intersection_with(&sv(&[3])), Some(3));
    assert_eq!(sv(&[1, 2, 3]).intersection_with(&sv(&[3, 4, 5])), Some(3));
}

#[test]
fn from_sorted_vecs_merges_and_drops_repeats() {
    let merged = SortedVec::from_sorted_vecs(vec![
        sv(&[1, 4, 7]),
        sv(&[]),
        sv(&[2, 4, 8]),
        sv(&[4]),
        sv(&[0, 9]),
    ]);
    assert_eq!(merged.items, vec![0, 1, 2, 4, 7, 8, 9]);
    assert_eq!(SortedVec::<u64>::from_sorted_vecs(vec![]).len(), 0);
    assert_eq!(SortedVec::from_sorted_vecs(vec![sv(&[]), sv(&[])]).len(), 0);
    assert_eq!(SortedVec::from_sorted_vecs(vec![sv(&[3, 5])]).items, vec![3, 5]);
}

#[test]
fn merge_of_any_partition_is_the_sorted_whole() {
    let whole: Vec<u64> = (0..40).map(|i| (i * 37) % 101).collect();
    let expected = SortedVec::from_vec(whole.clone());
    for k in 1..=whole.len() {
        let size = whole.len().div_ceil(k);
        let parts: Vec<SortedVec<u64>> =
            whole.chunks(size).map(|c| SortedVec::from_vec(c.to_vec())).collect();
        assert_eq!(SortedVec::from_sorted_vecs(parts).items, expected.items, "{k} parts");
    }
}

#[test]
fn heap_gives_the_least_first() {
    let mut heap: MinHeap<u64> = MinHeap::new();
    assert_eq!(heap.len(), 0);
    assert_eq!(heap.pop(), None);
    for x in [5, 3, 8, 1, 9, 3, 7, 0, 6] {
        heap.push(x);
    }
    assert_eq!(heap.len(), 9);
    let mut out = Vec::new();
    while let Some(x) = heap.pop() {
        out.push(x);
    }
    assert_eq!(out, vec![0, 1, 3, 3, 5, 6, 7, 8, 9]);
    assert_eq!(heap.len(), 0);
}

#[test]
fn heads_are_ordered_by_value_then_part() {
    let a = Head { value: 3u64, part: 2 };
    let b = Head { value: 3u64, part: 5 };
    let c = Head { value: 4u64, part: 0 };
    assert_eq!(a.compare(&b), Comparison::Less);
    assert_eq!(b.compare(&a), Comparison::Greater);
    assert_eq!(b.compare(&c), Comparison::Less);
    assert_eq!(c.compare(&a), Comparison::Greater);
    assert_eq!(a.compare(&a), Comparison::Equal);
}

#[test]
fn integers_compare_as_numbers() {
    assert_eq!(1u64.compare(&2), Comparison::Less);
    assert_eq!(2u64.compare(&2), Comparison::Equal);
    assert_eq!(3u64.compare(&2), Comparison::Greater);
}

#[test]
fn collapse_takes_either_side() {
    assert_eq!(Ok::<usize, usize>(3).collapse(), 3);
    assert_eq!(Err::<usize, usize>(4).collapse(), 4);
    assert_eq!(sv(&[10, 20]).index_of(&15).collapse(), 1);
}
