use grop::chunk_list::{ChunkList, ChunkListRef};
use grop::codec::Write as _;
use grop::query_eval::{Heap, QueryEval};

fn encode_list(nums: &[u64]) -> Vec<u8> {
    let mut w = ChunkList::builder();
    for n in nums {
        w.add(*n);
    }
    let mut bytes = vec![];
    w.build().write(&mut bytes);
    bytes
}

fn leaves<'a>(lists: &'a [Vec<u8>]) -> Vec<QueryEval<'a>> {
    lists
        .iter()
        .map(|b| QueryEval::new_leaf(ChunkListRef::from(b).into_iter()))
        .collect()
}

fn drain_heap(h: &mut Heap<'_>) -> Vec<u64> {
    let mut out = vec![];
    while h.advance().unwrap() {
        out.push(h.current());
    }
    out
}

fn drain(q: &mut QueryEval<'_>) -> Vec<u64> {
    let mut out = vec![];
    while q.advance().unwrap() {
        out.push(q.current());
    }
    out
}

fn heap_of(numbers: &[&[u64]]) -> Vec<Vec<u8>> {
    numbers.iter().map(|n| encode_list(n)).collect()
}

#[test]
fn one() {
    let lists = heap_of(&[&[1]]);
    let mut h = Heap::new(leaves(&lists));
    assert_eq!(drain_heap(&mut h), vec![1]);
}

#[test]
fn three() {
    let lists = heap_of(&[&[1, 2, 3]]);
    let mut h = Heap::new(leaves(&lists));
    assert_eq!(drain_heap(&mut h), vec![1, 2, 3]);
}

#[test]
fn one_each() {
    let lists = heap_of(&[&[1], &[4]]);
    let mut h = Heap::new(leaves(&lists));
    assert_eq!(drain_heap(&mut h), vec![1, 4]);
}

#[test]
fn low_then_high() {
    let lists = heap_of(&[&[1, 2, 3], &[4, 5, 6]]);
    let mut h = Heap::new(leaves(&lists));
    assert_eq!(drain_heap(&mut h), vec![1, 2, 3, 4, 5, 6]);
}

#[test]
fn high_then_low() {
    let lists = heap_of(&[&[4, 5, 6], &[1, 2, 3]]);
    let mut h = Heap::new(leaves(&lists));
    assert_eq!(drain_heap(&mut h), vec![1, 2, 3, 4, 5, 6]);
}

#[test]
fn odds_and_evens() {
    let lists = heap_of(&[&[1, 3, 5], &[2, 4, 6]]);
    let mut h = Heap::new(leaves(&lists));
    assert_eq!(drain_heap(&mut h), vec![1, 2, 3, 4, 5, 6]);
}

#[test]
fn big_and_little() {
    let lists = heap_of(&[&[2, 3, 4, 5, 6], &[1]]);
    let mut h = Heap::new(leaves(&lists));
    assert_eq!(drain_heap(&mut h), vec![1, 2, 3, 4, 5, 6]);
}

#[test]
fn dups() {
    let lists = heap_of(&[&[1, 2, 3], &[1, 2, 3]]);
    let mut h = Heap::new(leaves(&lists));
    assert_eq!(drain_heap(&mut h), vec![1, 1, 2, 2, 3, 3]);
}

#[test]
fn heap_one_each() {
    let lists = heap_of(&[&[1], &[4], &[10]]);
    let mut h = Heap::new(leaves(&lists));
    assert_eq!(drain_heap(&mut h), vec![1, 4, 10]);
}

#[test]
fn heap_low_then_high() {
    let lists = heap_of(&[&[1, 2], &[3, 4], &[5, 6]]);
    let mut h = Heap::new(leaves(&lists));
    assert_eq!(drain_heap(&mut h), vec![1, 2, 3, 4, 5, 6]);
}

#[test]
fn heap_high_then_low() {
    let lists = heap_of(&[&[5, 6], &[3, 4], &[1, 2]]);
    let mut h = Heap::new(leaves(&lists));
    assert_eq!(drain_heap(&mut h), vec![1, 2, 3, 4, 5, 6]);
}

#[test]
fn heap_big_and_little() {
    let lists = heap_of(&[&[3, 4, 5, 6], &[1], &[2]]);
    let mut h = Heap::new(leaves(&lists));
    assert_eq!(drain_heap(&mut h), vec![1, 2, 3, 4, 5, 6]);
}

#[test]
fn heap_dups() {
    let lists = heap_of(&[&[1, 2], &[1, 2], &[1, 2]]);
    let mut h = Heap::new(leaves(&lists));
    assert_eq!(drain_heap(&mut h), vec![1, 1, 1, 2, 2, 2]);
}

#[test]
fn heap_one_of_each_of_six() {
    let lists = heap_of(&[&[1], &[2], &[1], &[3], &[1], &[2], &[4]]);
    let mut h = Heap::new(leaves(&lists));
    assert_eq!(drain_heap(&mut h), vec![1, 1, 1, 2, 2, 3, 4]);
}

#[test]
fn or_one() {
    let lists = heap_of(&[&[1, 2]]);
    let mut q = QueryEval::new_or(leaves(&lists));
    assert_eq!(drain(&mut q), vec![1, 2]);
}

#[test]
fn two() {
    let lists = heap_of(&[&[1, 2], &[3]]);
    let mut q = QueryEval::new_or(leaves(&lists));
    assert_eq!(drain(&mut q), vec![1, 2, 3]);
}

#[test]
fn two_dupes() {
    let lists = heap_of(&[&[1, 2], &[2, 3]]);
    let mut q = QueryEval::new_or(leaves(&lists));
    assert_eq!(drain(&mut q), vec![1, 2, 3]);
}

#[test]
fn or_three() {
    let lists = heap_of(&[&[1, 2], &[3], &[4, 5]]);
    let mut q = QueryEval::new_or(leaves(&lists));
    assert_eq!(drain(&mut q), vec![1, 2, 3, 4, 5]);
}

#[test]
fn or_three_dupes() {
    let lists = heap_of(&[&[1, 2], &[2, 3], &[1, 3]]);
    let mut q = QueryEval::new_or(leaves(&lists));
    assert_eq!(drain(&mut q), vec![1, 2, 3]);
}

#[test]
fn and_one() {
    let lists = heap_of(&[&[1, 2]]);
    let mut q = QueryEval::new_and(leaves(&lists));
    assert_eq!(drain(&mut q), vec![1, 2]);
}

#[test]
fn two_no_dupes() {
    let lists = heap_of(&[&[1, 2], &[3]]);
    let mut q = QueryEval::new_and(leaves(&lists));
    assert_eq!(drain(&mut q), Vec::<u64>::new());
}

#[test]
fn two_one_dupe() {
    let lists = heap_of(&[&[1, 2], &[2, 3]]);
    let mut q = QueryEval::new_and(leaves(&lists));
    assert_eq!(drain(&mut q), vec![2]);
}

#[test]
fn two_two_dupe() {
    let lists = heap_of(&[&[1, 2, 3], &[2, 3, 4]]);
    let mut q = QueryEval::new_and(leaves(&lists));
    assert_eq!(drain(&mut q), vec![2, 3]);
}

#[test]
fn and_three_dupes() {
    let lists = heap_of(&[&[1, 2, 3, 4, 5], &[3, 4, 5, 6], &[3, 4, 5]]);
    let mut q = QueryEval::new_and(leaves(&lists));
    assert_eq!(drain(&mut q), vec![3, 4, 5]);
}

#[test]
fn three_no_dupes() {
    let lists = heap_of(&[&[1, 2], &[2, 3], &[1, 3]]);
    let mut q = QueryEval::new_and(leaves(&lists));
    assert_eq!(drain(&mut q), Vec::<u64>::new());
}

#[test]
fn four_dupes() {
    let lists = heap_of(&[&[1, 2, 3, 4, 5], &[3, 4, 5, 6], &[3, 4, 5], &[3, 4]]);
    let mut q = QueryEval::new_and(leaves(&lists));
    assert_eq!(drain(&mut q), vec![3, 4]);
}

#[test]
fn match_all_bounded() {
    let mut q = QueryEval::new_match_all(3);
    assert_eq!(drain(&mut q), vec![0, 1, 2, 3]);
}

#[test]
fn match_none_empty() {
    let mut q = QueryEval::MatchNone;
    assert_eq!(drain(&mut q), Vec::<u64>::new());
}

#[test]
fn ascending_and_terminating() {
    // candidates come strictly ascending, whatever the tree shape
    let lists = heap_of(&[&[1, 2, 9], &[2, 7, 9], &[0, 2, 9, 11]]);
    let ands = QueryEval::new_and(leaves(&lists));
    let extra = heap_of(&[&[4, 5]]);
    let ors = QueryEval::new_or(vec![ands, QueryEval::new_leaf(
        ChunkListRef::from(&extra[0]).into_iter(),
    )]);
    let mut q = ors;
    let got = drain(&mut q);
    assert_eq!(got, vec![2, 4, 5, 9]);
    for w in got.windows(2) {
        assert!(w[0] < w[1]);
    }
}
