use sudoku_solver::bitset::{BitSetIter, DigitSet, IndexSet};
use sudoku_solver::combination::{index, Combinations};
use sudoku_solver::utils::{box_of, col_of, range, ranges_of, row_of};

#[test]
fn test_digitset() {
    let digit_set = DigitSet::new(0b0000_0010_0000_1010);
    assert_eq!(digit_set.to_vec(), vec![1, 3, 9]);

    let other_set = DigitSet::from_iter(vec![1, 2, 3, 4]);

    assert_eq!(digit_set.union(other_set).to_vec(), vec![1, 2, 3, 4, 9]);
}

#[test]
fn test_indexset() {
    let mut index_set = IndexSet::new(0);

    index_set.insert(1);
    index_set.insert(3);
    index_set.insert(9);

    assert_eq!(index_set.to_vec(), vec![1, 3, 9]);

    index_set.remove(3);
    assert_eq!(index_set.to_vec(), vec![1, 9]);

    let other_set = IndexSet::from_iter(vec![1, 2, 3, 4]);

    assert_eq!(index_set.difference(other_set).to_vec(), vec![9]);

    assert_eq!(index_set.intersection(other_set).to_vec(), vec![1]);
}

#[test]
fn test_pdep() {
    let mut index_set = IndexSet::new(0);

    index_set.insert(1);
    index_set.insert(3);
    index_set.insert(9);
    index_set.insert(80);

    assert_eq!(index(index_set.0, 0), Some(1));
    assert_eq!(index(index_set.0, 1), Some(3));
    assert_eq!(index(index_set.0, 2), Some(9));
    assert_eq!(index(index_set.0, 3), Some(80));
    assert_eq!(index(index_set.0, 4), None);
}

#[test]
fn digit_set_operations_on_example() {
    let a = DigitSet::from_iter(vec![1, 3, 9]);
    let b = DigitSet::from_iter(vec![1, 2, 3, 4]);
    assert_eq!(a.0, 0b0000_0010_0000_1010);
    assert_eq!(a.union(b).to_vec(), vec![1, 2, 3, 4, 9]);
    assert_eq!(a.difference(b).to_vec(), vec![9]);
    assert_eq!(a.intersection(b).to_vec(), vec![1, 3]);
    let mut without_three = a;
    without_three.remove(3);
    assert_eq!(without_three.difference(b).to_vec(), vec![9]);
    assert_eq!(without_three.intersection(b).to_vec(), vec![1]);
    let mut d = a;
    d.difference_mut(b);
    assert_eq!(d.to_vec(), vec![9]);
}

#[test]
fn digit_set_membership_and_size() {
    let mut s = DigitSet::new(0);
    assert_eq!(s.len(), 0);
    s.insert(7);
    s.insert(2);
    s.insert(7);
    assert_eq!(s.len(), 2);
    assert!(s.contains(2));
    assert!(s.contains(7));
    assert!(!s.contains(3));
    assert_eq!(s.pop(), 2);
    s.remove(2);
    assert_eq!(s.to_vec(), vec![7]);
    assert_eq!(DigitSet::new(0b0000_0011_1111_1110).len(), 9);
    assert_eq!(DigitSet::new(u16::MAX).len(), 16);
}

#[test]
fn set_laws_hold_on_examples() {
    let a = DigitSet::new(0b0000_0010_1100_1010);
    let b = DigitSet::new(0b0000_0001_0100_0110);
    for x in 0..16u8 {
        assert_eq!(a.union(b).contains(x), a.contains(x) || b.contains(x));
    }
    assert_eq!(a.difference(b).len() + a.intersection(b).len(), a.len());

    let p = IndexSet::from_iter(vec![0, 5, 64, 80, 127]);
    let q = IndexSet::from_iter(vec![5, 63, 64, 100]);
    for x in 0..128usize {
        assert_eq!(p.union(q).contains(x), p.contains(x) || q.contains(x));
    }
    assert_eq!(p.difference(q).len() + p.intersection(q).len(), p.len());
    let items = p.to_vec();
    assert_eq!(items.len(), p.len());
    assert!(items.windows(2).all(|w| w[0] < w[1]));
    assert_eq!(items, vec![0, 5, 64, 80, 127]);
}

#[test]
fn digit_iteration_steps() {
    let mut it = DigitSet::new(0b0000_0010_0000_1010).into_iter();
    assert_eq!(it.next(), Some(1));
    assert_eq!(it.next(), Some(3));
    assert_eq!(it.next(), Some(9));
    assert_eq!(it.next(), None);
    let s = DigitSet::new(0b0000_0010_0000_1010);
    assert_eq!(s.into_iter().count(), 3);
    assert_eq!(s.into_iter().last(), Some(9));
    assert_eq!(s.into_iter().max(), Some(9));
    assert_eq!(s.into_iter().min(), Some(1));
    assert_eq!(s.into_iter().nth(1), Some(3));
    assert_eq!(s.into_iter().nth(3), None);
    let empty = DigitSet::new(0);
    assert_eq!(empty.into_iter().min(), None);
    assert_eq!(empty.into_iter().max(), None);
    assert_eq!(empty.into_iter().last(), None);
}

#[test]
fn index_iteration_steps() {
    let s = IndexSet::from_iter(vec![3, 63, 64, 80, 127]);
    let mut it = s.into_iter();
    assert_eq!(it.next(), Some(3));
    assert_eq!(it.nth(1), Some(64));
    assert_eq!(it.next(), Some(80));
    assert_eq!(s.into_iter().count(), 5);
    assert_eq!(s.into_iter().last(), Some(127));
    assert_eq!(s.into_iter().max(), Some(127));
    assert_eq!(s.into_iter().min(), Some(3));
    assert_eq!(IndexSet::new(1u128 << 70).into_iter().min(), Some(70));
    assert_eq!(IndexSet::new(1u128 << 70).into_iter().max(), Some(70));
    assert_eq!(IndexSet::new(0b1000).into_iter().max(), Some(3));
    assert_eq!(IndexSet::new(0).into_iter().next(), None);
    assert_eq!(BitSetIter::<usize>(0b110).collect_vec(), vec![1, 2]);
}

#[test]
fn rank_decode_across_halves() {
    let num: u128 = (1u128 << 2) | (1u128 << 63) | (1u128 << 64) | (1u128 << 100);
    assert_eq!(index(num, 0), Some(2));
    assert_eq!(index(num, 1), Some(63));
    assert_eq!(index(num, 2), Some(64));
    assert_eq!(index(num, 3), Some(100));
    assert_eq!(index(num, 4), None);
    assert_eq!(index(0, 0), None);
}

fn all_combinations(members: &[usize], k: usize) -> Vec<Vec<usize>> {
    let source = IndexSet::from_iter(members.to_vec());
    let mut combinations = Combinations::new(source.into_iter(), k);
    let mut out = Vec::new();
    while let Some(c) = combinations.next() {
        out.push(c.to_vec());
    }
    out
}

#[test]
fn combinations_are_complete_and_distinct() {
    let members = [2usize, 7, 11, 40, 80];
    let got = all_combinations(&members, 2);
    assert_eq!(got.len(), 10);
    let mut expected = Vec::new();
    for i in 0..members.len() {
        for j in i + 1..members.len() {
            expected.push(vec![members[i], members[j]]);
        }
    }
    assert_eq!(got, expected);

    let nine: Vec<usize> = (0..9).map(|i| i * 9).collect();
    for (k, count) in [(0usize, 1usize), (1, 9), (2, 36), (3, 84), (4, 126), (9, 1)] {
        let got = all_combinations(&nine, k);
        assert_eq!(got.len(), count);
        let mut sorted = got.clone();
        sorted.sort();
        sorted.dedup();
        assert_eq!(sorted.len(), count);
        assert!(got.iter().all(|c| c.len() == k));
    }
}

#[test]
fn combinations_of_too_few_members_end_at_once() {
    assert!(all_combinations(&[4, 5], 3).is_empty());
    assert!(all_combinations(&[], 1).is_empty());
}

#[test]
fn groups_of_a_cell() {
    assert_eq!(row_of(40), [36, 37, 38, 39, 40, 41, 42, 43, 44]);
    assert_eq!(col_of(40), [4, 13, 22, 31, 40, 49, 58, 67, 76]);
    assert_eq!(box_of(40), [30, 31, 32, 39, 40, 41, 48, 49, 50]);
    assert_eq!(box_of(80), [60, 61, 62, 69, 70, 71, 78, 79, 80]);
    assert_eq!(range(0).to_vec(), vec![0, 1, 2, 3, 4, 5, 6, 7, 8]);
    assert_eq!(range(9).to_vec(), vec![0, 9, 18, 27, 36, 45, 54, 63, 72]);
    assert_eq!(range(26).to_vec(), vec![60, 61, 62, 69, 70, 71, 78, 79, 80]);
    let peers = ranges_of(0);
    assert_eq!(peers.len(), 21);
    assert!(peers.contains(0));
    assert!(peers.contains(20));
    assert!(!peers.contains(21));
}
