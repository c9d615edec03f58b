use enumcombinatorics::combination;
use enumcombinatorics::lex::{counting_down, counting_up, filled, same_tuple};
use enumcombinatorics::multichoose;
use enumcombinatorics::odometer;
use enumcombinatorics::{Combination, Multichoose, Permutation, Sequence};

fn collect_sequence(dim: usize, n: usize) -> Vec<Vec<usize>> {
    let mut iter = Sequence::new(dim, n);
    let mut all: Vec<Vec<usize>> = Vec::new();
    while let Some(t) = iter.next() {
        all.push(t);
    }
    all
}

fn collect_permutation(dim: usize, n: usize) -> Vec<Vec<usize>> {
    let mut iter = Permutation::new(dim, n);
    let mut all: Vec<Vec<usize>> = Vec::new();
    while let Some(t) = iter.next() {
        all.push(t);
    }
    all
}

fn collect_combination(dim: usize, n: usize) -> Vec<Vec<usize>> {
    let mut iter = Combination::new(dim, n);
    let mut all: Vec<Vec<usize>> = Vec::new();
    while let Some(t) = iter.next() {
        all.push(t);
    }
    all
}

fn collect_multichoose(dim: usize, n: usize) -> Vec<Vec<usize>> {
    let mut iter = Multichoose::new(dim, n);
    let mut all: Vec<Vec<usize>> = Vec::new();
    while let Some(t) = iter.next() {
        all.push(t);
    }
    all
}

fn strictly_ascending_order(all: &Vec<Vec<usize>>) -> bool {
    all.windows(2).all(|w| w[0] < w[1])
}

fn binomial(n: usize, k: usize) -> usize {
    if k > n {
        return 0;
    }
    let mut r: usize = 1;
    for i in 0..k {
        r = r * (n - i) / (i + 1);
    }
    r
}

#[test]
fn sequence_emits_every_numeral_in_order() {
    for dim in 0..4usize {
        for n in 0..5usize {
            let all = collect_sequence(dim, n);
            assert_eq!(all.len(), n.pow(dim as u32));
            assert!(strictly_ascending_order(&all));
            for (k, t) in all.iter().enumerate() {
                assert_eq!(t.len(), dim);
                assert!(t.iter().all(|&v| v < n));
                assert_eq!(Sequence::from_index(dim, n, k), Some(t.clone()));
            }
            assert_eq!(Sequence::from_index(dim, n, all.len()), None);
        }
    }
}

#[test]
fn sequence_without_positions_emits_the_empty_tuple_once() {
    let mut iter = Sequence::new(0, 7);
    assert_eq!(iter.next(), Some(vec![]));
    assert_eq!(iter.next(), None);
    assert_eq!(iter.next(), None);
    let mut none = Sequence::new(0, 0);
    assert_eq!(none.next(), Some(vec![]));
    assert_eq!(none.next(), None);
}

#[test]
fn sequence_without_values_emits_nothing() {
    let mut iter = Sequence::new(2, 0);
    assert_eq!(iter.get(), None);
    assert_eq!(iter.next(), None);
    assert_eq!(iter.next(), None);
    assert_eq!(iter.get(), None);
}

#[test]
fn from_index_decodes_most_significant_first() {
    assert_eq!(Sequence::from_index(3, 4, 0), Some(vec![0, 0, 0]));
    assert_eq!(Sequence::from_index(3, 4, 27), Some(vec![1, 2, 3]));
    assert_eq!(Sequence::from_index(3, 4, 63), Some(vec![3, 3, 3]));
    assert_eq!(Sequence::from_index(3, 4, 64), None);
    assert_eq!(Sequence::from_index(3, 10, 907), Some(vec![9, 0, 7]));
    assert_eq!(Sequence::from_index(0, 5, 0), Some(vec![]));
    assert_eq!(Sequence::from_index(0, 5, 1), None);
    assert_eq!(Sequence::from_index(0, 0, 0), Some(vec![]));
    assert_eq!(Sequence::from_index(2, 0, 0), None);
    assert_eq!(Sequence::from_index(1, 1, 0), Some(vec![0]));
    assert_eq!(Sequence::from_index(1, 1, 1), None);
}

#[test]
fn from_index_takes_every_index_where_the_count_exceeds_the_word() {
    assert_eq!(
        Sequence::from_index(2, usize::MAX, usize::MAX),
        Some(vec![1, 0])
    );
    assert_eq!(
        Sequence::from_index(3, usize::MAX, usize::MAX - 1),
        Some(vec![0, 0, usize::MAX - 1])
    );
}

#[test]
fn get_follows_advance() {
    let mut s = Sequence::new(2, 3);
    assert_eq!(s.get(), None);
    s.advance();
    assert_eq!(s.get(), Some(&[0usize, 0][..]));
    s.advance();
    assert_eq!(s.get(), Some(&[0usize, 1][..]));
    assert_eq!(s.get(), Some(&[0usize, 1][..]));

    let mut p = Permutation::new(2, 3);
    assert_eq!(p.get(), None);
    p.advance();
    assert_eq!(p.get(), Some(&[0usize, 1][..]));
    p.advance();
    assert_eq!(p.get(), Some(&[0usize, 2][..]));

    let mut c = Combination::new(2, 3);
    assert_eq!(c.get(), None);
    c.advance();
    assert_eq!(c.get(), Some(&[0usize, 1][..]));
    c.advance();
    assert_eq!(c.get(), Some(&[0usize, 2][..]));

    let mut m = Multichoose::new(2, 3);
    assert_eq!(m.get(), None);
    m.advance();
    assert_eq!(m.get(), Some(&[0usize, 0][..]));
    m.advance();
    assert_eq!(m.get(), Some(&[0usize, 1][..]));
}

#[test]
fn exhaustion_is_final() {
    let mut s = Sequence::new(2, 2);
    let mut p = Permutation::new(2, 2);
    let mut c = Combination::new(2, 2);
    let mut m = Multichoose::new(2, 2);
    while s.next().is_some() {}
    while p.next().is_some() {}
    while c.next().is_some() {}
    while m.next().is_some() {}
    for _ in 0..5 {
        assert_eq!(s.next(), None);
        assert_eq!(s.get(), None);
        assert_eq!(p.next(), None);
        assert_eq!(p.get(), None);
        assert_eq!(c.next(), None);
        assert_eq!(c.get(), None);
        assert_eq!(m.next(), None);
        assert_eq!(m.get(), None);
        s.advance();
        p.advance();
        c.advance();
        m.advance();
    }
}

#[test]
fn permutation_of_two_out_of_three() {
    let all = collect_permutation(2, 3);
    let expected: Vec<Vec<usize>> = vec![
        vec![0, 1],
        vec![0, 2],
        vec![1, 0],
        vec![1, 2],
        vec![2, 0],
        vec![2, 1],
    ];
    assert_eq!(all, expected);
    assert_eq!(all.len(), 6);
}

#[test]
fn permutation_emits_every_arrangement_in_order() {
    for n in 0..6usize {
        for dim in 0..=n {
            let all = collect_permutation(dim, n);
            let mut count: usize = 1;
            for i in 0..dim {
                count *= n - i;
            }
            assert_eq!(all.len(), count);
            assert!(strictly_ascending_order(&all));
            for t in all.iter() {
                assert_eq!(t.len(), dim);
                assert!(t.iter().all(|&v| v < n));
                for i in 0..dim {
                    for j in 0..i {
                        assert_ne!(t[i], t[j]);
                    }
                }
            }
            assert_eq!(Permutation::new(dim, n).size_hint(), (0, Some(count)));
        }
    }
}

#[test]
fn permutation_size_hint() {
    assert_eq!(Permutation::new(3, 4).size_hint(), (0, Some(24)));
    assert_eq!(Permutation::new(2, 8).size_hint(), (0, Some(56)));
    assert_eq!(Permutation::new(0, 0).size_hint(), (0, Some(1)));
    assert_eq!(Permutation::new(1, usize::MAX).size_hint(), (0, Some(usize::MAX)));
    assert_eq!(Permutation::new(2, usize::MAX).size_hint(), (0, None));
    let mut p = Permutation::new(2, 3);
    p.advance();
    p.advance();
    assert_eq!(p.size_hint(), (0, Some(6)));
}

#[test]
fn combination_of_three_out_of_four() {
    let all = collect_combination(3, 4);
    let expected: Vec<Vec<usize>> =
        vec![vec![0, 1, 2], vec![0, 1, 3], vec![0, 2, 3], vec![1, 2, 3]];
    assert_eq!(all, expected);
}

#[test]
fn combination_emits_every_subset_in_order() {
    for n in 0..8usize {
        for dim in 0..=n {
            let all = collect_combination(dim, n);
            assert_eq!(all.len(), binomial(n, dim));
            assert!(strictly_ascending_order(&all));
            for t in all.iter() {
                assert_eq!(t.len(), dim);
                assert!(t.iter().all(|&v| v < n));
                assert!(t.windows(2).all(|w| w[0] < w[1]));
            }
        }
    }
}

#[test]
fn combination_carries_over_a_long_tail() {
    let mut state: Vec<usize> = vec![0, 3, 4, 5];
    combination::step(&mut state, 6);
    assert_eq!(state, vec![1, 2, 3, 4]);
    let mut state: Vec<usize> = vec![1, 5, 6, 7, 8];
    combination::step(&mut state, 9);
    assert_eq!(state, vec![2, 3, 4, 5, 6]);
    let mut state: Vec<usize> = vec![0, 1, 2];
    combination::step(&mut state, 5);
    assert_eq!(state, vec![0, 1, 3]);
    let mut state: Vec<usize> = vec![0, 3, 4];
    combination::step(&mut state, 5);
    assert_eq!(state, vec![1, 2, 3]);
}

#[test]
fn combination_edges() {
    assert_eq!(collect_combination(0, 0), vec![Vec::<usize>::new()]);
    assert_eq!(collect_combination(0, 3), vec![Vec::<usize>::new()]);
    assert_eq!(collect_combination(3, 3), vec![vec![0usize, 1, 2]]);
    assert_eq!(collect_combination(1, 3), vec![vec![0usize], vec![1], vec![2]]);
}

#[test]
fn multichoose_of_three_out_of_four() {
    let all = collect_multichoose(3, 4);
    assert_eq!(all.len(), 20);
    assert_eq!(all[0], vec![0, 0, 0]);
    assert_eq!(all[1], vec![0, 0, 1]);
    assert_eq!(all[2], vec![0, 0, 2]);
    assert_eq!(all[3], vec![0, 0, 3]);
    assert_eq!(all[19], vec![3, 3, 3]);
}

#[test]
fn multichoose_emits_every_multiset_in_order() {
    for n in 1..6usize {
        for dim in 0..5usize {
            let all = collect_multichoose(dim, n);
            assert_eq!(all.len(), binomial(n + dim - 1, dim));
            assert!(strictly_ascending_order(&all));
            for t in all.iter() {
                assert_eq!(t.len(), dim);
                assert!(t.iter().all(|&v| v < n));
                assert!(t.windows(2).all(|w| w[0] <= w[1]));
            }
        }
    }
}

#[test]
fn multichoose_step_copies_the_raised_value() {
    let mut state: Vec<usize> = vec![0, 3, 3];
    multichoose::step(&mut state, 4);
    assert_eq!(state, vec![1, 1, 1]);
    let mut state: Vec<usize> = vec![1, 2, 2];
    multichoose::step(&mut state, 4);
    assert_eq!(state, vec![1, 2, 3]);
    let mut state: Vec<usize> = vec![1, 2, 3];
    multichoose::step(&mut state, 4);
    assert_eq!(state, vec![1, 3, 3]);
}

#[test]
fn multichoose_edges() {
    assert_eq!(collect_multichoose(0, 0), vec![Vec::<usize>::new()]);
    assert_eq!(collect_multichoose(0, 4), vec![Vec::<usize>::new()]);
    assert_eq!(collect_multichoose(3, 1), vec![vec![0usize, 0, 0]]);
}

#[test]
fn permutation_edges() {
    assert_eq!(collect_permutation(0, 0), vec![Vec::<usize>::new()]);
    assert_eq!(collect_permutation(0, 4), vec![Vec::<usize>::new()]);
    assert_eq!(collect_permutation(1, 1), vec![vec![0usize]]);
    assert_eq!(
        collect_permutation(2, 2),
        vec![vec![0usize, 1], vec![1, 0]]
    );
}

#[test]
fn odometer_step_carries_to_the_left() {
    let mut state: Vec<usize> = vec![0, 3];
    odometer::step(&mut state, 4);
    assert_eq!(state, vec![1, 0]);
    let mut state: Vec<usize> = vec![1, 2, 0];
    odometer::step(&mut state, 3);
    assert_eq!(state, vec![1, 2, 1]);
    let mut state: Vec<usize> = vec![1, 2, 2];
    odometer::step(&mut state, 3);
    assert_eq!(state, vec![2, 0, 0]);
    let mut state: Vec<usize> = vec![3, 3];
    odometer::step(&mut state, 4);
    assert_eq!(state, vec![4, 0]);
}

#[test]
fn tuple_builders() {
    assert_eq!(filled(3, 7), vec![7, 7, 7]);
    assert_eq!(filled(0, 7), Vec::<usize>::new());
    assert_eq!(counting_up(3, 2), vec![2, 3, 4]);
    assert_eq!(counting_up(0, 2), Vec::<usize>::new());
    assert_eq!(counting_down(3, 5), vec![4, 3, 2]);
    assert_eq!(counting_down(0, 0), Vec::<usize>::new());
    assert!(same_tuple(&vec![1, 2, 3], &vec![1, 2, 3]));
    assert!(!same_tuple(&vec![1, 2, 3], &vec![1, 2, 4]));
    assert!(!same_tuple(&vec![1, 2], &vec![1, 2, 3]));
    assert!(same_tuple(&vec![], &vec![]));
}
