use datatool::components::{plan_split, split_components};
use datatool::memory::{MemoryImage, Protection};
use datatool::ngram::{NGramIndex, Similarity};
use datatool::split::{Fraction, SplitBuilder, SplitGroupResult};

const RW: Protection = Protection { read: true, write: true, execute: false };

fn image(regions: &[&[u8]]) -> MemoryImage {
    let mut memory = MemoryImage::new();
    for (i, data) in regions.iter().enumerate() {
        memory.add_region(0x1000 * (i as u32 + 1), RW, data.to_vec(), String::new()).unwrap();
    }
    memory
}

#[test]
fn similarity_of_two_small_programs() {
    let a = NGramIndex::<2>::new(&image(&[b"AAAA"]));
    let b = NGramIndex::<2>::new(&image(&[b"AAAB"]));
    assert_eq!(a.len(), 1);
    assert_eq!(b.len(), 2);
    let s = a.similarity(&b);
    assert_eq!(s, Similarity { intersection: 2, union: 4 });
    assert_eq!(s.intersection as f64 / s.union as f64, 0.5);
    assert_eq!(b.similarity(&a), s);
    assert_eq!(a.similarity(&a), Similarity { intersection: 3, union: 3 });
    assert_eq!(b.similarity(&b), Similarity { intersection: 3, union: 3 });
    assert!(s.exceeds(3, 10));
    assert!(!s.exceeds(1, 2));
    assert!(s.exceeds(499_999, 1_000_000));
    assert!(s.is_similar());
    assert!(!Similarity { intersection: 3, union: 10 }.is_similar());
    assert!(Similarity { intersection: 31, union: 100 }.is_similar());
    assert!(!Similarity { intersection: 0, union: 0 }.is_similar());
}

#[test]
fn windows_do_not_reach_across_regions() {
    let split = NGramIndex::<4>::new(&image(&[b"ABCD", b"EFGH", b"ABC"]));
    let joined = NGramIndex::<4>::new(&image(&[b"ABCDEFGH"]));
    assert_eq!(split.len(), 2);
    assert_eq!(joined.len(), 5);
    assert_eq!(split.similarity(&joined), Similarity { intersection: 2, union: 5 });
    let empty = NGramIndex::<4>::new(&image(&[]));
    assert_eq!(empty.len(), 0);
    assert_eq!(empty.similarity(&joined), Similarity { intersection: 0, union: 5 });
    assert_eq!(empty.similarity(&empty), Similarity { intersection: 0, union: 0 });
    let repeated = NGramIndex::<1>::new(&image(&[b"AAAAB", b"AB"]));
    let other = NGramIndex::<1>::new(&image(&[b"ABBB"]));
    assert_eq!(repeated.similarity(&other), Similarity { intersection: 3, union: 8 });
}

fn fractions(millionths: &[u32]) -> Vec<Fraction> {
    millionths.iter().map(|&m| Fraction { millionths: m }).collect()
}

fn summary(groups: &[SplitGroupResult]) -> Vec<(u64, Vec<usize>)> {
    groups.iter().map(|g| (g.current_size, g.items.clone())).collect()
}

#[test]
fn split_fills_empty_groups_first_then_keeps_to_the_targets() {
    let mut builder = SplitBuilder::new(&fractions(&[800_000, 200_000]));
    builder.push_component(vec![0, 1], 100);
    builder.push_component(vec![2], 50);
    builder.push_component(vec![3, 4, 5], 25);
    assert_eq!(builder.total_size(), 175);
    let groups = builder.build();
    assert_eq!(summary(&groups), vec![(125, vec![0, 1, 3, 4, 5]), (50, vec![2])]);
    assert!(groups.iter().all(|g| g.total_size == 175));
    assert_eq!(groups[0].target_fraction, Fraction { millionths: 800_000 });
    let reached: Vec<f64> = groups.iter().map(|g| g.current_size as f64 / g.total_size as f64).collect();
    assert!((reached[0] - 0.714).abs() < 0.001);
    assert!((reached[1] - 0.286).abs() < 0.001);
}

#[test]
fn split_breaks_ties_by_group_order() {
    let mut builder = SplitBuilder::new(&fractions(&[500_000, 500_000, 0]));
    builder.push_component(vec![0], 10);
    builder.push_component(vec![1], 10);
    // The third group is empty still, and an empty group goes first.
    builder.push_component(vec![2], 10);
    // All hold the same: the group furthest below its target is the first.
    builder.push_component(vec![3], 10);
    builder.push_component(vec![4], 1);
    assert_eq!(summary(&builder.build()), vec![(20, vec![0, 3]), (11, vec![1, 4]), (10, vec![2])]);
    let mut empty = SplitBuilder::new(&fractions(&[1_000_000]));
    empty.push_component(vec![], 0);
    empty.push_component(vec![7], 0);
    assert_eq!(summary(&empty.build()), vec![(0, vec![7])]);
}

#[test]
fn every_item_lands_in_one_group() {
    let mut builder = SplitBuilder::new(&fractions(&[600_000, 300_000, 100_000]));
    let mut next = 0usize;
    for size in [40u64, 7, 7, 13, 1, 90, 2, 2, 2, 35] {
        let items: Vec<usize> = (next..next + 3).collect();
        next += 3;
        builder.push_component(items, size);
    }
    let groups = builder.build();
    let mut all: Vec<usize> = groups.iter().flat_map(|g| g.items.iter().copied()).collect();
    all.sort();
    assert_eq!(all, (0..30).collect::<Vec<usize>>());
    assert_eq!(groups.iter().map(|g| g.current_size).sum::<u64>(), 199);
}

#[test]
fn components_are_pushed_largest_first() {
    let sizes = vec![10u64, 20, 30, 40, 50, 60];
    let components = vec![vec![0, 1], vec![2], vec![3, 4], vec![5]];
    let groups = split_components(&sizes, components, &fractions(&[800_000, 200_000])).unwrap();
    // Sizes 30, 30, 90, 60: pushed as 90, 60, then the two of 30 in their order.
    assert_eq!(summary(&groups), vec![(150, vec![3, 4, 0, 1, 2]), (60, vec![5])]);
    assert_eq!(split_components(&vec![u64::MAX, 1], vec![vec![0, 1]], &fractions(&[1_000_000])), None);
    assert_eq!(
        split_components(&vec![u64::MAX, 1], vec![vec![0], vec![1]], &fractions(&[1_000_000])),
        None
    );
    assert_eq!(
        split_components(&vec![], vec![], &fractions(&[1_000_000])).map(|g| summary(&g)),
        Some(vec![(0, vec![])])
    );
}

#[test]
fn linked_samples_stay_together() {
    let sizes = vec![5u64, 5, 5, 5, 5, 100];
    let links = vec![(0, 1), (1, 2), (4, 3)];
    let groups = plan_split(&sizes, &links, &fractions(&[800_000, 200_000])).unwrap();
    let mut seen: Vec<usize> = groups.iter().flat_map(|g| g.items.iter().copied()).collect();
    seen.sort();
    assert_eq!(seen, vec![0, 1, 2, 3, 4, 5]);
    let group_of = |item: usize| groups.iter().position(|g| g.items.contains(&item)).unwrap();
    assert_eq!(group_of(0), group_of(1));
    assert_eq!(group_of(1), group_of(2));
    assert_eq!(group_of(3), group_of(4));
    // The largest component goes to the group with the largest target.
    assert_eq!(group_of(5), 0);
    assert_eq!(group_of(0), 1);
    // The second group holds 15 of 115, which is below its target: it takes the last component.
    assert_eq!(group_of(3), 1);
    assert_eq!(groups[0].current_size, 100);
    assert_eq!(groups[1].current_size, 25);
}
