use datatool::interval::Interval;
use datatool::interval_set::IntervalSet;

#[test]
pub fn test_interval() {
    let interval = Interval::from_start_and_end(1, 3);
    assert_eq!(interval.start(), 1);
    assert_eq!(interval.end(), 3);
    assert_eq!(interval.len(), 2);

    let interval = Interval::from_start_and_len(1, 2);
    assert_eq!(interval.start(), 1);
    assert_eq!(interval.end(), 3);
    assert_eq!(interval.len(), 2);

    let interval = Interval::from_start_and_len(3, 2);
    assert_eq!(interval.start(), 3);
    assert_eq!(interval.end(), 5);
    assert_eq!(interval.len(), 2);

    let interval = Interval::from_start_and_end(1, 1);
    assert_eq!(interval.start(), 1);
    assert_eq!(interval.end(), 1);
    assert_eq!(interval.len(), 0);

    let interval = Interval::from_start_and_len(1, 0);
    assert_eq!(interval.start(), 1);
    assert_eq!(interval.end(), 1);
    assert_eq!(interval.len(), 0);
}

#[test]
pub fn test_interval_set() {
    let mut set = IntervalSet::new();
    set.push(Interval::from_start_and_len(1, 2));
    assert_eq!(set.iter().collect(), vec![Interval::from_start_and_len(1, 2)]);

    let mut set = IntervalSet::new();
    set.push(Interval::from_start_and_len(1, 2));
    set.push(Interval::from_start_and_len(1, 3));
    assert_eq!(set.iter().collect(), vec![Interval::from_start_and_len(1, 3)]);

    let mut set = IntervalSet::new();
    set.push(Interval::from_start_and_len(1, 2));
    set.push(Interval::from_start_and_len(3, 3));
    assert_eq!(set.iter().collect(), vec![Interval::from_start_and_len(1, 5)]);

    let mut set = IntervalSet::new();
    set.push(Interval::from_start_and_len(3, 3));
    set.push(Interval::from_start_and_len(1, 2));
    assert_eq!(set.iter().collect(), vec![Interval::from_start_and_len(1, 5)]);

    let mut set = IntervalSet::new();
    set.push(Interval::from_start_and_len(2, 1));
    set.push(Interval::from_start_and_len(1, 3));
    assert_eq!(set.iter().collect(), vec![Interval::from_start_and_len(1, 3)]);

    let mut set = IntervalSet::new();
    set.push(Interval::from_start_and_len(1, 1));
    set.push(Interval::from_start_and_len(1, 0));
    assert_eq!(set.iter().collect(), vec![Interval::from_start_and_len(1, 1)]);

    let mut set = IntervalSet::new();
    set.push(Interval::from_start_and_len(2, 1));
    set.push(Interval::from_start_and_len(1, 2));
    assert_eq!(set.iter().collect(), vec![Interval::from_start_and_len(1, 2)]);

    let mut set = IntervalSet::new();
    set.push(Interval::from_start_and_len(1, 2));
    set.push(Interval::from_start_and_len(2, 1));
    assert_eq!(set.iter().collect(), vec![Interval::from_start_and_len(1, 2)]);
}

fn set_of(intervals: &[(u32, u32)]) -> IntervalSet {
    let mut set = IntervalSet::new();
    for &(start, end) in intervals {
        set.push(Interval::from_start_and_end(start, end));
    }
    set
}

#[test]
fn push_merges_touching_intervals_and_remove_splits() {
    let mut set = IntervalSet::new();
    set.push(Interval::from_start_and_end(1, 3));
    set.push(Interval::from_start_and_end(3, 6));
    assert_eq!(set.iter().collect(), vec![Interval::from_start_and_end(1, 6)]);
    set.remove(Interval::from_start_and_end(2, 4));
    assert_eq!(
        set.iter().collect(),
        vec![Interval::from_start_and_end(1, 2), Interval::from_start_and_end(4, 6)]
    );
}

#[test]
fn empty_push_changes_nothing() {
    let mut set = set_of(&[(1, 4), (8, 9)]);
    let before = set.clone();
    set.push(Interval::from_start_and_end(5, 5));
    assert_eq!(set, before);
    assert_eq!(set.iter().collect(), before.iter().collect());
    let mut empty = IntervalSet::new();
    empty.push(Interval::from_start_and_end(5, 5));
    assert_eq!(empty.iter().collect(), Vec::<Interval>::new());
    set.remove(Interval::from_start_and_end(2, 2));
    assert_eq!(set, before);
}

#[test]
fn push_gives_the_same_set_in_either_order() {
    let cases = [((1, 5), (3, 9)), ((1, 2), (7, 9)), ((4, 6), (1, 4)), ((0, 10), (2, 3)), ((5, 5), (1, 2))];
    for (a, b) in cases {
        let mut first = set_of(&[(2, 3), (8, 12)]);
        first.push(Interval::from_start_and_end(a.0, a.1));
        first.push(Interval::from_start_and_end(b.0, b.1));
        let mut second = set_of(&[(2, 3), (8, 12)]);
        second.push(Interval::from_start_and_end(b.0, b.1));
        second.push(Interval::from_start_and_end(a.0, a.1));
        assert_eq!(first, second);
    }
}

#[test]
fn push_is_union_and_remove_is_difference_point_by_point() {
    let base = [(2u32, 5u32), (7, 9), (12, 20)];
    for start in 0..24u32 {
        for end in start..24u32 {
            let mut pushed = set_of(&base);
            pushed.push(Interval::from_start_and_end(start, end));
            let mut removed = set_of(&base);
            removed.remove(Interval::from_start_and_end(start, end));
            for p in 0..24u32 {
                let in_base = base.iter().any(|&(s, e)| s <= p && p < e);
                let in_interval = start <= p && p < end;
                let in_pushed = pushed.iter().collect().iter().any(|i| i.start() <= p && p < i.end());
                let in_removed = removed.iter().collect().iter().any(|i| i.start() <= p && p < i.end());
                assert_eq!(in_pushed, in_base || in_interval);
                assert_eq!(in_removed, in_base && !in_interval);
            }
            for members in [pushed.iter().collect(), removed.iter().collect()] {
                for pair in members.windows(2) {
                    assert!(pair[0].end() < pair[1].start());
                }
                for member in members {
                    assert!(member.start() < member.end());
                }
            }
        }
    }
}

#[test]
fn coverage_is_the_sum_of_member_lengths() {
    let set = set_of(&[(1, 4), (10, 12), (3, 6), (100, 101)]);
    assert_eq!(set.iter().collect(), vec![
        Interval::from_start_and_end(1, 6),
        Interval::from_start_and_end(10, 12),
        Interval::from_start_and_end(100, 101),
    ]);
    assert_eq!(set.coverage(), 5 + 2 + 1);
    assert_eq!(set.coverage(), set.iter().collect().iter().map(|i| i.len()).sum::<u32>());
    assert_eq!(IntervalSet::new().coverage(), 0);
    assert_eq!(set_of(&[(0, u32::MAX)]).coverage(), u32::MAX);
}

#[test]
fn contains_looks_at_the_marker_before_the_point() {
    let set = set_of(&[(2, 5), (7, 9)]);
    let expected = [false, false, false, true, true, true, false, false, true, true, false];
    for (p, want) in expected.iter().enumerate() {
        assert_eq!(set.contains(p as u32), *want, "point {}", p);
    }
    assert!(!IntervalSet::new().contains(0));
}

#[test]
fn shift_moves_every_member() {
    let mut set = set_of(&[(2, 5), (7, 9)]);
    set.shift(100);
    assert_eq!(set.iter().collect(), vec![
        Interval::from_start_and_end(102, 105),
        Interval::from_start_and_end(107, 109),
    ]);
    set.shift(0);
    assert_eq!(set.coverage(), 5);
}

#[test]
fn extend_pushes_each_interval() {
    let mut set = set_of(&[(2, 5)]);
    set.extend(&vec![
        Interval::from_start_and_end(5, 6),
        Interval::from_start_and_end(9, 9),
        Interval::from_start_and_end(8, 10),
    ]);
    assert_eq!(set.iter().collect(), vec![
        Interval::from_start_and_end(2, 6),
        Interval::from_start_and_end(8, 10),
    ]);
}

#[test]
fn intersect_keeps_what_lies_in_the_window() {
    let set = set_of(&[(2, 5), (7, 9), (12, 20)]);
    let inside = set.intersect(Interval::from_start_and_end(4, 14));
    assert_eq!(inside.iter().collect(), vec![
        Interval::from_start_and_end(4, 5),
        Interval::from_start_and_end(7, 9),
        Interval::from_start_and_end(12, 14),
    ]);
    assert_eq!(set.intersect(Interval::from_start_and_end(5, 7)).iter().collect(), vec![]);
    assert_eq!(set.intersect(Interval::from_start_and_end(6, 6)).iter().collect(), vec![]);
    assert_eq!(set.intersect(Interval::from_start_and_end(0, u32::MAX)), set);
}

#[test]
fn interval_intersection() {
    let a = Interval::from_start_and_end(2, 8);
    assert_eq!(a.intersection(Interval::from_start_and_end(5, 12)), Interval::from_start_and_end(5, 8));
    assert_eq!(a.intersection(Interval::from_start_and_end(8, 12)), Interval::from_start_and_end(8, 8));
    assert_eq!(a.intersection(Interval::from_start_and_end(9, 12)), Interval::from_start_and_end(0, 0));
    assert!(a.intersection(Interval::from_start_and_end(9, 12)).is_empty());
    assert!(!a.is_empty());
}

#[test]
fn iterator_yields_members_one_by_one() {
    let set = set_of(&[(7, 9), (2, 5)]);
    let mut walk = set.iter();
    assert_eq!(walk.next(), Some(Interval::from_start_and_end(2, 5)));
    assert_eq!(walk.next(), Some(Interval::from_start_and_end(7, 9)));
    assert_eq!(walk.next(), None);
    assert_eq!(walk.next(), None);
}
