use lcov::{LineNum, Range};

fn check_join(expect: Option<(u32, u32)>, range1: (u32, u32), range2: (u32, u32)) {
    let range1 = Range::new(range1.0, range1.1);
    let range2 = Range::new(range2.0, range2.1);
    let expect = expect.map(|expect| Range::new(expect.0, expect.1));
    assert_eq!(expect, range1.join(range2));
    assert_eq!(expect, range2.join(range1));
    assert_eq!(Some(range1), range1.join(range1));
    assert_eq!(Some(range2), range2.join(range2));
}

fn run_join_cases() {
    let max = u32::MAX;
    check_join(Some((0, 3)), (0, 1), (1, 3));
    check_join(Some((0, 3)), (0, 1), (2, 3));
    check_join(Some((0, 3)), (0, 2), (1, 3));
    check_join(Some((0, 3)), (0, 3), (1, 2));
    check_join(Some((0, 4)), (0, 0), (0, 4));
    check_join(Some((0, max)), (0, max), (100, 400));
}

#[test]
fn line_num_join() {
    run_join_cases();
}

#[test]
fn line_filter_join() {
    run_join_cases();
}

#[test]
fn insert() {
    let mut file = LineNum::new();
    file.insert(Range::new(10, 10));
    assert_eq!(file.ranges(), vec![(10, 10)]);
    file.insert(Range::new(15, 20));
    assert_eq!(file.ranges(), vec![(10, 10), (15, 20)]);
    file.insert(Range::new(15, 40));
    assert_eq!(file.ranges(), vec![(10, 10), (15, 40)]);
    file.insert(Range::new(10, 40));
    assert_eq!(file.ranges(), vec![(10, 40)]);
    file.insert(Range::new(50, 100));
    assert_eq!(file.ranges(), vec![(10, 40), (50, 100)]);
}

#[test]
fn line_filter_add_range() {
    let mut file = LineNum::new();
    file.add_range(Range::new(10, 10));
    assert_eq!(file.ranges(), vec![(10, 10)]);
    file.add_range(Range::new(15, 20));
    assert_eq!(file.ranges(), vec![(10, 10), (15, 20)]);
    file.add_range(Range::new(15, 40));
    assert_eq!(file.ranges(), vec![(10, 10), (15, 40)]);
    file.add_range(Range::new(10, 40));
    assert_eq!(file.ranges(), vec![(10, 40), (15, 40)]);
    file.normalize();
    assert_eq!(file.ranges(), vec![(10, 40)]);

    file.add_range(Range::new(50, 100));
    file.normalize();
    assert_eq!(file.ranges(), vec![(10, 40), (50, 100)]);
}

fn gen_file(i: u32, n: u32) -> (LineNum, Vec<bool>) {
    let map = (0..n).map(|j| (i & (1 << j)) != 0).collect::<Vec<_>>();
    let mut file = LineNum::new();
    for (i, &f) in map.iter().enumerate() {
        if f {
            file.add_range(Range::new(i as u32, i as u32));
        }
    }
    file.normalize();
    (file, map)
}

fn run_contains_cases() {
    let n = 8;
    for i in 0..(2u32.pow(n)) {
        let (file, map) = gen_file(i, n);
        for start in 0..n {
            for end in start..n {
                let res = file.contains(Range::new(start, end));
                let cmp = map[(start as usize)..((end + 1) as usize)].iter().any(|&f| f);
                assert_eq!(res, cmp);
            }
        }
    }
}

#[test]
fn line_num_contains() {
    run_contains_cases();
}

#[test]
fn line_filter_contains() {
    run_contains_cases();
}

#[test]
fn join_keeps_apart_ranges_apart() {
    assert_eq!(Range::new(0, 1).join(Range::new(3, 4)), None);
    assert_eq!(Range::new(3, 4).join(Range::new(0, 1)), None);
    assert_eq!(Range::new(5, 2).join(Range::new(7, 9)), Some(Range::new(7, 9)));
    assert_eq!(Range::new(7, 9).join(Range::new(5, 2)), Some(Range::new(7, 9)));
}

#[test]
fn inserting_a_range_twice_changes_nothing() {
    let mut once = LineNum::new();
    once.insert(Range::new(3, 8));
    once.insert(Range::new(20, 30));
    let mut twice = once.clone();
    twice.insert(Range::new(20, 30));
    assert_eq!(once.ranges(), twice.ranges());
    assert_eq!(once.ranges(), vec![(3, 8), (20, 30)]);
}

#[test]
fn coalescing_overlapping_ranges() {
    let mut file = LineNum::new();
    file.insert(Range::new(0, 1));
    file.insert(Range::new(1, 3));
    file.insert(Range::new(2, 3));
    assert_eq!(file.ranges(), vec![(0, 3)]);
}

#[test]
fn full_range_absorbs_everything() {
    let mut file = LineNum::new();
    file.insert(Range::new(0, u32::MAX));
    file.insert(Range::new(100, 400));
    assert_eq!(file.ranges(), vec![(0, u32::MAX)]);
    file.insert(Range::new(u32::MAX, u32::MAX));
    assert_eq!(file.ranges(), vec![(0, u32::MAX)]);
}

#[test]
fn containment_boundary() {
    let mut file = LineNum::new();
    file.insert(Range::from_half_open(3, 5));
    assert_eq!(file.ranges(), vec![(3, 4)]);
    assert!(!file.contains(Range::new(0, 2)));
    assert!(file.contains(Range::new(2, 3)));
    assert!(file.contains(Range::new(4, 5)));
    assert!(!file.contains(Range::new(5, 6)));
}

#[test]
fn invalid_ranges_are_not_inserted() {
    let mut file = LineNum::new();
    file.insert(Range::new(9, 3));
    assert_eq!(file.ranges(), vec![]);
    file.insert(Range::from_half_open(7, 7));
    assert_eq!(file.ranges(), vec![]);
    assert!(!file.contains(Range::full()));
}

#[test]
fn half_open_adapters() {
    assert_eq!(Range::from_half_open(3, 10), Range::new(3, 9));
    assert_eq!(Range::from_half_open(0, 0), Range::new(0, 0));
    assert_eq!(Range::starting_at(7), Range::new(7, u32::MAX));
    assert_eq!(Range::ending_before(7), Range::new(0, 6));
    assert_eq!(Range::full(), Range::new(0, u32::MAX));
    assert_eq!(Range::from_line(12), Range::new(12, 12));
    assert!(Range::new(4, 4).is_valid());
    assert!(!Range::new(5, 4).is_valid());
}

#[test]
fn touching_ranges_join_at_the_top() {
    let max = u32::MAX;
    assert_eq!(Range::new(max - 1, max).join(Range::new(5, max - 2)), Some(Range::new(5, max)));
    let mut file = LineNum::new();
    file.insert(Range::new(10, 19));
    file.insert(Range::new(20, 29));
    assert_eq!(file.ranges(), vec![(10, 29)]);
    file.insert(Range::new(31, 40));
    assert_eq!(file.ranges(), vec![(10, 29), (31, 40)]);
}

#[test]
fn extend_and_from_list() {
    let set = LineNum::from_list(vec![Range::from_half_open(0, 5), Range::from_half_open(10, 20), Range::new(4, 9)]);
    assert_eq!(set.ranges(), vec![(0, 19)]);
    let mut set = LineNum::from_list(vec![Range::new(30, 40), Range::new(9, 3)]);
    set.extend(vec![Range::new(1, 2), Range::new(41, 41)]);
    assert_eq!(set.ranges(), vec![(1, 2), (30, 41)]);
}
