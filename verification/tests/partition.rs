use music_analyzer_generator::{duration_clusters, partitioned_melody, pm_help, ClosedInterval};

fn melody(durations: &[u64]) -> Vec<(u64, u8, u8)> {
    durations.iter().map(|d| (*d, 60, 80)).collect()
}

fn bounds(clusters: &[ClosedInterval]) -> Vec<(usize, usize)> {
    clusters.iter().map(|c| (c.start, c.end)).collect()
}

#[test]
fn short_melodies_are_one_cluster() {
    assert_eq!(bounds(&partitioned_melody(&melody(&[4]), 1)), vec![(0, 0)]);
    assert_eq!(bounds(&partitioned_melody(&melody(&[4, 9, 1]), 3)), vec![(0, 2)]);
    assert_eq!(bounds(&partitioned_melody(&melody(&[4, 9, 1]), 10)), vec![(0, 2)]);
}

#[test]
fn melodies_split_behind_their_longest_duration() {
    let m = melody(&[5, 4, 3, 2, 1]);
    assert_eq!(
        bounds(&partitioned_melody(&m, 2)),
        vec![(0, 0), (1, 1), (2, 2), (3, 4)]
    );
    let m = melody(&[1, 1, 9, 1, 1, 1, 8, 1]);
    assert_eq!(
        bounds(&partitioned_melody(&m, 3)),
        vec![(0, 2), (3, 6), (7, 7)]
    );
}

#[test]
fn of_equal_durations_the_last_is_the_longest() {
    let m = melody(&[7, 7, 1, 1]);
    assert_eq!(bounds(&partitioned_melody(&m, 2)), vec![(0, 1), (2, 3)]);
    let m = melody(&[3, 3, 3, 3, 3]);
    assert_eq!(bounds(&partitioned_melody(&m, 2)), vec![(0, 4)]);
}

#[test]
fn a_longest_last_entry_joins_the_cluster_before_it() {
    let m = melody(&[1, 2, 3, 4, 5]);
    assert_eq!(bounds(&partitioned_melody(&m, 2)), vec![(0, 4)]);
    let m = melody(&[5, 1, 1, 9, 2, 2, 2, 3]);
    assert_eq!(bounds(&partitioned_melody(&m, 3)), vec![(0, 3), (4, 7)]);
    assert_eq!(
        duration_clusters(&m, 3),
        vec![vec![5, 1, 1, 9], vec![2, 2, 2, 3]]
    );
}

#[test]
fn clusters_tile_the_melody() {
    let durations: Vec<u64> = (0..200u64).map(|i| (i * 7919 + 13) % 31).collect();
    let m = melody(&durations);
    for stop_length in 1..6 {
        let clusters = partitioned_melody(&m, stop_length);
        assert_eq!(clusters[0].start, 0);
        assert_eq!(clusters[clusters.len() - 1].end, m.len() - 1);
        for c in clusters.iter() {
            assert!(c.start <= c.end);
            for k in (c.start + stop_length)..=c.end {
                for j in c.start..k {
                    assert!(m[j].0 <= m[k].0);
                }
            }
        }
        for pair in clusters.windows(2) {
            assert_eq!(pair[0].end + 1, pair[1].start);
        }
        let joined: Vec<u64> = duration_clusters(&m, stop_length).concat();
        assert_eq!(joined, durations);
    }
}

#[test]
fn intervals_count_both_ends() {
    let interval = ClosedInterval::new(3, 6);
    assert!(!interval.is_empty());
    assert_eq!(interval.len(), 4);
    assert_eq!(interval.iter(), vec![3, 4, 5, 6]);
    assert!(interval.contains(3));
    assert!(interval.contains(6));
    assert!(!interval.contains(2));
    assert!(!interval.contains(7));
    let single = ClosedInterval::new(5, 5);
    assert_eq!(single.len(), 1);
    assert_eq!(single.iter(), vec![5]);
    let empty = ClosedInterval::new(4, 3);
    assert!(empty.is_empty());
    assert_eq!(empty.len(), 0);
    assert!(empty.iter().is_empty());
    assert!(!empty.contains(3));
    assert!(!empty.contains(4));
    let top = ClosedInterval::new(usize::MAX - 1, usize::MAX);
    assert_eq!(top.len(), 2);
    assert_eq!(top.iter(), vec![usize::MAX - 1, usize::MAX]);
}

#[test]
fn intervals_divide_behind_an_index() {
    let (left, right) = ClosedInterval::new(3, 6).divided(3);
    assert_eq!((left.start, left.end), (3, 3));
    assert_eq!((right.start, right.end), (4, 6));
    let (left, right) = ClosedInterval::new(3, 6).divided(5);
    assert_eq!((left.start, left.end), (3, 5));
    assert_eq!((right.start, right.end), (6, 6));
    let all = ClosedInterval::indices(&vec![9, 9, 9]);
    assert_eq!((all.start, all.end), (0, 2));
    assert_eq!(ClosedInterval::default(), ClosedInterval::new(0, 0));
}

/// The clusters as nested calls give them.
fn nested(m: &[(u64, u8, u8)], start: usize, end: usize, stop_length: usize) -> Vec<(usize, usize)> {
    if end - start + 1 <= stop_length {
        return vec![(start, end)];
    }
    let mut longest = start;
    for i in start..=end {
        if m[i].0 >= m[longest].0 {
            longest = i;
        }
    }
    if longest < end {
        let mut clusters = nested(m, start, longest, stop_length);
        clusters.extend(nested(m, longest + 1, end, stop_length));
        clusters
    } else {
        let mut clusters = nested(m, start, end - 1, stop_length);
        clusters.last_mut().unwrap().1 += 1;
        clusters
    }
}

#[test]
fn clusters_are_those_of_nested_calls() {
    for seed in 0..40u64 {
        let durations: Vec<u64> = (0..120u64)
            .map(|i| (i * (7919 + seed) + seed * seed) % (3 + seed))
            .collect();
        let m = melody(&durations);
        for stop_length in 1..5 {
            assert_eq!(
                bounds(&partitioned_melody(&m, stop_length)),
                nested(&m, 0, m.len() - 1, stop_length)
            );
        }
    }
}

#[test]
fn a_long_rising_melody_is_one_cluster() {
    let durations: Vec<u64> = (0..4000u64).collect();
    let m = melody(&durations);
    assert_eq!(bounds(&partitioned_melody(&m, 3)), vec![(0, 3999)]);
    let clusters = duration_clusters(&m, 3);
    assert_eq!(clusters.len(), 1);
    assert_eq!(clusters[0], durations);
}

#[test]
fn a_range_within_the_stop_length_comes_back_whole() {
    let m = melody(&[4, 9, 1]);
    assert_eq!(bounds(&pm_help(ClosedInterval::new(1, 2), &m, 2)), vec![(1, 2)]);
    assert_eq!(bounds(&pm_help(ClosedInterval::new(2, 1), &m, 1)), vec![(2, 1)]);
    assert_eq!(bounds(&pm_help(ClosedInterval::new(7, 9), &m, 3)), vec![(7, 9)]);
    assert_eq!(bounds(&pm_help(ClosedInterval::new(5, 0), &Vec::new(), 1)), vec![(5, 0)]);
}

#[test]
fn a_range_of_the_melody_is_partitioned_by_itself() {
    let m = melody(&[100, 1, 1, 9, 2, 2, 2, 3, 100]);
    assert_eq!(
        bounds(&pm_help(ClosedInterval::new(1, 7), &m, 3)),
        vec![(1, 3), (4, 7)]
    );
    assert_eq!(
        bounds(&pm_help(ClosedInterval::new(3, 6), &m, 1)),
        vec![(3, 3), (4, 6)]
    );
    for start in 0..m.len() {
        for end in start..m.len() {
            for stop_length in 1..4 {
                assert_eq!(
                    bounds(&pm_help(ClosedInterval::new(start, end), &m, stop_length)),
                    nested(&m, start, end, stop_length)
                );
            }
        }
    }
}
