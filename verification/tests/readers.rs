use batched_dfs::batch::Chunks;
use batched_dfs::reader::{flat, BundleReader};

fn pair(parent: i64, children: Vec<i64>) -> (i64, Vec<i64>) {
    (parent, children)
}

/// Interleaved consumption through two handles of one shared reader is, by
/// the single-owner-at-a-time discipline, the same as sequential consumption
/// from the one underlying reader; the driver owns all readers directly.
#[test]
fn test_rc_bundle_reader() {
    let bundle = vec![pair(1, vec![11, 12]), pair(2, vec![21, 22])];
    let mut r = BundleReader::new(bundle);
    assert_eq!(r.consume(), Some(11));
    assert_eq!(r.consume(), Some(12));
    assert_eq!(r.consume(), Some(21));
    assert_eq!(r.consume(), Some(22));
    assert_eq!(r.consume(), None);
}

#[test]
fn test_chunks() {
    let input: Vec<i64> = (0..=10).collect();
    let mut c = Chunks::new(input, 3);
    assert_eq!(c.next(), Some(vec![0, 1, 2]));
    assert_eq!(c.next(), Some(vec![3, 4, 5]));
    assert_eq!(c.next(), Some(vec![6, 7, 8]));
    assert_eq!(c.next(), Some(vec![9, 10]));
    assert_eq!(c.next(), None);
}

#[test]
fn batches_concatenate_to_input() {
    let cases: Vec<(Vec<i64>, usize)> = vec![
        (vec![], 3),
        (vec![7], 3),
        (vec![1, 2, 3], 3),
        (vec![1, 2, 3, 4, 5, 6], 3),
        (vec![1, 2, 3, 4, 5, 6, 7], 3),
        (vec![1, 2, 3, 4], 1),
        (vec![1, 2, 3, 4], 9),
    ];
    for (input, size) in cases {
        let mut c = Chunks::new(input.clone(), size);
        let mut joined: Vec<i64> = Vec::new();
        let mut last_len = size;
        while let Some(group) = c.next() {
            assert!(last_len == size, "only the final batch may be short");
            assert!(group.len() <= size && !group.is_empty());
            last_len = group.len();
            joined.extend(group);
        }
        assert_eq!(joined, input);
    }
}

#[test]
fn consume_exhaustion_is_terminal() {
    let mut r = BundleReader::new(vec![pair(1, vec![11]), pair(2, vec![])]);
    assert_eq!(r.consume(), Some(11));
    assert_eq!(r.consume(), None);
    assert_eq!(r.consume(), None);
    assert_eq!(r.consume(), None);
}

#[test]
fn reclaim_returns_passed_values_in_order() {
    let mut r = BundleReader::new(vec![pair(1, vec![11, 12, 13])]);
    assert_eq!(r.consume(), Some(11));
    assert_eq!(r.consume(), Some(12));
    assert_eq!(r.consume(), Some(13));
    assert_eq!(r.pop_passed_unprepared(), Some(11));
    assert_eq!(r.pop_passed_unprepared(), Some(12));
    assert_eq!(r.pop_passed_unprepared(), Some(13));
    assert_eq!(r.pop_passed_unprepared(), None);
}

#[test]
fn prepared_value_is_owed_to_next_consume() {
    let mut r = BundleReader::new(vec![pair(1, vec![11, 12])]);
    assert_eq!(r.prepare(1), Some(11));
    assert_eq!(r.consume(), Some(11));
    assert_eq!(r.consume(), Some(12));
    assert_eq!(r.consume(), None);
}

#[test]
fn prepare_respects_pull_budget() {
    let mut r = BundleReader::new(vec![pair(1, vec![]), pair(2, vec![21])]);
    assert_eq!(r.prepare(0), None);
    assert_eq!(r.prepare(1), None);
    assert_eq!(r.prepare(1), Some(21));
    assert_eq!(r.consume(), Some(21));
}

#[test]
fn prepare_reclaims_passed_values_first() {
    let mut r = BundleReader::new(vec![pair(1, vec![11, 12])]);
    assert_eq!(r.consume(), Some(11));
    assert_eq!(r.prepare(0), Some(11));
    assert_eq!(r.pop_passed_unprepared(), None);
}

#[test]
fn flat_concatenates_children() {
    let bundle = vec![pair(1, vec![11, 12]), pair(2, vec![]), pair(3, vec![31])];
    assert_eq!(flat(bundle), vec![11, 12, 31]);
    assert_eq!(flat(Vec::new()), Vec::<i64>::new());
}
