use batched_dfs::adapter::{Adapter, CappedBinaryTree, Comb, CompleteBinaryTree};
use batched_dfs::reader::flat;
use batched_dfs::stack::Stack;

fn take<A: Adapter>(s: &mut Stack<A>, n: usize) -> Vec<i64> {
    let mut out: Vec<i64> = Vec::new();
    while out.len() < n {
        match s.next() {
            Some(v) => out.push(v),
            None => break,
        }
    }
    out
}

fn drain<A: Adapter>(s: &mut Stack<A>) -> Vec<i64> {
    take(s, 1_000_000)
}

#[test]
fn stack_with_binary_tree() {
    let a = CompleteBinaryTree { batching: 2 };
    let mut s = Stack::new(a);
    let out = take(&mut s, 8);
    assert_eq!(out, vec![1, 11, 111, 1111, 11111, 111111, 1111111, 11111111]);
}

#[test]
fn stack_with_comb() {
    let a = Comb { batching: 1 };
    let mut s = Stack::new(a);
    let out = take(&mut s, 10);
    assert_eq!(
        out,
        vec![1, 11, 111, 1111, 11111, 111111, 1111111, 11111111, 111111111, 1111111111]
    );
}

#[test]
fn test_binary() {
    let a = CompleteBinaryTree { batching: 1 };
    let r = a.root();
    let r = flat(a.nei(&r));
    assert_eq!(r, vec![1, 2, 3]);
    let r = flat(a.nei(&r));
    assert_eq!(r, vec![11, 12, 13, 21, 22, 23, 31, 32, 33]);
}

#[test]
fn test_batched() {
    let a = CompleteBinaryTree { batching: 2 };
    let r = a.root();
    let r = flat(a.nei(&r));
    assert_eq!(r, vec![1, 2, 3]);
    let r = flat(a.nei(&r));
    assert_eq!(r, vec![11, 12, 13, 21, 22, 23, 31, 32, 33]);
    let r = flat(a.nei(&r));
    assert_eq!(r.len(), 27);
    assert_eq!(r[0], 111);
    assert_eq!(r[26], 333);
}

#[test]
fn order_is_independent_of_batching() {
    let depth_first: Vec<i64> = vec![
        1, 11, 111, 112, 113, 12, 121, 122, 123, 13, 131, 132, 133, 2, 21, 211, 212, 213, 22,
        221, 222, 223, 23, 231, 232, 233, 3, 31, 311, 312, 313, 32, 321, 322, 323, 33, 331, 332,
        333,
    ];
    for batching in 1..=6 {
        let mut s = Stack::new(CappedBinaryTree { batching, cap: 33 });
        assert_eq!(drain(&mut s), depth_first, "batch size {}", batching);
    }
}

#[test]
fn two_level_numbering_starts_depth_first() {
    let mut s = Stack::new(CappedBinaryTree { batching: 1, cap: 10 });
    let out = drain(&mut s);
    assert_eq!(out[0..4], [1, 11, 12, 13]);
    assert_eq!(out, vec![1, 11, 12, 13, 2, 21, 22, 23, 3, 31, 32, 33]);
}

#[test]
fn comb_batching_leaks_no_later_sibling() {
    let mut s = Stack::new(Comb { batching: 2 });
    let out = take(&mut s, 12);
    assert_eq!(
        out,
        vec![
            1,
            11,
            111,
            1111,
            11111,
            111111,
            1111111,
            11111111,
            111111111,
            1111111111,
            11111111111,
            111111111111,
        ]
    );
    for v in out {
        let lead = format!("{}", v).chars().next().unwrap();
        assert!(lead == '1' || lead == '2', "value from a later root batch: {}", v);
    }
}

#[test]
fn exhausted_traversal_stays_exhausted() {
    let mut s = Stack::new(CappedBinaryTree { batching: 3, cap: 3 });
    let out = drain(&mut s);
    assert_eq!(out, vec![1, 11, 12, 13, 2, 21, 22, 23, 3, 31, 32, 33]);
    assert_eq!(s.next(), None);
    assert_eq!(s.next(), None);
}

#[test]
fn extend_adds_a_level_without_output() {
    let mut s = Stack::new(CompleteBinaryTree { batching: 1 });
    s.extend();
    s.extend();
    assert_eq!(s.next(), Some(1));
    assert_eq!(s.next(), Some(11));
}

#[test]
fn leaf_only_rule_ends_immediately() {
    let mut s = Stack::new(CappedBinaryTree { batching: 2, cap: -1 });
    assert_eq!(s.next(), None);
    assert_eq!(s.next(), None);
}
