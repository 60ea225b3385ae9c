use pippin::merge::{MergeError, Solver};
use pippin::partition::{LoadError, Partition, PartitionError};
use pippin::state::{replay, MutState, State};

fn contents(s: &State) -> Vec<(u64, Vec<u8>)> {
    (0..s.num_elements()).map(|i| (s.id_at(i), s.elt_at(i).clone())).collect()
}

fn copy_of(p: &Partition, at: usize) -> MutState {
    p.state(at).mutable_copy()
}

/// Pushes a commit on `parent` that puts `elt` under `id`.
fn put(p: &mut Partition, parent: usize, id: u64, elt: &[u8]) -> usize {
    let mut m = copy_of(p, parent);
    if m.is_available(id) {
        m.replace(id, elt.to_vec()).unwrap();
    } else {
        m.insert_with_id(id, elt.to_vec()).unwrap();
    }
    p.push_state(m, Some(parent)).unwrap()
}

const BOTH: [Solver; 2] = [Solver::Ancestor, Solver::Renaming];

#[test]
fn new_partition_has_an_empty_root() {
    let p = Partition::create(7);
    assert_eq!(p.part_id(), 7);
    assert_eq!(p.len(), 1);
    assert_eq!(p.head_indices(), &vec![0]);
    assert!(!p.merge_required());
    assert_eq!(p.tip_index(), Ok(0));
    assert_eq!(p.tip().ok().unwrap().num_elements(), 0);
    assert_eq!(p.tip().ok().unwrap().statesum(), &vec![0u8; 32]);
    assert!(p.parents(0).is_empty());
    assert_eq!(p.diff(0).len(), 0);
}

#[test]
fn push_state_moves_the_tip() {
    let mut p = Partition::create(1);
    let mut m = p.tip().ok().unwrap().mutable_copy();
    assert_eq!(m.insert(b"first".to_vec()), Ok(0));
    assert_eq!(p.push_state(m, None), Ok(1));
    assert_eq!(p.len(), 2);
    assert_eq!(p.head_indices(), &vec![1]);
    assert_eq!(p.parents(1), &vec![0]);
    assert_eq!(contents(p.tip().ok().unwrap()), vec![(0, b"first".to_vec())]);
    assert_eq!(p.diff(1).get(0), Some(Some(&b"first".to_vec())));

    let mut m = p.tip().ok().unwrap().mutable_copy();
    m.insert(b"second".to_vec()).unwrap();
    m.remove(0).unwrap();
    assert_eq!(p.push_state(m, None), Ok(2));
    assert_eq!(p.head_indices(), &vec![2]);
    assert_eq!(p.parents(2), &vec![1]);
    assert_eq!(contents(p.tip().ok().unwrap()), vec![(1, b"second".to_vec())]);
    assert_eq!(contents(p.state(1)), vec![(0, b"first".to_vec())]);
    assert_eq!(contents(p.state(0)), vec![]);
}

#[test]
fn every_commit_replays_from_its_parent() {
    let mut p = Partition::create(1);
    let a = put(&mut p, 0, 1, b"one");
    let b = put(&mut p, a, 2, b"two");
    let c = put(&mut p, a, 1, b"uno");
    let tip = p.merge(&BOTH).unwrap();
    for i in [a, b, c, tip] {
        let parent = p.parents(i)[0];
        let again = replay(p.state(parent), p.diff(i));
        assert_eq!(contents(&again), contents(p.state(i)));
        assert_eq!(again.statesum(), p.state(i).statesum());
    }
}

#[test]
fn an_unchanged_copy_still_makes_a_commit() {
    let mut p = Partition::create(1);
    let m = copy_of(&p, 0);
    assert_eq!(p.push_state(m, None), Ok(1));
    assert_eq!(p.len(), 2);
    assert_eq!(p.diff(1).len(), 0);
    assert_eq!(p.state(1).statesum(), p.state(0).statesum());
}

#[test]
fn pushing_on_an_older_commit_makes_a_second_head() {
    let mut p = Partition::create(1);
    let a = put(&mut p, 0, 1, b"one");
    let b = put(&mut p, a, 2, b"two");
    assert_eq!(p.head_indices(), &vec![b]);
    let c = put(&mut p, a, 3, b"three");
    assert_eq!(p.head_indices(), &vec![b, c]);
    assert!(p.merge_required());
    assert_eq!(p.tip().err(), Some(PartitionError::MergeRequired));
    assert_eq!(p.tip_index(), Err(PartitionError::MergeRequired));
    let m = copy_of(&p, b);
    assert_eq!(p.push_state(m, None), Err(PartitionError::MergeRequired));
    assert_eq!(p.len(), 4);
    let d = put(&mut p, 0, 9, b"nine");
    assert_eq!(p.head_indices(), &vec![b, c, d]);
}

#[test]
fn push_state_needs_its_parent() {
    let mut p = Partition::create(1);
    let a = put(&mut p, 0, 1, b"one");
    let m = copy_of(&p, a);
    assert_eq!(p.push_state(m, Some(2)), Err(PartitionError::MissingParent));
    let m = copy_of(&p, a);
    assert_eq!(p.push_state(m, Some(usize::MAX)), Err(PartitionError::MissingParent));
    let stale = copy_of(&p, 0);
    assert_eq!(p.push_state(stale, None), Err(PartitionError::WrongParent));
    let stale = copy_of(&p, 0);
    assert_eq!(p.push_state(stale, Some(a)), Err(PartitionError::WrongParent));
    assert_eq!(p.len(), 2);
    assert_eq!(p.head_indices(), &vec![a]);
    let stale = copy_of(&p, 0);
    assert_eq!(p.push_state(stale, Some(0)), Ok(2));
}

#[test]
fn find_gives_the_latest_commit_with_a_sum() {
    let mut p = Partition::create(1);
    let a = put(&mut p, 0, 1, b"one");
    let b = put(&mut p, a, 1, b"uno");
    let c = put(&mut p, b, 1, b"one");
    let sum_one = p.state(a).statesum().clone();
    let sum_uno = p.state(b).statesum().clone();
    assert_eq!(p.find(&sum_one), Some(c));
    assert_eq!(p.find(&sum_uno), Some(b));
    assert_eq!(p.find(&[0u8; 32]), Some(0));
    assert_eq!(p.find(&[1u8; 32]), None);
    assert_eq!(p.find(b"short"), None);
}

#[test]
fn ancestor_is_the_latest_common_commit() {
    let mut p = Partition::create(1);
    let a = put(&mut p, 0, 1, b"one");
    let b = put(&mut p, a, 2, b"two");
    let c = put(&mut p, b, 3, b"three");
    let d = put(&mut p, a, 4, b"four");
    let e = put(&mut p, d, 5, b"five");
    let f = put(&mut p, 0, 6, b"six");
    assert_eq!(p.ancestor(c, e), Some(a));
    assert_eq!(p.ancestor(e, c), Some(a));
    assert_eq!(p.ancestor(c, b), Some(b));
    assert_eq!(p.ancestor(b, c), Some(b));
    assert_eq!(p.ancestor(c, c), Some(c));
    assert_eq!(p.ancestor(c, f), Some(0));
    assert_eq!(p.ancestor(0, e), Some(0));
    assert_eq!(p.ancestor(d, b), Some(a));
    assert_eq!(p.ancestor(c, 7), None);
    assert_eq!(p.ancestor(99, 0), None);
}

#[test]
fn ancestor_looks_through_both_parents_of_a_merge() {
    let mut p = Partition::create(1);
    let a = put(&mut p, 0, 1, b"one");
    let b = put(&mut p, a, 2, b"two");
    let c = put(&mut p, a, 3, b"three");
    let m = p.merge(&BOTH).unwrap();
    assert_eq!(p.parents(m), &vec![b, c]);
    let d = put(&mut p, c, 4, b"four");
    let e = put(&mut p, m, 5, b"five");
    assert_eq!(p.ancestor(d, e), Some(c));
    assert_eq!(p.ancestor(e, b), Some(b));
    assert_eq!(p.ancestor(m, d), Some(c));
}

#[test]
fn merge_joins_two_heads() {
    let mut p = Partition::create(1);
    let a = put(&mut p, 0, 1, b"one");
    let b = put(&mut p, a, 2, b"two");
    let c = put(&mut p, a, 1, b"uno");
    assert_eq!(p.merge(&[Solver::Ancestor]), Ok(4));
    assert!(!p.merge_required());
    assert_eq!(p.head_indices(), &vec![4]);
    assert_eq!(p.parents(4), &vec![b, c]);
    assert_eq!(
        contents(p.tip().ok().unwrap()),
        vec![(1, b"uno".to_vec()), (2, b"two".to_vec())]
    );
    assert_eq!(p.diff(4).len(), 1);
    assert_eq!(p.diff(4).get(1), Some(Some(&b"uno".to_vec())));
}

#[test]
fn merge_of_one_head_does_nothing() {
    let mut p = Partition::create(1);
    let a = put(&mut p, 0, 1, b"one");
    assert_eq!(p.merge(&BOTH), Ok(a));
    assert_eq!(p.merge(&[]), Ok(a));
    assert_eq!(p.merge_heads(&BOTH), Ok(None));
    assert_eq!(p.len(), 2);
}

#[test]
fn merging_identical_heads_keeps_the_state_sum() {
    let mut p = Partition::create(1);
    let a = put(&mut p, 0, 1, b"one");
    let b = put(&mut p, a, 2, b"two");
    let c = put(&mut p, a, 2, b"two");
    assert!(p.state(b).same_sum(p.state(c)));
    assert!(p.merge_required());
    let tip = p.merge(&[]).unwrap();
    assert_eq!(p.head_indices(), &vec![tip]);
    assert_eq!(p.state(tip).statesum(), p.state(b).statesum());
    assert_eq!(contents(p.state(tip)), contents(p.state(b)));
    assert_eq!(p.diff(tip).len(), 0);
}

#[test]
fn colliding_inserts_are_renamed_on_merge() {
    let mut p = Partition::create(1);
    let base = put(&mut p, 0, 0, b"root");
    let mut left = copy_of(&p, base);
    let mut right = copy_of(&p, base);
    assert_eq!(left.insert(b"A".to_vec()), Ok(1));
    assert_eq!(right.insert(b"B".to_vec()), Ok(1));
    p.push_state(left, Some(base)).unwrap();
    p.push_state(right, Some(base)).unwrap();
    assert_eq!(p.merge(&[Solver::Ancestor]), Err(MergeError::Conflict(1)));
    let tip = p.merge(&BOTH).unwrap();
    assert_eq!(
        contents(p.state(tip)),
        vec![(0, b"root".to_vec()), (1, b"A".to_vec()), (2, b"B".to_vec())]
    );
}

#[test]
fn failed_merge_leaves_both_heads() {
    let mut p = Partition::create(1);
    let a = put(&mut p, 0, 1, b"one");
    let b = put(&mut p, a, 1, b"uno");
    let c = put(&mut p, a, 1, b"eins");
    assert_eq!(p.merge(&BOTH), Err(MergeError::Conflict(1)));
    assert_eq!(p.merge_heads(&BOTH), Err(MergeError::Conflict(1)));
    assert_eq!(p.len(), 4);
    assert_eq!(p.head_indices(), &vec![b, c]);
    assert!(p.merge_required());
    assert_eq!(contents(p.state(b)), vec![(1, b"uno".to_vec())]);
    assert_eq!(contents(p.state(c)), vec![(1, b"eins".to_vec())]);
}

#[test]
fn merge_joins_three_heads_two_at_a_time() {
    let mut p = Partition::create(1);
    let a = put(&mut p, 0, 1, b"one");
    let b = put(&mut p, a, 2, b"two");
    let c = put(&mut p, a, 3, b"three");
    let d = put(&mut p, a, 4, b"four");
    assert_eq!(p.head_indices(), &vec![b, c, d]);
    assert_eq!(p.merge(&BOTH), Ok(6));
    assert_eq!(p.len(), 7);
    assert_eq!(p.parents(5), &vec![b, c]);
    assert_eq!(p.parents(6), &vec![d, 5]);
    assert_eq!(
        contents(p.tip().ok().unwrap()),
        vec![
            (1, b"one".to_vec()),
            (2, b"two".to_vec()),
            (3, b"three".to_vec()),
            (4, b"four".to_vec())
        ]
    );
}

#[test]
fn a_merge_that_fails_half_way_is_undone() {
    let mut p = Partition::create(1);
    let a = put(&mut p, 0, 1, b"one");
    let b = put(&mut p, a, 2, b"two");
    let c = put(&mut p, a, 3, b"three");
    let d = put(&mut p, a, 2, b"zwei");
    assert_eq!(p.merge(&[Solver::Ancestor]), Err(MergeError::Conflict(2)));
    assert_eq!(p.len(), 5);
    assert_eq!(p.head_indices(), &vec![b, c, d]);
    assert_eq!(p.merge_heads(&[Solver::Ancestor]), Ok(Some(5)));
    assert_eq!(p.head_indices(), &vec![d, 5]);
    assert_eq!(p.merge_heads(&[Solver::Ancestor]), Err(MergeError::Conflict(2)));
    assert_eq!(p.len(), 6);
}

/// Takes the commits of `from`, the first aside, into a new history.
fn reload(from: &Partition) -> Partition {
    let mut to = Partition::create(from.part_id());
    for i in 1..from.len() {
        assert_eq!(to.add_commit(from.record(i)), Ok(i));
    }
    to
}

#[test]
fn a_stored_history_is_built_again_commit_by_commit() {
    let mut p = Partition::create(4);
    let a = put(&mut p, 0, 1, b"one");
    let b = put(&mut p, a, 2, b"two");
    let c = put(&mut p, a, 1, b"uno");
    let m = p.merge(&BOTH).unwrap();
    let d = put(&mut p, m, 3, b"three");
    let q = reload(&p);
    assert_eq!(q.len(), p.len());
    assert_eq!(q.head_indices(), p.head_indices());
    for i in 0..p.len() {
        assert_eq!(q.parents(i), p.parents(i));
        assert_eq!(contents(q.state(i)), contents(p.state(i)));
        assert_eq!(q.state(i).statesum(), p.state(i).statesum());
    }
    assert_eq!(q.parents(m), &vec![b, c]);
    assert_eq!(q.tip_index(), Ok(d));
}

#[test]
fn a_stored_commit_names_its_parents_by_their_sums() {
    let mut p = Partition::create(4);
    let a = put(&mut p, 0, 1, b"one");
    let b = put(&mut p, a, 2, b"two");
    let rec = p.record(b);
    assert_eq!(rec.parents, vec![p.state(a).statesum().clone()]);
    assert_eq!(&rec.sum, p.state(b).statesum());
    assert_eq!(rec.changes.len(), 1);
    assert_eq!(rec.changes.get(2), Some(Some(&b"two".to_vec())));
    let root = p.record(a);
    assert_eq!(root.parents, vec![vec![0u8; 32]]);
}

#[test]
fn a_commit_without_its_parent_is_refused() {
    let mut p = Partition::create(4);
    let a = put(&mut p, 0, 1, b"one");
    let b = put(&mut p, a, 2, b"two");
    let mut q = Partition::create(4);
    assert_eq!(q.add_commit(p.record(b)), Err(LoadError::MissingParent));
    assert_eq!(q.len(), 1);
    assert_eq!(q.add_commit(p.record(a)), Ok(1));
    assert_eq!(q.add_commit(p.record(b)), Ok(2));
    assert_eq!(q.head_indices(), &vec![2]);
}

#[test]
fn a_commit_whose_changes_do_not_give_its_sum_is_refused() {
    let mut p = Partition::create(4);
    let a = put(&mut p, 0, 1, b"one");
    let mut q = Partition::create(4);
    let mut rec = p.record(a);
    rec.sum[0] ^= 1;
    assert_eq!(q.add_commit(rec), Err(LoadError::SumMismatch));
    let mut rec = p.record(a);
    rec.changes.record(1, Some(b"won".to_vec()));
    assert_eq!(q.add_commit(rec), Err(LoadError::SumMismatch));
    let mut rec = p.record(a);
    rec.changes.record(9, None);
    assert_eq!(q.add_commit(rec), Ok(1));
    assert_eq!(q.len(), 2);
}

#[test]
fn a_commit_with_odd_parents_is_refused() {
    let mut p = Partition::create(4);
    let a = put(&mut p, 0, 1, b"one");
    let mut q = Partition::create(4);
    let mut rec = p.record(a);
    rec.parents.clear();
    assert_eq!(q.add_commit(rec), Err(LoadError::BadParents));
    let mut rec = p.record(a);
    rec.parents.push(vec![0u8; 32]);
    assert_eq!(q.add_commit(rec), Err(LoadError::BadParents));
    let mut rec = p.record(a);
    rec.parents.push(vec![0u8; 32]);
    rec.parents.push(vec![0u8; 32]);
    assert_eq!(q.add_commit(rec), Err(LoadError::BadParents));
    let mut rec = p.record(a);
    rec.parents.push(vec![7u8; 32]);
    assert_eq!(q.add_commit(rec), Err(LoadError::MissingParent));
    assert_eq!(q.len(), 1);
}

#[test]
fn a_history_can_start_with_a_snapshot() {
    let mut p = Partition::create(4);
    let a = put(&mut p, 0, 1, b"one");
    let b = put(&mut p, a, 2, b"two");
    let c = put(&mut p, b, 3, b"three");
    let snapshot = replay(p.state(a), p.diff(b));
    let mut q = Partition::from_snapshot(4, snapshot);
    assert_eq!(q.len(), 1);
    assert_eq!(contents(q.tip().ok().unwrap()), contents(p.state(b)));
    assert_eq!(q.add_commit(p.record(a)), Err(LoadError::MissingParent));
    assert_eq!(q.add_commit(p.record(c)), Ok(1));
    assert_eq!(contents(q.tip().ok().unwrap()), contents(p.state(c)));
    assert_eq!(q.tip().ok().unwrap().statesum(), p.state(c).statesum());
}
