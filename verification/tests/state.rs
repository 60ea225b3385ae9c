use pippin::state::{commit, replay, same_bytes, Diff, ElementError, MutState, State};

fn contents(s: &State) -> Vec<(u64, Vec<u8>)> {
    (0..s.num_elements()).map(|i| (s.id_at(i), s.elt_at(i).clone())).collect()
}

fn sealed(m: MutState) -> State {
    commit(&State::new(), m).0
}

fn state_of(elts: &[(u64, &[u8])]) -> State {
    let mut m = State::new().mutable_copy();
    for (id, elt) in elts {
        m.insert_with_id(*id, elt.to_vec()).unwrap();
    }
    sealed(m)
}

const SUM_5_ABC: [u8; 32] = [
    0xae, 0x9b, 0xf5, 0x77, 0x50, 0x35, 0x7f, 0x27, 0xe0, 0xac, 0x7e, 0x04, 0x74, 0x36, 0x59, 0xbf,
    0x62, 0xee, 0xd6, 0x72, 0x03, 0xc0, 0x24, 0x4b, 0x56, 0xf3, 0x49, 0xc2, 0x41, 0x52, 0x16, 0x44,
];

const SUM_5_ABC_AND_7_EMPTY: [u8; 32] = [
    0x04, 0x73, 0x6a, 0xb7, 0xa0, 0x0b, 0x56, 0x7e, 0x4e, 0xe1, 0x0e, 0x1e, 0xf4, 0xfa, 0x60, 0xaa,
    0xf3, 0x62, 0x43, 0x79, 0x16, 0x5f, 0x4e, 0xf0, 0x3a, 0x61, 0x88, 0x81, 0x7a, 0x48, 0x93, 0x70,
];

const SUM_0_FIRST: [u8; 32] = [
    0xb2, 0x22, 0xae, 0x4f, 0x77, 0x78, 0x7a, 0x26, 0xf9, 0xad, 0x54, 0x09, 0xb9, 0xe5, 0xfb, 0x7b,
    0xde, 0x76, 0x04, 0x41, 0xc2, 0x21, 0xbb, 0x86, 0x54, 0xe7, 0xc6, 0x00, 0x27, 0x98, 0x4f, 0xdd,
];

#[test]
fn empty_state_has_the_zero_sum() {
    let s = State::new();
    assert_eq!(s.num_elements(), 0);
    assert_eq!(s.statesum(), &vec![0u8; 32]);
    assert!(!s.is_available(0));
    assert_eq!(s.get(0), None);
    assert_eq!(s.next_free(), Some(0));
}

#[test]
fn state_sum_is_the_digest_of_identifier_and_bytes() {
    let s = state_of(&[(5, b"abc")]);
    assert_eq!(s.statesum().as_slice(), &SUM_5_ABC);
    let mut m = State::new().mutable_copy();
    assert_eq!(m.insert(b"first".to_vec()), Ok(0));
    assert_eq!(sealed(m).statesum().as_slice(), &SUM_0_FIRST);
}

#[test]
fn state_sum_combines_elements_in_any_order() {
    let s = state_of(&[(5, b"abc"), (7, b"")]);
    let t = state_of(&[(7, b""), (5, b"abc")]);
    assert_eq!(s.statesum().as_slice(), &SUM_5_ABC_AND_7_EMPTY);
    assert_eq!(t.statesum().as_slice(), &SUM_5_ABC_AND_7_EMPTY);
    assert!(s.same_sum(&t));
    assert_eq!(contents(&s), contents(&t));
    assert_eq!(contents(&s), vec![(5, b"abc".to_vec()), (7, vec![])]);
}

#[test]
fn state_sum_tells_content_and_identifier_apart() {
    let s = state_of(&[(5, b"abc")]);
    assert!(!s.same_sum(&state_of(&[(5, b"abd")])));
    assert!(!s.same_sum(&state_of(&[(6, b"abc")])));
    assert!(!s.same_sum(&State::new()));
    assert!(s.same_sum(&state_of(&[(5, b"abc")])));
}

#[test]
fn removing_what_was_inserted_restores_the_sum() {
    let base = state_of(&[(5, b"abc")]);
    let mut m = base.mutable_copy();
    m.insert_with_id(9, b"passing".to_vec()).unwrap();
    m.remove(9).unwrap();
    let (next, diff) = commit(&base, m);
    assert_eq!(next.statesum().as_slice(), &SUM_5_ABC);
    assert_eq!(diff.len(), 0);
}

#[test]
fn insert_assigns_the_first_identifier_above_all() {
    let mut m = State::new().mutable_copy();
    assert_eq!(m.insert(b"a".to_vec()), Ok(0));
    assert_eq!(m.insert(b"b".to_vec()), Ok(1));
    m.insert_with_id(10, b"c".to_vec()).unwrap();
    assert_eq!(m.insert(b"d".to_vec()), Ok(11));
    m.remove(11).unwrap();
    assert_eq!(m.insert(b"e".to_vec()), Ok(11));
    m.remove(1).unwrap();
    assert_eq!(m.insert(b"f".to_vec()), Ok(12));
    assert_eq!(m.num_elements(), 4);
    assert_eq!(m.get(12), Some(&b"f".to_vec()));
    assert_eq!(m.get(1), None);
}

#[test]
fn insert_fails_when_identifiers_run_out() {
    let mut m = State::new().mutable_copy();
    m.insert_with_id(u64::MAX, b"last".to_vec()).unwrap();
    assert_eq!(m.insert(b"more".to_vec()), Err(ElementError::Exhausted));
    assert_eq!(m.num_elements(), 1);
    m.insert_with_id(u64::MAX - 1, b"gap".to_vec()).unwrap();
    assert_eq!(m.insert(b"more".to_vec()), Err(ElementError::Exhausted));
}

#[test]
fn working_copy_refuses_what_does_not_fit() {
    let mut m = state_of(&[(3, b"three")]).mutable_copy();
    assert_eq!(m.insert_with_id(3, b"again".to_vec()), Err(ElementError::Exists));
    assert_eq!(m.get(3), Some(&b"three".to_vec()));
    assert_eq!(m.replace(4, b"four".to_vec()), Err(ElementError::NotFound));
    assert_eq!(m.remove(4), Err(ElementError::NotFound));
    assert!(!m.is_available(4));
    assert_eq!(m.replace(3, b"drei".to_vec()), Ok(()));
    assert_eq!(m.get(3), Some(&b"drei".to_vec()));
    assert_eq!(m.remove(3), Ok(()));
    assert_eq!(m.num_elements(), 0);
}

#[test]
fn working_copy_remembers_its_parent() {
    let s = state_of(&[(5, b"abc")]);
    let mut m = s.mutable_copy();
    assert_eq!(m.parent_sum().as_slice(), &SUM_5_ABC);
    m.insert(b"x".to_vec()).unwrap();
    assert_eq!(m.parent_sum().as_slice(), &SUM_5_ABC);
    assert_eq!(contents(&s), vec![(5, b"abc".to_vec())]);
}

#[test]
fn commit_records_what_changed() {
    let parent = state_of(&[(1, b"one"), (2, b"two"), (3, b"three")]);
    let mut m = parent.mutable_copy();
    m.replace(2, b"zwei".to_vec()).unwrap();
    m.remove(1).unwrap();
    assert_eq!(m.insert(b"four".to_vec()), Ok(4));
    let (next, diff) = commit(&parent, m);
    assert_eq!(
        contents(&next),
        vec![(2, b"zwei".to_vec()), (3, b"three".to_vec()), (4, b"four".to_vec())]
    );
    assert_eq!(diff.len(), 3);
    assert_eq!(diff.get(1), Some(None));
    assert_eq!(diff.get(2), Some(Some(&b"zwei".to_vec())));
    assert_eq!(diff.get(3), None);
    assert_eq!(diff.get(4), Some(Some(&b"four".to_vec())));
    assert_eq!(diff.get(5), None);
}

#[test]
fn an_element_put_where_one_was_removed_is_a_replacement() {
    let parent = state_of(&[(1, b"one"), (2, b"two")]);
    let mut m = parent.mutable_copy();
    m.remove(2).unwrap();
    assert_eq!(m.insert(b"deux".to_vec()), Ok(2));
    let (next, diff) = commit(&parent, m);
    assert_eq!(contents(&next), vec![(1, b"one".to_vec()), (2, b"deux".to_vec())]);
    assert_eq!(diff.len(), 1);
    assert_eq!(diff.get(2), Some(Some(&b"deux".to_vec())));
}

#[test]
fn replaying_a_commit_reproduces_the_state() {
    let parent = state_of(&[(1, b"one"), (2, b"two"), (3, b"three"), (8, b"")]);
    let mut m = parent.mutable_copy();
    m.replace(2, b"zwei".to_vec()).unwrap();
    m.remove(3).unwrap();
    m.insert(b"nine".to_vec()).unwrap();
    m.replace(1, b"one".to_vec()).unwrap();
    let (next, diff) = commit(&parent, m);
    let again = replay(&parent, &diff);
    assert_eq!(contents(&again), contents(&next));
    assert_eq!(again.statesum(), next.statesum());
    assert!(again.same_sum(&next));
    assert!(!again.same_sum(&parent));
    assert_eq!(diff.len(), 3);
}

#[test]
fn committing_an_untouched_copy_changes_nothing() {
    let parent = state_of(&[(1, b"one"), (2, b"two")]);
    let (next, diff) = commit(&parent, parent.mutable_copy());
    assert_eq!(diff.len(), 0);
    assert_eq!(contents(&next), contents(&parent));
    assert_eq!(next.statesum(), parent.statesum());
    let again = replay(&parent, &diff);
    assert_eq!(contents(&again), contents(&parent));
    assert_eq!(again.statesum(), parent.statesum());
}

#[test]
fn replay_applies_recorded_changes() {
    let parent = state_of(&[(1, b"one"), (2, b"two")]);
    let mut diff = Diff::new();
    diff.record(2, None);
    diff.record(7, Some(b"seven".to_vec()));
    diff.record(1, Some(b"uno".to_vec()));
    diff.record(9, None);
    let next = replay(&parent, &diff);
    assert_eq!(contents(&next), vec![(1, b"uno".to_vec()), (7, b"seven".to_vec())]);
    assert_eq!(contents(&replay(&parent, &Diff::new())), contents(&parent));
}

#[test]
fn same_bytes_is_equality() {
    assert!(same_bytes(b"", b""));
    assert!(same_bytes(b"abc", b"abc"));
    assert!(!same_bytes(b"abc", b"abd"));
    assert!(!same_bytes(b"abc", b"ab"));
    assert!(!same_bytes(b"", b"a"));
}
