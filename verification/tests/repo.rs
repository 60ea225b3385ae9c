use pippin::driver::DivideError;
use pippin::merge::{MergeError, Solver};
use pippin::meta::{encode, seq_tag_bytes, MetaError, Record};
use pippin::repo::{RepoError, Repository};
use pippin::routing::PartInfo;
use pippin::state::{ElementError, State};

fn contents(s: &State) -> Vec<(u64, Vec<u8>)> {
    (0..s.num_elements()).map(|i| (s.id_at(i), s.elt_at(i).clone())).collect()
}

fn tip(repo: &Repository, part: u64) -> Vec<(u64, Vec<u8>)> {
    contents(repo.partition(part).unwrap().tip().ok().unwrap())
}

const BOTH: [Solver; 2] = [Solver::Ancestor, Solver::Renaming];
const SECOND: u64 = 0x80_0000_0001;

#[test]
fn new_repository_has_the_first_partition() {
    let repo = Repository::create();
    assert_eq!(repo.num_parts(), 1);
    assert_eq!(repo.id_at(0), 1);
    let p = repo.partition(1).unwrap();
    assert_eq!(p.part_id(), 1);
    assert_eq!(p.len(), 1);
    assert_eq!(p.tip().ok().unwrap().num_elements(), 0);
    assert!(repo.partition(2).is_none());
    assert!(!repo.merge_required());
    assert_eq!(repo.driver().classify(12345), Some(1));
    assert_eq!(repo.driver().len(), 1);
}

#[test]
fn a_view_is_committed_to_its_partitions() {
    let mut repo = Repository::create();
    let mut view = repo.clone_state().ok().unwrap();
    assert_eq!(view.num_parts(), 1);
    assert_eq!(view.insert(3, b"three values".to_vec()), Ok((1, 0)));
    assert_eq!(view.insert(700, b"many values".to_vec()), Ok((1, 1)));
    assert_eq!(view.get(1, 1), Some(&b"many values".to_vec()));
    assert_eq!(view.get(1, 2), None);
    assert_eq!(view.get(2, 0), None);
    assert_eq!(repo.merge_in(view), Ok(()));
    assert_eq!(repo.partition(1).unwrap().len(), 2);
    assert_eq!(
        tip(&repo, 1),
        vec![(0, b"three values".to_vec()), (1, b"many values".to_vec())]
    );
    assert!(!repo.merge_required());

    let mut view = repo.clone_state().ok().unwrap();
    assert_eq!(view.replace(1, 0, b"3".to_vec()), Ok(()));
    assert_eq!(view.remove(1, 1), Ok(()));
    assert_eq!(view.replace(1, 9, b"?".to_vec()), Err(RepoError::Element(ElementError::NotFound)));
    assert_eq!(view.remove(1, 9), Err(RepoError::Element(ElementError::NotFound)));
    assert_eq!(view.replace(5, 0, b"?".to_vec()), Err(RepoError::NoPartition(5)));
    assert_eq!(view.remove(5, 0), Err(RepoError::NoPartition(5)));
    assert_eq!(repo.merge_in(view), Ok(()));
    assert_eq!(tip(&repo, 1), vec![(0, b"3".to_vec())]);
    assert_eq!(repo.partition(1).unwrap().len(), 3);
}

#[test]
fn two_views_of_one_state_make_two_heads() {
    let mut repo = Repository::create();
    let mut left = repo.clone_state().ok().unwrap();
    let mut right = repo.clone_state().ok().unwrap();
    assert_eq!(left.insert(1, b"A".to_vec()), Ok((1, 0)));
    assert_eq!(right.insert(1, b"B".to_vec()), Ok((1, 0)));
    assert_eq!(repo.merge_in(left), Ok(()));
    assert_eq!(repo.merge_in(right), Ok(()));
    assert!(repo.merge_required());
    assert_eq!(repo.partition(1).unwrap().head_indices(), &vec![1, 2]);
    assert_eq!(repo.clone_state().err(), Some(RepoError::MergeRequired(1)));
    assert_eq!(repo.merge(&[Solver::Ancestor]), Err((1, MergeError::Conflict(0))));
    assert!(repo.merge_required());
    assert_eq!(repo.partition(1).unwrap().len(), 3);
    assert_eq!(repo.merge(&BOTH), Ok(()));
    assert!(!repo.merge_required());
    assert_eq!(tip(&repo, 1), vec![(0, b"A".to_vec()), (1, b"B".to_vec())]);
    assert_eq!(repo.partition(1).unwrap().parents(3), &vec![1, 2]);
    assert!(repo.clone_state().is_ok());
}

#[test]
fn merge_without_divergence_changes_nothing() {
    let mut repo = Repository::create();
    assert_eq!(repo.merge(&[]), Ok(()));
    assert_eq!(repo.partition(1).unwrap().len(), 1);
}

#[test]
fn a_view_of_another_history_is_refused_whole() {
    let mut a = Repository::create();
    let mut view = a.clone_state().ok().unwrap();
    view.insert(1, b"x".to_vec()).unwrap();
    a.merge_in(view).unwrap();
    let later = a.clone_state().ok().unwrap();
    let mut b = Repository::create();
    assert_eq!(b.merge_in(later), Err(RepoError::WrongParent(1)));
    assert_eq!(b.partition(1).unwrap().len(), 1);

    let keys: Vec<u32> = (1..=999).collect();
    a.divide(1, &keys).unwrap();
    let mut wide = a.clone_state().ok().unwrap();
    assert_eq!(wide.num_parts(), 3);
    assert_eq!(wide.insert(600, b"long".to_vec()), Ok((SECOND, 0)));
    let mut c = Repository::create();
    let mut first = c.clone_state().ok().unwrap();
    first.insert(1, b"x".to_vec()).unwrap();
    c.merge_in(first).unwrap();
    assert_eq!(c.merge_in(wide), Err(RepoError::NoPartition(2)));
    assert_eq!(c.partition(1).unwrap().len(), 2);
    assert_eq!(c.num_parts(), 1);
}

#[test]
fn divide_sets_up_the_new_partitions() {
    let mut repo = Repository::create();
    let mut view = repo.clone_state().ok().unwrap();
    view.insert(10, b"short".to_vec()).unwrap();
    view.insert(900, b"long".to_vec()).unwrap();
    repo.merge_in(view).unwrap();
    let keys: Vec<u32> = (1..=999).collect();
    assert_eq!(repo.divide(1, &keys), Ok((vec![2, SECOND], vec![])));
    assert_eq!(repo.num_parts(), 3);
    assert_eq!((repo.id_at(0), repo.id_at(1), repo.id_at(2)), (1, 2, SECOND));
    assert_eq!(repo.partition(2).unwrap().len(), 1);
    assert_eq!(repo.partition(SECOND).unwrap().part_id(), SECOND);
    assert_eq!(tip(&repo, 2), vec![]);
    assert_eq!(tip(&repo, 1), vec![(0, b"short".to_vec()), (1, b"long".to_vec())]);
    assert_eq!(repo.driver().get(1).unwrap().max_len, 0);

    let mut view = repo.clone_state().ok().unwrap();
    assert_eq!(view.insert(10, b"below".to_vec()), Ok((2, 0)));
    assert_eq!(view.insert(499, b"just below".to_vec()), Ok((2, 1)));
    assert_eq!(view.insert(500, b"at".to_vec()), Ok((SECOND, 0)));
    assert_eq!(repo.merge_in(view), Ok(()));
    assert_eq!(tip(&repo, 2), vec![(0, b"below".to_vec()), (1, b"just below".to_vec())]);
    assert_eq!(tip(&repo, SECOND), vec![(0, b"at".to_vec())]);
    assert_eq!(repo.partition(1).unwrap().len(), 3);
    assert_eq!(repo.partition(1).unwrap().diff(2).len(), 0);
}

#[test]
fn divide_that_fails_changes_nothing() {
    let mut repo = Repository::create();
    assert_eq!(repo.divide(1, &[]), Err(DivideError::NotSubdivisible));
    assert_eq!(repo.divide(7, &[1, 2]), Err(DivideError::MissingInfo));
    assert_eq!(repo.num_parts(), 1);
    assert_eq!(repo.driver().len(), 1);
}

#[test]
fn routing_metadata_travels_between_repositories() {
    let mut a = Repository::create();
    let keys: Vec<u32> = (1..=999).collect();
    a.divide(1, &keys).unwrap();
    let tag = seq_tag_bytes();
    let block = a.write_meta(&tag).unwrap();
    let mut b = Repository::create();
    assert_eq!(b.read_meta(&tag, &block), Ok(()));
    assert_eq!(b.driver().len(), 3);
    assert_eq!(b.driver().classify(700), Some(SECOND));
    assert_eq!(b.num_parts(), 1);
    let mut view = b.clone_state().ok().unwrap();
    assert_eq!(view.classify(700), Some(SECOND));
    assert_eq!(view.insert(700, b"long".to_vec()), Err(RepoError::NoPartition(SECOND)));
    assert_eq!(view.insert(7, b"short".to_vec()), Err(RepoError::NoPartition(2)));
    assert_eq!(b.read_meta(b"OtherTag", &block), Err(MetaError::BadTag));
    assert_eq!(b.read_meta(&tag, &block[..20]), Err(MetaError::WrongLength));
}

#[test]
fn an_element_below_every_bound_is_unclassified() {
    let mut repo = Repository::create();
    let tag = seq_tag_bytes();
    let moved = Record {
        id: 1,
        info: PartInfo { max_id: 0xff_ffff_ffff, ver: 1, min_len: 5, max_len: 100 },
    };
    repo.read_meta(&tag, &encode(&tag, &vec![moved]).unwrap()).unwrap();
    let mut view = repo.clone_state().ok().unwrap();
    assert_eq!(view.insert(4, b"too short".to_vec()), Err(RepoError::Unclassified));
    assert_eq!(view.insert(5, b"fits".to_vec()), Ok((1, 0)));
    assert_eq!(view.insert(101, b"above the range, still routed".to_vec()), Ok((1, 1)));
}
