//! A repository: its partitions, each with its own history, under one
//! classifier, and the working view that spans them.

use crate::driver::{divided, first_table, valid_table, DivideError, Division, Driver};
use crate::idmap::{find_id, increasing, lemma_paired_at, lemma_paired_insert, paired};
use crate::merge::{MergeError, Solver};
use crate::meta::{absorb_all, decoded, MetaError};
use crate::partition::{latest_with_sum, lemma_parent_in, merge_all, parent_in, Partition};
use crate::routing::{classes_of, route, Classifier, PartInfo};
use crate::state::{state_sum, ElementError, MutState};
use vstd::prelude::*;

verus! {

/// What a repository or its working view refuses.
#[derive(Clone, Copy, Debug, PartialEq, Eq, Structural)]
pub enum RepoError {
    /// The classifier has no partition for the element's key.
    Unclassified,
    /// There is no such partition here.
    NoPartition(u64),
    /// The partition has more than one head: they have to be merged first.
    MergeRequired(u64),
    /// The partition's state is no longer the one that the view was made of.
    WrongParent(u64),
    /// The element is refused by the partition's working copy.
    Element(ElementError),
}

/// Whether two histories are the same, commit by commit.
pub open spec fn same_history(p: Partition, q: Partition) -> bool {
    &&& p.id() == q.id()
    &&& p.links() == q.links()
    &&& p.states() == q.states()
    &&& p.diffs() == q.diffs()
    &&& p.heads() == q.heads()
}

/// Whether a history is that of a new partition: one commit, no element.
pub open spec fn fresh(p: Partition, id: u64) -> bool {
    &&& p.id() == id
    &&& p.links() == seq![Seq::<usize>::empty()]
    &&& p.states() == seq![Map::<u64, Seq<u8>>::empty()]
    &&& p.heads() == seq![0usize]
}

/// Whether `after` is `before` with its heads merged.
pub open spec fn merged_from(chain: Seq<Solver>, before: Partition, after: Partition) -> bool {
    &&& after.id() == before.id()
    &&& after.heads().len() == 1
    &&& merge_all(chain, before.links(), before.states(), before.heads()) == Ok::<_, MergeError>(
        (after.links(), after.states()),
    )
}

/// The state at a partition's one head.
pub open spec fn tip_of(p: Partition) -> Map<u64, Seq<u8>> {
    p.states()[p.heads()[0] as int]
}

/// Whether `after` is `before` with one commit more, which holds `m` and was
/// made from commit `parent`: it is a head in its parent's place.
pub open spec fn pushed(before: Partition, after: Partition, parent: int, m: Map<u64, Seq<u8>>)
    -> bool {
    &&& after.id() == before.id()
    &&& after.links() == before.links().push(seq![parent as usize])
    &&& after.states() == before.states().push(m)
    &&& after.heads() == crate::partition::without(
        before.heads(),
        parent as usize,
        None,
    ).push(before.links().len() as usize)
}

/// Whether two lists of working copies hold the same and have the same parents.
pub open spec fn same_copies(a: Seq<MutState>, b: Seq<MutState>) -> bool {
    &&& a.len() == b.len()
    &&& forall|j: int|
        0 <= j < a.len() ==> (#[trigger] a[j])@ == b[j]@ && a[j].parent() == b[j].parent()
}

/// A working view of a repository: a working copy of each partition's state,
/// and the classifier as it was when the view was made.
pub struct RepoState {
    csf: Classifier,
    ids: Vec<u64>,
    states: Vec<MutState>,
}

impl RepoState {
    /// The partitions' identifiers, in increasing order.
    pub closed spec fn ids(&self) -> Seq<u64> {
        self.ids@
    }

    /// The partitions' working copies, in the order of the identifiers.
    pub closed spec fn copies(&self) -> Seq<MutState> {
        self.states@
    }

    /// The classifier's table.
    pub closed spec fn classes(&self) -> Seq<(u32, u64)> {
        self.csf@
    }

    /// The view is sound.
    pub closed spec fn wf(&self) -> bool {
        &&& self.csf.wf()
        &&& self.ids@.len() == self.states@.len()
        &&& increasing(self.ids@)
        &&& forall|i: int| 0 <= i < self.states@.len() ==> (#[trigger] self.states@[i]).wf()
    }

    /// What a sound view guarantees.
    pub proof fn lemma_wf(&self)
        requires
            self.wf(),
        ensures
            self.ids().len() == self.copies().len(),
            increasing(self.ids()),
            forall|i: int| 0 <= i < self.copies().len() ==> (#[trigger] self.copies()[i]).wf(),
    {
    }

    /// How many partitions the view spans.
    pub fn num_parts(&self) -> (n: usize)
        requires
            self.wf(),
        ensures
            n == self.ids().len(),
    {
        self.ids.len()
    }

    /// The partition for an element with the classification key `key`.
    pub fn classify(&self, key: u64) -> (r: Option<u64>)
        requires
            self.wf(),
        ensures
            r == route(self.classes(), key),
    {
        self.csf.classify(key)
    }

    /// The element under `id` in partition `part`.
    pub fn get(&self, part: u64, id: u64) -> (r: Option<&Vec<u8>>)
        requires
            self.wf(),
        ensures
            match r {
                Some(elt) => {
                    &&& self.ids().contains(part)
                    &&& self.copies()[self.ids().index_of(part)]@.dom().contains(id)
                    &&& self.copies()[self.ids().index_of(part)]@[id] == elt@
                },
                None => !self.ids().contains(part) || !self.copies()[self.ids().index_of(
                    part,
                )]@.dom().contains(id),
            },
    {
        match find_id(&self.ids, part) {
            Ok(i) => {
                proof {
                    lemma_paired_at(self.ids@, self.states@, i as int);
                }
                self.states[i].get(id)
            },
            Err(_) => None,
        }
    }

    /// Inserts an element with the classification key `key`: into the
    /// partition that the classifier names, under a fresh identifier there.
    /// Returns the partition and the identifier.
    pub fn insert(&mut self, key: u64, elt: Vec<u8>) -> (r: Result<(u64, u64), RepoError>)
        requires
            old(self).wf(),
        ensures
            final(self).wf(),
            final(self).ids() == old(self).ids(),
            final(self).classes() == old(self).classes(),
            final(self).copies().len() == old(self).copies().len(),
            match r {
                Ok((part, id)) => {
                    let i = old(self).ids().index_of(part);
                    &&& route(old(self).classes(), key) == Some(part)
                    &&& old(self).ids().contains(part)
                    &&& crate::idmap::is_next_id(old(self).copies()[i]@, id as int)
                    &&& final(self).copies()[i]@ == old(self).copies()[i]@.insert(id, elt@)
                    &&& final(self).copies()[i].parent() == old(self).copies()[i].parent()
                    &&& forall|j: int|
                        0 <= j < old(self).copies().len() && j != i ==> final(self).copies()[j]
                            == old(self).copies()[j]
                },
                Err(e) => {
                    &&& same_copies(final(self).copies(), old(self).copies())
                    &&& match route(old(self).classes(), key) {
                        None => e == RepoError::Unclassified,
                        Some(part) => if !old(self).ids().contains(part) {
                            e == RepoError::NoPartition(part)
                        } else {
                            &&& e == RepoError::Element(ElementError::Exhausted)
                            &&& crate::idmap::is_next_id(
                                old(self).copies()[old(self).ids().index_of(part)]@,
                                u64::MAX + 1,
                            )
                        },
                    }
                },
            },
    {
        let part = match self.csf.classify(key) {
            Some(part) => part,
            None => {
                return Err(RepoError::Unclassified);
            },
        };
        let i = match find_id(&self.ids, part) {
            Ok(i) => i,
            Err(_) => {
                return Err(RepoError::NoPartition(part));
            },
        };
        proof {
            lemma_paired_at(self.ids@, self.states@, i as int);
        }
        match self.states[i].insert(elt) {
            Ok(id) => Ok((part, id)),
            Err(_) => Err(RepoError::Element(ElementError::Exhausted)),
        }
    }

    /// Puts `elt` in place of the element under `id` in partition `part`.
    pub fn replace(&mut self, part: u64, id: u64, elt: Vec<u8>) -> (r: Result<(), RepoError>)
        requires
            old(self).wf(),
        ensures
            final(self).wf(),
            final(self).ids() == old(self).ids(),
            final(self).classes() == old(self).classes(),
            final(self).copies().len() == old(self).copies().len(),
            match r {
                Ok(_) => {
                    let i = old(self).ids().index_of(part);
                    &&& old(self).ids().contains(part)
                    &&& old(self).copies()[i]@.dom().contains(id)
                    &&& final(self).copies()[i]@ == old(self).copies()[i]@.insert(id, elt@)
                    &&& final(self).copies()[i].parent() == old(self).copies()[i].parent()
                    &&& forall|j: int|
                        0 <= j < old(self).copies().len() && j != i ==> final(self).copies()[j]
                            == old(self).copies()[j]
                },
                Err(e) => {
                    &&& same_copies(final(self).copies(), old(self).copies())
                    &&& if !old(self).ids().contains(part) {
                        e == RepoError::NoPartition(part)
                    } else {
                        &&& e == RepoError::Element(ElementError::NotFound)
                        &&& !old(self).copies()[old(self).ids().index_of(part)]@.dom().contains(
                            id,
                        )
                    }
                },
            },
    {
        let i = match find_id(&self.ids, part) {
            Ok(i) => i,
            Err(_) => {
                return Err(RepoError::NoPartition(part));
            },
        };
        proof {
            lemma_paired_at(self.ids@, self.states@, i as int);
        }
        match self.states[i].replace(id, elt) {
            Ok(_) => Ok(()),
            Err(_) => Err(RepoError::Element(ElementError::NotFound)),
        }
    }

    /// Removes the element under `id` in partition `part`.
    pub fn remove(&mut self, part: u64, id: u64) -> (r: Result<(), RepoError>)
        requires
            old(self).wf(),
        ensures
            final(self).wf(),
            final(self).ids() == old(self).ids(),
            final(self).classes() == old(self).classes(),
            final(self).copies().len() == old(self).copies().len(),
            match r {
                Ok(_) => {
                    let i = old(self).ids().index_of(part);
                    &&& old(self).ids().contains(part)
                    &&& old(self).copies()[i]@.dom().contains(id)
                    &&& final(self).copies()[i]@ == old(self).copies()[i]@.remove(id)
                    &&& final(self).copies()[i].parent() == old(self).copies()[i].parent()
                    &&& forall|j: int|
                        0 <= j < old(self).copies().len() && j != i ==> final(self).copies()[j]
                            == old(self).copies()[j]
                },
                Err(e) => {
                    &&& same_copies(final(self).copies(), old(self).copies())
                    &&& if !old(self).ids().contains(part) {
                        e == RepoError::NoPartition(part)
                    } else {
                        &&& e == RepoError::Element(ElementError::NotFound)
                        &&& !old(self).copies()[old(self).ids().index_of(part)]@.dom().contains(
                            id,
                        )
                    }
                },
            },
    {
        let i = match find_id(&self.ids, part) {
            Ok(i) => i,
            Err(_) => {
                return Err(RepoError::NoPartition(part));
            },
        };
        proof {
            lemma_paired_at(self.ids@, self.states@, i as int);
        }
        match self.states[i].remove(id) {
            Ok(_) => Ok(()),
            Err(_) => Err(RepoError::Element(ElementError::NotFound)),
        }
    }
}

/// The partitions of a repository and the bookkeeping by which elements are
/// routed to them.
pub struct Repository {
    driver: Driver,
    ids: Vec<u64>,
    parts: Vec<Partition>,
}

impl Repository {
    /// The partitions' identifiers, in increasing order.
    pub closed spec fn ids(&self) -> Seq<u64> {
        self.ids@
    }

    /// The partitions, in the order of their identifiers.
    pub closed spec fn parts(&self) -> Seq<Partition> {
        self.parts@
    }

    /// The routing table.
    pub closed spec fn table(&self) -> Map<u64, PartInfo> {
        self.driver@
    }

    /// The classifier's table.
    pub closed spec fn classes(&self) -> Seq<(u32, u64)> {
        self.driver.classes()
    }

    /// The repository is sound: so are its routing table and each of its
    /// partitions, and each partition stands under its own identifier.
    pub closed spec fn wf(&self) -> bool {
        &&& self.driver.wf()
        &&& self.ids@.len() == self.parts@.len()
        &&& increasing(self.ids@)
        &&& forall|i: int|
            0 <= i < self.parts@.len() ==> (#[trigger] self.parts@[i]).wf() && self.parts@[i].id()
                == self.ids@[i]
    }

    /// What a sound repository guarantees.
    pub proof fn lemma_wf(&self)
        requires
            self.wf(),
        ensures
            self.ids().len() == self.parts().len(),
            increasing(self.ids()),
            forall|i: int|
                0 <= i < self.parts().len() ==> (#[trigger] self.parts()[i]).wf()
                    && self.parts()[i].id() == self.ids()[i],
            classes_of(self.classes(), self.table()),
            valid_table(self.table()),
    {
        self.driver.lemma_wf();
    }

    /// A new repository: the first partition, which serves every key.
    pub fn create() -> (r: Repository)
        ensures
            r.wf(),
            r.table() == first_table(),
            r.ids() == seq![1u64],
            r.parts().len() == 1,
            fresh(r.parts()[0], 1),
    {
        let mut driver = Driver::new();
        let id = driver.init_first();
        let mut ids: Vec<u64> = Vec::new();
        ids.push(id);
        let mut parts: Vec<Partition> = Vec::new();
        parts.push(Partition::create(id));
        assert(ids@ =~= seq![1u64]);
        Repository { driver, ids, parts }
    }

    /// The routing table and its classifier.
    pub fn driver(&self) -> (d: &Driver)
        requires
            self.wf(),
        ensures
            d.wf(),
            d@ == self.table(),
            d.classes() == self.classes(),
    {
        &self.driver
    }

    /// How many partitions the repository holds.
    pub fn num_parts(&self) -> (n: usize)
        requires
            self.wf(),
        ensures
            n == self.ids().len(),
    {
        self.ids.len()
    }

    /// The identifier of the `i`-th partition.
    pub fn id_at(&self, i: usize) -> (id: u64)
        requires
            self.wf(),
            i < self.ids().len(),
        ensures
            id == self.ids()[i as int],
    {
        self.ids[i]
    }

    /// The partition with the identifier `id`.
    pub fn partition(&self, id: u64) -> (r: Option<&Partition>)
        requires
            self.wf(),
        ensures
            match r {
                Some(p) => self.ids().contains(id) && *p == self.parts()[self.ids().index_of(id)]
                    && p.wf() && p.id() == id,
                None => !self.ids().contains(id),
            },
    {
        match find_id(&self.ids, id) {
            Ok(i) => {
                proof {
                    lemma_paired_at(self.ids@, self.parts@, i as int);
                }
                Some(&self.parts[i])
            },
            Err(_) => None,
        }
    }

    /// Whether a partition has more than one head.
    pub fn merge_required(&self) -> (r: bool)
        requires
            self.wf(),
        ensures
            r == exists|i: int|
                0 <= i < self.parts().len() && (#[trigger] self.parts()[i]).heads().len() > 1,
    {
        let mut i: usize = 0;
        while i < self.parts.len()
            invariant
                i <= self.parts().len(),
                self.wf(),
                forall|j: int| 0 <= j < i ==> (#[trigger] self.parts()[j]).heads().len() <= 1,
            decreases self.parts().len() - i,
        {
            if self.parts[i].merge_required() {
                assert(self.parts()[i as int].heads().len() > 1);
                return true;
            }
            i += 1;
        }
        false
    }

    /// Merges the heads of every partition that has more than one, in the
    /// order of the identifiers. The first partition that cannot be merged
    /// stops it: that one and those behind it stay as they were.
    pub fn merge(&mut self, chain: &[Solver]) -> (r: Result<(), (u64, MergeError)>)
        requires
            old(self).wf(),
        ensures
            final(self).wf(),
            final(self).ids() == old(self).ids(),
            final(self).table() == old(self).table(),
            final(self).classes() == old(self).classes(),
            final(self).parts().len() == old(self).parts().len(),
            match r {
                Ok(_) => forall|j: int|
                    0 <= j < old(self).parts().len() ==> merged_from(
                        chain@,
                        old(self).parts()[j],
                        #[trigger] final(self).parts()[j],
                    ),
                Err((id, e)) => exists|i: int|
                    {
                        &&& 0 <= i < old(self).parts().len()
                        &&& #[trigger] old(self).ids()[i] == id
                        &&& merge_all(
                            chain@,
                            old(self).parts()[i].links(),
                            old(self).parts()[i].states(),
                            old(self).parts()[i].heads(),
                        ) == Err::<(Seq<Seq<usize>>, Seq<Map<u64, Seq<u8>>>), _>(e)
                        &&& forall|j: int|
                            0 <= j < i ==> merged_from(
                                chain@,
                                old(self).parts()[j],
                                #[trigger] final(self).parts()[j],
                            )
                        &&& forall|j: int|
                            i <= j < old(self).parts().len() ==> same_history(
                                old(self).parts()[j],
                                #[trigger] final(self).parts()[j],
                            )
                    },
            },
    {
        let ghost before = self.parts@;
        let n = self.parts.len();
        let mut i: usize = 0;
        while i < n
            invariant
                i <= n,
                n == self.parts@.len(),
                n == before.len(),
                before == old(self).parts@,
                self.ids@ == old(self).ids@,
                self.driver == old(self).driver,
                old(self).wf(),
                self.wf(),
                forall|j: int|
                    0 <= j < i ==> merged_from(chain@, before[j], #[trigger] self.parts@[j]),
                forall|j: int| i <= j < n ==> same_history(before[j], #[trigger] self.parts@[j]),
            decreases n - i,
        {
            let ghost was = self.parts@;
            match self.parts[i].merge(chain) {
                Ok(_) => {
                    proof {
                        assert forall|j: int| 0 <= j < i + 1 implies merged_from(
                            chain@,
                            before[j],
                            #[trigger] self.parts@[j],
                        ) by {
                            if j < i {
                                assert(self.parts@[j] == was[j]);
                            }
                        }
                        assert forall|j: int| i + 1 <= j < n implies same_history(
                            before[j],
                            #[trigger] self.parts@[j],
                        ) by {
                            assert(self.parts@[j] == was[j]);
                        }
                    }
                },
                Err(e) => {
                    proof {
                        assert forall|j: int| 0 <= j < i implies merged_from(
                            chain@,
                            before[j],
                            #[trigger] self.parts@[j],
                        ) by {
                            assert(self.parts@[j] == was[j]);
                        }
                        assert forall|j: int| i <= j < n implies same_history(
                            before[j],
                            #[trigger] self.parts@[j],
                        ) by {
                            if j > i {
                                assert(self.parts@[j] == was[j]);
                            }
                        }
                        assert(old(self).ids()[i as int] == self.ids@[i as int]);
                    }
                    return Err((self.ids[i], e));
                },
            }
            i += 1;
        }
        Ok(())
    }

    /// A working view of the repository: a working copy of the state at each
    /// partition's head, and a snapshot of the classifier. There is none while
    /// a partition has more than one head.
    pub fn clone_state(&self) -> (r: Result<RepoState, RepoError>)
        requires
            self.wf(),
        ensures
            match r {
                Ok(s) => {
                    &&& s.wf()
                    &&& s.classes() == self.classes()
                    &&& s.ids() == self.ids()
                    &&& s.copies().len() == self.parts().len()
                    &&& forall|i: int|
                        0 <= i < self.parts().len() ==> {
                            &&& (#[trigger] self.parts()[i]).heads().len() == 1
                            &&& s.copies()[i]@ == tip_of(self.parts()[i])
                            &&& s.copies()[i].parent() == state_sum(tip_of(self.parts()[i]))
                        }
                },
                Err(e) => exists|i: int|
                    {
                        &&& 0 <= i < self.parts().len()
                        &&& e == RepoError::MergeRequired(#[trigger] self.ids()[i])
                        &&& self.parts()[i].heads().len() > 1
                        &&& forall|j: int| 0 <= j < i ==> (#[trigger] self.parts()[j]).heads().len() == 1
                    },
            },
    {
        let mut ids: Vec<u64> = Vec::new();
        let mut states: Vec<MutState> = Vec::new();
        let n = self.parts.len();
        let mut i: usize = 0;
        while i < n
            invariant
                i <= n,
                n == self.parts@.len(),
                self.wf(),
                ids@ == self.ids@.take(i as int),
                states@.len() == i,
                forall|j: int|
                    0 <= j < i ==> {
                        &&& (#[trigger] self.parts()[j]).heads().len() == 1
                        &&& states@[j]@ == tip_of(self.parts()[j])
                        &&& states@[j].parent() == state_sum(tip_of(self.parts()[j]))
                    },
                forall|j: int| 0 <= j < i ==> (#[trigger] states@[j]).wf(),
            decreases n - i,
        {
            match self.parts[i].tip() {
                Ok(tip) => {
                    proof {
                        tip.lemma_wf();
                    }
                    states.push(tip.mutable_copy());
                    ids.push(self.ids[i]);
                    assert(self.ids@.take(i + 1) =~= self.ids@.take(i as int).push(
                        self.ids@[i as int],
                    ));
                },
                Err(_) => {
                    assert(0 <= i < self.parts().len() && self.parts()[i as int].heads().len() > 1
                        && self.ids()[i as int] == self.ids@[i as int]);
                    return Err(RepoError::MergeRequired(self.ids[i]));
                },
            }
            i += 1;
        }
        assert(self.ids@.take(n as int) =~= self.ids@);
        Ok(RepoState { csf: self.driver.clone_classifier(), ids, states })
    }

    /// Where a working view is committed: for each of its partitions, the
    /// place of the partition and of the commit that the view's copy was made
    /// of; or what stands against the first that cannot be committed.
    fn places(&self, state: &RepoState) -> (r: Result<Vec<(usize, usize)>, RepoError>)
        requires
            self.wf(),
            state.wf(),
        ensures
            match r {
                Ok(at) => {
                    &&& at@.len() == state.ids().len()
                    &&& forall|k: int|
                        0 <= k < at@.len() ==> {
                            &&& (#[trigger] at@[k]).0 < self.ids().len()
                            &&& self.ids()[at@[k].0 as int] == state.ids()[k]
                            &&& latest_with_sum(
                                self.parts()[at@[k].0 as int],
                                state.copies()[k].parent(),
                                at@[k].1 as int,
                            )
                        }
                },
                Err(e) => exists|k: int|
                    {
                        &&& 0 <= k < state.ids().len()
                        &&& committable(
                            self.ids(),
                            self.parts(),
                            #[trigger] state.ids()[k],
                            state.copies()[k],
                        ) == Some(e)
                        &&& forall|j: int|
                            0 <= j < k ==> committable(
                                self.ids(),
                                self.parts(),
                                #[trigger] state.ids()[j],
                                state.copies()[j],
                            ).is_none()
                    },
            },
    {
        let mut at: Vec<(usize, usize)> = Vec::new();
        let n = state.ids.len();
        let mut k: usize = 0;
        while k < n
            invariant
                k <= n,
                n == state.ids@.len(),
                self.wf(),
                state.wf(),
                at@.len() == k,
                forall|j: int|
                    0 <= j < k ==> committable(
                        self.ids(),
                        self.parts(),
                        #[trigger] state.ids()[j],
                        state.copies()[j],
                    ).is_none(),
                forall|j: int|
                    0 <= j < k ==> {
                        &&& (#[trigger] at@[j]).0 < self.ids().len()
                        &&& self.ids()[at@[j].0 as int] == state.ids()[j]
                        &&& latest_with_sum(
                            self.parts()[at@[j].0 as int],
                            state.copies()[j].parent(),
                            at@[j].1 as int,
                        )
                    },
            decreases n - k,
        {
            let id = state.ids[k];
            let i = match find_id(&self.ids, id) {
                Ok(i) => i,
                Err(_) => {
                    assert(committable(
                        self.ids(),
                        self.parts(),
                        state.ids()[k as int],
                        state.copies()[k as int],
                    ) == Some(RepoError::NoPartition(id)));
                    return Err(RepoError::NoPartition(id));
                },
            };
            proof {
                lemma_paired_at(self.ids@, self.parts@, i as int);
                self.parts@[i as int].lemma_wf();
            }
            let parent = match self.parts[i].find(state.states[k].parent_sum().as_slice()) {
                Some(parent) => parent,
                None => {
                    assert(committable(
                        self.ids(),
                        self.parts(),
                        state.ids()[k as int],
                        state.copies()[k as int],
                    ) == Some(RepoError::WrongParent(id)));
                    return Err(RepoError::WrongParent(id));
                },
            };
            proof {
                let p = self.parts@[i as int];
                assert(state_sum(p.states()[parent as int]) == state.copies()[k as int].parent());
                assert(committable(
                    self.ids(),
                    self.parts(),
                    state.ids()[k as int],
                    state.copies()[k as int],
                ).is_none());
            }
            at.push((i, parent));
            k += 1;
        }
        Ok(at)
    }

    /// Commits a working view: each partition gets a commit that holds what
    /// the view holds for it, made from the latest commit with the state that
    /// the view's copy was made of. Where that is no longer the partition's
    /// head, the partition has one head more afterwards. Nothing is committed
    /// unless all of it can be.
    pub fn merge_in(&mut self, state: RepoState) -> (r: Result<(), RepoError>)
        requires
            old(self).wf(),
            state.wf(),
        ensures
            final(self).wf(),
            final(self).ids() == old(self).ids(),
            final(self).table() == old(self).table(),
            final(self).classes() == old(self).classes(),
            final(self).parts().len() == old(self).parts().len(),
            match r {
                Ok(_) => {
                    &&& forall|k: int|
                        0 <= k < state.ids().len() ==> old(self).ids().contains(
                            #[trigger] state.ids()[k],
                        ) && pushed(
                            old(self).parts()[old(self).ids().index_of(state.ids()[k])],
                            final(self).parts()[old(self).ids().index_of(state.ids()[k])],
                            parent_in(
                                old(self).parts()[old(self).ids().index_of(state.ids()[k])],
                                state.copies()[k].parent(),
                            ),
                            state.copies()[k]@,
                        )
                    &&& forall|i: int|
                        0 <= i < old(self).parts().len() && !state.ids().contains(
                            old(self).ids()[i],
                        ) ==> same_history(old(self).parts()[i], #[trigger] final(self).parts()[i])
                },
                Err(e) => {
                    &&& final(self).parts() == old(self).parts()
                    &&& exists|k: int|
                        {
                            &&& 0 <= k < state.ids().len()
                            &&& committable(
                                old(self).ids(),
                                old(self).parts(),
                                #[trigger] state.ids()[k],
                                state.copies()[k],
                            ) == Some(e)
                            &&& forall|j: int|
                                0 <= j < k ==> committable(
                                    old(self).ids(),
                                    old(self).parts(),
                                    #[trigger] state.ids()[j],
                                    state.copies()[j],
                                ).is_none()
                        }
                },
            },
    {
        let at = match self.places(&state) {
            Ok(at) => at,
            Err(e) => {
                return Err(e);
            },
        };
        let ghost before = self.parts@;
        let ghost sids = state.ids@;
        let ghost copies = state.states@;
        let ghost rids = self.ids@;
        let mut states = state.states;
        let mut k: usize = states.len();
        proof {
            assert forall|j: int| 0 <= j < at@.len() implies (#[trigger] at@[j]).0
                == rids.index_of(sids[j]) by {
                lemma_paired_at(rids, before, at@[j].0 as int);
            }
        }
        while k > 0
            invariant
                k <= copies.len(),
                states@ == copies.take(k as int),
                at@.len() == copies.len(),
                sids.len() == copies.len(),
                increasing(sids),
                increasing(rids),
                rids == self.ids@,
                rids == old(self).ids@,
                self.driver == old(self).driver,
                before == old(self).parts@,
                self.parts@.len() == before.len(),
                rids.len() == before.len(),
                self.wf(),
                forall|j: int| 0 <= j < copies.len() ==> (#[trigger] copies[j]).wf(),
                forall|j: int| 0 <= j < before.len() ==> (#[trigger] before[j]).wf(),
                forall|j: int|
                    0 <= j < at@.len() ==> {
                        &&& (#[trigger] at@[j]).0 < rids.len()
                        &&& rids[at@[j].0 as int] == sids[j]
                        &&& at@[j].0 == rids.index_of(sids[j])
                        &&& latest_with_sum(
                            before[at@[j].0 as int],
                            copies[j].parent(),
                            at@[j].1 as int,
                        )
                    },
                forall|j: int|
                    k <= j < copies.len() ==> pushed(
                        before[at@[j].0 as int],
                        self.parts@[(#[trigger] at@[j]).0 as int],
                        at@[j].1 as int,
                        copies[j]@,
                    ),
                forall|i: int|
                    0 <= i < before.len() && !(exists|j: int|
                        k <= j < copies.len() && #[trigger] sids[j] == rids[i]) ==> same_history(
                        before[i],
                        #[trigger] self.parts@[i],
                    ),
            decreases k,
        {
            let ghost was = self.parts@;
            let m = states.pop().unwrap();
            k -= 1;
            let i = at[k].0;
            let parent = at[k].1;
            proof {
                assert(m == copies[k as int]);
                assert(!(exists|j: int|
                    k + 1 <= j < copies.len() && #[trigger] sids[j] == rids[i as int])) by {
                    if exists|j: int|
                        k + 1 <= j < copies.len() && #[trigger] sids[j] == rids[i as int] {
                        let j = choose|j: int|
                            k + 1 <= j < copies.len() && #[trigger] sids[j] == rids[i as int];
                        assert(sids[k as int] < sids[j]);
                    }
                }
                assert(same_history(before[i as int], self.parts@[i as int]));
            }
            let done = self.parts[i].push_state(m, Some(parent));
            proof {
                assert(done is Ok);
                assert(states@ =~= copies.take(k as int));
                assert forall|j: int| k <= j < copies.len() implies pushed(
                    before[at@[j].0 as int],
                    self.parts@[(#[trigger] at@[j]).0 as int],
                    at@[j].1 as int,
                    copies[j]@,
                ) by {
                    if j > k {
                        assert(sids[k as int] < sids[j]);
                        assert(at@[j].0 != i);
                        assert(self.parts@[at@[j].0 as int] == was[at@[j].0 as int]);
                    }
                }
                assert forall|x: int|
                    0 <= x < before.len() && !(exists|j: int|
                        k <= j < copies.len() && #[trigger] sids[j] == rids[x]) implies same_history(
                    before[x],
                    #[trigger] self.parts@[x],
                ) by {
                    assert(sids[k as int] == rids[i as int]);
                    assert(x != i);
                    assert(self.parts@[x] == was[x]);
                    if exists|j: int| k + 1 <= j < copies.len() && #[trigger] sids[j] == rids[x] {
                        let j = choose|j: int|
                            k + 1 <= j < copies.len() && #[trigger] sids[j] == rids[x];
                        assert(k <= j < copies.len() && sids[j] == rids[x]);
                    }
                }
            }
        }
        proof {
            assert forall|j: int| 0 <= j < sids.len() implies old(self).ids().contains(
                #[trigger] sids[j],
            ) && pushed(
                before[rids.index_of(sids[j])],
                self.parts@[rids.index_of(sids[j])],
                parent_in(before[rids.index_of(sids[j])], copies[j].parent()),
                copies[j]@,
            ) by {
                assert(rids[at@[j].0 as int] == sids[j]);
                lemma_parent_in(before[at@[j].0 as int], copies[j].parent(), at@[j].1 as int);
            }
            assert forall|i: int|
                0 <= i < before.len() && !sids.contains(rids[i]) implies same_history(
                before[i],
                #[trigger] self.parts@[i],
            ) by {
                if exists|j: int| 0 <= j < copies.len() && #[trigger] sids[j] == rids[i] {
                    let j = choose|j: int| 0 <= j < copies.len() && #[trigger] sids[j] == rids[i];
                    assert(sids.contains(rids[i]));
                }
            }
        }
        Ok(())
    }

    /// The stored form of the routing table for a partition's file.
    pub fn write_meta(&self, tag: &[u8; 8]) -> (r: Option<Vec<u8>>)
        requires
            self.wf(),
        ensures
            match r {
                Some(out) => self.table().dom().len() <= u32::MAX && decoded(tag@, out@) is Ok
                    && absorb_all(Map::empty(), decoded(tag@, out@)->Ok_0) == self.table(),
                None => self.table().dom().len() > u32::MAX,
            },
    {
        let r = self.driver.write_buf(tag);
        proof {
            self.driver.lemma_wf();
            if r is Some {
                crate::meta::law_stored_table_reads_back(tag@, self.driver.records());
            }
        }
        r
    }

    /// Takes the routing table stored in a partition's file into this
    /// repository's: each record that is new or has a higher version than what
    /// is known. A block that is refused changes nothing.
    pub fn read_meta(&mut self, tag: &[u8; 8], buf: &[u8]) -> (r: Result<(), MetaError>)
        requires
            old(self).wf(),
        ensures
            final(self).wf(),
            final(self).ids() == old(self).ids(),
            final(self).parts() == old(self).parts(),
            match r {
                Ok(_) => decoded(tag@, buf@) matches Ok(recs) && final(self).table() == absorb_all(
                    old(self).table(),
                    recs,
                ),
                Err(e) => decoded(tag@, buf@) == Err::<Seq<crate::meta::Record>, _>(e) && final(self).table() == old(self).table(),
            },
    {
        self.driver.read_buf(tag, buf)
    }

    /// Divides partition `part_id` at the median of the classification keys
    /// `keys` of its elements, and sets up the two new partitions, each with an
    /// empty history, unless the repository holds a partition under that
    /// identifier already. The divided partition keeps its history.
    pub fn divide(&mut self, part_id: u64, keys: &[u32]) -> (r: Result<
        (Vec<u64>, Vec<u64>),
        DivideError,
    >)
        requires
            old(self).wf(),
        ensures
            final(self).wf(),
            match r {
                Ok(made) => {
                    &&& divided(old(self).table(), part_id, keys@) matches Ok(d)
                    &&& final(self).table() == d.table
                    &&& made.0@ == seq![d.first, d.second]
                    &&& made.1@ == Seq::<u64>::empty()
                    &&& forall|id: u64|
                        final(self).ids().contains(id) <==> old(self).ids().contains(id) || id
                            == d.first || id == d.second
                    &&& forall|id: u64|
                        #![trigger old(self).ids().index_of(id)]
                        old(self).ids().contains(id) ==> same_history(
                            old(self).parts()[old(self).ids().index_of(id)],
                            final(self).parts()[final(self).ids().index_of(id)],
                        )
                    &&& !old(self).ids().contains(d.first) ==> fresh(
                        final(self).parts()[final(self).ids().index_of(d.first)],
                        d.first,
                    )
                    &&& !old(self).ids().contains(d.second) ==> fresh(
                        final(self).parts()[final(self).ids().index_of(d.second)],
                        d.second,
                    )
                },
                Err(e) => {
                    &&& divided(old(self).table(), part_id, keys@) == Err::<Division, _>(e)
                    &&& final(self).table() == old(self).table()
                    &&& final(self).ids() == old(self).ids()
                    &&& final(self).parts() == old(self).parts()
                },
            },
    {
        let made = match self.driver.divide(part_id, keys) {
            Ok(made) => made,
            Err(e) => {
                return Err(e);
            },
        };
        let first = made.0[0];
        let second = made.0[1];
        self.add_partition(first);
        let ghost mid_ids = self.ids@;
        let ghost mid_parts = self.parts@;
        self.add_partition(second);
        proof {
            assert forall|id: u64|
                #![trigger old(self).ids().index_of(id)]
                old(self).ids().contains(id) implies same_history(
                old(self).parts()[old(self).ids().index_of(id)],
                self.parts()[self.ids().index_of(id)],
            ) by {
                assert(mid_ids.contains(id));
                assert(same_history(
                    old(self).parts()[old(self).ids().index_of(id)],
                    mid_parts[mid_ids.index_of(id)],
                ));
                assert(same_history(
                    mid_parts[mid_ids.index_of(id)],
                    self.parts()[self.ids().index_of(id)],
                ));
            }
            if !old(self).ids().contains(first) {
                assert(mid_ids.contains(first));
                assert(same_history(
                    mid_parts[mid_ids.index_of(first)],
                    self.parts()[self.ids().index_of(first)],
                ));
            }
        }
        Ok(made)
    }

    /// Sets up a partition with an empty history under `id`, unless there is
    /// one there already.
    fn add_partition(&mut self, id: u64)
        requires
            old(self).wf(),
        ensures
            final(self).wf(),
            final(self).driver == old(self).driver,
            forall|x: u64| final(self).ids().contains(x) <==> old(self).ids().contains(x) || x == id,
            forall|x: u64|
                #![trigger old(self).ids().index_of(x)]
                old(self).ids().contains(x) ==> same_history(
                    old(self).parts()[old(self).ids().index_of(x)],
                    final(self).parts()[final(self).ids().index_of(x)],
                ),
            !old(self).ids().contains(id) ==> fresh(
                final(self).parts()[final(self).ids().index_of(id)],
                id,
            ),
    {
        match find_id(&self.ids, id) {
            Ok(_) => {},
            Err(i) => {
                let ghost ids0 = self.ids@;
                let ghost parts0 = self.parts@;
                let p = Partition::create(id);
                proof {
                    lemma_paired_insert(ids0, parts0, i as int, id, p);
                }
                self.ids.insert(i, id);
                self.parts.insert(i, p);
                proof {
                    let ids1 = self.ids@;
                    let parts1 = self.parts@;
                    assert forall|x: u64| ids1.contains(x) <==> ids0.contains(x) || x == id by {
                        assert(paired(ids1, parts1).dom().contains(x) <==> paired(
                            ids0,
                            parts0,
                        ).insert(id, p).dom().contains(x));
                    }
                    assert forall|j: int| 0 <= j < parts1.len() implies (#[trigger] parts1[j]).wf()
                        && parts1[j].id() == ids1[j] by {
                        if j < i {
                            assert(parts1[j] == parts0[j]);
                        } else if j > i {
                            assert(parts1[j] == parts0[j - 1]);
                        }
                    }
                    assert forall|x: u64|
                        #![trigger ids0.index_of(x)]
                        ids0.contains(x) implies same_history(
                        parts0[ids0.index_of(x)],
                        parts1[ids1.index_of(x)],
                    ) by {
                        let j = ids0.index_of(x);
                        lemma_paired_at(ids0, parts0, j);
                        let j1 = if j < i { j } else { j + 1 };
                        assert(ids1[j1] == x);
                        lemma_paired_at(ids1, parts1, j1);
                    }
                    lemma_paired_at(ids1, parts1, i as int);
                }
            },
        }
    }
}

/// What stands against committing the working copy `m` to the partition
/// `id`, if anything: the partition is not there, or its history holds no
/// commit with the state that the copy was made of.
pub open spec fn committable(ids: Seq<u64>, parts: Seq<Partition>, id: u64, m: MutState) -> Option<
    RepoError,
> {
    if !ids.contains(id) {
        Some(RepoError::NoPartition(id))
    } else {
        let p = parts[ids.index_of(id)];
        if forall|i: int| 0 <= i < p.links().len() ==> state_sum(#[trigger] p.states()[i])
            != m.parent() {
            Some(RepoError::WrongParent(id))
        } else {
            None
        }
    }
}

} // verus!
