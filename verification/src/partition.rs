//! The history of one partition: its commits, each with the commits it was
//! made from, and the heads that no commit was made from yet.
//!
//! Commits are kept in the order in which they were made and are known by
//! their place in that order. A commit's parents stand before it, so the
//! history cannot run in circles.

use crate::merge::{merge, merge_outcome, MergeError, Solver};
use crate::state::{apply, commit, replay, same_bytes, Diff, MutState, State};
use vstd::slice::slice_to_vec;
use vstd::prelude::*;

verus! {

/// Whether the parent links are sound: the first commit has no parent, every
/// other has one or two, and parents stand before their children.
pub open spec fn links_wf(g: Seq<Seq<usize>>) -> bool {
    &&& g.len() > 0
    &&& g[0].len() == 0
    &&& forall|i: int| 0 < i < g.len() ==> 1 <= (#[trigger] g[i]).len() <= 2
    &&& forall|i: int, k: int|
        0 <= i < g.len() && 0 <= k < g[i].len() ==> (#[trigger] g[i][k]) < i
}

/// Whether commit `to` is commit `from` or one of its ancestors.
pub open spec fn reaches(g: Seq<Seq<usize>>, from: int, to: int) -> bool
    decreases from,
{
    &&& 0 <= to <= from < g.len()
    &&& (from == to || exists|k: int|
        0 <= k < g[from].len() && (#[trigger] g[from][k]) < from && reaches(
            g,
            g[from][k] as int,
            to,
        ))
}

/// Whether no commit was made from commit `i`.
pub open spec fn childless(g: Seq<Seq<usize>>, i: int) -> bool {
    forall|j: int, k: int| 0 <= j < g.len() && 0 <= k < g[j].len() ==> (#[trigger] g[j][k]) != i
}

/// Whether `x` is the nearest common ancestor of `a` and `b`: the latest
/// commit that both are or descend from.
pub open spec fn is_nearest(g: Seq<Seq<usize>>, a: int, b: int, x: int) -> bool {
    &&& reaches(g, a, x)
    &&& reaches(g, b, x)
    &&& forall|y: int| reaches(g, a, y) && reaches(g, b, y) ==> y <= x
}

/// Whether `heads` are the childless commits, in their order.
pub open spec fn heads_of(heads: Seq<usize>, g: Seq<Seq<usize>>) -> bool {
    &&& forall|p: int, q: int| 0 <= p < q < heads.len() ==> heads[p] < heads[q]
    &&& forall|p: int| 0 <= p < heads.len() ==> (#[trigger] heads[p]) < g.len()
    &&& forall|i: int| 0 <= i < g.len() ==> (heads.contains(i as usize) <==> childless(g, i))
}

/// The nearest common ancestor of `a` and `b`.
pub open spec fn nearest_of(g: Seq<Seq<usize>>, a: int, b: int) -> int {
    choose|x: int| is_nearest(g, a, b, x)
}

/// There is one nearest common ancestor at most.
pub proof fn lemma_nearest_of(g: Seq<Seq<usize>>, a: int, b: int, x: int)
    requires
        is_nearest(g, a, b, x),
    ensures
        nearest_of(g, a, b) == x,
{
    let y = nearest_of(g, a, b);
    assert(is_nearest(g, a, b, y));
}

/// Merging the heads two at a time, the first two first, until one is left:
/// each merge makes a commit of the two heads, which holds their states merged
/// over that of their nearest common ancestor and is the last head from then
/// on. Gives the links and the states afterwards, or the failure of the first
/// merge that fails.
pub open spec fn merge_all(
    chain: Seq<Solver>,
    links: Seq<Seq<usize>>,
    states: Seq<Map<u64, Seq<u8>>>,
    heads: Seq<usize>,
) -> Result<(Seq<Seq<usize>>, Seq<Map<u64, Seq<u8>>>), MergeError>
    decreases heads.len(),
{
    if heads.len() < 2 {
        Ok((links, states))
    } else {
        let a = heads[0];
        let b = heads[1];
        let x = nearest_of(links, a as int, b as int);
        match merge_outcome(chain, states[x], states[a as int], states[b as int]) {
            Err(e) => Err(e),
            Ok(m) => merge_all(
                chain,
                links.push(seq![a, b]),
                states.push(m),
                heads.skip(2).push(links.len() as usize),
            ),
        }
    }
}

/// An ancestor's ancestor is an ancestor.
pub proof fn lemma_reaches_on(g: Seq<Seq<usize>>, a: int, x: int, y: int)
    requires
        reaches(g, a, x),
        reaches(g, x, y),
    ensures
        reaches(g, a, y),
    decreases a,
{
    if a != x {
        let k = choose|k: int|
            0 <= k < g[a].len() && (#[trigger] g[a][k]) < a && reaches(g, g[a][k] as int, x);
        lemma_reaches_on(g, g[a][k] as int, x, y);
    }
}

/// Every commit descends from the first one.
pub proof fn lemma_reaches_root(g: Seq<Seq<usize>>, a: int)
    requires
        links_wf(g),
        0 <= a < g.len(),
    ensures
        reaches(g, a, 0),
    decreases a,
{
    if a > 0 {
        assert(g[a].len() >= 1);
        let p = g[a][0];
        assert(p < a);
        lemma_reaches_root(g, p as int);
    }
}

/// Marks that hold for a commit and pass from each marked commit to its
/// parents hold for all its ancestors.
pub proof fn lemma_marks_reach(g: Seq<Seq<usize>>, marks: Seq<bool>, from: int, to: int)
    requires
        marks.len() == g.len(),
        reaches(g, from, to),
        marks[from],
        forall|x: int, k: int|
            0 <= x <= from && marks[x] && 0 <= k < g[x].len() && (#[trigger] g[x][k]) < x
                ==> marks[g[x][k] as int],
    ensures
        marks[to],
    decreases from,
{
    if from != to {
        let k = choose|k: int|
            0 <= k < g[from].len() && (#[trigger] g[from][k]) < from && reaches(
                g,
                g[from][k] as int,
                to,
            );
        lemma_marks_reach(g, marks, g[from][k] as int, to);
    }
}

/// Whether commit `i` is the latest of `p` whose state has the state sum `sum`.
pub open spec fn latest_with_sum(p: Partition, sum: Seq<u8>, i: int) -> bool {
    &&& 0 <= i < p.links().len()
    &&& crate::state::state_sum(p.states()[i]) == sum
    &&& forall|j: int| i < j < p.links().len() ==> crate::state::state_sum(#[trigger] p.states()[j]) != sum
}

/// The commit that a working copy with the parent `sum` is committed on: the
/// latest whose state has that sum.
pub open spec fn parent_in(p: Partition, sum: Seq<u8>) -> int {
    choose|i: int| latest_with_sum(p, sum, i)
}

/// There is one such commit at most.
pub proof fn lemma_parent_in(p: Partition, sum: Seq<u8>, i: int)
    requires
        latest_with_sum(p, sum, i),
    ensures
        parent_in(p, sum) == i,
{
    let c = parent_in(p, sum);
    assert(latest_with_sum(p, sum, c));
    if c < i {
        assert(crate::state::state_sum(p.states()[i]) != sum);
    } else if i < c {
        assert(crate::state::state_sum(p.states()[c]) != sum);
    }
}

/// Whether some commit of `p` has a state with the state sum `sum`.
pub open spec fn has_sum(p: Partition, sum: Seq<u8>) -> bool {
    exists|i: int| latest_with_sum(p, sum, i)
}

/// Why a stored commit was not taken into a history.
#[derive(Clone, Copy, Debug, PartialEq, Eq, Structural)]
pub enum LoadError {
    /// The commit names no parent, more than two, or the same one twice.
    BadParents,
    /// The history holds no commit with the state that the commit names as
    /// its parent.
    MissingParent,
    /// Replaying the commit's changes on its parent's state does not give a
    /// state with the state sum that the commit carries.
    SumMismatch,
}

/// A commit as it is stored: the state sums of its parents, its changes
/// against the first of them, and its own state sum.
pub struct CommitRecord {
    /// The state sums of the parents: one, or two for a merge.
    pub parents: Vec<Vec<u8>>,
    /// The changes against the first parent's state.
    pub changes: Diff,
    /// The state sum of the commit's own state.
    pub sum: Vec<u8>,
}

/// The parents that a stored commit gets in the history `p`, or why it cannot
/// be taken in: each parent is the latest commit with the sum named, and the
/// changes must lead from the first parent's state to one with the sum that
/// the commit carries.
pub open spec fn placed(
    p: Partition,
    parents: Seq<Seq<u8>>,
    changes: Map<u64, Option<Seq<u8>>>,
    sum: Seq<u8>,
) -> Result<(usize, Option<usize>), LoadError> {
    if parents.len() == 0 || parents.len() > 2 {
        Err(LoadError::BadParents)
    } else if !has_sum(p, parents[0]) {
        Err(LoadError::MissingParent)
    } else {
        let first = parent_in(p, parents[0]);
        if parents.len() == 2 && !has_sum(p, parents[1]) {
            Err(LoadError::MissingParent)
        } else if parents.len() == 2 && parent_in(p, parents[1]) == first {
            Err(LoadError::BadParents)
        } else if crate::state::state_sum(apply(p.states()[first], changes)) != sum {
            Err(LoadError::SumMismatch)
        } else {
            Ok(
                (
                    first as usize,
                    if parents.len() == 2 {
                        Some(parent_in(p, parents[1]) as usize)
                    } else {
                        None
                    },
                ),
            )
        }
    }
}

/// The state sums of stored parents, as plain bytes.
pub open spec fn sums_of(parents: Seq<Vec<u8>>) -> Seq<Seq<u8>> {
    Seq::new(parents.len(), |i: int| parents[i]@)
}

/// What the history does not allow.
#[derive(Clone, Copy, Debug, PartialEq, Eq, Structural)]
pub enum PartitionError {
    /// There is more than one head: they have to be merged first.
    MergeRequired,
    /// The history holds no commit at the place given as the parent.
    MissingParent,
    /// The working copy was not made from the state of the commit that is to
    /// be its parent.
    WrongParent,
}

/// One point of a partition's history.
pub struct Commit {
    state: State,
    diff: Diff,
    parents: Vec<usize>,
}

/// The history of one partition.
pub struct Partition {
    id: u64,
    commits: Vec<Commit>,
    heads: Vec<usize>,
}

impl Partition {
    /// The partition's identifier.
    pub closed spec fn id(&self) -> u64 {
        self.id
    }

    /// The parents of each commit.
    pub closed spec fn links(&self) -> Seq<Seq<usize>> {
        Seq::new(self.commits@.len(), |i: int| self.commits@[i].parents@)
    }

    /// The elements at each commit.
    pub closed spec fn states(&self) -> Seq<Map<u64, Seq<u8>>> {
        Seq::new(self.commits@.len(), |i: int| self.commits@[i].state@)
    }

    /// The changes that each commit records, against its first parent.
    pub closed spec fn diffs(&self) -> Seq<Map<u64, Option<Seq<u8>>>> {
        Seq::new(self.commits@.len(), |i: int| self.commits@[i].diff@)
    }

    /// The heads, in the order in which they were made.
    pub closed spec fn heads(&self) -> Seq<usize> {
        self.heads@
    }

    /// The commits, in the order in which they were made.
    pub closed spec fn history(&self) -> Seq<Commit> {
        self.commits@
    }

    /// The history is sound.
    pub closed spec fn wf(&self) -> bool {
        &&& links_wf(self.links())
        &&& heads_of(self.heads@, self.links())
        &&& forall|i: int|
            0 <= i < self.commits@.len() ==> (#[trigger] self.commits@[i]).state.wf()
                && self.commits@[i].diff.wf()
        &&& forall|i: int|
            0 < i < self.commits@.len() ==> apply(
                self.commits@[self.commits@[i].parents@[0] as int].state@,
                self.commits@[i].diff@,
            ) == (#[trigger] self.commits@[i]).state@
    }

    /// What a sound history guarantees: the links are sound, the heads are the
    /// childless commits and there is one at least, and replaying the changes
    /// of a commit on the state of its first parent gives its state.
    pub proof fn lemma_wf(&self)
        requires
            self.wf(),
        ensures
            links_wf(self.links()),
            heads_of(self.heads(), self.links()),
            self.heads().len() >= 1,
            self.states().len() == self.links().len(),
            self.diffs().len() == self.links().len(),
            forall|i: int|
                0 < i < self.links().len() ==> apply(
                    self.states()[self.links()[i][0] as int],
                    #[trigger] self.diffs()[i],
                ) == self.states()[i],
    {
        let g = self.links();
        let last = g.len() - 1;
        assert(childless(g, last)) by {
            assert forall|j: int, k: int| 0 <= j < g.len() && 0 <= k < g[j].len() implies (
            #[trigger] g[j][k]) != last by {
                assert(g[j][k] < j);
            }
        }
        assert(self.heads@.contains(last as usize));
    }

    /// A new partition: its history is one commit, which holds no element.
    pub fn create(id: u64) -> (p: Partition)
        ensures
            p.wf(),
            p.id() == id,
            p.links() == seq![Seq::<usize>::empty()],
            p.states() == seq![Map::<u64, Seq<u8>>::empty()],
            p.heads() == seq![0usize],
    {
        let mut commits: Vec<Commit> = Vec::new();
        commits.push(Commit { state: State::new(), diff: Diff::new(), parents: Vec::new() });
        let mut heads: Vec<usize> = Vec::new();
        heads.push(0);
        let p = Partition { id, commits, heads };
        proof {
            assert(p.links() =~= seq![Seq::<usize>::empty()]);
            assert(p.states() =~= seq![Map::<u64, Seq<u8>>::empty()]);
            assert(heads@[0] == 0);
            assert(childless(p.links(), 0));
        }
        p
    }

    /// The partition's identifier.
    pub fn part_id(&self) -> (id: u64)
        ensures
            id == self.id(),
    {
        self.id
    }

    /// How many commits the history holds.
    pub fn len(&self) -> (n: usize)
        requires
            self.wf(),
        ensures
            n == self.links().len(),
            n >= 1,
    {
        self.commits.len()
    }

    /// The state at commit `i`.
    pub fn state(&self, i: usize) -> (s: &State)
        requires
            self.wf(),
            i < self.links().len(),
        ensures
            s.wf(),
            s@ == self.states()[i as int],
    {
        &self.commits[i].state
    }

    /// The changes that commit `i` records.
    pub fn diff(&self, i: usize) -> (d: &Diff)
        requires
            self.wf(),
            i < self.links().len(),
        ensures
            d.wf(),
            d@ == self.diffs()[i as int],
    {
        &self.commits[i].diff
    }

    /// The parents of commit `i`.
    pub fn parents(&self, i: usize) -> (p: &Vec<usize>)
        requires
            self.wf(),
            i < self.links().len(),
        ensures
            p@ == self.links()[i as int],
    {
        &self.commits[i].parents
    }

    /// The heads: the commits that no commit was made from.
    pub fn head_indices(&self) -> (h: &Vec<usize>)
        requires
            self.wf(),
        ensures
            h@ == self.heads(),
            h@.len() >= 1,
    {
        proof {
            self.lemma_wf();
        }
        &self.heads
    }

    /// Whether there is more than one head.
    pub fn merge_required(&self) -> (r: bool)
        requires
            self.wf(),
        ensures
            r == (self.heads().len() > 1),
    {
        self.heads.len() > 1
    }

    /// The place of the one head.
    pub fn tip_index(&self) -> (r: Result<usize, PartitionError>)
        requires
            self.wf(),
        ensures
            match r {
                Ok(i) => self.heads() == seq![i] && i < self.links().len(),
                Err(e) => e == PartitionError::MergeRequired && self.heads().len() > 1,
            },
    {
        proof {
            self.lemma_wf();
        }
        if self.heads.len() > 1 {
            return Err(PartitionError::MergeRequired);
        }
        let i = self.heads[0];
        assert(self.heads@ =~= seq![i]);
        Ok(i)
    }

    /// The state at the one head.
    pub fn tip(&self) -> (r: Result<&State, PartitionError>)
        requires
            self.wf(),
        ensures
            match r {
                Ok(s) => self.heads().len() == 1 && s.wf() && s@ == self.states()[self.heads()[0] as int],
                Err(e) => e == PartitionError::MergeRequired && self.heads().len() > 1,
            },
    {
        match self.tip_index() {
            Ok(i) => Ok(&self.commits[i].state),
            Err(e) => Err(e),
        }
    }

    /// The latest commit whose state has the state sum `sum`.
    pub fn find(&self, sum: &[u8]) -> (r: Option<usize>)
        requires
            self.wf(),
        ensures
            match r {
                Some(i) => {
                    &&& i < self.links().len()
                    &&& crate::state::state_sum(self.states()[i as int]) == sum@
                    &&& forall|j: int|
                        i < j < self.links().len() ==> crate::state::state_sum(
                            #[trigger] self.states()[j],
                        ) != sum@
                },
                None => forall|j: int|
                    0 <= j < self.links().len() ==> crate::state::state_sum(
                        #[trigger] self.states()[j],
                    ) != sum@,
            },
    {
        let mut i: usize = self.commits.len();
        while i > 0
            invariant
                i <= self.commits@.len(),
                self.wf(),
                forall|j: int|
                    i <= j < self.links().len() ==> crate::state::state_sum(
                        #[trigger] self.states()[j],
                    ) != sum@,
            decreases i,
        {
            i -= 1;
            let s = &self.commits[i].state;
            if same_bytes(s.statesum().as_slice(), sum) {
                return Some(i);
            }
        }
        None
    }

    /// Which commits commit `a` is or descends from.
    fn ancestors(&self, a: usize) -> (marks: Vec<bool>)
        requires
            self.wf(),
            a < self.links().len(),
        ensures
            marks@.len() == self.links().len(),
            forall|x: int| 0 <= x < marks@.len() ==> marks@[x] == reaches(self.links(), a as int, x),
    {
        let ghost g = self.links();
        let n = self.commits.len();
        let mut marks: Vec<bool> = Vec::new();
        let mut z: usize = 0;
        while z < n
            invariant
                z <= n,
                marks@.len() == z,
                forall|x: int| 0 <= x < z ==> !marks@[x],
            decreases n - z,
        {
            marks.push(false);
            z += 1;
        }
        marks[a] = true;
        let mut i: usize = a + 1;
        while i > 0
            invariant
                i <= a + 1,
                a < n,
                n == self.commits@.len(),
                g == self.links(),
                links_wf(g),
                self.wf(),
                marks@.len() == n,
                marks@[a as int],
                forall|x: int| 0 <= x < n && marks@[x] ==> reaches(g, a as int, x),
                forall|x: int, k: int|
                    i <= x <= a && marks@[x] && 0 <= k < g[x].len() && (#[trigger] g[x][k]) < x
                        ==> marks@[g[x][k] as int],
            decreases i,
        {
            i -= 1;
            if marks[i] {
                let parents = &self.commits[i].parents;
                assert(parents@ == g[i as int]);
                let mut k: usize = 0;
                while k < parents.len()
                    invariant
                        k <= parents@.len(),
                        parents@ == g[i as int],
                        i <= a,
                        a < n,
                        n == g.len(),
                        links_wf(g),
                        marks@.len() == n,
                        marks@[a as int],
                        marks@[i as int],
                        forall|x: int| 0 <= x < n && marks@[x] ==> reaches(g, a as int, x),
                        forall|x: int, k: int|
                            i < x <= a && marks@[x] && 0 <= k < g[x].len() && (#[trigger] g[x][k])
                                < x ==> marks@[g[x][k] as int],
                        forall|q: int| 0 <= q < k ==> marks@[(#[trigger] g[i as int][q]) as int],
                    decreases parents@.len() - k,
                {
                    let p = parents[k];
                    proof {
                        assert(g[i as int][k as int] < i);
                        assert(reaches(g, i as int, p as int)) by {
                            assert(reaches(g, p as int, p as int));
                        }
                        lemma_reaches_on(g, a as int, i as int, p as int);
                    }
                    marks[p] = true;
                    k += 1;
                }
            }
        }
        proof {
            assert forall|x: int| 0 <= x < marks@.len() implies marks@[x] == reaches(
                g,
                a as int,
                x,
            ) by {
                if reaches(g, a as int, x) {
                    lemma_marks_reach(g, marks@, a as int, x);
                }
            }
        }
        marks
    }

    /// The nearest common ancestor of two commits of this history.
    fn nearest(&self, a: usize, b: usize) -> (x: usize)
        requires
            self.wf(),
            a < self.links().len(),
            b < self.links().len(),
        ensures
            is_nearest(self.links(), a as int, b as int, x as int),
    {
        let n = self.commits.len();
        let ghost g = self.links();
        let of_a = self.ancestors(a);
        let of_b = self.ancestors(b);
        let mut i: usize = n;
        while i > 1
            invariant
                1 <= i <= n,
                a < n,
                b < n,
                n == g.len(),
                g == self.links(),
                of_a@.len() == n,
                of_b@.len() == n,
                forall|x: int| 0 <= x < n ==> of_a@[x] == reaches(g, a as int, x),
                forall|x: int| 0 <= x < n ==> of_b@[x] == reaches(g, b as int, x),
                forall|y: int| i <= y < n ==> !(reaches(g, a as int, y) && reaches(g, b as int, y)),
            decreases i,
        {
            i -= 1;
            if of_a[i] && of_b[i] {
                return i;
            }
        }
        proof {
            lemma_reaches_root(g, a as int);
            lemma_reaches_root(g, b as int);
        }
        0
    }

    /// The nearest common ancestor of the commits `a` and `b`: the latest
    /// commit that both are or descend from. There is none only where `a` or
    /// `b` is no commit of this history.
    pub fn ancestor(&self, a: usize, b: usize) -> (r: Option<usize>)
        requires
            self.wf(),
        ensures
            match r {
                Some(x) => a < self.links().len() && b < self.links().len() && is_nearest(
                    self.links(),
                    a as int,
                    b as int,
                    x as int,
                ),
                None => a >= self.links().len() || b >= self.links().len(),
            },
    {
        if a >= self.commits.len() || b >= self.commits.len() {
            return None;
        }
        Some(self.nearest(a, b))
    }

    /// Appends a commit with the given state, changes and parents, and makes
    /// it a head in place of its parents.
    fn append(&mut self, state: State, diff: Diff, first: usize, second: Option<usize>) -> (n: usize)
        requires
            old(self).wf(),
            state.wf(),
            diff.wf(),
            first < old(self).links().len(),
            second matches Some(s) ==> s < old(self).links().len() && s != first,
            apply(old(self).states()[first as int], diff@) == state@,
        ensures
            final(self).wf(),
            final(self).id() == old(self).id(),
            n == old(self).links().len(),
            final(self).links() == old(self).links().push(
                match second {
                    Some(s) => seq![first, s],
                    None => seq![first],
                },
            ),
            final(self).states() == old(self).states().push(state@),
            final(self).diffs() == old(self).diffs().push(diff@),
            final(self).heads() == without(old(self).heads(), first, second).push(n),
            final(self).history().take(n as int) == old(self).history(),
    {
        let ghost g0 = self.links();
        let ghost heads0 = self.heads@;
        let n = self.commits.len();
        let mut parents: Vec<usize> = Vec::new();
        parents.push(first);
        match second {
            Some(s) => {
                parents.push(s);
            },
            None => {},
        }
        let ghost link = parents@;
        assert(link =~= match second {
            Some(s) => seq![first, s],
            None => seq![first],
        });
        let mut heads: Vec<usize> = Vec::new();
        let mut i: usize = 0;
        assert(heads0.take(0) =~= Seq::<usize>::empty());
        while i < self.heads.len()
            invariant
                i <= self.heads@.len(),
                self.heads@ == heads0,
                heads@ == without(heads0.take(i as int), first, second),
            decreases self.heads@.len() - i,
        {
            let h = self.heads[i];
            proof {
                assert(heads0.take(i + 1).drop_last() =~= heads0.take(i as int));
                assert(heads0.take(i + 1).last() == h);
            }
            if h != first && Some(h) != second {
                heads.push(h);
            }
            i += 1;
        }
        assert(heads0.take(i as int) =~= heads0);
        heads.push(n);
        let ghost commits0 = self.commits@;
        self.commits.push(Commit { state, diff, parents });
        self.heads = heads;
        proof {
            let g = self.links();
            assert(g =~= g0.push(link));
            assert(self.states() =~= old(self).states().push(state@));
            assert(self.diffs() =~= old(self).diffs().push(diff@));
            assert(self.commits@.take(n as int) =~= commits0);
            assert forall|i: int| 0 < i < self.commits@.len() implies apply(
                self.commits@[self.commits@[i].parents@[0] as int].state@,
                self.commits@[i].diff@,
            ) == (#[trigger] self.commits@[i]).state@ by {
                if i < n {
                    assert(self.commits@[i] == commits0[i]);
                    assert(g0[i][0] < i);
                    assert(commits0[i].parents@ == g0[i]);
                } else {
                    assert(old(self).states()[first as int] == commits0[first as int].state@);
                }
            }
            lemma_heads_after(g0, heads0, link, first, second, n);
        }
        n
    }

    /// A history that starts with a snapshot: its one commit holds `state`.
    pub fn from_snapshot(id: u64, state: State) -> (p: Partition)
        requires
            state.wf(),
        ensures
            p.wf(),
            p.id() == id,
            p.links() == seq![Seq::<usize>::empty()],
            p.states() == seq![state@],
            p.heads() == seq![0usize],
    {
        let mut commits: Vec<Commit> = Vec::new();
        commits.push(Commit { state, diff: Diff::new(), parents: Vec::new() });
        let mut heads: Vec<usize> = Vec::new();
        heads.push(0);
        let p = Partition { id, commits, heads };
        proof {
            assert(p.links() =~= seq![Seq::<usize>::empty()]);
            assert(p.states() =~= seq![state@]);
            assert(heads@[0] == 0);
            assert(childless(p.links(), 0));
        }
        p
    }

    /// The latest commit with the state sum `sum`, as a stored commit's parent.
    fn parent_with(&self, sum: &Vec<u8>) -> (r: Option<usize>)
        requires
            self.wf(),
        ensures
            match r {
                Some(i) => has_sum(*self, sum@) && parent_in(*self, sum@) == i && i
                    < self.links().len(),
                None => !has_sum(*self, sum@),
            },
    {
        let r = self.find(sum.as_slice());
        proof {
            match r {
                Some(i) => {
                    assert(latest_with_sum(*self, sum@, i as int));
                    lemma_parent_in(*self, sum@, i as int);
                },
                None => {
                    if has_sum(*self, sum@) {
                        let i = choose|i: int| latest_with_sum(*self, sum@, i);
                        assert(crate::state::state_sum(self.states()[i]) == sum@);
                    }
                },
            }
        }
        r
    }

    /// Takes a stored commit into the history: finds its parents by their
    /// state sums, replays its changes on the first parent's state, and holds
    /// the result against the state sum that the commit carries. A commit that
    /// names a parent that is not there, or whose changes do not give its
    /// sum, is refused and the history stays as it was.
    pub fn add_commit(&mut self, rec: CommitRecord) -> (r: Result<usize, LoadError>)
        requires
            old(self).wf(),
            rec.changes.wf(),
        ensures
            final(self).wf(),
            final(self).id() == old(self).id(),
            match r {
                Ok(n) => {
                    &&& placed(*old(self), sums_of(rec.parents@), rec.changes@, rec.sum@) matches Ok(
                        at,
                    )
                    &&& n == old(self).links().len()
                    &&& final(self).links() == old(self).links().push(
                        match at.1 {
                            Some(second) => seq![at.0, second],
                            None => seq![at.0],
                        },
                    )
                    &&& final(self).states() == old(self).states().push(
                        apply(old(self).states()[at.0 as int], rec.changes@),
                    )
                    &&& final(self).diffs() == old(self).diffs().push(rec.changes@)
                    &&& final(self).heads() == without(old(self).heads(), at.0, at.1).push(n)
                },
                Err(e) => {
                    &&& placed(*old(self), sums_of(rec.parents@), rec.changes@, rec.sum@)
                        == Err::<(usize, Option<usize>), _>(e)
                    &&& final(self).links() == old(self).links()
                    &&& final(self).states() == old(self).states()
                    &&& final(self).diffs() == old(self).diffs()
                    &&& final(self).heads() == old(self).heads()
                },
            },
    {
        let count = rec.parents.len();
        if count == 0 || count > 2 {
            return Err(LoadError::BadParents);
        }
        assert(sums_of(rec.parents@)[0] == rec.parents@[0]@);
        let first = match self.parent_with(&rec.parents[0]) {
            Some(i) => i,
            None => {
                return Err(LoadError::MissingParent);
            },
        };
        let second = if count == 2 {
            assert(sums_of(rec.parents@)[1] == rec.parents@[1]@);
            match self.parent_with(&rec.parents[1]) {
                Some(i) => {
                    if i == first {
                        return Err(LoadError::BadParents);
                    }
                    Some(i)
                },
                None => {
                    return Err(LoadError::MissingParent);
                },
            }
        } else {
            None
        };
        let state = replay(&self.commits[first].state, &rec.changes);
        if !same_bytes(state.statesum().as_slice(), rec.sum.as_slice()) {
            return Err(LoadError::SumMismatch);
        }
        let n = self.append(state, rec.changes, first, second);
        Ok(n)
    }

    /// Commit `i` as it is stored: the state sums of its parents, its changes
    /// and its state sum.
    pub fn record(&self, i: usize) -> (rec: CommitRecord)
        requires
            self.wf(),
            0 < i < self.links().len(),
        ensures
            rec.changes.wf(),
            rec.changes@ == self.diffs()[i as int],
            rec.sum@ == crate::state::state_sum(self.states()[i as int]),
            rec.parents@.len() == self.links()[i as int].len(),
            forall|k: int|
                0 <= k < rec.parents@.len() ==> (#[trigger] rec.parents@[k])@
                    == crate::state::state_sum(
                    self.states()[self.links()[i as int][k] as int],
                ),
    {
        let commit = &self.commits[i];
        let ghost g = self.links();
        let mut parents: Vec<Vec<u8>> = Vec::new();
        let mut k: usize = 0;
        while k < commit.parents.len()
            invariant
                k <= commit.parents@.len(),
                self.wf(),
                g == self.links(),
                0 < i < g.len(),
                *commit == self.commits@[i as int],
                parents@.len() == k,
                forall|j: int|
                    0 <= j < k ==> (#[trigger] parents@[j])@ == crate::state::state_sum(
                        self.states()[g[i as int][j] as int],
                    ),
            decreases commit.parents@.len() - k,
        {
            let p = commit.parents[k];
            assert(g[i as int][k as int] == p);
            assert(p < i);
            let sum = slice_to_vec(self.commits[p].state.statesum().as_slice());
            parents.push(sum);
            k += 1;
        }
        CommitRecord {
            parents,
            changes: commit.diff.duplicate(),
            sum: slice_to_vec(commit.state.statesum().as_slice()),
        }
    }

    /// Commits a working copy: the new commit holds what the copy holds, and
    /// becomes a head in place of its parent. The parent is the commit at
    /// `parent`, or the one head if none is given; the copy must have been
    /// made from its state.
    pub fn push_state(&mut self, m: MutState, parent: Option<usize>) -> (r: Result<
        usize,
        PartitionError,
    >)
        requires
            old(self).wf(),
            m.wf(),
        ensures
            final(self).wf(),
            final(self).id() == old(self).id(),
            match r {
                Ok(n) => {
                    &&& pushed_on(old(self).heads(), old(self).links().len(), parent) matches Ok(p)
                    &&& m.parent() == crate::state::state_sum(old(self).states()[p as int])
                    &&& n == old(self).links().len()
                    &&& final(self).links() == old(self).links().push(seq![p])
                    &&& final(self).states() == old(self).states().push(m@)
                    &&& final(self).diffs() == old(self).diffs().push(
                        crate::state::diff_between(old(self).states()[p as int], m@),
                    )
                    &&& final(self).heads() == without(old(self).heads(), p, None).push(n)
                },
                Err(e) => {
                    &&& final(self).links() == old(self).links()
                    &&& final(self).states() == old(self).states()
                    &&& final(self).diffs() == old(self).diffs()
                    &&& final(self).heads() == old(self).heads()
                    &&& match pushed_on(old(self).heads(), old(self).links().len(), parent) {
                        Ok(p) => e == PartitionError::WrongParent && m.parent()
                            != crate::state::state_sum(old(self).states()[p as int]),
                        Err(x) => e == x,
                    }
                },
            },
    {
        proof {
            self.lemma_wf();
        }
        let p = match parent {
            Some(p) => {
                if p >= self.commits.len() {
                    return Err(PartitionError::MissingParent);
                }
                p
            },
            None => {
                if self.heads.len() > 1 {
                    return Err(PartitionError::MergeRequired);
                }
                self.heads[0]
            },
        };
        proof {
            self.commits@[p as int].state.lemma_wf();
        }
        if !same_bytes(m.parent_sum().as_slice(), self.commits[p].state.statesum().as_slice()) {
            return Err(PartitionError::WrongParent);
        }
        let ghost mv = m@;
        let (state, diff) = commit(&self.commits[p].state, m);
        proof {
            crate::state::law_replay_restores(self.commits@[p as int].state@, mv);
        }
        let n = self.append(state, diff, p, None);
        Ok(n)
    }

    /// Merges the first two heads: the new commit has both as its parents,
    /// holds their states merged over that of their nearest common ancestor,
    /// and is a head in their place. Without a second head nothing is done.
    /// On an error the history stays as it was.
    pub fn merge_heads(&mut self, chain: &[Solver]) -> (r: Result<Option<usize>, MergeError>)
        requires
            old(self).wf(),
        ensures
            final(self).wf(),
            final(self).id() == old(self).id(),
            final(self).history().take(old(self).links().len() as int) == old(self).history(),
            match r {
                Ok(Some(n)) => {
                    let a = old(self).heads()[0];
                    let b = old(self).heads()[1];
                    let x = nearest_of(old(self).links(), a as int, b as int);
                    &&& old(self).heads().len() > 1
                    &&& n == old(self).links().len()
                    &&& merge_outcome(
                        chain@,
                        old(self).states()[x],
                        old(self).states()[a as int],
                        old(self).states()[b as int],
                    ) == Ok::<_, MergeError>(final(self).states()[n as int])
                    &&& final(self).links() == old(self).links().push(seq![a, b])
                    &&& final(self).states() == old(self).states().push(
                        final(self).states()[n as int],
                    )
                    &&& final(self).diffs() == old(self).diffs().push(
                        crate::state::diff_between(
                            old(self).states()[a as int],
                            final(self).states()[n as int],
                        ),
                    )
                    &&& final(self).heads() == old(self).heads().skip(2).push(n)
                },
                Ok(None) => {
                    &&& old(self).heads().len() == 1
                    &&& final(self).links() == old(self).links()
                    &&& final(self).states() == old(self).states()
                    &&& final(self).diffs() == old(self).diffs()
                    &&& final(self).heads() == old(self).heads()
                },
                Err(e) => {
                    let a = old(self).heads()[0];
                    let b = old(self).heads()[1];
                    let x = nearest_of(old(self).links(), a as int, b as int);
                    &&& old(self).heads().len() > 1
                    &&& merge_outcome(
                        chain@,
                        old(self).states()[x],
                        old(self).states()[a as int],
                        old(self).states()[b as int],
                    ) == Err::<Map<u64, Seq<u8>>, _>(e)
                    &&& final(self).links() == old(self).links()
                    &&& final(self).states() == old(self).states()
                    &&& final(self).diffs() == old(self).diffs()
                    &&& final(self).heads() == old(self).heads()
                },
            },
    {
        proof {
            self.lemma_wf();
        }
        if self.heads.len() < 2 {
            assert(self.commits@.take(self.commits@.len() as int) =~= self.commits@);
            return Ok(None);
        }
        let a = self.heads[0];
        let b = self.heads[1];
        assert(self.heads@[0] < self.heads@[1]);
        let x = self.nearest(a, b);
        proof {
            lemma_nearest_of(self.links(), a as int, b as int, x as int);
        }
        let merged = match merge(
            chain,
            &self.commits[x].state,
            &self.commits[a].state,
            &self.commits[b].state,
        ) {
            Ok(m) => m,
            Err(e) => {
                assert(self.commits@.take(self.commits@.len() as int) =~= self.commits@);
                return Err(e);
            },
        };
        let ghost mv = merged.state@;
        let (state, diff) = commit(&self.commits[a].state, merged.state);
        proof {
            crate::state::law_replay_restores(self.commits@[a as int].state@, mv);
        }
        let ghost heads0 = self.heads@;
        let n = self.append(state, diff, a, Some(b));
        proof {
            lemma_without_first_two(heads0);
        }
        Ok(Some(n))
    }

    /// Merges the heads, two at a time, until one is left, and returns its
    /// place. Each step is that of `merge_heads`. If a step fails, the history
    /// is put back as it was before the first.
    pub fn merge(&mut self, chain: &[Solver]) -> (r: Result<usize, MergeError>)
        requires
            old(self).wf(),
        ensures
            final(self).wf(),
            final(self).id() == old(self).id(),
            match merge_all(chain@, old(self).links(), old(self).states(), old(self).heads()) {
                Ok(after) => {
                    &&& r is Ok
                    &&& final(self).heads() == seq![r->Ok_0]
                    &&& final(self).links() == after.0
                    &&& final(self).states() == after.1
                },
                Err(e) => {
                    &&& r == Err::<usize, _>(e)
                    &&& final(self).links() == old(self).links()
                    &&& final(self).states() == old(self).states()
                    &&& final(self).diffs() == old(self).diffs()
                    &&& final(self).heads() == old(self).heads()
                },
            },
    {
        proof {
            self.lemma_wf();
        }
        let n0 = self.commits.len();
        let ghost commits0 = self.commits@;
        let ghost heads0 = self.heads@;
        let mut saved: Vec<usize> = Vec::new();
        let mut i: usize = 0;
        while i < self.heads.len()
            invariant
                i <= self.heads@.len(),
                self.heads@ == heads0,
                saved@ == heads0.take(i as int),
            decreases self.heads@.len() - i,
        {
            saved.push(self.heads[i]);
            assert(heads0.take(i + 1) =~= heads0.take(i as int).push(heads0[i as int]));
            i += 1;
        }
        assert(heads0.take(i as int) =~= heads0);
        assert(self.commits@.take(n0 as int) =~= commits0);
        while self.heads.len() > 1
            invariant
                self.wf(),
                self.id() == old(self).id(),
                self.heads@.len() >= 1,
                heads0.len() >= 1,
                n0 == commits0.len(),
                self.commits@.len() >= n0,
                self.commits@.take(n0 as int) == commits0,
                self.commits@.len() + self.heads@.len() == n0 + heads0.len(),
                self.commits@.len() == n0 ==> self.heads@ == heads0,
                saved@ == heads0,
                commits0 == old(self).commits@,
                heads0 == old(self).heads@,
                old(self).wf(),
                merge_all(chain@, old(self).links(), old(self).states(), old(self).heads())
                    == merge_all(chain@, self.links(), self.states(), self.heads@),
            decreases self.heads@.len(),
        {
            let ghost before = self.commits@;
            match self.merge_heads(chain) {
                Ok(_) => {
                    proof {
                        assert(self.commits@.take(n0 as int) =~= before.take(n0 as int)) by {
                            assert(self.commits@.take(before.len() as int) == before);
                        }
                    }
                },
                Err(e) => {
                    self.commits.truncate(n0);
                    self.heads = saved;
                    proof {
                        assert(self.commits@ =~= commits0);
                        assert(self.links() =~= old(self).links());
                        assert(self.states() =~= old(self).states());
                        assert(self.diffs() =~= old(self).diffs());
                    }
                    return Err(e);
                },
            }
        }
        let tip = self.heads[0];
        assert(self.heads@ =~= seq![tip]);
        Ok(tip)
    }
}

/// The commit that a working copy is pushed on: the one given, if the history
/// holds it, or the one head.
pub open spec fn pushed_on(heads: Seq<usize>, len: nat, parent: Option<usize>) -> Result<
    usize,
    PartitionError,
> {
    match parent {
        Some(p) => if p < len {
            Ok(p)
        } else {
            Err(PartitionError::MissingParent)
        },
        None => if heads.len() > 1 {
            Err(PartitionError::MergeRequired)
        } else {
            Ok(heads[0])
        },
    }
}

/// The heads that are left when a commit is made from `first` and, for a
/// merge, `second`: all others, in their order.
pub open spec fn without(heads: Seq<usize>, first: usize, second: Option<usize>) -> Seq<usize>
    decreases heads.len(),
{
    if heads.len() == 0 {
        Seq::empty()
    } else if heads.last() != first && Some(heads.last()) != second {
        without(heads.drop_last(), first, second).push(heads.last())
    } else {
        without(heads.drop_last(), first, second)
    }
}

/// What is left is what was there and is no parent, in the same order.
pub proof fn lemma_without(heads: Seq<usize>, first: usize, second: Option<usize>)
    ensures
        forall|h: usize|
            #![trigger without(heads, first, second).contains(h)]
            without(heads, first, second).contains(h) <==> heads.contains(h) && h != first && Some(
                h,
            ) != second,
        (forall|p: int, q: int| 0 <= p < q < heads.len() ==> heads[p] < heads[q]) ==> (forall|
            p: int,
            q: int,
        |
            0 <= p < q < without(heads, first, second).len() ==> without(heads, first, second)[p]
                < without(heads, first, second)[q]),
    decreases heads.len(),
{
    let w = without(heads, first, second);
    if heads.len() > 0 {
        let t = heads.drop_last();
        let wt = without(t, first, second);
        lemma_without(t, first, second);
        assert forall|h: usize|
            #![trigger w.contains(h)]
            w.contains(h) <==> heads.contains(h) && h != first && Some(h) != second by {
            if heads.contains(h) && h != first && Some(h) != second {
                let j = heads.index_of(h);
                if j < t.len() {
                    assert(t[j] == h);
                    assert(t.contains(h));
                    assert(wt.contains(h));
                    let p = wt.index_of(h);
                    assert(w[p] == h);
                } else {
                    assert(w[w.len() - 1] == h);
                }
            }
            if w.contains(h) {
                let p = w.index_of(h);
                if p < wt.len() {
                    assert(wt[p] == h);
                    assert(wt.contains(h));
                    assert(t.contains(h));
                    let j = t.index_of(h);
                    assert(heads[j] == h);
                } else {
                    assert(heads[heads.len() - 1] == h);
                }
            }
        }
        if forall|p: int, q: int| 0 <= p < q < heads.len() ==> heads[p] < heads[q] {
            assert forall|p: int, q: int| 0 <= p < q < t.len() implies t[p] < t[q] by {
                assert(heads[p] < heads[q]);
            }
            assert forall|p: int, q: int| 0 <= p < q < w.len() implies w[p] < w[q] by {
                if q < wt.len() {
                    assert(wt[p] < wt[q]);
                } else {
                    assert(wt[p] == w[p]);
                    assert(wt.contains(wt[p]));
                    assert(t.contains(wt[p]));
                    let j = t.index_of(wt[p]);
                    assert(heads[j] < heads[heads.len() - 1]);
                }
            }
        }
    }
}

/// Taking the first two of increasing heads out leaves the rest.
pub proof fn lemma_without_first_two(heads: Seq<usize>)
    requires
        heads.len() >= 2,
        forall|p: int, q: int| 0 <= p < q < heads.len() ==> heads[p] < heads[q],
    ensures
        without(heads, heads[0], Some(heads[1])) == heads.skip(2),
    decreases heads.len(),
{
    let a = heads[0];
    let b = heads[1];
    let t = heads.drop_last();
    if heads.len() == 2 {
        assert(t.drop_last() =~= Seq::<usize>::empty());
        assert(without(t.drop_last(), a, Some(b)) =~= Seq::<usize>::empty());
        assert(without(t, a, Some(b)) =~= Seq::<usize>::empty());
        assert(heads.skip(2) =~= Seq::<usize>::empty());
    } else {
        assert forall|p: int, q: int| 0 <= p < q < t.len() implies t[p] < t[q] by {
            assert(heads[p] < heads[q]);
        }
        lemma_without_first_two(t);
        assert(heads[0] < heads[heads.len() - 1]);
        assert(heads[1] < heads[heads.len() - 1]);
        assert(t.skip(2).push(heads.last()) =~= heads.skip(2));
    }
}

/// After a commit was appended, the heads are the former heads without its
/// parents, and the new commit.
pub proof fn lemma_heads_after(
    g: Seq<Seq<usize>>,
    heads: Seq<usize>,
    link: Seq<usize>,
    first: usize,
    second: Option<usize>,
    n: usize,
)
    requires
        links_wf(g),
        heads_of(heads, g),
        n == g.len(),
        first < g.len(),
        second matches Some(s) ==> s < g.len() && s != first,
        link == match second {
            Some(s) => seq![first, s],
            None => seq![first],
        },
    ensures
        links_wf(g.push(link)),
        heads_of(without(heads, first, second).push(n), g.push(link)),
{
    let g2 = g.push(link);
    let kept = without(heads, first, second);
    let heads2 = kept.push(n);
    lemma_without(heads, first, second);
    assert forall|i: int, k: int| 0 <= i < g2.len() && 0 <= k < g2[i].len() implies (
    #[trigger] g2[i][k]) < i by {
        if i < n {
            assert(g2[i] == g[i]);
            assert(g[i][k] < i);
        }
    }
    assert forall|i: int| 0 < i < g2.len() implies 1 <= (#[trigger] g2[i]).len() <= 2 by {
        if i < n {
            assert(g2[i] == g[i]);
        }
    }
    assert(g2[0] == g[0]);
    assert forall|p: int| 0 <= p < kept.len() implies (#[trigger] kept[p]) < n by {
        assert(kept.contains(kept[p]));
        assert(heads.contains(kept[p]));
        let j = heads.index_of(kept[p]);
        assert(heads[j] < g.len());
    }
    assert forall|p: int, q: int| 0 <= p < q < heads2.len() implies heads2[p] < heads2[q] by {
        if q < kept.len() {
            assert(kept[p] < kept[q]);
        } else {
            assert(kept[p] < n);
        }
    }
    assert forall|p: int| 0 <= p < heads2.len() implies (#[trigger] heads2[p]) < g2.len() by {
        if p < kept.len() {
            assert(kept[p] < n);
        }
    }
    assert forall|i: int| 0 <= i < g2.len() implies (heads2.contains(i as usize) <==> childless(
        g2,
        i,
    )) by {
        let iu = i as usize;
        if i == n {
            assert(heads2[kept.len() as int] == iu);
            assert forall|j: int, k: int| 0 <= j < g2.len() && 0 <= k < g2[j].len() implies (
            #[trigger] g2[j][k]) != i by {
                assert(g2[j][k] < j);
            }
        } else {
            let is_parent = iu == first || Some(iu) == second;
            if heads2.contains(iu) {
                let p = heads2.index_of(iu);
                assert(heads2[p] == iu);
                assert(p < kept.len());
                assert(kept[p] == iu);
                assert(kept.contains(iu));
                assert(heads.contains(iu));
                assert(childless(g, i));
                assert(!is_parent);
                assert forall|j: int, k: int| 0 <= j < g2.len() && 0 <= k < g2[j].len() implies (
                #[trigger] g2[j][k]) != i by {
                    if j < n {
                        assert(g2[j] == g[j]);
                        assert(g[j][k] != i);
                    }
                }
            }
            if childless(g2, i) {
                assert(g2[n as int] == link);
                assert(link[0] == first);
                assert(g2[n as int][0] != i);
                if second is Some {
                    assert(link[1] == second->Some_0);
                    assert(g2[n as int][1] != i);
                }
                assert(!is_parent);
                assert forall|j: int, k: int| 0 <= j < g.len() && 0 <= k < g[j].len() implies (
                #[trigger] g[j][k]) != i by {
                    assert(g2[j] == g[j]);
                    assert(g2[j][k] != i);
                }
                assert(childless(g, i));
                assert(heads.contains(iu));
                assert(kept.contains(iu));
                let p = kept.index_of(iu);
                assert(heads2[p] == iu);
            }
        }
    }
}

} // verus!
