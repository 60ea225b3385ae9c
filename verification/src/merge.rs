//! Reconciling two snapshots that were derived from a common ancestor.
//!
//! Each identifier is judged by itself. Where the two sides hold the same,
//! there is nothing to solve. Where they differ, the solvers of a chain are
//! asked in turn, and the first that has an answer decides.

use crate::idmap::{first_above, increasing, lemma_first_above_unique, IdMap};
use crate::state::{bytes_of, same_bytes, MutState, State};
use vstd::prelude::*;
use vstd::slice::slice_to_vec;

verus! {

/// A strategy for an identifier under which the two sides differ.
#[derive(Clone, Copy, Debug, PartialEq, Eq, Structural)]
pub enum Solver {
    /// Takes the side that changed the element, if the other left it as the
    /// common ancestor has it.
    Ancestor,
    /// Keeps both elements where both sides inserted one under an identifier
    /// that the ancestor did not use: the second side's element is given a
    /// fresh identifier.
    Renaming,
}

/// What is decided for one identifier.
#[derive(Clone, Copy, Debug, PartialEq, Eq, Structural)]
pub enum Verdict {
    /// Both sides hold the same.
    Same,
    /// What the first side holds stands.
    TakeA,
    /// What the second side holds stands.
    TakeB,
    /// Both elements stand, the second side's under a fresh identifier.
    Rename,
    /// No solver has an answer.
    Unresolved,
}

/// Why two snapshots were not merged.
#[derive(Clone, Copy, Debug, PartialEq, Eq, Structural)]
pub enum MergeError {
    /// No solver of the chain resolves the conflict under this identifier, the
    /// smallest with a conflict that is left.
    Conflict(u64),
    /// There are not enough unused identifiers for the elements to rename.
    NoFreeId,
}

/// What `m` holds under `id`, if anything.
pub open spec fn at(m: Map<u64, Seq<u8>>, id: u64) -> Option<Seq<u8>> {
    if m.dom().contains(id) {
        Some(m[id])
    } else {
        None
    }
}

/// The bytes of an element that may be missing.
pub open spec fn opt_bytes(o: Option<&Vec<u8>>) -> Option<Seq<u8>> {
    match o {
        Some(v) => Some(v@),
        None => None,
    }
}

/// One solver's answer for an identifier under which the ancestor holds `c`
/// and the sides hold `a` and `b`, which differ.
pub open spec fn solve(s: Solver, c: Option<Seq<u8>>, a: Option<Seq<u8>>, b: Option<Seq<u8>>)
    -> Verdict {
    match s {
        Solver::Ancestor => if a == c {
            Verdict::TakeB
        } else if b == c {
            Verdict::TakeA
        } else {
            Verdict::Unresolved
        },
        Solver::Renaming => if c is None && a is Some && b is Some {
            Verdict::Rename
        } else {
            Verdict::Unresolved
        },
    }
}

/// The chain's answer: that of its first solver that has one.
pub open spec fn chain_solve(
    chain: Seq<Solver>,
    c: Option<Seq<u8>>,
    a: Option<Seq<u8>>,
    b: Option<Seq<u8>>,
) -> Verdict
    decreases chain.len(),
{
    if chain.len() == 0 {
        Verdict::Unresolved
    } else if solve(chain[0], c, a, b) != Verdict::Unresolved {
        solve(chain[0], c, a, b)
    } else {
        chain_solve(chain.drop_first(), c, a, b)
    }
}

/// What is decided for `id`.
pub open spec fn verdict(
    chain: Seq<Solver>,
    c: Map<u64, Seq<u8>>,
    a: Map<u64, Seq<u8>>,
    b: Map<u64, Seq<u8>>,
    id: u64,
) -> Verdict {
    if at(a, id) == at(b, id) {
        Verdict::Same
    } else {
        chain_solve(chain, at(c, id), at(a, id), at(b, id))
    }
}

/// The elements that keep their identifier: under each identifier what the
/// verdict lets stand there.
pub open spec fn kept(
    chain: Seq<Solver>,
    c: Map<u64, Seq<u8>>,
    a: Map<u64, Seq<u8>>,
    b: Map<u64, Seq<u8>>,
) -> Map<u64, Seq<u8>> {
    Map::new(
        |id: u64|
            match verdict(chain, c, a, b, id) {
                Verdict::TakeB => b.dom().contains(id),
                Verdict::Unresolved => false,
                _ => a.dom().contains(id),
            },
        |id: u64|
            match verdict(chain, c, a, b, id) {
                Verdict::TakeB => b[id],
                _ => a[id],
            },
    )
}

/// Whether `olds` are the identifiers whose elements are renamed, in
/// increasing order.
pub open spec fn renamed_ids(
    olds: Seq<u64>,
    chain: Seq<Solver>,
    c: Map<u64, Seq<u8>>,
    a: Map<u64, Seq<u8>>,
    b: Map<u64, Seq<u8>>,
) -> bool {
    &&& increasing(olds)
    &&& forall|id: u64|
        olds.contains(id) <==> #[trigger] verdict(chain, c, a, b, id) == Verdict::Rename
}

/// `kept` with the second side's elements under `olds` added, the `k`-th of
/// them under `base + k`.
pub open spec fn with_renamed(
    kept: Map<u64, Seq<u8>>,
    b: Map<u64, Seq<u8>>,
    olds: Seq<u64>,
    base: int,
) -> Map<u64, Seq<u8>>
    decreases olds.len(),
{
    if olds.len() == 0 {
        kept
    } else {
        with_renamed(kept, b, olds.drop_last(), base).insert(
            (base + olds.len() - 1) as u64,
            b[olds.last()],
        )
    }
}

/// The identifiers that any of the three snapshots uses.
pub open spec fn used(c: Map<u64, Seq<u8>>, a: Map<u64, Seq<u8>>, b: Map<u64, Seq<u8>>) -> Set<
    u64,
> {
    c.dom().union(a.dom()).union(b.dom())
}

/// The old identifiers of a list of renamings.
pub open spec fn olds_of(renames: Seq<(u64, u64)>) -> Seq<u64> {
    Seq::new(renames.len(), |k: int| renames[k].0)
}

/// Whether the renamings give the `k`-th renamed element the `k`-th
/// identifier from the first unused one on.
pub open spec fn fresh_from_first_unused(renames: Seq<(u64, u64)>, used: Set<u64>) -> bool {
    &&& renames.len() > 0 ==> first_above(used, renames[0].1 as int)
    &&& forall|k: int| 0 <= k < renames.len() ==> (#[trigger] renames[k]).1 == renames[0].1 + k
}

/// Whether `m` is the merge of `a` and `b` over `c` with the renamings
/// `renames`: no conflict is left, the renamed elements are those that have to
/// be, under the first unused identifiers, and every other identifier holds
/// what the verdict lets stand.
pub open spec fn merged_as(
    chain: Seq<Solver>,
    c: Map<u64, Seq<u8>>,
    a: Map<u64, Seq<u8>>,
    b: Map<u64, Seq<u8>>,
    renames: Seq<(u64, u64)>,
    m: Map<u64, Seq<u8>>,
) -> bool {
    &&& forall|id: u64| #[trigger] verdict(chain, c, a, b, id) != Verdict::Unresolved
    &&& renamed_ids(olds_of(renames), chain, c, a, b)
    &&& fresh_from_first_unused(renames, used(c, a, b))
    &&& m == with_renamed(
        kept(chain, c, a, b),
        b,
        olds_of(renames),
        if renames.len() > 0 {
            renames[0].1 as int
        } else {
            0
        },
    )
}

/// Whether merging `a` and `b` over `c` fails with `e`: with the smallest
/// identifier under which a conflict is left, or, if there is none, for want
/// of unused identifiers for the elements to rename.
pub open spec fn merge_fails(
    chain: Seq<Solver>,
    c: Map<u64, Seq<u8>>,
    a: Map<u64, Seq<u8>>,
    b: Map<u64, Seq<u8>>,
    e: MergeError,
) -> bool {
    match e {
        MergeError::Conflict(id) => {
            &&& verdict(chain, c, a, b, id) == Verdict::Unresolved
            &&& forall|x: u64| #[trigger]
                verdict(chain, c, a, b, x) == Verdict::Unresolved ==> id <= x
        },
        MergeError::NoFreeId => {
            &&& forall|id: u64| #[trigger] verdict(chain, c, a, b, id) != Verdict::Unresolved
            &&& exists|olds: Seq<u64>, base: int|
                {
                    &&& #[trigger] renamed_ids(olds, chain, c, a, b)
                    &&& #[trigger] first_above(used(c, a, b), base)
                    &&& base + olds.len() > u64::MAX + 1
                }
        },
    }
}

/// Increasing sequences that hold the same identifiers are the same.
pub proof fn lemma_increasing_unique(x: Seq<u64>, y: Seq<u64>)
    requires
        increasing(x),
        increasing(y),
        forall|id: u64| x.contains(id) <==> y.contains(id),
    ensures
        x == y,
    decreases x.len(),
{
    if x.len() == 0 {
        if y.len() > 0 {
            assert(y.contains(y[0]));
        }
        assert(x =~= y);
    } else {
        assert(x.contains(x.last()));
        let j = y.index_of(x.last());
        assert(y.contains(y.last()));
        let i = x.index_of(y.last());
        assert(x[i] <= x[x.len() - 1]);
        assert(y[j] <= y[y.len() - 1]);
        let xs = x.drop_last();
        let ys = y.drop_last();
        assert forall|id: u64| xs.contains(id) <==> ys.contains(id) by {
            if xs.contains(id) {
                let k = xs.index_of(id);
                assert(x[k] == id);
                assert(x[k] < x[x.len() - 1]);
                assert(x.contains(id));
                let l = y.index_of(id);
                assert(ys[l] == id);
            }
            if ys.contains(id) {
                let k = ys.index_of(id);
                assert(y[k] == id);
                assert(y[k] < y[y.len() - 1]);
                assert(y.contains(id));
                let l = x.index_of(id);
                assert(xs[l] == id);
            }
        }
        lemma_increasing_unique(xs, ys);
        assert(x =~= xs.push(x.last()));
        assert(y =~= ys.push(y.last()));
    }
}

/// A merge has one outcome: the snapshots and the chain determine which
/// elements are renamed, the identifiers they get, and the merged state.
pub proof fn law_merge_is_determined(
    chain: Seq<Solver>,
    c: Map<u64, Seq<u8>>,
    a: Map<u64, Seq<u8>>,
    b: Map<u64, Seq<u8>>,
    r1: Seq<(u64, u64)>,
    m1: Map<u64, Seq<u8>>,
    r2: Seq<(u64, u64)>,
    m2: Map<u64, Seq<u8>>,
)
    requires
        merged_as(chain, c, a, b, r1, m1),
        merged_as(chain, c, a, b, r2, m2),
    ensures
        r1 == r2,
        m1 == m2,
{
    let o1 = olds_of(r1);
    let o2 = olds_of(r2);
    assert forall|id: u64| o1.contains(id) <==> o2.contains(id) by {
        assert(o1.contains(id) <==> verdict(chain, c, a, b, id) == Verdict::Rename);
        assert(o2.contains(id) <==> verdict(chain, c, a, b, id) == Verdict::Rename);
    }
    lemma_increasing_unique(o1, o2);
    assert(r1.len() == r2.len());
    if r1.len() > 0 {
        lemma_first_above_unique(used(c, a, b), r1[0].1 as int, r2[0].1 as int);
    }
    assert forall|k: int| 0 <= k < r1.len() implies r1[k] == r2[k] by {
        assert(o1[k] == r1[k].0);
        assert(o2[k] == r2[k].0);
        assert(r1[k].1 == r1[0].1 + k);
        assert(r2[k].1 == r2[0].1 + k);
    }
    assert(r1 =~= r2);
}

/// Whether `m` is the merge of `a` and `b` over `c`, whatever had to be renamed.
pub open spec fn is_merge(
    chain: Seq<Solver>,
    c: Map<u64, Seq<u8>>,
    a: Map<u64, Seq<u8>>,
    b: Map<u64, Seq<u8>>,
    m: Map<u64, Seq<u8>>,
) -> bool {
    exists|renames: Seq<(u64, u64)>| merged_as(chain, c, a, b, renames, m)
}

/// What merging `a` and `b` over `c` gives: the merged state, or why there is
/// none.
pub open spec fn merge_outcome(
    chain: Seq<Solver>,
    c: Map<u64, Seq<u8>>,
    a: Map<u64, Seq<u8>>,
    b: Map<u64, Seq<u8>>,
) -> Result<Map<u64, Seq<u8>>, MergeError> {
    if exists|e: MergeError| merge_fails(chain, c, a, b, e) {
        Err(choose|e: MergeError| merge_fails(chain, c, a, b, e))
    } else {
        Ok(choose|m: Map<u64, Seq<u8>>| is_merge(chain, c, a, b, m))
    }
}

/// A merge fails in one way at most, and not at all where there is a merged
/// state: so a merge that gave a state has that state as its outcome, and one
/// that failed has that failure.
pub proof fn law_merge_outcome(
    chain: Seq<Solver>,
    c: Map<u64, Seq<u8>>,
    a: Map<u64, Seq<u8>>,
    b: Map<u64, Seq<u8>>,
)
    ensures
        forall|renames: Seq<(u64, u64)>, m: Map<u64, Seq<u8>>| #[trigger]
            merged_as(chain, c, a, b, renames, m) ==> merge_outcome(chain, c, a, b) == Ok::<
                _,
                MergeError,
            >(m),
        forall|e: MergeError| #[trigger]
            merge_fails(chain, c, a, b, e) ==> merge_outcome(chain, c, a, b) == Err::<
                Map<u64, Seq<u8>>,
                _,
            >(e),
{
    assert forall|e1: MergeError, e2: MergeError|
        merge_fails(chain, c, a, b, e1) && merge_fails(chain, c, a, b, e2) implies e1 == e2 by {
        match (e1, e2) {
            (MergeError::Conflict(x), MergeError::Conflict(y)) => {
                assert(verdict(chain, c, a, b, x) == Verdict::Unresolved);
                assert(verdict(chain, c, a, b, y) == Verdict::Unresolved);
            },
            (MergeError::Conflict(x), MergeError::NoFreeId) => {
                assert(verdict(chain, c, a, b, x) == Verdict::Unresolved);
            },
            (MergeError::NoFreeId, MergeError::Conflict(y)) => {
                assert(verdict(chain, c, a, b, y) == Verdict::Unresolved);
            },
            _ => {},
        }
    }
    assert forall|renames: Seq<(u64, u64)>, m: Map<u64, Seq<u8>>, e: MergeError|
        merged_as(chain, c, a, b, renames, m) implies !merge_fails(chain, c, a, b, e) by {
        match e {
            MergeError::Conflict(x) => {
                assert(verdict(chain, c, a, b, x) != Verdict::Unresolved);
            },
            MergeError::NoFreeId => {
                if merge_fails(chain, c, a, b, e) {
                    let (olds, base) = choose|olds: Seq<u64>, base: int|
                        {
                            &&& #[trigger] renamed_ids(olds, chain, c, a, b)
                            &&& #[trigger] first_above(used(c, a, b), base)
                            &&& base + olds.len() > u64::MAX + 1
                        };
                    let mine = olds_of(renames);
                    assert forall|id: u64| mine.contains(id) <==> olds.contains(id) by {
                        assert(mine.contains(id) <==> verdict(chain, c, a, b, id)
                            == Verdict::Rename);
                        assert(olds.contains(id) <==> verdict(chain, c, a, b, id)
                            == Verdict::Rename);
                    }
                    lemma_increasing_unique(mine, olds);
                    if renames.len() > 0 {
                        lemma_first_above_unique(used(c, a, b), renames[0].1 as int, base);
                        let last = renames.len() - 1;
                        assert(renames[last].1 == renames[0].1 + last);
                    }
                }
            },
        }
    }
    assert forall|renames: Seq<(u64, u64)>, m: Map<u64, Seq<u8>>| #[trigger]
        merged_as(chain, c, a, b, renames, m) implies merge_outcome(chain, c, a, b) == Ok::<
        _,
        MergeError,
    >(m) by {
        assert(is_merge(chain, c, a, b, m));
        let chosen = choose|m: Map<u64, Seq<u8>>| is_merge(chain, c, a, b, m);
        let r = choose|r: Seq<(u64, u64)>| merged_as(chain, c, a, b, r, chosen);
        law_merge_is_determined(chain, c, a, b, renames, m, r, chosen);
    }
}

/// Two equal snapshots merge without a question: every identifier is judged
/// the same on both sides, none is renamed, and what is kept is the snapshot.
pub proof fn law_merge_of_equals(chain: Seq<Solver>, c: Map<u64, Seq<u8>>, m: Map<u64, Seq<u8>>)
    ensures
        forall|id: u64| #[trigger] verdict(chain, c, m, m, id) == Verdict::Same,
        kept(chain, c, m, m) == m,
        renamed_ids(Seq::<u64>::empty(), chain, c, m, m),
        with_renamed(kept(chain, c, m, m), m, Seq::<u64>::empty(), 0) == m,
{
    assert(kept(chain, c, m, m) =~= m);
}

/// Where only one side changed an element, the ancestor-based solver takes
/// that side's; where both changed it differently, it has no answer.
pub proof fn law_ancestor_takes_the_changed_side(
    c: Option<Seq<u8>>,
    a: Option<Seq<u8>>,
    b: Option<Seq<u8>>,
)
    requires
        a != b,
    ensures
        a == c ==> solve(Solver::Ancestor, c, a, b) == Verdict::TakeB,
        b == c ==> solve(Solver::Ancestor, c, a, b) == Verdict::TakeA,
        a != c && b != c ==> solve(Solver::Ancestor, c, a, b) == Verdict::Unresolved,
{
}

/// A chain has an answer exactly where one of its solvers has one.
pub proof fn law_chain_fails_only_if_all_fail(
    chain: Seq<Solver>,
    c: Option<Seq<u8>>,
    a: Option<Seq<u8>>,
    b: Option<Seq<u8>>,
)
    ensures
        chain_solve(chain, c, a, b) == Verdict::Unresolved <==> forall|i: int|
            0 <= i < chain.len() ==> solve(#[trigger] chain[i], c, a, b) == Verdict::Unresolved,
    decreases chain.len(),
{
    if chain.len() > 0 {
        let rest = chain.drop_first();
        law_chain_fails_only_if_all_fail(rest, c, a, b);
        if solve(chain[0], c, a, b) == Verdict::Unresolved {
            if chain_solve(rest, c, a, b) == Verdict::Unresolved {
                assert forall|i: int| 0 <= i < chain.len() implies solve(
                    #[trigger] chain[i],
                    c,
                    a,
                    b,
                ) == Verdict::Unresolved by {
                    if i > 0 {
                        assert(chain[i] == rest[i - 1]);
                    }
                }
            } else {
                let i = choose|i: int|
                    0 <= i < rest.len() && solve(#[trigger] rest[i], c, a, b)
                        != Verdict::Unresolved;
                assert(chain[i + 1] == rest[i]);
            }
        }
    }
}

/// Whether two elements that may be missing are the same.
fn same_opt(x: Option<&Vec<u8>>, y: Option<&Vec<u8>>) -> (r: bool)
    ensures
        r == (opt_bytes(x) == opt_bytes(y)),
{
    match (x, y) {
        (Some(p), Some(q)) => same_bytes(p.as_slice(), q.as_slice()),
        (None, None) => true,
        _ => false,
    }
}

/// One solver's answer.
pub fn solve_one(s: Solver, c: Option<&Vec<u8>>, a: Option<&Vec<u8>>, b: Option<&Vec<u8>>) -> (v:
    Verdict)
    ensures
        v == solve(s, opt_bytes(c), opt_bytes(a), opt_bytes(b)),
{
    match s {
        Solver::Ancestor => {
            if same_opt(a, c) {
                Verdict::TakeB
            } else if same_opt(b, c) {
                Verdict::TakeA
            } else {
                Verdict::Unresolved
            }
        },
        Solver::Renaming => {
            if c.is_none() && a.is_some() && b.is_some() {
                Verdict::Rename
            } else {
                Verdict::Unresolved
            }
        },
    }
}

/// What is decided for an identifier under which the ancestor holds `c` and
/// the sides hold `a` and `b`.
pub fn judge(chain: &[Solver], c: Option<&Vec<u8>>, a: Option<&Vec<u8>>, b: Option<&Vec<u8>>) -> (v:
    Verdict)
    ensures
        v == if opt_bytes(a) == opt_bytes(b) {
            Verdict::Same
        } else {
            chain_solve(chain@, opt_bytes(c), opt_bytes(a), opt_bytes(b))
        },
{
    if same_opt(a, b) {
        return Verdict::Same;
    }
    let mut i: usize = 0;
    assert(chain@.skip(0) =~= chain@);
    while i < chain.len()
        invariant
            i <= chain@.len(),
            opt_bytes(a) != opt_bytes(b),
            chain_solve(chain@, opt_bytes(c), opt_bytes(a), opt_bytes(b)) == chain_solve(
                chain@.skip(i as int),
                opt_bytes(c),
                opt_bytes(a),
                opt_bytes(b),
            ),
        decreases chain@.len() - i,
    {
        let v = solve_one(chain[i], c, a, b);
        assert(chain@.skip(i as int)[0] == chain@[i as int]);
        assert(chain@.skip(i as int).drop_first() =~= chain@.skip(i + 1));
        match v {
            Verdict::Unresolved => {},
            _ => {
                return v;
            },
        }
        i += 1;
    }
    Verdict::Unresolved
}

/// A merged working copy, and which elements were renamed to make it.
pub struct Merged {
    /// The merged elements, as a working copy of the first side.
    pub state: MutState,
    /// For each renamed element of the second side, the identifier it had and
    /// the one it has now, in the order of the former.
    pub renames: Vec<(u64, u64)>,
}

/// The smaller of a conflict noted before, if any, and `id`.
fn note_conflict(noted: Option<u64>, id: u64) -> (r: Option<u64>)
    ensures
        r == Some(
            if noted is Some && noted->Some_0 < id {
                noted->Some_0
            } else {
                id
            },
        ),
{
    match noted {
        Some(x) => if x < id {
            Some(x)
        } else {
            Some(id)
        },
        None => Some(id),
    }
}

/// The larger of two bounds on identifiers in use, `None` standing for 2^64.
fn larger_bound(x: Option<u64>, y: Option<u64>) -> (r: Option<u64>)
    ensures
        r == match (x, y) {
            (Some(p), Some(q)) => Some(if p < q { q } else { p }),
            _ => None::<u64>,
        },
{
    match (x, y) {
        (Some(p), Some(q)) => Some(if p < q { q } else { p }),
        _ => None,
    }
}

/// Merges the snapshots `a` and `b`, which both descend from `ancestor`.
///
/// Under each identifier stands what the verdict lets stand. The elements of
/// `b` that are renamed get the first identifiers that none of the three
/// snapshots uses, in the order of their old ones. Nothing is merged if a
/// conflict is left unresolved or the identifiers run out.
pub fn merge(chain: &[Solver], ancestor: &State, a: &State, b: &State) -> (r: Result<
    Merged,
    MergeError,
>)
    requires
        ancestor.wf(),
        a.wf(),
        b.wf(),
    ensures
        match r {
            Ok(m) => {
                &&& m.state.wf()
                &&& m.state.parent() == a.sum()
                &&& merged_as(chain@, ancestor@, a@, b@, m.renames@, m.state@)
            },
            Err(e) => merge_fails(chain@, ancestor@, a@, b@, e),
        },
        merge_outcome(chain@, ancestor@, a@, b@) == match r {
            Ok(m) => Ok::<_, MergeError>(m.state@),
            Err(e) => Err(e),
        },
        a@ == b@ ==> r is Ok && r->Ok_0.state@ == a@ && r->Ok_0.renames@.len() == 0,
{
    let ghost cm = ancestor@;
    let ghost am = a@;
    let ghost bm = b@;
    let ghost keep = kept(chain@, cm, am, bm);

    let ghost aids = a.ids();
    let ghost bids = b.ids();
    proof {
        a.lemma_wf();
        b.lemma_wf();
        ancestor.lemma_wf();
    }
    let mut out: IdMap<Vec<u8>> = IdMap::new();
    let mut olds: Vec<u64> = Vec::new();
    let mut conflict: Option<u64> = None;
    let an = a.num_elements();
    let mut i: usize = 0;
    assert(bytes_of(out@) =~= Map::<u64, Seq<u8>>::empty());
    while i < an
        invariant
            i <= an,
            an == aids.len(),
            aids == a.ids(),
            increasing(aids),
            forall|id: u64| am.dom().contains(id) <==> aids.contains(id),
            cm == ancestor@,
            am == a@,
            bm == b@,
            keep == kept(chain@, cm, am, bm),
            ancestor.wf(),
            a.wf(),
            b.wf(),
            out.wf(),
            forall|id: u64|
                #![trigger out@.dom().contains(id)]
                out@.dom().contains(id) ==> keep.dom().contains(id) && out@[id]@ == keep[id],
            forall|k: int|
                0 <= k < i && keep.dom().contains(#[trigger] aids[k]) ==> out@.dom().contains(
                    aids[k],
                ),
            increasing(olds@),
            forall|k: int|
                0 <= k < olds@.len() ==> exists|j: int|
                    0 <= j < i && #[trigger] aids[j] == #[trigger] olds@[k],
            forall|k: int|
                0 <= k < olds@.len() ==> verdict(chain@, cm, am, bm, #[trigger] olds@[k])
                    == Verdict::Rename,
            forall|j: int|
                0 <= j < i && verdict(chain@, cm, am, bm, #[trigger] aids[j]) == Verdict::Rename
                    ==> olds@.contains(aids[j]),
            match conflict {
                Some(x) => verdict(chain@, cm, am, bm, x) == Verdict::Unresolved && forall|j: int|
                    0 <= j < i && verdict(chain@, cm, am, bm, #[trigger] aids[j])
                        == Verdict::Unresolved ==> x <= aids[j],
                None => forall|j: int|
                    0 <= j < i ==> verdict(chain@, cm, am, bm, #[trigger] aids[j])
                        != Verdict::Unresolved,
            },
        decreases an - i,
    {
        let id = a.id_at(i);
        let mine = a.elt_at(i);
        let theirs = b.get(id);
        let v = judge(chain, ancestor.get(id), Some(mine), theirs);
        assert(v == verdict(chain@, cm, am, bm, id));
        match v {
            Verdict::TakeB => {
                match theirs {
                    Some(elt) => {
                        out.insert(id, slice_to_vec(elt.as_slice()));
                    },
                    None => {},
                }
            },
            Verdict::Unresolved => {
                conflict = note_conflict(conflict, id);
            },
            Verdict::Rename => {
                out.insert(id, slice_to_vec(mine.as_slice()));
                let ghost was = olds@;
                olds.push(id);
                proof {
                    assert forall|p: int, q: int| 0 <= p < q < olds@.len() implies olds@[p]
                        < olds@[q] by {
                        if q == was.len() {
                            let j = choose|j: int| 0 <= j < i && aids[j] == was[p];
                            assert(aids[j] < aids[i as int]);
                        } else {
                            assert(was[p] < was[q]);
                        }
                    }
                    assert forall|k: int| 0 <= k < olds@.len() implies exists|j: int|
                        0 <= j < i + 1 && #[trigger] aids[j] == #[trigger] olds@[k] by {
                        if k == was.len() {
                            assert(aids[i as int] == olds@[k]);
                        } else {
                            let j = choose|j: int| 0 <= j < i && aids[j] == was[k];
                            assert(aids[j] == olds@[k]);
                        }
                    }
                    assert forall|j: int|
                        0 <= j < i + 1 && verdict(chain@, cm, am, bm, #[trigger] aids[j])
                            == Verdict::Rename implies olds@.contains(aids[j]) by {
                        if j == i {
                            assert(olds@[was.len() as int] == aids[j]);
                        } else {
                            let k = was.index_of(aids[j]);
                            assert(olds@[k] == aids[j]);
                        }
                    }
                }
            },
            _ => {
                out.insert(id, slice_to_vec(mine.as_slice()));
            },
        }
        proof {
            assert forall|k: int|
                0 <= k < olds@.len() implies exists|j: int|
                    0 <= j < i + 1 && #[trigger] aids[j] == #[trigger] olds@[k] by {
                if v != Verdict::Rename {
                    let j = choose|j: int| 0 <= j < i && aids[j] == olds@[k];
                    assert(aids[j] == olds@[k]);
                }
            }
        }
        i += 1;
    }
    let bn = b.num_elements();
    let mut j: usize = 0;
    while j < bn
        invariant
            j <= bn,
            bn == bids.len(),
            bids == b.ids(),
            an == aids.len(),
            aids == a.ids(),
            forall|id: u64| am.dom().contains(id) <==> aids.contains(id),
            cm == ancestor@,
            am == a@,
            bm == b@,
            keep == kept(chain@, cm, am, bm),
            ancestor.wf(),
            a.wf(),
            b.wf(),
            out.wf(),
            forall|id: u64|
                #![trigger out@.dom().contains(id)]
                out@.dom().contains(id) ==> keep.dom().contains(id) && out@[id]@ == keep[id],
            forall|k: int|
                0 <= k < an && keep.dom().contains(#[trigger] aids[k]) ==> out@.dom().contains(
                    aids[k],
                ),
            forall|k: int|
                0 <= k < j && keep.dom().contains(#[trigger] bids[k]) ==> out@.dom().contains(
                    bids[k],
                ),
            match conflict {
                Some(x) => verdict(chain@, cm, am, bm, x) == Verdict::Unresolved && (forall|k: int|
                    0 <= k < an && verdict(chain@, cm, am, bm, #[trigger] aids[k])
                        == Verdict::Unresolved ==> x <= aids[k]) && (forall|k: int|
                    0 <= k < j && verdict(chain@, cm, am, bm, #[trigger] bids[k])
                        == Verdict::Unresolved ==> x <= bids[k]),
                None => (forall|k: int|
                    0 <= k < an ==> verdict(chain@, cm, am, bm, #[trigger] aids[k])
                        != Verdict::Unresolved) && (forall|k: int|
                    0 <= k < j ==> verdict(chain@, cm, am, bm, #[trigger] bids[k])
                        != Verdict::Unresolved),
            },
        decreases bn - j,
    {
        let id = b.id_at(j);
        if !a.is_available(id) {
            let theirs = b.elt_at(j);
            let v = judge(chain, ancestor.get(id), None, Some(theirs));
            assert(v == verdict(chain@, cm, am, bm, id));
            match v {
                Verdict::TakeB => {
                    out.insert(id, slice_to_vec(theirs.as_slice()));
                },
                Verdict::Unresolved => {
                    conflict = note_conflict(conflict, id);
                },
                _ => {
                    proof {
                        law_chain_never_renames_the_missing(chain@, at(cm, id), at(bm, id));
                    }
                },
            }
        } else {
            proof {
                assert(am.dom().contains(id));
                assert(aids.contains(id));
                let k = aids.index_of(id);
                assert(aids[k] == id);
            }
        }
        j += 1;
    }
    proof {
        assert forall|id: u64| keep.dom().contains(id) implies out@.dom().contains(id) by {
            if am.dom().contains(id) {
                assert(aids.contains(id));
                let k = aids.index_of(id);
                assert(aids[k] == id);
            } else {
                assert(bm.dom().contains(id));
                assert(bids.contains(id));
                let k = bids.index_of(id);
                assert(bids[k] == id);
            }
        }
        assert(bytes_of(out@).dom() =~= keep.dom());
        assert forall|id: u64| bytes_of(out@).dom().contains(id) implies bytes_of(out@)[id]
            == keep[id] by {
            assert(out@.dom().contains(id));
        }
        assert(bytes_of(out@) =~= keep);
        assert forall|x: u64| #[trigger]
            verdict(chain@, cm, am, bm, x) == Verdict::Unresolved implies (conflict is Some
            && conflict->Some_0 <= x) by {
            if am.dom().contains(x) {
                assert(aids.contains(x));
                let k = aids.index_of(x);
                assert(aids[k] == x);
            } else if bm.dom().contains(x) {
                assert(bids.contains(x));
                let k = bids.index_of(x);
                assert(bids[k] == x);
            }
        }
        assert forall|id: u64|
            olds@.contains(id) <==> #[trigger] verdict(chain@, cm, am, bm, id)
                == Verdict::Rename by {
            if verdict(chain@, cm, am, bm, id) == Verdict::Rename {
                law_chain_renames_what_both_hold(chain@, at(cm, id), at(am, id), at(bm, id));
                assert(am.dom().contains(id));
                assert(aids.contains(id));
                let k = aids.index_of(id);
                assert(aids[k] == id);
            }
            if olds@.contains(id) {
                let k = olds@.index_of(id);
                assert(olds@[k] == id);
            }
        }
        if am == bm {
            law_merge_of_equals(chain@, cm, am);
            if olds@.len() > 0 {
                assert(olds@.contains(olds@[0]));
            }
        }
    }
    match conflict {
        Some(id) => {
            proof {
                assert(merge_fails(chain@, cm, am, bm, MergeError::Conflict(id)));
                law_merge_outcome(chain@, cm, am, bm);
            }
            return Err(MergeError::Conflict(id));
        },
        None => {},
    }
    let bound = larger_bound(larger_bound(ancestor.next_free(), a.next_free()), b.next_free());
    let ghost all = used(cm, am, bm);
    let ghost base: int = match bound {
        Some(x) => x as int,
        None => u64::MAX + 1,
    };
    assert(first_above(all, base));
    let mut renames: Vec<(u64, u64)> = Vec::new();
    let rn = olds.len();
    let mut k: usize = 0;
    assert(olds@.take(0) =~= Seq::<u64>::empty());
    assert(olds_of(renames@) =~= olds@.take(0));
    while k < rn
        invariant
            k <= rn,
            rn == olds@.len(),
            bm == b@,
            b.wf(),
            out.wf(),
            first_above(all, base),
            all == used(cm, am, bm),
            cm == ancestor@,
            am == a@,
            keep == kept(chain@, cm, am, bm),
            forall|id: u64| #[trigger] verdict(chain@, cm, am, bm, id) != Verdict::Unresolved,
            am == bm ==> rn == 0,
            base == match bound {
                Some(x) => x as int,
                None => u64::MAX + 1,
            },
            renamed_ids(olds@, chain@, cm, am, bm),
            olds_of(renames@) == olds@.take(k as int),
            renames@.len() == k,
            forall|q: int| 0 <= q < k ==> (#[trigger] renames@[q]).1 == base + q,
            bytes_of(out@) == with_renamed(keep, bm, olds@.take(k as int), base),
        decreases rn - k,
    {
        let old_id = olds[k];
        let fresh = match bound {
            Some(x) => if x as u128 + k as u128 <= u64::MAX as u128 {
                Some((x as u128 + k as u128) as u64)
            } else {
                None
            },
            None => None,
        };
        let new_id = match fresh {
            Some(x) => x,
            None => {
                assert(renamed_ids(olds@, chain@, cm, am, bm) && first_above(
                    used(cm, am, bm),
                    base,
                ) && base + olds@.len() > u64::MAX + 1);
                proof {
                    assert(merge_fails(chain@, cm, am, bm, MergeError::NoFreeId));
                    law_merge_outcome(chain@, cm, am, bm);
                }
                return Err(MergeError::NoFreeId);
            },
        };
        proof {
            assert(olds@.contains(old_id));
            assert(verdict(chain@, cm, am, bm, old_id) == Verdict::Rename);
            law_chain_renames_what_both_hold(
                chain@,
                at(cm, old_id),
                at(am, old_id),
                at(bm, old_id),
            );
        }
        let elt = slice_to_vec(b.get(old_id).unwrap().as_slice());
        let ghost before = out@;
        out.insert(new_id, elt);
        renames.push((old_id, new_id));
        proof {
            let next = olds@.take(k + 1);
            assert(next.drop_last() =~= olds@.take(k as int));
            assert(next.last() == old_id);
            assert(bytes_of(before.insert(new_id, elt)) =~= bytes_of(before).insert(new_id, elt@));
            assert(olds_of(renames@) =~= next);
        }
        k += 1;
    }
    proof {
        assert(olds@.take(rn as int) =~= olds@);
        if renames@.len() > 0 {
            assert(renames@[0].1 == base + 0);
        }
        assert forall|q: int| 0 <= q < renames@.len() implies (#[trigger] renames@[q]).1
            == renames@[0].1 + q by {
            assert(renames@[0].1 == base + 0);
        }
        if renames@.len() == 0 {
            assert(with_renamed(keep, bm, olds@, base) == with_renamed(keep, bm, olds@, 0));
        }
        assert(merged_as(chain@, cm, am, bm, renames@, bytes_of(out@)));
        law_merge_outcome(chain@, cm, am, bm);
    }
    Ok(Merged { state: a.derive(out), renames })
}

/// Only an element that both sides hold is renamed.
pub proof fn law_chain_renames_what_both_hold(
    chain: Seq<Solver>,
    c: Option<Seq<u8>>,
    a: Option<Seq<u8>>,
    b: Option<Seq<u8>>,
)
    requires
        chain_solve(chain, c, a, b) == Verdict::Rename,
    ensures
        c is None,
        a is Some,
        b is Some,
    decreases chain.len(),
{
    if chain.len() > 0 && solve(chain[0], c, a, b) == Verdict::Unresolved {
        law_chain_renames_what_both_hold(chain.drop_first(), c, a, b);
    }
}

/// Where the first side holds nothing, the chain takes a side or has no answer.
pub proof fn law_chain_never_renames_the_missing(
    chain: Seq<Solver>,
    c: Option<Seq<u8>>,
    b: Option<Seq<u8>>,
)
    ensures
        chain_solve(chain, c, None, b) != Verdict::Rename,
        chain_solve(chain, c, None, b) != Verdict::Same,
    decreases chain.len(),
{
    if chain.len() > 0 {
        law_chain_never_renames_the_missing(chain.drop_first(), c, b);
    }
}

} // verus!
