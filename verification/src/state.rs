//! The elements of a partition at a point of its history: immutable
//! snapshots, working copies, and the changes that lead from one snapshot to
//! the next.
//!
//! An element is an opaque string of bytes, as its codec wrote it, under an
//! identifier that stays with it through its changes.

use crate::detail::read::holds_at;
use crate::detail::sum::{checksum, sha256};
use crate::idmap::{increasing, is_next_id, lemma_paired_at, IdMap};
use crate::le::{le_u64, u64_bytes};
use vstd::prelude::*;
use vstd::seq_lib::seq_to_set_is_finite;
use vstd::set::fold::{is_fun_commutative, lemma_fold_empty, lemma_fold_insert};
use vstd::slice::slice_to_vec;

verus! {

/// The sum of a state without elements: thirty-two zero bytes.
pub open spec fn zero_sum() -> Seq<u8> {
    Seq::new(32, |i: int| 0u8)
}

/// Two sums combined: byte by byte, exclusive or.
pub open spec fn xor(a: Seq<u8>, b: Seq<u8>) -> Seq<u8> {
    Seq::new(32, |i: int| a[i] ^ b[i])
}

/// The sum of one element: the digest of its identifier, least significant
/// byte first, and its bytes.
pub open spec fn elt_sum(id: u64, data: Seq<u8>) -> Seq<u8> {
    sha256(le_u64(id) + data)
}

/// Adding the element under `id` to a sum.
pub open spec fn add_elt(m: Map<u64, Seq<u8>>) -> spec_fn(Seq<u8>, u64) -> Seq<u8> {
    |acc: Seq<u8>, id: u64| xor(acc, elt_sum(id, m[id]))
}

/// The state sum: the sums of all elements combined. It is a function of the
/// mapping alone, whatever order the elements are visited in.
pub open spec fn state_sum(m: Map<u64, Seq<u8>>) -> Seq<u8> {
    m.dom().fold(zero_sum(), add_elt(m))
}

/// The bytes of each element of a map of byte vectors.
pub open spec fn bytes_of(m: Map<u64, Vec<u8>>) -> Map<u64, Seq<u8>> {
    m.map_values(|v: Vec<u8>| v@)
}

/// A change to one identifier, as plain bytes: the element that now stands
/// under it, or none where the element was deleted.
pub open spec fn change_of(c: Option<Vec<u8>>) -> Option<Seq<u8>> {
    match c {
        Some(v) => Some(v@),
        None => None,
    }
}

/// The changes of a map of changes, as plain bytes.
pub open spec fn changes_of(m: Map<u64, Option<Vec<u8>>>) -> Map<u64, Option<Seq<u8>>> {
    m.map_values(|c: Option<Vec<u8>>| change_of(c))
}

/// The changes that lead from `a` to `b`: one for each identifier under which
/// the two do not hold the same, with the element that `b` holds there.
pub open spec fn diff_between(a: Map<u64, Seq<u8>>, b: Map<u64, Seq<u8>>) -> Map<
    u64,
    Option<Seq<u8>>,
> {
    Map::new(
        |id: u64|
            (a.dom().contains(id) || b.dom().contains(id)) && !(a.dom().contains(id)
                && b.dom().contains(id) && a[id] == b[id]),
        |id: u64|
            if b.dom().contains(id) {
                Some(b[id])
            } else {
                None
            },
    )
}

/// The state that the changes `d` make of `a`.
pub open spec fn apply(a: Map<u64, Seq<u8>>, d: Map<u64, Option<Seq<u8>>>) -> Map<u64, Seq<u8>> {
    Map::new(
        |id: u64|
            if d.dom().contains(id) {
                d[id] is Some
            } else {
                a.dom().contains(id)
            },
        |id: u64|
            if d.dom().contains(id) {
                d[id]->Some_0
            } else {
                a[id]
            },
    )
}

/// Whether `id` is one of the first `i` of `ids`.
pub open spec fn among(ids: Seq<u64>, i: int, id: u64) -> bool {
    exists|k: int| 0 <= k < i && #[trigger] ids[k] == id
}

/// The order in which sums are combined does not matter.
pub proof fn lemma_xor_commutes(acc: Seq<u8>, x: Seq<u8>, y: Seq<u8>)
    ensures
        xor(xor(acc, x), y) == xor(xor(acc, y), x),
{
    assert forall|i: int| 0 <= i < 32 implies xor(xor(acc, x), y)[i] == xor(xor(acc, y), x)[i] by {
        let a = acc[i];
        let b = x[i];
        let c = y[i];
        assert((a ^ b) ^ c == (a ^ c) ^ b) by (bit_vector);
    }
    assert(xor(xor(acc, x), y) =~= xor(xor(acc, y), x));
}

/// Elements can be added to a sum in any order.
pub proof fn lemma_add_elt_commutes(m: Map<u64, Seq<u8>>)
    ensures
        is_fun_commutative(add_elt(m)),
{
    assert forall|a1: u64, a2: u64, b: Seq<u8>| #[trigger]
        add_elt(m)(add_elt(m)(b, a2), a1) == add_elt(m)(add_elt(m)(b, a1), a2) by {
        lemma_xor_commutes(b, elt_sum(a2, m[a2]), elt_sum(a1, m[a1]));
    }
}

/// Replaying the changes between two states on the first gives the second:
/// the same mapping, and with it the same state sum.
pub proof fn law_replay_restores(a: Map<u64, Seq<u8>>, b: Map<u64, Seq<u8>>)
    ensures
        apply(a, diff_between(a, b)) == b,
        state_sum(apply(a, diff_between(a, b))) == state_sum(b),
{
    assert(apply(a, diff_between(a, b)) =~= b);
}

/// A state that did not change has no changes to record, and replaying none
/// leaves a state as it is.
pub proof fn law_no_change_no_diff(a: Map<u64, Seq<u8>>)
    ensures
        diff_between(a, a) == Map::<u64, Option<Seq<u8>>>::empty(),
        apply(a, Map::<u64, Option<Seq<u8>>>::empty()) == a,
{
    assert(diff_between(a, a) =~= Map::<u64, Option<Seq<u8>>>::empty());
    assert(apply(a, Map::<u64, Option<Seq<u8>>>::empty()) =~= a);
}

/// Whether two byte strings are the same.
pub fn same_bytes(a: &[u8], b: &[u8]) -> (r: bool)
    ensures
        r == (a@ == b@),
{
    if a.len() != b.len() {
        return false;
    }
    assert(a@.subrange(0, b@.len() as int) =~= a@);
    holds_at(a, 0, b)
}

/// Combines `x` into the sum `acc`.
fn xor_into(acc: &mut Vec<u8>, x: &Vec<u8>)
    requires
        old(acc)@.len() == 32,
        x@.len() == 32,
    ensures
        final(acc)@ == xor(old(acc)@, x@),
{
    let ghost start = acc@;
    let mut i: usize = 0;
    while i < 32
        invariant
            i <= 32,
            acc@.len() == 32,
            x@.len() == 32,
            start.len() == 32,
            forall|j: int| 0 <= j < i ==> acc@[j] == start[j] ^ x@[j],
            forall|j: int| i <= j < 32 ==> acc@[j] == start[j],
        decreases 32 - i,
    {
        let v = acc[i] ^ x[i];
        acc[i] = v;
        i += 1;
    }
    assert(acc@ =~= xor(start, x@));
}

/// The sum of the elements of `elts`.
fn sum_elts(elts: &IdMap<Vec<u8>>) -> (sum: Vec<u8>)
    requires
        elts.wf(),
    ensures
        sum@ == state_sum(bytes_of(elts@)),
        sum@.len() == 32,
{
    let ghost m = bytes_of(elts@);
    let ghost ids = elts.ids();
    let mut sum: Vec<u8> = Vec::new();
    let mut z: usize = 0;
    while z < 32
        invariant
            z <= 32,
            sum@.len() == z,
            forall|j: int| 0 <= j < z ==> sum@[j] == 0u8,
        decreases 32 - z,
    {
        sum.push(0u8);
        z += 1;
    }
    proof {
        assert(sum@ =~= zero_sum());
        lemma_fold_empty::<u64, Seq<u8>>(zero_sum(), add_elt(m));
        assert(ids.take(0).to_set() =~= Set::<u64>::empty());
        lemma_add_elt_commutes(m);
    }
    let n = elts.len();
    let mut i: usize = 0;
    while i < n
        invariant
            i <= n,
            n == elts.ids().len(),
            elts.wf(),
            ids == elts.ids(),
            m == bytes_of(elts@),
            is_fun_commutative(add_elt(m)),
            sum@.len() == 32,
            sum@ == ids.take(i as int).to_set().fold(zero_sum(), add_elt(m)),
        decreases n - i,
    {
        let id = elts.id_at(i);
        let data = elts.value_at(i);
        let mut buf = u64_bytes(id);
        buf.extend_from_slice(data.as_slice());
        let one = checksum(buf.as_slice());
        proof {
            let seen = ids.take(i as int).to_set();
            seq_to_set_is_finite(ids.take(i as int));
            assert(!seen.contains(id)) by {
                if ids.take(i as int).contains(id) {
                    let k = ids.take(i as int).index_of(id);
                    assert(ids[k] < ids[i as int]);
                }
            }
            lemma_fold_insert(seen, zero_sum(), add_elt(m), id);
            assert(ids.take(i + 1) =~= ids.take(i as int).push(id));
            assert(ids.take(i + 1).to_set() =~= seen.insert(id)) by {
                assert forall|x: u64| ids.take(i + 1).to_set().contains(x) <==> seen.insert(
                    id,
                ).contains(x) by {
                    if ids.take(i as int).contains(x) {
                        let k = ids.take(i as int).index_of(x);
                        assert(ids.take(i + 1)[k] == x);
                    }
                    if x == id {
                        assert(ids.take(i + 1)[i as int] == x);
                    }
                    if ids.take(i + 1).contains(x) && x != id {
                        let k = ids.take(i + 1).index_of(x);
                        assert(ids.take(i as int)[k] == x);
                    }
                }
            }
            assert(m[id] == data@);
            assert(buf@ =~= le_u64(id) + data@);
            assert(one@ == elt_sum(id, m[id]));
        }
        xor_into(&mut sum, &one);
        i += 1;
    }
    proof {
        assert(ids.take(n as int) =~= ids);
        assert(ids.to_set() =~= m.dom());
    }
    sum
}

/// A copy of the elements of `src`.
fn copy_elts(src: &IdMap<Vec<u8>>) -> (out: IdMap<Vec<u8>>)
    requires
        src.wf(),
    ensures
        out.wf(),
        bytes_of(out@) == bytes_of(src@),
{
    let mut out: IdMap<Vec<u8>> = IdMap::new();
    let n = src.len();
    let mut i: usize = 0;
    while i < n
        invariant
            i <= n,
            n == src.ids().len(),
            src.wf(),
            out.wf(),
            forall|id: u64|
                #![trigger out@.dom().contains(id)]
                out@.dom().contains(id) ==> src@.dom().contains(id) && out@[id]@ == src@[id]@,
            forall|k: int| 0 <= k < i ==> out@.dom().contains(#[trigger] src.ids()[k]),
        decreases n - i,
    {
        let id = src.id_at(i);
        let data = slice_to_vec(src.value_at(i).as_slice());
        assert(data@ == src@[id]@);
        out.insert(id, data);
        i += 1;
    }
    proof {
        assert forall|id: u64| src@.dom().contains(id) implies out@.dom().contains(id) by {
            let k = src.ids().index_of(id);
            assert(src.ids()[k] == id);
        }
        assert(bytes_of(out@).dom() =~= bytes_of(src@).dom());
        assert forall|id: u64| bytes_of(out@).dom().contains(id) implies bytes_of(out@)[id]
            == bytes_of(src@)[id] by {
            assert(out@.dom().contains(id));
        }
        assert(bytes_of(out@) =~= bytes_of(src@));
    }
    out
}

/// Why a change to a working copy was refused.
#[derive(Clone, Copy, Debug, PartialEq, Eq, Structural)]
pub enum ElementError {
    /// There is an element under the identifier already.
    Exists,
    /// There is no element under the identifier.
    NotFound,
    /// No identifier is left above those in use.
    Exhausted,
}

/// The elements of a partition at one point of its history, with their state
/// sum. A snapshot never changes.
pub struct State {
    elts: IdMap<Vec<u8>>,
    sum: Vec<u8>,
}

impl View for State {
    type V = Map<u64, Seq<u8>>;

    closed spec fn view(&self) -> Map<u64, Seq<u8>> {
        bytes_of(self.elts@)
    }
}

impl State {
    /// The identifiers of the elements, in increasing order.
    pub closed spec fn ids(&self) -> Seq<u64> {
        self.elts.ids()
    }

    /// The state sum that the snapshot carries.
    pub closed spec fn sum(&self) -> Seq<u8> {
        self.sum@
    }

    /// The snapshot is sound: its sum is the sum of its elements.
    pub closed spec fn wf(&self) -> bool {
        &&& self.elts.wf()
        &&& self.sum@ == state_sum(self@)
        &&& self.sum@.len() == 32
    }

    /// What a sound snapshot guarantees.
    pub proof fn lemma_wf(&self)
        requires
            self.wf(),
        ensures
            self.sum() == state_sum(self@),
            self.sum().len() == 32,
            increasing(self.ids()),
            self@.dom().finite(),
            self@.dom().len() == self.ids().len(),
            forall|id: u64| self@.dom().contains(id) <==> self.ids().contains(id),
    {
        self.elts.lemma_len();
        assert(self@.dom() =~= self.elts@.dom());
    }

    /// The snapshot of a partition that holds nothing.
    pub fn new() -> (s: State)
        ensures
            s.wf(),
            s@ == Map::<u64, Seq<u8>>::empty(),
            s.sum() == zero_sum(),
    {
        let elts: IdMap<Vec<u8>> = IdMap::new();
        let sum = sum_elts(&elts);
        proof {
            assert(bytes_of(elts@) =~= Map::<u64, Seq<u8>>::empty());
            lemma_fold_empty::<u64, Seq<u8>>(
                zero_sum(),
                add_elt(Map::<u64, Seq<u8>>::empty()),
            );
        }
        State { elts, sum }
    }

    /// The snapshot that holds `elts`.
    fn seal(elts: IdMap<Vec<u8>>) -> (s: State)
        requires
            elts.wf(),
        ensures
            s.wf(),
            s@ == bytes_of(elts@),
    {
        let sum = sum_elts(&elts);
        State { elts, sum }
    }

    /// The state sum: the fingerprint by which snapshots are told apart.
    pub fn statesum(&self) -> (sum: &Vec<u8>)
        requires
            self.wf(),
        ensures
            sum@ == state_sum(self@),
            sum@ == self.sum(),
            sum@.len() == 32,
    {
        &self.sum
    }

    /// How many elements the snapshot holds.
    pub fn num_elements(&self) -> (n: usize)
        requires
            self.wf(),
        ensures
            n == self@.dom().len(),
            n == self.ids().len(),
    {
        proof {
            self.lemma_wf();
        }
        self.elts.len()
    }

    /// Whether there is an element under `id`.
    pub fn is_available(&self, id: u64) -> (r: bool)
        requires
            self.wf(),
        ensures
            r == self@.dom().contains(id),
    {
        self.elts.contains(id)
    }

    /// The element under `id`.
    pub fn get(&self, id: u64) -> (r: Option<&Vec<u8>>)
        requires
            self.wf(),
        ensures
            match r {
                Some(elt) => self@.dom().contains(id) && elt@ == self@[id],
                None => !self@.dom().contains(id),
            },
    {
        self.elts.get(id)
    }

    /// The identifier of the `i`-th element, counted in the order of the identifiers.
    pub fn id_at(&self, i: usize) -> (id: u64)
        requires
            self.wf(),
            i < self.ids().len(),
        ensures
            id == self.ids()[i as int],
            self@.dom().contains(id),
    {
        self.elts.id_at(i)
    }

    /// The `i`-th element, counted in the order of the identifiers.
    pub fn elt_at(&self, i: usize) -> (elt: &Vec<u8>)
        requires
            self.wf(),
            i < self.ids().len(),
        ensures
            elt@ == self@[self.ids()[i as int]],
    {
        self.elts.value_at(i)
    }

    /// The first identifier above all that are in use, if there is one.
    pub fn next_free(&self) -> (r: Option<u64>)
        requires
            self.wf(),
        ensures
            match r {
                Some(id) => is_next_id(self@, id as int),
                None => is_next_id(self@, u64::MAX + 1),
            },
    {
        assert(bytes_of(self.elts@).dom() =~= self.elts@.dom());
        self.elts.next_free()
    }

    /// A working copy that holds `elts` and has this snapshot as its parent.
    pub fn derive(&self, elts: IdMap<Vec<u8>>) -> (m: MutState)
        requires
            self.wf(),
            elts.wf(),
        ensures
            m.wf(),
            m@ == bytes_of(elts@),
            m.parent() == self.sum(),
    {
        MutState { parent: slice_to_vec(self.sum.as_slice()), elts }
    }

    /// A working copy of the snapshot, which remembers it as its parent.
    pub fn mutable_copy(&self) -> (m: MutState)
        requires
            self.wf(),
        ensures
            m.wf(),
            m@ == self@,
            m.parent() == self.sum(),
    {
        MutState { parent: slice_to_vec(self.sum.as_slice()), elts: copy_elts(&self.elts) }
    }

    /// Whether the two snapshots carry the same state sum.
    pub fn same_sum(&self, other: &State) -> (r: bool)
        requires
            self.wf(),
            other.wf(),
        ensures
            r == (self.sum() == other.sum()),
            self@ == other@ ==> r,
    {
        same_bytes(self.sum.as_slice(), other.sum.as_slice())
    }
}

/// A working copy of a snapshot: elements can be inserted, replaced and
/// removed. Committing it gives the next snapshot.
pub struct MutState {
    parent: Vec<u8>,
    elts: IdMap<Vec<u8>>,
}

impl View for MutState {
    type V = Map<u64, Seq<u8>>;

    closed spec fn view(&self) -> Map<u64, Seq<u8>> {
        bytes_of(self.elts@)
    }
}

impl MutState {
    /// The state sum of the snapshot that the copy was made of.
    pub closed spec fn parent(&self) -> Seq<u8> {
        self.parent@
    }

    /// The working copy is sound.
    pub closed spec fn wf(&self) -> bool {
        self.elts.wf()
    }

    /// The state sum of the snapshot that the copy was made of.
    pub fn parent_sum(&self) -> (sum: &Vec<u8>)
        ensures
            sum@ == self.parent(),
    {
        &self.parent
    }

    /// How many elements the copy holds.
    pub fn num_elements(&self) -> (n: usize)
        requires
            self.wf(),
        ensures
            n == self@.dom().len(),
    {
        proof {
            self.elts.lemma_len();
            assert(self@.dom() =~= self.elts@.dom());
        }
        self.elts.len()
    }

    /// Whether there is an element under `id`.
    pub fn is_available(&self, id: u64) -> (r: bool)
        requires
            self.wf(),
        ensures
            r == self@.dom().contains(id),
    {
        self.elts.contains(id)
    }

    /// The element under `id`.
    pub fn get(&self, id: u64) -> (r: Option<&Vec<u8>>)
        requires
            self.wf(),
        ensures
            match r {
                Some(elt) => self@.dom().contains(id) && elt@ == self@[id],
                None => !self@.dom().contains(id),
            },
    {
        self.elts.get(id)
    }

    /// Inserts `elt` under a fresh identifier, the first above all that are in
    /// use, and returns the identifier.
    pub fn insert(&mut self, elt: Vec<u8>) -> (r: Result<u64, ElementError>)
        requires
            old(self).wf(),
        ensures
            final(self).wf(),
            final(self).parent() == old(self).parent(),
            match r {
                Ok(id) => {
                    &&& is_next_id(old(self)@, id as int)
                    &&& !old(self)@.dom().contains(id)
                    &&& final(self)@ == old(self)@.insert(id, elt@)
                },
                Err(e) => {
                    &&& e == ElementError::Exhausted
                    &&& is_next_id(old(self)@, u64::MAX + 1)
                    &&& final(self)@ == old(self)@
                },
            },
    {
        assert(bytes_of(self.elts@).dom() =~= self.elts@.dom());
        match self.elts.next_free() {
            Some(id) => {
                let ghost before = self.elts@;
                self.elts.insert(id, elt);
                assert(bytes_of(before.insert(id, elt)) =~= bytes_of(before).insert(id, elt@));
                Ok(id)
            },
            None => Err(ElementError::Exhausted),
        }
    }

    /// Inserts `elt` under `id`, which must be free.
    pub fn insert_with_id(&mut self, id: u64, elt: Vec<u8>) -> (r: Result<(), ElementError>)
        requires
            old(self).wf(),
        ensures
            final(self).wf(),
            final(self).parent() == old(self).parent(),
            match r {
                Ok(_) => !old(self)@.dom().contains(id) && final(self)@ == old(self)@.insert(
                    id,
                    elt@,
                ),
                Err(e) => e == ElementError::Exists && old(self)@.dom().contains(id) && final(self)@ == old(self)@,
            },
    {
        if self.elts.contains(id) {
            return Err(ElementError::Exists);
        }
        let ghost before = self.elts@;
        self.elts.insert(id, elt);
        assert(bytes_of(before.insert(id, elt)) =~= bytes_of(before).insert(id, elt@));
        Ok(())
    }

    /// Puts `elt` in place of the element under `id`.
    pub fn replace(&mut self, id: u64, elt: Vec<u8>) -> (r: Result<(), ElementError>)
        requires
            old(self).wf(),
        ensures
            final(self).wf(),
            final(self).parent() == old(self).parent(),
            match r {
                Ok(_) => old(self)@.dom().contains(id) && final(self)@ == old(self)@.insert(
                    id,
                    elt@,
                ),
                Err(e) => e == ElementError::NotFound && !old(self)@.dom().contains(id) && final(self)@ == old(self)@,
            },
    {
        if !self.elts.contains(id) {
            return Err(ElementError::NotFound);
        }
        let ghost before = self.elts@;
        self.elts.insert(id, elt);
        assert(bytes_of(before.insert(id, elt)) =~= bytes_of(before).insert(id, elt@));
        Ok(())
    }

    /// Removes the element under `id`.
    pub fn remove(&mut self, id: u64) -> (r: Result<(), ElementError>)
        requires
            old(self).wf(),
        ensures
            final(self).wf(),
            final(self).parent() == old(self).parent(),
            match r {
                Ok(_) => old(self)@.dom().contains(id) && final(self)@ == old(self)@.remove(id),
                Err(e) => e == ElementError::NotFound && !old(self)@.dom().contains(id) && final(self)@ == old(self)@,
            },
    {
        if !self.elts.contains(id) {
            return Err(ElementError::NotFound);
        }
        let ghost before = self.elts@;
        self.elts.remove(id);
        assert(bytes_of(before.remove(id)) =~= bytes_of(before).remove(id));
        Ok(())
    }
}

/// The changes that lead from one snapshot to the next: for each identifier
/// under which something changed, the element that stands there now, or none
/// where the element was deleted.
pub struct Diff {
    changes: IdMap<Option<Vec<u8>>>,
}

impl View for Diff {
    type V = Map<u64, Option<Seq<u8>>>;

    closed spec fn view(&self) -> Map<u64, Option<Seq<u8>>> {
        changes_of(self.changes@)
    }
}

impl Diff {
    /// The changes are sound.
    pub closed spec fn wf(&self) -> bool {
        self.changes.wf()
    }

    /// No change.
    pub fn new() -> (d: Diff)
        ensures
            d.wf(),
            d@ == Map::<u64, Option<Seq<u8>>>::empty(),
    {
        let changes: IdMap<Option<Vec<u8>>> = IdMap::new();
        assert(changes_of(changes@) =~= Map::<u64, Option<Seq<u8>>>::empty());
        Diff { changes }
    }

    /// Records that `elt` (or, for `None`, no element) now stands under `id`.
    pub fn record(&mut self, id: u64, elt: Option<Vec<u8>>)
        requires
            old(self).wf(),
        ensures
            final(self).wf(),
            final(self)@ == old(self)@.insert(id, change_of(elt)),
    {
        let ghost before = self.changes@;
        self.changes.insert(id, elt);
        assert(changes_of(before.insert(id, elt)) =~= changes_of(before).insert(
            id,
            change_of(elt),
        ));
    }

    /// A copy of the changes.
    pub fn duplicate(&self) -> (d: Diff)
        requires
            self.wf(),
        ensures
            d.wf(),
            d@ == self@,
    {
        let mut changes: IdMap<Option<Vec<u8>>> = IdMap::new();
        let n = self.changes.len();
        let mut i: usize = 0;
        while i < n
            invariant
                i <= n,
                n == self.changes.ids().len(),
                self.changes.wf(),
                changes.wf(),
                forall|id: u64|
                    #![trigger changes@.dom().contains(id)]
                    changes@.dom().contains(id) ==> self.changes@.dom().contains(id) && change_of(
                        changes@[id],
                    ) == change_of(self.changes@[id]),
                forall|k: int|
                    0 <= k < i ==> changes@.dom().contains(#[trigger] self.changes.ids()[k]),
            decreases n - i,
        {
            let id = self.changes.id_at(i);
            let copy = match self.changes.value_at(i) {
                Some(elt) => Some(slice_to_vec(elt.as_slice())),
                None => None,
            };
            assert(change_of(copy) == change_of(self.changes@[id]));
            changes.insert(id, copy);
            i += 1;
        }
        proof {
            assert forall|id: u64| self.changes@.dom().contains(id) implies changes@.dom().contains(
                id,
            ) by {
                let k = self.changes.ids().index_of(id);
                assert(self.changes.ids()[k] == id);
            }
            assert(changes_of(changes@).dom() =~= changes_of(self.changes@).dom());
            assert forall|id: u64| changes_of(changes@).dom().contains(id) implies changes_of(
                changes@,
            )[id] == changes_of(self.changes@)[id] by {
                assert(changes@.dom().contains(id));
            }
            assert(changes_of(changes@) =~= changes_of(self.changes@));
        }
        Diff { changes }
    }

    /// How many identifiers the changes touch.
    pub fn len(&self) -> (n: usize)
        requires
            self.wf(),
        ensures
            n == self@.dom().len(),
    {
        proof {
            self.changes.lemma_len();
            assert(self@.dom() =~= self.changes@.dom());
        }
        self.changes.len()
    }

    /// Whether something changed under `id`: `Some(Some(elt))` if `elt` now
    /// stands there, `Some(None)` if the element was deleted.
    pub fn get(&self, id: u64) -> (r: Option<Option<&Vec<u8>>>)
        requires
            self.wf(),
        ensures
            match r {
                Some(Some(elt)) => self@.dom().contains(id) && self@[id] == Some(elt@),
                Some(None) => self@.dom().contains(id) && self@[id].is_none(),
                None => !self@.dom().contains(id),
            },
    {
        match self.changes.get(id) {
            Some(Some(elt)) => Some(Some(elt)),
            Some(None) => Some(None),
            None => None,
        }
    }
}

/// Commits a working copy: gives the next snapshot, which holds what the copy
/// holds, and the changes that lead to it from `parent`.
pub fn commit(parent: &State, m: MutState) -> (r: (State, Diff))
    requires
        parent.wf(),
        m.wf(),
    ensures
        r.0.wf(),
        r.0@ == m@,
        r.1.wf(),
        r.1@ == diff_between(parent@, m@),
{
    let ghost target = diff_between(parent@, m@);
    let mut changes: IdMap<Option<Vec<u8>>> = IdMap::new();
    let n = m.elts.len();
    let mut i: usize = 0;
    while i < n
        invariant
            i <= n,
            n == m.elts.ids().len(),
            m.elts.wf(),
            parent.wf(),
            changes.wf(),
            target == diff_between(parent@, m@),
            forall|id: u64|
                #![trigger changes@.dom().contains(id)]
                changes@.dom().contains(id) ==> target.dom().contains(id) && change_of(
                    changes@[id],
                ) == target[id],
            forall|k: int|
                0 <= k < i && target.dom().contains(#[trigger] m.elts.ids()[k])
                    ==> changes@.dom().contains(m.elts.ids()[k]),
        decreases n - i,
    {
        let id = m.elts.id_at(i);
        let elt = m.elts.value_at(i);
        let changed = match parent.get(id) {
            Some(was) => !same_bytes(was.as_slice(), elt.as_slice()),
            None => true,
        };
        if changed {
            changes.insert(id, Some(slice_to_vec(elt.as_slice())));
        }
        i += 1;
    }
    let p = parent.elts.len();
    let mut j: usize = 0;
    while j < p
        invariant
            j <= p,
            p == parent.elts.ids().len(),
            n == m.elts.ids().len(),
            m.elts.wf(),
            parent.wf(),
            changes.wf(),
            target == diff_between(parent@, m@),
            forall|id: u64|
                #![trigger changes@.dom().contains(id)]
                changes@.dom().contains(id) ==> target.dom().contains(id) && change_of(
                    changes@[id],
                ) == target[id],
            forall|k: int|
                0 <= k < n && target.dom().contains(#[trigger] m.elts.ids()[k])
                    ==> changes@.dom().contains(m.elts.ids()[k]),
            forall|k: int|
                0 <= k < j && target.dom().contains(#[trigger] parent.elts.ids()[k])
                    ==> changes@.dom().contains(parent.elts.ids()[k]),
        decreases p - j,
    {
        let id = parent.elts.id_at(j);
        if !m.elts.contains(id) {
            changes.insert(id, None);
        }
        j += 1;
    }
    proof {
        assert forall|id: u64| target.dom().contains(id) implies changes@.dom().contains(id) by {
            if m.elts@.dom().contains(id) {
                let k = m.elts.ids().index_of(id);
                assert(m.elts.ids()[k] == id);
            } else {
                let k = parent.elts.ids().index_of(id);
                assert(parent.elts.ids()[k] == id);
            }
        }
        assert(changes_of(changes@).dom() =~= target.dom());
        assert forall|id: u64| changes_of(changes@).dom().contains(id) implies changes_of(
            changes@,
        )[id] == target[id] by {
            assert(changes@.dom().contains(id));
        }
        assert(changes_of(changes@) =~= target);
    }
    (State::seal(m.elts), Diff { changes })
}

/// Replays recorded changes on the snapshot they start from.
pub fn replay(parent: &State, diff: &Diff) -> (s: State)
    requires
        parent.wf(),
        diff.wf(),
    ensures
        s.wf(),
        s@ == apply(parent@, diff@),
{
    let ghost target = apply(parent@, diff@);
    let ghost ids = diff.changes.ids();
    let mut elts = copy_elts(&parent.elts);
    let n = diff.changes.len();
    let mut i: usize = 0;
    while i < n
        invariant
            i <= n,
            n == diff.changes.ids().len(),
            ids == diff.changes.ids(),
            diff.changes.wf(),
            elts.wf(),
            target == apply(parent@, diff@),
            forall|id: u64|
                among(ids, i as int, id) ==> (#[trigger] bytes_of(elts@).dom().contains(id)
                    == target.dom().contains(id)) && (target.dom().contains(id) ==> bytes_of(
                    elts@,
                )[id] == target[id]),
            forall|id: u64|
                !among(ids, i as int, id) ==> (#[trigger] bytes_of(elts@).dom().contains(id)
                    == parent@.dom().contains(id)) && (parent@.dom().contains(id) ==> bytes_of(
                    elts@,
                )[id] == parent@[id]),
        decreases n - i,
    {
        let id = diff.changes.id_at(i);
        let ghost before = elts@;
        proof {
            lemma_paired_at(diff.changes.ids(), diff.changes.values(), i as int);
        }
        match diff.changes.value_at(i) {
            Some(elt) => {
                let copy = slice_to_vec(elt.as_slice());
                elts.insert(id, copy);
                assert(bytes_of(before.insert(id, copy)) =~= bytes_of(before).insert(id, copy@));
            },
            None => {
                elts.remove(id);
                assert(bytes_of(before.remove(id)) =~= bytes_of(before).remove(id));
            },
        }
        proof {
            assert forall|x: u64| among(ids, i + 1, x) <==> (among(ids, i as int, x) || x == id) by {
                if x == id {
                    assert(ids[i as int] == x);
                }
            }
        }
        i += 1;
    }
    proof {
        assert forall|id: u64| among(ids, n as int, id) <==> diff@.dom().contains(id) by {
            if diff.changes@.dom().contains(id) {
                let k = ids.index_of(id);
                assert(ids[k] == id);
            }
        }
        assert(bytes_of(elts@) =~= target);
    }
    State::seal(elts)
}

} // verus!
