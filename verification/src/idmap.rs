//! A map from identifiers to values, kept in the order of the identifiers.

use vstd::prelude::*;

verus! {

/// Strictly increasing: each identifier once, smaller ones first.
pub open spec fn increasing(s: Seq<u64>) -> bool {
    forall|i: int, j: int| 0 <= i < j < s.len() ==> s[i] < s[j]
}

/// The map that holds `vals[i]` under `ids[i]`.
pub open spec fn paired<V>(ids: Seq<u64>, vals: Seq<V>) -> Map<u64, V> {
    Map::new(|k: u64| ids.contains(k), |k: u64| vals[ids.index_of(k)])
}

/// In an increasing sequence an identifier is found where it stands.
pub proof fn lemma_paired_at<V>(ids: Seq<u64>, vals: Seq<V>, i: int)
    requires
        increasing(ids),
        0 <= i < ids.len(),
    ensures
        ids.contains(ids[i]),
        ids.index_of(ids[i]) == i,
        paired(ids, vals).dom().contains(ids[i]),
        paired(ids, vals)[ids[i]] == vals[i],
{
    assert(ids.contains(ids[i]));
    let j = ids.index_of(ids[i]);
    assert(0 <= j < ids.len() && ids[j] == ids[i]);
    if j < i {
        assert(ids[j] < ids[i]);
    } else if i < j {
        assert(ids[i] < ids[j]);
    }
}

/// An identifier that stands nowhere in the sequence is no key of the map.
pub proof fn lemma_paired_absent<V>(ids: Seq<u64>, vals: Seq<V>, id: u64)
    requires
        forall|j: int| 0 <= j < ids.len() ==> ids[j] != id,
    ensures
        !ids.contains(id),
        !paired(ids, vals).dom().contains(id),
{
}

/// The map has one key for each place of an increasing sequence.
pub proof fn lemma_paired_len<V>(ids: Seq<u64>, vals: Seq<V>)
    requires
        increasing(ids),
    ensures
        paired(ids, vals).dom().finite(),
        paired(ids, vals).dom().len() == ids.len(),
    decreases ids.len(),
{
    let dom = paired(ids, vals).dom();
    if ids.len() == 0 {
        assert(dom =~= Set::<u64>::empty());
    } else {
        let rest = ids.drop_last();
        let vrest = vals.drop_last();
        lemma_paired_len(rest, vrest);
        let small = paired(rest, vrest).dom();
        assert forall|k: u64| dom.contains(k) <==> small.insert(ids.last()).contains(k) by {
            if ids.contains(k) {
                let j = ids.index_of(k);
                if j < rest.len() {
                    assert(rest[j] == k);
                }
            }
            if rest.contains(k) {
                let j = rest.index_of(k);
                assert(ids[j] == k);
            }
            if k == ids.last() {
                assert(ids[ids.len() - 1] == k);
            }
        }
        assert(dom =~= small.insert(ids.last()));
        assert(!small.contains(ids.last())) by {
            if rest.contains(ids.last()) {
                let j = rest.index_of(ids.last());
                assert(ids[j] < ids[ids.len() - 1]);
            }
        }
    }
}

/// Putting a new identifier at its place in the order adds it to the map.
pub proof fn lemma_paired_insert<V>(ids: Seq<u64>, vals: Seq<V>, i: int, id: u64, v: V)
    requires
        increasing(ids),
        ids.len() == vals.len(),
        0 <= i <= ids.len(),
        forall|j: int| 0 <= j < i ==> ids[j] < id,
        forall|j: int| i <= j < ids.len() ==> ids[j] > id,
    ensures
        increasing(ids.insert(i, id)),
        paired(ids.insert(i, id), vals.insert(i, v)) == paired(ids, vals).insert(id, v),
{
    let ids2 = ids.insert(i, id);
    let vals2 = vals.insert(i, v);
    assert forall|a: int, b: int| 0 <= a < b < ids2.len() implies ids2[a] < ids2[b] by {
        if a < i && b > i {
            assert(ids[a] < id);
            assert(ids[b - 1] > id);
        }
    }
    assert forall|k: u64| ids2.contains(k) <==> (ids.contains(k) || k == id) by {
        if ids.contains(k) {
            let j = ids.index_of(k);
            if j < i {
                assert(ids2[j] == k);
            } else {
                assert(ids2[j + 1] == k);
            }
        }
        if k == id {
            assert(ids2[i] == k);
        }
        if ids2.contains(k) && k != id {
            let j = ids2.index_of(k);
            if j < i {
                assert(ids[j] == k);
            } else {
                assert(ids[j - 1] == k);
            }
        }
    }
    assert forall|k: u64| ids2.contains(k) implies #[trigger] paired(ids2, vals2)[k] == paired(
        ids,
        vals,
    ).insert(id, v)[k] by {
        let j2 = ids2.index_of(k);
        lemma_paired_at(ids2, vals2, j2);
        if k == id {
            lemma_paired_at(ids2, vals2, i);
        } else {
            let j = ids.index_of(k);
            lemma_paired_at(ids, vals, j);
            if j < i {
                lemma_paired_at(ids2, vals2, j);
            } else {
                lemma_paired_at(ids2, vals2, j + 1);
            }
        }
    }
    assert(paired(ids2, vals2) =~= paired(ids, vals).insert(id, v));
}

/// Replacing the value at a place replaces it in the map.
pub proof fn lemma_paired_update<V>(ids: Seq<u64>, vals: Seq<V>, i: int, v: V)
    requires
        increasing(ids),
        ids.len() == vals.len(),
        0 <= i < ids.len(),
    ensures
        paired(ids, vals.update(i, v)) == paired(ids, vals).insert(ids[i], v),
{
    let vals2 = vals.update(i, v);
    lemma_paired_at(ids, vals, i);
    assert forall|k: u64| ids.contains(k) implies #[trigger] paired(ids, vals2)[k] == paired(
        ids,
        vals,
    ).insert(ids[i], v)[k] by {
        let j = ids.index_of(k);
        lemma_paired_at(ids, vals, j);
        lemma_paired_at(ids, vals2, j);
    }
    assert(paired(ids, vals2) =~= paired(ids, vals).insert(ids[i], v));
}

/// Taking a place out takes its identifier out of the map.
pub proof fn lemma_paired_remove<V>(ids: Seq<u64>, vals: Seq<V>, i: int)
    requires
        increasing(ids),
        ids.len() == vals.len(),
        0 <= i < ids.len(),
    ensures
        increasing(ids.remove(i)),
        paired(ids.remove(i), vals.remove(i)) == paired(ids, vals).remove(ids[i]),
{
    let ids2 = ids.remove(i);
    let vals2 = vals.remove(i);
    assert forall|a: int, b: int| 0 <= a < b < ids2.len() implies ids2[a] < ids2[b] by {
        let a1 = if a < i { a } else { a + 1 };
        let b1 = if b < i { b } else { b + 1 };
        assert(ids[a1] < ids[b1]);
    }
    assert forall|k: u64| ids2.contains(k) <==> (ids.contains(k) && k != ids[i]) by {
        if ids.contains(k) && k != ids[i] {
            let j = ids.index_of(k);
            if j < i {
                assert(ids2[j] == k);
            } else {
                assert(ids2[j - 1] == k);
            }
        }
        if ids2.contains(k) {
            let j = ids2.index_of(k);
            let j1 = if j < i { j } else { j + 1 };
            assert(ids[j1] == k);
            if j1 < i {
                assert(ids[j1] < ids[i]);
            } else {
                assert(ids[i] < ids[j1]);
            }
        }
    }
    assert forall|k: u64| ids2.contains(k) implies #[trigger] paired(ids2, vals2)[k] == paired(
        ids,
        vals,
    ).remove(ids[i])[k] by {
        let j2 = ids2.index_of(k);
        lemma_paired_at(ids2, vals2, j2);
        let j1 = if j2 < i { j2 } else { j2 + 1 };
        lemma_paired_at(ids, vals, j1);
    }
    assert(paired(ids2, vals2) =~= paired(ids, vals).remove(ids[i]));
}

/// Whether `n` is the number one above the largest identifier in `s` (0 for
/// the empty set): the first identifier that is free, with all that follow it.
pub open spec fn first_above(s: Set<u64>, n: int) -> bool {
    &&& 0 <= n <= u64::MAX + 1
    &&& forall|id: u64| s.contains(id) ==> id < n
    &&& n == 0 || s.contains((n - 1) as u64)
}

/// Whether `n` is the number one above the largest key of `m`.
pub open spec fn is_next_id<V>(m: Map<u64, V>, n: int) -> bool {
    first_above(m.dom(), n)
}

/// There is one such number at most.
pub proof fn lemma_first_above_unique(s: Set<u64>, a: int, b: int)
    requires
        first_above(s, a),
        first_above(s, b),
    ensures
        a == b,
{
    if a < b {
        assert(s.contains((b - 1) as u64));
    } else if b < a {
        assert(s.contains((a - 1) as u64));
    }
}

/// Where `id` stands among increasing identifiers (`Ok`), or where it would
/// have to be put (`Err`).
pub fn find_id(ids: &Vec<u64>, id: u64) -> (r: Result<usize, usize>)
    requires
        increasing(ids@),
    ensures
        match r {
            Ok(i) => i < ids@.len() && ids@[i as int] == id,
            Err(i) => {
                &&& i <= ids@.len()
                &&& !ids@.contains(id)
                &&& forall|j: int| 0 <= j < i ==> ids@[j] < id
                &&& forall|j: int| i <= j < ids@.len() ==> ids@[j] > id
            },
        },
{
    let mut lo: usize = 0;
    let mut hi: usize = ids.len();
    while lo < hi
        invariant
            lo <= hi <= ids@.len(),
            increasing(ids@),
            forall|j: int| 0 <= j < lo ==> ids@[j] < id,
            forall|j: int| hi <= j < ids@.len() ==> ids@[j] > id,
        decreases hi - lo,
    {
        let mid = lo + (hi - lo) / 2;
        let k = ids[mid];
        if k == id {
            return Ok(mid);
        }
        if k < id {
            assert forall|j: int| 0 <= j < mid + 1 implies ids@[j] < id by {
                if j < mid {
                    assert(ids@[j] < ids@[mid as int]);
                }
            }
            lo = mid + 1;
        } else {
            assert forall|j: int| mid <= j < ids@.len() implies ids@[j] > id by {
                if j > mid {
                    assert(ids@[mid as int] < ids@[j]);
                }
            }
            hi = mid;
        }
    }
    Err(lo)
}

/// Values under 64-bit identifiers, each identifier at most once. Walking the
/// places `0..len()` visits the identifiers in increasing order.
pub struct IdMap<V> {
    keys: Vec<u64>,
    vals: Vec<V>,
}

impl<V> View for IdMap<V> {
    type V = Map<u64, V>;

    open spec fn view(&self) -> Map<u64, V> {
        paired(self.ids(), self.values())
    }
}

impl<V> IdMap<V> {
    /// The identifiers, place by place.
    pub closed spec fn ids(&self) -> Seq<u64> {
        self.keys@
    }

    /// The values, place by place.
    pub closed spec fn values(&self) -> Seq<V> {
        self.vals@
    }

    /// The identifiers increase, and each has its value.
    pub open spec fn wf(&self) -> bool {
        &&& self.ids().len() == self.values().len()
        &&& increasing(self.ids())
    }

    /// A map that holds nothing.
    pub fn new() -> (m: Self)
        ensures
            m.wf(),
            m.ids() == Seq::<u64>::empty(),
            m@ == Map::<u64, V>::empty(),
    {
        let m = IdMap { keys: Vec::new(), vals: Vec::new() };
        assert(m@ =~= Map::<u64, V>::empty());
        m
    }

    /// The map holds as many keys as there are places.
    pub proof fn lemma_len(&self)
        requires
            self.wf(),
        ensures
            self@.dom().finite(),
            self@.dom().len() == self.ids().len(),
    {
        lemma_paired_len(self.ids(), self.values());
    }

    /// How many identifiers the map holds.
    pub fn len(&self) -> (n: usize)
        requires
            self.wf(),
        ensures
            n == self.ids().len(),
    {
        self.keys.len()
    }

    /// The identifier at place `i`.
    pub fn id_at(&self, i: usize) -> (id: u64)
        requires
            self.wf(),
            i < self.ids().len(),
        ensures
            id == self.ids()[i as int],
            self@.dom().contains(id),
    {
        proof {
            lemma_paired_at(self.ids(), self.values(), i as int);
        }
        self.keys[i]
    }

    /// The value at place `i`.
    pub fn value_at(&self, i: usize) -> (v: &V)
        requires
            self.wf(),
            i < self.ids().len(),
        ensures
            *v == self.values()[i as int],
            *v == self@[self.ids()[i as int]],
    {
        proof {
            lemma_paired_at(self.ids(), self.values(), i as int);
        }
        &self.vals[i]
    }

    /// Where `id` stands (`Ok`), or where it would have to be put (`Err`).
    pub fn search(&self, id: u64) -> (r: Result<usize, usize>)
        requires
            self.wf(),
        ensures
            match r {
                Ok(i) => i < self.ids().len() && self.ids()[i as int] == id && self@.dom().contains(
                    id,
                ),
                Err(i) => {
                    &&& i <= self.ids().len()
                    &&& !self@.dom().contains(id)
                    &&& forall|j: int| 0 <= j < i ==> self.ids()[j] < id
                    &&& forall|j: int| i <= j < self.ids().len() ==> self.ids()[j] > id
                },
            },
    {
        let r = find_id(&self.keys, id);
        proof {
            match r {
                Ok(i) => {
                    lemma_paired_at(self.ids(), self.values(), i as int);
                },
                Err(_) => {
                    lemma_paired_absent(self.ids(), self.values(), id);
                },
            }
        }
        r
    }

    /// The first identifier above all that the map holds, if there is one.
    pub fn next_free(&self) -> (r: Option<u64>)
        requires
            self.wf(),
        ensures
            match r {
                Some(id) => is_next_id(self@, id as int) && !self@.dom().contains(id),
                None => is_next_id(self@, u64::MAX + 1),
            },
    {
        let n = self.keys.len();
        if n == 0 {
            return Some(0);
        }
        let last = self.keys[n - 1];
        proof {
            lemma_paired_at(self.ids(), self.values(), n - 1);
            assert forall|id: u64| self@.dom().contains(id) implies id <= last by {
                let j = self.ids().index_of(id);
                if j < n - 1 {
                    assert(self.ids()[j] < self.ids()[n - 1]);
                }
            }
        }
        if last == u64::MAX {
            None
        } else {
            Some(last + 1)
        }
    }

    /// Whether the map holds `id`.
    pub fn contains(&self, id: u64) -> (r: bool)
        requires
            self.wf(),
        ensures
            r == self@.dom().contains(id),
    {
        self.search(id).is_ok()
    }

    /// The value under `id`, if there is one.
    pub fn get(&self, id: u64) -> (r: Option<&V>)
        requires
            self.wf(),
        ensures
            match r {
                Some(v) => self@.dom().contains(id) && *v == self@[id],
                None => !self@.dom().contains(id),
            },
    {
        match self.search(id) {
            Ok(i) => {
                proof {
                    lemma_paired_at(self.ids(), self.values(), i as int);
                }
                Some(&self.vals[i])
            },
            Err(_) => None,
        }
    }

    /// Puts `v` under `id`, in place of what was there.
    pub fn insert(&mut self, id: u64, v: V)
        requires
            old(self).wf(),
        ensures
            final(self).wf(),
            final(self)@ == old(self)@.insert(id, v),
    {
        match self.search(id) {
            Ok(i) => {
                proof {
                    lemma_paired_update(self.ids(), self.values(), i as int, v);
                }
                self.vals[i] = v;
            },
            Err(i) => {
                proof {
                    lemma_paired_insert(self.ids(), self.values(), i as int, id, v);
                }
                self.keys.insert(i, id);
                self.vals.insert(i, v);
            },
        }
    }

    /// Takes `id` and its value out, if the map holds it.
    pub fn remove(&mut self, id: u64)
        requires
            old(self).wf(),
        ensures
            final(self).wf(),
            final(self)@ == old(self)@.remove(id),
    {
        match self.search(id) {
            Ok(i) => {
                proof {
                    lemma_paired_remove(self.ids(), self.values(), i as int);
                }
                self.keys.remove(i);
                self.vals.remove(i);
            },
            Err(_) => {
                assert(self@ =~= self@.remove(id));
            },
        }
    }
}

} // verus!
