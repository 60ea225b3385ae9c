//! The bookkeeping behind the classifier: which partitions exist, what range
//! each serves, and how a partition that has grown too large is divided.

use crate::idmap::{lemma_paired_at, lemma_paired_insert, paired, IdMap};
use crate::meta::{absorb_all, acceptable, decode, decoded, encode, encoded, MetaError, Record};
use crate::routing::{
    apart, classes_of, law_route_finds_range, route, tidy, Classifier, PartInfo,
};
use vstd::prelude::*;
use vstd::relations::{sorted_by, total_ordering};
use vstd::seq_lib::{lemma_sorted_unique, to_multiset_build, to_multiset_insert};

verus! {

/// The largest identifier a partition can have: identifiers are 40-bit numbers from 1 on.
pub const MAX_PART_ID: u64 = 0xff_ffff_ffff;

/// The most keys that are looked at to choose where to divide a partition.
pub const SAMPLE_SIZE: usize = 999;

/// Whether `id` can be the identifier of a partition.
pub open spec fn valid_id(id: u64) -> bool {
    1 <= id <= MAX_PART_ID
}

/// Whether every identifier that the table holds can be one.
pub open spec fn valid_table(table: Map<u64, PartInfo>) -> bool {
    forall|id: u64| #[trigger]
        table.dom().contains(id) ==> valid_id(id) && valid_id(table[id].max_id)
}

/// Why a partition was not divided.
#[derive(Clone, Copy, Debug, PartialEq, Eq, Structural)]
pub enum DivideError {
    /// The partition holds no element to choose a split point from, the split
    /// point would be key 0, or fewer than two identifiers are left in the
    /// partition's share of the identifiers.
    NotSubdivisible,
    /// The table knows nothing of the partition.
    MissingInfo,
    /// A version that would have to be raised is already the largest.
    VersionExhausted,
}

/// The order in which a sample is sorted.
pub open spec fn at_most() -> spec_fn(u32, u32) -> bool {
    |a: u32, b: u32| a <= b
}

/// The keys that are looked at: the first 999, or all if there are fewer.
pub open spec fn sample(keys: Seq<u32>) -> Seq<u32> {
    if keys.len() <= SAMPLE_SIZE {
        keys
    } else {
        keys.take(SAMPLE_SIZE as int)
    }
}

/// The split point: the middle one of the sampled keys in sorted order (the
/// upper one of the two middle ones where their number is even).
pub open spec fn median(keys: Seq<u32>) -> u32 {
    let sorted = sample(keys).sort_by(at_most());
    sorted[sample(keys).len() as int / 2]
}

/// What a division makes of the table.
pub struct Division {
    /// The new partition for the keys below the split point.
    pub first: u64,
    /// The new partition for the keys from the split point on.
    pub second: u64,
    /// The table afterwards.
    pub table: Map<u64, PartInfo>,
}

/// The version for a new entry under `id`: one above the stale entry's, if
/// there is one.
pub open spec fn next_version(table: Map<u64, PartInfo>, id: u64) -> int {
    if table.dom().contains(id) {
        table[id].ver + 1
    } else {
        0
    }
}

/// Dividing partition `part_id`, whose elements have the classification keys
/// `keys` (in the order in which the partition holds them).
///
/// The two new partitions get the identifiers `part_id + 1` and the one that
/// halves what is left of the old partition's share; the old partition keeps
/// none. The first serves the old range below the split point, the second the
/// rest. The old partition is retired: its range collapses to its lower bound.
/// All three entries get a version above what the table held for them.
pub open spec fn divided(table: Map<u64, PartInfo>, part_id: u64, keys: Seq<u32>) -> Result<
    Division,
    DivideError,
> {
    if keys.len() == 0 {
        Err(DivideError::NotSubdivisible)
    } else if !table.dom().contains(part_id) {
        Err(DivideError::MissingInfo)
    } else {
        let old = table[part_id];
        let split = median(keys);
        let first = (part_id + 1) as u64;
        let second = (first + (old.max_id - part_id) / 2) as u64;
        if old.max_id < part_id + 2 || split == 0 {
            Err(DivideError::NotSubdivisible)
        } else if next_version(table, first) > u32::MAX || next_version(table, second) > u32::MAX
            || old.ver == u32::MAX {
            Err(DivideError::VersionExhausted)
        } else {
            Ok(
                Division {
                    first,
                    second,
                    table: table.insert(
                        first,
                        PartInfo {
                            max_id: (second - 1) as u64,
                            ver: next_version(table, first) as u32,
                            min_len: old.min_len,
                            max_len: (split - 1) as u32,
                        },
                    ).insert(
                        second,
                        PartInfo {
                            max_id: old.max_id,
                            ver: next_version(table, second) as u32,
                            min_len: split,
                            max_len: old.max_len,
                        },
                    ).insert(
                        part_id,
                        PartInfo {
                            max_id: part_id,
                            ver: (old.ver + 1) as u32,
                            min_len: old.min_len,
                            max_len: old.min_len,
                        },
                    ),
                },
            )
        }
    }
}

/// The table that holds the first partition alone: identifier 1, every key,
/// every identifier in its share.
pub open spec fn first_table() -> Map<u64, PartInfo> {
    Map::<u64, PartInfo>::empty().insert(
        1,
        PartInfo { max_id: MAX_PART_ID, ver: 0, min_len: 0, max_len: u32::MAX },
    )
}

/// A division hands the old partition's share of the identifiers on: the first
/// new partition gets the identifier behind the old one and the lower half of
/// the share, the second the upper half, and the old partition keeps nothing
/// to hand out. So no identifier is given twice.
pub proof fn law_division_shares_identifiers(
    table: Map<u64, PartInfo>,
    part_id: u64,
    keys: Seq<u32>,
)
    requires
        divided(table, part_id, keys) is Ok,
    ensures
        ({
            let d = divided(table, part_id, keys)->Ok_0;
            let a = d.table[d.first];
            let b = d.table[d.second];
            &&& d.table.dom() == table.dom().insert(d.first).insert(d.second)
            &&& part_id < d.first <= a.max_id
            &&& a.max_id + 1 == d.second
            &&& d.second <= b.max_id == table[part_id].max_id
            &&& d.table[part_id].max_id == part_id
            &&& d.table[part_id].ver > table[part_id].ver
            &&& table.dom().contains(d.first) ==> a.ver > table[d.first].ver
            &&& table.dom().contains(d.second) ==> b.ver > table[d.second].ver
            &&& forall|id: u64|
                id != part_id && id != d.first && id != d.second && table.dom().contains(id)
                    ==> #[trigger] d.table[id] == table[id]
        }),
{
    let d = divided(table, part_id, keys)->Ok_0;
    assert(d.table.dom() =~= table.dom().insert(d.first).insert(d.second));
}

/// A division at a split point inside the old range, above its lower bound,
/// gives two ranges that together are the old range, have no key in common and
/// hold a key each; the old partition is retired.
pub proof fn law_division_splits_range(table: Map<u64, PartInfo>, part_id: u64, keys: Seq<u32>)
    requires
        divided(table, part_id, keys) is Ok,
        table[part_id].min_len < median(keys) <= table[part_id].max_len,
    ensures
        ({
            let d = divided(table, part_id, keys)->Ok_0;
            let old = table[part_id];
            let a = d.table[d.first];
            let b = d.table[d.second];
            &&& a.min_len == old.min_len
            &&& a.max_len == median(keys) - 1
            &&& b.min_len == median(keys)
            &&& b.max_len == old.max_len
            &&& forall|key: u64|
                #![trigger old.serves(key)]
                #![trigger a.serves(key)]
                #![trigger b.serves(key)]
                old.serves(key) <==> (a.serves(key) || b.serves(key))
            &&& forall|key: u64|
                #![trigger a.serves(key)]
                #![trigger b.serves(key)]
                !(a.serves(key) && b.serves(key))
            &&& a.serves(a.min_len as u64)
            &&& b.serves(b.min_len as u64)
            &&& !d.table[part_id].live()
        }),
{
}

/// After a division that leaves both new partitions more than one key, each
/// key of the old range is routed to the new partition on its side of the
/// split point, given that the live ranges did not overlap before.
pub proof fn law_division_routes(
    table: Map<u64, PartInfo>,
    part_id: u64,
    keys: Seq<u32>,
    classes: Seq<(u32, u64)>,
    key: u64,
)
    requires
        tidy(table),
        divided(table, part_id, keys) is Ok,
        table[part_id].min_len + 1 < median(keys) < table[part_id].max_len,
        classes_of(classes, divided(table, part_id, keys)->Ok_0.table),
        table[part_id].serves(key),
    ensures
        route(classes, key) == Some(
            if key < median(keys) {
                divided(table, part_id, keys)->Ok_0.first
            } else {
                divided(table, part_id, keys)->Ok_0.second
            },
        ),
{
    let d = divided(table, part_id, keys)->Ok_0;
    let after = d.table;
    assert forall|a: u64, b: u64|
        #![trigger after[a], after[b]]
        after.dom().contains(a) && after.dom().contains(b) && a != b && after[a].live()
            && after[b].live() implies apart(after[a], after[b]) by {
        let a_new = a == d.first || a == d.second;
        let b_new = b == d.first || b == d.second;
        if !a_new && !b_new {
            assert(apart(table[a], table[b]));
        } else if a_new && !b_new {
            assert(apart(table[part_id], table[b]));
        } else if !a_new && b_new {
            assert(apart(table[a], table[part_id]));
        }
    }
    law_route_finds_range(classes, after, key, if key < median(keys) { d.first } else { d.second });
}

/// In the table of a new repository every 32-bit key goes to the first partition.
pub proof fn law_first_partition_serves_all(classes: Seq<(u32, u64)>, key: u64)
    requires
        classes_of(classes, first_table()),
        key <= u32::MAX,
    ensures
        route(classes, key) == Some(1u64),
{
    law_route_finds_range(classes, first_table(), key, 1);
}

/// The table's entries as records, in the order of the identifiers.
pub open spec fn records_of(ids: Seq<u64>, infos: Seq<PartInfo>) -> Seq<Record> {
    Seq::new(ids.len(), |i: int| Record { id: ids[i], info: infos[i] })
}

/// Taken into an empty table, the records of a table give that table.
pub proof fn lemma_records_absorbed(ids: Seq<u64>, infos: Seq<PartInfo>, k: int)
    requires
        crate::idmap::increasing(ids),
        ids.len() == infos.len(),
        0 <= k <= ids.len(),
    ensures
        absorb_all(Map::empty(), records_of(ids, infos).take(k)) == paired(
            ids.take(k),
            infos.take(k),
        ),
    decreases k,
{
    let recs = records_of(ids, infos).take(k);
    if k == 0 {
        assert(paired(ids.take(0), infos.take(0)) =~= Map::<u64, PartInfo>::empty());
    } else {
        lemma_records_absorbed(ids, infos, k - 1);
        assert(recs.drop_last() =~= records_of(ids, infos).take(k - 1));
        let before = paired(ids.take(k - 1), infos.take(k - 1));
        assert(!before.dom().contains(ids[k - 1])) by {
            if ids.take(k - 1).contains(ids[k - 1]) {
                let j = ids.take(k - 1).index_of(ids[k - 1]);
                assert(ids[j] < ids[k - 1]);
            }
        }
        lemma_paired_insert(ids.take(k - 1), infos.take(k - 1), k - 1, ids[k - 1], infos[k - 1]);
        assert(ids.take(k - 1).insert(k - 1, ids[k - 1]) =~= ids.take(k));
        assert(infos.take(k - 1).insert(k - 1, infos[k - 1]) =~= infos.take(k));
    }
}

/// The sampled keys in sorted order.
fn sorted_sample(keys: &[u32]) -> (v: Vec<u32>)
    ensures
        v@ == sample(keys@).sort_by(at_most()),
        v@.len() == sample(keys@).len(),
{
    let n = if keys.len() <= SAMPLE_SIZE {
        keys.len()
    } else {
        SAMPLE_SIZE
    };
    let mut v: Vec<u32> = Vec::new();
    let mut i: usize = 0;
    assert(keys@.take(0) =~= v@);
    while i < n
        invariant
            i <= n <= keys@.len(),
            v@.len() == i,
            sorted_by(v@, at_most()),
            v@.to_multiset() == keys@.take(i as int).to_multiset(),
        decreases n - i,
    {
        let x = keys[i];
        let mut p: usize = v.len();
        while p > 0 && v[p - 1] > x
            invariant
                p <= v@.len(),
                forall|j: int| p <= j < v@.len() ==> v@[j] > x,
            decreases p,
        {
            p -= 1;
        }
        let ghost before = v@;
        v.insert(p, x);
        proof {
            let after = v@;
            assert forall|a: int, b: int| 0 <= a < b < after.len() implies #[trigger] at_most()(
                after[a],
                after[b],
            ) by {
                if b == p {
                    assert(at_most()(before[a], before[p - 1]) || a == p - 1);
                } else if a == p {
                } else {
                    let a0 = if a < p { a } else { a - 1 };
                    let b0 = if b < p { b } else { b - 1 };
                    assert(at_most()(before[a0], before[b0]));
                }
            }
            to_multiset_insert(before, p as int, x);
            assert(keys@.take(i + 1) =~= keys@.take(i as int).push(x));
            to_multiset_build(keys@.take(i as int), x);
        }
        i += 1;
    }
    proof {
        assert(keys@.take(n as int) =~= sample(keys@));
        assert(total_ordering(at_most()));
        sample(keys@).lemma_sort_by_ensures(at_most());
        lemma_sorted_unique(v@, sample(keys@).sort_by(at_most()), at_most());
    }
    v
}

/// The partitions of a repository and the classifier derived from them.
pub struct Driver {
    parts: IdMap<PartInfo>,
    csf: Classifier,
}

impl View for Driver {
    type V = Map<u64, PartInfo>;

    closed spec fn view(&self) -> Map<u64, PartInfo> {
        self.parts@
    }
}

impl Driver {
    /// The classifier's table.
    pub closed spec fn classes(&self) -> Seq<(u32, u64)> {
        self.csf@
    }

    /// The table is sound, and the classifier is the one that belongs to it.
    pub closed spec fn wf(&self) -> bool {
        &&& self.parts.wf()
        &&& self.csf.wf()
        &&& classes_of(self.csf@, self.parts@)
        &&& valid_table(self.parts@)
    }

    /// The table's entries as records, in the order of the identifiers.
    pub closed spec fn records(&self) -> Seq<Record> {
        records_of(self.parts.ids(), self.parts.values())
    }

    /// What a sound table guarantees to its users: the classifier belongs to
    /// it, its identifiers are identifiers, and its records are its entries,
    /// each once, so that reading them into an empty table gives it again.
    pub proof fn lemma_wf(&self)
        requires
            self.wf(),
        ensures
            classes_of(self.classes(), self@),
            valid_table(self@),
            self.records().len() == self@.dom().len(),
            forall|i: int|
                0 <= i < self.records().len() ==> {
                    &&& acceptable(#[trigger] self.records()[i])
                    &&& self@.dom().contains(self.records()[i].id)
                    &&& self@[self.records()[i].id] == self.records()[i].info
                },
            forall|i: int, j: int|
                0 <= i < j < self.records().len() ==> self.records()[i].id < self.records()[j].id,
            absorb_all(Map::empty(), self.records()) == self@,
    {
        let ids = self.parts.ids();
        let infos = self.parts.values();
        self.parts.lemma_len();
        assert forall|i: int| 0 <= i < self.records().len() implies {
            &&& acceptable(#[trigger] self.records()[i])
            &&& self@.dom().contains(self.records()[i].id)
            &&& self@[self.records()[i].id] == self.records()[i].info
        } by {
            lemma_paired_at(ids, infos, i);
        }
        lemma_records_absorbed(ids, infos, ids.len() as int);
        assert(self.records().take(ids.len() as int) =~= self.records());
        assert(ids.take(ids.len() as int) =~= ids);
        assert(infos.take(ids.len() as int) =~= infos);
    }

    /// A table without partitions.
    pub fn new() -> (d: Driver)
        ensures
            d.wf(),
            d@ == Map::<u64, PartInfo>::empty(),
    {
        let parts: IdMap<PartInfo> = IdMap::new();
        let csf = Classifier::build(&parts);
        Driver { parts, csf }
    }

    /// Sets up the first partition of a new repository and returns its
    /// identifier. It serves every key and may hand out every identifier.
    pub fn init_first(&mut self) -> (id: u64)
        requires
            old(self).wf(),
            old(self)@ == Map::<u64, PartInfo>::empty(),
        ensures
            final(self).wf(),
            final(self)@ == first_table(),
            id == 1,
    {
        self.parts.insert(
            1,
            PartInfo { max_id: MAX_PART_ID, ver: 0, min_len: 0, max_len: u32::MAX },
        );
        self.csf = Classifier::build(&self.parts);
        1
    }

    /// How many partitions the table knows, retired ones included.
    pub fn len(&self) -> (n: usize)
        requires
            self.wf(),
        ensures
            n == self@.dom().len(),
    {
        proof {
            self.parts.lemma_len();
        }
        self.parts.len()
    }

    /// What the table holds for partition `id`.
    pub fn get(&self, id: u64) -> (r: Option<PartInfo>)
        requires
            self.wf(),
        ensures
            r == if self@.dom().contains(id) {
                Some(self@[id])
            } else {
                None
            },
    {
        match self.parts.get(id) {
            Some(info) => Some(*info),
            None => None,
        }
    }

    /// The partition for an element with the classification key `key`.
    pub fn classify(&self, key: u64) -> (r: Option<u64>)
        requires
            self.wf(),
        ensures
            r == route(self.classes(), key),
    {
        self.csf.classify(key)
    }

    /// A snapshot of the classifier, which later changes to the table leave as it is.
    pub fn clone_classifier(&self) -> (c: Classifier)
        requires
            self.wf(),
        ensures
            c.wf(),
            c@ == self.classes(),
    {
        self.csf.snapshot()
    }

    /// The table's entries as records, in the order of the identifiers.
    pub fn to_records(&self) -> (recs: Vec<Record>)
        requires
            self.wf(),
        ensures
            recs@ == self.records(),
    {
        let n = self.parts.len();
        let mut recs: Vec<Record> = Vec::new();
        let mut i: usize = 0;
        while i < n
            invariant
                i <= n,
                n == self.parts.ids().len(),
                self.parts.wf(),
                recs@ == self.records().take(i as int),
            decreases n - i,
        {
            let r = Record { id: self.parts.id_at(i), info: *self.parts.value_at(i) };
            recs.push(r);
            assert(self.records().take(i + 1) =~= self.records().take(i as int).push(r));
            i += 1;
        }
        assert(self.records().take(n as int) =~= self.records());
        recs
    }

    /// Takes stored records into the table, in their order: a record of an
    /// unknown partition is entered, one of a known partition replaces the
    /// entry only if its version is strictly higher. Then the classifier is
    /// derived anew.
    pub fn absorb(&mut self, recs: &Vec<Record>)
        requires
            old(self).wf(),
            forall|i: int| 0 <= i < recs@.len() ==> acceptable(#[trigger] recs@[i]),
        ensures
            final(self).wf(),
            final(self)@ == absorb_all(old(self)@, recs@),
    {
        let ghost start = self.parts@;
        let mut i: usize = 0;
        assert(recs@.take(0) =~= Seq::<Record>::empty());
        while i < recs.len()
            invariant
                i <= recs@.len(),
                self.parts.wf(),
                valid_table(self.parts@),
                self.parts@ == absorb_all(start, recs@.take(i as int)),
                forall|i: int| 0 <= i < recs@.len() ==> acceptable(#[trigger] recs@[i]),
            decreases recs@.len() - i,
        {
            let r = recs[i];
            let newer = match self.parts.get(r.id) {
                Some(info) => r.info.ver > info.ver,
                None => true,
            };
            proof {
                let next = recs@.take(i + 1);
                assert(next.drop_last() =~= recs@.take(i as int));
                assert(next.last() == r);
                assert(acceptable(recs@[i as int]));
            }
            if newer {
                self.parts.insert(r.id, r.info);
            }
            i += 1;
        }
        assert(recs@.take(i as int) =~= recs@);
        self.csf = Classifier::build(&self.parts);
    }

    /// The stored form of the table under the format's `tag`, for a
    /// partition's file. There is none for more partitions than a 32-bit count
    /// can hold.
    pub fn write_buf(&self, tag: &[u8; 8]) -> (r: Option<Vec<u8>>)
        requires
            self.wf(),
        ensures
            match r {
                Some(out) => self@.dom().len() <= u32::MAX && out@ == encoded(
                    tag@,
                    self.records(),
                ),
                None => self@.dom().len() > u32::MAX,
            },
    {
        proof {
            self.lemma_wf();
        }
        let recs = self.to_records();
        encode(tag, &recs)
    }

    /// Takes the table stored in a partition's file into this one. A block
    /// that is refused leaves the table as it was.
    pub fn read_buf(&mut self, tag: &[u8; 8], buf: &[u8]) -> (r: Result<(), MetaError>)
        requires
            old(self).wf(),
        ensures
            final(self).wf(),
            match r {
                Ok(_) => decoded(tag@, buf@) matches Ok(recs) && final(self)@ == absorb_all(
                    old(self)@,
                    recs,
                ),
                Err(e) => decoded(tag@, buf@) == Err::<Seq<Record>, _>(e) && final(self)@ == old(self)@,
            },
    {
        match decode(tag, buf) {
            Ok(recs) => {
                self.absorb(&recs);
                Ok(())
            },
            Err(e) => Err(e),
        }
    }

    /// Divides partition `part_id` in two at the median of the classification
    /// keys of (up to 999 of) its elements. Returns the identifiers of the new
    /// partitions, and those of partitions made obsolete, of which there are
    /// none. On an error the table stays as it was.
    pub fn divide(&mut self, part_id: u64, keys: &[u32]) -> (r: Result<
        (Vec<u64>, Vec<u64>),
        DivideError,
    >)
        requires
            old(self).wf(),
        ensures
            final(self).wf(),
            match r {
                Ok(ids) => {
                    &&& divided(old(self)@, part_id, keys@) matches Ok(d)
                    &&& final(self)@ == d.table
                    &&& ids.0@ == seq![d.first, d.second]
                    &&& ids.1@ == Seq::<u64>::empty()
                },
                Err(e) => {
                    &&& divided(old(self)@, part_id, keys@) == Err::<Division, _>(e)
                    &&& final(self)@ == old(self)@
                },
            },
    {
        if keys.len() < 1 {
            return Err(DivideError::NotSubdivisible);
        }
        let sorted = sorted_sample(keys);
        let split = sorted[sorted.len() / 2];
        let old = match self.parts.get(part_id) {
            Some(info) => *info,
            None => {
                return Err(DivideError::MissingInfo);
            },
        };
        if old.max_id < part_id || old.max_id - part_id < 2 || split == 0 {
            return Err(DivideError::NotSubdivisible);
        }
        let first = part_id + 1;
        let second = first + (old.max_id - part_id) / 2;
        let ver1: u32 = match self.parts.get(first) {
            Some(info) => {
                if info.ver == u32::MAX {
                    return Err(DivideError::VersionExhausted);
                }
                info.ver + 1
            },
            None => 0,
        };
        let ver2: u32 = match self.parts.get(second) {
            Some(info) => {
                if info.ver == u32::MAX {
                    return Err(DivideError::VersionExhausted);
                }
                info.ver + 1
            },
            None => 0,
        };
        if old.ver == u32::MAX {
            return Err(DivideError::VersionExhausted);
        }
        self.parts.insert(
            first,
            PartInfo { max_id: second - 1, ver: ver1, min_len: old.min_len, max_len: split - 1 },
        );
        self.parts.insert(
            second,
            PartInfo { max_id: old.max_id, ver: ver2, min_len: split, max_len: old.max_len },
        );
        self.parts.insert(
            part_id,
            PartInfo { max_id: part_id, ver: old.ver + 1, min_len: old.min_len, max_len: old.min_len },
        );
        self.csf = Classifier::build(&self.parts);
        let mut made: Vec<u64> = Vec::new();
        made.push(first);
        made.push(second);
        Ok((made, Vec::new()))
    }
}

} // verus!
