//! Routing elements to partitions: the bookkeeping kept for each partition,
//! the table of lower bounds derived from it, and the division of a partition
//! that has grown too large.

use crate::idmap::{lemma_paired_at, IdMap};
use vstd::prelude::*;

verus! {

/// What the routing keeps for one partition.
#[derive(Clone, Copy, Debug, PartialEq, Eq, Structural)]
pub struct PartInfo {
    /// The largest identifier that this partition may hand to partitions made from it.
    pub max_id: u64,
    /// Raised by every change to this entry; the higher version wins.
    pub ver: u32,
    /// The smallest key that the partition serves.
    pub min_len: u32,
    /// The largest key that the partition serves.
    pub max_len: u32,
}

impl PartInfo {
    /// Whether elements are still routed to the partition. A retired partition
    /// has its range collapsed: `max_len == min_len`.
    pub open spec fn live(self) -> bool {
        self.max_len > self.min_len
    }

    /// Whether `key` lies in the partition's range.
    pub open spec fn serves(self, key: u64) -> bool {
        self.min_len <= key <= self.max_len
    }
}

/// What to do with an element that no lower bound catches.
#[derive(Clone, Copy, Debug, PartialEq, Eq, Structural)]
pub enum Fallback {
    /// Refuse the element.
    Fail,
    /// Put it into this partition.
    Default(u64),
}

/// The order of the classifier's table: by lower bound, then by identifier.
pub open spec fn class_before(a: (u32, u64), b: (u32, u64)) -> bool {
    a.0 < b.0 || (a.0 == b.0 && a.1 < b.1)
}

/// Whether a table is in order, so that no entry stands twice.
pub open spec fn ordered(c: Seq<(u32, u64)>) -> bool {
    forall|i: int, j: int| 0 <= i < j < c.len() ==> #[trigger] class_before(c[i], c[j])
}

/// Where a key goes: to the last entry of the table whose lower bound is not
/// above it. In a table in order that is the entry with the largest such bound.
pub open spec fn route(c: Seq<(u32, u64)>, key: u64) -> Option<u64>
    decreases c.len(),
{
    if c.len() == 0 {
        None
    } else if c.last().0 <= key {
        Some(c.last().1)
    } else {
        route(c.drop_last(), key)
    }
}

/// Whether `c` is the classifier's table for `table`: in order, and holding
/// the lower bound and identifier of just the live partitions.
pub open spec fn classes_of(c: Seq<(u32, u64)>, table: Map<u64, PartInfo>) -> bool {
    &&& ordered(c)
    &&& forall|b: u32, id: u64| #[trigger]
        c.contains((b, id)) <==> table.dom().contains(id) && table[id].live() && table[id].min_len
            == b
}

/// What an element is finally assigned to, given the classifier's answer and
/// the policy for elements it has no answer for.
pub open spec fn assigned(classified: Option<u64>, fallback: Fallback) -> Option<u64> {
    match classified {
        Some(id) => Some(id),
        None => match fallback {
            Fallback::Fail => None,
            Fallback::Default(id) => Some(id),
        },
    }
}

/// Applies the fallback policy to the classifier's answer.
pub fn assign(classified: Option<u64>, fallback: Fallback) -> (r: Option<u64>)
    ensures
        r == assigned(classified, fallback),
{
    match classified {
        Some(id) => Some(id),
        None => match fallback {
            Fallback::Fail => None,
            Fallback::Default(id) => Some(id),
        },
    }
}

/// Between the entries with a bound up to `key` and those above it, the last
/// of the former is where `key` goes.
pub proof fn lemma_route_split(c: Seq<(u32, u64)>, key: u64, p: int)
    requires
        0 <= p <= c.len(),
        forall|j: int| 0 <= j < p ==> c[j].0 <= key,
        forall|j: int| p <= j < c.len() ==> c[j].0 > key,
    ensures
        route(c, key) == if p == 0 {
            None
        } else {
            Some(c[p - 1].1)
        },
    decreases c.len(),
{
    if c.len() > 0 && p < c.len() {
        lemma_route_split(c.drop_last(), key, p);
    }
}

/// Where the last entry with a bound up to `key` stands, `key` goes.
pub proof fn lemma_route_last(c: Seq<(u32, u64)>, key: u64, j: int)
    requires
        0 <= j < c.len(),
        c[j].0 <= key,
        forall|i: int| j < i < c.len() ==> c[i].0 > key,
    ensures
        route(c, key) == Some(c[j].1),
    decreases c.len(),
{
    if j < c.len() - 1 {
        lemma_route_last(c.drop_last(), key, j);
    }
}

/// Whether two ranges have no key in common.
pub open spec fn apart(a: PartInfo, b: PartInfo) -> bool {
    a.max_len < b.min_len || b.max_len < a.min_len
}

/// Whether no two live partitions of the table serve the same key.
pub open spec fn tidy(table: Map<u64, PartInfo>) -> bool {
    forall|a: u64, b: u64|
        #![trigger table[a], table[b]]
        table.dom().contains(a) && table.dom().contains(b) && a != b && table[a].live()
            && table[b].live() ==> apart(table[a], table[b])
}

/// Where the live partitions' ranges do not overlap, a key that one of them
/// serves is routed to that partition.
pub proof fn law_route_finds_range(
    c: Seq<(u32, u64)>,
    table: Map<u64, PartInfo>,
    key: u64,
    id: u64,
)
    requires
        classes_of(c, table),
        tidy(table),
        table.dom().contains(id),
        table[id].live(),
        table[id].serves(key),
    ensures
        route(c, key) == Some(id),
{
    let e = (table[id].min_len, id);
    assert(c.contains(e));
    let j = c.index_of(e);
    assert forall|i: int| j < i < c.len() implies c[i].0 > key by {
        assert(class_before(c[j], c[i]));
        let other = c[i].1;
        assert(c[i] == (c[i].0, other));
        assert(c.contains((c[i].0, other)));
        if c[i].0 <= key {
            assert(other != id);
            assert(apart(table[id], table[other]));
        }
    }
    lemma_route_last(c, key, j);
}

/// Tables in order that hold the same entries are the same.
pub proof fn lemma_ordered_unique(x: Seq<(u32, u64)>, y: Seq<(u32, u64)>)
    requires
        ordered(x),
        ordered(y),
        forall|e: (u32, u64)| x.contains(e) <==> y.contains(e),
    ensures
        x == y,
    decreases x.len(),
{
    if x.len() == 0 {
        if y.len() > 0 {
            assert(y.contains(y[0]));
        }
        assert(x =~= y);
    } else {
        assert(x.contains(x.last()));
        let j = y.index_of(x.last());
        assert(y.contains(y.last()));
        let i = x.index_of(y.last());
        if i < x.len() - 1 {
            assert(class_before(x[i], x[x.len() - 1]));
        }
        if j < y.len() - 1 {
            assert(class_before(y[j], y[y.len() - 1]));
        }
        assert(x.last() == y.last());
        let xs = x.drop_last();
        let ys = y.drop_last();
        assert forall|e: (u32, u64)| xs.contains(e) <==> ys.contains(e) by {
            if xs.contains(e) {
                let k = xs.index_of(e);
                assert(x[k] == e);
                assert(class_before(x[k], x[x.len() - 1]));
                assert(x.contains(e));
                let l = y.index_of(e);
                assert(ys[l] == e);
            }
            if ys.contains(e) {
                let k = ys.index_of(e);
                assert(y[k] == e);
                assert(class_before(y[k], y[y.len() - 1]));
                assert(y.contains(e));
                let l = x.index_of(e);
                assert(xs[l] == e);
            }
        }
        assert forall|p: int, q: int| 0 <= p < q < xs.len() implies #[trigger] class_before(
            xs[p],
            xs[q],
        ) by {
            assert(class_before(x[p], x[q]));
        }
        assert forall|p: int, q: int| 0 <= p < q < ys.len() implies #[trigger] class_before(
            ys[p],
            ys[q],
        ) by {
            assert(class_before(y[p], y[q]));
        }
        lemma_ordered_unique(xs, ys);
        assert(x =~= xs.push(x.last()));
        assert(y =~= ys.push(y.last()));
    }
}

/// The classifier's table is derived from the partitions' bookkeeping and
/// from nothing else: a table has one classifier's table.
pub proof fn law_classes_are_determined(
    c1: Seq<(u32, u64)>,
    c2: Seq<(u32, u64)>,
    table: Map<u64, PartInfo>,
)
    requires
        classes_of(c1, table),
        classes_of(c2, table),
    ensures
        c1 == c2,
{
    assert forall|e: (u32, u64)| c1.contains(e) <==> c2.contains(e) by {
        assert(e == (e.0, e.1));
        assert(c1.contains((e.0, e.1)) <==> table.dom().contains(e.1) && table[e.1].live()
            && table[e.1].min_len == e.0);
        assert(c2.contains((e.0, e.1)) <==> table.dom().contains(e.1) && table[e.1].live()
            && table[e.1].min_len == e.0);
    }
    lemma_ordered_unique(c1, c2);
}

/// The same table and the same key give the same partition: where an element
/// goes depends on nothing but the snapshot of the classifier and its key.
pub proof fn law_classify_is_a_function(a: Classifier, b: Classifier, key: u64)
    requires
        a@ == b@,
    ensures
        route(a@, key) == route(b@, key),
{
}

/// The number of entries whose lower bound is not above `key`.
fn upper_bound(classes: &Vec<(u32, u64)>, key: u64) -> (p: usize)
    requires
        ordered(classes@),
    ensures
        p <= classes@.len(),
        forall|j: int| 0 <= j < p ==> classes@[j].0 <= key,
        forall|j: int| p <= j < classes@.len() ==> classes@[j].0 > key,
{
    let mut lo: usize = 0;
    let mut hi: usize = classes.len();
    while lo < hi
        invariant
            lo <= hi <= classes@.len(),
            ordered(classes@),
            forall|j: int| 0 <= j < lo ==> classes@[j].0 <= key,
            forall|j: int| hi <= j < classes@.len() ==> classes@[j].0 > key,
        decreases hi - lo,
    {
        let mid = lo + (hi - lo) / 2;
        if classes[mid].0 as u64 <= key {
            assert forall|j: int| 0 <= j < mid + 1 implies classes@[j].0 <= key by {
                if j < mid {
                    assert(class_before(classes@[j], classes@[mid as int]));
                }
            }
            lo = mid + 1;
        } else {
            assert forall|j: int| mid <= j < classes@.len() implies classes@[j].0 > key by {
                if j > mid {
                    assert(class_before(classes@[mid as int], classes@[j]));
                }
            }
            hi = mid;
        }
    }
    lo
}

/// The table of lower bounds by which elements are routed: a snapshot, which
/// keeps routing as it is while the bookkeeping behind it changes.
#[derive(Debug)]
pub struct Classifier {
    classes: Vec<(u32, u64)>,
}

impl View for Classifier {
    type V = Seq<(u32, u64)>;

    closed spec fn view(&self) -> Seq<(u32, u64)> {
        self.classes@
    }
}

impl Classifier {
    /// The table is in order.
    pub open spec fn wf(&self) -> bool {
        ordered(self@)
    }

    /// The partition for an element with the classification key `key`: the one
    /// whose lower bound is `key`, else the one with the largest lower bound
    /// below `key`; none if `key` is below every bound.
    pub fn classify(&self, key: u64) -> (r: Option<u64>)
        requires
            self.wf(),
        ensures
            r == route(self@, key),
    {
        let p = upper_bound(&self.classes, key);
        proof {
            lemma_route_split(self@, key, p as int);
        }
        if p == 0 {
            None
        } else {
            Some(self.classes[p - 1].1)
        }
    }

    /// The policy for elements that `classify` has no partition for: a key
    /// below every bound means that the table is broken, so they are refused.
    pub fn fallback(&self) -> (r: Fallback)
        ensures
            r == Fallback::Fail,
    {
        Fallback::Fail
    }

    /// A copy of the table.
    pub fn snapshot(&self) -> (r: Classifier)
        ensures
            r@ == self@,
    {
        let mut classes: Vec<(u32, u64)> = Vec::new();
        let mut i: usize = 0;
        while i < self.classes.len()
            invariant
                i <= self.classes@.len(),
                classes@ == self.classes@.take(i as int),
            decreases self.classes@.len() - i,
        {
            classes.push(self.classes[i]);
            assert(self.classes@.take(i + 1) =~= self.classes@.take(i as int).push(
                self.classes@[i as int],
            ));
            i += 1;
        }
        assert(self.classes@.take(i as int) =~= self.classes@);
        Classifier { classes }
    }

    /// The table for the partitions in `parts`.
    pub fn build(parts: &IdMap<PartInfo>) -> (r: Classifier)
        requires
            parts.wf(),
        ensures
            r.wf(),
            classes_of(r@, parts@),
    {
        let mut classes: Vec<(u32, u64)> = Vec::new();
        let ghost mut from: Seq<int> = Seq::empty();
        let n = parts.len();
        let mut i: usize = 0;
        while i < n
            invariant
                i <= n,
                n == parts.ids().len(),
                parts.wf(),
                ordered(classes@),
                from.len() == classes@.len(),
                forall|j: int|
                    0 <= j < classes@.len() ==> {
                        &&& 0 <= #[trigger] from[j] < i
                        &&& classes@[j] == (parts.values()[from[j]].min_len, parts.ids()[from[j]])
                        &&& parts.values()[from[j]].live()
                    },
                forall|k: int|
                    0 <= k < i && (#[trigger] parts.values()[k]).live() ==> classes@.contains(
                        (parts.values()[k].min_len, parts.ids()[k]),
                    ),
            decreases n - i,
        {
            let id = parts.id_at(i);
            let info = *parts.value_at(i);
            if info.max_len > info.min_len {
                let p = upper_bound(&classes, info.min_len as u64);
                let ghost before = classes@;
                let ghost entry = (info.min_len, id);
                classes.insert(p, (info.min_len, id));
                proof {
                    let after = classes@;
                    assert forall|a: int, b: int| 0 <= a < b < after.len() implies class_before(
                        after[a],
                        after[b],
                    ) by {
                        if b == p {
                            let k = from[a];
                            assert(parts.ids()[k] < parts.ids()[i as int]);
                        } else if a == p {
                        } else {
                            let a0 = if a < p { a } else { a - 1 };
                            let b0 = if b < p { b } else { b - 1 };
                            assert(class_before(before[a0], before[b0]));
                        }
                    }
                    from = from.insert(p as int, i as int);
                    assert forall|k: int|
                        0 <= k < i + 1 && (#[trigger] parts.values()[k]).live() implies after.contains(
                        (parts.values()[k].min_len, parts.ids()[k]),
                    ) by {
                        if k < i {
                            let e = (parts.values()[k].min_len, parts.ids()[k]);
                            assert(before.contains(e));
                            let j = before.index_of(e);
                            if j < p {
                                assert(after[j] == e);
                            } else {
                                assert(after[j + 1] == e);
                            }
                        } else {
                            assert(after[p as int] == entry);
                        }
                    }
                }
            }
            i += 1;
        }
        proof {
            let c = classes@;
            assert forall|b: u32, id: u64| #[trigger]
                c.contains((b, id)) <==> parts@.dom().contains(id) && parts@[id].live()
                    && parts@[id].min_len == b by {
                if c.contains((b, id)) {
                    let j = c.index_of((b, id));
                    lemma_paired_at(parts.ids(), parts.values(), from[j]);
                }
                if parts@.dom().contains(id) && parts@[id].live() && parts@[id].min_len == b {
                    let k = parts.ids().index_of(id);
                    lemma_paired_at(parts.ids(), parts.values(), k);
                    assert(parts.values()[k].live());
                }
            }
        }
        Classifier { classes }
    }
}

} // verus!
