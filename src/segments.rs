use crate::idmap::{copy_ids, Group, NON_MASTER_START};
use vstd::prelude::*;

verus! {

/// A run `[low, high]` of master vertices in which every vertex after `low` has the
/// single parent `v - 1`.
#[derive(Clone, Debug)]
pub struct Segment {
    pub low: u64,
    pub high: u64,
    /// Parents of `low`; the parent of every later vertex is its predecessor.
    pub parents: Vec<u64>,
    /// `low` has no parent.
    pub is_root: bool,
    /// No vertex of the graph has `high` as a parent.
    pub is_head: bool,
}

/// What a segment says, as plain values.
pub struct SegmentModel {
    pub low: u64,
    pub high: u64,
    pub parents: Seq<u64>,
    pub is_root: bool,
    pub is_head: bool,
}

/// Errors of parent queries.
#[derive(Clone, Copy, Debug, PartialEq, Eq, Structural)]
pub enum SegmentError {
    UnknownVertex,
}

impl Segment {
    pub open spec fn model(&self) -> SegmentModel {
        SegmentModel {
            low: self.low,
            high: self.high,
            parents: self.parents@,
            is_root: self.is_root,
            is_head: self.is_head,
        }
    }
}

/// `v` is a parent of some vertex in the table `t`.
pub open spec fn has_child(t: Seq<Seq<u64>>, v: u64) -> bool {
    exists|w: int, k: int| 0 <= w < t.len() && 0 <= k < t[w].len() && #[trigger] t[w][k] == v
}

/// `v` continues a chain: its parents are exactly its predecessor.
pub open spec fn extends_chain(t: Seq<Seq<u64>>, v: int) -> bool {
    v > 0 && t[v] == seq![(v - 1) as u64]
}

/// The segments of the first `n` vertices of the parent table `t`: a new segment starts
/// exactly at each vertex that does not continue a chain.
pub open spec fn segments_of(t: Seq<Seq<u64>>, n: nat) -> Seq<SegmentModel>
    decreases n,
{
    if n == 0 {
        Seq::empty()
    } else {
        let prev = segments_of(t, (n - 1) as nat);
        let v = (n - 1) as int;
        if extends_chain(t, v) && prev.len() > 0 {
            let last = prev.last();
            prev.update(
                prev.len() - 1,
                SegmentModel { high: v as u64, is_head: !has_child(t, v as u64), ..last },
            )
        } else {
            prev.push(
                SegmentModel {
                    low: v as u64,
                    high: v as u64,
                    parents: t[v],
                    is_root: t[v].len() == 0,
                    is_head: !has_child(t, v as u64),
                },
            )
        }
    }
}

/// The segments cover `[0, next)` in increasing order, without gap or overlap.
pub open spec fn covers(segs: Seq<SegmentModel>, next: nat) -> bool {
    &&& (segs.len() == 0 <==> next == 0)
    &&& segs.len() > 0 ==> segs[0].low == 0 && segs.last().high + 1 == next
    &&& forall|i: int| 0 <= i < segs.len() ==> #[trigger] segs[i].low <= segs[i].high
    &&& forall|i: int|
        0 <= i < segs.len() - 1 ==> #[trigger] segs[i + 1].low == segs[i].high + 1
    &&& forall|i: int, j: int|
        #![trigger segs[i], segs[j]]
        0 <= i < j < segs.len() ==> segs[i].high < segs[j].low
}

/// Parents of `v` in a segment that contains it.
pub open spec fn parents_in(s: SegmentModel, v: u64) -> Seq<u64> {
    if v == s.low {
        s.parents
    } else {
        seq![(v - 1) as u64]
    }
}

/// Some segment holds vertex `x`.
pub open spec fn covered(segs: Seq<SegmentModel>, x: int) -> bool {
    exists|i: int| 0 <= i < segs.len() && segs[i].low <= x <= #[trigger] segs[i].high
}

/// Segment models of a sequence of segments.
pub open spec fn models(s: Seq<Segment>) -> Seq<SegmentModel> {
    s.map_values(|x: Segment| x.model())
}

/// The parent table as plain sequences.
pub open spec fn table_of(parents: Seq<Vec<u64>>) -> Seq<Seq<u64>> {
    parents.map_values(|p: Vec<u64>| p@)
}

/// `v` is a parent of some vertex listed before position `k` of row `w`.
pub open spec fn child_before(t: Seq<Seq<u64>>, w: int, k: int, v: u64) -> bool {
    exists|w2: int, k2: int|
        0 <= w2 < t.len() && 0 <= k2 < t[w2].len() && #[trigger] t[w2][k2] == v && (w2 < w || (
        w2 == w && k2 < k))
}

/// For each vertex of the table, whether some vertex of the table lists it as a parent.
fn mark_children(parents: &Vec<Vec<u64>>) -> (r: Vec<bool>)
    ensures
        r@.len() == parents@.len(),
        forall|v: int| 0 <= v < parents@.len() ==> #[trigger] r@[v] == has_child(table_of(parents@), v as u64),
{
    let ghost t = table_of(parents@);
    let n = parents.len();
    let mut hc: Vec<bool> = Vec::new();
    let mut i: usize = 0;
    while i < n
        invariant
            0 <= i <= n,
            n == parents@.len(),
            hc@.len() == i,
            forall|j: int| 0 <= j < i ==> !#[trigger] hc@[j],
        decreases n - i,
    {
        hc.push(false);
        i = i + 1;
    }
    let mut w: usize = 0;
    while w < n
        invariant
            0 <= w <= n,
            n == parents@.len(),
            t == table_of(parents@),
            hc@.len() == n,
            forall|v: int| 0 <= v < n ==> (#[trigger] hc@[v] <==> child_before(t, w as int, 0, v as u64)),
        decreases n - w,
    {
        let row = &parents[w];
        assert(t[w as int] == row@);
        let mut k: usize = 0;
        while k < row.len()
            invariant
                0 <= w < n,
                0 <= k <= row@.len(),
                n == parents@.len(),
                t == table_of(parents@),
                t[w as int] == row@,
                hc@.len() == n,
                forall|v: int| 0 <= v < n ==> (#[trigger] hc@[v] <==> child_before(t, w as int, k as int, v as u64)),
            decreases row@.len() - k,
        {
            let p = row[k];
            if p < n as u64 {
                hc.set(p as usize, true);
            }
            proof {
                assert(t[w as int][k as int] == p);
                assert forall|v: int| 0 <= v < n implies (#[trigger] hc@[v] <==> child_before(t, w as int, k + 1, v as u64)) by {
                    if child_before(t, w as int, k + 1, v as u64) && v != p {
                        let (w2, k2) = choose|w2: int, k2: int|
                            0 <= w2 < t.len() && 0 <= k2 < t[w2].len() && #[trigger] t[w2][k2] == v as u64 && (w2 < w || (
                            w2 == w && k2 < k + 1));
                        assert(child_before(t, w as int, k as int, v as u64));
                    }
                }
            }
            k = k + 1;
        }
        proof {
            assert forall|v: int| 0 <= v < n implies (#[trigger] hc@[v] <==> child_before(t, w + 1, 0, v as u64)) by {
                if child_before(t, w + 1, 0, v as u64) {
                    let (w2, k2) = choose|w2: int, k2: int|
                        0 <= w2 < t.len() && 0 <= k2 < t[w2].len() && #[trigger] t[w2][k2] == v as u64 && (w2 < w + 1 || (
                        w2 == w + 1 && k2 < 0));
                    assert(child_before(t, w as int, row@.len() as int, v as u64));
                }
                if child_before(t, w as int, row@.len() as int, v as u64) {
                    let (w2, k2) = choose|w2: int, k2: int|
                        0 <= w2 < t.len() && 0 <= k2 < t[w2].len() && #[trigger] t[w2][k2] == v as u64 && (w2 < w || (
                        w2 == w && k2 < row@.len()));
                    assert(child_before(t, w + 1, 0, v as u64));
                }
            }
        }
        w = w + 1;
    }
    proof {
        assert forall|v: int| 0 <= v < n implies #[trigger] hc@[v] == has_child(t, v as u64) by {
            if has_child(t, v as u64) {
                let (w2, k2) = choose|w2: int, k2: int| 0 <= w2 < t.len() && 0 <= k2 < t[w2].len() && #[trigger] t[w2][k2] == v as u64;
                assert(child_before(t, n as int, 0, v as u64));
            }
        }
    }
    hc
}

/// The segments of a well-formed store cover every vertex below the next free one,
/// none above it, and no vertex twice.
pub proof fn lemma_segment_coverage(s: SegmentStore)
    requires
        s.wf(),
    ensures
        forall|x: int| 0 <= x < s.next_spec() <==> #[trigger] covered(s.segs(), x),
        forall|i: int, j: int, x: int|
            #![trigger s.segs()[i], s.segs()[j], covered(s.segs(), x)]
            0 <= i < s.segs().len() && 0 <= j < s.segs().len() && s.segs()[i].low <= x
                <= s.segs()[i].high && s.segs()[j].low <= x <= s.segs()[j].high ==> i == j,
{
    let segs = s.segs();
    assert forall|x: int| #[trigger] covered(segs, x) implies 0 <= x < s.next_spec() by {
        let i = choose|i: int| 0 <= i < segs.len() && segs[i].low <= x <= #[trigger] segs[i].high;
        if i < segs.len() - 1 {
            assert(segs[i].high < segs[segs.len() - 1].low);
        }
    }
    assert forall|i: int, j: int, x: int|
        #![trigger segs[i], segs[j], covered(segs, x)]
        0 <= i < segs.len() && 0 <= j < segs.len() && segs[i].low <= x <= segs[i].high
            && segs[j].low <= x <= segs[j].high implies i == j by {
        if i < j {
            assert(segs[i].high < segs[j].low);
        } else if j < i {
            assert(segs[j].high < segs[i].low);
        }
    }
}

/// Two stores built from parent tables that agree have the same segments.
pub proof fn lemma_build_deterministic(
    a: SegmentStore,
    b: SegmentStore,
    pa: Seq<Vec<u64>>,
    pb: Seq<Vec<u64>>,
    head: u64,
)
    requires
        table_of(pa) == table_of(pb),
        a.segs() == segments_of(table_of(pa), (head + 1) as nat),
        b.segs() == segments_of(table_of(pb), (head + 1) as nat),
    ensures
        a.segs() == b.segs(),
{
}

/// Segments over the master group, with its next free vertex.
pub struct SegmentStore {
    pub(crate) segments: Vec<Segment>,
    pub(crate) next_master: u64,
}

impl SegmentStore {
    pub open(crate) spec fn segs(&self) -> Seq<SegmentModel> {
        self.segments@.map_values(|s: Segment| s.model())
    }

    pub open(crate) spec fn next_spec(&self) -> nat {
        self.next_master as nat
    }

    pub open(crate) spec fn wf(&self) -> bool {
        &&& covers(self.segs(), self.next_spec())
        &&& forall|x: int| 0 <= x < self.next_spec() ==> #[trigger] covered(self.segs(), x)
        &&& self.next_master <= NON_MASTER_START
        &&& self.segs().len() <= u64::MAX
        &&& forall|i: int| 0 <= i < self.segs().len() ==> #[trigger] self.segs()[i].parents.len() <= u64::MAX
    }

    /// Index of the segment that holds `v`.
    pub open(crate) spec fn seg_index(&self, v: u64) -> int {
        choose|i: int|
            0 <= i < self.segs().len() && self.segs()[i].low <= v <= #[trigger] self.segs()[i].high
    }

    /// Parents of vertex `v < next`.
    pub open(crate) spec fn parents_spec(&self, v: u64) -> Seq<u64> {
        parents_in(self.segs()[self.seg_index(v)], v)
    }

    /// The parent table of every assigned vertex.
    pub open(crate) spec fn table(&self) -> Seq<Seq<u64>> {
        Seq::new(self.next_spec(), |v: int| self.parents_spec(v as u64))
    }

    /// Builds, from scratch, the segments of the vertices `[0, head]` whose parents are
    /// `parents[v]`: a new segment starts exactly where a vertex does not have its
    /// predecessor as its sole parent. A segment's end is a head when no vertex of the
    /// table lists it as a parent. Nothing of any earlier store is reused.
    pub fn build_segments(head: u64, parents: &Vec<Vec<u64>>) -> (r: SegmentStore)
        requires
            parents@.len() > head,
            head < NON_MASTER_START,
        ensures
            r.wf(),
            r.next_spec() == head + 1,
            r.segs() == segments_of(table_of(parents@), (head + 1) as nat),
            r.table() == table_of(parents@).take(head + 1),
    {
        let ghost t = table_of(parents@);
        let hc = mark_children(parents);
        let len = parents.len();
        assert(head < len);
        let n = (head as usize) + 1;
        let mut segs: Vec<Segment> = Vec::new();
        let mut v: usize = 0;
        while v < n
            invariant
                0 <= v <= n,
                n <= parents@.len(),
                n == head + 1,
                n <= NON_MASTER_START,
                t == table_of(parents@),
                hc@.len() == parents@.len(),
                forall|x: int| 0 <= x < parents@.len() ==> #[trigger] hc@[x] == has_child(t, x as u64),
                models(segs@) == segments_of(t, v as nat),
                covers(models(segs@), v as nat),
                segs@.len() <= v,
                forall|i: int| 0 <= i < segs@.len() ==> #[trigger] models(segs@)[i].parents.len() <= u64::MAX,
                forall|i: int, x: int|
                    #![trigger models(segs@)[i], t[x]]
                    0 <= i < segs@.len() && models(segs@)[i].low <= x <= models(segs@)[i].high
                        ==> parents_in(models(segs@)[i], x as u64) == t[x],
                forall|x: int| 0 <= x < v ==> #[trigger] covered(models(segs@), x),
            decreases n - v,
        {
            let row = &parents[v];
            let vv = v as u64;
            let ghost old_segs = models(segs@);
            assert(t[v as int] == row@);
            if v > 0 && row.len() == 1 && row[0] == vv - 1 {
                assert(row@ =~= seq![(v - 1) as u64]);
                assert(extends_chain(t, v as int));
                let mut last = segs.pop().unwrap();
                last.high = vv;
                last.is_head = !hc[v];
                segs.push(last);
                proof {
                    let k = old_segs.len() - 1;
                    assert(models(segs@) =~= old_segs.update(
                        k,
                        SegmentModel { high: vv, is_head: !has_child(t, vv), ..old_segs.last() },
                    ));
                    assert forall|x: int| 0 <= x < v + 1 implies #[trigger] covered(models(segs@), x) by {
                        if x == v {
                            assert(models(segs@)[k].low <= x <= models(segs@)[k].high);
                        } else {
                            assert(covered(old_segs, x));
                            let i = choose|i: int|
                                0 <= i < old_segs.len() && old_segs[i].low <= x
                                    <= #[trigger] old_segs[i].high;
                            assert(models(segs@)[i].low <= x <= models(segs@)[i].high);
                        }
                    }
                    assert forall|i: int, j: int|
                        #![trigger models(segs@)[i], models(segs@)[j]]
                        0 <= i < j < models(segs@).len() implies models(segs@)[i].high < models(
                            segs@,
                        )[j].low by {
                        assert(old_segs[i].high < old_segs[j].low);
                    }
                }
            } else {
                assert(!extends_chain(t, v as int)) by {
                    if v > 0 && row@ == seq![(v - 1) as u64] {
                        assert(row@[0] == (v - 1) as u64);
                    }
                }
                let ps = copy_ids(row);
                let is_root = ps.len() == 0;
                segs.push(Segment { low: vv, high: vv, parents: ps, is_root, is_head: !hc[v] });
                proof {
                    assert(models(segs@) =~= old_segs.push(
                        SegmentModel {
                            low: vv,
                            high: vv,
                            parents: t[v as int],
                            is_root: t[v as int].len() == 0,
                            is_head: !has_child(t, vv),
                        },
                    ));
                    assert forall|x: int| 0 <= x < v + 1 implies #[trigger] covered(models(segs@), x) by {
                        if x == v {
                            let k = old_segs.len() as int;
                            assert(models(segs@)[k].low <= x <= models(segs@)[k].high);
                        } else {
                            assert(covered(old_segs, x));
                            let i = choose|i: int|
                                0 <= i < old_segs.len() && old_segs[i].low <= x
                                    <= #[trigger] old_segs[i].high;
                            assert(models(segs@)[i].low <= x <= models(segs@)[i].high);
                        }
                    }
                    assert forall|i: int, j: int|
                        #![trigger models(segs@)[i], models(segs@)[j]]
                        0 <= i < j < models(segs@).len() implies models(segs@)[i].high < models(
                            segs@,
                        )[j].low by {
                        if j < old_segs.len() {
                            assert(old_segs[i].high < old_segs[j].low);
                        } else if old_segs.len() > 0 {
                            assert(old_segs[i].high <= old_segs.last().high);
                        }
                    }
                }
            }
            v = v + 1;
        }
        let r = SegmentStore { segments: segs, next_master: n as u64 };
        proof {
            assert(r.segs() == models(segs@));
            assert forall|x: int| 0 <= x < r.next_spec() implies #[trigger] covered(r.segs(), x) by {
                assert(covered(models(segs@), x));
            }
            assert forall|x: int| 0 <= x < n implies #[trigger] r.table()[x] == t[x] by {
                assert(t[x] == t[x]);
                assert(covered(models(segs@), x));
                let i = r.seg_index(x as u64);
                assert(0 <= i < r.segs().len() && r.segs()[i].low <= x <= r.segs()[i].high);
            }
            assert(r.table() =~= t.take(n as int));
        }
        r
    }

    /// Parents of vertex `v`, found by binary search over the segments.
    pub fn parent_vertices(&self, v: u64) -> (r: Result<Vec<u64>, SegmentError>)
        requires
            self.wf(),
        ensures
            v < self.next_spec() ==> r is Ok && r->Ok_0@ == self.table()[v as int],
            v >= self.next_spec() ==> r == Err::<Vec<u64>, SegmentError>(
                SegmentError::UnknownVertex,
            ),
    {
        if v >= self.next_master {
            return Err(SegmentError::UnknownVertex);
        }
        let ghost segs = self.segs();
        let mut lo: usize = 0;
        let mut hi: usize = self.segments.len();
        while hi - lo > 1
            invariant
                self.wf(),
                segs == self.segs(),
                v < self.next_spec(),
                0 <= lo < hi <= segs.len(),
                segs[lo as int].low <= v,
                hi == segs.len() || v < segs[hi as int].low,
            decreases hi - lo,
        {
            let mid = lo + (hi - lo) / 2;
            assert(segs[mid as int] == self.segments@[mid as int].model());
            if self.segments[mid].low <= v {
                lo = mid;
            } else {
                hi = mid;
            }
        }
        let seg = &self.segments[lo];
        proof {
            let l = lo as int;
            assert(segs[l] == seg.model());
            if l + 1 < segs.len() {
                assert(segs[l + 1].low == segs[l].high + 1);
            }
            assert(segs[l].low <= v <= segs[l].high);
            let i = self.seg_index(v);
            assert(0 <= i < segs.len() && segs[i].low <= v <= segs[i].high);
            if i < l {
                assert(segs[i].high < segs[l].low);
            } else if i > l {
                assert(segs[l].high < segs[i].low);
            }
            assert(i == l);
        }
        if v == seg.low {
            Ok(copy_ids(&seg.parents))
        } else {
            let r = vec![v - 1];
            assert(r@ =~= seq![(v - 1) as u64]);
            Ok(r)
        }
    }

    /// The parents of every vertex `[0, next)`, in vertex order.
    pub fn parent_table(&self) -> (r: Vec<Vec<u64>>)
        requires
            self.wf(),
        ensures
            table_of(r@) == self.table(),
    {
        let mut r: Vec<Vec<u64>> = Vec::new();
        let mut v: u64 = 0;
        while v < self.next_master
            invariant
                self.wf(),
                0 <= v <= self.next_spec(),
                table_of(r@) == self.table().take(v as int),
            decreases self.next_spec() - v,
        {
            let ghost r0 = r@;
            let ps = self.parent_vertices(v);
            match ps {
                Ok(ps) => {
                    r.push(ps);
                },
                Err(_) => {},
            }
            assert(r@ == r0.push(r@.last()));
            assert(table_of(r@) =~= table_of(r0).push(self.table()[v as int]));
            assert(table_of(r@) =~= self.table().take(v + 1));
            v = v + 1;
        }
        assert(self.table().take(self.next_spec() as int) =~= self.table());
        r
    }

    /// An empty store.
    pub fn new() -> (r: Self)
        ensures
            r.wf(),
            r.next_spec() == 0,
            r.segs().len() == 0,
    {
        SegmentStore { segments: Vec::new(), next_master: 0 }
    }

    /// Number of segments.
    pub fn len(&self) -> (r: usize)
        ensures
            r == self.segs().len(),
    {
        self.segments.len()
    }

    /// The segment at `i`.
    pub fn segment(&self, i: usize) -> (r: &Segment)
        requires
            i < self.segs().len(),
        ensures
            r.model() == self.segs()[i as int],
    {
        &self.segments[i]
    }

    /// The next vertex that group `g` would assign.
    pub fn next_free_id(&self, g: Group) -> (r: u64)
        ensures
            match g {
                Group::Master => r == self.next_spec(),
                Group::NonMaster => r == NON_MASTER_START,
            },
    {
        match g {
            Group::Master => self.next_master,
            Group::NonMaster => NON_MASTER_START,
        }
    }
}

} // verus!
