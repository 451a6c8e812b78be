use crate::idmap::{topological, IdMap, NON_MASTER_START};
use crate::segments::{covered, covers, models, segments_of, Segment, SegmentModel, SegmentStore};
use vstd::prelude::*;

verus! {

/// A persisted snapshot: an encoded segment store and the IdMap version it was built
/// against.
pub struct Bundle {
    pub idmap_version: u64,
    pub payload: Vec<u64>,
}

/// Why no usable snapshot could be loaded.
#[derive(Clone, Copy, Debug, PartialEq, Eq, Structural)]
pub enum LoadError {
    /// Nothing was ever saved: start from an empty index.
    NoPersistedState,
    /// The payload is malformed, or needs vertices that its IdMap version lacks.
    CorruptBundle,
}

pub open spec fn flags_of(s: SegmentModel) -> u64 {
    ((if s.is_root { 1int } else { 0int }) + (if s.is_head { 2int } else { 0int })) as u64
}

/// One segment: low, high, flags, number of parents, then the parents.
pub open spec fn encode_seg(s: SegmentModel) -> Seq<u64> {
    seq![s.low, s.high, flags_of(s), s.parents.len() as u64] + s.parents
}

pub open spec fn encode_segs(segs: Seq<SegmentModel>) -> Seq<u64>
    decreases segs.len(),
{
    if segs.len() == 0 {
        Seq::empty()
    } else {
        encode_seg(segs[0]) + encode_segs(segs.drop_first())
    }
}

/// The payload of a store: its next free vertex, its number of segments, then each
/// segment in order.
pub open spec fn encode_store(segs: Seq<SegmentModel>, next: nat) -> Seq<u64> {
    seq![next as u64, segs.len() as u64] + encode_segs(segs)
}

/// Each segment's parents lie below it, and it is a root exactly when it has none.
pub open spec fn sound_segs(segs: Seq<SegmentModel>) -> bool {
    forall|i: int|
        0 <= i < segs.len() ==> ((#[trigger] segs[i]).is_root <==> segs[i].parents.len() == 0)
            && forall|k: int| 0 <= k < segs[i].parents.len() ==> segs[i].parents[k] < segs[i].low
}

pub proof fn lemma_segments_sound(t: Seq<Seq<u64>>, n: nat)
    requires
        topological(t),
        n <= t.len(),
        t.len() <= u64::MAX,
    ensures
        sound_segs(segments_of(t, n)),
    decreases n,
{
    if n > 0 {
        lemma_segments_sound(t, (n - 1) as nat);
        let prev = segments_of(t, (n - 1) as nat);
        let v = n - 1;
        let cur = segments_of(t, n);
        assert forall|k: int| 0 <= k < t[v].len() implies t[v][k] < v by {}
        assert forall|i: int| 0 <= i < cur.len() implies ((#[trigger] cur[i]).is_root <==> cur[i].parents.len() == 0)
            && forall|k: int| 0 <= k < cur[i].parents.len() ==> cur[i].parents[k] < cur[i].low by {
            if crate::segments::extends_chain(t, v) && prev.len() > 0 {
                assert(prev[i].is_root <==> prev[i].parents.len() == 0);
                assert(cur[i].low == prev[i].low && cur[i].parents == prev[i].parents && cur[i].is_root
                    == prev[i].is_root);
            } else if i < prev.len() {
                assert(prev[i].is_root <==> prev[i].parents.len() == 0);
                assert(cur[i] == prev[i]);
            } else {
                assert(cur[i].low == v as u64 && cur[i].parents == t[v]);
            }
        }
    }
}

fn check_parents(segs: &Vec<Segment>) -> (r: bool)
    ensures
        r == sound_segs(models(segs@)),
{
    let ghost m = models(segs@);
    let mut i: usize = 0;
    while i < segs.len()
        invariant
            m == models(segs@),
            0 <= i <= segs@.len(),
            forall|i2: int|
                0 <= i2 < i ==> ((#[trigger] m[i2]).is_root <==> m[i2].parents.len() == 0)
                    && forall|k: int| 0 <= k < m[i2].parents.len() ==> m[i2].parents[k] < m[i2].low,
        decreases segs@.len() - i,
    {
        let s = &segs[i];
        assert(m[i as int] == s.model());
        if s.is_root != (s.parents.len() == 0) {
            return false;
        }
        let mut k: usize = 0;
        while k < s.parents.len()
            invariant
                m == models(segs@),
                0 <= i < segs@.len(),
                m[i as int] == s.model(),
                0 <= k <= s.parents@.len(),
                forall|k2: int| 0 <= k2 < k ==> s.parents@[k2] < s.low,
            decreases s.parents@.len() - k,
        {
            if s.parents[k] >= s.low {
                assert(m[i as int].parents[k as int] == s.parents@[k as int]);
                return false;
            }
            k = k + 1;
        }
        i = i + 1;
    }
    true
}

/// Segments as a store holds them.
pub open spec fn valid_segs(segs: Seq<SegmentModel>, next: nat) -> bool {
    &&& sound_segs(segs)
    &&& covers(segs, next)
    &&& forall|x: int| 0 <= x < next ==> #[trigger] covered(segs, x)
    &&& next <= NON_MASTER_START
}

/// Reads `count` segments that take up all of `w`.
pub open spec fn parse_segs(w: Seq<u64>, count: nat) -> Option<Seq<SegmentModel>>
    decreases count,
{
    if count == 0 {
        if w.len() == 0 {
            Some(Seq::empty())
        } else {
            None
        }
    } else if w.len() < 4 || w[2] >= 4 || w.len() - 4 < w[3] {
        None
    } else {
        let n = w[3] as int;
        let seg = SegmentModel {
            low: w[0],
            high: w[1],
            parents: w.subrange(4, 4 + n),
            is_root: w[2] % 2 == 1,
            is_head: w[2] >= 2,
        };
        match parse_segs(w.subrange(4 + n, w.len() as int), (count - 1) as nat) {
            Some(rest) => Some(seq![seg] + rest),
            None => None,
        }
    }
}

/// The segments and next free vertex that a payload holds, if it is well formed.
pub open spec fn decode_spec(w: Seq<u64>) -> Option<(Seq<SegmentModel>, nat)> {
    if w.len() < 2 {
        None
    } else {
        match parse_segs(w.subrange(2, w.len() as int), w[1] as nat) {
            Some(segs) => if valid_segs(segs, w[0] as nat) {
                Some((segs, w[0] as nat))
            } else {
                None
            },
            None => None,
        }
    }
}

pub proof fn lemma_encode_snoc(segs: Seq<SegmentModel>, i: int)
    requires
        0 <= i < segs.len(),
    ensures
        encode_segs(segs.take(i + 1)) == encode_segs(segs.take(i)) + encode_seg(segs[i]),
    decreases i,
{
    if i == 0 {
        assert(segs.take(1).drop_first() =~= Seq::<SegmentModel>::empty());
        assert(encode_segs(segs.take(0)) =~= Seq::<u64>::empty());
        assert(encode_segs(segs.take(1).drop_first()) =~= Seq::<u64>::empty());
        assert(segs.take(1)[0] == segs[0]);
        assert(encode_segs(segs.take(1)) =~= encode_seg(segs[0]));
    } else {
        let t = segs.drop_first();
        lemma_encode_snoc(t, i - 1);
        assert(segs.take(i + 1).drop_first() =~= t.take(i));
        assert(segs.take(i).drop_first() =~= t.take(i - 1));
        assert(encode_segs(segs.take(i + 1)) =~= encode_seg(segs[0]) + encode_segs(t.take(i)));
        assert(encode_segs(segs.take(i)) =~= encode_seg(segs[0]) + encode_segs(t.take(i - 1)));
        assert(encode_segs(segs.take(i + 1)) =~= encode_segs(segs.take(i)) + encode_seg(segs[i]));
    }
}

pub proof fn lemma_parse_encoded(segs: Seq<SegmentModel>)
    requires
        forall|i: int| 0 <= i < segs.len() ==> #[trigger] segs[i].parents.len() <= u64::MAX,
    ensures
        parse_segs(encode_segs(segs), segs.len()) == Some(segs),
    decreases segs.len(),
{
    if segs.len() > 0 {
        let s = segs[0];
        let e = encode_segs(segs);
        let t = segs.drop_first();
        assert forall|i: int| 0 <= i < t.len() implies #[trigger] t[i].parents.len() <= u64::MAX by {
            assert(t[i] == segs[i + 1]);
        }
        lemma_parse_encoded(t);
        let n = s.parents.len() as int;
        assert(e.subrange(4 + n, e.len() as int) =~= encode_segs(t));
        assert(e.subrange(4, 4 + n) =~= s.parents);
        assert(seq![s] + t =~= segs);
    }
}

/// Ordered, contiguous segments from 0 to `next` hold every vertex below `next`.
pub proof fn lemma_covers_all(segs: Seq<SegmentModel>, next: nat)
    requires
        covers(segs, next),
    ensures
        forall|x: int| 0 <= x < next ==> #[trigger] covered(segs, x),
    decreases segs.len(),
{
    if segs.len() > 0 {
        let p = segs.drop_last();
        let l = segs.last();
        if p.len() > 0 {
            let k = p.len() - 1;
            assert(segs[k + 1].low == segs[k].high + 1);
            assert forall|i: int, j: int|
                #![trigger p[i], p[j]]
                0 <= i < j < p.len() implies p[i].high < p[j].low by {
                assert(segs[i].high < segs[j].low);
            }
            assert forall|i: int| 0 <= i < p.len() - 1 implies #[trigger] p[i + 1].low == p[i].high + 1 by {
                assert(segs[i + 1].low == segs[i].high + 1);
            }
        }
        lemma_covers_all(p, l.low as nat);
        assert forall|x: int| 0 <= x < next implies #[trigger] covered(segs, x) by {
            if x < l.low {
                assert(covered(p, x));
                let i = choose|i: int| 0 <= i < p.len() && p[i].low <= x <= #[trigger] p[i].high;
                assert(segs[i] == p[i]);
            } else {
                assert(segs[segs.len() - 1].low <= x <= segs[segs.len() - 1].high);
            }
        }
    }
}

fn check_layout(segs: &Vec<Segment>, next: u64) -> (r: bool)
    ensures
        r == (covers(models(segs@), next as nat) && next <= NON_MASTER_START),
{
    let ghost m = models(segs@);
    if next > NON_MASTER_START {
        return false;
    }
    let n = segs.len();
    if n == 0 {
        return next == 0;
    }
    assert(m[0] == segs@[0].model());
    if segs[0].low != 0 {
        return false;
    }
    let mut i: usize = 0;
    while i < n
        invariant
            n == segs@.len(),
            m == models(segs@),
            n > 0,
            m[0].low == 0,
            0 <= i <= n,
            forall|i2: int| 0 <= i2 < i ==> #[trigger] m[i2].low <= m[i2].high,
            forall|i2: int| 0 <= i2 < i - 1 ==> #[trigger] m[i2 + 1].low == m[i2].high + 1,
            forall|i2: int, j2: int|
                #![trigger m[i2], m[j2]]
                0 <= i2 < j2 < i ==> m[i2].high < m[j2].low,
            i > 0 ==> forall|i2: int| 0 <= i2 < i ==> #[trigger] m[i2].high <= m[i - 1].high,
        decreases n - i,
    {
        assert(m[i as int] == segs@[i as int].model());
        if segs[i].low > segs[i].high {
            return false;
        }
        if i > 0 {
            assert(m[i - 1] == segs@[i - 1].model());
            if segs[i - 1].high == u64::MAX || segs[i].low != segs[i - 1].high + 1 {
                assert(!(m[(i - 1) + 1].low == m[i - 1].high + 1));
                return false;
            }
        }
        i = i + 1;
    }
    assert(m[n - 1] == segs@[n - 1].model());
    segs[n - 1].high < u64::MAX && segs[n - 1].high + 1 == next
}

/// Decoding the encoding of a well-formed store gives back its segments and its next
/// free vertex, hence the same parents for every vertex.
pub proof fn lemma_persistence_round_trip(s: SegmentStore)
    requires
        s.wf(),
        sound_segs(s.segs()),
    ensures
        decode_spec(encode_store(s.segs(), s.next_spec())) == Some((s.segs(), s.next_spec())),
{
    let segs = s.segs();
    let w = encode_store(segs, s.next_spec());
    lemma_parse_encoded(segs);
    assert(w.subrange(2, w.len() as int) =~= encode_segs(segs));
}

/// Two stores with the same segments and next free vertex agree on every parent query.
pub proof fn lemma_same_segments_same_parents(a: SegmentStore, b: SegmentStore)
    requires
        a.segs() == b.segs(),
        a.next_spec() == b.next_spec(),
    ensures
        a.table() == b.table(),
{
    assert(a.table() =~= b.table());
}

/// Loads and saves snapshots of the segment store, each paired with the IdMap version
/// that resolves its vertices.
pub struct SegmentedChangelogManager {}

impl SegmentedChangelogManager {
    pub fn new() -> (r: Self) {
        SegmentedChangelogManager {}
    }

    /// The snapshot of `store` against IdMap version `idmap_version`.
    pub fn save_dag(&self, store: &SegmentStore, idmap_version: u64) -> (r: Bundle)
        requires
            store.wf(),
        ensures
            r.idmap_version == idmap_version,
            r.payload@ == encode_store(store.segs(), store.next_spec()),
    {
        Bundle { idmap_version, payload: store.encode() }
    }

    /// The store of the latest snapshot. Without one, `NoPersistedState`; when the
    /// payload is malformed, or names an IdMap version that `idmap` does not have or
    /// vertices that that version does not resolve, `CorruptBundle`.
    pub fn load_dag(&self, latest: Option<&Bundle>, idmap: &IdMap) -> (r: Result<
        SegmentStore,
        LoadError,
    >)
        requires
            idmap.wf(),
        ensures
            match latest {
                None => r == Err::<SegmentStore, LoadError>(LoadError::NoPersistedState),
                Some(b) => match decode_spec(b.payload@) {
                    Some((segs, next)) => if b.idmap_version <= idmap.version_spec() && next
                        <= idmap.master_len_at_spec(b.idmap_version as nat) {
                        r is Ok && r->Ok_0.wf() && r->Ok_0.segs() == segs && r->Ok_0.next_spec()
                            == next
                    } else {
                        r == Err::<SegmentStore, LoadError>(LoadError::CorruptBundle)
                    },
                    None => r == Err::<SegmentStore, LoadError>(LoadError::CorruptBundle),
                },
            },
    {
        match latest {
            None => Err(LoadError::NoPersistedState),
            Some(b) => {
                let store = SegmentStore::decode(&b.payload)?;
                match idmap.master_len_at(b.idmap_version) {
                    Some(len) => {
                        if store.next_master <= len {
                            Ok(store)
                        } else {
                            Err(LoadError::CorruptBundle)
                        }
                    },
                    None => Err(LoadError::CorruptBundle),
                }
            },
        }
    }
}

impl SegmentStore {
    /// Encodes the store as its payload.
    pub fn encode(&self) -> (r: Vec<u64>)
        requires
            self.wf(),
        ensures
            r@ == encode_store(self.segs(), self.next_spec()),
    {
        let mut r: Vec<u64> = Vec::new();
        r.push(self.next_master);
        r.push(self.segments.len() as u64);
        let ghost segs = self.segs();
        let mut i: usize = 0;
        while i < self.segments.len()
            invariant
                self.wf(),
                segs == self.segs(),
                0 <= i <= segs.len(),
                r@ == seq![self.next_master, segs.len() as u64] + encode_segs(segs.take(i as int)),
            decreases segs.len() - i,
        {
            let s = &self.segments[i];
            assert(segs[i as int] == s.model());
            let ghost r0 = r@;
            let flags: u64 = (if s.is_root { 1u64 } else { 0u64 }) + (if s.is_head { 2u64 } else { 0u64 });
            r.push(s.low);
            r.push(s.high);
            r.push(flags);
            r.push(s.parents.len() as u64);
            let mut j: usize = 0;
            while j < s.parents.len()
                invariant
                    0 <= j <= s.parents@.len(),
                    r@ == r0 + seq![s.low, s.high, flags, s.parents@.len() as u64] + s.parents@.take(j as int),
                decreases s.parents@.len() - j,
            {
                r.push(s.parents[j]);
                j = j + 1;
                assert(r@ =~= r0 + seq![s.low, s.high, flags, s.parents@.len() as u64] + s.parents@.take(j as int));
            }
            proof {
                assert(s.parents@.take(s.parents@.len() as int) =~= s.parents@);
                lemma_encode_snoc(segs, i as int);
                assert(r@ =~= seq![self.next_master, segs.len() as u64] + encode_segs(segs.take(i + 1)));
            }
            i = i + 1;
        }
        assert(segs.take(segs.len() as int) =~= segs);
        r
    }

    /// Decodes a payload: succeeds exactly when it is the encoding of a well-formed
    /// store, and then gives that store.
    pub fn decode(payload: &Vec<u64>) -> (r: Result<SegmentStore, LoadError>)
        ensures
            match decode_spec(payload@) {
                Some((segs, next)) => r is Ok && r->Ok_0.wf() && r->Ok_0.segs() == segs
                    && r->Ok_0.next_spec() == next,
                None => r == Err::<SegmentStore, LoadError>(LoadError::CorruptBundle),
            },
    {
        let len = payload.len();
        if len < 2 {
            return Err(LoadError::CorruptBundle);
        }
        let next = payload[0];
        let count = payload[1];
        let ghost w = payload@.subrange(2, len as int);
        let mut pos: usize = 2;
        let mut k: u64 = 0;
        let mut segs: Vec<Segment> = Vec::new();
        assert(payload@.subrange(2, len as int) == w);
        while k < count
            invariant
                len == payload@.len(),
                count == payload@[1],
                next == payload@[0],
                segs@.len() == k,
                forall|i: int| 0 <= i < segs@.len() ==> #[trigger] models(segs@)[i].parents.len() <= u64::MAX,
                2 <= pos <= len,
                0 <= k <= count,
                w == payload@.subrange(2, len as int),
                parse_segs(w, count as nat) == match parse_segs(
                    payload@.subrange(pos as int, len as int),
                    (count - k) as nat,
                ) {
                    Some(rest) => Some(models(segs@) + rest),
                    None => None,
                },
            decreases count - k,
        {
            let ghost rem_w = payload@.subrange(pos as int, len as int);
            let rem = len - pos;
            proof {
                if rem >= 4 {
                    assert(rem_w[2] == payload@[pos + 2]);
                    assert(rem_w[3] == payload@[pos + 3]);
                    assert(rem_w[0] == payload@[pos as int]);
                    assert(rem_w[1] == payload@[pos + 1]);
                }
            }
            if rem < 4 || payload[pos + 2] >= 4 || payload[pos + 3] > (rem - 4) as u64 {
                assert(parse_segs(rem_w, (count - k) as nat) is None);
                assert(parse_segs(w, count as nat) is None);
                assert(payload@[1] == count);
                assert(decode_spec(payload@) is None);
                return Err(LoadError::CorruptBundle);
            }
            let n = payload[pos + 3] as usize;
            let mut parents: Vec<u64> = Vec::new();
            let mut j: usize = 0;
            while j < n
                invariant
                    len == payload@.len(),
                    pos + 4 + n <= len,
                    0 <= j <= n,
                    parents@ == payload@.subrange(pos + 4, pos + 4 + j),
                decreases n - j,
            {
                parents.push(payload[pos + 4 + j]);
                j = j + 1;
                assert(parents@ =~= payload@.subrange(pos + 4, pos + 4 + j));
            }
            let flags = payload[pos + 2];
            let seg = Segment {
                low: payload[pos],
                high: payload[pos + 1],
                parents,
                is_root: flags % 2 == 1,
                is_head: flags >= 2,
            };
            let ghost m0 = models(segs@);
            segs.push(seg);
            proof {
                assert(rem_w.subrange(4, 4 + n as int) =~= seg.parents@);
                assert(rem_w.subrange(4 + n as int, rem_w.len() as int) =~= payload@.subrange(
                    pos + 4 + n,
                    len as int,
                ));
                assert(models(segs@) =~= m0.push(seg.model()));
                match parse_segs(payload@.subrange(pos + 4 + n, len as int), (count - k - 1) as nat) {
                    Some(rest) => {
                        assert(m0 + (seq![seg.model()] + rest) =~= models(segs@) + rest);
                    },
                    None => {},
                }
            }
            pos = pos + 4 + n;
            k = k + 1;
        }
        if pos != len {
            return Err(LoadError::CorruptBundle);
        }
        proof {
            assert(payload@.subrange(pos as int, len as int) =~= Seq::<u64>::empty());
            assert(models(segs@) + Seq::<SegmentModel>::empty() =~= models(segs@));
        }
        if !check_layout(&segs, next) || !check_parents(&segs) {
            return Err(LoadError::CorruptBundle);
        }
        proof {
            lemma_covers_all(models(segs@), next as nat);
        }
        Ok(SegmentStore { segments: segs, next_master: next })
    }
}

} // verus!
