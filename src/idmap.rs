use std::collections::HashMap;
use std::collections::HashSet;
use vstd::prelude::*;

verus! {

broadcast use vstd::std_specs::hash::group_hash_axioms;

/// First vertex of the non-master group: master vertices are `[0, NON_MASTER_START)`.
pub const NON_MASTER_START: u64 = 0x0100_0000_0000_0000;

/// Exclusive upper bound of the non-master group.
pub const NON_MASTER_END: u64 = 0xffff_ffff_ffff_ffff;

/// Content-derived identifier of a commit, as handed out by the repository.
#[derive(Clone, Copy, Debug, PartialEq, Eq, Structural, Hash)]
pub struct CommitId(pub u64);

/// Disjoint ranges of the vertex space that grow independently.
#[derive(Clone, Copy, Debug, PartialEq, Eq, Structural)]
pub enum Group {
    Master,
    NonMaster,
}

impl Group {
    pub open spec fn min_id_spec(self) -> u64 {
        match self {
            Group::Master => 0,
            Group::NonMaster => NON_MASTER_START,
        }
    }

    /// The smallest vertex of the group.
    pub fn min_id(self) -> (r: u64)
        ensures
            r == self.min_id_spec(),
    {
        match self {
            Group::Master => 0,
            Group::NonMaster => NON_MASTER_START,
        }
    }
}

/// Integrity violations detected when new assignments are inserted.
#[derive(Clone, Copy, Debug, PartialEq, Eq, Structural)]
pub enum IdMapError {
    DuplicateAssignment,
    NonMonotonicId,
}

/// Mathematical content of an IdMap: the commit of each vertex per group, and
/// the vertex of each commit.
pub struct IdMapModel {
    pub forward: Map<u64, u64>,
    pub master: Seq<u64>,
    pub non_master: Seq<u64>,
    /// Parent vertices of each master vertex.
    pub rows: Seq<Seq<u64>>,
}

/// One new assignment: `commit` gets `vertex`, whose parents are the vertices `parents`.
pub struct Assignment {
    pub commit: CommitId,
    pub vertex: u64,
    pub parents: Vec<u64>,
}

/// The effect of assigning vertex `v` to commit `c`: a commit gets a vertex at most
/// once, and a vertex must be the next free one of its group.
pub open spec fn assign_step(s: IdMapModel, c: u64, v: u64, ps: Seq<u64>) -> Result<
    IdMapModel,
    IdMapError,
> {
    if s.forward.contains_key(c) {
        Err(IdMapError::DuplicateAssignment)
    } else if v < NON_MASTER_START && v == s.master.len() {
        Ok(
            IdMapModel {
                forward: s.forward.insert(c, v),
                master: s.master.push(c),
                rows: s.rows.push(ps),
                ..s
            },
        )
    } else if NON_MASTER_START <= v && v < NON_MASTER_END && v - NON_MASTER_START
        == s.non_master.len() {
        Ok(IdMapModel { forward: s.forward.insert(c, v), non_master: s.non_master.push(c), ..s })
    } else {
        Err(IdMapError::NonMonotonicId)
    }
}

/// Assignments applied in order; the first failing one decides the error.
pub open spec fn assign_batch(s: IdMapModel, batch: Seq<Assignment>) -> Result<
    IdMapModel,
    IdMapError,
>
    decreases batch.len(),
{
    if batch.len() == 0 {
        Ok(s)
    } else {
        match assign_batch(s, batch.drop_last()) {
            Ok(t) => assign_step(t, batch.last().commit.0, batch.last().vertex, batch.last().parents@),
            Err(e) => Err(e),
        }
    }
}

/// The commit that holds vertex `v`, if any.
pub open spec fn commit_at(m: IdMapModel, v: u64) -> Option<u64> {
    if v < NON_MASTER_START {
        if v < m.master.len() {
            Some(m.master[v as int])
        } else {
            None
        }
    } else if v - NON_MASTER_START < m.non_master.len() {
        Some(m.non_master[v - NON_MASTER_START])
    } else {
        None
    }
}

pub proof fn lemma_batch_err_extends(s: IdMapModel, b: Seq<Assignment>, i: int)
    requires
        0 <= i <= b.len(),
        assign_batch(s, b.take(i)) is Err,
    ensures
        assign_batch(s, b) == assign_batch(s, b.take(i)),
    decreases b.len() - i,
{
    if i == b.len() {
        assert(b.take(i) =~= b);
    } else {
        assert(b.take(i + 1).drop_last() =~= b.take(i));
        lemma_batch_err_extends(s, b, i + 1);
    }
}

pub proof fn lemma_batch_ok_prefix(s: IdMapModel, b: Seq<Assignment>, i: int)
    requires
        0 <= i <= b.len(),
        assign_batch(s, b) is Ok,
    ensures
        assign_batch(s, b.take(i)) is Ok,
{
    if assign_batch(s, b.take(i)) is Err {
        lemma_batch_err_extends(s, b, i);
    }
}

/// After a successful batch, every earlier commit keeps its vertex and every commit of
/// the batch holds the vertex it was given.
pub proof fn lemma_batch_forward(s: IdMapModel, b: Seq<Assignment>)
    requires
        assign_batch(s, b) is Ok,
        s.rows.len() == s.master.len(),
    ensures
        forall|c: u64| #[trigger]
            s.forward.contains_key(c) ==> assign_batch(s, b)->Ok_0.forward.contains_key(c)
                && assign_batch(s, b)->Ok_0.forward[c] == s.forward[c],
        forall|k: int|
            0 <= k < b.len() ==> assign_batch(s, b)->Ok_0.forward.contains_key(#[trigger] b[k].commit.0)
                && assign_batch(s, b)->Ok_0.forward[b[k].commit.0] == b[k].vertex,
        assign_batch(s, b)->Ok_0.master.len() >= s.master.len(),
        forall|c: u64|
            #[trigger] assign_batch(s, b)->Ok_0.forward.contains_key(c) ==> s.forward.contains_key(c)
                || exists|k: int| 0 <= k < b.len() && b[k].commit.0 == c,
        assign_batch(s, b)->Ok_0.rows.len() == assign_batch(s, b)->Ok_0.master.len(),
        forall|v: int| 0 <= v < s.rows.len() ==> #[trigger] assign_batch(s, b)->Ok_0.rows[v] == s.rows[v],
        (forall|k: int| 0 <= k < b.len() ==> #[trigger] b[k].vertex < NON_MASTER_START) ==> {
            &&& assign_batch(s, b)->Ok_0.master.len() == s.master.len() + b.len()
            &&& forall|k: int|
                0 <= k < b.len() ==> assign_batch(s, b)->Ok_0.rows[s.master.len() + k]
                    == (#[trigger] b[k]).parents@
        },
    decreases b.len(),
{
    if b.len() > 0 {
        let p = b.drop_last();
        lemma_batch_forward(s, p);
        let t = assign_batch(s, p)->Ok_0;
        if forall|k: int| 0 <= k < b.len() ==> #[trigger] b[k].vertex < NON_MASTER_START {
            assert forall|k: int| 0 <= k < p.len() implies #[trigger] p[k].vertex < NON_MASTER_START by {
                assert(p[k] == b[k]);
            }
            assert(b[b.len() - 1].vertex < NON_MASTER_START);
            assert forall|k: int|
                0 <= k < b.len() implies assign_batch(s, b)->Ok_0.rows[s.master.len() + k]
                    == (#[trigger] b[k]).parents@ by {
                if k < b.len() - 1 {
                    assert(p[k] == b[k]);
                }
            }
        }
        assert forall|k: int| 0 <= k < b.len() implies assign_batch(s, b)->Ok_0.forward.contains_key(
            #[trigger] b[k].commit.0,
        ) && assign_batch(s, b)->Ok_0.forward[b[k].commit.0] == b[k].vertex by {
            if k < b.len() - 1 {
                assert(p[k] == b[k]);
            }
        }
        assert forall|c: u64|
            #[trigger] assign_batch(s, b)->Ok_0.forward.contains_key(c) implies s.forward.contains_key(c)
                || exists|k: int| 0 <= k < b.len() && b[k].commit.0 == c by {
            if c == b.last().commit.0 {
                assert(b[b.len() - 1].commit.0 == c);
            } else if !s.forward.contains_key(c) {
                assert(t.forward.contains_key(c));
                let k = choose|k: int| 0 <= k < p.len() && p[k].commit.0 == c;
                assert(b[k] == p[k]);
            }
        }
    }
}

/// A batch of fresh, distinct commits on consecutive master vertices succeeds.
pub proof fn lemma_batch_ok(s: IdMapModel, b: Seq<Assignment>)
    requires
        forall|k: int|
            0 <= k < b.len() ==> (#[trigger] b[k]).vertex == s.master.len() + k
                && b[k].vertex < NON_MASTER_START && !s.forward.contains_key(b[k].commit.0),
        forall|k1: int, k2: int|
            0 <= k1 < k2 < b.len() ==> (#[trigger] b[k1]).commit != (#[trigger] b[k2]).commit,
    ensures
        assign_batch(s, b) is Ok,
        assign_batch(s, b)->Ok_0.master.len() == s.master.len() + b.len(),
        forall|c: u64|
            #[trigger] assign_batch(s, b)->Ok_0.forward.contains_key(c) <==> (s.forward.contains_key(c)
                || exists|k: int| 0 <= k < b.len() && b[k].commit.0 == c),
    decreases b.len(),
{
    if b.len() > 0 {
        let p = b.drop_last();
        assert forall|k: int| 0 <= k < p.len() implies (#[trigger] p[k]).vertex == s.master.len() + k
            && p[k].vertex < NON_MASTER_START && !s.forward.contains_key(p[k].commit.0) by {
            assert(p[k] == b[k]);
        }
        assert forall|k1: int, k2: int|
            0 <= k1 < k2 < p.len() implies (#[trigger] p[k1]).commit != (#[trigger] p[k2]).commit by {
            assert(p[k1] == b[k1] && p[k2] == b[k2]);
        }
        lemma_batch_ok(s, p);
        let t = assign_batch(s, p)->Ok_0;
        let l = b.last();
        assert(b[b.len() - 1] == l);
        assert(!t.forward.contains_key(l.commit.0)) by {
            if t.forward.contains_key(l.commit.0) {
                let k = choose|k: int| 0 <= k < p.len() && p[k].commit.0 == l.commit.0;
                assert(p[k] == b[k]);
            }
        }
        assert forall|c: u64|
            #[trigger] assign_batch(s, b)->Ok_0.forward.contains_key(c) <==> (s.forward.contains_key(c)
                || exists|k: int| 0 <= k < b.len() && b[k].commit.0 == c) by {
            if exists|k: int| 0 <= k < b.len() && b[k].commit.0 == c {
                let k = choose|k: int| 0 <= k < b.len() && b[k].commit.0 == c;
                if k < b.len() - 1 {
                    assert(p[k] == b[k]);
                }
            }
            if exists|k: int| 0 <= k < p.len() && p[k].commit.0 == c {
                let k = choose|k: int| 0 <= k < p.len() && p[k].commit.0 == c;
                assert(p[k] == b[k]);
            }
        }
    }
}

/// A copy of a list of vertices.
pub(crate) fn copy_ids(v: &Vec<u64>) -> (r: Vec<u64>)
    ensures
        r@ == v@,
        r@.len() <= u64::MAX,
{
    let mut r: Vec<u64> = Vec::new();
    let mut i: usize = 0;
    while i < v.len()
        invariant
            0 <= i <= v@.len(),
            r@ == v@.take(i as int),
        decreases v@.len() - i,
    {
        r.push(v[i]);
        i = i + 1;
        assert(r@ =~= v@.take(i as int));
    }
    assert(v@.take(v@.len() as int) =~= v@);
    r
}

/// No element occurs twice.
pub open spec fn distinct(s: Seq<u64>) -> bool {
    forall|a: int, b: int| 0 <= a < b < s.len() ==> #[trigger] s[a] != #[trigger] s[b]
}

/// Parent tables in which every parent lies below its child.
pub open spec fn topological(t: Seq<Seq<u64>>) -> bool {
    forall|v: int, k: int| 0 <= v < t.len() && 0 <= k < t[v].len() ==> #[trigger] t[v][k] < v
}

/// The parts of a well-formed IdMap whose parent rows are topological.
pub open spec fn parts_ok(master: Seq<u64>, rows: Seq<Seq<u64>>, non_master: Seq<u64>, history: Seq<u64>) -> bool {
    &&& rows.len() == master.len()
    &&& topological(rows)
    &&& master.len() <= NON_MASTER_START
    &&& non_master.len() <= NON_MASTER_END - NON_MASTER_START
    &&& distinct(master + non_master)
    &&& history.len() >= 1
    &&& history.last() == master.len()
    &&& forall|k: int| 0 <= k < history.len() ==> #[trigger] history[k] <= master.len()
}

/// The parts of a well-formed IdMap with topological rows always restore it.
pub proof fn lemma_parts_ok(m: IdMap)
    requires
        m.wf(),
        topological(m@.rows),
    ensures
        parts_ok(m@.master, m@.rows, m@.non_master, m.history_spec()),
{
    let all = m@.master + m@.non_master;
    let l = m@.master.len() as int;
    assert forall|a: int, b: int| 0 <= a < b < all.len() implies #[trigger] all[a] != #[trigger] all[b] by {
        if all[a] == all[b] {
            if b < l {
                assert(m.forward@.contains_key(m.master@[a]));
            assert(m.forward@[m.master@[a]] == a);
            } else if a < l {
                assert(m.forward@.contains_key(m.non_master@[b - l]));
            assert(m.forward@[m.non_master@[b - l]] == NON_MASTER_START + (b - l));
                assert(m.forward@.contains_key(m.master@[a]));
            assert(m.forward@[m.master@[a]] == a);
            } else {
                assert(m.forward@.contains_key(m.non_master@[b - l]));
            assert(m.forward@[m.non_master@[b - l]] == NON_MASTER_START + (b - l));
                assert(m.forward@.contains_key(m.non_master@[a - l]));
            assert(m.forward@[m.non_master@[a - l]] == NON_MASTER_START + (a - l));
            }
        }
    }
    assert(m.history@.last() == m@.master.len());
}

/// Restoring an IdMap from the parts of another gives back the same IdMap: the same
/// mappings both ways, rows, version and history.
pub proof fn lemma_restore_round_trip(m: IdMap, r: IdMap)
    requires
        m.wf(),
        r.wf(),
        r@.master == m@.master,
        r@.non_master == m@.non_master,
        r@.rows == m@.rows,
        r.history_spec() == m.history_spec(),
    ensures
        r@ == m@,
        r.version_spec() == m.version_spec(),
        forall|k: nat| k <= m.version_spec() ==> #[trigger] r.master_len_at_spec(k) == m.master_len_at_spec(k),
{
    assert forall|c: u64| #[trigger] r@.forward.contains_key(c) implies m@.forward.contains_key(c)
        && m@.forward[c] == r@.forward[c] by {
        let v = r@.forward[c];
        if v < NON_MASTER_START {
            assert(m.forward@.contains_key(m.master@[v as int]));
            assert(m.forward@[m.master@[v as int]] == v);
        } else {
            assert(m.forward@.contains_key(m.non_master@[v - NON_MASTER_START]));
            assert(m.forward@[m.non_master@[v - NON_MASTER_START]] == NON_MASTER_START + (v - NON_MASTER_START));
        }
    }
    assert forall|c: u64| #[trigger] m@.forward.contains_key(c) implies r@.forward.contains_key(c) by {
        let v = m@.forward[c];
        if v < NON_MASTER_START {
            assert(r.forward@.contains_key(r.master@[v as int]));
            assert(r.forward@[r.master@[v as int]] == v);
        } else {
            assert(r.forward@.contains_key(r.non_master@[v - NON_MASTER_START]));
            assert(r.forward@[r.non_master@[v - NON_MASTER_START]] == NON_MASTER_START + (v - NON_MASTER_START));
        }
    }
    assert(r@.forward =~= m@.forward);
}

/// Bidirectional map between commits and vertices, versioned by batch.
pub struct IdMap {
    pub(crate) forward: HashMap<u64, u64>,
    pub(crate) master: Vec<u64>,
    pub(crate) non_master: Vec<u64>,
    /// Parent vertices of each master vertex.
    pub(crate) rows: Vec<Vec<u64>>,
    /// Number of master vertices at each version; the last entry is the current one.
    pub(crate) history: Vec<u64>,
}

impl IdMap {
    pub open(crate) spec fn view(&self) -> IdMapModel {
        IdMapModel {
            forward: self.forward@,
            master: self.master@,
            non_master: self.non_master@,
            rows: self.rows@.map_values(|r: Vec<u64>| r@),
        }
    }

    pub open(crate) spec fn history_spec(&self) -> Seq<u64> {
        self.history@
    }

    pub open(crate) spec fn version_spec(&self) -> nat {
        (self.history@.len() - 1) as nat
    }

    /// Number of master vertices that version `v` resolves.
    pub open(crate) spec fn master_len_at_spec(&self, v: nat) -> u64 {
        self.history@[v as int]
    }

    /// The two directions agree and each group stays inside its range.
    pub open(crate) spec fn wf_entries(&self) -> bool {
        &&& forall|c: u64| #[trigger]
            self.forward@.contains_key(c) ==> {
                let v = self.forward@[c];
                ||| (v < NON_MASTER_START && v < self.master@.len() && self.master@[v as int]
                    == c)
                ||| (NON_MASTER_START <= v && v - NON_MASTER_START < self.non_master@.len()
                    && self.non_master@[v - NON_MASTER_START] == c)
            }
        &&& forall|i: int|
            0 <= i < self.master@.len() ==> #[trigger] self.forward@.contains_key(
                self.master@[i],
            ) && self.forward@[self.master@[i]] == i
        &&& forall|i: int|
            0 <= i < self.non_master@.len() ==> #[trigger] self.forward@.contains_key(
                self.non_master@[i],
            ) && self.forward@[self.non_master@[i]] == NON_MASTER_START + i
        &&& self.master@.len() <= NON_MASTER_START
        &&& self.rows@.len() == self.master@.len()
        &&& self.non_master@.len() <= NON_MASTER_END - NON_MASTER_START
    }

    pub open(crate) spec fn wf(&self) -> bool {
        &&& self.wf_entries()
        &&& self.history@.len() >= 1
        &&& self.history@.last() == self.master@.len()
        &&& forall|k: int| 0 <= k < self.history@.len() ==> #[trigger] self.history@[k] <= self.master@.len()
    }

    /// An IdMap with no assignment, at version 0.
    pub fn new() -> (r: Self)
        ensures
            r.wf(),
            r@.forward.is_empty(),
            r@.master.len() == 0,
            r@.non_master.len() == 0,
            r@.rows.len() == 0,
            r.version_spec() == 0,
    {
        let r = IdMap {
            forward: HashMap::new(),
            master: Vec::new(),
            non_master: Vec::new(),
            rows: Vec::new(),
            history: vec![0],
        };
        assert(r.history@.last() == 0);
        r
    }

    /// The vertex assigned to `c`, if any.
    pub fn lookup(&self, c: CommitId) -> (r: Option<u64>)
        requires
            self.wf(),
        ensures
            r == (if self@.forward.contains_key(c.0) {
                Some(self@.forward[c.0])
            } else {
                None
            }),
    {
        match self.forward.get(&c.0) {
            Some(v) => Some(*v),
            None => None,
        }
    }

    /// The commit that holds vertex `v`, if any.
    pub fn lookup_reverse(&self, v: u64) -> (r: Option<CommitId>)
        requires
            self.wf(),
        ensures
            r == (match commit_at(self@, v) {
                Some(c) => Some(CommitId(c)),
                None => None,
            }),
    {
        if v < NON_MASTER_START {
            if v < self.master.len() as u64 {
                Some(CommitId(self.master[v as usize]))
            } else {
                None
            }
        } else if v - NON_MASTER_START < self.non_master.len() as u64 {
            Some(CommitId(self.non_master[(v - NON_MASTER_START) as usize]))
        } else {
            None
        }
    }

    /// The next vertex that an assignment in group `g` must use.
    pub fn next_free_id(&self, g: Group) -> (r: u64)
        requires
            self.wf(),
        ensures
            r == g.min_id_spec() + match g {
                Group::Master => self@.master.len(),
                Group::NonMaster => self@.non_master.len(),
            },
    {
        match g {
            Group::Master => self.master.len() as u64,
            Group::NonMaster => NON_MASTER_START + self.non_master.len() as u64,
        }
    }

    /// Number of successful batches so far.
    pub fn current_version(&self) -> (r: u64)
        requires
            self.wf(),
        ensures
            r == self.version_spec(),
    {
        (self.history.len() - 1) as u64
    }

    /// The commits of the master group, in vertex order.
    pub fn master_commits(&self) -> (r: &Vec<u64>)
        ensures
            r@ == self@.master,
    {
        &self.master
    }

    /// The commits of the non-master group, in vertex order.
    pub fn non_master_commits(&self) -> (r: &Vec<u64>)
        ensures
            r@ == self@.non_master,
    {
        &self.non_master
    }

    /// Number of master vertices at each version, oldest first.
    pub fn history(&self) -> (r: &Vec<u64>)
        ensures
            r@ == self.history_spec(),
    {
        &self.history
    }

    /// The IdMap with the given parts, when they form one: rows for every master commit,
    /// each listing vertices below its own, each group within its range, no commit twice, and a history that starts somewhere,
    /// never exceeds the master group and ends at its size.
    pub fn restore(master: Vec<u64>, rows: Vec<Vec<u64>>, non_master: Vec<u64>, history: Vec<u64>) -> (r: Option<IdMap>)
        ensures
            r is Some <==> parts_ok(master@, rows@.map_values(|x: Vec<u64>| x@), non_master@, history@),
            r matches Some(m) ==> m.wf() && m@.master == master@ && m@.non_master == non_master@
                && m@.rows == rows@.map_values(|x: Vec<u64>| x@) && m.history_spec() == history@,
    {
        if rows.len() != master.len() || master.len() as u64 > NON_MASTER_START
            || non_master.len() as u64 > NON_MASTER_END - NON_MASTER_START || history.len() == 0
            || history[history.len() - 1] != master.len() as u64 {
            return None;
        }
        let mut k: usize = 0;
        while k < history.len()
            invariant
                0 <= k <= history@.len(),
                forall|k2: int| 0 <= k2 < k ==> #[trigger] history@[k2] <= master@.len(),
            decreases history@.len() - k,
        {
            if history[k] > master.len() as u64 {
                return None;
            }
            k = k + 1;
        }
        let ghost rv = rows@.map_values(|x: Vec<u64>| x@);
        let mut v: usize = 0;
        while v < rows.len()
            invariant
                rv == rows@.map_values(|x: Vec<u64>| x@),
                0 <= v <= rows@.len(),
                forall|v2: int, k2: int| 0 <= v2 < v && 0 <= k2 < rv[v2].len() ==> #[trigger] rv[v2][k2] < v2,
            decreases rows@.len() - v,
        {
            let row = &rows[v];
            assert(rv[v as int] == row@);
            let mut k: usize = 0;
            while k < row.len()
                invariant
                    rv == rows@.map_values(|x: Vec<u64>| x@),
                    0 <= v < rows@.len(),
                    rv[v as int] == row@,
                    0 <= k <= row@.len(),
                    forall|v2: int, k2: int| 0 <= v2 < v && 0 <= k2 < rv[v2].len() ==> #[trigger] rv[v2][k2] < v2,
                    forall|k2: int| 0 <= k2 < k ==> #[trigger] row@[k2] < v,
                decreases row@.len() - k,
            {
                if row[k] >= v as u64 {
                    assert(rv[v as int][k as int] == row@[k as int]);
                    return None;
                }
                k = k + 1;
            }
            v = v + 1;
        }
        let ghost all = master@ + non_master@;
        let mut forward: HashMap<u64, u64> = HashMap::new();
        let mut i: usize = 0;
        while i < master.len()
            invariant
                all == master@ + non_master@,
                master@.len() <= NON_MASTER_START,
                0 <= i <= master@.len(),
                forall|a: int, b: int| 0 <= a < b < i ==> #[trigger] all[a] != #[trigger] all[b],
                forall|c: u64| #[trigger] forward@.contains_key(c) ==> forward@[c] < i && master@[forward@[c] as int] == c,
                forall|j: int| 0 <= j < i ==> #[trigger] forward@.contains_key(master@[j]) && forward@[master@[j]] == j,
            decreases master@.len() - i,
        {
            let c = master[i];
            if forward.contains_key(&c) {
                proof {
                    let j = forward@[c] as int;
                    assert(all[j] == all[i as int]);
                    assert(!distinct(all));
                }
                return None;
            }
            forward.insert(c, i as u64);
            proof {
                assert forall|a: int, b: int| 0 <= a < b < i + 1 implies #[trigger] all[a] != #[trigger] all[b] by {
                    if b == i && all[a] == all[b] {
                        assert(forward@.contains_key(master@[a]));
                    }
                }
            }
            i = i + 1;
        }
        let mut j: usize = 0;
        while j < non_master.len()
            invariant
                all == master@ + non_master@,
                master@.len() <= NON_MASTER_START,
                non_master@.len() <= NON_MASTER_END - NON_MASTER_START,
                0 <= j <= non_master@.len(),
                forall|a: int, b: int| 0 <= a < b < master@.len() + j ==> #[trigger] all[a] != #[trigger] all[b],
                forall|c: u64| #[trigger] forward@.contains_key(c) ==> {
                    let v = forward@[c];
                    ||| (v < master@.len() && master@[v as int] == c)
                    ||| (NON_MASTER_START <= v && v - NON_MASTER_START < j && non_master@[v - NON_MASTER_START] == c)
                },
                forall|i2: int| 0 <= i2 < master@.len() ==> #[trigger] forward@.contains_key(master@[i2]) && forward@[master@[i2]] == i2,
                forall|i2: int| 0 <= i2 < j ==> #[trigger] forward@.contains_key(non_master@[i2]) && forward@[non_master@[i2]] == NON_MASTER_START + i2,
            decreases non_master@.len() - j,
        {
            let c = non_master[j];
            let ghost pos = master@.len() + j;
            assert(all[pos] == c);
            if forward.contains_key(&c) {
                proof {
                    let v = forward@[c];
                    if v < master@.len() {
                        assert(all[v as int] == c);
                    } else {
                        assert(all[master@.len() + (v - NON_MASTER_START)] == c);
                    }
                    assert(!distinct(all));
                }
                return None;
            }
            let ghost f0 = forward@;
            forward.insert(c, NON_MASTER_START + j as u64);
            proof {
                assert forall|i2: int| 0 <= i2 < j + 1 implies #[trigger] forward@.contains_key(non_master@[i2])
                    && forward@[non_master@[i2]] == NON_MASTER_START + i2 by {
                    if i2 < j {
                        assert(f0.contains_key(non_master@[i2]));
                    }
                }
                assert forall|i2: int| 0 <= i2 < master@.len() implies #[trigger] forward@.contains_key(master@[i2])
                    && forward@[master@[i2]] == i2 by {
                    assert(f0.contains_key(master@[i2]));
                }
                assert forall|a: int, b: int| 0 <= a < b < master@.len() + j + 1 implies #[trigger] all[a] != #[trigger] all[b] by {
                    if b == pos && all[a] == all[b] {
                        if a < master@.len() {
                            assert(forward@.contains_key(master@[a]));
                        } else {
                            assert(forward@.contains_key(non_master@[a - master@.len()]));
                        }
                    }
                }
            }
            j = j + 1;
        }
        let m = IdMap { forward, master, non_master, rows, history };
        assert(m@.rows =~= m.rows@.map_values(|x: Vec<u64>| x@));
        Some(m)
    }

    /// Parent vertices of every master vertex, in vertex order.
    pub fn parent_rows(&self) -> (r: &Vec<Vec<u64>>)
        requires
            self.wf(),
        ensures
            r@.map_values(|x: Vec<u64>| x@) == self@.rows,
            r@.len() == self@.master.len(),
    {
        &self.rows
    }

    /// Number of master vertices that version `version` resolves, if that version exists.
    pub fn master_len_at(&self, version: u64) -> (r: Option<u64>)
        requires
            self.wf(),
        ensures
            r == (if version <= self.version_spec() {
                Some(self.master_len_at_spec(version as nat))
            } else {
                None
            }),
    {
        if version < self.history.len() as u64 {
            Some(self.history[version as usize])
        } else {
            None
        }
    }

    /// Inserts `batch` in order, all or nothing: on success the version goes up by
    /// one; on the first assignment that `assign_step` refuses, nothing changes.
    pub fn insert_batch(&mut self, batch: &Vec<Assignment>) -> (r: Result<(), IdMapError>)
        requires
            old(self).wf(),
        ensures
            final(self).wf(),
            match assign_batch(old(self)@, batch@) {
                Ok(m) => r is Ok && final(self)@ == m && final(self).version_spec()
                    == old(self).version_spec() + 1 && forall|k: nat|
                    k <= old(self).version_spec() ==> #[trigger] final(self).master_len_at_spec(k)
                    == old(self).master_len_at_spec(k),
                Err(e) => r == Err::<(), IdMapError>(e) && *final(self) == *old(self),
            },
    {
        let ghost s0 = self@;
        let mut seen: HashSet<u64> = HashSet::new();
        let mut next_master: u64 = self.master.len() as u64;
        let mut next_non_master: u64 = NON_MASTER_START + self.non_master.len() as u64;
        let ghost mut g = s0;
        let mut i: usize = 0;
        while i < batch.len()
            invariant
                self.wf(),
                self@ == s0,
                0 <= i <= batch@.len(),
                assign_batch(s0, batch@.take(i as int)) == Ok::<IdMapModel, IdMapError>(g),
                forall|c: u64|
                    #[trigger] g.forward.contains_key(c) <==> (s0.forward.contains_key(c)
                        || seen@.contains(c)),
                next_master == g.master.len(),
                next_non_master == NON_MASTER_START + g.non_master.len(),
                g.master.len() <= NON_MASTER_START,
                g.non_master.len() <= NON_MASTER_END - NON_MASTER_START,
            decreases batch@.len() - i,
        {
            let c = batch[i].commit;
            let v = batch[i].vertex;
            proof {
                assert(batch@.take(i + 1).drop_last() =~= batch@.take(i as int));
                assert(batch@.take(i + 1).last() == batch@[i as int]);
            }
            if self.forward.contains_key(&c.0) || seen.contains(&c.0) {
                proof {
                    lemma_batch_err_extends(s0, batch@, i + 1);
                }
                return Err(IdMapError::DuplicateAssignment);
            }
            if v < NON_MASTER_START && v == next_master {
                next_master = next_master + 1;
            } else if NON_MASTER_START <= v && v < NON_MASTER_END && v == next_non_master {
                next_non_master = next_non_master + 1;
            } else {
                proof {
                    lemma_batch_err_extends(s0, batch@, i + 1);
                }
                return Err(IdMapError::NonMonotonicId);
            }
            seen.insert(c.0);
            proof {
                g = assign_step(g, c.0, v, batch@[i as int].parents@)->Ok_0;
            }
            i = i + 1;
        }
        assert(batch@.take(batch@.len() as int) =~= batch@);
        let ghost history0 = self.history@;
        let mut j: usize = 0;
        while j < batch.len()
            invariant
                self.wf_entries(),
                self.history@ == history0,
                self@.master.len() >= s0.master.len(),
                0 <= j <= batch@.len(),
                assign_batch(s0, batch@) == Ok::<IdMapModel, IdMapError>(g),
                assign_batch(s0, batch@.take(j as int)) == Ok::<IdMapModel, IdMapError>(self@),
            decreases batch@.len() - j,
        {
            let c = batch[j].commit;
            let v = batch[j].vertex;
            let ps = copy_ids(&batch[j].parents);
            proof {
                assert(batch@.take(j + 1).drop_last() =~= batch@.take(j as int));
                assert(batch@.take(j + 1).last() == batch@[j as int]);
                lemma_batch_ok_prefix(s0, batch@, j + 1);
            }
            self.push_entry(c.0, v, ps);
            j = j + 1;
        }
        assert(batch@.take(batch@.len() as int) =~= batch@);
        let len = self.master.len() as u64;
        self.history.push(len);
        assert(forall|k: int|
            0 <= k < history0.len() ==> #[trigger] self.history@[k] == history0[k]);
        Ok(())
    }

    fn push_entry(&mut self, c: u64, v: u64, ps: Vec<u64>)
        requires
            old(self).wf_entries(),
            assign_step(old(self)@, c, v, ps@) is Ok,
        ensures
            final(self).wf_entries(),
            final(self)@ == assign_step(old(self)@, c, v, ps@)->Ok_0,
            final(self).history@ == old(self).history@,
    {
        let ghost s = self@;
        self.forward.insert(c, v);
        if v < NON_MASTER_START {
            self.master.push(c);
            self.rows.push(ps);
            assert(self.rows@.map_values(|r: Vec<u64>| r@) =~= s.rows.push(ps@));
        } else {
            self.non_master.push(c);
        }
        assert(self@ =~= assign_step(s, c, v, ps@)->Ok_0);
    }
}

} // verus!
