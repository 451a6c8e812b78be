use crate::idmap::{
    lemma_batch_forward, lemma_batch_ok, topological, Assignment, CommitId, Group, IdMap, IdMapError,
    NON_MASTER_START,
};
use std::collections::HashMap;
use std::collections::HashSet;
use vstd::set_lib::{lemma_int_range, lemma_subset_equality, set_int_range};
use vstd::prelude::*;

verus! {

broadcast use vstd::std_specs::hash::group_hash_axioms;

/// Why an incremental build failed.
#[derive(Clone, Copy, Debug, PartialEq, Eq, Structural)]
pub enum BuildError {
    /// Some discovered commit has a parent that is neither indexed nor discovered.
    UnresolvedParent,
    DuplicateAssignment,
    NonMonotonicId,
}

/// A commit found during discovery, with its parents in order.
pub struct Fetched {
    pub commit: CommitId,
    pub parents: Vec<CommitId>,
}

impl Fetched {
    pub open spec fn parent_ids(&self) -> Seq<u64> {
        self.parents@.map_values(|c: CommitId| c.0)
    }
}

/// Some assignment of `b` is for commit `c`.
pub open spec fn in_batch(b: Seq<Assignment>, c: u64) -> bool {
    exists|k: int| 0 <= k < b.len() && #[trigger] b[k].commit.0 == c
}

fn error_of(e: IdMapError) -> (r: BuildError)
    ensures
        e == IdMapError::DuplicateAssignment ==> r == BuildError::DuplicateAssignment,
        e == IdMapError::NonMonotonicId ==> r == BuildError::NonMonotonicId,
{
    match e {
        IdMapError::DuplicateAssignment => BuildError::DuplicateAssignment,
        IdMapError::NonMonotonicId => BuildError::NonMonotonicId,
    }
}

/// The vertex of parent `p`: its master vertex in `m`, else the one given in this batch.
pub open spec fn resolve(m: Map<u64, u64>, local: Map<u64, u64>, p: u64) -> u64 {
    if m.contains_key(p) && m[p] < NON_MASTER_START {
        m[p]
    } else {
        local[p]
    }
}

/// Entry `j` of the row of `b[k]` is the vertex of parent `p`: an earlier master vertex,
/// or the vertex of an earlier assignment of the batch.
pub open spec fn row_entry_ok(m: Map<u64, u64>, b: Seq<Assignment>, k: int, j: int, p: u64) -> bool {
    ||| (m.contains_key(p) && m[p] < NON_MASTER_START && b[k].parents@[j] == m[p])
    ||| exists|k2: int| 0 <= k2 < k && b[k2].commit.0 == p && b[k].parents@[j] == b[k2].vertex
}

/// Every parent of `f` has a master vertex in `m` or a vertex in this batch.
pub open spec fn all_resolvable(m: Map<u64, u64>, local: Map<u64, u64>, f: Fetched) -> bool {
    forall|j: int|
        0 <= j < f.parent_ids().len() ==> (m.contains_key(#[trigger] f.parent_ids()[j])
            && m[f.parent_ids()[j]] < NON_MASTER_START) || local.contains_key(f.parent_ids()[j])
}

/// Some parent of `f` has neither a master vertex in `m` nor an assignment in `b`.
pub open spec fn blocked(m: Map<u64, u64>, b: Seq<Assignment>, f: Fetched) -> bool {
    exists|j: int|
        0 <= j < f.parent_ids().len() && !(m.contains_key(f.parent_ids()[j]) && m[f.parent_ids()[j]]
            < NON_MASTER_START) && !in_batch(b, #[trigger] f.parent_ids()[j])
}

/// The vertices of the parents of `f`, if every parent has one.
fn resolve_parents(idmap: &IdMap, local: &HashMap<u64, u64>, f: &Fetched) -> (r: Option<
    Vec<u64>,
>)
    requires
        idmap.wf(),
    ensures
        r is Some <==> forall|j: int|
            0 <= j < f.parent_ids().len() ==> (idmap@.forward.contains_key(
                #[trigger] f.parent_ids()[j],
            ) && idmap@.forward[f.parent_ids()[j]] < NON_MASTER_START)
                || local@.contains_key(f.parent_ids()[j]),
        r is Some ==> r->Some_0@.len() == f.parent_ids().len() && forall|j: int|
            0 <= j < f.parent_ids().len() ==> #[trigger] r->Some_0@[j] == resolve(
                idmap@.forward,
                local@,
                f.parent_ids()[j],
            ),
{
    let mut row: Vec<u64> = Vec::new();
    let mut j: usize = 0;
    while j < f.parents.len()
        invariant
            idmap.wf(),
            0 <= j <= f.parents@.len(),
            row@.len() == j,
            forall|j2: int|
                0 <= j2 < j ==> (idmap@.forward.contains_key(#[trigger] f.parent_ids()[j2])
                    && idmap@.forward[f.parent_ids()[j2]] < NON_MASTER_START) || local@.contains_key(
                    f.parent_ids()[j2],
                ),
            forall|j2: int|
                0 <= j2 < j ==> #[trigger] row@[j2] == resolve(
                    idmap@.forward,
                    local@,
                    f.parent_ids()[j2],
                ),
        decreases f.parents@.len() - j,
    {
        let p = f.parents[j].0;
        assert(f.parent_ids()[j as int] == p);
        let known = match idmap.lookup(CommitId(p)) {
            Some(v) => if v < NON_MASTER_START {
                Some(v)
            } else {
                None
            },
            None => None,
        };
        match known {
            Some(v) => row.push(v),
            None => match local.get(&p) {
                Some(v) => row.push(*v),
                None => {
                    return None;
                },
            },
        }
        j = j + 1;
    }
    Some(row)
}

/// Every discovered commit has a master vertex.
pub open spec fn all_assigned(m: Map<u64, u64>, found: Seq<Fetched>) -> bool {
    forall|i: int| 0 <= i < found.len() ==> m.contains_key(#[trigger] found[i].commit.0)
}

/// The vertices that `m` gives to `ps`, in order.
pub open spec fn vertices_of(m: Map<u64, u64>, ps: Seq<u64>) -> Seq<u64> {
    ps.map_values(|p: u64| m[p])
}

/// `p` has a master vertex in `m`, or is one of the discovered commits.
pub open spec fn parent_known(m: Map<u64, u64>, found: Seq<Fetched>, p: u64) -> bool {
    ||| (m.contains_key(p) && m[p] < NON_MASTER_START)
    ||| exists|i2: int| 0 <= i2 < found.len() && #[trigger] found[i2].commit.0 == p
}

/// Discovered commits are new to `m` and listed once each, each of their parents is
/// known, and the parent relation among them has no cycle: `rank` decreases from a
/// commit to each of its discovered parents.
pub open spec fn buildable(m: Map<u64, u64>, found: Seq<Fetched>) -> bool {
    &&& forall|i: int, j: int|
        0 <= i < found.len() && 0 <= j < found[i].parent_ids().len() ==> parent_known(
            m,
            found,
            #[trigger] found[i].parent_ids()[j],
        )
    &&& fresh_distinct(m, found)
    &&& exists|rank: spec_fn(int) -> nat| #[trigger] ranked(found, rank)
}

/// `rank` decreases from each discovered commit to each of its discovered parents.
pub open spec fn ranked(found: Seq<Fetched>, rank: spec_fn(int) -> nat) -> bool {
    forall|i: int, j: int, i2: int|
        #![trigger found[i].parent_ids()[j], found[i2].commit]
        0 <= i < found.len() && 0 <= j < found[i].parent_ids().len() && 0 <= i2 < found.len()
            && found[i2].commit.0 == found[i].parent_ids()[j] ==> rank(i2) < rank(i)
}

proof fn lemma_min_rank(done: Seq<bool>, n: int, rank: spec_fn(int) -> nat, x0: int) -> (i: int)
    requires
        0 <= x0 < n <= done.len(),
        !done[x0],
    ensures
        0 <= i < n,
        !done[i],
        forall|y: int| 0 <= y < n && !done[y] ==> rank(i) <= #[trigger] rank(y),
    decreases rank(x0),
{
    if exists|y: int| 0 <= y < n && !done[y] && #[trigger] rank(y) < rank(x0) {
        let y = choose|y: int| 0 <= y < n && !done[y] && #[trigger] rank(y) < rank(x0);
        lemma_min_rank(done, n, rank, y)
    } else {
        x0
    }
}

/// What a successful `assign_new` does to the IdMap `o`, giving `f`: earlier mappings and
/// rows stay; each discovered commit (listed once) gets a new master vertex above all
/// earlier ones, every parent has a smaller vertex, the new vertex's row holds its
/// parents' vertices, and a commit discovered earlier but numbered later was still
/// waiting for a parent when the later-discovered one was numbered.
pub open spec fn assigned(o: IdMap, f: IdMap, found: Seq<Fetched>) -> bool {
        let base = o@.master.len();
        let m = f@.forward;
        &&& f@.master.len() == base + found.len()
        &&& found.len() == 0 ==> f == o
        &&& found.len() > 0 ==> f.version_spec() == o.version_spec()
            + 1
        &&& forall|c: u64| #[trigger]
            o@.forward.contains_key(c) ==> m.contains_key(c) && m[c]
                == o@.forward[c]
        &&& forall|v: int|
            0 <= v < base ==> #[trigger] f@.rows[v] == o@.rows[v]
        &&& all_assigned(m, found)
        &&& forall|i: int, j: int|
            0 <= i < found.len() && 0 <= j < found[i].parent_ids().len() ==> m.contains_key(
                #[trigger] found[i].parent_ids()[j],
            ) && m[found[i].parent_ids()[j]] < m[found[i].commit.0]
        &&& forall|c: u64| #[trigger]
            m.contains_key(c) <==> (o@.forward.contains_key(c) || exists|i: int|
                0 <= i < found.len() && found[i].commit.0 == c)
        &&& forall|i1: int, i2: int|
            0 <= i1 < i2 < found.len() ==> (#[trigger] found[i1]).commit != (
            #[trigger] found[i2]).commit
        &&& forall|i: int|
            0 <= i < found.len() ==> base <= #[trigger] m[found[i].commit.0] < base
                + found.len() && f@.rows[m[found[i].commit.0] as int]
                == vertices_of(m, found[i].parent_ids())
        &&& forall|i: int, i2: int|
            #![trigger found[i2].commit, found[i].commit]
            0 <= i2 < i < found.len() && m[found[i2].commit.0] > m[found[i].commit.0]
                ==> exists|j: int|
                0 <= j < found[i2].parent_ids().len() && !(o@.forward.contains_key(found[i2].parent_ids()[j]) && o@.forward[found[i2].parent_ids()[j]] < NON_MASTER_START) && m[
                    #[trigger] found[i2].parent_ids()[j]] >= m[found[i].commit.0]
}

/// Assignment keeps every parent below its child in the IdMap's rows.
pub proof fn lemma_assigned_topological(o: IdMap, f: IdMap, found: Seq<Fetched>)
    requires
        o.wf(),
        f.wf(),
        assigned(o, f, found),
        topological(o@.rows),
    ensures
        topological(f@.rows),
{
    let base = o@.master.len();
    let m = f@.forward;
    assert forall|v: int, k: int| 0 <= v < f@.rows.len() && 0 <= k < f@.rows[v].len() implies #[trigger] f@.rows[v][k] < v by {
        if v < base {
            assert(f@.rows[v] == o@.rows[v]);
        } else {
            let c = f@.master[v];
            assert(f.forward@.contains_key(f.master@[v]));
            assert(m[c] == v);
            if o@.forward.contains_key(c) {
                assert(o.forward@.contains_key(c));
                assert(m[c] == o@.forward[c]);
            }
            let i = choose|i: int| 0 <= i < found.len() && found[i].commit.0 == c;
            assert(m[found[i].commit.0] == v);
            assert(f@.rows[v] == vertices_of(m, found[i].parent_ids()));
            assert(m.contains_key(found[i].parent_ids()[k]) && m[found[i].parent_ids()[k]] < m[found[i].commit.0]);
        }
    }
}

/// The master group has room for `found`.
pub open spec fn has_room(o: IdMap, found: Seq<Fetched>) -> bool {
    o@.master.len() + found.len() <= NON_MASTER_START
}

/// Discovered commits are new to `m` and listed once each.
pub open spec fn fresh_distinct(m: Map<u64, u64>, found: Seq<Fetched>) -> bool {
    &&& forall|i: int| 0 <= i < found.len() ==> !m.contains_key(#[trigger] found[i].commit.0)
    &&& forall|i1: int, i2: int|
        0 <= i1 < i2 < found.len() ==> (#[trigger] found[i1]).commit != (#[trigger] found[i2]).commit
}

/// Gives each discovered commit the next master vertex, parents first: each time the
/// first commit, in discovery order, whose parents all have master vertices. The whole
/// batch, with the parent vertices of each new vertex, is inserted at once, or nothing is.
pub fn assign_new(idmap: &mut IdMap, found: &Vec<Fetched>) -> (r: Result<(), BuildError>)
    requires
        old(idmap).wf(),
    ensures
        final(idmap).wf(),
        found@.len() == 0 ==> r is Ok,
        old(idmap)@.master.len() + found@.len() <= NON_MASTER_START && buildable(
            old(idmap)@.forward,
            found@,
        ) ==> r is Ok,
        found@.len() > 0 && old(idmap)@.master.len() + found@.len() > NON_MASTER_START ==> r
            == Err::<(), BuildError>(BuildError::NonMonotonicId),
        (has_room(*old(idmap), found@) && fresh_distinct(old(idmap)@.forward, found@)
            && !buildable(old(idmap)@.forward, found@)) ==> r == Err::<(), BuildError>(
            BuildError::UnresolvedParent,
        ),
        match r {
            Ok(()) => assigned(*old(idmap), *final(idmap), found@),
            Err(_) => *final(idmap) == *old(idmap),
        },
{
    let n = found.len();
    let base = idmap.next_free_id(Group::Master);
    if n == 0 {
        proof {
            let rank = |i: int| 0nat;
            assert(ranked(found@, rank));
        }
        return Ok(());
    }
    if n as u64 > NON_MASTER_START - base {
        return Err(BuildError::NonMonotonicId);
    }
    let ghost m0 = idmap@.forward;
    let ghost fs = found@;
    let mut done: Vec<bool> = Vec::new();
    let mut i: usize = 0;
    while i < n
        invariant
            0 <= i <= n,
            n == found@.len(),
            done@.len() == i,
            forall|j: int| 0 <= j < i ==> !#[trigger] done@[j],
        decreases n - i,
    {
        done.push(false);
        i = i + 1;
    }
    let mut local: HashMap<u64, u64> = HashMap::new();
    let mut batch: Vec<Assignment> = Vec::new();
    let mut picked: Vec<usize> = Vec::new();
    let ghost mut pset: Set<int> = Set::empty();
    let mut count: usize = 0;
    while count < n
        invariant
            idmap.wf(),
            *idmap == *old(idmap),
            m0 == idmap@.forward,
            fs == found@,
            n == found@.len(),
            base == idmap@.master.len(),
            n as u64 <= NON_MASTER_START - base,
            0 <= count <= n,
            batch@.len() == count,
            picked@.len() == count,
            done@.len() == n,
            pset.finite(),
            pset.len() == count,
            forall|x: int| #[trigger] pset.contains(x) <==> 0 <= x < n && done@[x],
            forall|x: int|
                0 <= x < n && #[trigger] done@[x] ==> exists|k: int|
                    0 <= k < count && picked@[k] == x,
            forall|k: int| 0 <= k < count ==> done@[#[trigger] picked@[k] as int],
            forall|k: int, i2: int|
                0 <= k < count && 0 <= i2 < picked@[k] ==> (exists|k2: int|
                    0 <= k2 < k && picked@[k2] == i2) || #[trigger] blocked(
                    m0,
                    batch@.take(k),
                    fs[i2],
                ),
            forall|k1: int, k2: int|
                0 <= k1 < k2 < count ==> #[trigger] picked@[k1] != #[trigger] picked@[k2],
            forall|k: int|
                0 <= k < count ==> (#[trigger] batch@[k]).vertex == base + k && picked@[k] < n
                    && batch@[k].commit == fs[picked@[k] as int].commit,
            forall|c: u64| #[trigger] local@.contains_key(c) <==> in_batch(batch@, c),
            forall|c: u64|
                #[trigger] local@.contains_key(c) ==> exists|k: int|
                    0 <= k < count && batch@[k].commit.0 == c && local@[c] == batch@[k].vertex,
            forall|k: int|
                0 <= k < count ==> (#[trigger] batch@[k]).parents@.len() == fs[picked@[
                    k
                ] as int].parent_ids().len(),
            forall|k: int, j: int|
                0 <= k < count && 0 <= j < batch@[k].parents@.len() ==> #[trigger] row_entry_ok(
                    m0,
                    batch@,
                    k,
                    j,
                    fs[picked@[k] as int].parent_ids()[j],
                ),
        decreases n - count,
    {
        let mut pick: usize = n;
        let mut row: Vec<u64> = Vec::new();
        let mut s: usize = 0;
        while s < n
            invariant_except_break
                pick == n,
            invariant
                idmap.wf(),
                m0 == idmap@.forward,
                fs == found@,
                n == found@.len(),
                done@.len() == n,
                0 <= s <= n,
                forall|s2: int|
                    0 <= s2 < s ==> done@[s2] || !all_resolvable(m0, local@, #[trigger] fs[s2]),
            ensures
                pick == n ==> forall|s2: int|
                    0 <= s2 < n ==> done@[s2] || !all_resolvable(m0, local@, #[trigger] fs[s2]),
                pick < n ==> forall|s2: int|
                    0 <= s2 < pick ==> done@[s2] || !all_resolvable(m0, local@, #[trigger] fs[s2]),
                pick < n ==> !done@[pick as int] && row@.len() == fs[pick as int].parent_ids().len()
                    && forall|j: int|
                    0 <= j < row@.len() ==> #[trigger] row@[j] == resolve(
                        m0,
                        local@,
                        fs[pick as int].parent_ids()[j],
                    ) && ((m0.contains_key(fs[pick as int].parent_ids()[j]) && m0[fs[pick as int].parent_ids()[j]] < NON_MASTER_START)
                        || local@.contains_key(fs[pick as int].parent_ids()[j])),
                pick <= n,
            decreases n - s,
        {
            if !done[s] {
                match resolve_parents(idmap, &local, &found[s]) {
                    Some(r) => {
                        pick = s;
                        row = r;
                        break;
                    },
                    None => {},
                }
            }
            s = s + 1;
        }
        if pick == n {
            proof {
                if buildable(m0, fs) {
                    let rank = choose|rank: spec_fn(int) -> nat| ranked(fs, rank);
                    lemma_int_range(0, n as int);
                    if forall|x: int| 0 <= x < n ==> done@[x] {
                        assert(set_int_range(0, n as int).subset_of(pset));
                        vstd::set_lib::lemma_len_subset(set_int_range(0, n as int), pset);
                    }
                    let x0 = choose|x: int| 0 <= x < n && !done@[x];
                    let i = lemma_min_rank(done@, n as int, rank, x0);
                    assert forall|j: int| 0 <= j < fs[i].parent_ids().len() implies (m0.contains_key(
                        #[trigger] fs[i].parent_ids()[j],
                    ) && m0[fs[i].parent_ids()[j]] < NON_MASTER_START) || local@.contains_key(
                        fs[i].parent_ids()[j],
                    ) by {
                        let p = fs[i].parent_ids()[j];
                        assert(parent_known(m0, fs, p));
                        if !(m0.contains_key(p) && m0[p] < NON_MASTER_START) {
                            let i2 = choose|i2: int| 0 <= i2 < fs.len() && #[trigger] fs[i2].commit.0 == p;
                            assert(rank(i2) < rank(i));
                            assert(done@[i2]);
                            let k = choose|k: int| 0 <= k < count && picked@[k] == i2;
                            assert(batch@[k].commit.0 == p);
                            assert(in_batch(batch@, p));
                        }
                    }
                    assert(all_resolvable(m0, local@, fs[i]));
                }
            }
            return Err(BuildError::UnresolvedParent);
        }
        let c = found[pick].commit;
        let v = base + count as u64;
        let ghost b0 = batch@;
        let ghost old_picked = picked@;
        let ghost l0 = local@;
        let ghost d0 = done@;
        done.set(pick, true);
        local.insert(c.0, v);
        batch.push(Assignment { commit: c, vertex: v, parents: row });
        picked.push(pick);
        proof {
            pset = pset.insert(pick as int);
            assert(pset.contains(pick as int));
            assert(picked@[count as int] == pick);
            assert(batch@[count as int].vertex == v);
            assert forall|k: int| 0 <= k < count implies #[trigger] old_picked[k] == picked@[k]
                && done@[picked@[k] as int] by {
                assert(d0[old_picked[k] as int]);
                assert(b0[k].vertex == base + k);
                assert(old_picked[k] != pick);
            }
            assert forall|k1: int, k2: int|
                0 <= k1 < k2 < count + 1 implies #[trigger] picked@[k1] != #[trigger] picked@[k2] by {
                if k2 == count {
                    assert(done@[old_picked[k1] as int]);
                    assert(old_picked[k1] == picked@[k1]);
                } else {
                    assert(old_picked[k1] != old_picked[k2]);
                }
            }
            assert forall|k: int| 0 <= k < count implies #[trigger] batch@[k] == b0[k] by {}
            assert forall|x: int|
                0 <= x < n && #[trigger] done@[x] implies exists|k: int|
                    0 <= k < count + 1 && picked@[k] == x by {
                if x != pick {
                    let k = choose|k: int| 0 <= k < count && old_picked[k] == x;
                    assert(picked@[k] == x);
                }
            }
            assert forall|k: int, i2: int|
                0 <= k < count + 1 && 0 <= i2 < picked@[k] implies (exists|k2: int|
                    0 <= k2 < k && picked@[k2] == i2) || #[trigger] blocked(
                    m0,
                    batch@.take(k),
                    fs[i2],
                ) by {
                if k < count {
                    assert(batch@.take(k) =~= b0.take(k));
                    assert(old_picked[k] == picked@[k]);
                    if exists|k2: int| 0 <= k2 < k && old_picked[k2] == i2 {
                        let k2 = choose|k2: int| 0 <= k2 < k && old_picked[k2] == i2;
                        assert(picked@[k2] == i2);
                    }
                } else {
                    assert(batch@.take(k) =~= b0);
                    if d0[i2] {
                        let k2 = choose|k2: int| 0 <= k2 < count && old_picked[k2] == i2;
                        assert(picked@[k2] == i2);
                    } else {
                        assert(!all_resolvable(m0, l0, fs[i2]));
                        let j = choose|j: int|
                            0 <= j < fs[i2].parent_ids().len() && !((m0.contains_key(
                                #[trigger] fs[i2].parent_ids()[j],
                            ) && m0[fs[i2].parent_ids()[j]] < NON_MASTER_START) || l0.contains_key(
                                fs[i2].parent_ids()[j],
                            ));
                        assert(!in_batch(b0, fs[i2].parent_ids()[j]));
                    }
                }
            }
            assert forall|x: u64| #[trigger] local@.contains_key(x) <==> in_batch(batch@, x) by {
                if in_batch(batch@, x) && x != c.0 {
                    let k = choose|k: int| 0 <= k < batch@.len() && #[trigger] batch@[k].commit.0 == x;
                    assert(b0[k].commit.0 == x);
                }
                if in_batch(b0, x) {
                    let k = choose|k: int| 0 <= k < b0.len() && #[trigger] b0[k].commit.0 == x;
                    assert(batch@[k].commit.0 == x);
                }
                if x == c.0 {
                    assert(batch@[count as int].commit.0 == x);
                }
            }
            assert forall|x: u64|
                #[trigger] local@.contains_key(x) implies exists|k: int|
                    0 <= k < count + 1 && batch@[k].commit.0 == x && local@[x] == batch@[k].vertex by {
                if x == c.0 {
                    assert(batch@[count as int].commit.0 == x);
                } else {
                    assert(l0.contains_key(x));
                    let k = choose|k: int| 0 <= k < count && b0[k].commit.0 == x && l0[x] == b0[k].vertex;
                    assert(batch@[k].commit.0 == x);
                }
            }
            assert forall|k: int, j: int|
                0 <= k < count + 1 && 0 <= j < batch@[k].parents@.len() implies #[trigger] row_entry_ok(
                    m0,
                    batch@,
                    k,
                    j,
                    fs[picked@[k] as int].parent_ids()[j],
                ) by {
                let p = fs[picked@[k] as int].parent_ids()[j];
                if k == count {
                    assert(batch@[k].parents@[j] == row@[j]);
                    if !(m0.contains_key(p) && m0[p] < NON_MASTER_START) {
                        assert(l0.contains_key(p));
                        let k2 = choose|k2: int|
                            0 <= k2 < count && b0[k2].commit.0 == p && l0[p] == b0[k2].vertex;
                        assert(batch@[k2].commit.0 == p);
                    }
                } else {
                    assert(batch@[k] == b0[k]);
                    assert(old_picked[k] == picked@[k]);
                    assert(row_entry_ok(m0, b0, k, j, p));
                    if !(m0.contains_key(p) && m0[p] < NON_MASTER_START && batch@[k].parents@[j]
                        == m0[p]) {
                        let k2 = choose|k2: int|
                            0 <= k2 < k && b0[k2].commit.0 == p && b0[k].parents@[j]
                                == b0[k2].vertex;
                        assert(batch@[k2] == b0[k2]);
                    }
                }
            }
        }
        count = count + 1;
    }
    let ghost s0 = idmap@;
    proof {
        lemma_int_range(0, n as int);
        assert(pset.subset_of(set_int_range(0, n as int)));
        lemma_subset_equality(pset, set_int_range(0, n as int));
        assert forall|k: int| 0 <= k < n implies #[trigger] batch@[k].vertex < NON_MASTER_START by {}
    }
    match idmap.insert_batch(&batch) {
        Err(e) => {
            proof {
                if fresh_distinct(m0, fs) {
                    assert forall|k: int| 0 <= k < batch@.len() implies (#[trigger] batch@[k]).vertex
                        == s0.master.len() + k && batch@[k].vertex < NON_MASTER_START
                        && !s0.forward.contains_key(batch@[k].commit.0) by {
                        assert(batch@[k].commit == fs[picked@[k] as int].commit);
                    }
                    assert forall|k1: int, k2: int|
                        0 <= k1 < k2 < batch@.len() implies (#[trigger] batch@[k1]).commit
                            != (#[trigger] batch@[k2]).commit by {
                        assert(picked@[k1] != picked@[k2]);
                        assert(batch@[k1].vertex == base + k1);
                        assert(batch@[k2].vertex == base + k2);
                        let a = picked@[k1] as int;
                        let b = picked@[k2] as int;
                        assert(0 <= a < fs.len() && 0 <= b < fs.len());
                        if a < b {
                            assert((fs[a]).commit != (fs[b]).commit);
                        } else {
                            assert((fs[b]).commit != (fs[a]).commit);
                        }
                    }
                    lemma_batch_ok(s0, batch@);
                }
            }
            return Err(error_of(e));
        },
        Ok(()) => {},
    }
    proof {
        let m = idmap@.forward;
        lemma_batch_forward(s0, batch@);
        assert forall|k: int, j: int|
            0 <= k < n && 0 <= j < batch@[k].parents@.len() implies #[trigger] batch@[k].parents@[j]
                == m[fs[picked@[k] as int].parent_ids()[j]] && batch@[k].parents@[j] < base + k
                && m.contains_key(fs[picked@[k] as int].parent_ids()[j]) by {
            let p = fs[picked@[k] as int].parent_ids()[j];
            assert(row_entry_ok(m0, batch@, k, j, p));
            if m0.contains_key(p) && m0[p] < NON_MASTER_START && batch@[k].parents@[j] == m0[p] {
            } else {
                let k2 = choose|k2: int|
                    0 <= k2 < k && batch@[k2].commit.0 == p && batch@[k].parents@[j]
                        == batch@[k2].vertex;
                assert(m[batch@[k2].commit.0] == batch@[k2].vertex);
            }
        }
        assert forall|i: int| 0 <= i < found@.len() implies m.contains_key(
            #[trigger] found@[i].commit.0,
        ) && base <= m[found@[i].commit.0] < base + found@.len() && idmap@.rows[m[found@[i].commit.0] as int]
            == vertices_of(m, found@[i].parent_ids()) && (forall|j: int|
            0 <= j < found@[i].parent_ids().len() ==> m.contains_key(found@[i].parent_ids()[j])
                && m[found@[i].parent_ids()[j]] < m[found@[i].commit.0]) by {
            assert(pset.contains(i));
            let k = choose|k: int| 0 <= k < n && picked@[k] == i;
            assert(batch@[k].commit == fs[i].commit);
            assert(m[batch@[k].commit.0] == base + k);
            let ps = fs[i].parent_ids();
            assert(idmap@.rows[base + k] == batch@[k].parents@);
            assert forall|j: int| 0 <= j < ps.len() implies m.contains_key(ps[j]) && m[ps[j]]
                < m[found@[i].commit.0] by {
                assert(batch@[k].parents@[j] == m[ps[j]]);
            }
            assert(idmap@.rows[m[found@[i].commit.0] as int] =~= vertices_of(m, ps));
        }
        assert forall|c: u64| #[trigger]
            m.contains_key(c) <==> (m0.contains_key(c) || exists|i: int|
                0 <= i < fs.len() && fs[i].commit.0 == c) by {
            if m.contains_key(c) && !m0.contains_key(c) {
                let k = choose|k: int| 0 <= k < batch@.len() && batch@[k].commit.0 == c;
                assert(batch@[k].commit == fs[picked@[k] as int].commit);
            }
            if exists|i: int| 0 <= i < fs.len() && fs[i].commit.0 == c {
                let i = choose|i: int| 0 <= i < fs.len() && fs[i].commit.0 == c;
                assert(m.contains_key(fs[i].commit.0));
            }
        }
        assert forall|i1: int, i2: int|
            0 <= i1 < i2 < fs.len() implies (#[trigger] fs[i1]).commit != (#[trigger] fs[i2]).commit by {
            if fs[i1].commit == fs[i2].commit {
                assert(pset.contains(i1));
                assert(pset.contains(i2));
                let k1 = choose|k: int| 0 <= k < n && picked@[k] == i1;
                let k2 = choose|k: int| 0 <= k < n && picked@[k] == i2;
                assert(batch@[k1].commit == fs[i1].commit);
                assert(batch@[k2].commit == fs[i2].commit);
                assert(m[batch@[k1].commit.0] == base + k1);
                assert(m[batch@[k2].commit.0] == base + k2);
            }
        }
        assert forall|i: int, i2: int|
            #![trigger found@[i2].commit, found@[i].commit]
            0 <= i2 < i < found@.len() && m[found@[i2].commit.0] > m[found@[i].commit.0]
                implies exists|j: int|
                0 <= j < found@[i2].parent_ids().len() && !(m0.contains_key(
                    found@[i2].parent_ids()[j],
                ) && m0[found@[i2].parent_ids()[j]] < NON_MASTER_START) && m[
                    #[trigger] found@[i2].parent_ids()[j]] >= m[found@[i].commit.0] by {
            assert(pset.contains(i));
            assert(pset.contains(i2));
            let k = choose|k: int| 0 <= k < n && picked@[k] == i;
            let k1 = choose|k1: int| 0 <= k1 < n && picked@[k1] == i2;
            assert(batch@[k].commit == fs[i].commit);
            assert(batch@[k1].commit == fs[i2].commit);
            assert(m[batch@[k].commit.0] == base + k);
            assert(m[batch@[k1].commit.0] == base + k1);
            assert(k1 > k);
            if exists|k2: int| 0 <= k2 < k && picked@[k2] == i2 {
                let k2 = choose|k2: int| 0 <= k2 < k && picked@[k2] == i2;
                assert(picked@[k2] != picked@[k1]);
            }
            assert(blocked(m0, batch@.take(k), fs[i2]));
            let j = choose|j: int|
                0 <= j < fs[i2].parent_ids().len() && !(m0.contains_key(fs[i2].parent_ids()[j])
                    && m0[fs[i2].parent_ids()[j]] < NON_MASTER_START) && !in_batch(
                    batch@.take(k),
                    #[trigger] fs[i2].parent_ids()[j],
                );
            let p = fs[i2].parent_ids()[j];
            assert(row_entry_ok(m0, batch@, k1, j, p));
            let k2 = choose|k2: int|
                0 <= k2 < k1 && batch@[k2].commit.0 == p && batch@[k1].parents@[j]
                    == batch@[k2].vertex;
            assert(m[batch@[k2].commit.0] == batch@[k2].vertex);
            if k2 < k {
                assert(batch@.take(k)[k2].commit.0 == p);
            }
        }
    }
    proof {
        let m = idmap@.forward;
        if fresh_distinct(m0, fs) {
            let rank = |i: int| (if 0 <= i < fs.len() { m[fs[i].commit.0] } else { 0 }) as nat;
            assert forall|i: int, j: int, i2: int|
                #![trigger fs[i].parent_ids()[j], fs[i2].commit]
                0 <= i < fs.len() && 0 <= j < fs[i].parent_ids().len() && 0 <= i2 < fs.len()
                    && fs[i2].commit.0 == fs[i].parent_ids()[j] implies rank(i2) < rank(i) by {
                assert(m[fs[i].parent_ids()[j]] < m[fs[i].commit.0]);
            }
            assert(ranked(fs, rank));
            assert forall|i: int, j: int|
                0 <= i < fs.len() && 0 <= j < fs[i].parent_ids().len() implies parent_known(
                    m0,
                    fs,
                    #[trigger] fs[i].parent_ids()[j],
                ) by {
                let p = fs[i].parent_ids()[j];
                assert(m.contains_key(p) && m[p] < m[fs[i].commit.0]);
                assert(m[fs[i].commit.0] < base + n);
                if m0.contains_key(p) {
                    assert(m[p] == m0[p]);
                } else {
                    let i2 = choose|i2: int| 0 <= i2 < fs.len() && fs[i2].commit.0 == p;
                    assert(fs[i2].commit.0 == p);
                }
            }
        }
    }
    Ok(())
}

/// Parents `ps` handled from the last to the first: each one neither indexed nor seen
/// yet is marked seen and pushed, so that the first parent ends on top.
pub open spec fn push_fresh(
    m: Map<u64, u64>,
    seen: Set<u64>,
    pending: Seq<u64>,
    ps: Seq<u64>,
) -> (Set<u64>, Seq<u64>)
    decreases ps.len(),
{
    if ps.len() == 0 {
        (seen, pending)
    } else {
        let p = ps.last();
        if !m.contains_key(p) && !seen.contains(p) {
            push_fresh(m, seen.insert(p), pending.push(p), ps.drop_last())
        } else {
            push_fresh(m, seen, pending, ps.drop_last())
        }
    }
}

/// Depth-first discovery of the commits that are not indexed yet, one parent fetch at a
/// time: the caller fetches the parents of `next_fetch()` and hands them to `record`.
pub struct Discovery {
    pub(crate) pending: Vec<u64>,
    pub(crate) seen: HashSet<u64>,
    pub(crate) found: Vec<Fetched>,
}

impl Discovery {
    pub open(crate) spec fn pending_spec(&self) -> Seq<u64> {
        self.pending@
    }

    pub open(crate) spec fn seen_spec(&self) -> Set<u64> {
        self.seen@
    }

    pub open(crate) spec fn found_spec(&self) -> Seq<Fetched> {
        self.found@
    }

    /// A discovery with nothing to fetch and nothing found.
    pub fn empty() -> (r: Discovery)
        ensures
            r.pending_spec().len() == 0,
            r.found_spec().len() == 0,
            r.seen_spec().is_empty(),
    {
        let r = Discovery { pending: Vec::new(), seen: HashSet::new(), found: Vec::new() };
        assert(r.seen@ =~= Set::empty());
        r
    }

    /// Discovery from `head`: nothing to fetch when `head` is already indexed.
    pub fn start(idmap: &IdMap, head: CommitId) -> (r: Discovery)
        requires
            idmap.wf(),
        ensures
            r.found_spec().len() == 0,
            idmap@.forward.contains_key(head.0) ==> r.pending_spec().len() == 0
                && r.seen_spec().is_empty(),
            !idmap@.forward.contains_key(head.0) ==> r.pending_spec() == seq![head.0]
                && r.seen_spec() == set![head.0],
    {
        let mut pending: Vec<u64> = Vec::new();
        let mut seen: HashSet<u64> = HashSet::new();
        if idmap.lookup(head).is_none() {
            pending.push(head.0);
            seen.insert(head.0);
            assert(pending@ =~= seq![head.0]);
            assert(seen@ =~= set![head.0]);
        } else {
            assert(seen@ =~= Set::empty());
        }
        Discovery { pending, seen, found: Vec::new() }
    }

    /// The commit whose parents are wanted next; `None` once discovery is complete.
    pub fn next_fetch(&self) -> (r: Option<CommitId>)
        ensures
            self.pending_spec().len() == 0 ==> r is None,
            self.pending_spec().len() > 0 ==> r == Some(CommitId(self.pending_spec().last())),
    {
        if self.pending.len() == 0 {
            None
        } else {
            Some(CommitId(self.pending[self.pending.len() - 1]))
        }
    }

    /// Records `parents` as the parents of `next_fetch()`, and queues those that are
    /// neither indexed nor seen.
    pub fn record(&mut self, idmap: &IdMap, parents: Vec<CommitId>)
        requires
            idmap.wf(),
            old(self).pending_spec().len() > 0,
        ensures
            final(self).found_spec() == old(self).found_spec().push(
                Fetched { commit: CommitId(old(self).pending_spec().last()), parents },
            ),
            final(self).found_spec().len() == old(self).found_spec().len() + 1,
            final(self).found_spec().drop_last() == old(self).found_spec(),
            final(self).found_spec().last().commit.0 == old(self).pending_spec().last(),
            final(self).found_spec().last().parents@ == parents@,
            (final(self).seen_spec(), final(self).pending_spec()) == push_fresh(
                idmap@.forward,
                old(self).seen_spec(),
                old(self).pending_spec().drop_last(),
                parents@.map_values(|c: CommitId| c.0),
            ),
    {
        let c = self.pending.pop().unwrap();
        let ghost ps = parents@.map_values(|c: CommitId| c.0);
        let ghost s0 = self.seen@;
        let ghost q0 = self.pending@;
        let ghost f0 = self.found@;
        assert(ps.take(parents@.len() as int) =~= ps);
        let mut j: usize = parents.len();
        while j > 0
            invariant
                idmap.wf(),
                0 <= j <= parents@.len(),
                ps == parents@.map_values(|c: CommitId| c.0),
                self.found@ == f0,
                push_fresh(idmap@.forward, self.seen@, self.pending@, ps.take(j as int))
                    == push_fresh(idmap@.forward, s0, q0, ps),
            decreases j,
        {
            let p = parents[j - 1].0;
            proof {
                assert(ps.take(j as int).last() == p);
                assert(ps.take(j as int).drop_last() =~= ps.take(j - 1));
            }
            if idmap.lookup(CommitId(p)).is_none() && !self.seen.contains(&p) {
                self.seen.insert(p);
                self.pending.push(p);
            }
            j = j - 1;
        }
        assert(ps.take(0) =~= Seq::<u64>::empty());
        self.found.push(Fetched { commit: CommitId(c), parents });
        assert(self.found@.drop_last() =~= f0);
    }

    /// The commits found so far, in discovery order.
    pub fn found(&self) -> (r: &Vec<Fetched>)
        ensures
            r@ == self.found_spec(),
    {
        &self.found
    }
}

} // verus!
