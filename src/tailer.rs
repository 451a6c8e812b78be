use crate::builder::{assign_new, assigned, buildable, has_room, push_fresh, BuildError, Discovery, Fetched};
use crate::idmap::{topological, CommitId, Group, IdMap, IdMapModel, NON_MASTER_START};
use crate::manager::{
    decode_spec, encode_store, lemma_persistence_round_trip, lemma_segments_sound, Bundle, LoadError,
    SegmentedChangelogManager,
};
use crate::segments::{segments_of, table_of, SegmentStore};
use vstd::prelude::*;

verus! {

/// Why a cycle of the tailer failed.
#[derive(Clone, Copy, Debug, PartialEq, Eq, Structural)]
pub enum TailerError {
    BookmarkMissing,
    /// The bookmark store could not be read.
    BookmarkUnavailable,
    FetchFailure,
    UnresolvedParent,
    DuplicateAssignment,
    NonMonotonicId,
    CorruptBundle,
    PersistError,
}

/// How a cycle ended.
#[derive(Clone, Copy, Debug, PartialEq, Eq, Structural)]
pub enum CycleOutcome {
    /// The index was extended and rebuilt up to this head vertex, and saved.
    Updated(u64),
    /// The stored index already held this head vertex: nothing was rebuilt or saved.
    Skipped(u64),
    Failed(TailerError),
}

/// Where the tailer stands within a cycle.
#[derive(Clone, Copy, Debug, PartialEq, Eq, Structural)]
pub enum Phase {
    Idle,
    Loading,
    Resolving,
    Fetching,
    Saving,
    Sleeping,
}

/// What the outside world reports back to the tailer.
pub enum Event {
    /// Time to start a cycle; a cycle still under way is abandoned.
    Tick,
    /// The latest snapshot, if any was ever saved.
    Loaded(Option<Bundle>),
    /// The snapshot store could not be read.
    LoadFailed,
    /// The bookmark store could not be read.
    ResolveFailed,
    /// The commit that the tracked bookmark points at, if it exists.
    Resolved(Option<CommitId>),
    /// The parents of the requested commit, or `None` when the fetch failed.
    Fetched(Option<Vec<CommitId>>),
    /// Whether the snapshot was published.
    Saved(bool),
}

/// What the tailer asks the outside world to do next.
pub enum Action {
    LoadBundle,
    ResolveBookmark,
    FetchParents(CommitId),
    /// Publish this snapshot atomically as the latest one.
    Save(Bundle),
    /// The cycle is over: report its outcome and wait for the next `Tick`.
    Sleep(CycleOutcome),
    /// The event does not belong to the current phase; nothing changed.
    Ignore,
}

/// Keeps the segmented index of one repository in step with a bookmark.
pub struct SegmentedChangelogTailer {
    pub repo_id: u64,
    pub(crate) phase: Phase,
    pub(crate) manager: SegmentedChangelogManager,
    pub(crate) idmap: IdMap,
    pub(crate) iddag: SegmentStore,
    pub(crate) discovery: Discovery,
    pub(crate) head: CommitId,
    pub(crate) old_master: u64,
    pub(crate) head_vertex: u64,
}

impl SegmentedChangelogTailer {
    pub open(crate) spec fn wf(&self) -> bool {
        &&& self.idmap.wf()
        &&& self.iddag.wf()
        &&& self.iddag.next_spec() <= self.idmap@.master.len()
        &&& self.old_master <= self.idmap@.master.len()
        &&& topological(self.idmap@.rows)
    }

    /// Discovery led to the head: the first commit found is the head, or nothing was found
    /// and the head already has a vertex.
    pub open(crate) spec fn heads_found(found: Seq<Fetched>, head: CommitId, m0: IdMap) -> bool {
        &&& found.len() > 0 ==> found[0].commit == head
        &&& found.len() == 0 ==> m0@.forward.contains_key(head.0)
    }

    /// While fetching, a commit is pending, and discovery started at the head: the first
    /// commit found is the head, or, before anything is found, the head is all that is
    /// pending.
    pub open(crate) spec fn inv(&self) -> bool {
        &&& self.wf()
        &&& self.phase == Phase::Fetching ==> {
            &&& self.discovery.pending_spec().len() > 0
            &&& self.discovery.found_spec().len() > 0 ==> self.discovery.found_spec()[0].commit
                == self.head
            &&& self.discovery.found_spec().len() == 0 ==> self.discovery.pending_spec()
                == seq![self.head.0]
        }
    }

    /// How a cycle that found `found` from `head`, over IdMap `m0` and the loaded store
    /// `store0` with next free vertex `old_master`, ends in state `f` with action `a`. When
    /// the found commits can be numbered and lead to the head, the cycle does not fail. A
    /// failure leaves the IdMap and the store as they were. Otherwise the IdMap is extended
    /// as `assigned` says and, with `v` the head's vertex, the cycle skips when
    /// `v < old_master`, keeping IdMap and store, and else saves the store rebuilt from
    /// the IdMap up to the head, paired with the IdMap's version; that bundle decodes back
    /// to the saved store.
    pub open(crate) spec fn cycle_end(
        m0: IdMap,
        found: Seq<Fetched>,
        head: CommitId,
        old_master: u64,
        store0: SegmentStore,
        f: SegmentedChangelogTailer,
        a: Action,
    ) -> bool {
        let leads = (found.len() > 0 && found[0].commit == head) || (found.len() == 0
            && m0@.forward.contains_key(head.0) && m0@.forward[head.0] < NON_MASTER_START);
        &&& (leads && has_room(m0, found) && buildable(m0@.forward, found)) ==> !(a is Sleep
            && a->Sleep_0 is Failed)
        &&& match a {
            Action::Sleep(CycleOutcome::Failed(_)) => f.idmap == m0 && f.iddag == store0,
            Action::Sleep(CycleOutcome::Skipped(v)) => f.idmap == m0 && f.iddag == store0
                && m0@.forward.contains_key(head.0) && v == m0@.forward[head.0] && v < old_master,
            Action::Save(b) => assigned(m0, f.idmap, found) && f.idmap@.forward.contains_key(
                head.0,
            ) && f.head_vertex == f.idmap@.forward[head.0] && old_master <= f.head_vertex
                && f.publishes(b) && decode_spec(b.payload@) == Some(
                (f.iddag.segs(), f.iddag.next_spec()),
            ),
            _ => false,
        }
        &&& a is Sleep ==> f.phase == Phase::Sleeping
        &&& a is Save ==> f.phase == Phase::Saving
    }

    /// `b` pairs the current store with the current IdMap version, and the store is the
    /// one built from scratch, from the IdMap's parents, over the vertices up to the head.
    pub open(crate) spec fn publishes(&self, b: Bundle) -> bool {
        &&& b.idmap_version == self.idmap.version_spec()
        &&& b.payload@ == encode_store(self.iddag.segs(), self.iddag.next_spec())
        &&& self.iddag.next_spec() == self.head_vertex + 1
        &&& self.iddag.segs() == segments_of(self.idmap@.rows, (self.head_vertex + 1) as nat)
        &&& self.iddag.table() == self.idmap@.rows.take(self.head_vertex + 1)
    }

    pub open(crate) spec fn phase_spec(&self) -> Phase {
        self.phase
    }

    pub open(crate) spec fn idmap_spec(&self) -> IdMapModel {
        self.idmap@
    }

    pub open(crate) spec fn idmap_obj(&self) -> IdMap {
        self.idmap
    }

    pub open(crate) spec fn head_vertex_spec(&self) -> u64 {
        self.head_vertex
    }

    pub open(crate) spec fn repo_id_spec(&self) -> u64 {
        self.repo_id
    }

    pub open(crate) spec fn head_spec(&self) -> CommitId {
        self.head
    }

    pub open(crate) spec fn old_master_spec(&self) -> u64 {
        self.old_master
    }

    pub open(crate) spec fn discovery_spec(&self) -> Discovery {
        self.discovery
    }

    pub open(crate) spec fn iddag_spec(&self) -> SegmentStore {
        self.iddag
    }

    /// A tailer over `idmap` with no store loaded yet.
    pub fn new(repo_id: u64, idmap: IdMap) -> (r: Self)
        requires
            idmap.wf(),
            topological(idmap@.rows),
        ensures
            r.inv(),
            r.repo_id_spec() == repo_id,
            r.phase_spec() == Phase::Idle,
            r.idmap_obj() == idmap,
    {
        let discovery = Discovery::empty();
        SegmentedChangelogTailer {
            repo_id,
            phase: Phase::Idle,
            manager: SegmentedChangelogManager::new(),
            idmap,
            iddag: SegmentStore::new(),
            discovery,
            head: CommitId(0),
            old_master: 0,
            head_vertex: 0,
        }
    }

    fn finish(&mut self) -> (a: Action)
        requires
            old(self).wf(),
            Self::heads_found(old(self).discovery.found_spec(), old(self).head, old(self).idmap),
        ensures
            final(self).wf(),
            final(self).repo_id == old(self).repo_id,
            Self::cycle_end(
                old(self).idmap,
                old(self).discovery.found_spec(),
                old(self).head,
                old(self).old_master,
                old(self).iddag,
                *final(self),
                a,
            ),
    {
        let ghost o = *self;
        let ghost found = self.discovery.found_spec();
        match assign_new(&mut self.idmap, self.discovery.found()) {
            Err(e) => {
                self.phase = Phase::Sleeping;
                let outcome = match e {
                    BuildError::UnresolvedParent => CycleOutcome::Failed(
                        TailerError::UnresolvedParent,
                    ),
                    BuildError::DuplicateAssignment => CycleOutcome::Failed(
                        TailerError::DuplicateAssignment,
                    ),
                    BuildError::NonMonotonicId => CycleOutcome::Failed(TailerError::NonMonotonicId),
                };
                return Action::Sleep(outcome);
            },
            Ok(()) => {},
        }
        proof {
            if found.len() > 0 {
                assert(self.idmap@.forward.contains_key(found[0].commit.0));
                assert(o.idmap@.master.len() <= self.idmap@.forward[found[0].commit.0]);
            }
        }
        let hv = match self.idmap.lookup(self.head) {
            Some(v) => v,
            None => {
                self.phase = Phase::Sleeping;
                return Action::Sleep(CycleOutcome::Failed(TailerError::UnresolvedParent));
            },
        };
        self.head_vertex = hv;
        if self.old_master > hv {
            self.phase = Phase::Sleeping;
            return Action::Sleep(CycleOutcome::Skipped(hv));
        }
        let rows = self.idmap.parent_rows();
        if hv >= rows.len() as u64 {
            // The head lies outside the master group: there is nothing to root the store at.
            self.phase = Phase::Sleeping;
            return Action::Sleep(CycleOutcome::Failed(TailerError::UnresolvedParent));
        }
        proof {
            assert(table_of(rows@) =~= self.idmap@.rows);
        }
        let store = SegmentStore::build_segments(hv, rows);
        let bundle = self.manager.save_dag(&store, self.idmap.current_version());
        proof {
            crate::builder::lemma_assigned_topological(o.idmap, self.idmap, found);
            lemma_segments_sound(self.idmap@.rows, (hv + 1) as nat);
            lemma_persistence_round_trip(store);
        }
        self.iddag = store;
        self.phase = Phase::Saving;
        Action::Save(bundle)
    }

    fn advance(&mut self) -> (a: Action)
        requires
            old(self).wf(),
            old(self).discovery.pending_spec().len() == 0 ==> Self::heads_found(
                old(self).discovery.found_spec(),
                old(self).head,
                old(self).idmap,
            ),
        ensures
            final(self).wf(),
            final(self).repo_id == old(self).repo_id,
            old(self).discovery.pending_spec().len() > 0 ==> a == Action::FetchParents(
                CommitId(old(self).discovery.pending_spec().last()),
            ) && final(self).phase == Phase::Fetching && final(self).idmap == old(self).idmap
                && final(self).discovery == old(self).discovery && final(self).head == old(
                self).head && final(self).old_master == old(self).old_master && final(self).iddag
                == old(self).iddag,
            old(self).discovery.pending_spec().len() == 0 ==> Self::cycle_end(
                old(self).idmap,
                old(self).discovery.found_spec(),
                old(self).head,
                old(self).old_master,
                old(self).iddag,
                *final(self),
                a,
            ),
    {
        match self.discovery.next_fetch() {
            Some(c) => {
                self.phase = Phase::Fetching;
                Action::FetchParents(c)
            },
            None => self.finish(),
        }
    }

    /// Reacts to `event` in the current phase and says what to do next.
    pub fn step(&mut self, event: Event) -> (a: Action)
        requires
            old(self).inv(),
        ensures
            final(self).inv(),
            final(self).repo_id_spec() == old(self).repo_id_spec(),
            a is Save ==> final(self).publishes(a->Save_0) && final(self).phase_spec()
                == Phase::Saving,
            a is Sleep ==> final(self).phase_spec() == Phase::Sleeping,
            a is Ignore ==> *final(self) == *old(self),
            match (old(self).phase_spec(), event) {
                (_, Event::Tick) => a is LoadBundle
                    && final(self).phase_spec() == Phase::Loading && final(self).idmap_obj()
                    == old(self).idmap_obj() && final(self).iddag_spec() == old(self).iddag_spec(),
                (Phase::Loading, Event::Loaded(None)) => a is ResolveBookmark && final(self).phase_spec()
                    == Phase::Resolving && final(self).iddag_spec().next_spec() == 0 && final(
                    self).idmap_obj() == old(self).idmap_obj(),
                (Phase::Loading, Event::Loaded(Some(b))) => final(self).idmap_obj()
                    == old(self).idmap_obj() && match decode_spec(b.payload@) {
                    Some((segs, next)) => if b.idmap_version <= old(self).idmap_obj().version_spec()
                        && next <= old(self).idmap_obj().master_len_at_spec(b.idmap_version as nat) {
                        a is ResolveBookmark && final(self).phase_spec() == Phase::Resolving
                            && final(self).iddag_spec().segs() == segs && final(
                            self).iddag_spec().next_spec() == next
                    } else {
                        a == Action::Sleep(CycleOutcome::Failed(TailerError::CorruptBundle))
                    },
                    None => a == Action::Sleep(CycleOutcome::Failed(TailerError::CorruptBundle)),
                },
                (Phase::Loading, Event::LoadFailed) => a == Action::Sleep(
                    CycleOutcome::Failed(TailerError::PersistError),
                ) && final(self).idmap_obj() == old(self).idmap_obj(),
                (Phase::Resolving, Event::ResolveFailed) => a == Action::Sleep(
                    CycleOutcome::Failed(TailerError::BookmarkUnavailable),
                ) && final(self).idmap_obj() == old(self).idmap_obj(),
                (Phase::Resolving, Event::Resolved(None)) => a == Action::Sleep(
                    CycleOutcome::Failed(TailerError::BookmarkMissing),
                ) && final(self).idmap_obj() == old(self).idmap_obj(),
                (Phase::Resolving, Event::Resolved(Some(h))) => {
                    &&& !old(self).idmap_spec().forward.contains_key(h.0) ==> a
                        == Action::FetchParents(h) && final(self).phase_spec() == Phase::Fetching
                        && final(self).idmap_obj() == old(self).idmap_obj()
                        && final(self).head_spec() == h && final(self).old_master_spec()
                        == old(self).iddag_spec().next_spec() as u64 && final(self).iddag_spec()
                        == old(self).iddag_spec() && final(self).discovery_spec().found_spec().len()
                        == 0 && final(self).discovery_spec().pending_spec() == seq![h.0]
                        && final(self).discovery_spec().seen_spec() == set![h.0]
                    &&& old(self).idmap_spec().forward.contains_key(h.0) ==> Self::cycle_end(
                        old(self).idmap_obj(),
                        Seq::empty(),
                        h,
                        old(self).iddag_spec().next_spec() as u64,
                        old(self).iddag_spec(),
                        *final(self),
                        a,
                    )
                },
                (Phase::Fetching, Event::Fetched(None)) => a == Action::Sleep(
                    CycleOutcome::Failed(TailerError::FetchFailure),
                ) && final(self).idmap_obj() == old(self).idmap_obj(),
                (Phase::Fetching, Event::Fetched(Some(ps))) => {
                    let d = old(self).discovery_spec();
                    let found = d.found_spec().push(
                        Fetched { commit: CommitId(d.pending_spec().last()), parents: ps },
                    );
                    let pushed = push_fresh(
                        old(self).idmap_spec().forward,
                        d.seen_spec(),
                        d.pending_spec().drop_last(),
                        ps@.map_values(|c: CommitId| c.0),
                    );
                    let pending = pushed.1;
                    &&& pending.len() > 0 ==> a == Action::FetchParents(CommitId(pending.last()))
                        && final(self).phase_spec() == Phase::Fetching && final(self).idmap_obj()
                        == old(self).idmap_obj() && final(self).discovery_spec().found_spec()
                        == found && final(self).discovery_spec().pending_spec() == pending
                        && final(self).discovery_spec().seen_spec() == pushed.0 && final(
                        self).head_spec() == old(self).head_spec() && final(self).old_master_spec()
                        == old(self).old_master_spec() && final(self).iddag_spec() == old(
                        self).iddag_spec()
                    &&& pending.len() == 0 ==> Self::cycle_end(
                        old(self).idmap_obj(),
                        found,
                        old(self).head_spec(),
                        old(self).old_master_spec(),
                        old(self).iddag_spec(),
                        *final(self),
                        a,
                    )
                },
                (Phase::Saving, Event::Saved(ok)) => a == Action::Sleep(
                    if ok {
                        CycleOutcome::Updated(old(self).head_vertex_spec())
                    } else {
                        CycleOutcome::Failed(TailerError::PersistError)
                    },
                ) && final(self).idmap_obj() == old(self).idmap_obj() && final(self).iddag_spec()
                    == old(self).iddag_spec(),
                _ => a is Ignore,
            },
    {
        match (self.phase, event) {
            (_, Event::Tick) => {
                self.phase = Phase::Loading;
                Action::LoadBundle
            },
            (Phase::Loading, Event::Loaded(latest)) => {
                let loaded = match &latest {
                    None => self.manager.load_dag(None, &self.idmap),
                    Some(b) => self.manager.load_dag(Some(b), &self.idmap),
                };
                match loaded {
                    Ok(store) => {
                        self.iddag = store;
                        self.phase = Phase::Resolving;
                        Action::ResolveBookmark
                    },
                    Err(LoadError::NoPersistedState) => {
                        self.iddag = SegmentStore::new();
                        self.phase = Phase::Resolving;
                        Action::ResolveBookmark
                    },
                    Err(LoadError::CorruptBundle) => {
                        self.phase = Phase::Sleeping;
                        Action::Sleep(CycleOutcome::Failed(TailerError::CorruptBundle))
                    },
                }
            },
            (Phase::Loading, Event::LoadFailed) => {
                self.phase = Phase::Sleeping;
                Action::Sleep(CycleOutcome::Failed(TailerError::PersistError))
            },
            (Phase::Resolving, Event::ResolveFailed) => {
                self.phase = Phase::Sleeping;
                Action::Sleep(CycleOutcome::Failed(TailerError::BookmarkUnavailable))
            },
            (Phase::Resolving, Event::Resolved(None)) => {
                self.phase = Phase::Sleeping;
                Action::Sleep(CycleOutcome::Failed(TailerError::BookmarkMissing))
            },
            (Phase::Resolving, Event::Resolved(Some(h))) => {
                self.head = h;
                self.old_master = self.iddag.next_free_id(Group::Master);
                self.discovery = Discovery::start(&self.idmap, h);
                assert(self.idmap@.forward.contains_key(h.0) ==> self.discovery.found_spec()
                    =~= Seq::empty());
                self.advance()
            },
            (Phase::Fetching, Event::Fetched(None)) => {
                self.phase = Phase::Sleeping;
                Action::Sleep(CycleOutcome::Failed(TailerError::FetchFailure))
            },
            (Phase::Fetching, Event::Fetched(Some(parents))) => {
                if self.discovery.next_fetch().is_none() {
                    self.phase = Phase::Sleeping;
                    return Action::Sleep(CycleOutcome::Failed(TailerError::FetchFailure));
                }
                self.discovery.record(&self.idmap, parents);
                self.advance()
            },
            (Phase::Saving, Event::Saved(ok)) => {
                self.phase = Phase::Sleeping;
                if ok {
                    Action::Sleep(CycleOutcome::Updated(self.head_vertex))
                } else {
                    Action::Sleep(CycleOutcome::Failed(TailerError::PersistError))
                }
            },
            _ => Action::Ignore,
        }
    }

    /// The current phase.
    pub fn phase(&self) -> (r: Phase)
        ensures
            r == self.phase_spec(),
    {
        self.phase
    }

    /// The IdMap that the tailer extends.
    pub fn idmap(&self) -> (r: &IdMap)
        ensures
            r@ == self.idmap_spec(),
    {
        &self.idmap
    }

    /// The segment store of the current cycle.
    pub fn iddag(&self) -> (r: &SegmentStore)
        ensures
            *r == self.iddag_spec(),
    {
        &self.iddag
    }
}

/// Once a cycle has published `b` for a head `h`, the next cycle that loads `b` while the
/// bookmark still points at `h` skips: loading `b` succeeds against the IdMap and gives
/// back a store whose next free vertex lies just above `h`'s vertex. (`step` then answers
/// the resolved bookmark with `Skipped`, keeping the IdMap and saving nothing.)
pub proof fn lemma_idempotent_skip(t: SegmentedChangelogTailer, b: Bundle, h: CommitId)
    requires
        t.wf(),
        t.publishes(b),
        t.idmap_spec().forward.contains_key(h.0),
        t.idmap_spec().forward[h.0] == t.head_vertex_spec(),
    ensures
        decode_spec(b.payload@) == Some(
            (t.iddag_spec().segs(), (t.head_vertex_spec() + 1) as nat),
        ),
        b.idmap_version <= t.idmap_obj().version_spec(),
        t.head_vertex_spec() + 1 <= t.idmap_obj().master_len_at_spec(b.idmap_version as nat),
        t.idmap_spec().forward[h.0] < t.head_vertex_spec() + 1,
{
    lemma_segments_sound(t.idmap@.rows, (t.head_vertex + 1) as nat);
    lemma_persistence_round_trip(t.iddag);
    assert(t.idmap.history@.last() == t.idmap@.master.len());
}

} // verus!
