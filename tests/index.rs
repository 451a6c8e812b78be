use segmented_changelog::builder::{assign_new, BuildError, Discovery, Fetched};
use segmented_changelog::idmap::{Assignment, CommitId, Group, IdMap, IdMapError, NON_MASTER_START};
use segmented_changelog::manager::{Bundle, LoadError, SegmentedChangelogManager};
use segmented_changelog::options::{RunStreamOptions, STREAM_BUFFER_SIZE};
use segmented_changelog::segments::{SegmentError, SegmentStore};
use segmented_changelog::tailer::{Action, CycleOutcome, Event, Phase, SegmentedChangelogTailer, TailerError};

const A: u64 = 10;
const B: u64 = 11;
const C: u64 = 12;
const D: u64 = 13;
const E: u64 = 14;

fn ids(v: &[u64]) -> Vec<CommitId> {
    v.iter().map(|c| CommitId(*c)).collect()
}

fn parents_of(c: u64) -> Vec<CommitId> {
    match c {
        A => vec![],
        B => ids(&[A]),
        C => ids(&[B]),
        D => ids(&[B]),
        E => ids(&[C, D]),
        _ => panic!("unknown commit"),
    }
}

fn scenario_table() -> Vec<Vec<u64>> {
    vec![vec![], vec![0], vec![1], vec![1], vec![2, 3]]
}

/// Runs one cycle with the bookmark at `head`, answering fetches from the graph above,
/// and returns the outcome together with the bundle saved, if any.
fn run_cycle(
    t: &mut SegmentedChangelogTailer,
    latest: Option<Bundle>,
    head: Option<u64>,
    save_ok: bool,
) -> (CycleOutcome, Option<Bundle>) {
    let mut saved = None;
    let mut action = t.step(Event::Tick);
    loop {
        action = match action {
            Action::LoadBundle => t.step(Event::Loaded(latest.as_ref().map(|b| Bundle {
                idmap_version: b.idmap_version,
                payload: b.payload.clone(),
            }))),
            Action::ResolveBookmark => t.step(Event::Resolved(head.map(CommitId))),
            Action::FetchParents(c) => {
                if c.0 > E {
                    t.step(Event::Fetched(None))
                } else {
                    t.step(Event::Fetched(Some(parents_of(c.0))))
                }
            }
            Action::Save(b) => {
                saved = Some(b);
                t.step(Event::Saved(save_ok))
            }
            Action::Sleep(outcome) => return (outcome, saved),
            Action::Ignore => panic!("event ignored"),
        };
    }
}

#[test]
fn merge_scenario_assigns_in_topological_order() {
    let mut t = SegmentedChangelogTailer::new(1, IdMap::new());
    let (outcome, saved) = run_cycle(&mut t, None, Some(E), true);
    assert_eq!(outcome, CycleOutcome::Updated(4));
    assert!(saved.is_some());
    let m = t.idmap();
    assert_eq!(m.lookup(CommitId(A)), Some(0));
    assert_eq!(m.lookup(CommitId(B)), Some(1));
    assert_eq!(m.lookup(CommitId(C)), Some(2));
    assert_eq!(m.lookup(CommitId(D)), Some(3));
    assert_eq!(m.lookup(CommitId(E)), Some(4));
    assert_eq!(t.iddag().next_free_id(Group::Master), 5);
    // The segments cover [0, 4] exactly, in order.
    let s = t.iddag();
    let mut expected_low = 0;
    for i in 0..s.len() {
        assert_eq!(s.segment(i).low, expected_low);
        assert!(s.segment(i).high >= s.segment(i).low);
        expected_low = s.segment(i).high + 1;
    }
    assert_eq!(expected_low, 5);
    assert_eq!(t.phase(), Phase::Sleeping);
}

#[test]
fn unchanged_bookmark_skips_rebuild_and_save() {
    let mut t = SegmentedChangelogTailer::new(1, IdMap::new());
    let (_, saved) = run_cycle(&mut t, None, Some(E), true);
    let version = t.idmap().current_version();
    let (outcome, saved_again) = run_cycle(&mut t, saved, Some(E), true);
    assert_eq!(outcome, CycleOutcome::Skipped(4));
    assert!(saved_again.is_none());
    assert_eq!(t.idmap().current_version(), version);
    assert_eq!(t.idmap().next_free_id(Group::Master), 5);
}

#[test]
fn unreachable_head_fails_fetch_without_assigning() {
    let mut t = SegmentedChangelogTailer::new(1, IdMap::new());
    let (outcome, saved) = run_cycle(&mut t, None, Some(99), true);
    assert_eq!(outcome, CycleOutcome::Failed(TailerError::FetchFailure));
    assert!(saved.is_none());
    assert_eq!(t.idmap().lookup(CommitId(99)), None);
    assert_eq!(t.idmap().current_version(), 0);
    // The loop goes on: the next cycle succeeds.
    let (outcome, _) = run_cycle(&mut t, None, Some(E), true);
    assert_eq!(outcome, CycleOutcome::Updated(4));
}

#[test]
fn missing_bookmark_fails_the_cycle() {
    let mut t = SegmentedChangelogTailer::new(1, IdMap::new());
    let (outcome, _) = run_cycle(&mut t, None, None, true);
    assert_eq!(outcome, CycleOutcome::Failed(TailerError::BookmarkMissing));
}

#[test]
fn failed_save_is_reported_and_healed_next_cycle() {
    let mut t = SegmentedChangelogTailer::new(1, IdMap::new());
    let (outcome, _) = run_cycle(&mut t, None, Some(E), false);
    assert_eq!(outcome, CycleOutcome::Failed(TailerError::PersistError));
    // The IdMap kept the assignment; with no snapshot the store is rebuilt from it.
    let (outcome, saved) = run_cycle(&mut t, None, Some(E), true);
    assert_eq!(outcome, CycleOutcome::Updated(4));
    assert!(saved.is_some());
}

#[test]
fn corrupt_bundle_fails_the_cycle() {
    let mut t = SegmentedChangelogTailer::new(1, IdMap::new());
    let bad = Bundle { idmap_version: 0, payload: vec![1, 1, 0, 0, 1, 0] };
    let (outcome, _) = run_cycle(&mut t, Some(bad), Some(E), true);
    assert_eq!(outcome, CycleOutcome::Failed(TailerError::CorruptBundle));
}

#[test]
fn incremental_cycle_extends_existing_index() {
    let mut t = SegmentedChangelogTailer::new(1, IdMap::new());
    let (_, saved) = run_cycle(&mut t, None, Some(C), true);
    assert_eq!(t.idmap().lookup(CommitId(C)), Some(2));
    let (outcome, _) = run_cycle(&mut t, saved, Some(E), true);
    assert_eq!(outcome, CycleOutcome::Updated(4));
    assert_eq!(t.idmap().lookup(CommitId(D)), Some(3));
    assert_eq!(t.iddag().parent_vertices(4), Ok(vec![2, 3]));
}

#[test]
fn unexpected_event_is_ignored() {
    let mut t = SegmentedChangelogTailer::new(1, IdMap::new());
    assert!(matches!(t.step(Event::Saved(true)), Action::Ignore));
    assert_eq!(t.phase(), Phase::Idle);
}

#[test]
fn build_segments_on_merge_graph() {
    let s = SegmentStore::build_segments(4, &scenario_table());
    assert_eq!(s.len(), 3);
    let s0 = s.segment(0);
    assert_eq!((s0.low, s0.high, s0.is_root, s0.is_head), (0, 2, true, false));
    let s1 = s.segment(1);
    assert_eq!((s1.low, s1.high, s1.parents.clone(), s1.is_head), (3, 3, vec![1], false));
    let s2 = s.segment(2);
    assert_eq!((s2.low, s2.high, s2.parents.clone(), s2.is_head), (4, 4, vec![2, 3], true));
    assert_eq!(s.next_free_id(Group::Master), 5);
    assert_eq!(s.next_free_id(Group::NonMaster), NON_MASTER_START);
}

#[test]
fn parent_vertices_follow_segments() {
    let s = SegmentStore::build_segments(4, &scenario_table());
    for (v, ps) in scenario_table().into_iter().enumerate() {
        assert_eq!(s.parent_vertices(v as u64), Ok(ps));
    }
    assert_eq!(s.parent_vertices(5), Err(SegmentError::UnknownVertex));
    assert_eq!(s.parent_table(), scenario_table());
}

#[test]
fn linear_history_is_one_segment() {
    let table = vec![vec![], vec![0], vec![1], vec![2]];
    let s = SegmentStore::build_segments(3, &table);
    assert_eq!(s.len(), 1);
    assert!(s.segment(0).is_root && s.segment(0).is_head);
}

#[test]
fn two_builds_give_identical_segments() {
    let a = SegmentStore::build_segments(4, &scenario_table());
    let b = SegmentStore::build_segments(4, &scenario_table());
    assert_eq!(a.encode(), b.encode());
}

#[test]
fn empty_store_covers_nothing() {
    let s = SegmentStore::new();
    assert_eq!(s.len(), 0);
    assert_eq!(s.next_free_id(Group::Master), 0);
    assert_eq!(s.parent_vertices(0), Err(SegmentError::UnknownVertex));
}

#[test]
fn encode_then_decode_round_trips() {
    let s = SegmentStore::build_segments(4, &scenario_table());
    let payload = s.encode();
    assert_eq!(payload, vec![5, 3, 0, 2, 1, 0, 3, 3, 0, 1, 1, 4, 4, 2, 2, 2, 3]);
    let t = SegmentStore::decode(&payload).ok().unwrap();
    assert_eq!(t.next_free_id(Group::Master), 5);
    for v in 0..5 {
        assert_eq!(t.parent_vertices(v), s.parent_vertices(v));
    }
}

#[test]
fn decode_rejects_malformed_payloads() {
    // Too short, a gap between segments, trailing words, bad flags.
    for p in [
        vec![1],
        vec![3, 2, 0, 0, 1, 0, 2, 2, 0, 0],
        vec![1, 1, 0, 0, 1, 0, 7],
        vec![1, 1, 0, 0, 9, 0],
        // A parent above the segment, and a root flag on a segment with parents.
        vec![2, 2, 0, 0, 1, 0, 1, 1, 0, 1, 5],
        vec![2, 2, 0, 0, 1, 0, 1, 1, 1, 1, 0],
        // No root flag on a segment without parents.
        vec![1, 1, 0, 0, 0, 0],
    ] {
        assert!(matches!(SegmentStore::decode(&p), Err(LoadError::CorruptBundle)));
    }
}

#[test]
fn manager_pairs_store_with_version() {
    let mut m = IdMap::new();
    let batch = vec![Assignment { commit: CommitId(A), vertex: 0, parents: vec![] }];
    assert_eq!(m.insert_batch(&batch), Ok(()));
    let store = SegmentStore::build_segments(0, &vec![vec![]]);
    let mgr = SegmentedChangelogManager::new();
    let b = mgr.save_dag(&store, m.current_version());
    assert_eq!(b.idmap_version, 1);
    assert!(mgr.load_dag(Some(&b), &m).is_ok());
    assert!(matches!(mgr.load_dag(None, &m), Err(LoadError::NoPersistedState)));
    // Version 0 of the IdMap resolves no vertex: the pairing is corrupt.
    let stale = Bundle { idmap_version: 0, payload: b.payload.clone() };
    assert!(matches!(mgr.load_dag(Some(&stale), &m), Err(LoadError::CorruptBundle)));
    let future = Bundle { idmap_version: 7, payload: b.payload.clone() };
    assert!(matches!(mgr.load_dag(Some(&future), &m), Err(LoadError::CorruptBundle)));
}

#[test]
fn insert_batch_assigns_and_versions() {
    let mut m = IdMap::new();
    let batch = vec![
        Assignment { commit: CommitId(A), vertex: 0, parents: vec![] },
        Assignment { commit: CommitId(B), vertex: 1, parents: vec![0] },
        Assignment { commit: CommitId(C), vertex: NON_MASTER_START, parents: vec![] },
    ];
    assert_eq!(m.insert_batch(&batch), Ok(()));
    assert_eq!(m.current_version(), 1);
    assert_eq!(m.lookup(CommitId(B)), Some(1));
    assert_eq!(m.lookup_reverse(0), Some(CommitId(A)));
    assert_eq!(m.lookup_reverse(NON_MASTER_START), Some(CommitId(C)));
    assert_eq!(m.lookup_reverse(2), None);
    assert_eq!(m.next_free_id(Group::Master), 2);
    assert_eq!(m.next_free_id(Group::NonMaster), NON_MASTER_START + 1);
    assert_eq!(m.master_len_at(0), Some(0));
    assert_eq!(m.master_len_at(1), Some(2));
    assert_eq!(m.master_len_at(2), None);
    assert_eq!(m.parent_rows(), &vec![vec![], vec![0]]);
}

#[test]
fn insert_batch_rejects_duplicates_without_change() {
    let mut m = IdMap::new();
    let first = vec![Assignment { commit: CommitId(A), vertex: 0, parents: vec![] }];
    assert_eq!(m.insert_batch(&first), Ok(()));
    let again = vec![
        Assignment { commit: CommitId(B), vertex: 1, parents: vec![0] },
        Assignment { commit: CommitId(A), vertex: 2, parents: vec![] },
    ];
    assert_eq!(m.insert_batch(&again), Err(IdMapError::DuplicateAssignment));
    assert_eq!(m.lookup(CommitId(B)), None);
    assert_eq!(m.current_version(), 1);
}

#[test]
fn insert_batch_rejects_gaps() {
    let mut m = IdMap::new();
    let gap = vec![Assignment { commit: CommitId(A), vertex: 1, parents: vec![] }];
    assert_eq!(m.insert_batch(&gap), Err(IdMapError::NonMonotonicId));
    assert_eq!(m.current_version(), 0);
    assert_eq!(m.lookup(CommitId(A)), None);
}

#[test]
fn discovery_visits_first_parent_first() {
    let m = IdMap::new();
    let mut d = Discovery::start(&m, CommitId(E));
    let mut order = vec![];
    while let Some(c) = d.next_fetch() {
        order.push(c.0);
        d.record(&m, parents_of(c.0));
    }
    assert_eq!(order, vec![E, C, B, A, D]);
    assert_eq!(d.found().len(), 5);
}

#[test]
fn discovery_stops_at_indexed_commits() {
    let mut m = IdMap::new();
    let batch = vec![
        Assignment { commit: CommitId(A), vertex: 0, parents: vec![] },
        Assignment { commit: CommitId(B), vertex: 1, parents: vec![0] },
    ];
    assert_eq!(m.insert_batch(&batch), Ok(()));
    let mut d = Discovery::start(&m, CommitId(C));
    assert_eq!(d.next_fetch(), Some(CommitId(C)));
    d.record(&m, parents_of(C));
    assert_eq!(d.next_fetch(), None);
    let d2 = Discovery::start(&m, CommitId(B));
    assert_eq!(d2.next_fetch(), None);
}

#[test]
fn assign_new_orders_parents_first() {
    let mut m = IdMap::new();
    let found = vec![
        Fetched { commit: CommitId(E), parents: ids(&[C, D]) },
        Fetched { commit: CommitId(C), parents: ids(&[B]) },
        Fetched { commit: CommitId(B), parents: ids(&[A]) },
        Fetched { commit: CommitId(A), parents: vec![] },
        Fetched { commit: CommitId(D), parents: ids(&[B]) },
    ];
    assert_eq!(assign_new(&mut m, &found), Ok(()));
    assert_eq!(m.lookup(CommitId(D)), Some(3));
    assert_eq!(m.parent_rows(), &scenario_table());
}

#[test]
fn assign_new_reports_unresolved_parent() {
    let mut m = IdMap::new();
    let found = vec![Fetched { commit: CommitId(B), parents: ids(&[A]) }];
    assert_eq!(assign_new(&mut m, &found), Err(BuildError::UnresolvedParent));
    assert_eq!(m.current_version(), 0);
}

#[test]
fn assign_new_reports_duplicate() {
    let mut m = IdMap::new();
    let found = vec![
        Fetched { commit: CommitId(A), parents: vec![] },
        Fetched { commit: CommitId(A), parents: vec![] },
    ];
    assert_eq!(assign_new(&mut m, &found), Err(BuildError::DuplicateAssignment));
    assert_eq!(m.lookup(CommitId(A)), None);
}

#[test]
fn run_stream_options_defaults_and_chains() {
    let mut o = RunStreamOptions::new();
    assert_eq!(o.buffer_size, STREAM_BUFFER_SIZE);
    assert_eq!(STREAM_BUFFER_SIZE, 128);
    o.buffer_size(1).buffer_size(3);
    assert_eq!(o.buffer_size, 3);
}

#[test]
fn store_errors_fail_the_cycle() {
    let mut t = SegmentedChangelogTailer::new(1, IdMap::new());
    assert!(matches!(t.step(Event::Tick), Action::LoadBundle));
    assert!(matches!(
        t.step(Event::LoadFailed),
        Action::Sleep(CycleOutcome::Failed(TailerError::PersistError))
    ));
    assert!(matches!(t.step(Event::Tick), Action::LoadBundle));
    assert!(matches!(t.step(Event::Loaded(None)), Action::ResolveBookmark));
    assert!(matches!(
        t.step(Event::ResolveFailed),
        Action::Sleep(CycleOutcome::Failed(TailerError::BookmarkUnavailable))
    ));
}

#[test]
fn tick_restarts_an_abandoned_cycle() {
    let mut t = SegmentedChangelogTailer::new(1, IdMap::new());
    assert!(matches!(t.step(Event::Tick), Action::LoadBundle));
    assert!(matches!(t.step(Event::Loaded(None)), Action::ResolveBookmark));
    assert!(matches!(t.step(Event::Resolved(Some(CommitId(E)))), Action::FetchParents(_)));
    let (outcome, _) = run_cycle(&mut t, None, Some(E), true);
    assert_eq!(outcome, CycleOutcome::Updated(4));
}

#[test]
fn idmap_restores_from_its_parts() {
    let mut t = SegmentedChangelogTailer::new(1, IdMap::new());
    let (_, saved) = run_cycle(&mut t, None, Some(E), true);
    let m = t.idmap();
    let r = IdMap::restore(
        m.master_commits().clone(),
        m.parent_rows().clone(),
        m.non_master_commits().clone(),
        m.history().clone(),
    )
    .unwrap();
    assert_eq!(r.lookup(CommitId(D)), Some(3));
    assert_eq!(r.current_version(), 1);
    // A restarted tailer over the restored IdMap skips the unchanged bookmark.
    let mut t2 = SegmentedChangelogTailer::new(1, r);
    let (outcome, again) = run_cycle(&mut t2, saved, Some(E), true);
    assert_eq!(outcome, CycleOutcome::Skipped(4));
    assert!(again.is_none());
}

#[test]
fn restore_rejects_inconsistent_parts() {
    assert!(IdMap::restore(vec![A, A], vec![vec![], vec![0]], vec![], vec![0, 2]).is_none());
    assert!(IdMap::restore(vec![A], vec![], vec![], vec![1]).is_none());
    assert!(IdMap::restore(vec![A], vec![vec![]], vec![], vec![0]).is_none());
    assert!(IdMap::restore(vec![A], vec![vec![]], vec![A], vec![1]).is_none());
    // A parent row that is not below its vertex.
    assert!(IdMap::restore(vec![A, B], vec![vec![], vec![1]], vec![], vec![2]).is_none());
    assert!(IdMap::restore(vec![A], vec![vec![]], vec![B], vec![0, 1]).is_some());
}
