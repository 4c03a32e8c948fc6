use disco::keys::{bin_to_id, id_to_bin};
use disco::log_store::{LogBound, LogRange, LogStore};
use disco::service::{init_nodes, learner_node, set_reply, AppServiceImpl, ServiceError};
use disco::state_machine::StateMachineStore;
use disco::types::{
    Entry, EntryPayload, LogId, Membership, Node, Response, SetRequest, SnapshotMeta,
    StorageError, StoredMembership, Vote,
};

fn lid(index: u64) -> LogId {
    LogId { term: 1, leader_id: 1, index }
}

fn set_entry(index: u64, k: &str, v: &str) -> Entry {
    Entry {
        log_id: lid(index),
        payload: EntryPayload::Normal(SetRequest { key: k.to_string(), value: v.to_string() }),
    }
}

fn blank(index: u64) -> Entry {
    Entry { log_id: lid(index), payload: EntryPayload::Blank }
}

fn indices(es: &[Entry]) -> Vec<u64> {
    es.iter().map(|e| e.log_id.index).collect()
}

fn range(start: LogBound, end: LogBound) -> LogRange {
    LogRange { start, end }
}

fn log_1_to_10() -> LogStore {
    let mut store = LogStore::new();
    store.append((1..=10).map(blank).collect());
    store
}

fn value_of(sm: &mut StateMachineStore, k: &str) -> Result<Option<String>, ServiceError> {
    let svc = AppServiceImpl::new(std::mem::replace(sm, StateMachineStore::new(None).unwrap()));
    let r = svc.get(&k.to_string()).map(|r| r.value);
    *sm = svc.state_machine_store;
    r
}

#[test]
fn key_is_big_endian() {
    assert_eq!(id_to_bin(1), vec![0, 0, 0, 0, 0, 0, 0, 1]);
    assert_eq!(id_to_bin(0x0102_0304_0506_0708), vec![1, 2, 3, 4, 5, 6, 7, 8]);
    assert_eq!(id_to_bin(u64::MAX), vec![0xff; 8]);
    assert_eq!(id_to_bin(256), vec![0, 0, 0, 0, 0, 0, 1, 0]);
}

#[test]
fn key_round_trip_and_order() {
    for n in [0u64, 1, 255, 256, 65_535, 1 << 40, u64::MAX - 1, u64::MAX] {
        assert_eq!(bin_to_id(&id_to_bin(n)), n);
    }
    assert!(id_to_bin(255) < id_to_bin(256));
    assert!(id_to_bin(9) < id_to_bin(10));
    assert!(id_to_bin(1 << 32) > id_to_bin((1 << 32) - 1));
}

#[test]
fn append_then_read_back_slices() {
    let mut store = LogStore::new();
    let es: Vec<Entry> = (3..=12).map(|i| set_entry(i, "k", &i.to_string())).collect();
    store.append(es);
    let got = store.try_get_log_entries(range(LogBound::Included(5), LogBound::Excluded(8)));
    assert_eq!(indices(&got), vec![5, 6, 7]);
    match &got[0].payload {
        EntryPayload::Normal(r) => assert_eq!(r.value, "5"),
        _ => panic!("wrong payload"),
    }
    let all = store.try_get_log_entries(range(LogBound::Unbounded, LogBound::Unbounded));
    assert_eq!(indices(&all), (3..=12).collect::<Vec<u64>>());
    let tail = store.try_get_log_entries(range(LogBound::Excluded(10), LogBound::Included(100)));
    assert_eq!(indices(&tail), vec![11, 12]);
    let none = store.try_get_log_entries(range(LogBound::Included(20), LogBound::Unbounded));
    assert!(none.is_empty());
}

#[test]
fn truncate_at_five_keeps_one_to_four() {
    let mut store = log_1_to_10();
    store.truncate(lid(5));
    let got = store.try_get_log_entries(range(LogBound::Included(1), LogBound::Included(10)));
    assert_eq!(indices(&got), vec![1, 2, 3, 4]);
    let st = store.get_log_state();
    assert_eq!(st.last_log_id, Some(lid(4)));
    assert_eq!(st.last_purged_log_id, None);
    let after = store.try_get_log_entries(range(LogBound::Included(5), LogBound::Unbounded));
    assert!(after.is_empty());
}

#[test]
fn purge_at_seven_reports_log_state() {
    let mut store = log_1_to_10();
    let mut sm = StateMachineStore::new(None).unwrap();
    sm.apply(store.try_get_log_entries(range(LogBound::Unbounded, LogBound::Unbounded)));
    let snap = sm.build_snapshot().unwrap();
    assert_eq!(snap.meta.last_log_id, Some(lid(10)));
    store.purge(lid(7));
    let st = store.get_log_state();
    assert_eq!(st.last_purged_log_id.map(|l| l.index), Some(7));
    assert_eq!(st.last_log_id.map(|l| l.index), Some(10));
    let gone = store.try_get_log_entries(range(LogBound::Included(0), LogBound::Included(7)));
    assert!(gone.is_empty());
    assert_eq!(
        indices(&store.try_get_log_entries(range(LogBound::Unbounded, LogBound::Unbounded))),
        vec![8, 9, 10]
    );
}

#[test]
fn purge_everything_keeps_watermark_as_last() {
    let mut store = log_1_to_10();
    store.purge(lid(10));
    let st = store.get_log_state();
    assert_eq!(st.last_purged_log_id, Some(lid(10)));
    assert_eq!(st.last_log_id, Some(lid(10)));
    store.append(vec![blank(11)]);
    assert_eq!(store.get_log_state().last_log_id, Some(lid(11)));
    store.purge(LogId { term: 1, leader_id: 1, index: u64::MAX });
    assert_eq!(store.get_log_state().last_log_id.map(|l| l.index), Some(u64::MAX));
}

#[test]
fn empty_log_state() {
    let store = LogStore::new();
    let st = store.get_log_state();
    assert_eq!(st.last_log_id, None);
    assert_eq!(st.last_purged_log_id, None);
    assert_eq!(store.read_vote(), None);
    assert_eq!(store.read_committed(), None);
}

#[test]
fn last_saved_vote_is_read() {
    let mut store = LogStore::new();
    let v1 = Vote { term: 1, node_id: 1, committed: false };
    let v2 = Vote { term: 2, node_id: 3, committed: true };
    store.save_vote(&v1);
    assert_eq!(store.read_vote(), Some(v1));
    store.save_vote(&v2);
    assert_eq!(store.read_vote(), Some(v2));
    let reader = store.get_log_reader();
    assert_eq!(reader.read_vote(), Some(v2));
    store.save_committed(Some(lid(3)));
    assert_eq!(store.read_committed(), Some(lid(3)));
}

#[test]
fn apply_returns_responses_in_order() {
    let mut sm = StateMachineStore::new(None).unwrap();
    let mem = Membership {
        voters: vec![1],
        nodes: vec![Node { node_id: 1, rpc_addr: "addr1".to_string() }],
    };
    let replies = sm.apply(vec![
        blank(1),
        set_entry(2, "a", "1"),
        Entry { log_id: lid(3), payload: EntryPayload::Membership(mem) },
    ]);
    let values: Vec<Option<String>> = replies.into_iter().map(|r| r.value).collect();
    assert_eq!(values, vec![None, Some("1".to_string()), None]);
    let (applied, membership) = sm.applied_state();
    assert_eq!(applied, Some(lid(3)));
    assert_eq!(membership.log_id, Some(lid(3)));
    assert_eq!(membership.membership.voters, vec![1]);
}

#[test]
fn set_then_get_and_missing_key() {
    let mut sm = StateMachineStore::new(None).unwrap();
    let r = sm.apply(vec![set_entry(1, "a", "1")]);
    assert_eq!(r[0].value, Some("1".to_string()));
    assert_eq!(value_of(&mut sm, "a"), Ok(Some("1".to_string())));
    assert_eq!(value_of(&mut sm, "b"), Err(ServiceError::NotFound("b".to_string())));
    sm.apply(vec![set_entry(2, "a", "2")]);
    assert_eq!(value_of(&mut sm, "a"), Ok(Some("2".to_string())));
}

#[test]
fn snapshot_bytes_and_id() {
    let mut sm = StateMachineStore::new(None).unwrap();
    let empty = sm.build_snapshot().unwrap();
    assert_eq!(empty.meta.snapshot_id, "--0");
    assert_eq!(empty.data, b"{}".to_vec());
    sm.apply(vec![set_entry(1, "b", "2"), set_entry(2, "a", "1")]);
    let builder = sm.get_snapshot_builder();
    let snap = builder.build_snapshot().unwrap();
    assert_eq!(snap.data, br#"{"a":"1","b":"2"}"#.to_vec());
    assert_eq!(snap.meta.snapshot_id, "1-2-1");
    assert_eq!(snap.meta.last_log_id, Some(lid(2)));
}

#[test]
fn replay_gives_equal_snapshot_bytes() {
    let es = || vec![set_entry(1, "x", "1"), blank(2), set_entry(3, "y", "2"), set_entry(4, "x", "3")];
    let mut a = StateMachineStore::new(None).unwrap();
    let mut b = StateMachineStore::new(None).unwrap();
    a.apply(es());
    b.apply(es());
    b.get_snapshot_builder();
    assert_eq!(a.build_snapshot().unwrap().data, b.build_snapshot().unwrap().data);
}

#[test]
fn snapshot_round_trip_on_fresh_machine() {
    let mut sm = StateMachineStore::new(None).unwrap();
    sm.apply(vec![set_entry(1, "a", "1"), set_entry(2, "b", "2")]);
    let snap = sm.build_snapshot().unwrap();
    let mut fresh = StateMachineStore::new(None).unwrap();
    let mut buf = fresh.begin_receiving_snapshot();
    assert!(buf.is_empty());
    buf.extend_from_slice(&snap.data);
    let stored = fresh.install_snapshot(&snap.meta, buf).unwrap();
    assert_eq!(stored.data, snap.data);
    assert_eq!(value_of(&mut fresh, "a"), Ok(Some("1".to_string())));
    assert_eq!(value_of(&mut fresh, "b"), Ok(Some("2".to_string())));
    assert_eq!(fresh.applied_state().0, snap.meta.last_log_id);
    assert_eq!(fresh.build_snapshot().unwrap().data, snap.data);
}

#[test]
fn install_rejects_bad_bytes() {
    let mut sm = StateMachineStore::new(None).unwrap();
    sm.apply(vec![set_entry(1, "a", "1")]);
    let meta = SnapshotMeta {
        last_log_id: Some(lid(9)),
        last_membership: StoredMembership::initial(),
        snapshot_id: "1-9-3".to_string(),
    };
    let r = sm.install_snapshot(&meta, b"not json".to_vec());
    assert_eq!(r.err(), Some(StorageError::ReadSnapshot("1-9-3".to_string())));
    assert_eq!(value_of(&mut sm, "a"), Ok(Some("1".to_string())));
    assert_eq!(sm.applied_state().0, Some(lid(1)));
}

#[test]
fn restart_from_stored_snapshot() {
    let mut sm = StateMachineStore::new(None).unwrap();
    sm.apply(vec![set_entry(1, "k", "v")]);
    let stored = sm.build_snapshot().unwrap();
    let mut restarted = StateMachineStore::new(Some(stored)).unwrap();
    assert_eq!(value_of(&mut restarted, "k"), Ok(Some("v".to_string())));
    assert_eq!(restarted.applied_state().0, Some(lid(1)));
    let bad = disco::types::StoredSnapshot {
        meta: SnapshotMeta {
            last_log_id: None,
            last_membership: StoredMembership::initial(),
            snapshot_id: "--4".to_string(),
        },
        data: b"[1,2]".to_vec(),
    };
    assert_eq!(
        StateMachineStore::new(Some(bad)).err(),
        Some(StorageError::ReadSnapshot("--4".to_string()))
    );
}

#[test]
fn init_nodes_one_per_id() {
    let n = |id: u64, a: &str| Node { node_id: id, rpc_addr: a.to_string() };
    let r = init_nodes(vec![n(1, "a1"), n(2, "a2"), n(1, "a1b"), n(3, "a3")]);
    let mut got: Vec<(u64, String)> = r.into_iter().map(|x| (x.node_id, x.rpc_addr)).collect();
    got.sort();
    assert_eq!(
        got,
        vec![(1, "a1b".to_string()), (2, "a2".to_string()), (3, "a3".to_string())]
    );
}

#[test]
fn learner_needs_node_and_write_errors_map() {
    assert!(matches!(learner_node(None), Err(ServiceError::InvalidArgument(_))));
    let node = learner_node(Some(Node { node_id: 4, rpc_addr: "addr4".to_string() })).unwrap();
    assert_eq!(node.node_id, 4);
    assert_eq!(
        set_reply(Err("not leader".to_string())).err(),
        Some(ServiceError::Unavailable("not leader".to_string()))
    );
    let ok = set_reply(Ok(Response { value: Some("y".to_string()) })).unwrap();
    assert_eq!(ok.value, Some("y".to_string()));
}

#[test]
fn membership_entry_with_four_voters() {
    let mut sm = StateMachineStore::new(None).unwrap();
    let nodes = init_nodes(
        (1..=4).map(|i| Node { node_id: i, rpc_addr: format!("addr{}", i) }).collect(),
    );
    let mem = Membership { voters: vec![1, 2, 3, 4], nodes };
    sm.apply(vec![Entry { log_id: lid(5), payload: EntryPayload::Membership(mem) }]);
    sm.apply(vec![set_entry(6, "x", "y")]);
    let (_, m) = sm.applied_state();
    assert_eq!(m.membership.voters, vec![1, 2, 3, 4]);
    assert_eq!(m.log_id, Some(lid(5)));
    assert_eq!(value_of(&mut sm, "x"), Ok(Some("y".to_string())));
}

#[test]
fn restore_checks_density_and_watermark() {
    let v = Vote { term: 3, node_id: 2, committed: true };
    let ok = LogStore::restore((5..=8).map(blank).collect(), Some(lid(4)), Some(v), Some(lid(6)))
        .unwrap();
    assert_eq!(ok.read_vote(), Some(v));
    assert_eq!(ok.read_committed(), Some(lid(6)));
    assert_eq!(ok.get_log_state().last_log_id, Some(lid(8)));
    assert!(LogStore::restore(vec![blank(1), blank(3)], None, None, None).is_none());
    assert!(LogStore::restore(vec![blank(4), blank(5)], Some(lid(4)), None, None).is_none());
    assert!(LogStore::restore(Vec::new(), Some(lid(4)), None, None).is_some());
}

#[test]
fn can_append_only_after_tail() {
    let mut store = LogStore::new();
    assert!(store.can_append(&vec![blank(3), blank(4)]));
    assert!(!store.can_append(&vec![blank(3), blank(5)]));
    store.append(vec![blank(3), blank(4)]);
    assert!(store.can_append(&vec![blank(5)]));
    assert!(!store.can_append(&vec![blank(6)]));
    assert!(store.can_append(&Vec::new()));
    store.purge(lid(4));
    assert!(store.can_append(&vec![blank(5)]));
    assert!(!store.can_append(&vec![blank(4)]));
}

#[test]
fn snapshot_id_uses_decimal_numbers() {
    let mut sm = StateMachineStore::new(None).unwrap();
    sm.apply(vec![Entry {
        log_id: LogId { term: 3, leader_id: 17, index: 12345 },
        payload: EntryPayload::Blank,
    }]);
    for _ in 0..10 {
        sm.get_snapshot_builder();
    }
    let snap = sm.build_snapshot().unwrap();
    assert_eq!(snap.meta.snapshot_id, "17-12345-10");
    assert_eq!(snap.meta.last_log_id.map(|l| l.term), Some(3));
}

#[test]
fn log_state_takes_later_of_tail_and_watermark() {
    let mut store = LogStore::new();
    store.append(vec![blank(4), blank(5)]);
    let watermark = LogId { term: 2, leader_id: 3, index: 4 };
    store.purge(watermark);
    let st = store.get_log_state();
    assert_eq!(st.last_purged_log_id, Some(watermark));
    assert_eq!(st.last_log_id, Some(watermark));
    store.append(vec![Entry { log_id: LogId { term: 2, leader_id: 3, index: 6 }, payload: EntryPayload::Blank }]);
    assert_eq!(store.get_log_state().last_log_id.map(|l| l.index), Some(6));
}
