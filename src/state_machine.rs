//! The replicated state machine: applies committed entries to the map and
//! packs the map into snapshots.
use vstd::prelude::*;
use crate::codec::{decimal, decimal_text, decode_kvs, encode_kvs, kvs_from_json, kvs_json};
use crate::kv::KvMap;
use crate::types::{
    entries_view, initial_membership, Entry, EntryPayload, EntryView, LogId, PayloadView,
    Response, SnapshotMeta, StorageError, StoredMembership, StoredMembershipView, StoredSnapshot,
    StoredSnapshotView, SnapshotMetaView, opt_string_view,
};
use vstd::string::StringExecFns;

verus! {

/// What the state machine holds: the last applied log id, the membership in
/// force, and the map.
pub struct MachineView {
    pub last_applied: Option<LogId>,
    pub membership: StoredMembershipView,
    pub kvs: Map<Seq<char>, Seq<char>>,
}

/// The state of a state machine that has applied nothing.
pub open spec fn fresh_machine() -> MachineView {
    MachineView {
        last_applied: None,
        membership: initial_membership(),
        kvs: Map::empty(),
    }
}

/// The effect of applying one committed entry.
pub open spec fn apply_entry(s: MachineView, e: EntryView) -> MachineView {
    match e.payload {
        PayloadView::Blank => MachineView {
            last_applied: Some(e.log_id),
            membership: s.membership,
            kvs: s.kvs,
        },
        PayloadView::Normal(k, v) => MachineView {
            last_applied: Some(e.log_id),
            membership: s.membership,
            kvs: s.kvs.insert(k, v),
        },
        PayloadView::Membership(m) => MachineView {
            last_applied: Some(e.log_id),
            membership: StoredMembershipView { log_id: Some(e.log_id), membership: m },
            kvs: s.kvs,
        },
    }
}

/// The effect of applying `es` in order.
pub open spec fn apply_all(s: MachineView, es: Seq<EntryView>) -> MachineView
    decreases es.len(),
{
    if es.len() == 0 {
        s
    } else {
        apply_entry(apply_all(s, es.drop_last()), es.last())
    }
}

/// The value a client is told for an applied entry: the value of a write,
/// nothing otherwise.
pub open spec fn response_of(e: EntryView) -> Option<Seq<char>> {
    match e.payload {
        PayloadView::Normal(_, v) => Some(v),
        _ => None,
    }
}

/// `"{leader_id}-{index}-{counter}"`, or `"--{counter}"` before any entry
/// has been applied.
pub open spec fn snapshot_id_of(last: Option<LogId>, counter: u64) -> Seq<char> {
    match last {
        Some(l) => decimal(l.leader_id as nat) + seq!['-'] + decimal(l.index as nat) + seq!['-']
            + decimal(counter as nat),
        None => seq!['-', '-'] + decimal(counter as nat),
    }
}

/// The state a snapshot with this meta and this decoded map installs.
pub open spec fn installed(meta: SnapshotMetaView, m: Map<Seq<char>, Seq<char>>) -> MachineView {
    MachineView { last_applied: meta.last_log_id, membership: meta.last_membership, kvs: m }
}

/// The bytes a snapshot of this state carries.
pub open spec fn snapshot_data_of(v: MachineView) -> Seq<u8> {
    kvs_json(v.kvs)
}

/// The state machine's data.
pub struct StateMachineData {
    pub last_applied_log_id: Option<LogId>,
    pub last_membership: StoredMembership,
    /// State built from applying the raft logs
    pub kvs: KvMap,
}

pub struct StateMachineStore {
    pub data: StateMachineData,
    /// Suffix of snapshot ids; counts the snapshot builders handed out.
    snapshot_idx: u64,
}

impl View for StateMachineStore {
    type V = MachineView;

    closed spec fn view(&self) -> MachineView {
        MachineView {
            last_applied: self.data.last_applied_log_id,
            membership: self.data.last_membership@,
            kvs: self.data.kvs@,
        }
    }
}

impl StateMachineStore {
    pub closed spec fn wf(&self) -> bool {
        self.data.kvs.wf()
    }

    pub closed spec fn counter(&self) -> u64 {
        self.snapshot_idx
    }

    fn fresh() -> (r: StateMachineStore)
        ensures
            r.wf(),
            r@ == fresh_machine(),
            r.counter() == 0,
    {
        StateMachineStore {
            data: StateMachineData {
                last_applied_log_id: None,
                last_membership: StoredMembership::initial(),
                kvs: KvMap::new(),
            },
            snapshot_idx: 0,
        }
    }

    /// A state machine hydrated from the stored snapshot, if there is one.
    pub fn new(stored: Option<StoredSnapshot>) -> (r: Result<StateMachineStore, StorageError>)
        ensures
            match stored {
                None => r is Ok && r->Ok_0@ == fresh_machine(),
                Some(s) => match kvs_from_json(s.data@) {
                    Some(m) => r is Ok && r->Ok_0@ == installed(s.meta@, m),
                    None => r is Err && r->Err_0 == StorageError::ReadSnapshot(s.meta.snapshot_id),
                },
            },
            r is Ok ==> r->Ok_0.wf() && r->Ok_0.counter() == 0,
    {
        let mut sm = StateMachineStore::fresh();
        match stored {
            None => Ok(sm),
            Some(snap) => {
                match sm.update_state_machine(&snap) {
                    Ok(()) => Ok(sm),
                    Err(e) => Err(e),
                }
            },
        }
    }

    /// Replaces the whole state by the snapshot's, or changes nothing when
    /// its data cannot be decoded.
    fn update_state_machine(&mut self, snapshot: &StoredSnapshot) -> (r: Result<(), StorageError>)
        requires
            old(self).wf(),
        ensures
            final(self).wf(),
            final(self).counter() == old(self).counter(),
            match kvs_from_json(snapshot.data@) {
                Some(m) => r is Ok && final(self)@ == installed(snapshot.meta@, m),
                None => r is Err && r->Err_0 == StorageError::ReadSnapshot(
                    snapshot.meta.snapshot_id,
                ) && final(self)@ == old(self)@,
            },
    {
        match decode_kvs(&snapshot.data) {
            Ok(pairs) => {
                self.data.last_applied_log_id = snapshot.meta.last_log_id;
                self.data.last_membership = snapshot.meta.last_membership.duplicate();
                self.data.kvs = KvMap::from_pairs(pairs);
                Ok(())
            },
            Err(_) => Err(StorageError::ReadSnapshot(snapshot.meta.snapshot_id.clone())),
        }
    }

    /// The value the map holds for `key`, if any.
    pub fn read(&self, key: &String) -> (r: Option<String>)
        requires
            self.wf(),
        ensures
            match r {
                Some(v) => self@.kvs.contains_key(key@) && self@.kvs[key@] == v@,
                None => !self@.kvs.contains_key(key@),
            },
    {
        self.data.kvs.get(key)
    }

    /// The last applied log id and the membership in force.
    pub fn applied_state(&self) -> (r: (Option<LogId>, StoredMembership))
        ensures
            r.0 == self@.last_applied,
            r.1@ == self@.membership,
    {
        (self.data.last_applied_log_id, self.data.last_membership.duplicate())
    }

    /// Applies committed entries in order, with one response per entry.
    pub fn apply(&mut self, entries: Vec<Entry>) -> (r: Vec<Response>)
        requires
            old(self).wf(),
        ensures
            final(self).wf(),
            final(self)@ == apply_all(old(self)@, entries_view(entries@)),
            final(self).counter() == old(self).counter(),
            r@.len() == entries@.len(),
            forall|i: int|
                0 <= i < r@.len() ==> opt_string_view(#[trigger] r@[i].value) == response_of(
                    entries@[i]@,
                ),
    {
        let mut replies: Vec<Response> = Vec::new();
        let mut i: usize = 0;
        while i < entries.len()
            invariant
                i <= entries@.len(),
                self.wf(),
                self@ == apply_all(old(self)@, entries_view(entries@.take(i as int))),
                self.counter() == old(self).counter(),
                replies@.len() == i,
                forall|j: int|
                    0 <= j < i ==> opt_string_view(#[trigger] replies@[j].value) == response_of(
                        entries@[j]@,
                    ),
            decreases entries@.len() - i,
        {
            let ent = &entries[i];
            let ghost before = self@;
            self.data.last_applied_log_id = Some(ent.log_id);
            let mut resp_value: Option<String> = None;
            match &ent.payload {
                EntryPayload::Blank => {},
                EntryPayload::Normal(req) => {
                    resp_value = Some(req.value.clone());
                    self.data.kvs.insert(req.key.clone(), req.value.clone());
                },
                EntryPayload::Membership(mem) => {
                    self.data.last_membership = StoredMembership {
                        log_id: Some(ent.log_id),
                        membership: mem.duplicate(),
                    };
                },
            }
            replies.push(Response { value: resp_value });
            proof {
                let es = entries_view(entries@.take(i + 1));
                assert(es.drop_last() =~= entries_view(entries@.take(i as int)));
                assert(es.last() == entries@[i as int]@);
                assert(self@ == apply_entry(before, entries@[i as int]@));
            }
            i = i + 1;
        }
        proof {
            assert(entries@.take(entries@.len() as int) =~= entries@);
        }
        replies
    }

    /// Hands out a copy of the state to build a snapshot from, and moves the
    /// counter on so that its snapshot id is new.
    pub fn get_snapshot_builder(&mut self) -> (r: StateMachineStore)
        requires
            old(self).wf(),
            old(self).counter() < u64::MAX,
        ensures
            final(self)@ == old(self)@,
            final(self).wf(),
            final(self).counter() == old(self).counter() + 1,
            r@ == final(self)@,
            r.wf(),
            r.counter() == final(self).counter(),
    {
        self.snapshot_idx = self.snapshot_idx + 1;
        StateMachineStore {
            data: StateMachineData {
                last_applied_log_id: self.data.last_applied_log_id,
                last_membership: self.data.last_membership.duplicate(),
                kvs: self.data.kvs.duplicate(),
            },
            snapshot_idx: self.snapshot_idx,
        }
    }

    fn snapshot_id(&self) -> (r: String)
        ensures
            r@ == snapshot_id_of(self@.last_applied, self.counter()),
    {
        proof {
            reveal_strlit("-");
            reveal_strlit("--");
        }
        match self.data.last_applied_log_id {
            Some(last) => {
                let mut s = decimal_text(last.leader_id);
                s.append("-");
                s.append(decimal_text(last.index).as_str());
                s.append("-");
                s.append(decimal_text(self.snapshot_idx).as_str());
                s
            },
            None => {
                let mut s = String::new();
                s.append("--");
                s.append(decimal_text(self.snapshot_idx).as_str());
                assert(s@ =~= seq!['-', '-'] + decimal(self.snapshot_idx as nat));
                s
            },
        }
    }

    /// Encodes the map and returns it with its meta; the caller stores the
    /// result as the current snapshot.
    pub fn build_snapshot(&self) -> (r: Result<StoredSnapshot, StorageError>)
        requires
            self.wf(),
        ensures
            r is Ok,
            r->Ok_0@.meta.last_log_id == self@.last_applied,
            r->Ok_0@.meta.last_membership == self@.membership,
            r->Ok_0@.meta.snapshot_id == snapshot_id_of(self@.last_applied, self.counter()),
            r->Ok_0@.data == snapshot_data_of(self@),
            kvs_from_json(r->Ok_0@.data) == Some(self@.kvs),
    {
        proof {
            self.data.kvs.lemma_bindings();
        }
        let kv_json = match encode_kvs(self.data.kvs.pairs()) {
            Ok(b) => b,
            Err(_) => {
                return Err(StorageError::ReadStateMachine);
            },
        };
        proof {
            self.data.kvs.lemma_bindings();
        }
        let meta = SnapshotMeta {
            last_log_id: self.data.last_applied_log_id,
            last_membership: self.data.last_membership.duplicate(),
            snapshot_id: self.snapshot_id(),
        };
        Ok(StoredSnapshot { meta, data: kv_json })
    }

    /// An empty buffer to receive a snapshot's bytes into.
    pub fn begin_receiving_snapshot(&self) -> (r: Vec<u8>)
        ensures
            r@.len() == 0,
    {
        Vec::new()
    }

    /// Replaces the state by the snapshot's and returns the snapshot to
    /// store; on bytes that do not decode, changes nothing.
    pub fn install_snapshot(&mut self, meta: &SnapshotMeta, snapshot: Vec<u8>) -> (r: Result<
        StoredSnapshot,
        StorageError,
    >)
        requires
            old(self).wf(),
        ensures
            final(self).wf(),
            final(self).counter() == old(self).counter(),
            match kvs_from_json(snapshot@) {
                Some(m) => r is Ok && r->Ok_0@ == (StoredSnapshotView {
                    meta: meta@,
                    data: snapshot@,
                }) && final(self)@ == installed(meta@, m),
                None => r is Err && r->Err_0 == StorageError::ReadSnapshot(meta.snapshot_id)
                    && final(self)@ == old(self)@,
            },
    {
        let new_snapshot = StoredSnapshot { meta: meta.duplicate(), data: snapshot };
        match self.update_state_machine(&new_snapshot) {
            Ok(()) => Ok(new_snapshot),
            Err(e) => {
                proof {
                    assert(kvs_from_json(new_snapshot.data@) is None);
                }
                Err(StorageError::ReadSnapshot(meta.snapshot_id.clone()))
            },
        }
    }
}

/// Applying `a` and then `b` is applying `a + b`: how a run of committed
/// entries is split into `apply` calls does not matter.
pub proof fn law_apply_split(s: MachineView, a: Seq<EntryView>, b: Seq<EntryView>)
    ensures
        apply_all(apply_all(s, a), b) == apply_all(s, a + b),
    decreases b.len(),
{
    if b.len() == 0 {
        assert(a + b =~= a);
    } else {
        law_apply_split(s, a, b.drop_last());
        assert((a + b).drop_last() =~= a + b.drop_last());
        assert((a + b).last() == b.last());
    }
}

/// Two fresh state machines that apply the same committed entries, split
/// into calls in any way, end in the same state, so their snapshots carry
/// the same bytes and the same last log id.
pub proof fn law_replay_same_bytes(
    es: Seq<EntryView>,
    a1: Seq<EntryView>,
    a2: Seq<EntryView>,
    b1: Seq<EntryView>,
    b2: Seq<EntryView>,
)
    requires
        a1 + a2 == es,
        b1 + b2 == es,
    ensures
        apply_all(apply_all(fresh_machine(), a1), a2) == apply_all(apply_all(fresh_machine(), b1), b2),
        snapshot_data_of(apply_all(apply_all(fresh_machine(), a1), a2)) == snapshot_data_of(
            apply_all(apply_all(fresh_machine(), b1), b2),
        ),
        apply_all(apply_all(fresh_machine(), a1), a2).last_applied == apply_all(
            apply_all(fresh_machine(), b1),
            b2,
        ).last_applied,
{
    law_apply_split(fresh_machine(), a1, a2);
    law_apply_split(fresh_machine(), b1, b2);
}

/// Installing a snapshot whose bytes decode to `m` and building one right
/// after: the new snapshot has the installed last log id and membership,
/// and its bytes (which `build_snapshot` promises decode to the state's map)
/// decode to `m`, the map of the installed snapshot.
pub proof fn law_install_then_build(meta: SnapshotMetaView, data: Seq<u8>, m: Map<Seq<char>, Seq<char>>, built: Seq<u8>)
    requires
        kvs_from_json(data) == Some(m),
        kvs_from_json(built) == Some(installed(meta, m).kvs),
    ensures
        installed(meta, m).last_applied == meta.last_log_id,
        installed(meta, m).membership == meta.last_membership,
        kvs_from_json(built) == kvs_from_json(data),
{
}

/// A write of `v` to `k`, once applied, is what the map holds for `k`.
pub proof fn law_set_then_get(s: MachineView, es: Seq<EntryView>, id: LogId, k: Seq<char>, v: Seq<char>)
    ensures
        apply_all(s, es.push(EntryView { log_id: id, payload: PayloadView::Normal(k, v) })).kvs.contains_key(k),
        apply_all(s, es.push(EntryView { log_id: id, payload: PayloadView::Normal(k, v) })).kvs[k] == v,
{
    let t = es.push(EntryView { log_id: id, payload: PayloadView::Normal(k, v) });
    assert(t.drop_last() == es);
}

} // verus!
