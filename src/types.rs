use vstd::prelude::*;

verus! {

/// Position of an entry in the replicated log, as fixed by the leader that
/// wrote it. Ordered by `(term, index)`.
#[derive(Clone, Copy, Debug, PartialEq, Eq, Structural)]
pub struct LogId {
    pub term: u64,
    pub leader_id: u64,
    pub index: u64,
}

/// `a` comes no later than `b` in `(term, index)` order.
pub open spec fn log_id_le(a: LogId, b: LogId) -> bool {
    a.term < b.term || (a.term == b.term && a.index <= b.index)
}

/// The durable record of the term and the candidate a node has endorsed.
#[derive(Clone, Copy, Debug, PartialEq, Eq, Structural)]
pub struct Vote {
    pub term: u64,
    pub node_id: u64,
    pub committed: bool,
}

/// A cluster member and its transport address.
#[derive(Clone, Debug)]
pub struct Node {
    pub node_id: u64,
    pub rpc_addr: String,
}

/// Voter ids and the address of every node, voters and learners alike.
#[derive(Clone, Debug)]
pub struct Membership {
    pub voters: Vec<u64>,
    pub nodes: Vec<Node>,
}

pub struct MembershipView {
    pub voters: Seq<u64>,
    pub nodes: Seq<(u64, Seq<char>)>,
}

impl View for Membership {
    type V = MembershipView;

    open spec fn view(&self) -> MembershipView {
        MembershipView {
            voters: self.voters@,
            nodes: self.nodes@.map_values(|n: Node| (n.node_id, n.rpc_addr@)),
        }
    }
}

impl Membership {
    pub fn empty() -> (r: Membership)
        ensures
            r@.voters.len() == 0,
            r@.nodes.len() == 0,
    {
        Membership { voters: Vec::new(), nodes: Vec::new() }
    }

    pub fn duplicate(&self) -> (r: Membership)
        ensures
            r@ == self@,
    {
        let mut voters: Vec<u64> = Vec::new();
        let mut i: usize = 0;
        while i < self.voters.len()
            invariant
                i <= self.voters@.len(),
                voters@ == self.voters@.take(i as int),
            decreases self.voters@.len() - i,
        {
            voters.push(self.voters[i]);
            i = i + 1;
            assert(voters@ =~= self.voters@.take(i as int));
        }
        let mut nodes: Vec<Node> = Vec::new();
        let mut j: usize = 0;
        while j < self.nodes.len()
            invariant
                j <= self.nodes@.len(),
                nodes@.len() == j,
                forall|k: int|
                    0 <= k < j ==> #[trigger] nodes@[k].node_id == self.nodes@[k].node_id
                        && nodes@[k].rpc_addr@ == self.nodes@[k].rpc_addr@,
            decreases self.nodes@.len() - j,
        {
            let n = &self.nodes[j];
            nodes.push(Node { node_id: n.node_id, rpc_addr: n.rpc_addr.clone() });
            j = j + 1;
        }
        assert(voters@ =~= self.voters@);
        let r = Membership { voters, nodes };
        assert(r@.nodes =~= self@.nodes);
        r
    }
}

/// The membership in force and the log id of the entry that installed it.
#[derive(Clone, Debug)]
pub struct StoredMembership {
    pub log_id: Option<LogId>,
    pub membership: Membership,
}

pub struct StoredMembershipView {
    pub log_id: Option<LogId>,
    pub membership: MembershipView,
}

impl View for StoredMembership {
    type V = StoredMembershipView;

    open spec fn view(&self) -> StoredMembershipView {
        StoredMembershipView { log_id: self.log_id, membership: self.membership@ }
    }
}

/// The membership before any has been installed: no log id, no nodes.
pub open spec fn initial_membership() -> StoredMembershipView {
    StoredMembershipView {
        log_id: None,
        membership: MembershipView { voters: Seq::empty(), nodes: Seq::empty() },
    }
}

impl StoredMembership {
    /// No membership installed yet.
    pub fn initial() -> (r: StoredMembership)
        ensures
            r@ == initial_membership(),
    {
        let r = StoredMembership { log_id: None, membership: Membership::empty() };
        assert(r@.membership.voters =~= Seq::<u64>::empty());
        assert(r@.membership.nodes =~= Seq::<(u64, Seq<char>)>::empty());
        r
    }

    pub fn duplicate(&self) -> (r: StoredMembership)
        ensures
            r@ == self@,
    {
        StoredMembership { log_id: self.log_id, membership: self.membership.duplicate() }
    }
}

/// A client write: bind `key` to `value`.
#[derive(Clone, Debug)]
pub struct SetRequest {
    pub key: String,
    pub value: String,
}

/// What a client receives for an applied entry.
#[derive(Clone, Debug)]
pub struct Response {
    pub value: Option<String>,
}

pub open spec fn opt_string_view(o: Option<String>) -> Option<Seq<char>> {
    match o {
        Some(s) => Some(s@),
        None => None,
    }
}

#[derive(Clone, Debug)]
pub enum EntryPayload {
    Blank,
    Normal(SetRequest),
    Membership(Membership),
}

pub enum PayloadView {
    Blank,
    Normal(Seq<char>, Seq<char>),
    Membership(MembershipView),
}

impl View for EntryPayload {
    type V = PayloadView;

    open spec fn view(&self) -> PayloadView {
        match self {
            EntryPayload::Blank => PayloadView::Blank,
            EntryPayload::Normal(req) => PayloadView::Normal(req.key@, req.value@),
            EntryPayload::Membership(m) => PayloadView::Membership(m@),
        }
    }
}

impl EntryPayload {
    pub fn duplicate(&self) -> (r: EntryPayload)
        ensures
            r@ == self@,
    {
        match self {
            EntryPayload::Blank => EntryPayload::Blank,
            EntryPayload::Normal(req) => EntryPayload::Normal(
                SetRequest { key: req.key.clone(), value: req.value.clone() },
            ),
            EntryPayload::Membership(m) => EntryPayload::Membership(m.duplicate()),
        }
    }
}

/// One replicated log entry.
#[derive(Clone, Debug)]
pub struct Entry {
    pub log_id: LogId,
    pub payload: EntryPayload,
}

pub struct EntryView {
    pub log_id: LogId,
    pub payload: PayloadView,
}

impl View for Entry {
    type V = EntryView;

    open spec fn view(&self) -> EntryView {
        EntryView { log_id: self.log_id, payload: self.payload@ }
    }
}

impl Entry {
    pub fn duplicate(&self) -> (r: Entry)
        ensures
            r@ == self@,
    {
        Entry { log_id: self.log_id, payload: self.payload.duplicate() }
    }
}

/// The entries of `s` seen through their views.
pub open spec fn entries_view(s: Seq<Entry>) -> Seq<EntryView> {
    s.map_values(|e: Entry| e@)
}

/// The purge watermark and the id of the last entry the log has seen.
#[derive(Clone, Copy, Debug, PartialEq, Eq, Structural)]
pub struct LogState {
    pub last_purged_log_id: Option<LogId>,
    pub last_log_id: Option<LogId>,
}

/// What a snapshot covers: the last applied entry, the membership in force
/// there, and an id that tells snapshots of one node apart.
#[derive(Clone, Debug)]
pub struct SnapshotMeta {
    pub last_log_id: Option<LogId>,
    pub last_membership: StoredMembership,
    pub snapshot_id: String,
}

pub struct SnapshotMetaView {
    pub last_log_id: Option<LogId>,
    pub last_membership: StoredMembershipView,
    pub snapshot_id: Seq<char>,
}

impl View for SnapshotMeta {
    type V = SnapshotMetaView;

    open spec fn view(&self) -> SnapshotMetaView {
        SnapshotMetaView {
            last_log_id: self.last_log_id,
            last_membership: self.last_membership@,
            snapshot_id: self.snapshot_id@,
        }
    }
}

impl SnapshotMeta {
    pub fn duplicate(&self) -> (r: SnapshotMeta)
        ensures
            r@ == self@,
    {
        SnapshotMeta {
            last_log_id: self.last_log_id,
            last_membership: self.last_membership.duplicate(),
            snapshot_id: self.snapshot_id.clone(),
        }
    }
}

/// A snapshot as kept in the store: its meta and the encoded map.
#[derive(Clone, Debug)]
pub struct StoredSnapshot {
    pub meta: SnapshotMeta,
    /// The data of the state machine at the time of this snapshot.
    pub data: Vec<u8>,
}

pub struct StoredSnapshotView {
    pub meta: SnapshotMetaView,
    pub data: Seq<u8>,
}

impl View for StoredSnapshot {
    type V = StoredSnapshotView;

    open spec fn view(&self) -> StoredSnapshotView {
        StoredSnapshotView { meta: self.meta@, data: self.data@ }
    }
}

pub fn copy_bytes(b: &Vec<u8>) -> (r: Vec<u8>)
    ensures
        r@ == b@,
{
    let mut out: Vec<u8> = Vec::new();
    let mut i: usize = 0;
    while i < b.len()
        invariant
            i <= b@.len(),
            out@ == b@.take(i as int),
        decreases b@.len() - i,
    {
        out.push(b[i]);
        i = i + 1;
        assert(out@ =~= b@.take(i as int));
    }
    assert(out@ =~= b@);
    out
}

impl StoredSnapshot {
    pub fn duplicate(&self) -> (r: StoredSnapshot)
        ensures
            r@ == self@,
    {
        StoredSnapshot { meta: self.meta.duplicate(), data: copy_bytes(&self.data) }
    }
}

/// Storage failures, by the part of the store they concern.
#[derive(Clone, Debug, PartialEq, Eq)]
pub enum StorageError {
    /// The state machine's map could not be encoded.
    ReadStateMachine,
    /// The snapshot with this id could not be decoded.
    ReadSnapshot(String),
}

} // verus!
