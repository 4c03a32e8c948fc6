//! The decisions of the client-facing service: reads served from the state
//! machine, and the checks made before a request reaches the Raft node.
use vstd::prelude::*;
use vstd::string::StringExecFns;
use crate::state_machine::StateMachineStore;
use crate::types::{Node, Response, opt_string_view};

verus! {

/// Why a client request failed.
#[derive(Clone, Debug, PartialEq, Eq)]
pub enum ServiceError {
    /// The key has no value.
    NotFound(String),
    /// The request lacks something it needs.
    InvalidArgument(String),
    /// The Raft node did not accept the request; carries its reason.
    Unavailable(String),
}

/// The client-facing service over the local state machine. Writes and
/// cluster changes go to the Raft node; reads are served here, locally, and
/// may be stale on a follower.
pub struct AppServiceImpl {
    /// The state machine store, for direct reads.
    pub state_machine_store: StateMachineStore,
}

impl AppServiceImpl {
    /// A service reading from `state_machine_store`.
    pub fn new(state_machine_store: StateMachineStore) -> (r: AppServiceImpl)
        ensures
            r.state_machine_store == state_machine_store,
    {
        AppServiceImpl { state_machine_store }
    }

    /// Reads `key` from the local state machine: its value, or `NotFound`.
    pub fn get(&self, key: &String) -> (r: Result<Response, ServiceError>)
        requires
            self.state_machine_store.wf(),
        ensures
            self.state_machine_store@.kvs.contains_key(key@) <==> r is Ok,
            r is Ok ==> opt_string_view(r->Ok_0.value) == Some(
                self.state_machine_store@.kvs[key@],
            ),
            r is Err ==> r->Err_0 == ServiceError::NotFound(*key),
    {
        match self.state_machine_store.read(key) {
            Some(v) => Ok(Response { value: Some(v) }),
            None => Err(ServiceError::NotFound(key.clone())),
        }
    }
}

/// The reply to a client write, given what the Raft node answered.
pub fn set_reply(written: Result<Response, String>) -> (r: Result<Response, ServiceError>)
    ensures
        match written {
            Ok(resp) => r is Ok && opt_string_view(r->Ok_0.value) == opt_string_view(resp.value),
            Err(cause) => r is Err && r->Err_0 == ServiceError::Unavailable(cause),
        },
{
    match written {
        Ok(resp) => Ok(resp),
        Err(cause) => Err(ServiceError::Unavailable(cause)),
    }
}

/// The node a learner request names; the request is invalid without one.
pub fn learner_node(node: Option<Node>) -> (r: Result<Node, ServiceError>)
    ensures
        match node {
            Some(n) => r is Ok && r->Ok_0.node_id == n.node_id && r->Ok_0.rpc_addr@
                == n.rpc_addr@,
            None => r is Err && r->Err_0 is InvalidArgument,
        },
{
    proof {
        reveal_strlit("Node information is required");
    }
    match node {
        Some(n) => Ok(n),
        None => {
            let mut msg = String::new();
            msg.append("Node information is required");
            Err(ServiceError::InvalidArgument(msg))
        },
    }
}

/// The address each node id is given by a list of nodes; a later entry for
/// an id wins.
pub open spec fn node_map(s: Seq<Node>) -> Map<u64, Seq<char>>
    decreases s.len(),
{
    if s.len() == 0 {
        Map::empty()
    } else {
        node_map(s.drop_last()).insert(s.last().node_id, s.last().rpc_addr@)
    }
}

pub open spec fn ids_unique(s: Seq<Node>) -> bool {
    forall|i: int, j: int| 0 <= i < j < s.len() ==> (#[trigger] s[i]).node_id != (#[trigger] s[j]).node_id
}

proof fn lemma_node_update(s: Seq<Node>, i: int, x: Node)
    requires
        ids_unique(s),
        0 <= i < s.len(),
        x.node_id == s[i].node_id,
    ensures
        node_map(s.update(i, x)) == node_map(s).insert(x.node_id, x.rpc_addr@),
        ids_unique(s.update(i, x)),
    decreases s.len(),
{
    let u = s.update(i, x);
    let t = s.drop_last();
    assert(ids_unique(u)) by {
        assert forall|a: int, b: int| 0 <= a < b < u.len() implies (#[trigger] u[a]).node_id
            != (#[trigger] u[b]).node_id by {
            assert(u[a].node_id == s[a].node_id && u[b].node_id == s[b].node_id);
        }
    }
    if i == s.len() - 1 {
        assert(u.drop_last() =~= t);
        assert(node_map(u) =~= node_map(s).insert(x.node_id, x.rpc_addr@));
    } else {
        assert(ids_unique(t)) by {
            assert forall|a: int, b: int| 0 <= a < b < t.len() implies (#[trigger] t[a]).node_id
                != (#[trigger] t[b]).node_id by {
                assert(t[a] == s[a] && t[b] == s[b]);
            }
        }
        assert(u.drop_last() =~= t.update(i, x));
        lemma_node_update(t, i, x);
        assert(s[i].node_id != s[s.len() - 1].node_id);
        assert(node_map(u) =~= node_map(s).insert(x.node_id, x.rpc_addr@));
    }
}

/// The initial cluster of an init request: one node per id, the last entry
/// given for an id winning.
pub fn init_nodes(nodes: Vec<Node>) -> (r: Vec<Node>)
    ensures
        ids_unique(r@),
        node_map(r@) == node_map(nodes@),
{
    let mut out: Vec<Node> = Vec::new();
    let mut i: usize = 0;
    while i < nodes.len()
        invariant
            i <= nodes@.len(),
            ids_unique(out@),
            node_map(out@) == node_map(nodes@.take(i as int)),
        decreases nodes@.len() - i,
    {
        let n = &nodes[i];
        let node = Node { node_id: n.node_id, rpc_addr: n.rpc_addr.clone() };
        let mut j: usize = 0;
        let mut found: Option<usize> = None;
        while j < out.len()
            invariant
                j <= out@.len(),
                match found {
                    Some(k) => k < out@.len() && out@[k as int].node_id == n.node_id,
                    None => forall|k: int| 0 <= k < j ==> (#[trigger] out@[k]).node_id != n.node_id,
                },
            decreases out@.len() - j,
        {
            if found.is_none() && out[j].node_id == n.node_id {
                found = Some(j);
            }
            j = j + 1;
        }
        proof {
            assert(nodes@.take(i + 1).drop_last() =~= nodes@.take(i as int));
        }
        match found {
            Some(k) => {
                proof {
                    lemma_node_update(out@, k as int, node);
                }
                out.set(k, node);
            },
            None => {
                let ghost s = out@;
                out.push(node);
                proof {
                    let t = out@;
                    assert(t.drop_last() =~= s);
                    assert forall|a: int, b: int| 0 <= a < b < t.len() implies (#[trigger] t[a]).node_id
                        != (#[trigger] t[b]).node_id by {
                        if b < s.len() {
                            assert(t[a] == s[a] && t[b] == s[b]);
                        } else {
                            assert(t[a] == s[a]);
                            assert(s[a].node_id != n.node_id);
                        }
                    }
                }
            },
        }
        i = i + 1;
    }
    proof {
        assert(nodes@.take(nodes@.len() as int) =~= nodes@);
    }
    out
}

} // verus!
