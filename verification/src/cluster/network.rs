use crate::cluster::types::NodeId;
use vstd::prelude::*;
use vstd::string::StringExecFns;

verus! {

/// The calls that nodes make to each other.
#[derive(Debug, Clone, Copy, PartialEq, Eq, Structural)]
pub enum Rpc {
    Vote,
    AppendEntries,
    InstallSnapshot,
}

impl Rpc {
    /// The path under which a node serves the call.
    pub open spec fn path(&self) -> Seq<char> {
        match *self {
            Rpc::Vote => "raft-vote"@,
            Rpc::AppendEntries => "raft-append"@,
            Rpc::InstallSnapshot => "raft-snapshot"@,
        }
    }

    /// The path, as text.
    pub fn route(&self) -> (s: &'static str)
        ensures
            s@ == self.path(),
    {
        match self {
            Rpc::Vote => "raft-vote",
            Rpc::AppendEntries => "raft-append",
            Rpc::InstallSnapshot => "raft-snapshot",
        }
    }
}

/// Whether an HTTP status says that the call went through: 200 to 299.
pub fn status_is_success(code: u16) -> (ok: bool)
    ensures
        ok == (200 <= code < 300),
{
    200 <= code && code < 300
}

/// Makes connections to the other nodes.
#[derive(Debug, Clone, Copy)]
pub struct ChronosNetwork {}

impl ChronosNetwork {
    /// A factory; it keeps no state.
    pub fn new() -> (n: Self) {
        ChronosNetwork {  }
    }

    /// A connection to the node `target`, which listens at `addr`.
    pub fn new_client(&self, target: NodeId, addr: &str) -> (c: ChronosNetworkConnection)
        ensures
            c.address() == addr@,
            c.peer() == target,
    {
        ChronosNetworkConnection { addr: String::from_str(addr), _target: target }
    }
}

/// A connection to one node.
#[derive(Debug, Clone)]
pub struct ChronosNetworkConnection {
    addr: String,
    _target: NodeId,
}

impl ChronosNetworkConnection {
    /// Host and port of the node.
    pub closed spec fn address(&self) -> Seq<char> {
        self.addr@
    }

    /// The node's id.
    pub closed spec fn peer(&self) -> NodeId {
        self._target
    }

    /// Host and port of the node.
    pub fn addr(&self) -> (a: &str)
        ensures
            a@ == self.address(),
    {
        self.addr.as_str()
    }

    /// The node's id.
    pub fn target(&self) -> (t: NodeId)
        ensures
            t == self.peer(),
    {
        self._target
    }

    /// Where to post the call: `http://`, the address, `/`, the route.
    pub fn url(&self, rpc: Rpc) -> (u: String)
        ensures
            u@ == "http://"@ + self.address() + "/"@ + rpc.path(),
    {
        String::from_str("http://").concat(self.addr.as_str()).concat("/").concat(rpc.route())
    }
}

} // verus!
