//! The introspection query: look up, for a given environment identifier,
//! the current node-topology (link bandwidth) matrix, or a not-found
//! indication. Used by outside tooling, not by the kernel itself.

use vstd::prelude::*;
use crate::env::SimEnv;

verus! {

/// A request for the topology of one environment.
pub struct GetTopoReq {
    /// The identifier of the environment asked about.
    pub env_id: String,
}

/// The answer to a topology query.
pub enum GetTopoResp {
    /// The environment exists: its node-to-node bandwidth matrix.
    Exist { topo: Vec<Vec<u64>> },
    /// No environment with that identifier.
    NotFound { msg: String },
}

impl GetTopoResp {
    /// A numeric tag for the answer's kind, for the wire layer.
    pub fn id(&self) -> (r: u32)
        ensures
            r == 1u32 <==> self is Exist,
            r == 2u32 <==> self is NotFound,
    {
        match self {
            GetTopoResp::Exist { .. } => 1,
            GetTopoResp::NotFound { .. } => 2,
        }
    }
}

impl SimEnv {
    /// Answer a topology query against this environment: its bandwidth
    /// matrix when the identifier matches, not-found otherwise.
    pub fn handle_get_topo(&self, req: &GetTopoReq) -> (r: GetTopoResp)
        ensures
            req.env_id@ == self.env_id@ ==> (r matches GetTopoResp::Exist { topo } && topo@.len()
                == self.node_speeds@.len() && (forall|i: int|
                0 <= i < self.node_speeds@.len() ==> (#[trigger] topo@[i])@
                    == self.node_speeds@[i]@)),
            req.env_id@ != self.env_id@ ==> r is NotFound,
    {
        if req.env_id == self.env_id {
            GetTopoResp::Exist { topo: self.clone_topo() }
        } else {
            GetTopoResp::NotFound { msg: String::new() }
        }
    }

    /// A copy of the bandwidth matrix.
    fn clone_topo(&self) -> (r: Vec<Vec<u64>>)
        ensures
            r@.len() == self.node_speeds@.len(),
            forall|i: int|
                0 <= i < self.node_speeds@.len() ==> (#[trigger] r@[i])@ == self.node_speeds@[i]@,
    {
        let mut r: Vec<Vec<u64>> = Vec::new();
        let mut i: usize = 0;
        while i < self.node_speeds.len()
            invariant
                i <= self.node_speeds@.len(),
                r@.len() == i,
                forall|t: int| 0 <= t < i ==> (#[trigger] r@[t])@ == self.node_speeds@[t]@,
            decreases self.node_speeds@.len() - i,
        {
            let mut row: Vec<u64> = Vec::new();
            let mut j: usize = 0;
            while j < self.node_speeds[i].len()
                invariant
                    (i as int) < self.node_speeds@.len(),
                    j <= self.node_speeds@[i as int]@.len(),
                    row@.len() == j,
                    forall|t: int|
                        0 <= t < j ==> #[trigger] row@[t] == self.node_speeds@[i as int]@[t],
                decreases self.node_speeds@[i as int]@.len() - j,
            {
                row.push(self.node_speeds[i][j]);
                j = j + 1;
            }
            proof {
                assert(row@ =~= self.node_speeds@[i as int]@);
            }
            r.push(row);
            i = i + 1;
        }
        r
    }
}

} // verus!
