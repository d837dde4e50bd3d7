//! Island registry: accepted graphs plus one disposable staging workspace.
//!
//! Accepted islands are frozen for mutation. Staging can be discarded or
//! promoted into the accepted table. Each island carries a world version,
//! bumped when staging is accepted.

use vstd::prelude::*;
use std::collections::HashMap;
use crate::types::{EdgeKind, IslandId, MetisError};
use crate::admission::WorldId;
use crate::connection::{candidate_ok, bidirectional_skeleton, validate_candidate, AdmittedConnection,
    CandidateConnection, ConnectionClass};
use crate::graph::Graph;
use crate::rules::RuleTable;
use crate::keys::kind_code;

verus! {

/// Named island entry.
pub struct Island {
    pub name: String,
    pub graph: Graph,
    pub accepted: bool,
    /// World version (bumped when staging is accepted).
    pub version: u64,
    /// Declared generating relations and transformations.
    pub rules: RuleTable,
    /// Worlds of the islands this one uses.
    pub parents: Vec<WorldId>,
}

impl Island {
    /// Relative world handle for admission context.
    pub fn world_id(&self, id: IslandId) -> (r: WorldId)
        ensures
            r == (WorldId { island: id, version: self.version }),
    {
        WorldId { island: id, version: self.version }
    }

    /// A freshly opened island with an empty graph, rules and parents.
    pub open spec fn is_fresh(&self, name: Seq<char>, accepted: bool, version: u64) -> bool {
        &&& self.name@ == name
        &&& self.accepted == accepted
        &&& self.version == version
        &&& self.graph.node_len() == 0
        &&& self.graph.edge_len() == 0
        &&& self.rules.signature.declared() == Set::<u64>::empty()
        &&& self.rules.transforms@.len() == 0
        &&& self.parents@.len() == 0
    }

    fn fresh(name: &str, accepted: bool, version: u64) -> (r: Self)
        ensures
            r.is_fresh(name@, accepted, version),
    {
        Island {
            name: name.to_owned(),
            graph: Graph::new(),
            accepted,
            version,
            rules: RuleTable::default(),
            parents: Vec::new(),
        }
    }
}

/// Store of islands plus one optional staging workspace.
pub struct IslandStore {
    islands: Vec<(IslandId, Island)>,
    next_id: u32,
    staging: Option<(IslandId, Island)>,
    /// Candidate connections only — never auto-admitted as Galois.
    connections: Vec<CandidateConnection>,
    /// Admitted connections (none are minted by the store itself).
    admitted: Vec<AdmittedConnection>,
}

impl IslandStore {
    /// The accepted table, in registration order.
    pub closed spec fn table(&self) -> Seq<(IslandId, Island)> {
        self.islands@
    }

    /// The last island id handed out (0 before any).
    pub closed spec fn spec_next_id(&self) -> u32 {
        self.next_id
    }

    pub closed spec fn spec_staging(&self) -> Option<(IslandId, Island)> {
        self.staging
    }

    pub closed spec fn spec_connections(&self) -> Seq<CandidateConnection> {
        self.connections@
    }

    pub closed spec fn spec_admitted(&self) -> Seq<AdmittedConnection> {
        self.admitted@
    }

    /// Handle of the open staging island.
    pub open spec fn staged_id(&self) -> IslandId {
        self.spec_staging().unwrap().0
    }

    /// The open staging island.
    pub open spec fn staged(&self) -> Island {
        self.spec_staging().unwrap().1
    }

    /// The accepted island with handle `id`, if any.
    pub open spec fn find(&self, id: IslandId) -> Option<Island> {
        if exists|k: int| 0 <= k < self.table().len() && (#[trigger] self.table()[k]).0 == id {
            Some(self.table()[choose|k: int| 0 <= k < self.table().len() && (#[trigger] self.table()[k]).0 == id].1)
        } else {
            None
        }
    }

    /// Some accepted island is named `name`.
    pub open spec fn name_taken(&self, name: Seq<char>) -> bool {
        exists|k: int| 0 <= k < self.table().len() && (#[trigger] self.table()[k]).1.name@ == name
    }

    /// `world` names an accepted island at its current version.
    pub open spec fn world_current(&self, world: WorldId) -> bool {
        self.find(world.island) matches Some(i) && i.version == world.version
    }

    /// Store invariant: handles are distinct and issued, names are distinct,
    /// the table holds accepted islands only, and nothing is admitted.
    pub open spec fn wf(&self) -> bool {
        &&& forall|a: int, b: int| 0 <= a < b < self.table().len() ==> (#[trigger] self.table()[a]).0
            != (#[trigger] self.table()[b]).0
        &&& forall|a: int, b: int| 0 <= a < b < self.table().len() ==> (#[trigger] self.table()[a]).1.name@
            != (#[trigger] self.table()[b]).1.name@
        &&& forall|k: int| 0 <= k < self.table().len() ==> (#[trigger] self.table()[k]).1.accepted
        &&& forall|k: int| 0 <= k < self.table().len() ==> 1 <= (#[trigger] self.table()[k]).0.raw()
            <= self.spec_next_id()
        &&& self.spec_staging() matches Some((sid, _)) ==> 1 <= sid.raw() <= self.spec_next_id() && forall|k: int|
            0 <= k < self.table().len() ==> (#[trigger] self.table()[k]).0 != sid
        &&& self.spec_admitted().len() == 0
    }

    /// The `find` of a handle at a known table position.
    pub proof fn lemma_find_at(&self, k: int)
        requires
            self.wf(),
            0 <= k < self.table().len(),
        ensures
            self.find(self.table()[k].0) == Some(self.table()[k].1),
    {
        let id = self.table()[k].0;
        let c = choose|c: int| 0 <= c < self.table().len() && (#[trigger] self.table()[c]).0 == id;
        if c < k {
            assert(self.table()[c].0 != self.table()[k].0);
        } else if k < c {
            assert(self.table()[k].0 != self.table()[c].0);
        }
    }

    pub fn new() -> (r: Self)
        ensures
            r.wf(),
            r.table().len() == 0,
            r.spec_next_id() == 0,
            r.spec_staging() is None,
            r.spec_connections().len() == 0,
    {
        IslandStore {
            islands: Vec::new(),
            next_id: 0,
            staging: None,
            connections: Vec::new(),
            admitted: Vec::new(),
        }
    }

    fn alloc_id(&mut self) -> (r: Result<IslandId, MetisError>)
        ensures
            old(self).spec_next_id() == u32::MAX ==> r == Err::<IslandId, MetisError>(MetisError::Capacity)
                && *final(self) == *old(self),
            old(self).spec_next_id() < u32::MAX ==> (r matches Ok(id) && id.raw() == old(self).spec_next_id() + 1)
                && final(self).spec_next_id() == old(self).spec_next_id() + 1 && final(self).table() == old(
                self).table() && final(self).spec_staging() == old(self).spec_staging()
                && final(self).spec_connections() == old(self).spec_connections() && final(self).spec_admitted()
                == old(self).spec_admitted(),
    {
        match self.next_id.checked_add(1) {
            Some(n) => {
                self.next_id = n;
                Ok(IslandId::from_raw(n))
            },
            None => Err(MetisError::Capacity),
        }
    }

    /// Table position of an accepted island.
    fn position(&self, id: IslandId) -> (r: Option<usize>)
        requires
            self.wf(),
        ensures
            r matches Some(k) ==> k < self.table().len() && self.table()[k as int].0 == id && self.find(id)
                == Some(self.table()[k as int].1),
            r is None ==> self.find(id) is None,
    {
        let mut k: usize = 0;
        while k < self.islands.len()
            invariant
                self.wf(),
                k <= self.islands@.len(),
                forall|j: int| 0 <= j < k ==> (#[trigger] self.islands@[j]).0 != id,
            decreases self.islands.len() - k,
        {
            if self.islands[k].0 == id {
                proof {
                    self.lemma_find_at(k as int);
                }
                return Some(k);
            }
            k = k + 1;
        }
        None
    }

    /// Table position of the island named `name`.
    fn position_by_name(&self, name: &str) -> (r: Option<usize>)
        requires
            self.wf(),
        ensures
            r matches Some(k) ==> k < self.table().len() && self.table()[k as int].1.name@ == name@,
            r is None ==> !self.name_taken(name@),
    {
        let target = name.to_owned();
        let mut k: usize = 0;
        while k < self.islands.len()
            invariant
                k <= self.islands@.len(),
                target@ == name@,
                forall|j: int| 0 <= j < k ==> (#[trigger] self.islands@[j]).1.name@ != name@,
            decreases self.islands.len() - k,
        {
            if self.islands[k].1.name == target {
                return Some(k);
            }
            k = k + 1;
        }
        None
    }

    /// Register an accepted island (foundation: empty graph).
    pub fn register_accepted(&mut self, name: &str) -> (r: Result<IslandId, MetisError>)
        requires
            old(self).wf(),
        ensures
            final(self).wf(),
            old(self).name_taken(name@) ==> r == Err::<IslandId, MetisError>(MetisError::InvalidHandle) && *final(
                self) == *old(self),
            !old(self).name_taken(name@) && old(self).spec_next_id() == u32::MAX ==> r == Err::<IslandId, MetisError>(
                MetisError::Capacity) && *final(self) == *old(self),
            !old(self).name_taken(name@) && old(self).spec_next_id() < u32::MAX ==> (r matches Ok(id) && id.raw()
                == old(self).spec_next_id() + 1 && final(self).table().len() == old(self).table().len() + 1
                && final(self).table().drop_last() == old(self).table() && final(self).table().last().0 == id
                && final(self).table().last().1.is_fresh(name@, true, 1)),
            r is Ok ==> final(self).spec_staging() == old(self).spec_staging() && final(self).spec_connections()
                == old(self).spec_connections() && final(self).spec_next_id() == old(self).spec_next_id() + 1,
    {
        if self.position_by_name(name).is_some() {
            return Err(MetisError::InvalidHandle);
        }
        let id = self.alloc_id()?;
        let island = Island::fresh(name, true, 1);
        let ghost before = self.islands@;
        self.islands.push((id, island));
        proof {
            assert(self.table().drop_last() == before);
            assert forall|k: int| 0 <= k < self.table().len() implies 1 <= (#[trigger] self.table()[k]).0.raw()
                <= self.spec_next_id() by {
                if k < before.len() {
                    assert(self.table()[k] == before[k]);
                }
            }
        }
        Ok(id)
    }

    pub fn get(&self, id: IslandId) -> (r: Result<&Island, MetisError>)
        requires
            self.wf(),
        ensures
            self.find(id) matches Some(i) ==> r == Ok::<&Island, MetisError>(&i),
            self.find(id) is None ==> r == Err::<&Island, MetisError>(MetisError::IslandNotFound),
    {
        match self.position(id) {
            Some(k) => Ok(&self.islands[k].1),
            None => Err(MetisError::IslandNotFound),
        }
    }

    /// Mutable access to an island; accepted islands are frozen and refuse it.
    pub fn get_mut(&mut self, id: IslandId) -> (r: Result<&mut Island, MetisError>)
        requires
            old(self).wf(),
        ensures
            old(self).find(id) is None ==> r == Err::<&mut Island, MetisError>(MetisError::IslandNotFound),
            old(self).find(id) is Some ==> r == Err::<&mut Island, MetisError>(MetisError::InvalidHandle),
            *final(self) == *old(self),
    {
        match self.position(id) {
            Some(k) => {
                if self.islands[k].1.accepted {
                    return Err(MetisError::InvalidHandle);
                }
                proof {
                    assert(self.table()[k as int].1.accepted);
                }
                Ok(&mut self.islands[k].1)
            },
            None => Err(MetisError::IslandNotFound),
        }
    }

    /// The handle of the island named `name`.
    pub fn lookup(&self, name: &str) -> (r: Option<IslandId>)
        requires
            self.wf(),
        ensures
            r is None <==> !self.name_taken(name@),
            r matches Some(id) ==> (self.find(id) matches Some(i) && i.name@ == name@),
    {
        match self.position_by_name(name) {
            Some(k) => {
                proof {
                    self.lemma_find_at(k as int);
                }
                Some(self.islands[k].0)
            },
            None => None,
        }
    }

    /// Open a disposable staging island. Replaces any previous staging.
    pub fn open_staging(&mut self, name: &str) -> (r: Result<IslandId, MetisError>)
        requires
            old(self).wf(),
        ensures
            final(self).wf(),
            old(self).spec_next_id() == u32::MAX ==> r == Err::<IslandId, MetisError>(MetisError::Capacity) && *final(
                self) == *old(self),
            old(self).spec_next_id() < u32::MAX ==> (r matches Ok(id) && id.raw() == old(self).spec_next_id() + 1
                && final(self).spec_staging() is Some && final(self).staged_id() == id && final(self).staged().is_fresh(
                name@, false, 0)),
            r is Ok ==> final(self).table() == old(self).table() && final(self).spec_connections() == old(
                self).spec_connections() && final(self).spec_next_id() == old(self).spec_next_id() + 1,
    {
        let id = self.alloc_id()?;
        self.staging = Some((id, Island::fresh(name, false, 0)));
        Ok(id)
    }

    /// Mutable access to the staging island.
    pub fn staging_mut(&mut self) -> (r: Result<&mut Island, MetisError>)
        requires
            old(self).wf(),
        ensures
            old(self).spec_staging() is None ==> r == Err::<&mut Island, MetisError>(MetisError::IslandNotFound)
                && *final(self) == *old(self),
            old(self).spec_staging() is Some ==> (r matches Ok(isl) && *isl == old(self).staged()
                && final(self).spec_staging() == Some((old(self).staged_id(), *final(isl)))),
            final(self).table() == old(self).table(),
            final(self).spec_next_id() == old(self).spec_next_id(),
            final(self).spec_connections() == old(self).spec_connections(),
            final(self).spec_admitted() == old(self).spec_admitted(),
            final(self).wf(),
    {
        match self.staging.as_mut() {
            Some(entry) => Ok(&mut entry.1),
            None => Err(MetisError::IslandNotFound),
        }
    }

    /// Handle of the staging island, if one is open.
    pub fn staging_id(&self) -> (r: Option<IslandId>)
        ensures
            r == match self.spec_staging() {
                Some((sid, _)) => Some(sid),
                None => None::<IslandId>,
            },
    {
        match &self.staging {
            Some((id, _)) => Some(*id),
            None => None,
        }
    }

    /// Discard the staging arena entirely.
    pub fn discard_staging(&mut self)
        requires
            old(self).wf(),
        ensures
            final(self).wf(),
            final(self).spec_staging() is None,
            final(self).table() == old(self).table(),
            final(self).spec_next_id() == old(self).spec_next_id(),
            final(self).spec_connections() == old(self).spec_connections(),
    {
        self.staging = None;
        proof {
            assert(self.table() == old(self).table());
            assert(self.spec_admitted() == old(self).spec_admitted());
        }
    }

    /// Promote current staging into the accepted table under `as_name`.
    ///
    /// Keeps the staging handle, bumps the version and freezes the island; its
    /// graph, rules and parents carry over unchanged.
    pub fn accept_staging(&mut self, as_name: &str) -> (r: Result<IslandId, MetisError>)
        requires
            old(self).wf(),
        ensures
            final(self).wf(),
            old(self).name_taken(as_name@) ==> r == Err::<IslandId, MetisError>(MetisError::InvalidHandle)
                && *final(self) == *old(self),
            !old(self).name_taken(as_name@) && old(self).spec_staging() is None ==> r == Err::<IslandId, MetisError>(
                MetisError::IslandNotFound) && *final(self) == *old(self),
            !old(self).name_taken(as_name@) && old(self).spec_staging() is Some ==> (r matches Ok(id)
                && id == old(self).staged_id() && final(self).spec_staging() is None && final(self).table().drop_last() == old(
                self).table() && final(self).table().len() == old(self).table().len() + 1 && final(
                self).table().last().0 == id && {
                    let acc = final(self).table().last().1;
                    let st = old(self).staged();
                    &&& acc.name@ == as_name@
                    &&& acc.accepted
                    &&& acc.version == if st.version == u64::MAX { u64::MAX } else { (st.version + 1) as u64 }
                    &&& acc.graph == st.graph
                    &&& acc.rules == st.rules
                    &&& acc.parents == st.parents
                }),
            final(self).spec_next_id() == old(self).spec_next_id(),
            final(self).spec_connections() == old(self).spec_connections(),
    {
        if self.position_by_name(as_name).is_some() {
            return Err(MetisError::InvalidHandle);
        }
        let (id, mut island) = match self.staging.take() {
            Some(entry) => entry,
            None => return Err(MetisError::IslandNotFound),
        };
        island.name = as_name.to_owned();
        island.accepted = true;
        island.version = island.version.saturating_add(1);
        let ghost before = self.islands@;
        self.islands.push((id, island));
        proof {
            assert(self.table().drop_last() == before);
            assert forall|a: int, b: int| 0 <= a < b < self.table().len() implies (#[trigger] self.table()[a]).1.name@
                != (#[trigger] self.table()[b]).1.name@ by {
                if b == before.len() {
                    assert(self.table()[a] == before[a]);
                    assert(old(self).table()[a] == before[a]);
                    assert(self.table()[b].1.name@ == as_name@);
                    assert(before[a].1.name@ != as_name@);
                } else {
                    assert(self.table()[a] == before[a]);
                    assert(self.table()[b] == before[b]);
                    assert(old(self).table()[a] == before[a]);
                    assert(old(self).table()[b] == before[b]);
                }
            }
            assert forall|a: int, b: int| 0 <= a < b < self.table().len() implies (#[trigger] self.table()[a]).0
                != (#[trigger] self.table()[b]).0 by {
                assert(self.table()[a] == before[a]);
                assert(old(self).table()[a] == before[a]);
                if b < before.len() {
                    assert(self.table()[b] == before[b]);
                    assert(old(self).table()[b] == before[b]);
                } else {
                    assert(self.table()[b].0 == id);
                }
            }
            assert forall|k: int| 0 <= k < self.table().len() implies (#[trigger] self.table()[k]).1.accepted by {
                if k < before.len() {
                    assert(self.table()[k] == before[k]);
                    assert(old(self).table()[k] == before[k]);
                }
            }
            assert forall|k: int| 0 <= k < self.table().len() implies 1 <= (#[trigger] self.table()[k]).0.raw()
                <= self.spec_next_id() by {
                if k < before.len() {
                    assert(self.table()[k] == before[k]);
                    assert(old(self).table()[k] == before[k]);
                }
            }
        }
        Ok(id)
    }

    /// Declare a generating relation kind in the staging island's rules.
    pub fn declare_generating_kind(&mut self, kind: EdgeKind) -> (r: Result<(), MetisError>)
        requires
            old(self).wf(),
        ensures
            final(self).wf(),
            old(self).spec_staging() is None ==> r == Err::<(), MetisError>(MetisError::IslandNotFound) && *final(
                self) == *old(self),
            old(self).spec_staging() is Some ==> {
                let (st0, st1) = (old(self).staged(), final(self).staged());
                &&& r is Ok
                &&& final(self).spec_staging() is Some
                &&& final(self).staged_id() == old(self).staged_id()
                &&& st1.rules.signature.declared() == st0.rules.signature.declared().insert(kind_code(kind))
                &&& st1.rules.transforms == st0.rules.transforms
                &&& st1.graph == st0.graph
                &&& st1.name == st0.name
                &&& st1.version == st0.version
                &&& st1.accepted == st0.accepted
                &&& st1.parents == st0.parents
            },
            final(self).table() == old(self).table(),
            final(self).spec_next_id() == old(self).spec_next_id(),
            final(self).spec_connections() == old(self).spec_connections(),
    {
        let st = self.staging_mut()?;
        st.rules.declare_kind(kind);
        Ok(())
    }

    /// Record that the staging island uses the island at `parent`.
    pub fn add_staging_parent(&mut self, parent: WorldId) -> (r: Result<(), MetisError>)
        requires
            old(self).wf(),
        ensures
            final(self).wf(),
            old(self).spec_staging() is None ==> r == Err::<(), MetisError>(MetisError::IslandNotFound) && *final(
                self) == *old(self),
            old(self).spec_staging() is Some ==> {
                let (st0, st1) = (old(self).staged(), final(self).staged());
                &&& r is Ok
                &&& final(self).spec_staging() is Some
                &&& final(self).staged_id() == old(self).staged_id()
                &&& st1.parents@ == st0.parents@.push(parent)
                &&& st1.rules == st0.rules
                &&& st1.graph == st0.graph
                &&& st1.name == st0.name
                &&& st1.version == st0.version
                &&& st1.accepted == st0.accepted
            },
            final(self).table() == old(self).table(),
            final(self).spec_next_id() == old(self).spec_next_id(),
            final(self).spec_connections() == old(self).spec_connections(),
    {
        let st = self.staging_mut()?;
        st.parents.push(parent);
        Ok(())
    }

    fn require_known_world(&self, world: WorldId) -> (r: Result<(), MetisError>)
        requires
            self.wf(),
        ensures
            self.find(world.island) is None ==> r == Err::<(), MetisError>(MetisError::IslandNotFound),
            self.find(world.island) is Some && self.world_current(world) ==> r is Ok,
            self.find(world.island) is Some && !self.world_current(world) ==> r == Err::<(), MetisError>(
                MetisError::ConnectionInvalid),
    {
        let island = self.get(world.island)?;
        if island.version != world.version {
            return Err(MetisError::ConnectionInvalid);
        }
        Ok(())
    }

    /// Register a validated candidate connection (still outer-world / unverified transport).
    pub fn register_connection(&mut self, candidate: CandidateConnection) -> (r: Result<(), MetisError>)
        requires
            old(self).wf(),
        ensures
            final(self).wf(),
            !candidate_ok(candidate) ==> r == Err::<(), MetisError>(MetisError::ConnectionInvalid),
            candidate_ok(candidate) && old(self).find(candidate.source.island) is None ==> r == Err::<(), MetisError>(
                MetisError::IslandNotFound),
            candidate_ok(candidate) && old(self).find(candidate.source.island) is Some && !old(self).world_current(
                candidate.source) ==> r == Err::<(), MetisError>(MetisError::ConnectionInvalid),
            candidate_ok(candidate) && old(self).world_current(candidate.source) && old(self).find(
                candidate.target.island) is None ==> r == Err::<(), MetisError>(MetisError::IslandNotFound),
            candidate_ok(candidate) && old(self).world_current(candidate.source) && old(self).find(
                candidate.target.island) is Some && !old(self).world_current(candidate.target) ==> r == Err::<
                (), MetisError>(MetisError::ConnectionInvalid),
            candidate_ok(candidate) && old(self).world_current(candidate.source) && old(self).world_current(
                candidate.target) ==> r is Ok && final(self).spec_connections() == old(self).spec_connections().push(
                candidate),
            candidate.source != candidate.target && candidate.class != ConnectionClass::GaloisClaimed
                && old(self).world_current(candidate.source) && old(self).world_current(candidate.target) ==> r is Ok
                && final(self).spec_connections() == old(self).spec_connections().push(candidate),
            r is Err ==> *final(self) == *old(self),
            final(self).table() == old(self).table(),
            final(self).spec_staging() == old(self).spec_staging(),
            final(self).spec_next_id() == old(self).spec_next_id(),
    {
        validate_candidate(&candidate)?;
        self.require_known_world(candidate.source)?;
        self.require_known_world(candidate.target)?;
        self.connections.push(candidate);
        Ok(())
    }

    /// Current world of an accepted island.
    pub open spec fn world_of(&self, id: IslandId) -> WorldId {
        WorldId { island: id, version: self.find(id)->0.version }
    }

    /// Declare surface `A <-> B` skeletons between two accepted islands' current worlds.
    pub fn declare_bidirectional(&mut self, left: IslandId, right: IslandId) -> (r: Result<(usize, usize), MetisError>)
        requires
            old(self).wf(),
        ensures
            final(self).wf(),
            old(self).find(left) is None ==> r == Err::<(usize, usize), MetisError>(MetisError::IslandNotFound),
            old(self).find(left) is Some && old(self).find(right) is None ==> r == Err::<(usize, usize), MetisError>(
                MetisError::IslandNotFound),
            old(self).find(left) is Some && old(self).find(right) is Some && left == right ==> r == Err::<
                (usize, usize), MetisError>(MetisError::ConnectionInvalid),
            r is Err ==> *final(self) == *old(self),
            old(self).find(left) is Some && old(self).find(right) is Some && left != right ==> (r matches Ok(
                ij) && {
                let n = old(self).spec_connections().len();
                let c = final(self).spec_connections();
                &&& ij.0 == n
                &&& ij.1 == n + 1
                &&& c.len() == n + 2
                &&& c.take(n as int) == old(self).spec_connections()
                &&& c[n as int].source == old(self).world_of(left)
                &&& c[n as int].target == old(self).world_of(right)
                &&& c[n as int].class == ConnectionClass::BidirectionalSkeleton
                &&& c[n as int + 1].source == old(self).world_of(right)
                &&& c[n as int + 1].target == old(self).world_of(left)
                &&& c[n as int + 1].class == ConnectionClass::BidirectionalSkeleton
            }),
            final(self).table() == old(self).table(),
            final(self).spec_staging() == old(self).spec_staging(),
            final(self).spec_next_id() == old(self).spec_next_id(),
    {
        let lw = self.get(left)?.world_id(left);
        let rw = self.get(right)?.world_id(right);
        let (fwd, back) = bidirectional_skeleton(lw, rw, HashMap::new(), HashMap::new())?;
        let ghost c0 = self.connections@;
        self.register_connection(fwd)?;
        self.register_connection(back)?;
        let n = self.connections.len();
        proof {
            assert(self.connections@ == c0.push(fwd).push(back));
            assert(self.connections@.take(c0.len() as int) == c0);
        }
        Ok((n - 2, n - 1))
    }

    /// Registered candidate connections, in registration order.
    pub fn connections(&self) -> (r: &[CandidateConnection])
        ensures
            r@ == self.spec_connections(),
    {
        self.connections.as_slice()
    }

    /// Admitted connections (the store itself never mints one).
    pub fn admitted_connections(&self) -> (r: &[AdmittedConnection])
        ensures
            r@ == self.spec_admitted(),
    {
        self.admitted.as_slice()
    }
}

impl Default for IslandStore {
    fn default() -> (r: Self)
        ensures
            r.wf(),
            r.table().len() == 0,
            r.spec_next_id() == 0,
            r.spec_staging() is None,
            r.spec_connections().len() == 0,
    {
        Self::new()
    }
}

} // verus!
