//! The mathematical model of the registry: records, the aggregate state, and
//! each operation as a function from state to state.

use vstd::prelude::*;

verus! {

/// Length of the liveness window in seconds. A record whose last activity
/// lies at most this far in the past is listed as active.
pub const LIVENESS_WINDOW: u64 = 30;

/// One registered server, as the contracts see it.
pub struct ServerRecord {
    pub identity: Seq<char>,
    pub name: Seq<char>,
    pub public_key: Seq<char>,
    pub address: Seq<char>,
    pub last_active: int,
    pub reputation: int,
}

/// A client credential waiting for the server that registered under `name`.
pub struct PendingAssignment {
    pub name: Seq<char>,
    pub client_public_key: Seq<char>,
}

/// What a heartbeat reports back to the calling server.
pub enum HeartbeatResult {
    AssignmentDelivered(Seq<char>),
    LivenessRecorded,
    NotFound,
}

/// The whole registry: the server records in order of registration and the
/// pending assignments.
pub struct RegistryState {
    pub servers: Seq<ServerRecord>,
    pub pending: Seq<PendingAssignment>,
}

/// The directory entry that is published for an active record:
/// name, public key, address and reputation.
pub open spec fn listing(r: ServerRecord) -> (Seq<char>, Seq<char>, Seq<char>, int) {
    (r.name, r.public_key, r.address, r.reputation)
}

/// Whether a record last active at `last_active` is inside the liveness
/// window at time `now`. The boundary is inclusive.
pub open spec fn is_live(last_active: int, now: int) -> bool {
    now - last_active <= LIVENESS_WINDOW as int
}

impl RegistryState {
    /// The registry with no record and no pending assignment.
    pub open spec fn empty() -> RegistryState {
        RegistryState { servers: Seq::empty(), pending: Seq::empty() }
    }

    /// No identity has two records, and no name has two pending assignments.
    pub open spec fn wf(self) -> bool {
        &&& forall|i: int, j: int|
            0 <= i < j < self.servers.len() ==> self.servers[i].identity
                != self.servers[j].identity
        &&& forall|i: int, j: int|
            0 <= i < j < self.pending.len() ==> self.pending[i].name != self.pending[j].name
    }

    pub open spec fn is_registered(self, identity: Seq<char>) -> bool {
        exists|i: int| 0 <= i < self.servers.len() && self.servers[i].identity == identity
    }

    /// Position of the record of `identity`, where it is registered.
    pub open spec fn index_of(self, identity: Seq<char>) -> int {
        choose|i: int| 0 <= i < self.servers.len() && self.servers[i].identity == identity
    }

    /// The record of `identity`, where it is registered.
    pub open spec fn record(self, identity: Seq<char>) -> ServerRecord {
        self.servers[self.index_of(identity)]
    }

    pub open spec fn has_name(self, name: Seq<char>) -> bool {
        exists|i: int| 0 <= i < self.servers.len() && self.servers[i].name == name
    }

    /// Position of the record that a selection by `name` resolves to: of all
    /// records registered under that name, the one registered first.
    pub open spec fn first_named(self, name: Seq<char>) -> int {
        choose|i: int|
            0 <= i < self.servers.len() && self.servers[i].name == name && forall|j: int|
                0 <= j < i ==> self.servers[j].name != name
    }

    pub open spec fn has_pending(self, name: Seq<char>) -> bool {
        exists|i: int| 0 <= i < self.pending.len() && self.pending[i].name == name
    }

    /// Position of the pending assignment for `name`, where there is one.
    pub open spec fn pending_index(self, name: Seq<char>) -> int {
        choose|i: int| 0 <= i < self.pending.len() && self.pending[i].name == name
    }

    /// The client key pending for `name`, where there is one.
    pub open spec fn pending_key(self, name: Seq<char>) -> Seq<char> {
        self.pending[self.pending_index(name)].client_public_key
    }

    /// The records as a map from identity to record.
    pub open spec fn server_map(self) -> Map<Seq<char>, ServerRecord> {
        Map::new(|id: Seq<char>| self.is_registered(id), |id: Seq<char>| self.record(id))
    }

    /// The pending assignments as a map from server name to client key.
    pub open spec fn pending_map(self) -> Map<Seq<char>, Seq<char>> {
        Map::new(|n: Seq<char>| self.has_pending(n), |n: Seq<char>| self.pending_key(n))
    }

    /// Registration: a new identity gets a record with reputation 0 that was
    /// last active at `now`; a known identity changes nothing.
    pub open spec fn register(
        self,
        identity: Seq<char>,
        name: Seq<char>,
        public_key: Seq<char>,
        address: Seq<char>,
        now: int,
    ) -> RegistryState {
        if self.is_registered(identity) {
            self
        } else {
            RegistryState {
                servers: self.servers.push(
                    ServerRecord {
                        identity,
                        name,
                        public_key,
                        address,
                        last_active: now,
                        reputation: 0,
                    },
                ),
                ..self
            }
        }
    }

    /// Reputation update: `delta` is added to the score of `identity`; an
    /// unknown identity changes nothing.
    pub open spec fn adjust(self, identity: Seq<char>, delta: int) -> RegistryState {
        if self.is_registered(identity) {
            let r = self.record(identity);
            RegistryState {
                servers: self.servers.update(
                    self.index_of(identity),
                    ServerRecord { reputation: r.reputation + delta, ..r },
                ),
                ..self
            }
        } else {
            self
        }
    }

    /// What a heartbeat of `identity` reports in this state. A pending
    /// assignment for the server's name takes priority over liveness.
    pub open spec fn heartbeat_result(self, identity: Seq<char>) -> HeartbeatResult {
        if !self.is_registered(identity) {
            HeartbeatResult::NotFound
        } else if self.has_pending(self.record(identity).name) {
            HeartbeatResult::AssignmentDelivered(self.pending_key(self.record(identity).name))
        } else {
            HeartbeatResult::LivenessRecorded
        }
    }

    /// The state after a heartbeat of `identity` at `now`: a delivered
    /// assignment leaves the pending ones and the record keeps its time;
    /// otherwise the record's time becomes `now`.
    pub open spec fn heartbeat(self, identity: Seq<char>, now: int) -> RegistryState {
        if !self.is_registered(identity) {
            self
        } else if self.has_pending(self.record(identity).name) {
            RegistryState {
                pending: self.pending.remove(self.pending_index(self.record(identity).name)),
                ..self
            }
        } else {
            RegistryState {
                servers: self.servers.update(
                    self.index_of(identity),
                    ServerRecord { last_active: now, ..self.record(identity) },
                ),
                ..self
            }
        }
    }

    /// The state after a client with key `client_public_key` selected `name`:
    /// where a server has that name, the key becomes the one pending
    /// assignment for it, in place of an earlier one.
    pub open spec fn select(self, name: Seq<char>, client_public_key: Seq<char>) -> RegistryState {
        let a = PendingAssignment { name, client_public_key };
        if !self.has_name(name) {
            self
        } else if self.has_pending(name) {
            RegistryState { pending: self.pending.update(self.pending_index(name), a), ..self }
        } else {
            RegistryState { pending: self.pending.push(a), ..self }
        }
    }

    /// The records inside the liveness window at `now`, in order of
    /// registration.
    pub open spec fn active(self, now: int) -> Seq<ServerRecord> {
        self.servers.filter(|r: ServerRecord| is_live(r.last_active, now))
    }

    /// The directory at `now`: one listing for each active record.
    pub open spec fn directory(self, now: int) -> Seq<(Seq<char>, Seq<char>, Seq<char>, int)> {
        self.active(now).map_values(|r: ServerRecord| listing(r))
    }
}

} // verus!
