//! The executable registry and its operations.

use vstd::prelude::*;
use crate::model::{
    HeartbeatResult, PendingAssignment, RegistryState, ServerRecord, is_live, listing,
    LIVENESS_WINDOW,
};

verus! {

/// The caller's identity in text form: opaque, unique, and the key of a
/// server's record.
pub type Identity = String;

/// The name a server chose. Several servers may choose the same.
pub type ServerName = String;

/// Seconds since the epoch.
pub type Timestamp = u64;

/// A reachable network address.
pub type IPAddress = String;

/// Credential material for the tunnel.
pub type PublicKey = String;

/// A reputation score, or a change of one.
pub type Reputation = i64;

/// Why an operation was refused.
#[derive(Clone, Copy, Debug, PartialEq, Eq, Structural)]
pub enum RegistryError {
    /// The identity already has a record.
    AlreadyRegistered,
    /// No record for the identity or name.
    NotFound,
    /// The persisted snapshot could not be turned into a registry.
    StoreUnavailable,
}

/// What a server has registered, with its liveness time and score.
#[derive(Clone, Debug, PartialEq, Eq)]
pub struct ServerInfo {
    pub server_name: ServerName,
    pub public_key: PublicKey,
    pub ip_address: IPAddress,
    pub last_active: Timestamp,
    pub reputation: Reputation,
}

/// A record together with the identity that owns it.
#[derive(Clone, Debug, PartialEq, Eq)]
pub struct ServerEntry {
    pub identity: Identity,
    pub info: ServerInfo,
}

/// A client key waiting to be picked up by the server of that name.
#[derive(Clone, Debug, PartialEq, Eq)]
pub struct ClientAssignment {
    pub server_name: ServerName,
    pub client_public_key: PublicKey,
}

/// The answer to a heartbeat.
#[derive(Clone, Debug, PartialEq, Eq)]
pub enum HeartbeatOutcome {
    /// A client selected this server; its key is handed over, once.
    AssignmentDelivered(PublicKey),
    /// Nothing was pending; the server's liveness time was refreshed.
    LivenessRecorded,
    /// The caller has no record.
    NotFound,
}

/// The registry: all server records and all pending assignments.
#[derive(Clone, Debug)]
pub struct ServerRegistry {
    servers: Vec<ServerEntry>,
    client_assignments: Vec<ClientAssignment>,
}

impl View for ServerEntry {
    type V = ServerRecord;

    open spec fn view(&self) -> ServerRecord {
        ServerRecord {
            identity: self.identity@,
            name: self.info.server_name@,
            public_key: self.info.public_key@,
            address: self.info.ip_address@,
            last_active: self.info.last_active as int,
            reputation: self.info.reputation as int,
        }
    }
}

impl View for ClientAssignment {
    type V = PendingAssignment;

    open spec fn view(&self) -> PendingAssignment {
        PendingAssignment {
            name: self.server_name@,
            client_public_key: self.client_public_key@,
        }
    }
}

impl View for HeartbeatOutcome {
    type V = HeartbeatResult;

    open spec fn view(&self) -> HeartbeatResult {
        match self {
            HeartbeatOutcome::AssignmentDelivered(k) => HeartbeatResult::AssignmentDelivered(k@),
            HeartbeatOutcome::LivenessRecorded => HeartbeatResult::LivenessRecorded,
            HeartbeatOutcome::NotFound => HeartbeatResult::NotFound,
        }
    }
}

impl View for ServerRegistry {
    type V = RegistryState;

    closed spec fn view(&self) -> RegistryState {
        state_of(self.servers@, self.client_assignments@)
    }
}

/// The registry state that a list of entries and a list of assignments
/// stand for.
pub open spec fn state_of(
    servers: Seq<ServerEntry>,
    client_assignments: Seq<ClientAssignment>,
) -> RegistryState {
    RegistryState {
        servers: servers.map_values(|e: ServerEntry| e@),
        pending: client_assignments.map_values(|a: ClientAssignment| a@),
    }
}

/// Whether no two of the entries have one identity.
fn distinct_identities(servers: &Vec<ServerEntry>) -> (r: bool)
    ensures
        r == forall|i: int, j: int|
            0 <= i < j < servers@.len() ==> servers@[i]@.identity != servers@[j]@.identity,
{
    let mut j: usize = 0;
    while j < servers.len()
        invariant
            j <= servers@.len(),
            forall|a: int, b: int| 0 <= a < b < j ==> servers@[a]@.identity != servers@[b]@.identity,
        decreases servers@.len() - j,
    {
        let mut i: usize = 0;
        while i < j
            invariant
                i <= j < servers@.len(),
                forall|a: int| 0 <= a < i ==> servers@[a]@.identity != servers@[j as int]@.identity,
            decreases j - i,
        {
            if servers[i].identity == servers[j].identity {
                assert(servers@[i as int]@.identity == servers@[j as int]@.identity);
                return false;
            }
            i += 1;
        }
        j += 1;
    }
    true
}

/// Whether no two of the assignments are for one name.
fn distinct_names(client_assignments: &Vec<ClientAssignment>) -> (r: bool)
    ensures
        r == forall|i: int, j: int|
            0 <= i < j < client_assignments@.len() ==> client_assignments@[i]@.name
                != client_assignments@[j]@.name,
{
    let mut j: usize = 0;
    while j < client_assignments.len()
        invariant
            j <= client_assignments@.len(),
            forall|a: int, b: int|
                0 <= a < b < j ==> client_assignments@[a]@.name != client_assignments@[b]@.name,
        decreases client_assignments@.len() - j,
    {
        let mut i: usize = 0;
        while i < j
            invariant
                i <= j < client_assignments@.len(),
                forall|a: int|
                    0 <= a < i ==> client_assignments@[a]@.name != client_assignments@[j as int]@.name,
            decreases j - i,
        {
            if client_assignments[i].server_name == client_assignments[j].server_name {
                assert(client_assignments@[i as int]@.name == client_assignments@[j as int]@.name);
                return false;
            }
            i += 1;
        }
        j += 1;
    }
    true
}

/// What a directory entry stands for in the model.
pub open spec fn entry_view(e: (ServerName, PublicKey, IPAddress, Reputation)) -> (
    Seq<char>,
    Seq<char>,
    Seq<char>,
    int,
) {
    (e.0@, e.1@, e.2@, e.3 as int)
}

/// Filtering one element more keeps it or drops it, by the predicate.
proof fn lemma_filter_step<A>(s: Seq<A>, p: spec_fn(A) -> bool, i: int)
    requires
        0 <= i < s.len(),
    ensures
        s.take(i + 1).filter(p) == if p(s[i]) {
            s.take(i).filter(p).push(s[i])
        } else {
            s.take(i).filter(p)
        },
{
    reveal(Seq::filter);
    assert(s.take(i + 1).drop_last() =~= s.take(i));
    assert(s.take(i + 1).last() == s[i]);
}

impl Default for ServerRegistry {
    fn default() -> (r: ServerRegistry)
        ensures
            r.wf(),
            r@ == RegistryState::empty(),
    {
        ServerRegistry::new()
    }
}

impl ServerRegistry {
    /// The registry's invariant: that of its model.
    pub open spec fn wf(&self) -> bool {
        self@.wf()
    }

    /// A registry without records.
    pub fn new() -> (r: ServerRegistry)
        ensures
            r.wf(),
            r@ == RegistryState::empty(),
    {
        let r = ServerRegistry { servers: Vec::new(), client_assignments: Vec::new() };
        assert(r@.servers =~= Seq::empty());
        assert(r@.pending =~= Seq::empty());
        r
    }

    /// Rebuilds a registry from the parts of a stored snapshot. A snapshot in
    /// which an identity has two records, or a name two pending assignments,
    /// is refused.
    pub fn restore(servers: Vec<ServerEntry>, client_assignments: Vec<ClientAssignment>) -> (r:
        Result<ServerRegistry, RegistryError>)
        ensures
            match r {
                Ok(registry) => {
                    &&& registry.wf()
                    &&& registry@ == state_of(servers@, client_assignments@)
                },
                Err(e) => {
                    &&& !state_of(servers@, client_assignments@).wf()
                    &&& e == RegistryError::StoreUnavailable
                },
            },
    {
        let ghost state = state_of(servers@, client_assignments@);
        let no_identity_twice = distinct_identities(&servers);
        let no_name_twice = distinct_names(&client_assignments);
        proof {
            if !no_identity_twice {
                let (i, j) = choose|i: int, j: int|
                    0 <= i < j < servers@.len() && servers@[i]@.identity == servers@[j]@.identity;
                assert(state.servers[i].identity == state.servers[j].identity);
            } else if !no_name_twice {
                let (i, j) = choose|i: int, j: int|
                    0 <= i < j < client_assignments@.len() && client_assignments@[i]@.name
                        == client_assignments@[j]@.name;
                assert(state.pending[i].name == state.pending[j].name);
            } else {
                assert forall|i: int, j: int| 0 <= i < j < state.servers.len() implies state.servers[i].identity
                    != state.servers[j].identity by {
                    assert(servers@[i]@.identity != servers@[j]@.identity);
                }
                assert forall|i: int, j: int| 0 <= i < j < state.pending.len() implies state.pending[i].name
                    != state.pending[j].name by {
                    assert(client_assignments@[i]@.name != client_assignments@[j]@.name);
                }
            }
        }
        if no_identity_twice && no_name_twice {
            Ok(ServerRegistry { servers, client_assignments })
        } else {
            Err(RegistryError::StoreUnavailable)
        }
    }

    /// The reputation of `identity`, where it is registered.
    pub fn reputation(&self, identity: &Identity) -> (r: Option<Reputation>)
        requires
            self.wf(),
        ensures
            match r {
                Some(score) => self@.is_registered(identity@) && score == self@.record(
                    identity@,
                ).reputation,
                None => !self@.is_registered(identity@),
            },
    {
        match self.find_identity(identity) {
            Some(i) => Some(self.servers[i].info.reputation),
            None => None,
        }
    }

    /// The records, in order of registration.
    pub fn servers(&self) -> (r: &Vec<ServerEntry>)
        ensures
            r@.map_values(|e: ServerEntry| e@) == self@.servers,
    {
        &self.servers
    }

    /// The pending assignments.
    pub fn client_assignments(&self) -> (r: &Vec<ClientAssignment>)
        ensures
            r@.map_values(|a: ClientAssignment| a@) == self@.pending,
    {
        &self.client_assignments
    }

    /// Registers the caller `caller` as a server at time `now`. An identity
    /// registers once: a second registration is refused and changes nothing.
    pub fn register_server(
        &mut self,
        caller: Identity,
        server_name: ServerName,
        public_key: PublicKey,
        ip_address: IPAddress,
        now: Timestamp,
    ) -> (r: Result<(), RegistryError>)
        requires
            old(self).wf(),
        ensures
            final(self).wf(),
            final(self)@ == old(self)@.register(
                caller@,
                server_name@,
                public_key@,
                ip_address@,
                now as int,
            ),
            old(self)@.is_registered(caller@) ==> r == Err::<(), RegistryError>(
                RegistryError::AlreadyRegistered,
            ),
            !old(self)@.is_registered(caller@) ==> r is Ok,
    {
        if self.find_identity(&caller).is_some() {
            return Err(RegistryError::AlreadyRegistered);
        }
        let entry = ServerEntry {
            identity: caller,
            info: ServerInfo { server_name, public_key, ip_address, last_active: now, reputation: 0 },
        };
        self.servers.push(entry);
        proof {
            let next = old(self)@.register(
                caller@,
                server_name@,
                public_key@,
                ip_address@,
                now as int,
            );
            assert(self@.servers =~= next.servers);
            assert(self@.pending =~= next.pending);
        }
        Ok(())
    }

    /// Adds `delta` to the reputation of `principal_id` and returns the new
    /// score. The score is held in an `i64`; the sum has to fit.
    pub fn update_reputation(&mut self, principal_id: &Identity, delta: Reputation) -> (r: Result<
        Reputation,
        RegistryError,
    >)
        requires
            old(self).wf(),
            old(self)@.is_registered(principal_id@) ==> i64::MIN <= old(self)@.record(
                principal_id@,
            ).reputation + delta <= i64::MAX,
        ensures
            final(self).wf(),
            final(self)@ == old(self)@.adjust(principal_id@, delta as int),
            match r {
                Ok(score) => old(self)@.is_registered(principal_id@) && score == old(self)@.record(
                    principal_id@,
                ).reputation + delta,
                Err(e) => !old(self)@.is_registered(principal_id@) && e == RegistryError::NotFound,
            },
    {
        match self.find_identity(principal_id) {
            Some(i) => {
                let score: i64 = self.servers[i].info.reputation + delta;
                self.servers[i].info.reputation = score;
                proof {
                    let next = old(self)@.adjust(principal_id@, delta as int);
                    assert(self@.servers =~= next.servers);
                    assert(self@.pending =~= next.pending);
                }
                Ok(score)
            },
            None => Err(RegistryError::NotFound),
        }
    }

    /// A heartbeat of the server `caller` at time `now`. Where a client has
    /// selected the server's name, the client's key is handed over and
    /// leaves the registry, and the server's liveness time stays as it was.
    /// Otherwise the liveness time becomes `now`.
    pub fn heartbeat(&mut self, caller: &Identity, now: Timestamp) -> (r: HeartbeatOutcome)
        requires
            old(self).wf(),
        ensures
            final(self).wf(),
            final(self)@ == old(self)@.heartbeat(caller@, now as int),
            r@ == old(self)@.heartbeat_result(caller@),
    {
        match self.find_identity(caller) {
            Some(i) => {
                match self.find_pending(&self.servers[i].info.server_name) {
                    Some(j) => {
                        let taken = self.client_assignments.remove(j);
                        proof {
                            let next = old(self)@.heartbeat(caller@, now as int);
                            assert(self@.servers =~= next.servers);
                            assert(self@.pending =~= next.pending);
                        }
                        HeartbeatOutcome::AssignmentDelivered(taken.client_public_key)
                    },
                    None => {
                        self.servers[i].info.last_active = now;
                        proof {
                            let next = old(self)@.heartbeat(caller@, now as int);
                            assert(self@.servers =~= next.servers);
                            assert(self@.pending =~= next.pending);
                        }
                        HeartbeatOutcome::LivenessRecorded
                    },
                }
            },
            None => HeartbeatOutcome::NotFound,
        }
    }

    /// A client with key `client_public_key` asks for the server named
    /// `server_name`. Of several servers with that name the one registered
    /// first is chosen. Its public key and address are returned, and the
    /// client's key becomes the one assignment pending for the name.
    pub fn select_server(&mut self, server_name: ServerName, client_public_key: PublicKey) -> (r:
        Result<(PublicKey, IPAddress), RegistryError>)
        requires
            old(self).wf(),
        ensures
            final(self).wf(),
            final(self)@ == old(self)@.select(server_name@, client_public_key@),
            match r {
                Ok(found) => {
                    &&& old(self)@.has_name(server_name@)
                    &&& found.0@ == old(self)@.servers[old(self)@.first_named(
                        server_name@,
                    )].public_key
                    &&& found.1@ == old(self)@.servers[old(self)@.first_named(
                        server_name@,
                    )].address
                },
                Err(e) => !old(self)@.has_name(server_name@) && e == RegistryError::NotFound,
            },
    {
        match self.find_name(&server_name) {
            Some(i) => {
                let server_public_key = self.servers[i].info.public_key.clone();
                let ip_address = self.servers[i].info.ip_address.clone();
                self.assign(server_name, client_public_key);
                Ok((server_public_key, ip_address))
            },
            None => Err(RegistryError::NotFound),
        }
    }

    /// Makes `client_public_key` the one assignment pending for `server_name`.
    fn assign(&mut self, server_name: ServerName, client_public_key: PublicKey)
        requires
            old(self).wf(),
        ensures
            final(self).wf(),
            final(self)@.servers == old(self)@.servers,
            final(self)@.pending == if old(self)@.has_pending(server_name@) {
                old(self)@.pending.update(
                    old(self)@.pending_index(server_name@),
                    PendingAssignment { name: server_name@, client_public_key: client_public_key@ },
                )
            } else {
                old(self)@.pending.push(
                    PendingAssignment { name: server_name@, client_public_key: client_public_key@ },
                )
            },
    {
        let ghost a = PendingAssignment { name: server_name@, client_public_key: client_public_key@ };
        match self.find_pending(&server_name) {
            Some(j) => {
                self.client_assignments.set(j, ClientAssignment { server_name, client_public_key });
                assert(self@.pending =~= old(self)@.pending.update(j as int, a));
            },
            None => {
                self.client_assignments.push(ClientAssignment { server_name, client_public_key });
                assert(self@.pending =~= old(self)@.pending.push(a));
            },
        }
        assert(self@.servers =~= old(self)@.servers);
    }

    /// The directory at time `now`: name, public key, address and
    /// reputation of every server inside the liveness window, in order of
    /// registration.
    pub fn get_active_servers(&self, now: Timestamp) -> (r: Vec<
        (ServerName, PublicKey, IPAddress, Reputation),
    >)
        ensures
            r@.map_values(|e: (ServerName, PublicKey, IPAddress, Reputation)| entry_view(e))
                == self@.directory(now as int),
    {
        let mut out: Vec<(ServerName, PublicKey, IPAddress, Reputation)> = Vec::new();
        let ghost live = |r: ServerRecord| is_live(r.last_active, now as int);
        let ghost show = |r: ServerRecord| listing(r);
        let ghost shown = |e: (ServerName, PublicKey, IPAddress, Reputation)| entry_view(e);
        let mut i: usize = 0;
        proof {
            reveal(Seq::filter);
            assert(self@.servers.take(0).filter(live) =~= Seq::empty());
        }
        while i < self.servers.len()
            invariant
                i <= self.servers@.len(),
                live == |r: ServerRecord| is_live(r.last_active, now as int),
                show == |r: ServerRecord| listing(r),
                shown == |e: (ServerName, PublicKey, IPAddress, Reputation)| entry_view(e),
                out@.map_values(shown) =~= self@.servers.take(i as int).filter(live).map_values(
                    show,
                ),
            decreases self.servers@.len() - i,
        {
            let info = &self.servers[i].info;
            proof {
                lemma_filter_step(self@.servers, live, i as int);
            }
            let ghost before = out@;
            let ghost kept = self@.servers.take(i as int).filter(live);
            let ghost record = self@.servers[i as int];
            if now.saturating_sub(info.last_active) <= LIVENESS_WINDOW {
                let entry = (
                    info.server_name.clone(),
                    info.public_key.clone(),
                    info.ip_address.clone(),
                    info.reputation,
                );
                out.push(entry);
                assert(live(record));
                assert(entry_view(entry) == listing(record));
                assert(out@.map_values(shown) =~= before.map_values(shown).push(
                    entry_view(entry),
                ));
                assert(kept.push(record).map_values(show) =~= kept.map_values(show).push(
                    listing(record),
                ));
            } else {
                assert(!live(record));
            }
            i += 1;
        }
        assert(self@.servers.take(i as int) =~= self@.servers);
        out
    }

    /// Position of the record of `identity`.
    fn find_identity(&self, identity: &String) -> (r: Option<usize>)
        requires
            self.wf(),
        ensures
            r is Some <==> self@.is_registered(identity@),
            r is Some ==> r.unwrap() == self@.index_of(identity@) && r.unwrap()
                < self.servers@.len(),
    {
        let mut i: usize = 0;
        while i < self.servers.len()
            invariant
                self.wf(),
                i <= self.servers@.len(),
                forall|k: int| 0 <= k < i ==> self@.servers[k].identity != identity@,
            decreases self.servers@.len() - i,
        {
            if self.servers[i].identity == *identity {
                assert(self@.servers[i as int].identity == identity@);
                proof {
                    let c = self@.index_of(identity@);
                    assert(self@.servers[c].identity == self@.servers[i as int].identity);
                    assert(c == i) by {
                        if c < i {
                        } else if c > i {
                        }
                    }
                }
                return Some(i);
            }
            i += 1;
        }
        None
    }

    /// Position of the first record registered under `name`.
    fn find_name(&self, name: &String) -> (r: Option<usize>)
        ensures
            r is Some <==> self@.has_name(name@),
            r is Some ==> r.unwrap() == self@.first_named(name@) && r.unwrap()
                < self.servers@.len(),
    {
        let mut i: usize = 0;
        while i < self.servers.len()
            invariant
                i <= self.servers@.len(),
                forall|k: int| 0 <= k < i ==> self@.servers[k].name != name@,
            decreases self.servers@.len() - i,
        {
            if self.servers[i].info.server_name == *name {
                assert(self@.servers[i as int].name == name@);
                proof {
                    let c = self@.first_named(name@);
                    assert(c == i) by {
                        if c < i {
                        } else if c > i {
                        }
                    }
                }
                return Some(i);
            }
            i += 1;
        }
        None
    }

    /// Position of the assignment pending for `name`.
    fn find_pending(&self, name: &String) -> (r: Option<usize>)
        requires
            self.wf(),
        ensures
            r is Some <==> self@.has_pending(name@),
            r is Some ==> r.unwrap() == self@.pending_index(name@) && r.unwrap()
                < self.client_assignments@.len(),
    {
        let mut i: usize = 0;
        while i < self.client_assignments.len()
            invariant
                self.wf(),
                i <= self.client_assignments@.len(),
                forall|k: int| 0 <= k < i ==> self@.pending[k].name != name@,
            decreases self.client_assignments@.len() - i,
        {
            if self.client_assignments[i].server_name == *name {
                assert(self@.pending[i as int].name == name@);
                proof {
                    let c = self@.pending_index(name@);
                    assert(self@.pending[c].name == self@.pending[i as int].name);
                    assert(c == i) by {
                        if c < i {
                        } else if c > i {
                        }
                    }
                }
                return Some(i);
            }
            i += 1;
        }
        None
    }
}

} // verus!
