//! What holds of the registry's operations taken together, proved over the
//! model that the operations' contracts speak of.

use vstd::prelude::*;
use crate::model::{HeartbeatResult, PendingAssignment, RegistryState, ServerRecord, is_live};

verus! {

/// The sum of a sequence of reputation changes.
pub open spec fn total(deltas: Seq<int>) -> int
    decreases deltas.len(),
{
    if deltas.len() == 0 {
        0
    } else {
        total(deltas.drop_last()) + deltas.last()
    }
}

/// The state after the reputation of `identity` was updated by each of
/// `deltas` in turn.
pub open spec fn adjust_all(s: RegistryState, identity: Seq<char>, deltas: Seq<int>) -> RegistryState
    decreases deltas.len(),
{
    if deltas.len() == 0 {
        s
    } else {
        adjust_all(s, identity, deltas.drop_last()).adjust(identity, deltas.last())
    }
}

/// Whether `identity`, registered in `before`, is registered in `after`
/// under the same name, key and address.
pub open spec fn same_registration(
    before: RegistryState,
    after: RegistryState,
    identity: Seq<char>,
) -> bool {
    &&& after.is_registered(identity)
    &&& after.record(identity).identity == before.record(identity).identity
    &&& after.record(identity).name == before.record(identity).name
    &&& after.record(identity).public_key == before.record(identity).public_key
    &&& after.record(identity).address == before.record(identity).address
}

/// In a valid registry the record of an identity stands at one position only.
pub proof fn lemma_index_unique(s: RegistryState, identity: Seq<char>, i: int)
    requires
        s.wf(),
        0 <= i < s.servers.len(),
        s.servers[i].identity == identity,
    ensures
        s.is_registered(identity),
        s.index_of(identity) == i,
        s.record(identity) == s.servers[i],
{
    let c = s.index_of(identity);
    assert(s.servers[c].identity == s.servers[i].identity);
    if c < i {
    } else if c > i {
    }
}

/// In a valid registry the assignment pending for a name stands at one
/// position only.
pub proof fn lemma_pending_unique(s: RegistryState, name: Seq<char>, i: int)
    requires
        s.wf(),
        0 <= i < s.pending.len(),
        s.pending[i].name == name,
    ensures
        s.has_pending(name),
        s.pending_index(name) == i,
        s.pending_key(name) == s.pending[i].client_public_key,
{
    let c = s.pending_index(name);
    assert(s.pending[c].name == s.pending[i].name);
    if c < i {
    } else if c > i {
    }
}

/// Registration keeps the registry valid.
pub proof fn lemma_register_keeps_wf(
    s: RegistryState,
    identity: Seq<char>,
    name: Seq<char>,
    public_key: Seq<char>,
    address: Seq<char>,
    now: int,
)
    requires
        s.wf(),
    ensures
        s.register(identity, name, public_key, address, now).wf(),
{
    let next = s.register(identity, name, public_key, address, now);
    if !s.is_registered(identity) {
        assert forall|i: int, j: int| 0 <= i < j < next.servers.len() implies next.servers[i].identity
            != next.servers[j].identity by {
            assert(next.servers[i] == s.servers[i]);
            if j < s.servers.len() {
                assert(next.servers[j] == s.servers[j]);
            }
        }
    }
}

/// A reputation update keeps the registry valid, keeps every identity where
/// it is, and changes the score of the one record only.
pub proof fn lemma_adjust_keeps_wf(s: RegistryState, identity: Seq<char>, delta: int)
    requires
        s.wf(),
    ensures
        s.adjust(identity, delta).wf(),
        s.adjust(identity, delta).is_registered(identity) == s.is_registered(identity),
        s.is_registered(identity) ==> s.adjust(identity, delta).record(identity) == (ServerRecord {
            reputation: s.record(identity).reputation + delta,
            ..s.record(identity)
        }),
{
    let next = s.adjust(identity, delta);
    if s.is_registered(identity) {
        let k = s.index_of(identity);
        assert forall|i: int, j: int| 0 <= i < j < next.servers.len() implies next.servers[i].identity
            != next.servers[j].identity by {
            assert(next.servers[i].identity == s.servers[i].identity);
            assert(next.servers[j].identity == s.servers[j].identity);
        }
        assert(next.servers[k].identity == identity);
        lemma_index_unique(next, identity, k);
    }
}

/// A heartbeat keeps the registry valid.
pub proof fn lemma_heartbeat_keeps_wf(s: RegistryState, identity: Seq<char>, now: int)
    requires
        s.wf(),
    ensures
        s.heartbeat(identity, now).wf(),
{
    let next = s.heartbeat(identity, now);
    if s.is_registered(identity) {
        let name = s.record(identity).name;
        if s.has_pending(name) {
            let k = s.pending_index(name);
            assert forall|i: int, j: int| 0 <= i < j < next.pending.len() implies next.pending[i].name
                != next.pending[j].name by {
                let a = if i < k { i } else { i + 1 };
                let b = if j < k { j } else { j + 1 };
                assert(next.pending[i] == s.pending[a]);
                assert(next.pending[j] == s.pending[b]);
            }
        } else {
            assert forall|i: int, j: int| 0 <= i < j < next.servers.len() implies next.servers[i].identity
                != next.servers[j].identity by {
                assert(next.servers[i].identity == s.servers[i].identity);
                assert(next.servers[j].identity == s.servers[j].identity);
            }
        }
    }
}

/// A selection keeps the registry valid.
pub proof fn lemma_select_keeps_wf(s: RegistryState, name: Seq<char>, client_public_key: Seq<char>)
    requires
        s.wf(),
    ensures
        s.select(name, client_public_key).wf(),
{
    let next = s.select(name, client_public_key);
    if s.has_name(name) {
        assert forall|i: int, j: int| 0 <= i < j < next.pending.len() implies next.pending[i].name
            != next.pending[j].name by {
            if j < s.pending.len() {
                assert(next.pending[i].name == s.pending[i].name);
                assert(next.pending[j].name == s.pending[j].name);
            } else {
                assert(next.pending[i].name == s.pending[i].name);
                assert(next.pending[j].name == name);
            }
        }
    }
}

/// Two valid registries with the same pending assignments have the same map
/// of pending assignments.
proof fn lemma_same_pending(s: RegistryState, t: RegistryState)
    requires
        s.wf(),
        t.wf(),
        s.pending == t.pending,
    ensures
        s.pending_map() == t.pending_map(),
{
    assert forall|n: Seq<char>| s.has_pending(n) implies t.has_pending(n) && t.pending_key(n)
        == s.pending_key(n) by {
        let i = s.pending_index(n);
        lemma_pending_unique(s, n, i);
        lemma_pending_unique(t, n, i);
    }
    assert forall|n: Seq<char>| t.has_pending(n) implies s.has_pending(n) by {
        let i = t.pending_index(n);
        lemma_pending_unique(s, n, i);
    }
    assert(s.pending_map() =~= t.pending_map());
}

/// Two valid registries with the same records have the same map of records.
proof fn lemma_same_servers(s: RegistryState, t: RegistryState)
    requires
        s.wf(),
        t.wf(),
        s.servers == t.servers,
    ensures
        s.server_map() == t.server_map(),
{
    assert forall|id: Seq<char>| s.is_registered(id) implies t.is_registered(id) && t.record(id)
        == s.record(id) by {
        let i = s.index_of(id);
        lemma_index_unique(s, id, i);
        lemma_index_unique(t, id, i);
    }
    assert forall|id: Seq<char>| t.is_registered(id) implies s.is_registered(id) by {
        let i = t.index_of(id);
        lemma_index_unique(s, id, i);
    }
    assert(s.server_map() =~= t.server_map());
}

/// Registration of a new identity adds its record to the map of records and
/// leaves the pending assignments alone.
pub proof fn lemma_register_as_map(
    s: RegistryState,
    identity: Seq<char>,
    name: Seq<char>,
    public_key: Seq<char>,
    address: Seq<char>,
    now: int,
)
    requires
        s.wf(),
        !s.is_registered(identity),
    ensures
        s.register(identity, name, public_key, address, now).server_map() == s.server_map().insert(
            identity,
            ServerRecord { identity, name, public_key, address, last_active: now, reputation: 0 },
        ),
        s.register(identity, name, public_key, address, now).pending_map() == s.pending_map(),
{
    let next = s.register(identity, name, public_key, address, now);
    let rec = ServerRecord { identity, name, public_key, address, last_active: now, reputation: 0 };
    let n = s.servers.len() as int;
    lemma_register_keeps_wf(s, identity, name, public_key, address, now);
    assert(next.servers[n] == rec);
    lemma_index_unique(next, identity, n);
    assert forall|id: Seq<char>| s.is_registered(id) implies next.is_registered(id) && next.record(
        id,
    ) == s.record(id) by {
        let i = s.index_of(id);
        assert(next.servers[i] == s.servers[i]);
        lemma_index_unique(next, id, i);
    }
    assert forall|id: Seq<char>| next.is_registered(id) && id != identity implies s.is_registered(
        id,
    ) by {
        let i = next.index_of(id);
        assert(next.servers[i] == s.servers[i]);
    }
    assert(next.server_map() =~= s.server_map().insert(identity, rec));
    lemma_same_pending(next, s);
}

/// A reputation update replaces the one record in the map of records and
/// leaves the pending assignments alone.
pub proof fn lemma_adjust_as_map(s: RegistryState, identity: Seq<char>, delta: int)
    requires
        s.wf(),
        s.is_registered(identity),
    ensures
        s.adjust(identity, delta).server_map() == s.server_map().insert(
            identity,
            ServerRecord { reputation: s.record(identity).reputation + delta, ..s.record(identity) },
        ),
        s.adjust(identity, delta).pending_map() == s.pending_map(),
{
    let next = s.adjust(identity, delta);
    let rec = ServerRecord { reputation: s.record(identity).reputation + delta, ..s.record(identity) };
    lemma_adjust_keeps_wf(s, identity, delta);
    lemma_update_as_map(s, next, identity, rec);
    lemma_same_pending(next, s);
}

/// Replacing the record of one identity by another record of that identity
/// replaces it in the map of records.
proof fn lemma_update_as_map(s: RegistryState, next: RegistryState, identity: Seq<char>, rec: ServerRecord)
    requires
        s.wf(),
        s.is_registered(identity),
        rec.identity == identity,
        next.servers == s.servers.update(s.index_of(identity), rec),
    ensures
        next.server_map() == s.server_map().insert(identity, rec),
{
    let k = s.index_of(identity);
    assert forall|i: int, j: int| 0 <= i < j < next.servers.len() implies next.servers[i].identity
        != next.servers[j].identity by {
        assert(next.servers[i].identity == s.servers[i].identity);
        assert(next.servers[j].identity == s.servers[j].identity);
    }
    let both = RegistryState { servers: next.servers, pending: s.pending };
    assert(both.wf());
    assert(both.servers[k] == rec);
    lemma_index_unique(both, identity, k);
    assert forall|id: Seq<char>| s.is_registered(id) && id != identity implies next.is_registered(
        id,
    ) && next.record(id) == s.record(id) by {
        let i = s.index_of(id);
        assert(both.servers[i] == s.servers[i]);
        lemma_index_unique(both, id, i);
    }
    assert forall|id: Seq<char>| next.is_registered(id) implies s.is_registered(id) by {
        let i = next.index_of(id);
        assert(next.servers[i].identity == s.servers[i].identity);
    }
    assert(next.is_registered(identity));
    assert(next.record(identity) == rec);
    assert(next.server_map() =~= s.server_map().insert(identity, rec));
}

/// A heartbeat of a registered server either takes the assignment of the
/// server's name out of the map of pending assignments and leaves the
/// records alone, or sets the record's time and leaves the assignments alone.
pub proof fn lemma_heartbeat_as_map(s: RegistryState, identity: Seq<char>, now: int)
    requires
        s.wf(),
        s.is_registered(identity),
    ensures
        s.pending_map().contains_key(s.record(identity).name) ==> {
            &&& s.heartbeat_result(identity) == HeartbeatResult::AssignmentDelivered(
                s.pending_map()[s.record(identity).name],
            )
            &&& s.heartbeat(identity, now).pending_map() == s.pending_map().remove(
                s.record(identity).name,
            )
            &&& s.heartbeat(identity, now).server_map() == s.server_map()
        },
        !s.pending_map().contains_key(s.record(identity).name) ==> {
            &&& s.heartbeat_result(identity) == HeartbeatResult::LivenessRecorded
            &&& s.heartbeat(identity, now).pending_map() == s.pending_map()
            &&& s.heartbeat(identity, now).server_map() == s.server_map().insert(
                identity,
                ServerRecord { last_active: now, ..s.record(identity) },
            )
        },
{
    let next = s.heartbeat(identity, now);
    let name = s.record(identity).name;
    lemma_heartbeat_keeps_wf(s, identity, now);
    if s.has_pending(name) {
        let p = s.pending_index(name);
        assert(next.pending == s.pending.remove(p));
        assert forall|n: Seq<char>| s.has_pending(n) && n != name implies next.has_pending(n)
            && next.pending_key(n) == s.pending_key(n) by {
            let i = s.pending_index(n);
            let j = if i < p { i } else { i - 1 };
            assert(next.pending[j] == s.pending[i]);
            lemma_pending_unique(next, n, j);
        }
        assert forall|n: Seq<char>| next.has_pending(n) implies s.has_pending(n) && n != name by {
            let j = next.pending_index(n);
            let i = if j < p { j } else { j + 1 };
            assert(next.pending[j] == s.pending[i]);
            assert(s.pending[i].name == n);
            if n == name {
                assert(s.pending[p].name == s.pending[i].name);
            }
        }
        assert(next.pending_map() =~= s.pending_map().remove(name));
        lemma_same_servers(next, s);
    } else {
        lemma_update_as_map(s, next, identity, ServerRecord { last_active: now, ..s.record(identity) });
        lemma_same_pending(next, s);
    }
}

/// A selection of a name that a server has puts the client's key into the
/// map of pending assignments, over an earlier one, and leaves the records
/// alone.
pub proof fn lemma_select_as_map(s: RegistryState, name: Seq<char>, client_public_key: Seq<char>)
    requires
        s.wf(),
        s.has_name(name),
    ensures
        s.select(name, client_public_key).pending_map() == s.pending_map().insert(
            name,
            client_public_key,
        ),
        s.select(name, client_public_key).server_map() == s.server_map(),
{
    let next = s.select(name, client_public_key);
    lemma_select_keeps_wf(s, name, client_public_key);
    let p = if s.has_pending(name) {
        s.pending_index(name)
    } else {
        s.pending.len() as int
    };
    assert(next.pending[p] == PendingAssignment { name, client_public_key });
    lemma_pending_unique(next, name, p);
    assert forall|n: Seq<char>| s.has_pending(n) && n != name implies next.has_pending(n)
        && next.pending_key(n) == s.pending_key(n) by {
        let i = s.pending_index(n);
        assert(next.pending[i] == s.pending[i]);
        lemma_pending_unique(next, n, i);
    }
    assert forall|n: Seq<char>| next.has_pending(n) && n != name implies s.has_pending(n) by {
        let j = next.pending_index(n);
        assert(next.pending[j] == s.pending[j]);
    }
    assert(next.pending_map() =~= s.pending_map().insert(name, client_public_key));
    lemma_same_servers(next, s);
}

/// Registration is create-only. An identity without a record gets one, so a
/// second registration of it is refused; and whatever the second call
/// offers, the registry after both calls is the registry after the first.
pub proof fn lemma_register_twice(
    s: RegistryState,
    identity: Seq<char>,
    name: Seq<char>,
    public_key: Seq<char>,
    address: Seq<char>,
    now: int,
    name2: Seq<char>,
    public_key2: Seq<char>,
    address2: Seq<char>,
    now2: int,
)
    requires
        s.wf(),
        !s.is_registered(identity),
    ensures
        s.register(identity, name, public_key, address, now).is_registered(identity),
        s.register(identity, name, public_key, address, now).record(identity) == (ServerRecord {
            identity,
            name,
            public_key,
            address,
            last_active: now,
            reputation: 0,
        }),
        s.register(identity, name, public_key, address, now).register(
            identity,
            name2,
            public_key2,
            address2,
            now2,
        ) == s.register(identity, name, public_key, address, now),
{
    let first = s.register(identity, name, public_key, address, now);
    lemma_register_keeps_wf(s, identity, name, public_key, address, now);
    assert(first.servers[s.servers.len() as int].identity == identity);
    lemma_index_unique(first, identity, s.servers.len() as int);
}

/// Reputation is additive: after any sequence of updates the score of a
/// registered identity is its earlier score plus the sum of the changes,
/// whatever their signs and whatever the running totals were.
pub proof fn lemma_reputation_additive(s: RegistryState, identity: Seq<char>, deltas: Seq<int>)
    requires
        s.wf(),
        s.is_registered(identity),
    ensures
        adjust_all(s, identity, deltas).wf(),
        adjust_all(s, identity, deltas).is_registered(identity),
        adjust_all(s, identity, deltas).record(identity) == (ServerRecord {
            reputation: s.record(identity).reputation + total(deltas),
            ..s.record(identity)
        }),
    decreases deltas.len(),
{
    if deltas.len() > 0 {
        lemma_reputation_additive(s, identity, deltas.drop_last());
        lemma_adjust_keeps_wf(adjust_all(s, identity, deltas.drop_last()), identity, deltas.last());
    }
}

/// A selection is delivered exactly once. After a client selected `name`,
/// the next heartbeat of a server registered under that name hands over the
/// client's key; whatever that server's heartbeats after it, taken in turn,
/// they record liveness and deliver nothing, as long as nobody selects anew.
pub proof fn lemma_assignment_delivered_once(
    s: RegistryState,
    identity: Seq<char>,
    name: Seq<char>,
    client_public_key: Seq<char>,
    now: int,
    later: int,
)
    requires
        s.wf(),
        s.is_registered(identity),
        s.record(identity).name == name,
    ensures
        s.has_name(name),
        s.select(name, client_public_key).heartbeat_result(identity)
            == HeartbeatResult::AssignmentDelivered(client_public_key),
        s.select(name, client_public_key).heartbeat(identity, now).heartbeat_result(identity)
            == HeartbeatResult::LivenessRecorded,
        s.select(name, client_public_key).heartbeat(identity, now).heartbeat(
            identity,
            later,
        ).heartbeat_result(identity) == HeartbeatResult::LivenessRecorded,
        s.select(name, client_public_key).heartbeat(identity, now).record(identity) == s.record(
            identity,
        ),
        !s.select(name, client_public_key).heartbeat(identity, now).has_pending(name),
{
    let k = s.index_of(identity);
    assert(s.servers[k].name == name);
    let s1 = s.select(name, client_public_key);
    lemma_select_keeps_wf(s, name, client_public_key);
    assert(s1.servers == s.servers);
    lemma_index_unique(s1, identity, k);
    let p = if s.has_pending(name) {
        s.pending_index(name)
    } else {
        s.pending.len() as int
    };
    assert(s1.pending[p] == PendingAssignment { name, client_public_key });
    lemma_pending_unique(s1, name, p);
    let s2 = s1.heartbeat(identity, now);
    lemma_heartbeat_keeps_wf(s1, identity, now);
    assert(s2.pending == s1.pending.remove(p));
    assert(s2.servers == s.servers);
    lemma_index_unique(s2, identity, k);
    assert(!s2.has_pending(name)) by {
        if s2.has_pending(name) {
            let q = s2.pending_index(name);
            let b = if q < p { q } else { q + 1 };
            assert(s2.pending[q] == s1.pending[b]);
            assert(s1.pending[b].name == s1.pending[p].name);
        }
    }
    let s3 = s2.heartbeat(identity, later);
    lemma_heartbeat_keeps_wf(s2, identity, later);
    assert(s3.pending == s2.pending);
    assert(s3.servers[k].identity == identity);
    lemma_index_unique(s3, identity, k);
    assert(s3.record(identity).name == name);
    assert(s3.has_pending(name) == s2.has_pending(name));
}

/// An assignment comes from a selection only: where nothing is pending for
/// a name, nothing is pending for it after a registration, a reputation
/// update, a heartbeat of any server, or a selection of another name. So a
/// server that was handed its assignment is handed nothing more until a
/// client selects its name anew.
pub proof fn lemma_pending_only_by_selection(
    s: RegistryState,
    quiet: Seq<char>,
    identity: Seq<char>,
    name: Seq<char>,
    public_key: Seq<char>,
    address: Seq<char>,
    client_public_key: Seq<char>,
    delta: int,
    now: int,
)
    requires
        s.wf(),
        !s.has_pending(quiet),
    ensures
        !s.register(identity, name, public_key, address, now).has_pending(quiet),
        !s.adjust(identity, delta).has_pending(quiet),
        !s.heartbeat(identity, now).has_pending(quiet),
        name != quiet ==> !s.select(name, client_public_key).has_pending(quiet),
{
    assert(!s.pending_map().contains_key(quiet));
    let registered = s.register(identity, name, public_key, address, now);
    if !s.is_registered(identity) {
        lemma_register_as_map(s, identity, name, public_key, address, now);
        assert(registered.pending_map().contains_key(quiet) == registered.has_pending(quiet));
    }
    let adjusted = s.adjust(identity, delta);
    let beaten = s.heartbeat(identity, now);
    if s.is_registered(identity) {
        lemma_adjust_as_map(s, identity, delta);
        assert(adjusted.pending_map().contains_key(quiet) == adjusted.has_pending(quiet));
        lemma_heartbeat_as_map(s, identity, now);
        assert(beaten.pending_map().contains_key(quiet) == beaten.has_pending(quiet));
    }
    let selected = s.select(name, client_public_key);
    if s.has_name(name) && name != quiet {
        lemma_select_as_map(s, name, client_public_key);
        assert(selected.pending_map().contains_key(quiet) == selected.has_pending(quiet));
    }
}

/// A record is made once and never replaced: whatever operation follows, a
/// registered identity stays registered under the name, key and address it
/// registered with.
pub proof fn lemma_registration_is_kept(
    s: RegistryState,
    kept: Seq<char>,
    identity: Seq<char>,
    name: Seq<char>,
    public_key: Seq<char>,
    address: Seq<char>,
    client_public_key: Seq<char>,
    delta: int,
    now: int,
)
    requires
        s.wf(),
        s.is_registered(kept),
    ensures
        same_registration(s, s.register(identity, name, public_key, address, now), kept),
        same_registration(s, s.adjust(identity, delta), kept),
        same_registration(s, s.heartbeat(identity, now), kept),
        same_registration(s, s.select(name, client_public_key), kept),
{
    assert(s.server_map().contains_key(kept));
    assert(s.server_map()[kept] == s.record(kept));
    let registered = s.register(identity, name, public_key, address, now);
    if !s.is_registered(identity) {
        lemma_register_as_map(s, identity, name, public_key, address, now);
        assert(registered.server_map().contains_key(kept));
        assert(registered.server_map()[kept] == registered.record(kept));
    }
    let adjusted = s.adjust(identity, delta);
    let beaten = s.heartbeat(identity, now);
    if s.is_registered(identity) {
        lemma_adjust_as_map(s, identity, delta);
        assert(adjusted.server_map().contains_key(kept));
        assert(adjusted.server_map()[kept] == adjusted.record(kept));
        lemma_heartbeat_as_map(s, identity, now);
        assert(beaten.server_map().contains_key(kept));
        assert(beaten.server_map()[kept] == beaten.record(kept));
    }
    let selected = s.select(name, client_public_key);
    if s.has_name(name) {
        lemma_select_as_map(s, name, client_public_key);
        assert(selected.server_map().contains_key(kept));
        assert(selected.server_map()[kept] == selected.record(kept));
    }
}

/// Liveness times do not run backwards: as long as the clock that a
/// heartbeat carries is not behind the caller's record, no record's time is
/// earlier after the heartbeat than before it.
pub proof fn lemma_last_active_monotone(
    s: RegistryState,
    identity: Seq<char>,
    other: Seq<char>,
    now: int,
)
    requires
        s.wf(),
        s.is_registered(identity),
        s.is_registered(other),
        s.record(identity).last_active <= now,
    ensures
        s.heartbeat(identity, now).is_registered(other),
        s.heartbeat(identity, now).record(other).last_active >= s.record(other).last_active,
{
    let next = s.heartbeat(identity, now);
    lemma_heartbeat_as_map(s, identity, now);
    assert(s.server_map().contains_key(other));
    assert(s.server_map()[other] == s.record(other));
    assert(next.server_map().contains_key(other));
    assert(next.server_map()[other] == next.record(other));
}

/// The liveness window, boundary included: a record of the registry is
/// listed as active at `now` if and only if its last activity lies at most
/// thirty seconds before `now`.
pub proof fn lemma_liveness_window(s: RegistryState, i: int, now: int)
    requires
        s.wf(),
        0 <= i < s.servers.len(),
    ensures
        s.active(now).contains(s.servers[i]) <==> now - s.servers[i].last_active <= 30,
        is_live(s.servers[i].last_active, s.servers[i].last_active + 30),
        !is_live(s.servers[i].last_active, s.servers[i].last_active + 31),
{
    let live = |r: ServerRecord| is_live(r.last_active, now);
    let r = s.servers[i];
    if live(r) {
        s.servers.lemma_filter_contains(live, i);
    }
    if s.active(now).contains(r) {
        let k = choose|k: int| 0 <= k < s.active(now).len() && s.active(now)[k] == r;
        s.servers.lemma_filter_pred(live, k);
    }
}

/// Nothing is listed as active but a record of the registry.
pub proof fn lemma_active_is_registered(s: RegistryState, r: ServerRecord, now: int)
    requires
        s.active(now).contains(r),
    ensures
        s.servers.contains(r),
        is_live(r.last_active, now),
{
    let live = |r: ServerRecord| is_live(r.last_active, now);
    s.servers.lemma_filter_contains_rev(live, r);
    let k = choose|k: int| 0 <= k < s.active(now).len() && s.active(now)[k] == r;
    s.servers.lemma_filter_pred(live, k);
}

/// Unknown targets fail cleanly: a selection of a name that no server has, a
/// reputation update of an identity without a record and a heartbeat of one
/// leave the registry as it was, and the heartbeat reports that the caller is
/// not known.
pub proof fn lemma_unknown_target_changes_nothing(
    s: RegistryState,
    identity: Seq<char>,
    name: Seq<char>,
    client_public_key: Seq<char>,
    delta: int,
    now: int,
)
    ensures
        !s.has_name(name) ==> s.select(name, client_public_key) == s,
        !s.is_registered(identity) ==> s.adjust(identity, delta) == s,
        !s.is_registered(identity) ==> s.heartbeat(identity, now) == s,
        !s.is_registered(identity) ==> s.heartbeat_result(identity) == HeartbeatResult::NotFound,
{
}

} // verus!
