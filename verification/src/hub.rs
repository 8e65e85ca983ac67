//! The hub: every open session with its delivery queue, the registry that
//! makes sessions addressable, and the router that puts a file on the queue
//! of the client it is meant for.

use std::collections::HashMap;
use vstd::prelude::*;
use vstd::std_specs::hash::*;
use crate::protocol::{
    declared_identity, frames_view, lemma_wire_concat, lemma_wire_push, parse_identity,
    unit_frames, wire_of, DeliveryUnit, Frame, FrameView, UnitView,
};
use crate::registry::{found, registered, unregistered, ClientRegistry, SinkHandle};
use crate::sink::Sink;
use crate::text::texts_view;

verus! {

broadcast use group_hash_axioms;

/// One open session as the hub sees it.
#[verifier::ext_equal]
pub struct SessionView {
    /// The identity that the session declared, once it has declared one.
    pub identity: Option<Seq<char>>,
    /// The units that wait to be written to its connection, oldest first.
    pub queue: Seq<UnitView>,
}

/// The state of the hub.
#[verifier::ext_equal]
pub struct HubView {
    /// Who is online: identity to the handle of its current session.
    pub online: Map<Seq<char>, SinkHandle>,
    /// The open sessions, by handle.
    pub sessions: Map<SinkHandle, SessionView>,
}

/// What the read side of a session is to do after a frame.
#[derive(Debug, Clone, PartialEq, Eq)]
pub enum ReadOutcome {
    /// The frame declared the session's identity; the session is online
    /// under it from now on.
    Registered(String),
    /// The session is registered already; the frame only shows that the
    /// connection is alive.
    Idle,
    /// The session had not declared its identity and the frame is no
    /// declaration: the session is closed.
    Rejected,
    /// No session is open under the handle.
    Gone,
}

/// What a [`ReadOutcome`] holds, as mathematical values.
pub enum ReadOutcomeView {
    Registered(Seq<char>),
    Idle,
    Rejected,
    Gone,
}

impl View for ReadOutcome {
    type V = ReadOutcomeView;

    open spec fn view(&self) -> ReadOutcomeView {
        match self {
            ReadOutcome::Registered(identity) => ReadOutcomeView::Registered(identity@),
            ReadOutcome::Idle => ReadOutcomeView::Idle,
            ReadOutcome::Rejected => ReadOutcomeView::Rejected,
            ReadOutcome::Gone => ReadOutcomeView::Gone,
        }
    }
}

/// Nobody is online under the identity that a delivery named.
#[derive(Debug, Clone, Copy, PartialEq, Eq, Structural)]
pub struct TargetNotFound;

impl HubView {
    /// Every registry entry leads to an open session that declared just
    /// that identity: no entry without a session behind it.
    pub open spec fn consistent(self) -> bool {
        forall|identity: Seq<char>| #[trigger]
            self.online.contains_key(identity) ==> {
                &&& self.sessions.contains_key(self.online[identity])
                &&& self.sessions[self.online[identity]].identity == Some(identity)
            }
    }

    /// The units that wait on the queue behind `handle`.
    pub open spec fn waiting(self, handle: SinkHandle) -> Seq<UnitView> {
        if self.sessions.contains_key(handle) {
            self.sessions[handle].queue
        } else {
            Seq::empty()
        }
    }

    /// The hub after a connection was accepted as session `handle`.
    pub open spec fn opened(self, handle: SinkHandle) -> HubView {
        HubView {
            online: self.online,
            sessions: self.sessions.insert(
                handle,
                SessionView { identity: None, queue: Seq::empty() },
            ),
        }
    }

    /// What the read side of session `handle` is told about `frame`.
    pub open spec fn read_outcome(self, handle: SinkHandle, frame: FrameView) -> ReadOutcomeView {
        if !self.sessions.contains_key(handle) {
            ReadOutcomeView::Gone
        } else if self.sessions[handle].identity is Some {
            ReadOutcomeView::Idle
        } else {
            match declared_identity(frame) {
                Some(identity) => ReadOutcomeView::Registered(identity),
                None => ReadOutcomeView::Rejected,
            }
        }
    }

    /// The hub after session `handle` read `frame`.
    pub open spec fn after_read(self, handle: SinkHandle, frame: FrameView) -> HubView {
        match self.read_outcome(handle, frame) {
            ReadOutcomeView::Registered(identity) => HubView {
                online: registered(self.online, identity, handle),
                sessions: self.sessions.insert(
                    handle,
                    SessionView { identity: Some(identity), queue: self.sessions[handle].queue },
                ),
            },
            ReadOutcomeView::Rejected => HubView {
                online: self.online,
                sessions: self.sessions.remove(handle),
            },
            _ => self,
        }
    }

    /// The hub after `unit` was sent to `target`: the unit stands last on
    /// the queue of the session that is online under `target`.
    pub open spec fn delivered(self, target: Seq<char>, unit: UnitView) -> HubView {
        match found(self.online, target) {
            Some(handle) => if self.sessions.contains_key(handle) {
                HubView {
                    online: self.online,
                    sessions: self.sessions.insert(
                        handle,
                        SessionView {
                            identity: self.sessions[handle].identity,
                            queue: self.sessions[handle].queue.push(unit),
                        },
                    ),
                }
            } else {
                self
            },
            None => self,
        }
    }

    /// The hub after the writer of session `handle` took the next unit.
    pub open spec fn pulled(self, handle: SinkHandle) -> HubView {
        if self.waiting(handle).len() > 0 {
            HubView {
                online: self.online,
                sessions: self.sessions.insert(
                    handle,
                    SessionView {
                        identity: self.sessions[handle].identity,
                        queue: self.sessions[handle].queue.drop_first(),
                    },
                ),
            }
        } else {
            self
        }
    }

    /// The hub after the writer of session `handle` took every unit that
    /// waited.
    pub open spec fn drained(self, handle: SinkHandle) -> HubView {
        if self.sessions.contains_key(handle) {
            HubView {
                online: self.online,
                sessions: self.sessions.insert(
                    handle,
                    SessionView { identity: self.sessions[handle].identity, queue: Seq::empty() },
                ),
            }
        } else {
            self
        }
    }

    /// The identity that goes offline when session `handle` closes: its
    /// own, if the registry entry under it is still its own.
    pub open spec fn leaving(self, handle: SinkHandle) -> Option<Seq<char>> {
        if self.sessions.contains_key(handle) {
            match self.sessions[handle].identity {
                Some(identity) => if found(self.online, identity) == Some(handle) {
                    Some(identity)
                } else {
                    None
                },
                None => None,
            }
        } else {
            None
        }
    }

    /// The hub after session `handle` closed: the session and its queue are
    /// gone, and so is its own registry entry.
    pub open spec fn closed(self, handle: SinkHandle) -> HubView {
        if self.sessions.contains_key(handle) {
            HubView {
                online: match self.sessions[handle].identity {
                    Some(identity) => unregistered(self.online, identity, handle),
                    None => self.online,
                },
                sessions: self.sessions.remove(handle),
            }
        } else {
            self
        }
    }
}

struct Session {
    identity: Option<String>,
    sink: Sink,
}

impl View for Session {
    type V = SessionView;

    closed spec fn view(&self) -> SessionView {
        SessionView {
            identity: match self.identity {
                Some(identity) => Some(identity@),
                None => None,
            },
            queue: self.sink@,
        }
    }
}

spec fn sessions_view(sessions: Map<u64, Session>) -> Map<SinkHandle, SessionView> {
    Map::new(
        |handle: SinkHandle| sessions.contains_key(handle.id),
        |handle: SinkHandle| sessions[handle.id]@,
    )
}

/// The hub. One value of it is the single place where sessions, queues and
/// the registry live; whoever embeds it performs each operation as one
/// step, under whatever exclusion it uses.
pub struct Hub {
    registry: ClientRegistry,
    sessions: HashMap<u64, Session>,
    issued: u64,
}

impl View for Hub {
    type V = HubView;

    closed spec fn view(&self) -> HubView {
        HubView { online: self.registry@, sessions: sessions_view(self.sessions@) }
    }
}

impl Hub {
    #[verifier::type_invariant]
    spec fn well_formed(&self) -> bool {
        &&& forall|id: u64| #[trigger] self.sessions@.contains_key(id) ==> id < self.issued
        &&& forall|identity: Seq<char>| #[trigger]
            self.registry@.contains_key(identity) ==> {
                &&& self.sessions@.contains_key(self.registry@[identity].id)
                &&& self.sessions@[self.registry@[identity].id]@.identity == Some(identity)
            }
    }

    /// The number of sessions that were ever opened. Handles are issued in
    /// this order and never twice.
    pub closed spec fn issued(&self) -> nat {
        self.issued as nat
    }

    /// A hub with no session and nobody online.
    pub fn new() -> (hub: Hub)
        ensures
            hub@.online == Map::<Seq<char>, SinkHandle>::empty(),
            hub@.sessions == Map::<SinkHandle, SessionView>::empty(),
            hub.issued() == 0,
    {
        let hub = Hub { registry: ClientRegistry::new(), sessions: HashMap::new(), issued: 0 };
        proof {
            assert(hub@.sessions =~= Map::<SinkHandle, SessionView>::empty());
        }
        hub
    }

    /// Accepts a connection: opens a session with an empty queue and no
    /// identity yet, under a handle that no session had before. Returns
    /// `None`, and changes nothing, only when every handle has been issued.
    pub fn open_session(&mut self) -> (handle: Option<SinkHandle>)
        ensures
            match handle {
                Some(opened) => {
                    &&& old(self).issued() < u64::MAX
                    &&& opened.id == old(self).issued()
                    &&& !old(self)@.sessions.contains_key(opened)
                    &&& final(self)@ == old(self)@.opened(opened)
                    &&& final(self).issued() == old(self).issued() + 1
                },
                None => {
                    &&& old(self).issued() == u64::MAX
                    &&& final(self)@ == old(self)@
                    &&& final(self).issued() == old(self).issued()
                },
            },
            final(self)@.consistent(),
    {
        proof {
            use_type_invariant(&*self);
        }
        if self.issued == u64::MAX {
            return None;
        }
        let mut taken = Hub::new();
        core::mem::swap(self, &mut taken);
        let Hub { registry, mut sessions, issued } = taken;
        let handle = SinkHandle { id: issued };
        sessions.insert(handle.id, Session { identity: None, sink: Sink::new() });
        *self = Hub { registry, sessions, issued: issued + 1 };
        proof {
            assert(final(self)@.sessions =~= old(self)@.opened(handle).sessions);
        }
        Some(handle)
    }

    /// The read side of session `handle` took `frame` off its connection.
    ///
    /// The first frame of a session must declare its identity; the session
    /// then goes online under it, in place of whoever held that identity.
    /// Anything else before the declaration is a protocol error and closes
    /// the session. Once registered, a session's frames change nothing.
    pub fn receive(&mut self, handle: SinkHandle, frame: Frame) -> (outcome: ReadOutcome)
        ensures
            outcome@ == old(self)@.read_outcome(handle, frame@),
            final(self)@ == old(self)@.after_read(handle, frame@),
            final(self).issued() == old(self).issued(),
            final(self)@.consistent(),
    {
        proof {
            use_type_invariant(&*self);
        }
        let registered_already = match self.sessions.get(&handle.id) {
            None => {
                return ReadOutcome::Gone;
            },
            Some(session) => session.identity.is_some(),
        };
        if registered_already {
            return ReadOutcome::Idle;
        }
        let declared = parse_identity(&frame);
        let mut taken = Hub::new();
        core::mem::swap(self, &mut taken);
        let Hub { mut registry, mut sessions, issued } = taken;
        let ghost before = sessions@;
        let removed = sessions.remove(&handle.id);
        let outcome = match (declared, removed) {
            (Some(identity), Some(session)) => {
                registry.register(identity.clone(), handle);
                sessions.insert(
                    handle.id,
                    Session { identity: Some(identity.clone()), sink: session.sink },
                );
                ReadOutcome::Registered(identity)
            },
            _ => ReadOutcome::Rejected,
        };
        *self = Hub { registry, sessions, issued };
        proof {
            assert(final(self)@.sessions =~= old(self)@.after_read(handle, frame@).sessions);
        }
        outcome
    }

    /// Routes a file to the client that is online under `target`: the file
    /// becomes one unit, last on that client's queue. Never waits. With
    /// nobody online under `target` the file is refused and nothing changes.
    pub fn deliver(&mut self, target: &str, filename: String, payload: Vec<u8>) -> (result: Result<
        (),
        TargetNotFound,
    >)
        ensures
            result is Ok <==> old(self)@.online.contains_key(target@),
            result is Err ==> final(self)@ == old(self)@,
            final(self)@ == old(self)@.delivered(
                target@,
                (UnitView { filename: filename@, payload: payload@ }),
            ),
            final(self).issued() == old(self).issued(),
            final(self)@.consistent(),
    {
        proof {
            use_type_invariant(&*self);
        }
        let handle = match self.registry.lookup(target) {
            None => {
                return Err(TargetNotFound);
            },
            Some(handle) => handle,
        };
        let unit = DeliveryUnit::new(filename, payload);
        let mut taken = Hub::new();
        core::mem::swap(self, &mut taken);
        let Hub { registry, mut sessions, issued } = taken;
        match sessions.remove(&handle.id) {
            Some(session) => {
                let Session { identity, mut sink } = session;
                sink.enqueue(unit);
                sessions.insert(handle.id, Session { identity, sink });
            },
            None => {},
        }
        *self = Hub { registry, sessions, issued };
        proof {
            assert(final(self)@.sessions =~= old(self)@.delivered(target@, unit@).sessions);
        }
        Ok(())
    }

    /// The write side of session `handle` asks for its next file: the unit
    /// that has waited longest leaves the queue. `None` when nothing waits
    /// or the session is closed.
    pub fn next_unit(&mut self, handle: SinkHandle) -> (unit: Option<DeliveryUnit>)
        ensures
            match unit {
                Some(first) => old(self)@.waiting(handle).len() > 0 && first@ == old(
                    self,
                )@.waiting(handle)[0],
                None => old(self)@.waiting(handle).len() == 0,
            },
            final(self)@ == old(self)@.pulled(handle),
            final(self).issued() == old(self).issued(),
            final(self)@.consistent(),
    {
        proof {
            use_type_invariant(&*self);
        }
        let mut taken = Hub::new();
        core::mem::swap(self, &mut taken);
        let Hub { registry, mut sessions, issued } = taken;
        let unit = match sessions.remove(&handle.id) {
            Some(session) => {
                let Session { identity, mut sink } = session;
                let unit = sink.dequeue();
                sessions.insert(handle.id, Session { identity, sink });
                unit
            },
            None => None,
        };
        *self = Hub { registry, sessions, issued };
        proof {
            assert(final(self)@.sessions =~= old(self)@.pulled(handle).sessions);
        }
        unit
    }

    /// The write side of session `handle` takes all that waits and puts it
    /// on the wire: for each unit, longest waiting first, its name frame
    /// directly followed by its content frame. Nothing for a closed session.
    pub fn drain(&mut self, handle: SinkHandle) -> (frames: Vec<Frame>)
        ensures
            frames_view(frames@) == wire_of(old(self)@.waiting(handle)),
            final(self)@ == old(self)@.drained(handle),
            final(self).issued() == old(self).issued(),
            final(self)@.consistent(),
    {
        proof {
            use_type_invariant(&*self);
        }
        let mut taken = Hub::new();
        core::mem::swap(self, &mut taken);
        let Hub { registry, mut sessions, issued } = taken;
        let frames = match sessions.remove(&handle.id) {
            Some(session) => {
                let Session { identity, mut sink } = session;
                let frames = sink.drain();
                proof {
                    assert(sink@ =~= Seq::<UnitView>::empty());
                }
                sessions.insert(handle.id, Session { identity, sink });
                frames
            },
            None => {
                let frames: Vec<Frame> = Vec::new();
                proof {
                    assert(frames_view(frames@) =~= wire_of(Seq::<UnitView>::empty()));
                }
                frames
            },
        };
        *self = Hub { registry, sessions, issued };
        proof {
            assert(final(self)@.sessions =~= old(self)@.drained(handle).sessions);
        }
        frames
    }

    /// Session `handle` ended, for whatever reason and on whichever side:
    /// the session and what still waited on its queue are dropped, and its
    /// identity goes offline unless a newer session holds it by now.
    /// Returns the identity that went offline. Closing a session that is
    /// closed changes nothing.
    pub fn close_session(&mut self, handle: SinkHandle) -> (offline: Option<String>)
        ensures
            match offline {
                Some(identity) => old(self)@.leaving(handle) == Some(identity@),
                None => old(self)@.leaving(handle) is None,
            },
            final(self)@ == old(self)@.closed(handle),
            final(self).issued() == old(self).issued(),
            final(self)@.consistent(),
    {
        proof {
            use_type_invariant(&*self);
        }
        let mut taken = Hub::new();
        core::mem::swap(self, &mut taken);
        let Hub { mut registry, mut sessions, issued } = taken;
        let offline = match sessions.remove(&handle.id) {
            Some(session) => match session.identity {
                Some(identity) => {
                    if registry.unregister(identity.as_str(), handle) {
                        Some(identity)
                    } else {
                        None
                    }
                },
                None => None,
            },
            None => None,
        };
        *self = Hub { registry, sessions, issued };
        proof {
            assert(final(self)@.sessions =~= old(self)@.closed(handle).sessions);
        }
        offline
    }

    /// The session that is online under `identity`.
    pub fn lookup(&self, identity: &str) -> (handle: Option<SinkHandle>)
        ensures
            handle == found(self@.online, identity@),
            self@.consistent(),
    {
        proof {
            use_type_invariant(self);
        }
        self.registry.lookup(identity)
    }

    /// The identities that are online, each once.
    pub fn list_online(&self) -> (names: Vec<String>)
        ensures
            texts_view(names@).no_duplicates(),
            texts_view(names@).to_set() == self@.online.dom(),
    {
        self.registry.list_online()
    }

    /// The clients that are online, each once, for display.
    pub fn online_clients(&self) -> (clients: Vec<ClientInfo>)
        ensures
            client_ids(clients@).no_duplicates(),
            client_ids(clients@).to_set() == self@.online.dom(),
            forall|i: int| 0 <= i < clients@.len() ==> (#[trigger] clients@[i]).status@ == "Online"@,
    {
        let names = self.registry.list_online();
        let ghost listed = texts_view(names@);
        let mut clients: Vec<ClientInfo> = Vec::new();
        for name in it: names
            invariant
                listed == texts_view(it.seq()),
                client_ids(clients@) == listed.take(it.index() as int),
                forall|i: int|
                    0 <= i < clients@.len() ==> (#[trigger] clients@[i]).status@ == "Online"@,
        {
            let ghost before = client_ids(clients@);
            let ghost k = it.index() as int;
            clients.push(ClientInfo { id: name, status: String::from_str("Online") });
            proof {
                assert(listed[k] == name@);
                assert(client_ids(clients@) =~= before.push(name@));
                assert(listed.take(k + 1) =~= listed.take(k).push(name@));
            }
        }
        proof {
            assert(listed.take(listed.len() as int) =~= listed);
        }
        clients
    }
}

/// One line of the list of clients.
#[derive(Debug, Clone, PartialEq, Eq)]
pub struct ClientInfo {
    /// The identity under which the client is online.
    pub id: String,
    /// Always `Online`: the list holds nobody else.
    pub status: String,
}

/// The identities in a list of clients, in order.
pub open spec fn client_ids(clients: Seq<ClientInfo>) -> Seq<Seq<char>> {
    clients.map_values(|client: ClientInfo| client.id@)
}

impl HubView {
    /// The hub after a run of units was sent to `target`, one after the
    /// other.
    pub open spec fn delivered_all(self, target: Seq<char>, units: Seq<UnitView>) -> HubView
        decreases units.len(),
    {
        if units.len() == 0 {
            self
        } else {
            self.delivered_all(target, units.drop_last()).delivered(target, units.last())
        }
    }
}

/// Units sent to one client, in whatever number, stand on its queue in the
/// order in which they were sent, behind what waited before and with
/// nothing in between; on the wire that is the frame pair of each unit in
/// turn. The registry and every other session stay as they were.
pub proof fn lemma_deliveries_keep_order(hub: HubView, target: Seq<char>, units: Seq<UnitView>)
    requires
        hub.consistent(),
        hub.online.contains_key(target),
    ensures
        hub.delivered_all(target, units).consistent(),
        hub.delivered_all(target, units).online == hub.online,
        hub.delivered_all(target, units).waiting(hub.online[target]) == hub.waiting(
            hub.online[target],
        ) + units,
        wire_of(hub.delivered_all(target, units).waiting(hub.online[target])) == wire_of(
            hub.waiting(hub.online[target]),
        ) + wire_of(units),
        hub.delivered_all(target, units).sessions == hub.sessions.insert(
            hub.online[target],
            (SessionView {
                identity: Some(target),
                queue: hub.waiting(hub.online[target]) + units,
            }),
        ),
    decreases units.len(),
{
    let handle = hub.online[target];
    let after = hub.delivered_all(target, units);
    let waiting = hub.waiting(handle);
    if units.len() == 0 {
        assert(waiting + units =~= waiting);
    } else {
        let earlier = hub.delivered_all(target, units.drop_last());
        lemma_deliveries_keep_order(hub, target, units.drop_last());
        assert(earlier.online.contains_key(target));
        assert((waiting + units.drop_last()).push(units.last()) =~= waiting + units);
    }
    assert(after.sessions =~= hub.sessions.insert(
        handle,
        SessionView { identity: Some(target), queue: waiting + units },
    ));
    lemma_wire_concat(waiting, units);
}

/// Two units sent to the same client at the same moment reach its queue in
/// one order or the other. Either way each unit's two frames stand side by
/// side on the wire: a name is never followed by the other unit's content.
pub proof fn lemma_racing_deliveries(hub: HubView, target: Seq<char>, a: UnitView, b: UnitView)
    requires
        hub.consistent(),
        hub.online.contains_key(target),
    ensures
        wire_of(hub.delivered(target, a).delivered(target, b).waiting(hub.online[target]))
            == wire_of(hub.waiting(hub.online[target])) + unit_frames(a) + unit_frames(b),
        wire_of(hub.delivered(target, b).delivered(target, a).waiting(hub.online[target]))
            == wire_of(hub.waiting(hub.online[target])) + unit_frames(b) + unit_frames(a),
{
    let handle = hub.online[target];
    let waiting = hub.waiting(handle);
    lemma_wire_push(waiting, a);
    lemma_wire_push(waiting.push(a), b);
    lemma_wire_push(waiting, b);
    lemma_wire_push(waiting.push(b), a);
}

/// Closing a session twice leaves the hub as closing it once does.
pub proof fn lemma_close_idempotent(hub: HubView, handle: SinkHandle)
    ensures
        hub.closed(handle).closed(handle) == hub.closed(handle),
{
}

/// The end of one session takes nothing from another: every other session
/// stays open with its queue, and whoever is online through another
/// session stays online through it.
pub proof fn lemma_close_spares_others(hub: HubView, handle: SinkHandle, other: SinkHandle)
    requires
        other != handle,
    ensures
        hub.closed(handle).sessions.contains_key(other) == hub.sessions.contains_key(other),
        hub.closed(handle).waiting(other) == hub.waiting(other),
        forall|identity: Seq<char>|
            found(hub.online, identity) == Some(other) ==> #[trigger] found(
                hub.closed(handle).online,
                identity,
            ) == Some(other),
{
}

/// A frame that closes a session for breaking the protocol changes nothing
/// for anybody else: the registry stays as it was and so does every other
/// session.
pub proof fn lemma_rejection_spares_others(
    hub: HubView,
    handle: SinkHandle,
    frame: FrameView,
    other: SinkHandle,
)
    requires
        hub.read_outcome(handle, frame) == ReadOutcomeView::Rejected,
        other != handle,
    ensures
        hub.after_read(handle, frame).online == hub.online,
        hub.after_read(handle, frame).sessions.contains_key(other) == hub.sessions.contains_key(
            other,
        ),
        hub.after_read(handle, frame).waiting(other) == hub.waiting(other),
{
}

} // verus!
