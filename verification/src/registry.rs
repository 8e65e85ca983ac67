//! Who is online: the mapping from a client's identity to the delivery
//! queue of its current session.

use vstd::prelude::*;
use crate::text::texts_view;

verus! {

/// Names one session's delivery queue. The registry stores handles, never
/// queues: a handle stays valid as a value after its session is gone.
#[derive(Debug, Clone, Copy, PartialEq, Eq, Hash, Structural)]
pub struct SinkHandle {
    pub id: u64,
}

/// The registry after `handle` registered under `identity`: the entry is
/// inserted, or replaces the one that was there.
pub open spec fn registered(
    entries: Map<Seq<char>, SinkHandle>,
    identity: Seq<char>,
    handle: SinkHandle,
) -> Map<Seq<char>, SinkHandle> {
    entries.insert(identity, handle)
}

/// The registry after the session behind `handle` withdrew `identity`: the
/// entry leaves only if it still belongs to that session.
pub open spec fn unregistered(
    entries: Map<Seq<char>, SinkHandle>,
    identity: Seq<char>,
    handle: SinkHandle,
) -> Map<Seq<char>, SinkHandle> {
    if entries.contains_key(identity) && entries[identity] == handle {
        entries.remove(identity)
    } else {
        entries
    }
}

/// What a lookup of `identity` finds.
pub open spec fn found(entries: Map<Seq<char>, SinkHandle>, identity: Seq<char>) -> Option<
    SinkHandle,
> {
    if entries.contains_key(identity) {
        Some(entries[identity])
    } else {
        None
    }
}

struct Entry {
    identity: String,
    handle: SinkHandle,
}

spec fn distinct_identities(entries: Seq<Entry>) -> bool {
    forall|i: int, j: int|
        0 <= i < j < entries.len() ==> (#[trigger] entries[i]).identity@ != (
        #[trigger] entries[j]).identity@
}

spec fn holds(entries: Seq<Entry>, identity: Seq<char>) -> bool {
    exists|i: int| 0 <= i < entries.len() && (#[trigger] entries[i]).identity@ == identity
}

spec fn index_of(entries: Seq<Entry>, identity: Seq<char>) -> int {
    choose|i: int| 0 <= i < entries.len() && (#[trigger] entries[i]).identity@ == identity
}

spec fn entries_map(entries: Seq<Entry>) -> Map<Seq<char>, SinkHandle> {
    Map::new(
        |identity: Seq<char>| holds(entries, identity),
        |identity: Seq<char>| entries[index_of(entries, identity)].handle,
    )
}

proof fn lemma_entry_at(entries: Seq<Entry>, i: int)
    requires
        distinct_identities(entries),
        0 <= i < entries.len(),
    ensures
        entries_map(entries).contains_key(entries[i].identity@),
        entries_map(entries)[entries[i].identity@] == entries[i].handle,
{
    let identity = entries[i].identity@;
    assert(holds(entries, identity));
    let j = index_of(entries, identity);
    assert(entries[j].identity@ == identity);
    if j < i {
        assert(entries[j].identity@ != entries[i].identity@);
    } else if i < j {
        assert(entries[i].identity@ != entries[j].identity@);
    }
}

/// The mapping from identity to delivery queue. At most one entry per
/// identity at any instant.
pub struct ClientRegistry {
    entries: Vec<Entry>,
}

impl View for ClientRegistry {
    type V = Map<Seq<char>, SinkHandle>;

    closed spec fn view(&self) -> Map<Seq<char>, SinkHandle> {
        entries_map(self.entries@)
    }
}

impl ClientRegistry {
    #[verifier::type_invariant]
    spec fn well_formed(&self) -> bool {
        distinct_identities(self.entries@)
    }

    /// A registry with nobody online.
    pub fn new() -> (registry: ClientRegistry)
        ensures
            registry@ == Map::<Seq<char>, SinkHandle>::empty(),
    {
        let registry = ClientRegistry { entries: Vec::new() };
        proof {
            assert(registry@ =~= Map::<Seq<char>, SinkHandle>::empty());
        }
        registry
    }

    fn position(&self, identity: &String) -> (at: Option<usize>)
        ensures
            match at {
                Some(i) => i < self.entries@.len() && self.entries@[i as int].identity@
                    == identity@,
                None => !holds(self.entries@, identity@),
            },
    {
        let mut i: usize = 0;
        while i < self.entries.len()
            invariant
                i <= self.entries@.len(),
                forall|k: int| 0 <= k < i ==> (#[trigger] self.entries@[k]).identity@ != identity@,
            decreases self.entries@.len() - i,
        {
            if self.entries[i].identity == *identity {
                return Some(i);
            }
            i += 1;
        }
        None
    }

    /// Puts `identity` online with `handle`. An entry that was there under
    /// the same identity is replaced; every other entry stays as it was.
    pub fn register(&mut self, identity: String, handle: SinkHandle)
        ensures
            final(self)@ == registered(old(self)@, identity@, handle),
    {
        proof {
            use_type_invariant(&*self);
        }
        let ghost before = self.entries@;
        let ghost key = identity@;
        let at = self.position(&identity);
        let mut entries: Vec<Entry> = Vec::new();
        core::mem::swap(&mut self.entries, &mut entries);
        match at {
            Some(i) => {
                entries.set(i, Entry { identity, handle });
                proof {
                    let after = entries@;
                    assert(distinct_identities(after)) by {
                        assert forall|a: int, b: int| 0 <= a < b < after.len() implies (
                        #[trigger] after[a]).identity@ != (#[trigger] after[b]).identity@ by {
                            assert(after[a].identity@ == before[a].identity@);
                            assert(after[b].identity@ == before[b].identity@);
                        }
                    }
                    assert forall|id: Seq<char>| holds(after, id) == holds(before, id) by {
                        if holds(after, id) {
                            let k = index_of(after, id);
                            assert(before[k].identity@ == id);
                        }
                        if holds(before, id) {
                            let k = index_of(before, id);
                            assert(after[k].identity@ == id);
                        }
                    }
                    assert forall|id: Seq<char>| holds(after, id) implies entries_map(after)[id]
                        == registered(entries_map(before), key, handle)[id] by {
                        let k = index_of(after, id);
                        lemma_entry_at(after, k);
                        lemma_entry_at(before, k);
                    }
                    lemma_entry_at(before, i as int);
                    assert(entries_map(after) =~= registered(entries_map(before), key, handle));
                }
            },
            None => {
                entries.push(Entry { identity, handle });
                proof {
                    let after = entries@;
                    let last = before.len() as int;
                    assert(distinct_identities(after)) by {
                        assert forall|a: int, b: int| 0 <= a < b < after.len() implies (
                        #[trigger] after[a]).identity@ != (#[trigger] after[b]).identity@ by {
                            assert(after[a] == before[a]);
                            if b < last {
                                assert(after[b] == before[b]);
                            }
                        }
                    }
                    assert forall|id: Seq<char>| holds(after, id) == (holds(before, id) || id
                        == key) by {
                        if holds(after, id) {
                            let k = index_of(after, id);
                            if k < last {
                                assert(before[k].identity@ == id);
                            }
                        }
                        if holds(before, id) {
                            let k = index_of(before, id);
                            assert(after[k].identity@ == id);
                        }
                        if id == key {
                            assert(after[last].identity@ == id);
                        }
                    }
                    assert forall|id: Seq<char>| holds(after, id) implies entries_map(after)[id]
                        == registered(entries_map(before), key, handle)[id] by {
                        let k = index_of(after, id);
                        lemma_entry_at(after, k);
                        if k < last {
                            assert(after[k] == before[k]);
                            lemma_entry_at(before, k);
                        }
                    }
                    assert(entries_map(after) =~= registered(entries_map(before), key, handle));
                }
            },
        }
        self.entries = entries;
    }

    /// Takes `identity` offline on behalf of the session behind `handle`.
    /// The entry leaves only if it is that session's own; an entry that a
    /// newer session has put under the same identity stays. Returns whether
    /// an entry left.
    pub fn unregister(&mut self, identity: &str, handle: SinkHandle) -> (removed: bool)
        ensures
            final(self)@ == unregistered(old(self)@, identity@, handle),
            removed == (found(old(self)@, identity@) == Some(handle)),
    {
        proof {
            use_type_invariant(&*self);
        }
        let ghost before = self.entries@;
        let ghost key = identity@;
        let owned = String::from_str(identity);
        match self.position(&owned) {
            Some(i) => {
                proof {
                    lemma_entry_at(before, i as int);
                }
                if self.entries[i].handle.id == handle.id {
                    let mut entries: Vec<Entry> = Vec::new();
                    core::mem::swap(&mut self.entries, &mut entries);
                    entries.remove(i);
                    proof {
                        let after = entries@;
                        assert(distinct_identities(after)) by {
                            assert forall|a: int, b: int| 0 <= a < b < after.len() implies (
                            #[trigger] after[a]).identity@ != (#[trigger] after[b]).identity@ by {
                                let a0 = if a < i { a } else { a + 1 };
                                let b0 = if b < i { b } else { b + 1 };
                                assert(after[a] == before[a0]);
                                assert(after[b] == before[b0]);
                            }
                        }
                        assert forall|id: Seq<char>| holds(after, id) == (holds(before, id) && id
                            != key) by {
                            if holds(after, id) {
                                let k = index_of(after, id);
                                let k0 = if k < i { k } else { k + 1 };
                                assert(after[k] == before[k0]);
                                assert(before[k0].identity@ == id);
                                if k0 < i {
                                    assert(before[k0].identity@ != before[i as int].identity@);
                                } else {
                                    assert(before[i as int].identity@ != before[k0].identity@);
                                }
                            }
                            if holds(before, id) && id != key {
                                let k0 = index_of(before, id);
                                let k = if k0 < i { k0 } else { k0 - 1 };
                                assert(after[k] == before[k0]);
                            }
                        }
                        assert forall|id: Seq<char>| holds(after, id) implies entries_map(
                            after,
                        )[id] == entries_map(before)[id] by {
                            let k = index_of(after, id);
                            let k0 = if k < i { k } else { k + 1 };
                            assert(after[k] == before[k0]);
                            lemma_entry_at(after, k);
                            lemma_entry_at(before, k0);
                        }
                        assert(entries_map(after) =~= unregistered(
                            entries_map(before),
                            key,
                            handle,
                        ));
                    }
                    self.entries = entries;
                    true
                } else {
                    false
                }
            },
            None => false,
        }
    }

    /// The delivery queue of the session that is online under `identity`.
    pub fn lookup(&self, identity: &str) -> (handle: Option<SinkHandle>)
        ensures
            handle == found(self@, identity@),
    {
        proof {
            use_type_invariant(self);
        }
        let owned = String::from_str(identity);
        match self.position(&owned) {
            Some(i) => {
                proof {
                    lemma_entry_at(self.entries@, i as int);
                }
                Some(self.entries[i].handle)
            },
            None => None,
        }
    }

    /// The identities that are online, each once.
    pub fn list_online(&self) -> (names: Vec<String>)
        ensures
            texts_view(names@).no_duplicates(),
            texts_view(names@).to_set() == self@.dom(),
    {
        proof {
            use_type_invariant(self);
        }
        let mut names: Vec<String> = Vec::new();
        let mut i: usize = 0;
        while i < self.entries.len()
            invariant
                i <= self.entries@.len(),
                names@.len() == i,
                forall|k: int| 0 <= k < i ==> (#[trigger] names@[k])@ == self.entries@[k].identity@,
            decreases self.entries@.len() - i,
        {
            names.push(self.entries[i].identity.clone());
            i += 1;
        }
        proof {
            let listed = texts_view(names@);
            let entries = self.entries@;
            assert forall|a: int, b: int| 0 <= a < listed.len() && 0 <= b < listed.len() && a
                != b implies listed[a] != listed[b] by {
                assert(listed[a] == entries[a].identity@);
                assert(listed[b] == entries[b].identity@);
                if a < b {
                    assert(entries[a].identity@ != entries[b].identity@);
                } else {
                    assert(entries[b].identity@ != entries[a].identity@);
                }
            }
            assert forall|id: Seq<char>| listed.to_set().contains(id) == self@.dom().contains(
                id,
            ) by {
                if listed.to_set().contains(id) {
                    let k = choose|k: int| 0 <= k < listed.len() && listed[k] == id;
                    assert(entries[k].identity@ == id);
                }
                if holds(entries, id) {
                    let k = index_of(entries, id);
                    assert(listed[k] == id);
                }
            }
            assert(listed.to_set() =~= self@.dom());
        }
        names
    }
}

/// Withdrawing an identity twice on behalf of the same session leaves the
/// registry as withdrawing it once does.
pub proof fn lemma_unregister_idempotent(
    entries: Map<Seq<char>, SinkHandle>,
    identity: Seq<char>,
    handle: SinkHandle,
)
    ensures
        unregistered(unregistered(entries, identity, handle), identity, handle) == unregistered(
            entries,
            identity,
            handle,
        ),
{
}

/// A withdrawal by a session that has been replaced under its identity
/// leaves the newer session's entry in place.
pub proof fn lemma_stale_unregister_keeps_newer(
    entries: Map<Seq<char>, SinkHandle>,
    identity: Seq<char>,
    stale: SinkHandle,
    newer: SinkHandle,
)
    requires
        stale != newer,
    ensures
        unregistered(registered(entries, identity, newer), identity, stale) == registered(
            entries,
            identity,
            newer,
        ),
{
}

} // verus!
