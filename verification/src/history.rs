//! The registry seen over time: what a lookup finds after any sequence of
//! registrations and withdrawals.

use vstd::prelude::*;
use crate::registry::{found, registered, unregistered, SinkHandle};

verus! {

/// One step in the life of the registry. Callers may be many; each step
/// takes effect at one instant, so what they do together is some sequence
/// of steps.
pub enum RegistryOp {
    Register { identity: Seq<char>, handle: SinkHandle },
    Unregister { identity: Seq<char>, handle: SinkHandle },
    Lookup { identity: Seq<char> },
}

/// The registry after one step.
pub open spec fn step(entries: Map<Seq<char>, SinkHandle>, op: RegistryOp) -> Map<
    Seq<char>,
    SinkHandle,
> {
    match op {
        RegistryOp::Register { identity, handle } => registered(entries, identity, handle),
        RegistryOp::Unregister { identity, handle } => unregistered(entries, identity, handle),
        RegistryOp::Lookup { identity } => entries,
    }
}

/// The registry after a sequence of steps, starting with nobody online.
pub open spec fn replay(ops: Seq<RegistryOp>) -> Map<Seq<char>, SinkHandle>
    decreases ops.len(),
{
    if ops.len() == 0 {
        Map::empty()
    } else {
        step(replay(ops.drop_last()), ops.last())
    }
}

/// The handle that `op` puts online under `identity`, if `op` is a
/// registration under it.
pub open spec fn registration(op: RegistryOp, identity: Seq<char>) -> Option<SinkHandle> {
    match op {
        RegistryOp::Register { identity: id, handle } => if id == identity {
            Some(handle)
        } else {
            None
        },
        _ => None,
    }
}

/// Whether step `at` is the most recent registration under `identity`.
pub open spec fn latest_registration(ops: Seq<RegistryOp>, identity: Seq<char>, at: int) -> bool {
    &&& 0 <= at < ops.len()
    &&& registration(ops[at], identity) is Some
    &&& forall|j: int| at < j < ops.len() ==> registration(#[trigger] ops[j], identity) is None
}

/// Whether a step after `at` withdrew `identity` for the very handle that
/// step `at` registered.
pub open spec fn undone(ops: Seq<RegistryOp>, identity: Seq<char>, at: int) -> bool {
    exists|j: int|
        at < j < ops.len() && #[trigger] ops[j] == (RegistryOp::Unregister {
            identity,
            handle: registration(ops[at], identity).unwrap(),
        })
}

/// The handle of the most recent registration under `identity` that no
/// matching withdrawal has undone since.
pub open spec fn standing(ops: Seq<RegistryOp>, identity: Seq<char>) -> Option<SinkHandle> {
    if exists|at: int| latest_registration(ops, identity, at) {
        let at = choose|at: int| latest_registration(ops, identity, at);
        if undone(ops, identity, at) {
            None
        } else {
            registration(ops[at], identity)
        }
    } else {
        None
    }
}

proof fn lemma_never_registered(ops: Seq<RegistryOp>, identity: Seq<char>)
    requires
        !exists|at: int| latest_registration(ops, identity, at),
    ensures
        !replay(ops).contains_key(identity),
    decreases ops.len(),
{
    if ops.len() > 0 {
        let earlier = ops.drop_last();
        let n = earlier.len() as int;
        if registration(ops.last(), identity) is Some {
            assert(latest_registration(ops, identity, n));
        }
        assert forall|at: int| !latest_registration(earlier, identity, at) by {
            if latest_registration(earlier, identity, at) {
                assert(ops[at] == earlier[at]);
                assert forall|j: int| at < j < ops.len() implies registration(
                    #[trigger] ops[j],
                    identity,
                ) is None by {
                    if j < n {
                        assert(ops[j] == earlier[j]);
                    }
                }
                assert(latest_registration(ops, identity, at));
            }
        }
        lemma_never_registered(earlier, identity);
    }
}

proof fn lemma_latest_registration(ops: Seq<RegistryOp>, identity: Seq<char>, at: int)
    requires
        latest_registration(ops, identity, at),
    ensures
        found(replay(ops), identity) == if undone(ops, identity, at) {
            None
        } else {
            registration(ops[at], identity)
        },
    decreases ops.len(),
{
    let earlier = ops.drop_last();
    let n = earlier.len() as int;
    let op = ops.last();
    let handle = registration(ops[at], identity).unwrap();
    if at == n {
        assert(!undone(ops, identity, at));
    } else {
        assert(ops[at] == earlier[at]);
        assert(registration(ops[n], identity) is None);
        assert forall|j: int| at < j < earlier.len() implies registration(
            #[trigger] earlier[j],
            identity,
        ) is None by {
            assert(ops[j] == earlier[j]);
        }
        assert(latest_registration(earlier, identity, at));
        lemma_latest_registration(earlier, identity, at);
        let withdrawal = RegistryOp::Unregister { identity, handle };
        if op == withdrawal {
            assert(ops[n] == withdrawal);
            assert(undone(ops, identity, at));
        } else {
            if undone(ops, identity, at) {
                let j = choose|j: int| at < j < ops.len() && #[trigger] ops[j] == withdrawal;
                assert(j < n);
                assert(earlier[j] == withdrawal);
                assert(undone(earlier, identity, at));
            }
            if undone(earlier, identity, at) {
                let j = choose|j: int| at < j < earlier.len() && #[trigger] earlier[j] == withdrawal;
                assert(ops[j] == withdrawal);
                assert(undone(ops, identity, at));
            }
        }
    }
}

/// After any sequence of registrations, withdrawals and lookups, a lookup of
/// `identity` finds the handle of the most recent registration under it,
/// unless a matching withdrawal has undone that registration since; then,
/// and when nobody ever registered under it, the lookup finds nothing.
pub proof fn lemma_lookup_finds_standing(ops: Seq<RegistryOp>, identity: Seq<char>)
    ensures
        found(replay(ops), identity) == standing(ops, identity),
{
    if exists|at: int| latest_registration(ops, identity, at) {
        let at = choose|at: int| latest_registration(ops, identity, at);
        lemma_latest_registration(ops, identity, at);
    } else {
        lemma_never_registered(ops, identity);
    }
}

} // verus!
