//! In-flight request bookkeeping.
//!
//! The registry remembers which `(component, command)` pairs have a handler
//! and which requests this worker sent are still waiting for an answer.  The
//! user callbacks themselves are closures and live with the driver; dispatch
//! tells the driver which callback to fire, and fires each at most once —
//! duplicate deliveries from the fabric are ignored.

use crate::ComponentId;
use crate::RequestId;
use vstd::prelude::*;

verus! {

/// Handler and in-flight request bookkeeping.
pub struct Commands {
    entity_command_handlers: Vec<(ComponentId, u32)>,
    entity_command_callbacks: Vec<RequestId>,
    create_entity_callbacks: Vec<RequestId>,
    delete_entity_callbacks: Vec<RequestId>,
}

/// Whether a request id is parked in a pending list.
pub open spec fn pending_contains(pending: Seq<RequestId>, request_id: RequestId) -> bool {
    exists|i: int| 0 <= i < pending.len() && pending[i] == request_id
}

impl Commands {
    /// The registered `(component, command)` handler keys.
    pub closed spec fn handlers(self) -> Seq<(ComponentId, u32)> {
        self.entity_command_handlers@
    }

    /// The request ids of commands awaiting a response.
    pub closed spec fn command_pending(self) -> Seq<RequestId> {
        self.entity_command_callbacks@
    }

    /// The request ids of entity creations awaiting a response.
    pub closed spec fn create_pending(self) -> Seq<RequestId> {
        self.create_entity_callbacks@
    }

    /// The request ids of entity deletions awaiting a response.
    pub closed spec fn delete_pending(self) -> Seq<RequestId> {
        self.delete_entity_callbacks@
    }

    /// Whether a handler is registered for the pair.
    pub open spec fn has_handler(self, component_id: ComponentId, command_index: u32) -> bool {
        exists|i: int|
            0 <= i < self.handlers().len() && self.handlers()[i] == (component_id, command_index)
    }

    /// Keys and parked ids repeat nowhere.
    pub open spec fn wf(self) -> bool {
        &&& forall|i: int, j: int|
            0 <= i < j < self.handlers().len() ==> (#[trigger] self.handlers()[i]) != (
            #[trigger] self.handlers()[j])
        &&& forall|i: int, j: int|
            0 <= i < j < self.command_pending().len() ==> (#[trigger] self.command_pending()[i])
                != (#[trigger] self.command_pending()[j])
        &&& forall|i: int, j: int|
            0 <= i < j < self.create_pending().len() ==> (#[trigger] self.create_pending()[i]) != (
            #[trigger] self.create_pending()[j])
        &&& forall|i: int, j: int|
            0 <= i < j < self.delete_pending().len() ==> (#[trigger] self.delete_pending()[i]) != (
            #[trigger] self.delete_pending()[j])
    }

    /// An empty registry.
    pub fn new() -> (r: Commands)
        ensures
            r.wf(),
            r.handlers().len() == 0,
            r.command_pending().len() == 0,
            r.create_pending().len() == 0,
            r.delete_pending().len() == 0,
    {
        Commands {
            entity_command_handlers: Vec::new(),
            entity_command_callbacks: Vec::new(),
            create_entity_callbacks: Vec::new(),
            delete_entity_callbacks: Vec::new(),
        }
    }

    /// Whether a handler is registered for the pair.
    pub fn handler_registered(&self, component_id: ComponentId, command_index: u32) -> (r: bool)
        ensures
            r == self.has_handler(component_id, command_index),
    {
        let n = self.entity_command_handlers.len();
        let mut i: usize = 0;
        while i < n
            invariant
                i <= n,
                n == self.handlers().len(),
                forall|j: int|
                    0 <= j < i ==> (#[trigger] self.handlers()[j]) != (
                        component_id,
                        command_index,
                    ),
            decreases n - i,
        {
            let (cid, idx) = self.entity_command_handlers[i];
            if cid == component_id && idx == command_index {
                return true;
            }
            i = i + 1;
        }
        false
    }

    /// Registers a handler for a `(component, command)` pair.  Registering
    /// the same pair twice is a fatal wiring bug, so a verified caller must
    /// show the pair is fresh; the body still refuses a duplicate, so an
    /// unverified caller that breaks the precondition is answered `false`
    /// and must abort.
    pub fn register_handler(&mut self, component_id: ComponentId, command_index: u32) -> (r: bool)
        requires
            old(self).wf(),
            !old(self).has_handler(component_id, command_index),
        ensures
            final(self).wf(),
            r == !old(self).has_handler(component_id, command_index),
            final(self).command_pending() == old(self).command_pending(),
            final(self).create_pending() == old(self).create_pending(),
            final(self).delete_pending() == old(self).delete_pending(),
            r ==> final(self).handlers() == old(self).handlers().push(
                (component_id, command_index),
            ),
            !r ==> final(self).handlers() == old(self).handlers(),
            final(self).has_handler(component_id, command_index),
            forall|c: ComponentId, x: u32|
                !(c == component_id && x == command_index) ==> final(self).has_handler(c, x) == old(
                    self,
                ).has_handler(c, x),
    {
        let ghost pre = *self;
        if self.handler_registered(component_id, command_index) {
            return false;
        }
        self.entity_command_handlers.push((component_id, command_index));
        proof {
            let n = self.handlers().len() as int;
            assert(self.handlers()[n - 1] == (component_id, command_index));
            assert(self.has_handler(component_id, command_index));
            assert forall|i: int, j: int| 0 <= i < j < n implies (#[trigger] self.handlers()[i])
                != (#[trigger] self.handlers()[j]) by {
                if j == n - 1 {
                    assert(!pre.has_handler(component_id, command_index));
                    assert(pre.handlers()[i] != (component_id, command_index));
                } else {
                    assert(self.handlers()[i] == pre.handlers()[i]);
                    assert(self.handlers()[j] == pre.handlers()[j]);
                }
            }
            assert(self.command_pending() == old(self).command_pending());
            assert(self.create_pending() == old(self).create_pending());
            assert(self.delete_pending() == old(self).delete_pending());
            assert(old(self).wf());
            assert forall|c: ComponentId, x: u32|
                !(c == component_id && x == command_index) implies self.has_handler(c, x)
                == pre.has_handler(c, x) by {
                if self.has_handler(c, x) {
                    let i = choose|i: int|
                        0 <= i < self.handlers().len() && self.handlers()[i] == (c, x);
                    assert(i < n - 1);
                    assert(pre.handlers()[i] == (c, x));
                }
                if pre.has_handler(c, x) {
                    let i = choose|i: int|
                        0 <= i < pre.handlers().len() && pre.handlers()[i] == (c, x);
                    assert(self.handlers()[i] == (c, x));
                }
            }
        }
        true
    }

    /// Parks the callbacks of a command this worker sent.
    pub fn park_command(&mut self, request_id: RequestId)
        requires
            old(self).wf(),
            !pending_contains(old(self).command_pending(), request_id),
        ensures
            final(self).wf(),
            final(self).handlers() == old(self).handlers(),
            final(self).command_pending() == old(self).command_pending().push(request_id),
            final(self).create_pending() == old(self).create_pending(),
            final(self).delete_pending() == old(self).delete_pending(),
    {
        self.entity_command_callbacks.push(request_id);
        proof {
            let n = self.command_pending().len() as int;
            assert forall|i: int, j: int| 0 <= i < j < n implies (
            #[trigger] self.command_pending()[i]) != (#[trigger] self.command_pending()[j]) by {
                if j == n - 1 {
                    assert(!pending_contains(old(self).command_pending(), request_id));
                    assert(old(self).command_pending()[i] != request_id);
                } else {
                    assert(self.command_pending()[i] == old(self).command_pending()[i]);
                    assert(self.command_pending()[j] == old(self).command_pending()[j]);
                }
            }
            assert(self.handlers() == old(self).handlers());
            assert(self.create_pending() == old(self).create_pending());
            assert(self.delete_pending() == old(self).delete_pending());
            assert(old(self).wf());
        }
    }

    /// Parks the callbacks of an entity creation this worker requested.
    pub fn park_create(&mut self, request_id: RequestId)
        requires
            old(self).wf(),
            !pending_contains(old(self).create_pending(), request_id),
        ensures
            final(self).wf(),
            final(self).handlers() == old(self).handlers(),
            final(self).command_pending() == old(self).command_pending(),
            final(self).create_pending() == old(self).create_pending().push(request_id),
            final(self).delete_pending() == old(self).delete_pending(),
    {
        self.create_entity_callbacks.push(request_id);
        proof {
            let n = self.create_pending().len() as int;
            assert forall|i: int, j: int| 0 <= i < j < n implies (
            #[trigger] self.create_pending()[i]) != (#[trigger] self.create_pending()[j]) by {
                if j == n - 1 {
                    assert(!pending_contains(old(self).create_pending(), request_id));
                    assert(old(self).create_pending()[i] != request_id);
                } else {
                    assert(self.create_pending()[i] == old(self).create_pending()[i]);
                    assert(self.create_pending()[j] == old(self).create_pending()[j]);
                }
            }
            assert(self.handlers() == old(self).handlers());
            assert(self.command_pending() == old(self).command_pending());
            assert(self.delete_pending() == old(self).delete_pending());
            assert(old(self).wf());
        }
    }

    /// Parks the callbacks of an entity deletion this worker requested.
    pub fn park_delete(&mut self, request_id: RequestId)
        requires
            old(self).wf(),
            !pending_contains(old(self).delete_pending(), request_id),
        ensures
            final(self).wf(),
            final(self).handlers() == old(self).handlers(),
            final(self).command_pending() == old(self).command_pending(),
            final(self).create_pending() == old(self).create_pending(),
            final(self).delete_pending() == old(self).delete_pending().push(request_id),
    {
        self.delete_entity_callbacks.push(request_id);
        proof {
            let n = self.delete_pending().len() as int;
            assert forall|i: int, j: int| 0 <= i < j < n implies (
            #[trigger] self.delete_pending()[i]) != (#[trigger] self.delete_pending()[j]) by {
                if j == n - 1 {
                    assert(!pending_contains(old(self).delete_pending(), request_id));
                    assert(old(self).delete_pending()[i] != request_id);
                } else {
                    assert(self.delete_pending()[i] == old(self).delete_pending()[i]);
                    assert(self.delete_pending()[j] == old(self).delete_pending()[j]);
                }
            }
            assert(self.handlers() == old(self).handlers());
            assert(self.command_pending() == old(self).command_pending());
            assert(self.create_pending() == old(self).create_pending());
            assert(old(self).wf());
        }
    }

    /// Takes a parked command request id: true exactly when the id was
    /// parked, in which case it is no longer parked afterwards, so a second
    /// delivery for the same id fires nothing.
    pub fn take_command(&mut self, request_id: RequestId) -> (r: bool)
        requires
            old(self).wf(),
        ensures
            final(self).wf(),
            r == pending_contains(old(self).command_pending(), request_id),
            final(self).handlers() == old(self).handlers(),
            final(self).create_pending() == old(self).create_pending(),
            final(self).delete_pending() == old(self).delete_pending(),
            !pending_contains(final(self).command_pending(), request_id),
            forall|q: RequestId|
                q != request_id ==> pending_contains(final(self).command_pending(), q)
                    == pending_contains(old(self).command_pending(), q),
    {
        proof {
            assert(self.command_pending() == self.entity_command_callbacks@);
        }
        let r = Commands::take_id(&mut self.entity_command_callbacks, request_id);
        proof {
            assert(self.command_pending() == self.entity_command_callbacks@);
            assert(self.handlers() == old(self).handlers());
            assert(self.create_pending() == old(self).create_pending());
            assert(self.delete_pending() == old(self).delete_pending());
            assert(old(self).wf());
        }
        r
    }

    /// Takes a parked entity-creation request id, with the same single
    /// delivery guarantee as `take_command`.
    pub fn take_create(&mut self, request_id: RequestId) -> (r: bool)
        requires
            old(self).wf(),
        ensures
            final(self).wf(),
            r == pending_contains(old(self).create_pending(), request_id),
            final(self).handlers() == old(self).handlers(),
            final(self).command_pending() == old(self).command_pending(),
            final(self).delete_pending() == old(self).delete_pending(),
            !pending_contains(final(self).create_pending(), request_id),
            forall|q: RequestId|
                q != request_id ==> pending_contains(final(self).create_pending(), q)
                    == pending_contains(old(self).create_pending(), q),
    {
        proof {
            assert(self.create_pending() == self.create_entity_callbacks@);
        }
        let r = Commands::take_id(&mut self.create_entity_callbacks, request_id);
        proof {
            assert(self.create_pending() == self.create_entity_callbacks@);
            assert(self.handlers() == old(self).handlers());
            assert(self.command_pending() == old(self).command_pending());
            assert(self.delete_pending() == old(self).delete_pending());
            assert(old(self).wf());
        }
        r
    }

    /// Takes a parked entity-deletion request id, with the same single
    /// delivery guarantee as `take_command`.
    pub fn take_delete(&mut self, request_id: RequestId) -> (r: bool)
        requires
            old(self).wf(),
        ensures
            final(self).wf(),
            r == pending_contains(old(self).delete_pending(), request_id),
            final(self).handlers() == old(self).handlers(),
            final(self).command_pending() == old(self).command_pending(),
            final(self).create_pending() == old(self).create_pending(),
            !pending_contains(final(self).delete_pending(), request_id),
            forall|q: RequestId|
                q != request_id ==> pending_contains(final(self).delete_pending(), q)
                    == pending_contains(old(self).delete_pending(), q),
    {
        proof {
            assert(self.delete_pending() == self.delete_entity_callbacks@);
        }
        let r = Commands::take_id(&mut self.delete_entity_callbacks, request_id);
        proof {
            assert(self.delete_pending() == self.delete_entity_callbacks@);
            assert(self.handlers() == old(self).handlers());
            assert(self.command_pending() == old(self).command_pending());
            assert(self.create_pending() == old(self).create_pending());
            assert(old(self).wf());
        }
        r
    }

    /// Removes a request id from a pending list with unique entries.
    fn take_id(pending: &mut Vec<RequestId>, request_id: RequestId) -> (r: bool)
        requires
            forall|i: int, j: int|
                0 <= i < j < old(pending)@.len() ==> (#[trigger] old(pending)@[i]) != (
                #[trigger] old(pending)@[j]),
        ensures
            r == pending_contains(old(pending)@, request_id),
            forall|i: int, j: int|
                0 <= i < j < final(pending)@.len() ==> (#[trigger] final(pending)@[i]) != (
                #[trigger] final(pending)@[j]),
            !pending_contains(final(pending)@, request_id),
            forall|q: RequestId|
                q != request_id ==> pending_contains(final(pending)@, q) == pending_contains(
                    old(pending)@,
                    q,
                ),
            !r ==> final(pending)@ == old(pending)@,
    {
        let n = pending.len();
        let mut i: usize = 0;
        while i < n
            invariant
                i <= n,
                n == pending@.len(),
                *pending == *old(pending),
                forall|p: int, q: int|
                    0 <= p < q < pending@.len() ==> (#[trigger] pending@[p]) != (
                    #[trigger] pending@[q]),
                forall|j: int| 0 <= j < i ==> (#[trigger] pending@[j]) != request_id,
            decreases n - i,
        {
            if pending[i] == request_id {
                let _ = pending.swap_remove(i);
                proof {
                    let pr = old(pending)@;
                    let np = pending@;
                    let ii = i as int;
                    let last = pr.len() - 1;
                    assert(np =~= pr.update(ii, pr[last]).drop_last());
                    assert forall|p: int, q: int| 0 <= p < q < np.len() implies (
                    #[trigger] np[p]) != (#[trigger] np[q]) by {
                        let fp: int = if p == ii {
                            last
                        } else {
                            p
                        };
                        let fq: int = if q == ii {
                            last
                        } else {
                            q
                        };
                        assert(np[p] == pr[fp] && np[q] == pr[fq]);
                        assert(fp != fq);
                        if fp < fq {
                            assert(pr[fp] != pr[fq]);
                        } else {
                            assert(pr[fq] != pr[fp]);
                        }
                    }
                    assert forall|k: int| 0 <= k < np.len() implies #[trigger] np[k]
                        != request_id by {
                        let fk: int = if k == ii {
                            last
                        } else {
                            k
                        };
                        assert(np[k] == pr[fk]);
                        if fk != ii {
                            assert(pr[fk] != pr[ii] || pr[ii] != pr[fk]);
                        } else {
                            assert(k == ii && ii == last);
                            assert(k < np.len());
                            assert(false);
                        }
                    }
                    assert forall|q: RequestId| q != request_id implies pending_contains(np, q)
                        == pending_contains(pr, q) by {
                        if pending_contains(np, q) {
                            let k = choose|k: int| 0 <= k < np.len() && np[k] == q;
                            let fk: int = if k == ii {
                                last
                            } else {
                                k
                            };
                            assert(pr[fk] == q);
                        }
                        if pending_contains(pr, q) {
                            let k = choose|k: int| 0 <= k < pr.len() && pr[k] == q;
                            assert(k != ii);
                            if k == last {
                                assert(ii != last);
                                assert(np[ii] == q);
                            } else {
                                assert(np[k] == q);
                            }
                        }
                    }
                }
                return true;
            }
            i = i + 1;
        }
        false
    }
}

} // verus!