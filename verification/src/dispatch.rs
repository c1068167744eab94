//! The op-dispatch state machine, as a mathematical model.
//!
//! Dispatching an op list drives an abstract state: the set of live entities
//! with their signatures, the partial entities accumulating inside a
//! critical section, and whether a section is open.  The `World`'s dispatch
//! is proved to fold this step function over the list, and the laws at the
//! bottom relate the fold to the raw op sequence: after dispatch the live
//! set is exactly the admitted ids minus the removed ones, and every live
//! entity's signature is exactly the set of accepted component additions
//! from its critical section.

use crate::ops::Op;
use crate::ops::WorldEvent;
use crate::schema::Schema;
use crate::worker::CommandStatus;
use crate::RequestId;
use crate::ComponentId;
use crate::EntityId;
use vstd::prelude::*;

verus! {

/// The abstract state op dispatch drives.
pub struct DispatchModel {
    /// The live entities and their signatures.
    pub sigs: Map<EntityId, Set<ComponentId>>,
    /// The partial entities of the open critical section and the component
    /// ids recorded for them so far.
    pub partial: Map<EntityId, Set<ComponentId>>,
    /// Whether a critical section is open.
    pub in_cs: bool,
}

impl DispatchModel {
    /// The set of live entities.
    pub open spec fn live(self) -> Set<EntityId> {
        self.sigs.dom()
    }

    /// The state before any op: no entities, no partials, no open section.
    pub open spec fn empty() -> DispatchModel {
        DispatchModel {
            sigs: Map::empty(),
            partial: Map::empty(),
            in_cs: false,
        }
    }
}

/// Whether the dispatcher accepts an `AddComponent` payload: the schema
/// knows the component and the snapshot fits its shape.
pub open spec fn accepts_component(schema: Schema, cid: ComponentId, snapshot: Seq<i64>) -> bool {
    schema.has_component(cid) && snapshot.len() == schema.descriptor_of(cid).nfields()
}

/// One step of the dispatch state machine: a critical section accumulates
/// partial entities and promotes them when it closes; removals and
/// everything else apply directly.  Ops that
/// target unknown entities, unknown components, or ill-shaped payloads are
/// dropped; a partial whose id is already live is dropped at promotion.
pub open spec fn step_op(schema: Schema, m: DispatchModel, op: Op) -> DispatchModel {
    match op {
        Op::CriticalSection(opening) => if opening {
            DispatchModel { partial: Map::empty(), in_cs: true, ..m }
        } else {
            if m.in_cs {
                DispatchModel {
                    sigs: Map::new(
                        |e: EntityId| m.sigs.dom().contains(e) || m.partial.dom().contains(e),
                        |e: EntityId|
                            if m.sigs.dom().contains(e) {
                                m.sigs[e]
                            } else {
                                m.partial[e]
                            },
                    ),
                    partial: Map::empty(),
                    in_cs: false,
                }
            } else {
                m
            }
        },
        Op::AddEntity(eid) => if m.in_cs {
            DispatchModel { partial: m.partial.insert(eid, Set::empty()), ..m }
        } else {
            m
        },
        Op::AddComponent(eid, cid, snapshot) => if m.in_cs && m.partial.dom().contains(eid)
            && accepts_component(schema, cid, snapshot@) {
            DispatchModel { partial: m.partial.insert(eid, m.partial[eid].insert(cid)), ..m }
        } else {
            m
        },
        Op::RemoveEntity(eid) => DispatchModel { sigs: m.sigs.remove(eid), ..m },
        Op::RemoveComponent(eid, cid) => if m.in_cs && m.partial.dom().contains(eid) {
            DispatchModel { partial: m.partial.insert(eid, m.partial[eid].remove(cid)), ..m }
        } else if m.sigs.dom().contains(eid) {
            DispatchModel { sigs: m.sigs.insert(eid, m.sigs[eid].remove(cid)), ..m }
        } else {
            m
        },
        _ => m,
    }
}

/// The fold of `step_op` over the ops from position `i` on.
pub open spec fn run_ops_from(schema: Schema, m: DispatchModel, ops: Seq<Op>, i: int) -> DispatchModel
    decreases ops.len() - i,
{
    if i < 0 || i >= ops.len() {
        m
    } else {
        run_ops_from(schema, step_op(schema, m, ops[i]), ops, i + 1)
    }
}

/// The fold of `step_op` over a whole op list.
pub open spec fn run_ops(schema: Schema, m: DispatchModel, ops: Seq<Op>) -> DispatchModel {
    run_ops_from(schema, m, ops, 0)
}

/// The discipline a fabric op stream follows, checked from position `i` with
/// the ids pending in the open section, the ids admitted by closed sections,
/// and the removed ids: sections alternate properly and end closed, every
/// entity is added inside a section at a fresh id, and every removal targets
/// an admitted, not yet removed id outside any section.
pub open spec fn ops_wf_from(
    ops: Seq<Op>,
    i: int,
    in_cs: bool,
    pending: Set<EntityId>,
    done: Set<EntityId>,
    removed: Set<EntityId>,
) -> bool
    decreases ops.len() - i,
{
    if i < 0 || i >= ops.len() {
        !in_cs
    } else {
        match ops[i] {
            Op::CriticalSection(opening) => opening == !in_cs && ops_wf_from(
                ops,
                i + 1,
                opening,
                Set::empty(),
                if opening {
                    done
                } else {
                    done.union(pending)
                },
                removed,
            ),
            Op::AddEntity(e) => in_cs && !pending.contains(e) && !done.contains(e)
                && !removed.contains(e) && ops_wf_from(
                ops,
                i + 1,
                in_cs,
                pending.insert(e),
                done,
                removed,
            ),
            Op::RemoveEntity(e) => !in_cs && done.contains(e) && !removed.contains(e)
                && ops_wf_from(ops, i + 1, in_cs, pending, done, removed.insert(e)),
            _ => ops_wf_from(ops, i + 1, in_cs, pending, done, removed),
        }
    }
}

/// The discipline a whole op stream follows, starting idle and empty.
pub open spec fn ops_wf(ops: Seq<Op>) -> bool {
    ops_wf_from(ops, 0, false, Set::empty(), Set::empty(), Set::empty())
}

/// The ids the `AddEntity` ops from position `i` on name.
pub open spec fn added_ids(ops: Seq<Op>, i: int) -> Set<EntityId>
    decreases ops.len() - i,
{
    if i < 0 || i >= ops.len() {
        Set::empty()
    } else {
        added_ids(ops, i + 1).union(
            match ops[i] {
                Op::AddEntity(e) => Set::empty().insert(e),
                _ => Set::empty(),
            },
        )
    }
}

/// The ids the `RemoveEntity` ops from position `i` on name.
pub open spec fn removed_ids(ops: Seq<Op>, i: int) -> Set<EntityId>
    decreases ops.len() - i,
{
    if i < 0 || i >= ops.len() {
        Set::empty()
    } else {
        removed_ids(ops, i + 1).union(
            match ops[i] {
                Op::RemoveEntity(e) => Set::empty().insert(e),
                _ => Set::empty(),
            },
        )
    }
}

/// Books the ops from position `i` on against the raw stream: which ids end
/// up admitted, with which component ids, and which ids end up removed.
/// `pending` accumulates the open section's entities with the component ids
/// their accepted `AddComponent` ops added and their `RemoveComponent` ops
/// took away; closing a section books them as admitted, and later removals
/// keep shrinking the booked sets.
pub open spec fn account(
    schema: Schema,
    ops: Seq<Op>,
    i: int,
    in_cs: bool,
    pending: Map<EntityId, Set<ComponentId>>,
    done: Map<EntityId, Set<ComponentId>>,
    removed: Set<EntityId>,
) -> (Map<EntityId, Set<ComponentId>>, Set<EntityId>)
    decreases ops.len() - i,
{
    if i < 0 || i >= ops.len() {
        (done, removed)
    } else {
        match ops[i] {
            Op::CriticalSection(opening) => if opening {
                account(schema, ops, i + 1, true, Map::empty(), done, removed)
            } else {
                if in_cs {
                    account(schema, ops, i + 1, false, Map::empty(), promote(done, pending), removed)
                } else {
                    account(schema, ops, i + 1, false, pending, done, removed)
                }
            },
            Op::AddEntity(e) => if in_cs {
                account(schema, ops, i + 1, in_cs, pending.insert(e, Set::empty()), done, removed)
            } else {
                account(schema, ops, i + 1, in_cs, pending, done, removed)
            },
            Op::AddComponent(e, cid, snapshot) => if in_cs && pending.dom().contains(e)
                && accepts_component(schema, cid, snapshot@) {
                account(
                    schema,
                    ops,
                    i + 1,
                    in_cs,
                    pending.insert(e, pending[e].insert(cid)),
                    done,
                    removed,
                )
            } else {
                account(schema, ops, i + 1, in_cs, pending, done, removed)
            },
            Op::RemoveEntity(e) => account(
                schema,
                ops,
                i + 1,
                in_cs,
                pending,
                done,
                removed.insert(e),
            ),
            Op::RemoveComponent(e, cid2) => if in_cs && pending.dom().contains(e) {
                account(
                    schema,
                    ops,
                    i + 1,
                    in_cs,
                    pending.insert(e, pending[e].remove(cid2)),
                    done,
                    removed,
                )
            } else if done.dom().contains(e) && !removed.contains(e) {
                account(
                    schema,
                    ops,
                    i + 1,
                    in_cs,
                    pending,
                    done.insert(e, done[e].remove(cid2)),
                    removed,
                )
            } else {
                account(schema, ops, i + 1, in_cs, pending, done, removed)
            },
            _ => account(schema, ops, i + 1, in_cs, pending, done, removed),
        }
    }
}

/// Admitted entities keep their booked components; a freshly promoted one
/// brings the components of its section.
pub open spec fn promote(
    done: Map<EntityId, Set<ComponentId>>,
    pending: Map<EntityId, Set<ComponentId>>,
) -> Map<EntityId, Set<ComponentId>> {
    Map::new(
        |e: EntityId| done.dom().contains(e) || pending.dom().contains(e),
        |e: EntityId|
            if done.dom().contains(e) {
                done[e]
            } else {
                pending[e]
            },
    )
}

/// What booking a whole disciplined stream yields.
pub open spec fn dispatch_accounting(schema: Schema, ops: Seq<Op>) -> (
    Map<EntityId, Set<ComponentId>>,
    Set<EntityId>,
) {
    account(schema, ops, 0, false, Map::empty(), Map::empty(), Set::empty())
}

/// Folding a disciplined op stream agrees with booking it: the fold ends
/// outside any section with an empty accumulator, its live set is the booked
/// admissions minus the booked removals, and every live entity carries its
/// booked signature.
proof fn lemma_run_accounting(
    schema: Schema,
    ops: Seq<Op>,
    i: int,
    m: DispatchModel,
    pending: Map<EntityId, Set<ComponentId>>,
    done: Map<EntityId, Set<ComponentId>>,
    removed: Set<EntityId>,
)
    requires
        0 <= i <= ops.len(),
        ops_wf_from(ops, i, m.in_cs, pending.dom(), done.dom(), removed),
        m.partial == pending,
        !m.in_cs ==> pending.dom() == Set::<EntityId>::empty(),
        m.sigs.dom() == done.dom().difference(removed),
        forall|e: EntityId| #[trigger] m.sigs.dom().contains(e) ==> m.sigs[e] == done[e],
        pending.dom().disjoint(done.dom()),
        pending.dom().disjoint(removed),
        removed.subset_of(done.dom()),
    ensures
        ({
            let fin = run_ops_from(schema, m, ops, i);
            let acc = account(schema, ops, i, m.in_cs, pending, done, removed);
            &&& !fin.in_cs
            &&& fin.sigs.dom() == acc.0.dom().difference(acc.1)
            &&& (forall|e: EntityId|
                #[trigger] fin.sigs.dom().contains(e) ==> fin.sigs[e] == acc.0[e])
        }),
    decreases ops.len() - i,
{
    if i >= ops.len() {
        assert(!m.in_cs);
    } else {
        let op = ops[i];
        let m2 = step_op(schema, m, op);
        match op {
            Op::CriticalSection(opening) => {
                if opening {
                    assert(m2.partial =~= Map::<EntityId, Set<ComponentId>>::empty());
                    lemma_run_accounting(schema, ops, i + 1, m2, Map::empty(), done, removed);
                } else {
                    let ndone = promote(done, pending);
                    assert(m2.sigs.dom() =~= ndone.dom().difference(removed)) by {
                        assert forall|e: EntityId| m2.sigs.dom().contains(e)
                            == ndone.dom().difference(removed).contains(e) by {
                            if pending.dom().contains(e) {
                                assert(!removed.contains(e));
                            }
                        }
                    }
                    assert forall|e: EntityId| #[trigger] m2.sigs.dom().contains(e)
                        implies m2.sigs[e] == ndone[e] by {
                        if m.sigs.dom().contains(e) {
                            assert(done.dom().contains(e));
                        } else {
                            assert(pending.dom().contains(e));
                            assert(!done.dom().contains(e));
                        }
                    }
                    assert(m2.partial =~= Map::<EntityId, Set<ComponentId>>::empty());
                    assert(done.dom().union(pending.dom()) =~= ndone.dom());
                    assert(Map::<EntityId, Set<ComponentId>>::empty().dom()
                        =~= Set::<EntityId>::empty());
                    assert(removed.subset_of(ndone.dom()));
                    lemma_run_accounting(schema, ops, i + 1, m2, Map::empty(), ndone, removed);
                }
            },
            Op::AddEntity(e) => {
                assert(m.in_cs);
                let npending = pending.insert(e, Set::empty());
                assert(m2.partial =~= npending);
                assert(npending.dom() =~= pending.dom().insert(e));
                assert(npending.dom().disjoint(done.dom())) by {
                    assert forall|x: EntityId| npending.dom().contains(x) implies !done.dom().contains(
                        x,
                    ) by {
                        if x != e {
                            assert(pending.dom().contains(x));
                        }
                    }
                }
                assert(npending.dom().disjoint(removed)) by {
                    assert forall|x: EntityId| npending.dom().contains(x) implies !removed.contains(
                        x,
                    ) by {
                        if x != e {
                            assert(pending.dom().contains(x));
                        }
                    }
                }
                lemma_run_accounting(schema, ops, i + 1, m2, npending, done, removed);
            },
            Op::AddComponent(e, cid, snapshot) => {
                if m.in_cs && pending.dom().contains(e) && accepts_component(
                    schema,
                    cid,
                    snapshot@,
                ) {
                    let npending = pending.insert(e, pending[e].insert(cid));
                    assert(m2.partial =~= npending);
                    assert(npending.dom() =~= pending.dom());
                    lemma_run_accounting(schema, ops, i + 1, m2, npending, done, removed);
                } else {
                    assert(m2 == m);
                    lemma_run_accounting(schema, ops, i + 1, m2, pending, done, removed);
                }
            },
            Op::RemoveComponent(e, cid2) => {
                if m.in_cs && m.partial.dom().contains(e) {
                    let npending = pending.insert(e, pending[e].remove(cid2));
                    assert(m2.partial =~= npending);
                    assert(npending.dom() =~= pending.dom());
                    lemma_run_accounting(schema, ops, i + 1, m2, npending, done, removed);
                } else if m.sigs.dom().contains(e) {
                    let ndone = done.insert(e, done[e].remove(cid2));
                    assert(ndone.dom() =~= done.dom());
                    assert(done.dom().contains(e) && !removed.contains(e));
                    assert(m2.sigs.dom() =~= ndone.dom().difference(removed));
                    assert(m2.partial == pending);
                    assert forall|x: EntityId| #[trigger] m2.sigs.dom().contains(x) implies
                        m2.sigs[x] == ndone[x] by {
                        if x != e {
                            assert(m.sigs.dom().contains(x));
                        }
                    }
                    lemma_run_accounting(schema, ops, i + 1, m2, pending, ndone, removed);
                } else {
                    assert(m2 == m);
                    assert(!(done.dom().contains(e) && !removed.contains(e)));
                    lemma_run_accounting(schema, ops, i + 1, m2, pending, done, removed);
                }
            },
            Op::RemoveEntity(e) => {
                assert(!m.in_cs && done.dom().contains(e) && !removed.contains(e));
                let nremoved = removed.insert(e);
                assert(m2.sigs.dom() =~= done.dom().difference(nremoved));
                assert(m2.partial == pending);
                assert(pending.dom().disjoint(nremoved)) by {
                    assert(pending.dom() == Set::<EntityId>::empty());
                }
                assert(nremoved.subset_of(done.dom()));
                assert forall|x: EntityId| #[trigger] m2.sigs.dom().contains(x) implies m2.sigs[x]
                    == done[x] by {
                    assert(m.sigs.dom().contains(x));
                }
                lemma_run_accounting(schema, ops, i + 1, m2, pending, done, nremoved);
            },
            _ => {
                assert(m2 == m);
                lemma_run_accounting(schema, ops, i + 1, m2, pending, done, removed);
            },
        }
    }
}

/// Booking a disciplined stream admits exactly the added ids and removes
/// exactly the removed ids.
proof fn lemma_account_doms(
    schema: Schema,
    ops: Seq<Op>,
    i: int,
    in_cs: bool,
    pending: Map<EntityId, Set<ComponentId>>,
    done: Map<EntityId, Set<ComponentId>>,
    removed: Set<EntityId>,
)
    requires
        0 <= i <= ops.len(),
        ops_wf_from(ops, i, in_cs, pending.dom(), done.dom(), removed),
        !in_cs ==> pending.dom() == Set::<EntityId>::empty(),
    ensures
        ({
            let acc = account(schema, ops, i, in_cs, pending, done, removed);
            &&& acc.0.dom() == done.dom().union(pending.dom()).union(added_ids(ops, i))
            &&& acc.1 == removed.union(removed_ids(ops, i))
        }),
    decreases ops.len() - i,
{
    if i >= ops.len() {
        assert(!in_cs);
        assert(done.dom().union(pending.dom()).union(added_ids(ops, i)) =~= done.dom().union(
            pending.dom(),
        ));
        assert(pending.dom() =~= Set::<EntityId>::empty());
        assert(done.dom().union(pending.dom()) =~= done.dom());
        assert(removed.union(removed_ids(ops, i)) =~= removed);
    } else {
        match ops[i] {
            Op::CriticalSection(opening) => {
                if opening {
                    assert(pending.dom() =~= Set::<EntityId>::empty()) by {
                        assert(!in_cs);
                    }
                    lemma_account_doms(schema, ops, i + 1, true, Map::empty(), done, removed);
                    assert(Map::<EntityId, Set<ComponentId>>::empty().dom()
                        =~= Set::<EntityId>::empty());
                    let acc = account(schema, ops, i + 1, true, Map::empty(), done, removed);
                    assert(acc.0.dom() =~= done.dom().union(pending.dom()).union(
                        added_ids(ops, i),
                    ));
                } else {
                    let ndone = promote(done, pending);
                    assert(ndone.dom() =~= done.dom().union(pending.dom()));
                    assert(Map::<EntityId, Set<ComponentId>>::empty().dom()
                        =~= Set::<EntityId>::empty());
                    lemma_account_doms(schema, ops, i + 1, false, Map::empty(), ndone, removed);
                    let acc = account(schema, ops, i + 1, false, Map::empty(), ndone, removed);
                    assert(acc.0.dom() =~= done.dom().union(pending.dom()).union(
                        added_ids(ops, i),
                    ));
                }
            },
            Op::AddEntity(e) => {
                let npending = pending.insert(e, Set::empty());
                assert(npending.dom() =~= pending.dom().insert(e));
                lemma_account_doms(schema, ops, i + 1, in_cs, npending, done, removed);
                let acc = account(schema, ops, i + 1, in_cs, npending, done, removed);
                assert(added_ids(ops, i) =~= added_ids(ops, i + 1).insert(e));
                assert(acc.0.dom() =~= done.dom().union(pending.dom()).union(added_ids(ops, i)));
                assert(removed_ids(ops, i) =~= removed_ids(ops, i + 1));
            },
            Op::AddComponent(e, cid, snapshot) => {
                if in_cs && pending.dom().contains(e) && accepts_component(schema, cid, snapshot@) {
                    let npending = pending.insert(e, pending[e].insert(cid));
                    assert(npending.dom() =~= pending.dom());
                    lemma_account_doms(schema, ops, i + 1, in_cs, npending, done, removed);
                    let acc = account(schema, ops, i + 1, in_cs, npending, done, removed);
                    assert(acc.0.dom() =~= done.dom().union(pending.dom()).union(
                        added_ids(ops, i),
                    ));
                    assert(added_ids(ops, i) =~= added_ids(ops, i + 1));
                    assert(removed_ids(ops, i) =~= removed_ids(ops, i + 1));
                } else {
                    lemma_account_doms(schema, ops, i + 1, in_cs, pending, done, removed);
                    assert(added_ids(ops, i) =~= added_ids(ops, i + 1));
                    assert(removed_ids(ops, i) =~= removed_ids(ops, i + 1));
                }
            },
            Op::RemoveComponent(e, cid2) => {
                if in_cs && pending.dom().contains(e) {
                    let npending = pending.insert(e, pending[e].remove(cid2));
                    assert(npending.dom() =~= pending.dom());
                    lemma_account_doms(schema, ops, i + 1, in_cs, npending, done, removed);
                    let acc = account(schema, ops, i + 1, in_cs, npending, done, removed);
                    assert(acc.0.dom() =~= done.dom().union(pending.dom()).union(
                        added_ids(ops, i),
                    ));
                } else if done.dom().contains(e) && !removed.contains(e) {
                    let ndone = done.insert(e, done[e].remove(cid2));
                    assert(ndone.dom() =~= done.dom());
                    lemma_account_doms(schema, ops, i + 1, in_cs, pending, ndone, removed);
                    let acc = account(schema, ops, i + 1, in_cs, pending, ndone, removed);
                    assert(acc.0.dom() =~= done.dom().union(pending.dom()).union(
                        added_ids(ops, i),
                    ));
                } else {
                    lemma_account_doms(schema, ops, i + 1, in_cs, pending, done, removed);
                }
                assert(added_ids(ops, i) =~= added_ids(ops, i + 1));
                assert(removed_ids(ops, i) =~= removed_ids(ops, i + 1));
            },
            Op::RemoveEntity(e) => {
                lemma_account_doms(schema, ops, i + 1, in_cs, pending, done, removed.insert(e));
                assert(removed_ids(ops, i) =~= removed_ids(ops, i + 1).insert(e));
                assert(removed.union(removed_ids(ops, i)) =~= removed.insert(e).union(
                    removed_ids(ops, i + 1),
                ));
                assert(added_ids(ops, i) =~= added_ids(ops, i + 1));
            },
            _ => {
                lemma_account_doms(schema, ops, i + 1, in_cs, pending, done, removed);
                assert(added_ids(ops, i) =~= added_ids(ops, i + 1));
                assert(removed_ids(ops, i) =~= removed_ids(ops, i + 1));
            },
        }
    }
}

/// After dispatching any disciplined op stream over an empty world, the live
/// entity set is exactly the set of `AddEntity` ids minus the set of
/// `RemoveEntity` ids.
pub proof fn lemma_dispatch_entity_set(schema: Schema, ops: Seq<Op>)
    requires
        ops_wf(ops),
    ensures
        run_ops(schema, DispatchModel::empty(), ops).live() == added_ids(ops, 0).difference(
            removed_ids(ops, 0),
        ),
{
    let m0 = DispatchModel::empty();
    assert(Map::<EntityId, Set<ComponentId>>::empty().dom() =~= Set::<EntityId>::empty());
    assert(m0.sigs.dom() =~= Set::<EntityId>::empty().difference(Set::empty()));
    lemma_run_accounting(schema, ops, 0, m0, Map::empty(), Map::empty(), Set::empty());
    lemma_account_doms(schema, ops, 0, false, Map::empty(), Map::empty(), Set::empty());
    let acc = dispatch_accounting(schema, ops);
    assert(acc.0.dom() =~= added_ids(ops, 0)) by {
        assert(acc.0.dom() =~= Set::<EntityId>::empty().union(Set::empty()).union(
            added_ids(ops, 0),
        ));
    }
    assert(acc.1 =~= removed_ids(ops, 0)) by {
        assert(acc.1 =~= Set::<EntityId>::empty().union(removed_ids(ops, 0)));
    }
}

/// After dispatching any disciplined op stream over an empty world, every
/// live entity's signature is exactly the set of component ids the stream
/// booked for it: the accepted `AddComponent` ops of its admission section
/// minus the `RemoveComponent` ops that followed, whether they arrived while
/// the entity was still accumulating or after it was admitted.
pub proof fn lemma_dispatch_signatures(schema: Schema, ops: Seq<Op>)
    requires
        ops_wf(ops),
    ensures
        !run_ops(schema, DispatchModel::empty(), ops).in_cs,
        forall|e: EntityId|
            #[trigger] run_ops(schema, DispatchModel::empty(), ops).live().contains(e)
                ==> run_ops(schema, DispatchModel::empty(), ops).sigs[e] == dispatch_accounting(
                schema,
                ops,
            ).0[e],
{
    let m0 = DispatchModel::empty();
    assert(Map::<EntityId, Set<ComponentId>>::empty().dom() =~= Set::<EntityId>::empty());
    assert(m0.sigs.dom() =~= Set::<EntityId>::empty().difference(Set::empty()));
    lemma_run_accounting(schema, ops, 0, m0, Map::empty(), Map::empty(), Set::empty());
}

/// The command-registry state op dispatch drives: the registered handler
/// keys and the request ids still awaiting an answer.
pub struct CommandModel {
    pub handlers: Set<(ComponentId, u32)>,
    pub command_pending: Set<RequestId>,
    pub create_pending: Set<RequestId>,
    pub delete_pending: Set<RequestId>,
}

/// One step of the registry state: each response consumes its request id
/// from the matching pending set; nothing else moves it.
pub open spec fn step_cmd(cm: CommandModel, op: Op) -> CommandModel {
    match op {
        Op::CommandResponse(request_id, entity_id, payload, status, message) => CommandModel {
            command_pending: cm.command_pending.remove(request_id),
            ..cm
        },
        Op::CreateEntityResponse(request_id, entity_id, status, message) => CommandModel {
            create_pending: cm.create_pending.remove(request_id),
            ..cm
        },
        Op::DeleteEntityResponse(request_id, entity_id, status, message) => CommandModel {
            delete_pending: cm.delete_pending.remove(request_id),
            ..cm
        },
        _ => cm,
    }
}

/// The callback invocations one op owes the driver: a handler invocation for
/// a command request with a registered handler, and exactly one
/// success-or-failure event for a response whose request id is still parked.
pub open spec fn op_events(cm: CommandModel, op: Op) -> Seq<WorldEvent> {
    match op {
        Op::CommandRequest(request_id, entity_id, component_id, command_index, payload) => if cm.handlers.contains((component_id, command_index)) {
            seq![
                (WorldEvent::HandlerInvocation {
                    request_id,
                    entity_id,
                    component_id,
                    command_index,
                    payload,
                }),
            ]
        } else {
            Seq::empty()
        },
        Op::CommandResponse(request_id, entity_id, payload, status, message) => if cm.command_pending.contains(request_id) {
            if status == CommandStatus::Success {
                seq![(WorldEvent::CommandSuccess { request_id, entity_id, payload })]
            } else {
                seq![(WorldEvent::CommandFailure { request_id, status, message })]
            }
        } else {
            Seq::empty()
        },
        Op::CreateEntityResponse(request_id, entity_id, status, message) => if cm.create_pending.contains(request_id) {
            if status == CommandStatus::Success {
                seq![(WorldEvent::CreateEntitySuccess { request_id, entity_id })]
            } else {
                seq![(WorldEvent::CreateEntityFailure { request_id, status, message })]
            }
        } else {
            Seq::empty()
        },
        Op::DeleteEntityResponse(request_id, entity_id, status, message) => if cm.delete_pending.contains(request_id) {
            if status == CommandStatus::Success {
                seq![(WorldEvent::DeleteEntitySuccess { request_id, entity_id })]
            } else {
                seq![(WorldEvent::DeleteEntityFailure { request_id, status, message })]
            }
        } else {
            Seq::empty()
        },
        _ => Seq::empty(),
    }
}

/// The fold of `step_cmd` over the ops from position `i` on.
pub open spec fn run_cmd_from(cm: CommandModel, ops: Seq<Op>, i: int) -> CommandModel
    decreases ops.len() - i,
{
    if i < 0 || i >= ops.len() {
        cm
    } else {
        run_cmd_from(step_cmd(cm, ops[i]), ops, i + 1)
    }
}

/// Every callback invocation the ops from position `i` on owe, in op order.
pub open spec fn run_events_from(cm: CommandModel, ops: Seq<Op>, i: int) -> Seq<WorldEvent>
    decreases ops.len() - i,
{
    if i < 0 || i >= ops.len() {
        Seq::empty()
    } else {
        op_events(cm, ops[i]) + run_events_from(step_cmd(cm, ops[i]), ops, i + 1)
    }
}

} // verus!
