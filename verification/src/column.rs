//! Per-component storage within one chunk.
//!
//! A column owns, for one component, the data row and authority bit of every
//! live slot of its chunk, a column-level dirty flag driving replication,
//! and an events-this-tick flag driving transient cleanup.

use crate::data::applied_fields;
use crate::data::cleaned_fields;
use crate::data::extracted_fields;
use crate::data::staged_events_of;
use crate::data::ComponentData;
use crate::data::ComponentUpdate;
use crate::data::Property;
use crate::ops::OutgoingMessage;
use crate::worker::Authority;
use crate::ComponentId;
use crate::EntityId;
use crate::world::WorldTime;
use vstd::pervasive::VecAdditionalExecFns;
use vstd::prelude::*;

verus! {

/// One slot's record in a column: the data and when it last changed.
pub struct ComponentDataEntry {
    pub data: ComponentData,
    pub last_updated: WorldTime,
}

/// Whether `m` is a component-update message with the given target and
/// contents.
pub open spec fn is_update_msg(
    m: OutgoingMessage,
    eid: EntityId,
    cid: ComponentId,
    uf: Seq<Option<i64>>,
    ue: Seq<Seq<i64>>,
) -> bool {
    match m {
        OutgoingMessage::ComponentUpdate { entity_id, component_id, update } => entity_id == eid
            && component_id == cid && update.ufields() == uf && update.uevents() == ue,
        _ => false,
    }
}

/// The slots of `entries` whose data is marked dirty, ascending.
pub open spec fn dirty_slots(entries: Seq<ComponentDataEntry>) -> Seq<int>
    decreases entries.len(),
{
    if entries.len() == 0 {
        Seq::empty()
    } else {
        let prefix = dirty_slots(entries.drop_last());
        if entries.last().data.dirty() {
            prefix.push(entries.len() - 1)
        } else {
            prefix
        }
    }
}

/// Extending the scanned prefix by one slot appends that slot to the dirty
/// list exactly when its data is dirty.
pub proof fn lemma_dirty_slots_step(entries: Seq<ComponentDataEntry>, i: int)
    requires
        0 <= i < entries.len(),
    ensures
        dirty_slots(entries.take(i + 1)) == if entries[i].data.dirty() {
            dirty_slots(entries.take(i)).push(i)
        } else {
            dirty_slots(entries.take(i))
        },
{
    let t = entries.take(i + 1);
    assert(t.drop_last() =~= entries.take(i));
    assert(t.last() == entries[i]);
}

/// A column with no dirty slot has an empty dirty list.
pub proof fn lemma_dirty_slots_empty(entries: Seq<ComponentDataEntry>)
    requires
        forall|i: int| 0 <= i < entries.len() ==> !(#[trigger] entries[i]).data.dirty(),
    ensures
        dirty_slots(entries) == Seq::<int>::empty(),
    decreases entries.len(),
{
    if entries.len() > 0 {
        lemma_dirty_slots_empty(entries.drop_last());
    }
}

/// Every listed dirty slot is a valid, dirty slot index.
pub proof fn lemma_dirty_slots_in_range(entries: Seq<ComponentDataEntry>)
    ensures
        forall|k: int|
            0 <= k < dirty_slots(entries).len() ==> 0 <= #[trigger] dirty_slots(entries)[k]
                < entries.len() && entries[dirty_slots(entries)[k]].data.dirty(),
    decreases entries.len(),
{
    if entries.len() > 0 {
        lemma_dirty_slots_in_range(entries.drop_last());
        assert forall|k: int| 0 <= k < dirty_slots(entries).len() implies 0
            <= #[trigger] dirty_slots(entries)[k] < entries.len() && entries[dirty_slots(
            entries,
        )[k]].data.dirty() by {
            let prefix = dirty_slots(entries.drop_last());
            if k < prefix.len() {
                assert(entries.drop_last()[prefix[k]] == entries[prefix[k]]);
            }
        }
    }
}

/// The storage and change tracking for one component across one chunk's
/// slots.
pub struct ComponentStorage {
    component_id: ComponentId,
    num_fields: usize,
    num_events: usize,
    data: Vec<ComponentDataEntry>,
    authority: Vec<bool>,
    is_dirty: bool,
    has_events_this_frame: bool,
}

impl ComponentStorage {
    /// The component this column stores.
    pub closed spec fn cid(self) -> ComponentId {
        self.component_id
    }

    /// The number of scalar fields of this component.
    pub closed spec fn nfields(self) -> usize {
        self.num_fields
    }

    /// The number of event buffers of this component.
    pub closed spec fn nevents(self) -> usize {
        self.num_events
    }

    /// The per-slot records, one per live slot of the chunk.
    pub closed spec fn entries(self) -> Seq<ComponentDataEntry> {
        self.data@
    }

    /// The per-slot authority bits: true when the fabric's most recent
    /// authority signal was not `NotAuthoritative`.
    pub closed spec fn auth(self) -> Seq<bool> {
        self.authority@
    }

    /// Whether any slot's data was mutated locally since the last replicate.
    pub closed spec fn dirty(self) -> bool {
        self.is_dirty
    }

    /// Whether any slot received events this tick.
    pub closed spec fn has_events(self) -> bool {
        self.has_events_this_frame
    }

    /// Every record fits the component's shape.
    pub open spec fn entries_fit(self) -> bool {
        forall|i: int|
            0 <= i < self.entries().len() ==> (#[trigger] self.entries()[i]).data.fields().len()
                == self.nfields() && self.entries()[i].data.events().len() == self.nevents()
    }

    /// The column's bookkeeping invariant: one authority bit per record,
    /// records of the component's shape, and flags that cover the
    /// finer-grained state — while the column is clean no slot is dirty, and
    /// while no events arrived this tick no slot holds received events.
    pub open spec fn wf(self) -> bool {
        &&& self.auth().len() == self.entries().len()
        &&& self.entries_fit()
        &&& !self.dirty() ==> forall|i: int|
            0 <= i < self.entries().len() ==> !(#[trigger] self.entries()[i]).data.dirty()
        &&& forall|i: int|
            0 <= i < self.entries().len() ==> (#[trigger] self.entries()[i]).data.dirty_consistent()
        &&& !self.has_events() ==> forall|i: int|
            0 <= i < self.entries().len() ==> (#[trigger] self.entries()[
                i
            ]).data.no_received_events()
    }

    /// Fully replicated: the column flag is clear, and no slot holds a dirty
    /// field or a staged event.
    pub open spec fn replicated_clean(self) -> bool {
        &&& !self.dirty()
        &&& forall|i: int|
            0 <= i < self.entries().len() ==> !(#[trigger] self.entries()[i]).data.dirty()
                && self.entries()[i].data.fields_clean() && self.entries()[
                i
            ].data.no_staged_events()
    }

    /// An empty column for one component of the given shape.
    pub fn new(component_id: ComponentId, num_fields: usize, num_events: usize) -> (r:
        ComponentStorage)
        ensures
            r.cid() == component_id,
            r.nfields() == num_fields,
            r.nevents() == num_events,
            r.entries().len() == 0,
            r.auth().len() == 0,
            !r.dirty(),
            !r.has_events(),
            r.wf(),
    {
        ComponentStorage {
            component_id,
            num_fields,
            num_events,
            data: Vec::new(),
            authority: Vec::new(),
            is_dirty: false,
            has_events_this_frame: false,
        }
    }

    /// The number of slots the column currently stores.
    pub fn len(&self) -> (r: usize)
        ensures
            r == self.entries().len(),
    {
        self.data.len()
    }

    /// The component this column stores.
    pub fn component_id(&self) -> (r: ComponentId)
        ensures
            r == self.cid(),
    {
        self.component_id
    }

    /// The number of scalar fields of this component.
    pub fn num_fields(&self) -> (r: usize)
        ensures
            r == self.nfields(),
    {
        self.num_fields
    }

    /// The number of event buffers of this component.
    pub fn num_events(&self) -> (r: usize)
        ensures
            r == self.nevents(),
    {
        self.num_events
    }

    /// The value of one field of one slot.
    pub fn entry_field(&self, entity_index: usize, field_index: usize) -> (r: i64)
        requires
            self.wf(),
            entity_index < self.entries().len(),
            field_index < self.nfields(),
        ensures
            r == self.entries()[entity_index as int].data.fields()[field_index as int].value(),
    {
        self.data[entity_index].data.get_field(field_index)
    }

    /// When one slot's data last changed through the fabric.
    pub fn entry_last_updated(&self, entity_index: usize) -> (r: WorldTime)
        requires
            entity_index < self.entries().len(),
        ensures
            r == self.entries()[entity_index as int].last_updated,
    {
        self.data[entity_index].last_updated
    }

    /// The events one slot received this tick on one buffer.
    pub fn entry_received_events(&self, entity_index: usize, event_index: usize) -> (r: &Vec<i64>)
        requires
            self.wf(),
            entity_index < self.entries().len(),
            event_index < self.nevents(),
        ensures
            r@ == self.entries()[entity_index as int].data.events()[event_index as int].received(),
    {
        self.data[entity_index].data.events[event_index].get_received_events()
    }

    /// Overwrites one field of one slot, provided the worker holds authority
    /// over the component there; a permitted write marks the field, the
    /// data, and the column dirty, and an unpermitted one changes nothing.
    pub fn set_field(&mut self, entity_index: usize, field_index: usize, value: i64) -> (r: bool)
        requires
            old(self).wf(),
            entity_index < old(self).entries().len(),
            field_index < old(self).nfields(),
        ensures
            final(self).wf(),
            r == old(self).auth()[entity_index as int],
            final(self).cid() == old(self).cid(),
            final(self).nfields() == old(self).nfields(),
            final(self).nevents() == old(self).nevents(),
            final(self).auth() == old(self).auth(),
            final(self).has_events() == old(self).has_events(),
            final(self).entries().len() == old(self).entries().len(),
            !r ==> *final(self) == *old(self),
            r ==> {
                let e = final(self).entries()[entity_index as int];
                let o = old(self).entries()[entity_index as int];
                &&& final(self).dirty()
                &&& (forall|i: int|
                    0 <= i < old(self).entries().len() && i != entity_index
                        ==> final(self).entries()[i] == old(self).entries()[i])
                &&& e.last_updated == o.last_updated
                &&& e.data.events() == o.data.events()
                &&& e.data.dirty()
                &&& e.data.fields().len() == o.data.fields().len()
                &&& e.data.fields()[field_index as int].value() == value
                &&& e.data.fields()[field_index as int].dirty()
                &&& (forall|i: int|
                    0 <= i < o.data.fields().len() && i != field_index ==> e.data.fields()[i]
                        == o.data.fields()[i])
            },
    {
        if !self.authority[entity_index] {
            return false;
        }
        self.is_dirty = true;
        self.data[entity_index].data.set_field(field_index, value);
        true
    }

    /// Stages an event on one buffer of one slot, provided the worker holds
    /// authority over the component there; a permitted trigger marks the
    /// data and the column dirty, and an unpermitted one changes nothing.
    pub fn trigger_event(&mut self, entity_index: usize, event_index: usize, value: i64) -> (r:
        bool)
        requires
            old(self).wf(),
            entity_index < old(self).entries().len(),
            event_index < old(self).nevents(),
        ensures
            final(self).wf(),
            r == old(self).auth()[entity_index as int],
            final(self).cid() == old(self).cid(),
            final(self).nfields() == old(self).nfields(),
            final(self).nevents() == old(self).nevents(),
            final(self).auth() == old(self).auth(),
            final(self).has_events() == old(self).has_events(),
            final(self).entries().len() == old(self).entries().len(),
            !r ==> *final(self) == *old(self),
            r ==> {
                let e = final(self).entries()[entity_index as int];
                let o = old(self).entries()[entity_index as int];
                &&& final(self).dirty()
                &&& (forall|i: int|
                    0 <= i < old(self).entries().len() && i != entity_index
                        ==> final(self).entries()[i] == old(self).entries()[i])
                &&& e.last_updated == o.last_updated
                &&& e.data.fields() == o.data.fields()
                &&& e.data.dirty()
                &&& e.data.events().len() == o.data.events().len()
                &&& (e.data.events()[event_index as int]).staged() == o.data.events()[
                    event_index as int
                ].staged().push(value)
                &&& (e.data.events()[event_index as int]).received() == o.data.events()[
                    event_index as int
                ].received()
                &&& (forall|i: int|
                    0 <= i < o.data.events().len() && i != event_index ==> e.data.events()[i]
                        == o.data.events()[i])
            },
    {
        if !self.authority[entity_index] {
            return false;
        }
        self.is_dirty = true;
        self.data[entity_index].data.trigger_event(event_index, value);
        true
    }

    /// Appends the record of a newly admitted entity, stamped `now`.
    ///
    /// Local dirty state the data carries — dirty fields or staged events,
    /// as a migrated record may hold — raises the column's dirty flag, so
    /// the next replication still sends it.  Events it received during its
    /// critical section stay visible for the rest of the tick, so they
    /// raise the column's events flag and are cleared with the other
    /// transient state.
    pub fn push_entity(&mut self, data: ComponentData, authority: Authority, now: WorldTime)
        requires
            old(self).wf(),
            data.fields().len() == old(self).nfields(),
            data.events().len() == old(self).nevents(),
            data.dirty_consistent(),
        ensures
            final(self).wf(),
            final(self).cid() == old(self).cid(),
            final(self).nfields() == old(self).nfields(),
            final(self).nevents() == old(self).nevents(),
            final(self).dirty() == (old(self).dirty() || data.dirty()),
            final(self).has_events() == (old(self).has_events() || !data.no_received_events()),
            final(self).entries() == old(self).entries().push(
                (ComponentDataEntry { data: data, last_updated: now }),
            ),
            final(self).auth() == old(self).auth().push(authority.spec_permits_writes()),
    {
        let permits = authority.permits_writes();
        if data.is_dirty {
            self.is_dirty = true;
        }
        let mut k: usize = 0;
        let num_events = data.num_events();
        let mut any_received = false;
        while k < num_events
            invariant
                k <= num_events,
                num_events == data.events().len(),
                any_received == !(forall|i: int|
                    0 <= i < k ==> (#[trigger] data.events()[i]).received().len() == 0),
            decreases num_events - k,
        {
            if data.events[k].get_received_events().len() > 0 {
                any_received = true;
            }
            k = k + 1;
        }
        if any_received {
            self.has_events_this_frame = true;
        }
        proof {
            if !any_received {
                assert(data.no_received_events());
            } else {
                assert(!data.no_received_events());
            }
        }
        self.data.push(ComponentDataEntry { data, last_updated: now });
        self.authority.push(permits);
    }

    /// Overwrites the authority bit of one slot with the fabric's latest
    /// signal.
    pub fn set_authority(&mut self, entity_index: usize, authority: Authority)
        requires
            old(self).wf(),
            entity_index < old(self).auth().len(),
        ensures
            final(self).wf(),
            final(self).cid() == old(self).cid(),
            final(self).nfields() == old(self).nfields(),
            final(self).nevents() == old(self).nevents(),
            final(self).dirty() == old(self).dirty(),
            final(self).has_events() == old(self).has_events(),
            final(self).entries() == old(self).entries(),
            final(self).auth() == old(self).auth().update(
                entity_index as int,
                authority.spec_permits_writes(),
            ),
    {
        let permits = authority.permits_writes();
        self.authority.set(entity_index, permits);
    }

    /// The authority the worker holds over this component at one slot, as
    /// the store tracks it: authoritative or not.
    pub fn get_authority(&self, entity_index: usize) -> (r: Authority)
        requires
            entity_index < self.auth().len(),
        ensures
            r == if self.auth()[entity_index as int] {
                Authority::Authoritative
            } else {
                Authority::NotAuthoritative
            },
    {
        if self.authority[entity_index] {
            Authority::Authoritative
        } else {
            Authority::NotAuthoritative
        }
    }

    /// Marks the column dirty ahead of a mutable access to one of its rows.
    pub fn mark_as_dirty(&mut self)
        ensures
            old(self).wf() ==> final(self).wf(),
            final(self).cid() == old(self).cid(),
            final(self).nfields() == old(self).nfields(),
            final(self).nevents() == old(self).nevents(),
            final(self).dirty(),
            final(self).has_events() == old(self).has_events(),
            final(self).entries() == old(self).entries(),
            final(self).auth() == old(self).auth(),
    {
        self.is_dirty = true;
    }

    /// Merges an inbound update into one slot, stamps it `now`, and reports
    /// whether the update carried events.
    pub fn apply_component_update(
        &mut self,
        entity_index: usize,
        update: &ComponentUpdate,
        now: WorldTime,
    ) -> (contains_events: bool)
        requires
            old(self).wf(),
            entity_index < old(self).entries().len(),
            update.ufields().len() == old(self).nfields(),
            update.uevents().len() == old(self).nevents(),
        ensures
            final(self).wf(),
            final(self).cid() == old(self).cid(),
            final(self).nfields() == old(self).nfields(),
            final(self).nevents() == old(self).nevents(),
            final(self).dirty() == old(self).dirty(),
            final(self).auth() == old(self).auth(),
            contains_events == update.spec_contains_events(),
            final(self).has_events() == (old(self).has_events() || contains_events),
            final(self).entries().len() == old(self).entries().len(),
            forall|i: int|
                0 <= i < old(self).entries().len() && i != entity_index ==> final(self).entries()[i]
                    == old(self).entries()[i],
            final(self).entries()[entity_index as int].last_updated == now,
            final(self).entries()[entity_index as int].data.fields() == applied_fields(
                old(self).entries()[entity_index as int].data.fields(),
                update.ufields(),
            ),
            final(self).entries()[entity_index as int].data.events().len() == old(
                self,
            ).nevents(),
            forall|i: int|
                0 <= i < old(self).nevents() ==> (#[trigger] final(self).entries()[
                    entity_index as int
                ].data.events()[i]).received() == old(self).entries()[
                    entity_index as int
                ].data.events()[i].received() + update.uevents()[i] && final(self).entries()[
                    entity_index as int
                ].data.events()[i].staged() == old(self).entries()[
                    entity_index as int
                ].data.events()[i].staged(),
            final(self).entries()[entity_index as int].data.dirty() == old(self).entries()[
                entity_index as int
            ].data.dirty(),
    {
        let contains_events = update.contains_events();
        if contains_events {
            self.has_events_this_frame = true;
        }
        self.data[entity_index].data.apply_update(update);
        self.data[entity_index].last_updated = now;
        proof {
            let e = self.entries()[entity_index as int];
            let o = old(self).entries()[entity_index as int];
            assert(e.data.dirty_consistent()) by {
                if !e.data.dirty() {
                    assert(!o.data.dirty());
                    assert(o.data.dirty_consistent());
                    assert forall|i: int| 0 <= i < e.data.fields().len() implies !(
                    #[trigger] e.data.fields()[i]).dirty() by {
                        let af = applied_fields(o.data.fields(), update.ufields());
                        assert(e.data.fields()[i] == af[i]);
                        match update.ufields()[i] {
                            Some(v) => {
                                assert(af[i] == Property::spec_clean(v));
                            },
                            None => {
                                assert(af[i] == o.data.fields()[i]);
                                assert(!(o.data.fields()[i]).dirty());
                            },
                        }
                    }
                    assert forall|i: int| 0 <= i < e.data.events().len() implies (
                    #[trigger] e.data.events()[i]).staged().len() == 0 by {
                        assert(e.data.events()[i].staged() == o.data.events()[i].staged());
                    }
                }
            }
            if !self.has_events() {
                assert forall|i: int| 0 <= i < self.entries().len() implies (
                #[trigger] self.entries()[i]).data.no_received_events() by {
                    if i == entity_index as int {
                        assert(!update.spec_contains_events());
                        assert forall|k: int| 0 <= k < e.data.events().len() implies (
                        #[trigger] e.data.events()[k]).received().len() == 0 by {
                            assert(update.uevents()[k].len() == 0);
                            assert(o.data.events()[k].received().len() == 0);
                        }
                    }
                }
            }
        }
        contains_events
    }

    /// Replicates this column: appends to `out` one update message per dirty
    /// slot, ascending, carrying exactly the slot's dirty fields and staged
    /// events, and leaves every slot clean.  A clean column appends nothing.
    pub fn replicate(&mut self, entity_ids: &Vec<EntityId>, out: &mut Vec<OutgoingMessage>)
        requires
            old(self).wf(),
            entity_ids@.len() == old(self).entries().len(),
        ensures
            final(self).wf(),
            final(self).replicated_clean(),
            final(self).cid() == old(self).cid(),
            final(self).nfields() == old(self).nfields(),
            final(self).nevents() == old(self).nevents(),
            final(self).has_events() == old(self).has_events(),
            final(self).auth() == old(self).auth(),
            final(self).entries().len() == old(self).entries().len(),
            forall|i: int|
                0 <= i < old(self).entries().len() ==> {
                    let e = #[trigger] final(self).entries()[i];
                    let o = old(self).entries()[i];
                    e.last_updated == o.last_updated && e.data.fields() == cleaned_fields(
                        o.data.fields(),
                    ) && e.data.events().len() == o.data.events().len() && !e.data.dirty()
                },
            forall|i: int, k: int|
                0 <= i < old(self).entries().len() && 0 <= k < old(self).entries()[
                    i
                ].data.events().len() ==> (#[trigger] final(self).entries()[i].data.events()[
                    k
                ]).received() == old(self).entries()[i].data.events()[k].received(),
            final(out)@.len() == old(out)@.len() + dirty_slots(old(self).entries()).len(),
            forall|k: int|
                0 <= k < old(out)@.len() ==> final(out)@[k] == old(out)@[k],
            forall|k: int|
                0 <= k < dirty_slots(old(self).entries()).len() ==> {
                    let s = dirty_slots(old(self).entries())[k];
                    is_update_msg(
                        #[trigger] final(out)@[old(out)@.len() + k],
                        entity_ids@[s],
                        old(self).cid(),
                        extracted_fields(old(self).entries()[s].data.fields()),
                        staged_events_of(old(self).entries()[s].data.events()),
                    )
                },
    {
        let ghost out0 = out@;
        let ghost pre = *self;
        if !self.is_dirty {
            proof {
                lemma_dirty_slots_empty(self.entries());
                assert forall|i: int| 0 <= i < self.entries().len() implies {
                    let e = #[trigger] self.entries()[i];
                    e.data.fields() == cleaned_fields(e.data.fields()) && e.data.fields_clean()
                        && e.data.no_staged_events()
                } by {
                    let e = self.entries()[i];
                    assert(!e.data.dirty());
                    assert(e.data.dirty_consistent());
                    assert(e.data.fields() =~= cleaned_fields(e.data.fields()));
                }
            }
            return ;
        }
        let n = self.data.len();
        let mut index: usize = 0;
        while index < n
            invariant
                pre.wf(),
                n == self.entries().len(),
                n == pre.entries().len(),
                index <= n,
                entity_ids@.len() == n,
                self.cid() == pre.cid(),
                self.nfields() == pre.nfields(),
                self.nevents() == pre.nevents(),
                self.has_events() == pre.has_events(),
                self.dirty() == pre.dirty(),
                self.auth() == pre.auth(),
                self.entries_fit(),
                forall|i: int|
                    0 <= i < index ==> {
                        let e = #[trigger] self.entries()[i];
                        let o = pre.entries()[i];
                        e.last_updated == o.last_updated && e.data.fields() == cleaned_fields(
                            o.data.fields(),
                        ) && e.data.events().len() == o.data.events().len() && !e.data.dirty()
                            && e.data.fields_clean() && e.data.no_staged_events()
                            && e.data.dirty_consistent()
                    },
                forall|i: int, k: int|
                    0 <= i < index && 0 <= k < pre.entries()[i].data.events().len() ==> (
                    #[trigger] self.entries()[i].data.events()[k]).received() == pre.entries()[
                        i
                    ].data.events()[k].received(),
                forall|i: int| index <= i < n ==> self.entries()[i] == pre.entries()[i],
                out@.len() == out0.len() + dirty_slots(pre.entries().take(index as int)).len(),
                forall|k: int| 0 <= k < out0.len() ==> out@[k] == out0[k],
                forall|k: int|
                    0 <= k < dirty_slots(pre.entries().take(index as int)).len() ==> {
                        let s = dirty_slots(pre.entries().take(index as int))[k];
                        is_update_msg(
                            #[trigger] out@[out0.len() + k],
                            entity_ids@[s],
                            pre.cid(),
                            extracted_fields(pre.entries()[s].data.fields()),
                            staged_events_of(pre.entries()[s].data.events()),
                        )
                    },
            decreases n - index,
        {
            proof {
                lemma_dirty_slots_step(pre.entries(), index as int);
                lemma_dirty_slots_in_range(pre.entries().take(index as int));
            }
            let was_dirty = self.data[index].data.get_and_clear_dirty_bit();
            if was_dirty {
                let update = self.data[index].data.take_update();
                let entity_id = entity_ids[index];
                out.push(
                    OutgoingMessage::ComponentUpdate {
                        entity_id,
                        component_id: self.component_id,
                        update,
                    },
                );
            } else {
                proof {
                    let o = pre.entries()[index as int];
                    assert(o.data.dirty_consistent());
                    assert(self.entries()[index as int].data.fields() =~= cleaned_fields(
                        o.data.fields(),
                    ));
                }
            }
            index = index + 1;
        }
        self.is_dirty = false;
        proof {
            assert(pre.entries().take(n as int) =~= pre.entries());
        }
    }

    /// Clears every slot's received events at the end of a tick; staged
    /// events, field values, and dirty state are untouched.
    pub fn cleanup_after_frame(&mut self)
        requires
            old(self).wf(),
        ensures
            final(self).wf(),
            final(self).cid() == old(self).cid(),
            final(self).nfields() == old(self).nfields(),
            final(self).nevents() == old(self).nevents(),
            final(self).dirty() == old(self).dirty(),
            !final(self).has_events(),
            final(self).auth() == old(self).auth(),
            final(self).entries().len() == old(self).entries().len(),
            forall|i: int|
                0 <= i < old(self).entries().len() ==> {
                    let e = #[trigger] final(self).entries()[i];
                    let o = old(self).entries()[i];
                    e.last_updated == o.last_updated && e.data.fields() == o.data.fields()
                        && e.data.dirty() == o.data.dirty() && e.data.events().len()
                        == o.data.events().len() && e.data.no_received_events()
                },
            forall|i: int, k: int|
                0 <= i < old(self).entries().len() && 0 <= k < old(self).entries()[
                    i
                ].data.events().len() ==> (#[trigger] final(self).entries()[i].data.events()[
                    k
                ]).staged() == old(self).entries()[i].data.events()[k].staged(),
    {
        let ghost pre = *self;
        if self.has_events_this_frame {
            let n = self.data.len();
            let mut index: usize = 0;
            while index < n
                invariant
                    pre.wf(),
                    n == self.entries().len(),
                    n == pre.entries().len(),
                    index <= n,
                    self.cid() == pre.cid(),
                    self.nfields() == pre.nfields(),
                    self.nevents() == pre.nevents(),
                    self.has_events() == pre.has_events(),
                    self.dirty() == pre.dirty(),
                    self.auth() == pre.auth(),
                    self.entries_fit(),
                    forall|i: int|
                        0 <= i < index ==> {
                            let e = #[trigger] self.entries()[i];
                            let o = pre.entries()[i];
                            e.last_updated == o.last_updated && e.data.fields() == o.data.fields()
                                && e.data.dirty() == o.data.dirty() && e.data.events().len()
                                == o.data.events().len() && e.data.no_received_events()
                                && e.data.dirty_consistent()
                        },
                    forall|i: int, k: int|
                        0 <= i < index && 0 <= k < pre.entries()[i].data.events().len() ==> (
                        #[trigger] self.entries()[i].data.events()[k]).staged() == pre.entries()[
                            i
                        ].data.events()[k].staged(),
                    forall|i: int| index <= i < n ==> self.entries()[i] == pre.entries()[i],
                decreases n - index,
            {
                self.data[index].data.cleanup_after_frame();
                proof {
                    let e = self.entries()[index as int];
                    let o = pre.entries()[index as int];
                    assert(e.data.dirty_consistent()) by {
                        if !e.data.dirty() {
                            assert(o.data.dirty_consistent());
                            assert forall|k: int| 0 <= k < e.data.events().len() implies (
                            #[trigger] e.data.events()[k]).staged().len() == 0 by {
                                assert(e.data.events()[k].staged() == o.data.events()[k].staged());
                            }
                        }
                    }
                }
                index = index + 1;
            }
            self.has_events_this_frame = false;
        } else {
            proof {
                assert forall|i: int| 0 <= i < self.entries().len() implies (
                #[trigger] self.entries()[i]).data.no_received_events() by {}
            }
        }
    }

    /// Whether the worker holds authority over this component at one slot.
    pub fn auth_bit(&self, entity_index: usize) -> (r: bool)
        requires
            entity_index < self.auth().len(),
        ensures
            r == self.auth()[entity_index as int],
    {
        self.authority[entity_index]
    }

    /// Whether any slot received events this tick.
    pub fn has_events_this_frame(&self) -> (r: bool)
        ensures
            r == self.has_events(),
    {
        self.has_events_this_frame
    }

    /// Whether any slot's data was mutated locally since the last replicate.
    pub fn is_dirty(&self) -> (r: bool)
        ensures
            r == self.dirty(),
    {
        self.is_dirty
    }

    /// Appends an extracted record, keeping its timestamp; dirty state it
    /// carries raises the column's dirty flag and buffered events raise the
    /// events flag, so nothing owed to the fabric is lost by a move between
    /// chunks.
    pub fn push_record(&mut self, entry: ComponentDataEntry, authority: bool)
        requires
            old(self).wf(),
            entry.data.fields().len() == old(self).nfields(),
            entry.data.events().len() == old(self).nevents(),
            entry.data.dirty_consistent(),
        ensures
            final(self).wf(),
            final(self).cid() == old(self).cid(),
            final(self).nfields() == old(self).nfields(),
            final(self).nevents() == old(self).nevents(),
            final(self).dirty() == (old(self).dirty() || entry.data.dirty()),
            final(self).has_events() == (old(self).has_events()
                || !entry.data.no_received_events()),
            final(self).entries() == old(self).entries().push(entry),
            final(self).auth() == old(self).auth().push(authority),
    {
        if entry.data.is_dirty {
            self.is_dirty = true;
        }
        let mut k: usize = 0;
        let num_events = entry.data.num_events();
        let mut any_received = false;
        while k < num_events
            invariant
                k <= num_events,
                num_events == entry.data.events().len(),
                any_received == !(forall|i: int|
                    0 <= i < k ==> (#[trigger] entry.data.events()[i]).received().len() == 0),
            decreases num_events - k,
        {
            if entry.data.events[k].get_received_events().len() > 0 {
                any_received = true;
            }
            k = k + 1;
        }
        if any_received {
            self.has_events_this_frame = true;
        }
        proof {
            if !any_received {
                assert(entry.data.no_received_events());
            } else {
                assert(!entry.data.no_received_events());
            }
        }
        self.data.push(entry);
        self.authority.push(authority);
    }

    /// Takes the record and authority bit of the last slot out of the
    /// column.
    pub fn pop_entry(&mut self) -> (r: (ComponentDataEntry, bool))
        requires
            old(self).wf(),
            old(self).entries().len() > 0,
        ensures
            final(self).wf(),
            final(self).cid() == old(self).cid(),
            final(self).nfields() == old(self).nfields(),
            final(self).nevents() == old(self).nevents(),
            final(self).dirty() == old(self).dirty(),
            final(self).has_events() == old(self).has_events(),
            final(self).entries() == old(self).entries().drop_last(),
            final(self).auth() == old(self).auth().drop_last(),
            r.0 == old(self).entries().last(),
            r.1 == old(self).auth().last(),
    {
        let entry = match self.data.pop() {
            Some(entry) => entry,
            None => {
                proof {
                    assert(false);
                }
                ComponentDataEntry { data: ComponentData::new(0, 0), last_updated: WorldTime::new() }
            },
        };
        let authority = match self.authority.pop() {
            Some(authority) => authority,
            None => {
                proof {
                    assert(false);
                }
                false
            },
        };
        proof {
            assert(self.entries() =~= old(self).entries().drop_last());
            assert(self.auth() =~= old(self).auth().drop_last());
        }
        (entry, authority)
    }

    /// Drops the record and authority bit of the last slot.
    pub fn pop_entity(&mut self)
        requires
            old(self).wf(),
            old(self).entries().len() > 0,
        ensures
            final(self).wf(),
            final(self).cid() == old(self).cid(),
            final(self).nfields() == old(self).nfields(),
            final(self).nevents() == old(self).nevents(),
            final(self).dirty() == old(self).dirty(),
            final(self).has_events() == old(self).has_events(),
            final(self).entries() == old(self).entries().drop_last(),
            final(self).auth() == old(self).auth().drop_last(),
    {
        let _ = self.data.pop();
        let _ = self.authority.pop();
        proof {
            assert(self.entries() =~= old(self).entries().drop_last());
            assert(self.auth() =~= old(self).auth().drop_last());
        }
    }

    /// Exchanges the records and authority bits of two slots.
    pub fn swap_entity(&mut self, from: usize, to: usize)
        requires
            old(self).wf(),
            from < old(self).entries().len(),
            to < old(self).entries().len(),
        ensures
            final(self).wf(),
            final(self).cid() == old(self).cid(),
            final(self).nfields() == old(self).nfields(),
            final(self).nevents() == old(self).nevents(),
            final(self).dirty() == old(self).dirty(),
            final(self).has_events() == old(self).has_events(),
            final(self).entries() == old(self).entries().update(
                from as int,
                old(self).entries()[to as int],
            ).update(to as int, old(self).entries()[from as int]),
            final(self).auth() == old(self).auth().update(
                from as int,
                old(self).auth()[to as int],
            ).update(to as int, old(self).auth()[from as int]),
    {
        if from == to {
            proof {
                assert(self.entries() =~= old(self).entries().update(
                    from as int,
                    old(self).entries()[to as int],
                ).update(to as int, old(self).entries()[from as int]));
                assert(self.auth() =~= old(self).auth().update(
                    from as int,
                    old(self).auth()[to as int],
                ).update(to as int, old(self).auth()[from as int]));
            }
            return ;
        }
        let mut tmp = ComponentDataEntry {
            data: ComponentData::new(0, 0),
            last_updated: WorldTime::new(),
        };
        self.data.set_and_swap(from, &mut tmp);
        self.data.set_and_swap(to, &mut tmp);
        self.data.set_and_swap(from, &mut tmp);
        let a_from = self.authority[from];
        let a_to = self.authority[to];
        self.authority.set(from, a_to);
        self.authority.set(to, a_from);
        proof {
            assert(self.entries() =~= old(self).entries().update(
                from as int,
                old(self).entries()[to as int],
            ).update(to as int, old(self).entries()[from as int]));
            assert(self.auth() =~= old(self).auth().update(
                from as int,
                old(self).auth()[to as int],
            ).update(to as int, old(self).auth()[from as int]));
        }
    }
}

} // verus!
