//! The dynamic component payload model.
//!
//! A component's `Data` is a row of scalar fields plus a row of event
//! buffers; its `Update` is the matching delta: one optional value per field
//! and one list of payloads per event.  Each scalar field carries its own
//! dirty bit, set by any mutating access and consumed by replication.  Each
//! event buffer keeps *received* events (produced by applying an inbound
//! update, visible for one tick) apart from *staged* events (produced by
//! local triggers, drained by replication).

use vstd::prelude::*;

verus! {

/// One scalar field of a component's data, carrying its own dirty bit.
///
/// The dirty bit is set by every mutating access and cleared when the field
/// is overwritten by an inbound update or drained into an outbound one.
#[derive(Clone, Copy, PartialEq, Eq, Structural, Debug)]
pub struct Property {
    pub value: i64,
    pub is_dirty: bool,
}

impl Property {
    /// The value the field holds.
    pub open spec fn value(self) -> i64 {
        self.value
    }

    /// Whether the field was mutated locally since the last replication.
    pub open spec fn dirty(self) -> bool {
        self.is_dirty
    }

    /// The field holding `v` with a clear dirty bit.
    pub open spec fn spec_clean(v: i64) -> Property {
        Property { value: v, is_dirty: false }
    }

    /// A clean field holding `value`.
    pub fn new(value: i64) -> (r: Property)
        ensures
            r == Property::spec_clean(value),
            r.value() == value,
            !r.dirty(),
    {
        Property { value, is_dirty: false }
    }

    /// The current value.
    pub fn get(&self) -> (r: i64)
        ensures
            r == self.value(),
    {
        self.value
    }

    /// Overwrites the value and marks the field dirty.
    pub fn set(&mut self, value: i64)
        ensures
            final(self).value() == value,
            final(self).dirty(),
    {
        self.value = value;
        self.is_dirty = true;
    }

    /// Whether the field is dirty.
    pub fn get_dirty_bit(&self) -> (r: bool)
        ensures
            r == self.dirty(),
    {
        self.is_dirty
    }

    /// Reads the dirty bit and clears it.
    pub fn get_and_clear_dirty_bit(&mut self) -> (r: bool)
        ensures
            r == old(self).dirty(),
            final(self).value() == old(self).value(),
            !final(self).dirty(),
    {
        let dirty = self.is_dirty;
        self.is_dirty = false;
        dirty
    }
}

/// One event buffer of a component's data.
///
/// Received events came in with fabric updates and are visible to systems
/// for the rest of the tick; staged events were triggered locally and wait
/// to be drained into the next outbound update.
#[derive(Debug)]
pub struct Event {
    pub received: Vec<i64>,
    pub staged: Vec<i64>,
}

impl Event {
    /// The events received from the fabric this tick, in arrival order.
    pub open spec fn received(self) -> Seq<i64> {
        self.received@
    }

    /// The locally triggered events awaiting replication, in trigger order.
    pub open spec fn staged(self) -> Seq<i64> {
        self.staged@
    }

    /// An empty buffer.
    pub fn new() -> (r: Event)
        ensures
            r.received() == Seq::<i64>::empty(),
            r.staged() == Seq::<i64>::empty(),
    {
        Event { received: Vec::new(), staged: Vec::new() }
    }

    /// Appends an event received from the fabric.
    pub fn add_event(&mut self, value: i64)
        ensures
            final(self).received() == old(self).received().push(value),
            final(self).staged() == old(self).staged(),
    {
        self.received.push(value);
    }

    /// Stages a locally triggered event for replication.
    pub fn trigger(&mut self, value: i64)
        ensures
            final(self).received() == old(self).received(),
            final(self).staged() == old(self).staged().push(value),
    {
        self.staged.push(value);
    }

    /// Clears the received events at the end of a tick.
    pub fn clear(&mut self)
        ensures
            final(self).received() == Seq::<i64>::empty(),
            final(self).staged() == old(self).staged(),
    {
        self.received.clear();
    }

    /// The staged events, in trigger order.
    pub fn get_staged_events(&self) -> (r: &Vec<i64>)
        ensures
            r@ == self.staged(),
    {
        &self.staged
    }

    /// The received events, in arrival order.
    pub fn get_received_events(&self) -> (r: &Vec<i64>)
        ensures
            r@ == self.received(),
    {
        &self.received
    }

    /// Clears the staged events once they were drained.
    pub fn clear_staged_events(&mut self)
        ensures
            final(self).received() == old(self).received(),
            final(self).staged() == Seq::<i64>::empty(),
    {
        self.staged.clear();
    }
}

/// The delta form of a component: one optional value per scalar field and
/// one payload list per event buffer.
#[derive(Debug)]
pub struct ComponentUpdate {
    pub fields: Vec<Option<i64>>,
    pub events: Vec<Vec<i64>>,
}

impl ComponentUpdate {
    /// The optional new value of each field.
    pub open spec fn ufields(self) -> Seq<Option<i64>> {
        self.fields@
    }

    /// The event payloads the update carries, per event buffer.
    pub open spec fn uevents(self) -> Seq<Seq<i64>> {
        Seq::new(self.events@.len(), |i: int| self.events@[i]@)
    }

    /// True if any event buffer of the update carries a payload.
    pub open spec fn spec_contains_events(self) -> bool {
        exists|i: int| 0 <= i < self.uevents().len() && self.uevents()[i].len() > 0
    }

    /// An update that changes no field and carries no event.
    pub fn new_empty(num_fields: usize, num_events: usize) -> (r: ComponentUpdate)
        ensures
            r.ufields().len() == num_fields,
            forall|i: int| 0 <= i < num_fields ==> r.ufields()[i] == None::<i64>,
            r.uevents().len() == num_events,
            forall|i: int| 0 <= i < num_events ==> r.uevents()[i] == Seq::<i64>::empty(),
            !r.spec_contains_events(),
    {
        let mut fields: Vec<Option<i64>> = Vec::new();
        let mut i: usize = 0;
        while i < num_fields
            invariant
                i <= num_fields,
                fields@.len() == i,
                forall|j: int| 0 <= j < i ==> fields@[j] == None::<i64>,
            decreases num_fields - i,
        {
            fields.push(None);
            i = i + 1;
        }
        let mut events: Vec<Vec<i64>> = Vec::new();
        let mut j: usize = 0;
        while j < num_events
            invariant
                j <= num_events,
                events@.len() == j,
                forall|k: int| 0 <= k < j ==> (#[trigger] events@[k])@ == Seq::<i64>::empty(),
            decreases num_events - j,
        {
            events.push(Vec::new());
            j = j + 1;
        }
        let r = ComponentUpdate { fields, events };
        proof {
            assert(forall|i: int| 0 <= i < num_events ==> r.uevents()[i] =~= Seq::<i64>::empty());
        }
        r
    }

    /// Sets the new value the update carries for field `index`.
    pub fn set_field(&mut self, index: usize, value: i64)
        requires
            index < old(self).ufields().len(),
        ensures
            final(self).ufields() == old(self).ufields().update(index as int, Some(value)),
            final(self).uevents() == old(self).uevents(),
    {
        self.fields[index] = Some(value);
    }

    /// Appends an event payload to buffer `index` of the update.
    pub fn add_event(&mut self, index: usize, value: i64)
        requires
            index < old(self).uevents().len(),
        ensures
            final(self).ufields() == old(self).ufields(),
            final(self).uevents() == old(self).uevents().update(
                index as int,
                old(self).uevents()[index as int].push(value),
            ),
    {
        let ghost pre = *self;
        self.events[index].push(value);
        proof {
            assert(self.uevents() =~= pre.uevents().update(
                index as int,
                pre.uevents()[index as int].push(value),
            ));
        }
    }

    /// The number of scalar fields the update covers.
    pub fn num_fields(&self) -> (r: usize)
        ensures
            r == self.ufields().len(),
    {
        self.fields.len()
    }

    /// The number of event buffers the update covers.
    pub fn num_events(&self) -> (r: usize)
        ensures
            r == self.uevents().len(),
    {
        self.events.len()
    }

    /// The value the update carries for field `index`, if any.
    pub fn get_field(&self, index: usize) -> (r: Option<i64>)
        requires
            index < self.ufields().len(),
        ensures
            r == self.ufields()[index as int],
    {
        self.fields[index]
    }

    /// The event payloads the update carries in buffer `index`.
    pub fn get_events(&self, index: usize) -> (r: &Vec<i64>)
        requires
            index < self.uevents().len(),
        ensures
            r@ == self.uevents()[index as int],
    {
        &self.events[index]
    }

    /// True if any event buffer of the update carries a payload.
    pub fn contains_events(&self) -> (r: bool)
        ensures
            r == self.spec_contains_events(),
    {
        let mut i: usize = 0;
        while i < self.events.len()
            invariant
                i <= self.uevents().len(),
                forall|j: int| 0 <= j < i ==> self.uevents()[j].len() == 0,
            decreases self.events.len() - i,
        {
            if self.events[i].len() > 0 {
                proof {
                    assert(self.uevents()[i as int].len() > 0);
                }
                return true;
            }
            i = i + 1;
        }
        false
    }
}

/// The fields of `fs` after merging the optional values of `uf`: a carried
/// value overwrites the field and leaves it clean, an absent one keeps it.
pub open spec fn applied_fields(fs: Seq<Property>, uf: Seq<Option<i64>>) -> Seq<Property> {
    Seq::new(
        fs.len(),
        |i: int|
            match uf[i] {
                Some(v) => Property::spec_clean(v),
                None => fs[i],
            },
    )
}

/// The fields of `fs` with every dirty bit cleared and every value kept.
pub open spec fn cleaned_fields(fs: Seq<Property>) -> Seq<Property> {
    Seq::new(fs.len(), |i: int| Property::spec_clean(fs[i].value()))
}

/// The delta the fields of `fs` owe the fabric: the value of every dirty
/// field, nothing for the clean ones.
pub open spec fn extracted_fields(fs: Seq<Property>) -> Seq<Option<i64>> {
    Seq::new(
        fs.len(),
        |i: int|
            if fs[i].dirty() {
                Some(fs[i].value())
            } else {
                None
            },
    )
}

/// The staged events of every buffer, in buffer order.
pub open spec fn staged_events_of(evs: Seq<Event>) -> Seq<Seq<i64>> {
    Seq::new(evs.len(), |i: int| evs[i].staged())
}

/// One component's data: scalar fields, event buffers, and the data-level
/// dirty flag that replication consumes.
#[derive(Debug)]
pub struct ComponentData {
    pub is_dirty: bool,
    pub fields: Vec<Property>,
    pub events: Vec<Event>,
}

impl ComponentData {
    /// Whether any mutating access touched this data since the last
    /// replication.
    pub open spec fn dirty(self) -> bool {
        self.is_dirty
    }

    /// The scalar fields.
    pub open spec fn fields(self) -> Seq<Property> {
        self.fields@
    }

    /// The event buffers.
    pub open spec fn events(self) -> Seq<Event> {
        self.events@
    }

    /// No field carries a dirty bit.
    pub open spec fn fields_clean(self) -> bool {
        forall|i: int| 0 <= i < self.fields().len() ==> !(#[trigger] self.fields()[i]).dirty()
    }

    /// No event buffer holds staged events.
    pub open spec fn no_staged_events(self) -> bool {
        forall|i: int| 0 <= i < self.events().len() ==> (#[trigger] self.events()[i]).staged().len()
            == 0
    }

    /// No event buffer holds received events.
    pub open spec fn no_received_events(self) -> bool {
        forall|i: int|
            0 <= i < self.events().len() ==> (#[trigger] self.events()[i]).received().len() == 0
    }

    /// The data-level dirty flag covers every finer-grained one: while it is
    /// clear, no field is dirty and nothing is staged.
    pub open spec fn dirty_consistent(self) -> bool {
        !self.dirty() ==> self.fields_clean() && self.no_staged_events()
    }

    /// The field values, in field order: the snapshot form of the data.
    pub open spec fn snapshot_of(self) -> Seq<i64> {
        Seq::new(self.fields().len(), |i: int| self.fields()[i].value())
    }

    /// Fresh data with `num_fields` clean zero fields and `num_events`
    /// empty event buffers.
    pub fn new(num_fields: usize, num_events: usize) -> (r: ComponentData)
        ensures
            r.fields() == Seq::new(num_fields as nat, |i: int| Property::spec_clean(0)),
            r.events().len() == num_events,
            r.no_staged_events(),
            r.no_received_events(),
            !r.dirty(),
            r.dirty_consistent(),
    {
        let mut fields: Vec<Property> = Vec::new();
        let mut i: usize = 0;
        while i < num_fields
            invariant
                i <= num_fields,
                fields@ =~= Seq::new(i as nat, |j: int| Property::spec_clean(0)),
            decreases num_fields - i,
        {
            fields.push(Property::new(0));
            i = i + 1;
        }
        let mut events: Vec<Event> = Vec::new();
        let mut j: usize = 0;
        while j < num_events
            invariant
                j <= num_events,
                events@.len() == j,
                forall|k: int|
                    0 <= k < j ==> (#[trigger] events@[k]).staged().len() == 0 && events@[
                        k
                    ].received().len() == 0,
            decreases num_events - j,
        {
            events.push(Event::new());
            j = j + 1;
        }
        proof {
            assert(fields@ =~= Seq::new(num_fields as nat, |i: int| Property::spec_clean(0)));
        }
        ComponentData { is_dirty: false, fields, events }
    }

    /// The number of scalar fields.
    pub fn num_fields(&self) -> (r: usize)
        ensures
            r == self.fields().len(),
    {
        self.fields.len()
    }

    /// The number of event buffers.
    pub fn num_events(&self) -> (r: usize)
        ensures
            r == self.events().len(),
    {
        self.events.len()
    }

    /// The value of field `index`.
    pub fn get_field(&self, index: usize) -> (r: i64)
        requires
            index < self.fields().len(),
        ensures
            r == self.fields()[index as int].value(),
    {
        self.fields[index].get()
    }

    /// Overwrites field `index` and marks both the field and the data dirty.
    pub fn set_field(&mut self, index: usize, value: i64)
        requires
            index < old(self).fields().len(),
        ensures
            final(self).fields().len() == old(self).fields().len(),
            final(self).fields()[index as int].value() == value,
            final(self).fields()[index as int].dirty(),
            forall|i: int|
                0 <= i < old(self).fields().len() && i != index ==> final(self).fields()[i] == old(
                    self,
                ).fields()[i],
            final(self).events() == old(self).events(),
            final(self).dirty(),
    {
        self.is_dirty = true;
        self.fields[index].set(value);
    }

    /// Stages an event on buffer `index` and marks the data dirty.
    pub fn trigger_event(&mut self, index: usize, value: i64)
        requires
            index < old(self).events().len(),
        ensures
            final(self).fields() == old(self).fields(),
            final(self).events().len() == old(self).events().len(),
            final(self).events()[index as int].staged() == old(self).events()[
                index as int
            ].staged().push(value),
            final(self).events()[index as int].received() == old(self).events()[
                index as int
            ].received(),
            forall|i: int|
                0 <= i < old(self).events().len() && i != index ==> final(self).events()[i] == old(
                    self,
                ).events()[i],
            final(self).dirty(),
    {
        self.is_dirty = true;
        self.events[index].trigger(value);
    }

    /// Marks the data dirty, as every mutable view of it must.
    pub fn make_dirty(&mut self)
        ensures
            final(self).fields() == old(self).fields(),
            final(self).events() == old(self).events(),
            final(self).dirty(),
    {
        self.is_dirty = true;
    }

    /// Reads the data-level dirty flag and clears it.
    pub fn get_and_clear_dirty_bit(&mut self) -> (r: bool)
        ensures
            r == old(self).dirty(),
            final(self).fields() == old(self).fields(),
            final(self).events() == old(self).events(),
            !final(self).dirty(),
    {
        let dirty = self.is_dirty;
        self.is_dirty = false;
        dirty
    }

    /// Merges an inbound update: every carried field value overwrites its
    /// field (leaving it clean), every carried event payload is appended to
    /// the received side of its buffer.  Staged events and the data-level
    /// dirty flag are untouched.
    pub fn apply_update(&mut self, update: &ComponentUpdate)
        requires
            update.ufields().len() == old(self).fields().len(),
            update.uevents().len() == old(self).events().len(),
        ensures
            final(self).fields() == applied_fields(old(self).fields(), update.ufields()),
            final(self).events().len() == old(self).events().len(),
            forall|i: int|
                0 <= i < old(self).events().len() ==> (#[trigger] final(self).events()[
                    i
                ]).received() == old(self).events()[i].received() + update.uevents()[i]
                    && final(self).events()[i].staged() == old(self).events()[i].staged(),
            final(self).dirty() == old(self).dirty(),
    {
        let num_fields = self.fields.len();
        let mut i: usize = 0;
        while i < num_fields
            invariant
                num_fields == self.fields().len(),
                num_fields == old(self).fields().len(),
                i <= num_fields,
                update.ufields().len() == num_fields,
                update.uevents().len() == old(self).events().len(),
                self.events() == old(self).events(),
                self.dirty() == old(self).dirty(),
                forall|j: int|
                    0 <= j < i ==> #[trigger] self.fields()[j] == applied_fields(
                        old(self).fields(),
                        update.ufields(),
                    )[j],
                forall|j: int| i <= j < num_fields ==> self.fields()[j] == old(self).fields()[j],
            decreases num_fields - i,
        {
            match update.get_field(i) {
                Some(v) => {
                    self.fields[i] = Property::new(v);
                },
                None => {},
            }
            i = i + 1;
        }
        let num_events = self.events.len();
        let mut j: usize = 0;
        while j < num_events
            invariant
                num_events == self.events().len(),
                num_events == old(self).events().len(),
                j <= num_events,
                update.uevents().len() == num_events,
                self.fields() == applied_fields(old(self).fields(), update.ufields()),
                self.dirty() == old(self).dirty(),
                forall|k: int|
                    0 <= k < j ==> (#[trigger] self.events()[k]).received() == old(self).events()[
                        k
                    ].received() + update.uevents()[k] && self.events()[k].staged() == old(
                        self,
                    ).events()[k].staged(),
                forall|k: int| j <= k < num_events ==> self.events()[k] == old(self).events()[k],
            decreases num_events - j,
        {
            let payloads = update.get_events(j);
            let mut p: usize = 0;
            let ghost base = self.events()[j as int];
            while p < payloads.len()
                invariant
                    p <= payloads@.len(),
                    j < num_events == self.events().len(),
                    self.fields() == applied_fields(old(self).fields(), update.ufields()),
                    self.dirty() == old(self).dirty(),
                    payloads@ == update.uevents()[j as int],
                    (#[trigger] self.events()[j as int]).received() == base.received()
                        + payloads@.subrange(0, p as int),
                    self.events()[j as int].staged() == base.staged(),
                    forall|k: int|
                        0 <= k < j ==> (#[trigger] self.events()[k]).received() == old(
                            self,
                        ).events()[k].received() + update.uevents()[k] && self.events()[k].staged()
                            == old(self).events()[k].staged(),
                    forall|k: int| j < k < num_events ==> self.events()[k] == old(self).events()[k],
                decreases payloads@.len() - p,
            {
                let v = payloads[p];
                self.events[j].add_event(v);
                proof {
                    assert(payloads@.subrange(0, p + 1 as int) =~= payloads@.subrange(
                        0,
                        p as int,
                    ).push(v));
                }
                p = p + 1;
            }
            proof {
                assert(payloads@.subrange(0, payloads@.len() as int) =~= payloads@);
            }
            j = j + 1;
        }
    }

    /// Drains the dirty state into an outbound update: every dirty field
    /// contributes its value and comes out clean, every staged event list is
    /// moved into the update.  Received events and the data-level dirty flag
    /// are untouched.
    pub fn take_update(&mut self) -> (r: ComponentUpdate)
        ensures
            r.ufields() == extracted_fields(old(self).fields()),
            r.uevents() == staged_events_of(old(self).events()),
            r.ufields().len() == old(self).fields().len(),
            r.uevents().len() == old(self).events().len(),
            forall|i: int|
                0 <= i < old(self).fields().len() ==> r.ufields()[i] == if old(self).fields()[
                    i
                ].dirty() {
                    Some(old(self).fields()[i].value())
                } else {
                    None::<i64>
                },
            forall|i: int|
                0 <= i < old(self).events().len() ==> r.uevents()[i] == old(self).events()[
                    i
                ].staged(),
            final(self).fields() == cleaned_fields(old(self).fields()),
            final(self).events().len() == old(self).events().len(),
            forall|i: int|
                0 <= i < old(self).events().len() ==> (#[trigger] final(self).events()[
                    i
                ]).received() == old(self).events()[i].received() && final(self).events()[
                    i
                ].staged().len() == 0,
            final(self).dirty() == old(self).dirty(),
            final(self).fields_clean(),
            final(self).no_staged_events(),
    {
        let num_fields = self.fields.len();
        let num_events = self.events.len();
        let mut r = ComponentUpdate::new_empty(num_fields, num_events);
        let mut i: usize = 0;
        while i < num_fields
            invariant
                num_fields == self.fields().len(),
                num_fields == old(self).fields().len(),
                i <= num_fields,
                r.ufields().len() == num_fields,
                r.uevents().len() == num_events,
                forall|k: int| 0 <= k < num_events ==> r.uevents()[k] == Seq::<i64>::empty(),
                self.events() == old(self).events(),
                self.dirty() == old(self).dirty(),
                forall|j: int|
                    0 <= j < i ==> r.ufields()[j] == if old(self).fields()[j].dirty() {
                        Some(old(self).fields()[j].value())
                    } else {
                        None::<i64>
                    },
                forall|j: int| i <= j < num_fields ==> r.ufields()[j] == None::<i64>,
                forall|j: int|
                    0 <= j < i ==> #[trigger] self.fields()[j] == Property::spec_clean(
                        old(self).fields()[j].value(),
                    ),
                forall|j: int| i <= j < num_fields ==> self.fields()[j] == old(self).fields()[j],
            decreases num_fields - i,
        {
            let dirty = self.fields[i].get_and_clear_dirty_bit();
            if dirty {
                let v = self.fields[i].get();
                r.set_field(i, v);
            }
            i = i + 1;
        }
        let mut j: usize = 0;
        while j < num_events
            invariant
                num_events == self.events().len(),
                num_events == old(self).events().len(),
                j <= num_events,
                r.ufields().len() == num_fields,
                r.uevents().len() == num_events,
                self.fields() == cleaned_fields(old(self).fields()),
                self.dirty() == old(self).dirty(),
                forall|k: int|
                    0 <= k < num_fields ==> r.ufields()[k] == if old(self).fields()[k].dirty() {
                        Some(old(self).fields()[k].value())
                    } else {
                        None::<i64>
                    },
                forall|k: int| 0 <= k < j ==> r.uevents()[k] == old(self).events()[k].staged(),
                forall|k: int| j <= k < num_events ==> r.uevents()[k] == Seq::<i64>::empty(),
                forall|k: int|
                    0 <= k < j ==> (#[trigger] self.events()[k]).received() == old(self).events()[
                        k
                    ].received() && self.events()[k].staged().len() == 0,
                forall|k: int| j <= k < num_events ==> self.events()[k] == old(self).events()[k],
            decreases num_events - j,
        {
            let ghost rf = r.ufields();
            let ghost prev_uevents = r.uevents();
            let num_staged = self.events[j].get_staged_events().len();
            let mut p: usize = 0;
            while p < num_staged
                invariant
                    p <= num_staged,
                    j < num_events,
                    num_events == self.events().len(),
                    r.uevents().len() == num_events,
                    r.ufields() == rf,
                    num_staged == self.events()[j as int].staged().len(),
                    r.uevents()[j as int] == self.events()[j as int].staged().subrange(
                        0,
                        p as int,
                    ),
                    forall|k: int|
                        0 <= k < num_events && k != j ==> r.uevents()[k] == prev_uevents[k],
                decreases num_staged - p,
            {
                let v = self.events[j].get_staged_events()[p];
                r.add_event(j, v);
                proof {
                    assert(self.events()[j as int].staged().subrange(0, p + 1 as int)
                        =~= self.events()[j as int].staged().subrange(0, p as int).push(v));
                }
                p = p + 1;
            }
            proof {
                assert(self.events()[j as int].staged().subrange(0, num_staged as int)
                    =~= self.events()[j as int].staged());
                assert(self.events()[j as int] == old(self).events()[j as int]);
                assert(r.uevents()[j as int] == old(self).events()[j as int].staged());
                assert forall|k: int| 0 <= k < j implies r.uevents()[k] == old(self).events()[
                    k
                ].staged() by {
                    assert(r.uevents()[k] == prev_uevents[k]);
                }
                assert forall|k: int| j + 1 <= k < num_events implies r.uevents()[k]
                    == Seq::<i64>::empty() by {
                    assert(r.uevents()[k] == prev_uevents[k]);
                }
            }
            self.events[j].clear_staged_events();
            j = j + 1;
        }
        proof {
            assert(r.ufields() =~= extracted_fields(old(self).fields()));
            assert(r.uevents() =~= staged_events_of(old(self).events()));
        }
        r
    }

    /// Clears the received events of every buffer at the end of a tick.
    pub fn cleanup_after_frame(&mut self)
        ensures
            final(self).fields() == old(self).fields(),
            final(self).events().len() == old(self).events().len(),
            forall|i: int|
                0 <= i < old(self).events().len() ==> (#[trigger] final(self).events()[
                    i
                ]).received().len() == 0 && final(self).events()[i].staged() == old(self).events()[
                    i
                ].staged(),
            final(self).dirty() == old(self).dirty(),
            final(self).no_received_events(),
    {
        let num_events = self.events.len();
        let mut j: usize = 0;
        while j < num_events
            invariant
                num_events == self.events().len(),
                num_events == old(self).events().len(),
                j <= num_events,
                self.fields() == old(self).fields(),
                self.dirty() == old(self).dirty(),
                forall|k: int|
                    0 <= k < j ==> (#[trigger] self.events()[k]).received().len() == 0
                        && self.events()[k].staged() == old(self).events()[k].staged(),
                forall|k: int| j <= k < num_events ==> self.events()[k] == old(self).events()[k],
            decreases num_events - j,
        {
            self.events[j].clear();
            j = j + 1;
        }
    }

    /// The field values in field order: the snapshot the fabric stores.
    pub fn serialise_data(&self) -> (r: Vec<i64>)
        ensures
            r@ == self.snapshot_of(),
    {
        let mut r: Vec<i64> = Vec::new();
        let mut i: usize = 0;
        while i < self.fields.len()
            invariant
                i <= self.fields().len(),
                r@ =~= self.snapshot_of().subrange(0, i as int),
            decreases self.fields().len() - i,
        {
            r.push(self.fields[i].get());
            i = i + 1;
        }
        proof {
            assert(r@ =~= self.snapshot_of());
        }
        r
    }

    /// Rebuilds data from a snapshot: clean fields holding the snapshot
    /// values and `num_events` empty event buffers.
    pub fn deserialise_data(values: &Vec<i64>, num_events: usize) -> (r: ComponentData)
        ensures
            r.snapshot_of() == values@,
            r.fields().len() == values@.len(),
            r.events().len() == num_events,
            !r.dirty(),
            r.fields_clean(),
            r.no_staged_events(),
            r.no_received_events(),
    {
        let mut d = ComponentData::new(values.len(), num_events);
        let mut i: usize = 0;
        while i < values.len()
            invariant
                d.fields().len() == values@.len(),
                d.events().len() == num_events,
                i <= values@.len(),
                !d.dirty(),
                d.no_staged_events(),
                d.no_received_events(),
                forall|j: int| 0 <= j < i ==> d.fields()[j] == Property::spec_clean(values@[j]),
                forall|j: int|
                    i <= j < values@.len() ==> d.fields()[j] == Property::spec_clean(0),
            decreases values@.len() - i,
        {
            d.fields[i] = Property::new(values[i]);
            i = i + 1;
        }
        proof {
            assert(d.snapshot_of() =~= values@);
            assert(d.fields_clean());
        }
        d
    }
}

/// Rebuilding a snapshot reproduces the data it came from: two data rows
/// without dirty state or buffered events that serialise to the same
/// snapshot agree on every field and every buffer.
pub proof fn lemma_snapshot_round_trip(d: ComponentData, r: ComponentData)
    requires
        d.fields_clean(),
        d.no_staged_events(),
        d.no_received_events(),
        r.fields_clean(),
        r.no_staged_events(),
        r.no_received_events(),
        r.snapshot_of() == d.snapshot_of(),
        r.events().len() == d.events().len(),
    ensures
        r.fields() == d.fields(),
        forall|i: int|
            0 <= i < d.events().len() ==> (#[trigger] r.events()[i]).received() == d.events()[
                i
            ].received() && r.events()[i].staged() == d.events()[i].staged(),
{
    assert(r.snapshot_of().len() == r.fields().len());
    assert(d.snapshot_of().len() == d.fields().len());
    assert(r.fields().len() == d.fields().len());
    assert forall|i: int| 0 <= i < d.fields().len() implies #[trigger] r.fields()[i] == d.fields()[
        i
    ] by {
        assert(d.snapshot_of()[i] == d.fields()[i].value());
        assert(r.snapshot_of()[i] == r.fields()[i].value());
        assert(!r.fields()[i].dirty() && !d.fields()[i].dirty());
    }
    assert(r.fields() =~= d.fields());
    assert forall|i: int| 0 <= i < d.events().len() implies (#[trigger] r.events()[i]).received()
        == d.events()[i].received() && r.events()[i].staged() == d.events()[i].staged() by {
        assert(r.events()[i].received() =~= d.events()[i].received());
        assert(r.events()[i].staged() =~= d.events()[i].staged());
    }
}

/// Applying an update before taking a snapshot is the same as merging the
/// update's field values into the data's snapshot.
pub proof fn lemma_apply_update_snapshot(fs: Seq<Property>, uf: Seq<Option<i64>>)
    requires
        uf.len() == fs.len(),
    ensures
        Seq::new(fs.len(), |i: int| applied_fields(fs, uf)[i].value()) == Seq::new(
            fs.len(),
            |i: int|
                match uf[i] {
                    Some(v) => v,
                    None => fs[i].value(),
                },
        ),
{
    assert(Seq::new(fs.len(), |i: int| applied_fields(fs, uf)[i].value()) =~= Seq::new(
        fs.len(),
        |i: int|
            match uf[i] {
                Some(v) => v,
                None => fs[i].value(),
            },
    ));
}

} // verus!
