//! The world facade: the clock, partial entities under construction, and
//! the tick-loop surface the driver runs.
//!
//! The driver owns the connection and the user closures.  Each tick it hands
//! the polled op list to `process_op_list`, runs its systems against the
//! read and write accessors bounded by each system's last-update time, then
//! calls `replicate_all` and `cleanup_after_frame` and sends everything
//! `take_outbox` returns.  Dispatch returns the callback invocations the
//! driver owes its closures.

use crate::commands::pending_contains;
use crate::commands::Commands;
use crate::data::ComponentData;
use crate::data::ComponentUpdate;
use crate::dispatch::run_ops_from;
use crate::dispatch::step_op;
use crate::dispatch::DispatchModel;
use crate::ops::Op;
use crate::ops::OpList;
use crate::ops::OutgoingMessage;
use crate::ops::WorldEvent;
use crate::schema::Schema;
use crate::signature::GeneratedComponentBitField;
use crate::store::EntityCollection;
use crate::template::EntityTemplate;
use crate::worker::Authority;
use crate::worker::CommandStatus;
use crate::worker::LogLevel;
use crate::ComponentId;
use crate::EntityId;
use crate::RequestId;
use vstd::prelude::*;

verus! {

/// Errors the `World` can report to its driver.
pub enum WorldError {
    /// An operation needed the connection to the fabric, but the connection
    /// is closed.
    ConnectionLost,
}

/// Monotonic tick counter supplying "last updated" timestamps.
///
/// Every read returns the current value and advances the counter by one, so
/// no two reads return the same time.  The counter saturates at `u64::MAX`,
/// which a run can never reach in practice.
#[derive(Clone, Copy, PartialEq, Eq, Structural, Debug)]
pub struct WorldTime {
    timestamp: u64,
}

impl WorldTime {
    /// The counter value this time carries.
    pub closed spec fn stamp(self) -> u64 {
        self.timestamp
    }

    /// A clock starting at zero.
    pub fn new() -> (r: WorldTime)
        ensures
            r.stamp() == 0,
    {
        WorldTime { timestamp: 0 }
    }

    /// True if `self` happened after `b`.
    pub fn occured_after(&self, b: &WorldTime) -> (r: bool)
        ensures
            r == (self.stamp() > b.stamp()),
    {
        self.timestamp > b.timestamp
    }

    /// The later of the two times.
    pub fn max_time<'a>(&'a self, b: &'a WorldTime) -> (r: &'a WorldTime)
        ensures
            r.stamp() == if self.stamp() > b.stamp() {
                self.stamp()
            } else {
                b.stamp()
            },
    {
        if self.occured_after(b) {
            self
        } else {
            b
        }
    }

    /// Returns the current time and advances the counter.
    pub fn get_time(&mut self) -> (r: WorldTime)
        ensures
            r.stamp() == old(self).stamp(),
            final(self).stamp() == if old(self).stamp() < u64::MAX {
                old(self).stamp() + 1
            } else {
                u64::MAX as int
            },
    {
        let time = WorldTime { timestamp: self.timestamp };
        if self.timestamp < u64::MAX {
            self.timestamp = self.timestamp + 1;
        }
        time
    }
}

/// The transient accumulator for one entity between the fabric's
/// critical-section markers: a signature under construction, the initial
/// data per component, and the recorded authority per component.  It is
/// promoted to a chunk slot when the critical section closes.
pub struct PartialEntity {
    pub entity_id: EntityId,
    pub bit_field: GeneratedComponentBitField,
    pub component_data: Vec<(ComponentId, ComponentData)>,
    pub write_authority: Vec<(ComponentId, Authority)>,
}

impl PartialEntity {
    /// Whether initial data for the component was recorded.
    pub open spec fn has_data(self, cid: ComponentId) -> bool {
        exists|i: int| 0 <= i < self.component_data@.len() && self.component_data@[i].0 == cid
    }

    /// The recorded initial data of a component.
    pub open spec fn data_for(self, cid: ComponentId) -> ComponentData {
        self.component_data@[choose|i: int|
            0 <= i < self.component_data@.len() && self.component_data@[i].0 == cid].1
    }

    /// Whether an authority signal for the component was recorded.
    pub open spec fn has_auth(self, cid: ComponentId) -> bool {
        exists|i: int| 0 <= i < self.write_authority@.len() && self.write_authority@[i].0 == cid
    }

    /// The authority the entity starts with for a component: the recorded
    /// signal, or `NotAuthoritative` when none arrived.
    pub open spec fn auth_for(self, cid: ComponentId) -> Authority {
        if self.has_auth(cid) {
            self.write_authority@[choose|i: int|
                0 <= i < self.write_authority@.len() && self.write_authority@[i].0 == cid].1
        } else {
            Authority::NotAuthoritative
        }
    }

    /// The component ids with recorded initial data.
    pub open spec fn data_key_set(self) -> Set<ComponentId> {
        Set::new(|cid: ComponentId| self.has_data(cid))
    }

    /// The accumulator's invariant: its signature fits the schema and names
    /// exactly the components with recorded data, each recorded component is
    /// known to the schema, keys repeat nowhere, and each data row fits its
    /// component's shape with a dirty flag covering its finer-grained dirty
    /// state.
    pub open spec fn wf(self, schema: Schema) -> bool {
        &&& self.bit_field.words().len() == schema.spec_word_count()
        &&& forall|i: int, j: int|
            0 <= i < j < self.component_data@.len() ==> (#[trigger] self.component_data@[i]).0 != (
            #[trigger] self.component_data@[j]).0
        &&& forall|i: int, j: int|
            0 <= i < j < self.write_authority@.len() ==> (#[trigger] self.write_authority@[i]).0
                != (#[trigger] self.write_authority@[j]).0
        &&& forall|i: int|
            0 <= i < self.component_data@.len() ==> schema.has_component(
                (#[trigger] self.component_data@[i]).0,
            )
        &&& schema.signature_ids(self.bit_field) == self.data_key_set()
        &&& forall|i: int|
            0 <= i < self.component_data@.len() ==> {
                let p = #[trigger] self.component_data@[i];
                &&& schema.descriptor_of(p.0).data_fits(p.1)
                &&& p.1.dirty_consistent()
            }
    }

    /// While keys repeat nowhere, the pair stored at position `i` is the one
    /// `data_for` returns for its key.
    pub proof fn lemma_data_at(self, i: int)
        requires
            forall|p: int, q: int|
                0 <= p < q < self.component_data@.len() ==> (#[trigger] self.component_data@[
                    p
                ]).0 != (#[trigger] self.component_data@[q]).0,
            0 <= i < self.component_data@.len(),
        ensures
            self.has_data(self.component_data@[i].0),
            self.data_for(self.component_data@[i].0) == self.component_data@[i].1,
    {
        let cid = self.component_data@[i].0;
        assert(self.has_data(cid));
        let j = choose|j: int|
            0 <= j < self.component_data@.len() && self.component_data@[j].0 == cid;
        if i != j {
            assert(self.component_data@[i].0 != self.component_data@[j].0 || self.component_data@[
                j
            ].0 != self.component_data@[i].0);
        }
    }

    /// A fresh accumulator for an entity: empty signature, no data, no
    /// authority.
    pub fn new(entity_id: EntityId, schema: &Schema) -> (r: PartialEntity)
        ensures
            r.wf(*schema),
            r.entity_id == entity_id,
            r.component_data@.len() == 0,
            r.write_authority@.len() == 0,
            schema.signature_ids(r.bit_field) == Set::<ComponentId>::empty(),
            forall|i: int| !r.bit_field.has_bit(i),
    {
        let bit_field = schema.new_bit_field();
        let r = PartialEntity {
            entity_id,
            bit_field,
            component_data: Vec::new(),
            write_authority: Vec::new(),
        };
        proof {
            assert(schema.signature_ids(r.bit_field) =~= r.data_key_set());
            assert(schema.signature_ids(r.bit_field) =~= Set::<ComponentId>::empty());
        }
        r
    }

    /// The position of a component's recorded data, if any.
    fn find_data(&self, cid: ComponentId) -> (r: Option<usize>)
        ensures
            match r {
                Some(i) => i < self.component_data@.len() && self.component_data@[i as int].0
                    == cid,
                None => !self.has_data(cid),
            },
    {
        let n = self.component_data.len();
        let mut i: usize = 0;
        while i < n
            invariant
                i <= n,
                n == self.component_data@.len(),
                forall|j: int| 0 <= j < i ==> (#[trigger] self.component_data@[j]).0 != cid,
            decreases n - i,
        {
            if self.component_data[i].0 == cid {
                return Some(i);
            }
            i = i + 1;
        }
        None
    }

    /// Records the initial data of one component, in snapshot form, and sets
    /// its signature bit.  Returns false — and records nothing — when the
    /// schema does not know the component or the snapshot does not fit its
    /// shape; a repeated snapshot for one component overwrites the earlier
    /// one.
    pub fn add_component(&mut self, schema: &Schema, cid: ComponentId, snapshot: &Vec<i64>) -> (r:
        bool)
        requires
            old(self).wf(*schema),
            schema.wf(),
        ensures
            final(self).wf(*schema),
            final(self).entity_id == old(self).entity_id,
            final(self).write_authority@ == old(self).write_authority@,
            r == (schema.has_component(cid) && snapshot@.len() == schema.descriptor_of(
                cid,
            ).nfields()),
            !r ==> final(self).component_data@ == old(self).component_data@ && final(self).bit_field
                == old(self).bit_field,
            r ==> {
                &&& final(self).has_data(cid)
                &&& final(self).data_for(cid).snapshot_of() == snapshot@
                &&& final(self).data_for(cid).no_received_events()
                &&& final(self).data_key_set() == old(self).data_key_set().insert(cid)
                &&& (forall|c: ComponentId|
                    c != cid && old(self).has_data(c) ==> final(self).has_data(c) && final(self).data_for(c) == old(self).data_for(c))
            },
    {
        let descriptor = match schema.get_descriptor(cid) {
            Some(d) => d,
            None => {
                return false;
            },
        };
        if snapshot.len() != descriptor.num_fields() {
            return false;
        }
        let data = ComponentData::deserialise_data(snapshot, descriptor.num_events());
        let known = self.bit_field.add_component(schema, cid);
        proof {
            assert(known);
        }
        let ghost pre = *self;
        let ghost at_ghost: int;
        match self.find_data(cid) {
            Some(i) => {
                proof {
                    at_ghost = i as int;
                }
                self.component_data[i].1 = data;
            },
            None => {
                proof {
                    at_ghost = self.component_data@.len() as int;
                }
                self.component_data.push((cid, data));
            },
        }
        proof {
            let at = at_ghost;
            let len = self.component_data@.len() as int;
            assert(0 <= at < len);
            assert(self.component_data@[at].0 == cid && self.component_data@[at].1 == data);
            assert(forall|j: int|
                0 <= j < len && j != at ==> #[trigger] self.component_data@[j]
                    == pre.component_data@[j]);
            assert forall|p: int, q: int| 0 <= p < q < len implies (
            #[trigger] self.component_data@[p]).0 != (#[trigger] self.component_data@[q]).0 by {
                if q < pre.component_data@.len() {
                    assert(pre.component_data@[p].0 != pre.component_data@[q].0);
                } else {
                    assert(!pre.has_data(cid));
                    assert(pre.component_data@[p].0 != cid);
                }
            }
            self.lemma_data_at(at);
            assert forall|c: ComponentId|
                c != cid && pre.has_data(c) implies self.has_data(c) && self.data_for(c)
                == pre.data_for(c) by {
                let jp = choose|j: int|
                    0 <= j < pre.component_data@.len() && pre.component_data@[j].0 == c;
                assert(jp != at);
                assert(self.component_data@[jp].0 == c);
                assert(self.has_data(c));
                self.lemma_data_at(jp);
                pre.lemma_data_at(jp);
            }
            assert forall|c: ComponentId| #[trigger] self.has_data(c) implies pre.has_data(c) || c
                == cid by {
                let j = choose|j: int|
                    0 <= j < self.component_data@.len() && self.component_data@[j].0 == c;
                if j != at {
                    assert(pre.component_data@[j].0 == c);
                }
            }
            assert forall|c: ComponentId| #[trigger] old(self).has_data(c) implies pre.has_data(c)
                && (c != cid ==> pre.data_for(c) == old(self).data_for(c)) by {
                let j = choose|j: int|
                    0 <= j < old(self).component_data@.len() && old(self).component_data@[j].0
                        == c;
                assert(pre.component_data@[j].0 == c);
                assert(pre.has_data(c));
                if c != cid {
                    old(self).lemma_data_at(j);
                    pre.lemma_data_at(j);
                }
            }
            assert forall|c: ComponentId| #[trigger] pre.has_data(c) implies old(self).has_data(
                c,
            ) by {
                let j = choose|j: int|
                    0 <= j < pre.component_data@.len() && pre.component_data@[j].0 == c;
                assert(old(self).component_data@[j].0 == c);
            }
            assert(self.data_key_set() =~= pre.data_key_set().insert(cid));
            assert(pre.data_key_set() =~= old(self).data_key_set());
            assert(schema.signature_ids(self.bit_field) =~= self.data_key_set());
        }
        true
    }

    /// Merges an inbound update into a component's recorded data; an update
    /// for a component without recorded data, or of the wrong shape, is
    /// dropped.
    pub fn apply_update(
        &mut self,
        schema: &Schema,
        cid: ComponentId,
        update: &crate::data::ComponentUpdate,
    ) -> (r: bool)
        requires
            old(self).wf(*schema),
            schema.wf(),
        ensures
            final(self).wf(*schema),
            final(self).entity_id == old(self).entity_id,
            final(self).write_authority@ == old(self).write_authority@,
            final(self).bit_field == old(self).bit_field,
            final(self).data_key_set() == old(self).data_key_set(),
            r == (old(self).has_data(cid) && schema.descriptor_of(cid).update_fits(*update)),
            !r ==> final(self).component_data@ == old(self).component_data@,
            r ==> {
                let d = final(self).data_for(cid);
                let o = old(self).data_for(cid);
                &&& final(self).has_data(cid)
                &&& d.fields() == crate::data::applied_fields(o.fields(), update.ufields())
                &&& d.events().len() == o.events().len()
                &&& (forall|k: int|
                    0 <= k < o.events().len() ==> (#[trigger] d.events()[k]).received()
                        == o.events()[k].received() + update.uevents()[k] && d.events()[k].staged()
                        == o.events()[k].staged())
                &&& (forall|c: ComponentId|
                    c != cid && old(self).has_data(c) ==> final(self).has_data(c) && final(self).data_for(c) == old(self).data_for(c))
            },
    {
        let at = match self.find_data(cid) {
            Some(i) => i,
            None => {
                return false;
            },
        };
        proof {
            self.lemma_data_at(at as int);
        }
        let descriptor = match schema.get_descriptor(cid) {
            Some(d) => d,
            None => {
                proof {
                    assert(false);
                }
                return false;
            },
        };
        if update.num_fields() != descriptor.num_fields() || update.num_events()
            != descriptor.num_events() {
            return false;
        }
        let ghost pre = *self;
        self.component_data[at].1.apply_update(update);
        proof {
            assert forall|c: ComponentId| #[trigger] pre.has_data(c) implies self.has_data(c) && (c
                != cid ==> self.data_for(c) == pre.data_for(c)) by {
                let j = choose|j: int|
                    0 <= j < pre.component_data@.len() && pre.component_data@[j].0 == c;
                assert(self.component_data@[j].0 == c);
                if c != cid {
                    assert(j != at as int);
                    self.lemma_data_at(j);
                    pre.lemma_data_at(j);
                }
            }
            assert forall|c: ComponentId| #[trigger] self.has_data(c) implies pre.has_data(c) by {
                let j = choose|j: int|
                    0 <= j < self.component_data@.len() && self.component_data@[j].0 == c;
                assert(pre.component_data@[j].0 == c);
            }
            self.lemma_data_at(at as int);
            assert(self.data_key_set() =~= pre.data_key_set());
            assert(schema.signature_ids(self.bit_field) =~= self.data_key_set());
            let d = self.data_for(cid);
            let o = pre.data_for(cid);
            assert(d.dirty_consistent()) by {
                if !d.dirty() {
                    assert(!o.dirty());
                    assert(o.dirty_consistent());
                    assert forall|i: int| 0 <= i < d.fields().len() implies !(
                    #[trigger] d.fields()[i]).dirty() by {
                        let af = crate::data::applied_fields(o.fields(), update.ufields());
                        assert(d.fields()[i] == af[i]);
                        match update.ufields()[i] {
                            Some(v) => {},
                            None => {
                                assert(af[i] == o.fields()[i]);
                                assert(!(o.fields()[i]).dirty());
                            },
                        }
                    }
                    assert forall|k: int| 0 <= k < d.events().len() implies (
                    #[trigger] d.events()[k]).staged().len() == 0 by {
                        assert(d.events()[k].staged() == o.events()[k].staged());
                    }
                }
            }
        }
        true
    }

    /// Drops the recorded data of one component and clears its signature
    /// bit; a component without recorded data changes nothing.
    pub fn remove_component(&mut self, schema: &Schema, cid: ComponentId) -> (r: bool)
        requires
            old(self).wf(*schema),
            schema.wf(),
        ensures
            final(self).wf(*schema),
            final(self).entity_id == old(self).entity_id,
            final(self).write_authority@ == old(self).write_authority@,
            r == old(self).has_data(cid),
            !final(self).has_data(cid),
            final(self).data_key_set() == old(self).data_key_set().remove(cid),
            forall|c: ComponentId|
                c != cid && old(self).has_data(c) ==> final(self).has_data(c) && final(self).data_for(c) == old(self).data_for(c),
            !r ==> final(self).component_data@ == old(self).component_data@ && final(self).bit_field
                == old(self).bit_field,
    {
        let ghost pre = *self;
        let i = match self.find_data(cid) {
            Some(i) => i,
            None => {
                proof {
                    assert(self.data_key_set() =~= pre.data_key_set().remove(cid));
                }
                return false;
            },
        };
        let _ = self.component_data.swap_remove(i);
        let ghost npre = pre.component_data@.len() as int;
        let ghost from = |k: int|
            if k == i as int {
                npre - 1
            } else {
                k
            };
        proof {
            assert(self.component_data@.len() == npre - 1);
            assert(forall|k: int|
                0 <= k < npre - 1 ==> #[trigger] self.component_data@[k] == pre.component_data@[
                    from(k)
                ]);
            assert forall|p: int, q: int| 0 <= p < q < npre - 1 implies (
            #[trigger] self.component_data@[p]).0 != (#[trigger] self.component_data@[q]).0 by {
                let a = from(p);
                let b = from(q);
                assert(a != b);
                if a < b {
                    assert(pre.component_data@[a].0 != pre.component_data@[b].0);
                } else {
                    assert(pre.component_data@[b].0 != pre.component_data@[a].0);
                }
            }
            assert forall|k: int| 0 <= k < npre - 1 implies (
            #[trigger] self.component_data@[k]).0 != cid by {
                let a = from(k);
                assert(self.component_data@[k] == pre.component_data@[a]);
                pre.lemma_data_at(a);
                pre.lemma_data_at(i as int);
                if pre.component_data@[a].0 == cid {
                    if a != i as int {
                        if a < i as int {
                            assert(pre.component_data@[a].0 != pre.component_data@[i as int].0);
                        } else {
                            assert(pre.component_data@[i as int].0 != pre.component_data@[a].0);
                        }
                    } else {
                        assert(k == i as int && i as int == npre - 1);
                        assert(false);
                    }
                }
            }
            assert(!self.has_data(cid));
        }
        let index = match schema.get_unique_index(cid) {
            Some(index) => index,
            None => {
                proof {
                    assert(pre.component_data@[i as int].0 == cid);
                    assert(schema.has_component(cid));
                    assert(false);
                }
                0
            },
        };
        proof {
            schema.lemma_index_in_capacity(index as int);
        }
        self.bit_field.clear_bit(index);
        proof {
            assert forall|c: ComponentId|
                c != cid && pre.has_data(c) implies self.has_data(c) && self.data_for(c)
                == pre.data_for(c) by {
                let kp = choose|kp: int|
                    0 <= kp < pre.component_data@.len() && pre.component_data@[kp].0 == c;
                let nk: int = if kp == npre - 1 {
                    i as int
                } else {
                    kp
                };
                assert(kp != i as int) by {
                    assert(pre.component_data@[i as int].0 == cid);
                }
                assert(from(nk) == kp) by {
                    if kp == npre - 1 && i as int == npre - 1 {
                        assert(false);
                    }
                }
                assert(nk < npre - 1) by {
                    if nk == npre - 1 {
                        assert(kp == npre - 1 && i as int == npre - 1);
                        assert(false);
                    }
                }
                assert(self.component_data@[nk].0 == c);
                assert(self.has_data(c));
                self.lemma_data_at(nk);
                pre.lemma_data_at(kp);
            }
            assert forall|c: ComponentId| #[trigger] self.has_data(c) implies c != cid
                && pre.has_data(c) by {
                let k = choose|k: int|
                    0 <= k < self.component_data@.len() && self.component_data@[k].0 == c;
                assert(pre.component_data@[from(k)].0 == c);
            }
            assert(self.data_key_set() =~= pre.data_key_set().remove(cid));
            // the signature mirrors the key set bit for bit
            assert forall|c: ComponentId|
                schema.signature_ids(self.bit_field).contains(c) == self.data_key_set().contains(
                    c,
                ) by {
                if schema.has_component(c) {
                    let k = schema.index_of(c);
                    if c == cid {
                        assert(k == index as int);
                        assert(!self.bit_field.has_bit(k));
                    } else {
                        assert(k != index as int) by {
                            assert(schema.descs()[k].id() == c);
                            assert(schema.descs()[index as int].id() == cid);
                        }
                        assert(self.bit_field.has_bit(k) == pre.bit_field.has_bit(k));
                        assert(schema.signature_ids(pre.bit_field).contains(c)
                            == pre.data_key_set().contains(c));
                    }
                }
            }
            assert(schema.signature_ids(self.bit_field) =~= self.data_key_set());
        }
        true
    }

    /// Records the fabric's authority signal for one component, replacing an
    /// earlier signal for the same component.
    pub fn record_authority(&mut self, cid: ComponentId, authority: Authority)
        requires
            forall|i: int, j: int|
                0 <= i < j < old(self).write_authority@.len() ==> (#[trigger] old(self).write_authority@[i]).0 != (#[trigger] old(self).write_authority@[j]).0,
        ensures
            final(self).entity_id == old(self).entity_id,
            final(self).component_data@ == old(self).component_data@,
            final(self).bit_field == old(self).bit_field,
            forall|i: int, j: int|
                0 <= i < j < final(self).write_authority@.len() ==> (#[trigger] final(self).write_authority@[i]).0 != (#[trigger] final(self).write_authority@[j]).0,
            final(self).has_auth(cid),
            final(self).auth_for(cid) == authority,
            forall|c: ComponentId|
                c != cid ==> final(self).has_auth(c) == old(self).has_auth(c) && final(self).auth_for(c) == old(self).auth_for(c),
    {
        let ghost pre = *self;
        let n = self.write_authority.len();
        let mut i: usize = 0;
        let mut pos: Option<usize> = None;
        while i < n
            invariant
                i <= n,
                n == self.write_authority@.len(),
                *self == pre,
                match pos {
                    Some(p) => p < n && self.write_authority@[p as int].0 == cid,
                    None => forall|j: int|
                        0 <= j < i ==> (#[trigger] self.write_authority@[j]).0 != cid,
                },
            decreases n - i,
        {
            if self.write_authority[i].0 == cid {
                pos = Some(i);
            }
            i = i + 1;
        }
        let ghost at_ghost: int;
        match pos {
            Some(p) => {
                proof {
                    at_ghost = p as int;
                }
                self.write_authority[p].1 = authority;
            },
            None => {
                proof {
                    at_ghost = self.write_authority@.len() as int;
                }
                self.write_authority.push((cid, authority));
            },
        }
        proof {
            let at = at_ghost;
            let len = self.write_authority@.len() as int;
            assert(0 <= at < len);
            assert(self.write_authority@[at].0 == cid && self.write_authority@[at].1 == authority);
            assert(forall|j: int|
                0 <= j < len && j != at ==> #[trigger] self.write_authority@[j]
                    == pre.write_authority@[j]);
            assert forall|p: int, q: int| 0 <= p < q < len implies (
            #[trigger] self.write_authority@[p]).0 != (#[trigger] self.write_authority@[q]).0 by {
                if q < pre.write_authority@.len() {
                    assert(pre.write_authority@[p].0 != pre.write_authority@[q].0);
                } else {
                    assert(!pre.has_auth(cid));
                    assert(pre.write_authority@[p].0 != cid);
                }
            }
            self.lemma_auth_at(at);
            assert forall|c: ComponentId|
                c != cid implies self.has_auth(c) == pre.has_auth(c) && (self.has_auth(c)
                ==> self.auth_for(c) == pre.auth_for(c)) by {
                if pre.has_auth(c) {
                    let jp = choose|j: int|
                        0 <= j < pre.write_authority@.len() && pre.write_authority@[j].0 == c;
                    assert(jp != at);
                    assert(self.write_authority@[jp].0 == c);
                    assert(self.has_auth(c));
                    self.lemma_auth_at(jp);
                    pre.lemma_auth_at(jp);
                }
                if self.has_auth(c) {
                    let j = choose|j: int|
                        0 <= j < self.write_authority@.len() && self.write_authority@[j].0 == c;
                    assert(j != at);
                    assert(pre.write_authority@[j].0 == c);
                    assert(pre.has_auth(c));
                }
            }
        }
    }

    /// The authority the entity starts with for a component: the recorded
    /// signal, or `NotAuthoritative` when none arrived.
    pub fn get_recorded_authority(&self, cid: ComponentId) -> (r: Authority)
        requires
            forall|i: int, j: int|
                0 <= i < j < self.write_authority@.len() ==> (#[trigger] self.write_authority@[
                    i
                ]).0 != (#[trigger] self.write_authority@[j]).0,
        ensures
            r == self.auth_for(cid),
    {
        let n = self.write_authority.len();
        let mut i: usize = 0;
        while i < n
            invariant
                i <= n,
                n == self.write_authority@.len(),
                forall|j: int| 0 <= j < i ==> (#[trigger] self.write_authority@[j]).0 != cid,
                forall|p: int, q: int|
                    0 <= p < q < n ==> (#[trigger] self.write_authority@[p]).0 != (
                    #[trigger] self.write_authority@[q]).0,
            decreases n - i,
        {
            if self.write_authority[i].0 == cid {
                proof {
                    self.lemma_auth_at(i as int);
                }
                return self.write_authority[i].1;
            }
            i = i + 1;
        }
        proof {
            assert(!self.has_auth(cid));
        }
        Authority::NotAuthoritative
    }

    /// While authority keys repeat nowhere, the pair stored at position `i`
    /// is the one `auth_for` returns for its key.
    pub proof fn lemma_auth_at(self, i: int)
        requires
            forall|p: int, q: int|
                0 <= p < q < self.write_authority@.len() ==> (#[trigger] self.write_authority@[
                    p
                ]).0 != (#[trigger] self.write_authority@[q]).0,
            0 <= i < self.write_authority@.len(),
        ensures
            self.has_auth(self.write_authority@[i].0),
            self.auth_for(self.write_authority@[i].0) == self.write_authority@[i].1,
    {
        let cid = self.write_authority@[i].0;
        assert(self.has_auth(cid));
        let j = choose|j: int|
            0 <= j < self.write_authority@.len() && self.write_authority@[j].0 == cid;
        if i != j {
            assert(self.write_authority@[i].0 != self.write_authority@[j].0 || self.write_authority@[
                j
            ].0 != self.write_authority@[i].0);
        }
    }
}

/// The worker's view into the simulated world, and the single facade its
/// driver talks to: it dispatches inbound op lists, serves reads and
/// authority-gated writes to systems, books in-flight requests, and collects
/// everything owed to the fabric in an outbox.
pub struct World {
    schema: Schema,
    entities: EntityCollection,
    added_this_cs: Vec<PartialEntity>,
    in_critical_section: bool,
    world_time: WorldTime,
    commands: Commands,
    system_times: Vec<WorldTime>,
    outbox: Vec<OutgoingMessage>,
    next_request_id: RequestId,
}

impl World {
    /// The schema the world was built with.
    pub closed spec fn sch(self) -> Schema {
        self.schema
    }

    /// The entity store.
    pub closed spec fn store(self) -> EntityCollection {
        self.entities
    }

    /// The partial entities of the open critical section.
    pub closed spec fn partials(self) -> Seq<PartialEntity> {
        self.added_this_cs@
    }

    /// Whether a critical section is open.
    pub closed spec fn in_cs(self) -> bool {
        self.in_critical_section
    }

    /// The world clock.
    pub closed spec fn clock(self) -> WorldTime {
        self.world_time
    }

    /// The request registry.
    pub closed spec fn cmds(self) -> Commands {
        self.commands
    }

    /// The last-update time of each registered system.
    pub closed spec fn sys_times(self) -> Seq<WorldTime> {
        self.system_times@
    }

    /// The messages owed to the fabric, in send order.
    pub closed spec fn outbox_msgs(self) -> Seq<OutgoingMessage> {
        self.outbox@
    }

    /// The next request id this worker will assign.
    pub closed spec fn next_rid(self) -> RequestId {
        self.next_request_id
    }

    /// Whether the open critical section accumulates the entity.
    pub open spec fn has_partial(self, eid: EntityId) -> bool {
        exists|i: int| 0 <= i < self.partials().len() && self.partials()[i].entity_id == eid
    }

    /// The accumulator of one partial entity.
    pub open spec fn partial_for(self, eid: EntityId) -> PartialEntity {
        self.partials()[choose|i: int|
            0 <= i < self.partials().len() && self.partials()[i].entity_id == eid]
    }

    /// The abstract registry state the op-dispatch state machine drives.
    pub open spec fn command_model(self) -> crate::dispatch::CommandModel {
        crate::dispatch::CommandModel {
            handlers: Set::new(|k: (ComponentId, u32)| self.cmds().has_handler(k.0, k.1)),
            command_pending: Set::new(
                |q: RequestId| pending_contains(self.cmds().command_pending(), q),
            ),
            create_pending: Set::new(
                |q: RequestId| pending_contains(self.cmds().create_pending(), q),
            ),
            delete_pending: Set::new(
                |q: RequestId| pending_contains(self.cmds().delete_pending(), q),
            ),
        }
    }

    /// The abstract dispatch state the op-dispatch state machine drives.
    pub open spec fn dispatch_model(self) -> DispatchModel {
        DispatchModel {
            sigs: Map::new(
                |e: EntityId| self.store().has_entity(e),
                |e: EntityId| self.store().entity_sig_ids(self.sch(), e),
            ),
            partial: Map::new(
                |e: EntityId| self.has_partial(e),
                |e: EntityId| self.partial_for(e).data_key_set(),
            ),
            in_cs: self.in_cs(),
        }
    }

    /// The world's invariant.
    pub open spec fn wf(self) -> bool {
        &&& self.sch().wf()
        &&& self.store().wf(self.sch())
        &&& self.cmds().wf()
        &&& forall|i: int, j: int|
            0 <= i < j < self.partials().len() ==> (#[trigger] self.partials()[i]).entity_id != (
            #[trigger] self.partials()[j]).entity_id
        &&& forall|i: int| 0 <= i < self.partials().len() ==> (#[trigger] self.partials()[i]).wf(self.sch())
        &&& !self.in_cs() ==> self.partials().len() == 0
        &&& forall|q: RequestId|
            #[trigger] pending_contains(self.cmds().command_pending(), q) ==> q < self.next_rid()
        &&& forall|q: RequestId|
            #[trigger] pending_contains(self.cmds().create_pending(), q) ==> q < self.next_rid()
        &&& forall|q: RequestId|
            #[trigger] pending_contains(self.cmds().delete_pending(), q) ==> q < self.next_rid()
    }

    /// While partial ids repeat nowhere, the partial stored at position `i`
    /// is the one `partial_for` returns for its id.
    pub proof fn lemma_partial_at(self, i: int)
        requires
            forall|p: int, q: int|
                0 <= p < q < self.partials().len() ==> (#[trigger] self.partials()[p]).entity_id
                    != (#[trigger] self.partials()[q]).entity_id,
            0 <= i < self.partials().len(),
        ensures
            self.has_partial(self.partials()[i].entity_id),
            self.partial_for(self.partials()[i].entity_id) == self.partials()[i],
    {
        let eid = self.partials()[i].entity_id;
        assert(self.has_partial(eid));
        let j = choose|j: int|
            0 <= j < self.partials().len() && self.partials()[j].entity_id == eid;
        if i != j {
            assert(self.partials()[i].entity_id != self.partials()[j].entity_id
                || self.partials()[j].entity_id != self.partials()[i].entity_id);
        }
    }

    /// A fresh world over a schema: no entities, no partials, no handlers,
    /// nothing pending, nothing owed, the clock at zero.
    pub fn new(schema: Schema) -> (r: World)
        requires
            schema.wf(),
        ensures
            r.wf(),
            r.sch() == schema,
            r.store().live_set() == Set::<EntityId>::empty(),
            r.store().chunks().len() == 0,
            r.partials().len() == 0,
            !r.in_cs(),
            r.clock().stamp() == 0,
            r.cmds().handlers().len() == 0,
            r.sys_times().len() == 0,
            r.outbox_msgs().len() == 0,
            r.next_rid() == 0,
            r.dispatch_model() == DispatchModel::empty(),
    {
        let r = World {
            schema,
            entities: EntityCollection::new(),
            added_this_cs: Vec::new(),
            in_critical_section: false,
            world_time: WorldTime::new(),
            commands: Commands::new(),
            system_times: Vec::new(),
            outbox: Vec::new(),
            next_request_id: 0,
        };
        proof {
            assert(r.dispatch_model().sigs =~= DispatchModel::empty().sigs);
            assert(r.dispatch_model().partial =~= DispatchModel::empty().partial);
        }
        r
    }

    /// Registers a system: records its initial last-update time and returns
    /// its index.  The driver owns the system itself and calls `on_update`
    /// on it each tick.
    pub fn register_system(&mut self) -> (r: usize)
        requires
            old(self).wf(),
        ensures
            final(self).wf(),
            r == old(self).sys_times().len(),
            final(self).sys_times() == old(self).sys_times().push(old(self).clock()),
            final(self).clock().stamp() == if old(self).clock().stamp() < u64::MAX {
                old(self).clock().stamp() + 1
            } else {
                u64::MAX as int
            },
            final(self).sch() == old(self).sch(),
            final(self).store() == old(self).store(),
            final(self).cmds() == old(self).cmds(),
            final(self).outbox_msgs() == old(self).outbox_msgs(),
            final(self).dispatch_model() == old(self).dispatch_model(),
            final(self).partials() == old(self).partials(),
            final(self).in_cs() == old(self).in_cs(),
            final(self).next_rid() == old(self).next_rid(),
    {
        let index = self.system_times.len();
        let t = self.world_time.get_time();
        self.system_times.push(t);
        proof {
            lemma_model_eq(*old(self), *self);
        }
        index
    }

    /// The number of registered systems.
    pub fn num_systems(&self) -> (r: usize)
        ensures
            r == self.sys_times().len(),
    {
        self.system_times.len()
    }

    /// When a system last ran: the bound of its modified-only view.
    pub fn system_last_update(&self, index: usize) -> (r: WorldTime)
        requires
            index < self.sys_times().len(),
        ensures
            r == self.sys_times()[index as int],
    {
        self.system_times[index]
    }

    /// Records that a system finished its update this tick.
    pub fn mark_system_updated(&mut self, index: usize)
        requires
            old(self).wf(),
            index < old(self).sys_times().len(),
        ensures
            final(self).wf(),
            final(self).sys_times().len() == old(self).sys_times().len(),
            final(self).sys_times()[index as int].stamp() == old(self).clock().stamp(),
            forall|i: int|
                0 <= i < old(self).sys_times().len() && i != index ==> final(self).sys_times()[i]
                    == old(self).sys_times()[i],
            final(self).sch() == old(self).sch(),
            final(self).store() == old(self).store(),
            final(self).cmds() == old(self).cmds(),
            final(self).outbox_msgs() == old(self).outbox_msgs(),
            final(self).dispatch_model() == old(self).dispatch_model(),
            final(self).next_rid() == old(self).next_rid(),
    {
        let t = self.world_time.get_time();
        self.system_times.set(index, t);
        proof {
            lemma_model_eq(*old(self), *self);
        }
    }

    /// Opens or closes a critical section.  Opening clears the accumulator;
    /// closing promotes every accumulated entity into the store, stamped
    /// with a fresh clock read, and drops a partial whose id is already
    /// live.
    pub fn on_critical_section(&mut self, in_critical_section: bool)
        requires
            old(self).wf(),
        ensures
            final(self).wf(),
            final(self).sch() == old(self).sch(),
            final(self).cmds() == old(self).cmds(),
            final(self).outbox_msgs() == old(self).outbox_msgs(),
            final(self).sys_times() == old(self).sys_times(),
            final(self).next_rid() == old(self).next_rid(),
            final(self).dispatch_model() == step_op(
                old(self).sch(),
                old(self).dispatch_model(),
                Op::CriticalSection(in_critical_section),
            ),
            crate::store::EntityCollection::model_preserved(
                old(self).store(),
                final(self).store(),
                old(self).sch(),
            ),
            final(self).clock().stamp() >= old(self).clock().stamp(),
            !in_critical_section && old(self).in_cs() ==> forall|e: EntityId|
                #[trigger] old(self).has_partial(e) && !old(self).store().has_entity(e)
                    ==> final(self).store().has_entity(e) && final(self).store().entity_sig_ids(
                    old(self).sch(),
                    e,
                ) == old(self).partial_for(e).data_key_set(),
            !in_critical_section && old(self).in_cs() ==> forall|e: EntityId, cid: ComponentId|
                #[trigger] old(self).has_partial(e) && !old(self).store().has_entity(e) && old(self).partial_for(e).data_key_set().contains(cid)
                    ==> (#[trigger] final(self).store().entity_entry(e, cid)).data == old(self).partial_for(e).data_for(cid),
            !in_critical_section && old(self).in_cs() ==> forall|e: EntityId, cid: ComponentId|
                #[trigger] old(self).has_partial(e) && !old(self).store().has_entity(e) && old(self).partial_for(e).data_key_set().contains(cid)
                    ==> (#[trigger] final(self).store().entity_entry(e, cid)).last_updated.stamp()
                    >= old(self).clock().stamp(),
            // the first conjunct below only anchors the quantifier to the
            // promoted entry; the authority equality is the claim
            !in_critical_section && old(self).in_cs() ==> forall|e: EntityId, cid: ComponentId|
                #[trigger] old(self).has_partial(e) && !old(self).store().has_entity(e) && old(self).partial_for(e).data_key_set().contains(cid)
                    ==> (#[trigger] final(self).store().entity_entry(e, cid)).data.fields().len()
                    >= 0 && final(self).store().entity_auth(e, cid) == old(self).partial_for(
                    e,
                ).auth_for(cid).spec_permits_writes(),
    {
        let ghost pre = *self;
        if in_critical_section {
            self.added_this_cs = Vec::new();
            self.in_critical_section = true;
            proof {
                assert(self.dispatch_model().sigs =~= step_op(
                    pre.sch(),
                    pre.dispatch_model(),
                    Op::CriticalSection(true),
                ).sigs);
                assert(self.dispatch_model().partial =~= step_op(
                    pre.sch(),
                    pre.dispatch_model(),
                    Op::CriticalSection(true),
                ).partial);
                crate::store::EntityCollection::lemma_unchanged(
                    pre.store(),
                    self.store(),
                    pre.sch(),
                );
            }
            return ;
        }
        if !self.in_critical_section {
            proof {
                assert(self.dispatch_model() == step_op(
                    pre.sch(),
                    pre.dispatch_model(),
                    Op::CriticalSection(false),
                ));
                crate::store::EntityCollection::lemma_unchanged(
                    pre.store(),
                    self.store(),
                    pre.sch(),
                );
            }
            return ;
        }
        let n = self.added_this_cs.len();
        let mut k: usize = 0;
        while k < n
            invariant
                pre.wf(),
                pre.in_cs(),
                k <= n,
                n == pre.partials().len(),
                self.added_this_cs@.len() == n,
                forall|j: int|
                    k <= j < n ==> #[trigger] self.added_this_cs@[j] == pre.partials()[j],
                self.schema == pre.sch(),
                self.commands == pre.cmds(),
                self.outbox@ == pre.outbox_msgs(),
                self.system_times@ == pre.sys_times(),
                self.next_request_id == pre.next_rid(),
                self.in_critical_section == pre.in_cs(),
                self.entities.wf(pre.sch()),
                // entities admitted so far
                forall|e: EntityId|
                    #[trigger] self.entities.has_entity(e) <==> pre.store().has_entity(e) || (
                    exists|j: int|
                        0 <= j < k && (#[trigger] pre.partials()[j]).entity_id == e),
                // already-live entities keep their model
                forall|e: EntityId|
                    #[trigger] pre.store().has_entity(e) ==> self.entities.has_entity(e)
                        && self.entities.entity_sig_ids(pre.sch(), e)
                        == pre.store().entity_sig_ids(pre.sch(), e) && (forall|
                        cid: ComponentId,
                    |
                        #[trigger] self.entities.entity_has_component(e, cid)
                            == pre.store().entity_has_component(e, cid) && (
                        pre.store().entity_has_component(e, cid)
                            ==> self.entities.entity_entry(e, cid) == pre.store().entity_entry(
                            e,
                            cid,
                        ) && self.entities.entity_auth(e, cid) == pre.store().entity_auth(
                            e,
                            cid,
                        ))),
                self.world_time.stamp() >= pre.clock().stamp(),
                // promoted partials carry their accumulated signature, data,
                // authority, and a stamp no older than the promotion's start
                forall|j: int|
                    0 <= j < k && !pre.store().has_entity(
                        (#[trigger] pre.partials()[j]).entity_id,
                    ) ==> self.entities.has_entity(pre.partials()[j].entity_id)
                        && self.entities.entity_sig_ids(pre.sch(), pre.partials()[j].entity_id)
                        == pre.partials()[j].data_key_set(),
                forall|j: int, cid: ComponentId|
                    0 <= j < k && !pre.store().has_entity(
                        (#[trigger] pre.partials()[j]).entity_id,
                    ) && pre.partials()[j].data_key_set().contains(cid) ==> {
                        let en = #[trigger] self.entities.entity_entry(
                            pre.partials()[j].entity_id,
                            cid,
                        );
                        &&& en.data == pre.partials()[j].data_for(cid)
                        &&& en.last_updated.stamp() >= pre.clock().stamp()
                        &&& self.entities.entity_auth(pre.partials()[j].entity_id, cid)
                            == pre.partials()[j].auth_for(cid).spec_permits_writes()
                    },
            decreases n - k,
        {
            let eid = self.added_this_cs[k].entity_id;
            proof {
                pre.lemma_partial_at(k as int);
                assert(pre.partials()[k as int].entity_id == eid);
            }
            let already = match self.entities.get_location(eid) {
                Some(_) => true,
                None => false,
            };
            if !already {
                let mut tmp = PartialEntity::new(0, &self.schema);
                self.added_this_cs.set_and_swap(k, &mut tmp);
                let entity = tmp;
                proof {
                    assert(entity == pre.partials()[k as int]);
                    assert(entity.wf(pre.sch()));
                }
                let now = self.world_time.get_time();
                let ghost mid = self.entities;
                let _ = self.entities.admit_entity(&self.schema, entity, now);
                proof {
                    assert forall|e: EntityId|
                        #[trigger] self.entities.has_entity(e) <==> pre.store().has_entity(e) || (
                        exists|j: int|
                            0 <= j < k + 1 && (#[trigger] pre.partials()[j]).entity_id == e) by {
                        if self.entities.has_entity(e) {
                            if e != eid {
                                assert(mid.has_entity(e));
                            } else {
                                assert(pre.partials()[k as int].entity_id == e);
                            }
                        }
                        if pre.store().has_entity(e) {
                            assert(mid.has_entity(e));
                        }
                        if exists|j: int|
                            0 <= j < k + 1 && (#[trigger] pre.partials()[j]).entity_id == e {
                            let j = choose|j: int|
                                0 <= j < k + 1 && (#[trigger] pre.partials()[j]).entity_id == e;
                            if j < k {
                                assert(mid.has_entity(e));
                            }
                        }
                    }
                    assert(now.stamp() >= pre.clock().stamp());
                    assert forall|j: int|
                        0 <= j < k + 1 && !pre.store().has_entity(
                            (#[trigger] pre.partials()[j]).entity_id,
                        ) implies self.entities.has_entity(pre.partials()[j].entity_id)
                        && self.entities.entity_sig_ids(pre.sch(), pre.partials()[j].entity_id)
                        == pre.partials()[j].data_key_set() by {
                        let ej = pre.partials()[j].entity_id;
                        if j < k {
                            assert(ej != eid) by {
                                pre.lemma_partial_at(j);
                                pre.lemma_partial_at(k as int);
                            }
                            assert(mid.has_entity(ej));
                        }
                    }
                    assert forall|j: int, cid: ComponentId|
                        0 <= j < k + 1 && !pre.store().has_entity(
                            (#[trigger] pre.partials()[j]).entity_id,
                        ) && pre.partials()[j].data_key_set().contains(cid) implies {
                        let en = #[trigger] self.entities.entity_entry(
                            pre.partials()[j].entity_id,
                            cid,
                        );
                        &&& en.data == pre.partials()[j].data_for(cid)
                        &&& en.last_updated.stamp() >= pre.clock().stamp()
                        &&& self.entities.entity_auth(pre.partials()[j].entity_id, cid)
                            == pre.partials()[j].auth_for(cid).spec_permits_writes()
                    } by {
                        let ej = pre.partials()[j].entity_id;
                        if j < k {
                            assert(ej != eid) by {
                                pre.lemma_partial_at(j);
                                pre.lemma_partial_at(k as int);
                            }
                            assert(mid.has_entity(ej));
                            assert(mid.entity_has_component(ej, cid));
                            assert(self.entities.entity_has_component(ej, cid)
                                == mid.entity_has_component(ej, cid));
                            assert(self.entities.entity_entry(ej, cid) == mid.entity_entry(
                                ej,
                                cid,
                            ));
                            assert(self.entities.entity_auth(ej, cid) == mid.entity_auth(ej, cid));
                        } else {
                            assert(ej == eid);
                            assert(entity.data_key_set().contains(cid));
                            assert(self.entities.entity_entry(ej, cid).data == entity.data_for(
                                cid,
                            ));
                            assert(self.entities.entity_entry(ej, cid).last_updated == now);
                        }
                    }
                }
            } else {
                proof {
                    assert forall|e: EntityId|
                        #[trigger] self.entities.has_entity(e) <==> pre.store().has_entity(e) || (
                        exists|j: int|
                            0 <= j < k + 1 && (#[trigger] pre.partials()[j]).entity_id == e) by {
                        if exists|j: int|
                            0 <= j < k + 1 && (#[trigger] pre.partials()[j]).entity_id == e {
                            let j = choose|j: int|
                                0 <= j < k + 1 && (#[trigger] pre.partials()[j]).entity_id == e;
                            if j == k {
                                assert(self.entities.has_entity(eid));
                            }
                        }
                    }
                }
            }
            k = k + 1;
        }
        self.added_this_cs = Vec::new();
        self.in_critical_section = false;
        proof {
            let m0 = pre.dispatch_model();
            let m1 = step_op(pre.sch(), m0, Op::CriticalSection(false));
            assert forall|e: EntityId|
                self.dispatch_model().sigs.dom().contains(e) == m1.sigs.dom().contains(e) && (
                m1.sigs.dom().contains(e) ==> self.dispatch_model().sigs[e] == m1.sigs[e]) by {
                if pre.store().has_entity(e) {
                } else if pre.has_partial(e) {
                    let j = choose|j: int|
                        0 <= j < pre.partials().len() && pre.partials()[j].entity_id == e;
                    pre.lemma_partial_at(j);
                    assert(self.entities.has_entity(e));
                    assert(m0.partial.dom().contains(e));
                    assert(m0.partial[e] == pre.partial_for(e).data_key_set());
                } else {
                    if self.entities.has_entity(e) {
                        assert(exists|j: int|
                            0 <= j < n && (#[trigger] pre.partials()[j]).entity_id == e);
                        let j = choose|j: int|
                            0 <= j < n && (#[trigger] pre.partials()[j]).entity_id == e;
                        pre.lemma_partial_at(j);
                        assert(pre.has_partial(e));
                        assert(false);
                    }
                }
            }
            assert(self.dispatch_model().sigs =~= m1.sigs);
            assert(self.dispatch_model().partial =~= m1.partial);
            assert(self.dispatch_model() == m1);
            assert(crate::store::EntityCollection::model_preserved(
                pre.store(),
                self.store(),
                pre.sch(),
            ));
            assert forall|e: EntityId|
                #[trigger] pre.has_partial(e) && !pre.store().has_entity(e) implies self.store().has_entity(e) && self.store().entity_sig_ids(pre.sch(), e) == pre.partial_for(
                e,
            ).data_key_set() by {
                let j = choose|j: int|
                    0 <= j < pre.partials().len() && pre.partials()[j].entity_id == e;
                pre.lemma_partial_at(j);
                assert(pre.partials()[j] == pre.partial_for(e));
            }
            assert forall|e: EntityId, cid: ComponentId|
                #[trigger] pre.has_partial(e) && !pre.store().has_entity(e) && pre.partial_for(
                    e,
                ).data_key_set().contains(cid) implies {
                let en = #[trigger] self.store().entity_entry(e, cid);
                &&& en.data == pre.partial_for(e).data_for(cid)
                &&& en.last_updated.stamp() >= pre.clock().stamp()
                &&& self.store().entity_auth(e, cid) == pre.partial_for(e).auth_for(
                    cid,
                ).spec_permits_writes()
            } by {
                let j = choose|j: int|
                    0 <= j < pre.partials().len() && pre.partials()[j].entity_id == e;
                pre.lemma_partial_at(j);
                assert(pre.partials()[j] == pre.partial_for(e));
                assert(self.entities.entity_entry(e, cid).data == pre.partials()[j].data_for(cid));
            }
        }
    }

    /// Begins accumulating a new entity arriving this critical section; an
    /// id that already has an accumulator starts over.  Outside a critical
    /// section the op is dropped.
    pub fn on_add_entity(&mut self, entity_id: EntityId)
        requires
            old(self).wf(),
        ensures
            final(self).wf(),
            final(self).sch() == old(self).sch(),
            final(self).store() == old(self).store(),
            final(self).cmds() == old(self).cmds(),
            final(self).outbox_msgs() == old(self).outbox_msgs(),
            final(self).sys_times() == old(self).sys_times(),
            final(self).next_rid() == old(self).next_rid(),
            final(self).clock() == old(self).clock(),
            final(self).dispatch_model() == step_op(
                old(self).sch(),
                old(self).dispatch_model(),
                Op::AddEntity(entity_id),
            ),
    {
        let ghost pre = *self;
        if !self.in_critical_section {
            return ;
        }
        let fresh = PartialEntity::new(entity_id, &self.schema);
        proof {
            assert(fresh.data_key_set() =~= Set::<ComponentId>::empty());
        }
        let n = self.added_this_cs.len();
        let mut i: usize = 0;
        let mut pos: Option<usize> = None;
        while i < n
            invariant
                i <= n,
                n == self.partials().len(),
                *self == pre,
                match pos {
                    Some(p) => p < n && self.partials()[p as int].entity_id == entity_id,
                    None => forall|j: int|
                        0 <= j < i ==> (#[trigger] self.partials()[j]).entity_id != entity_id,
                },
            decreases n - i,
        {
            if self.added_this_cs[i].entity_id == entity_id {
                pos = Some(i);
            }
            i = i + 1;
        }
        let ghost at_ghost: int;
        match pos {
            Some(p) => {
                proof {
                    at_ghost = p as int;
                }
                self.added_this_cs.set(p, fresh);
            },
            None => {
                proof {
                    at_ghost = self.partials().len() as int;
                }
                self.added_this_cs.push(fresh);
            },
        }
        proof {
            let at = at_ghost;
            let len = self.partials().len() as int;
            assert(0 <= at < len);
            assert(self.partials()[at] == fresh);
            assert(forall|j: int|
                0 <= j < len && j != at ==> #[trigger] self.partials()[j] == pre.partials()[j]);
            assert forall|p: int, q: int| 0 <= p < q < len implies (
            #[trigger] self.partials()[p]).entity_id != (#[trigger] self.partials()[
                q
            ]).entity_id by {
                if q < pre.partials().len() {
                    assert(pre.partials()[p].entity_id != pre.partials()[q].entity_id);
                } else {
                    assert(!pre.has_partial(entity_id));
                    assert(pre.partials()[p].entity_id != entity_id);
                }
            }
            self.lemma_partial_at(at);
            assert forall|e: EntityId|
                e != entity_id implies self.has_partial(e) == pre.has_partial(e) && (
            pre.has_partial(e) ==> self.partial_for(e) == pre.partial_for(e)) by {
                if pre.has_partial(e) {
                    let j = choose|j: int|
                        0 <= j < pre.partials().len() && pre.partials()[j].entity_id == e;
                    assert(j != at);
                    assert(self.partials()[j].entity_id == e);
                    self.lemma_partial_at(j);
                    pre.lemma_partial_at(j);
                }
                if self.has_partial(e) {
                    let j = choose|j: int|
                        0 <= j < self.partials().len() && self.partials()[j].entity_id == e;
                    assert(j != at);
                    assert(pre.partials()[j].entity_id == e);
                }
            }
            let m1 = step_op(pre.sch(), pre.dispatch_model(), Op::AddEntity(entity_id));
            assert(self.dispatch_model().sigs =~= m1.sigs);
            assert(self.dispatch_model().partial =~= m1.partial);
        }
    }

    /// Records the initial snapshot of one component for an entity arriving
    /// this critical section.  Snapshots for unknown components, of the
    /// wrong shape, for entities not arriving this section, or outside any
    /// section are dropped; the result says whether the snapshot was
    /// recorded.
    pub fn on_add_component(
        &mut self,
        entity_id: EntityId,
        component_id: ComponentId,
        snapshot: &Vec<i64>,
    ) -> (r: bool)
        requires
            old(self).wf(),
        ensures
            final(self).wf(),
            final(self).sch() == old(self).sch(),
            final(self).store() == old(self).store(),
            final(self).cmds() == old(self).cmds(),
            final(self).outbox_msgs() == old(self).outbox_msgs(),
            final(self).sys_times() == old(self).sys_times(),
            final(self).next_rid() == old(self).next_rid(),
            final(self).clock() == old(self).clock(),
            r == (old(self).in_cs() && old(self).has_partial(entity_id)
                && crate::dispatch::accepts_component(old(self).sch(), component_id, snapshot@)),
            r ==> final(self).has_partial(entity_id) && final(self).partial_for(
                entity_id,
            ).data_for(component_id).snapshot_of() == snapshot@,
            final(self).dispatch_model() == step_op(
                old(self).sch(),
                old(self).dispatch_model(),
                Op::AddComponent(entity_id, component_id, *snapshot),
            ),
    {
        let ghost pre = *self;
        if !self.in_critical_section {
            return false;
        }
        let n = self.added_this_cs.len();
        let mut i: usize = 0;
        let mut pos: Option<usize> = None;
        while i < n
            invariant
                i <= n,
                n == self.partials().len(),
                *self == pre,
                match pos {
                    Some(p) => p < n && self.partials()[p as int].entity_id == entity_id,
                    None => forall|j: int|
                        0 <= j < i ==> (#[trigger] self.partials()[j]).entity_id != entity_id,
                },
            decreases n - i,
        {
            if self.added_this_cs[i].entity_id == entity_id {
                pos = Some(i);
            }
            i = i + 1;
        }
        let p = match pos {
            Some(p) => p,
            None => {
                proof {
                    assert(!pre.has_partial(entity_id));
                }
                return false;
            },
        };
        proof {
            pre.lemma_partial_at(p as int);
        }
        let partial = &mut self.added_this_cs[p];
        let accepted = partial.add_component(&self.schema, component_id, snapshot);
        proof {
            let at = p as int;
            let len = self.partials().len() as int;
            assert(self.partials()[at].entity_id == pre.partials()[at].entity_id);
            assert(forall|j: int|
                0 <= j < len && j != at ==> #[trigger] self.partials()[j] == pre.partials()[j]);
            assert forall|p2: int, q2: int| 0 <= p2 < q2 < len implies (
            #[trigger] self.partials()[p2]).entity_id != (#[trigger] self.partials()[
                q2
            ]).entity_id by {
                assert(self.partials()[p2].entity_id == pre.partials()[p2].entity_id);
                assert(self.partials()[q2].entity_id == pre.partials()[q2].entity_id);
            }
            self.lemma_partial_at(at);
            assert forall|e: EntityId|
                e != entity_id implies self.has_partial(e) == pre.has_partial(e) && (
            pre.has_partial(e) ==> self.partial_for(e) == pre.partial_for(e)) by {
                if pre.has_partial(e) {
                    let j = choose|j: int|
                        0 <= j < pre.partials().len() && pre.partials()[j].entity_id == e;
                    assert(j != at);
                    assert(self.partials()[j].entity_id == e);
                    self.lemma_partial_at(j);
                    pre.lemma_partial_at(j);
                }
                if self.has_partial(e) {
                    let j = choose|j: int|
                        0 <= j < self.partials().len() && self.partials()[j].entity_id == e;
                    assert(j != at);
                    assert(pre.partials()[j].entity_id == e);
                }
            }
            assert(self.has_partial(entity_id) == pre.has_partial(entity_id));
            let m1 = step_op(
                pre.sch(),
                pre.dispatch_model(),
                Op::AddComponent(entity_id, component_id, *snapshot),
            );
            if accepted {
                assert(self.partial_for(entity_id).data_key_set() == pre.partial_for(
                    entity_id,
                ).data_key_set().insert(component_id));
            } else {
                assert(self.partials()[at].data_key_set() =~= pre.partials()[
                    at
                ].data_key_set()) by {
                    assert(self.partials()[at].component_data@ == pre.partials()[
                        at
                    ].component_data@);
                    assert forall|cid: ComponentId| #[trigger] self.partials()[at].has_data(cid)
                        == pre.partials()[at].has_data(cid) by {}
                }
                assert(self.partial_for(entity_id).data_key_set() == pre.partial_for(
                    entity_id,
                ).data_key_set()) by {
                    pre.lemma_partial_at(at);
                }
            }
            assert(self.dispatch_model().sigs =~= m1.sigs);
            assert(self.dispatch_model().partial =~= m1.partial);
        }
        accepted
    }

    /// Merges an inbound update: into the entity's accumulator while it is
    /// still arriving this critical section, and straight into the store
    /// otherwise, stamped with a fresh clock read.  Updates for unknown
    /// entities or components, or of the wrong shape, are dropped.
    pub fn on_component_update(
        &mut self,
        entity_id: EntityId,
        component_id: ComponentId,
        update: &ComponentUpdate,
    ) -> (r: bool)
        requires
            old(self).wf(),
        ensures
            final(self).wf(),
            final(self).sch() == old(self).sch(),
            final(self).cmds() == old(self).cmds(),
            final(self).outbox_msgs() == old(self).outbox_msgs(),
            final(self).sys_times() == old(self).sys_times(),
            final(self).next_rid() == old(self).next_rid(),
            final(self).dispatch_model() == old(self).dispatch_model(),
            old(self).in_cs() && old(self).has_partial(entity_id) ==> {
                &&& final(self).store() == old(self).store()
                &&& r == (old(self).partial_for(entity_id).has_data(component_id) && old(self).sch().descriptor_of(component_id).update_fits(*update))
                &&& (!r ==> final(self).partial_for(entity_id).component_data@ == old(self).partial_for(entity_id).component_data@)
                &&& (r ==> {
                    let d = final(self).partial_for(entity_id).data_for(component_id);
                    let o = old(self).partial_for(entity_id).data_for(component_id);
                    &&& d.fields() == crate::data::applied_fields(o.fields(), update.ufields())
                    &&& d.events().len() == o.events().len()
                    &&& (forall|k: int|
                        0 <= k < o.events().len() ==> (#[trigger] d.events()[k]).received()
                            == o.events()[k].received() + update.uevents()[k] && d.events()[
                            k
                        ].staged() == o.events()[k].staged())
                })
            },
            !(old(self).in_cs() && old(self).has_partial(entity_id)) ==> {
                &&& r == (old(self).store().has_entity(entity_id) && old(self).store().entity_has_component(entity_id, component_id) && update.ufields().len()
                    == old(self).store().entity_chunk(entity_id).col_for(component_id).nfields()
                    && update.uevents().len() == old(self).store().entity_chunk(
                    entity_id,
                ).col_for(component_id).nevents())
                &&& (!r ==> final(self).store().chunks() == old(self).store().chunks() && final(self).store().locs() == old(self).store().locs())
                &&& crate::store::EntityCollection::model_preserved_except(
                    old(self).store(),
                    final(self).store(),
                    old(self).sch(),
                    entity_id,
                )
                &&& (r ==> {
                    let e = final(self).store().entity_entry(entity_id, component_id);
                    let o = old(self).store().entity_entry(entity_id, component_id);
                    &&& e.last_updated.stamp() == old(self).clock().stamp()
                    &&& e.data.fields() == crate::data::applied_fields(
                        o.data.fields(),
                        update.ufields(),
                    )
                    &&& e.data.events().len() == o.data.events().len()
                    &&& (forall|k: int|
                        0 <= k < o.data.events().len() ==> (#[trigger] e.data.events()[
                            k
                        ]).received() == o.data.events()[k].received() + update.uevents()[k]
                            && e.data.events()[k].staged() == o.data.events()[k].staged())
                })
            },
    {
        let ghost pre = *self;
        if self.in_critical_section {
            let n = self.added_this_cs.len();
            let mut i: usize = 0;
            let mut pos: Option<usize> = None;
            while i < n
                invariant
                    i <= n,
                    n == self.partials().len(),
                    *self == pre,
                    match pos {
                        Some(p) => p < n && self.partials()[p as int].entity_id == entity_id,
                        None => forall|j: int|
                            0 <= j < i ==> (#[trigger] self.partials()[j]).entity_id != entity_id,
                    },
                decreases n - i,
            {
                if self.added_this_cs[i].entity_id == entity_id {
                    pos = Some(i);
                }
                i = i + 1;
            }
            match pos {
                Some(p) => {
                    proof {
                        pre.lemma_partial_at(p as int);
                    }
                    let partial = &mut self.added_this_cs[p];
                    let applied_in_cs = partial.apply_update(&self.schema, component_id, update);
                    proof {
                        let at = p as int;
                        let len = self.partials().len() as int;
                        assert(self.partials()[at].entity_id == pre.partials()[at].entity_id);
                        assert(forall|j: int|
                            0 <= j < len && j != at ==> #[trigger] self.partials()[j]
                                == pre.partials()[j]);
                        assert forall|p2: int, q2: int| 0 <= p2 < q2 < len implies (
                        #[trigger] self.partials()[p2]).entity_id != (#[trigger] self.partials()[
                            q2
                        ]).entity_id by {
                            assert(self.partials()[p2].entity_id == pre.partials()[p2].entity_id);
                            assert(self.partials()[q2].entity_id == pre.partials()[q2].entity_id);
                        }
                        self.lemma_partial_at(at);
                        assert forall|e: EntityId| #[trigger] self.has_partial(e)
                            == pre.has_partial(e) && (pre.has_partial(e) && e != entity_id
                            ==> self.partial_for(e) == pre.partial_for(e)) by {
                            if pre.has_partial(e) {
                                let j = choose|j: int|
                                    0 <= j < pre.partials().len() && pre.partials()[j].entity_id
                                        == e;
                                assert(self.partials()[j].entity_id == e);
                                if e != entity_id {
                                    assert(j != at);
                                    self.lemma_partial_at(j);
                                    pre.lemma_partial_at(j);
                                }
                            }
                            if self.has_partial(e) {
                                let j = choose|j: int|
                                    0 <= j < self.partials().len() && self.partials()[j].entity_id
                                        == e;
                                assert(pre.partials()[j].entity_id == e);
                            }
                        }
                        assert(self.partial_for(entity_id).data_key_set() == pre.partial_for(
                            entity_id,
                        ).data_key_set());
                        assert(self.dispatch_model().sigs =~= pre.dispatch_model().sigs);
                        assert(self.dispatch_model().partial =~= pre.dispatch_model().partial);
                        assert(self.partial_for(entity_id) == self.partials()[at]);
                        assert(pre.partial_for(entity_id) == pre.partials()[at]);
                    }
                    return applied_in_cs;
                },
                None => {
                    proof {
                        assert(!pre.has_partial(entity_id));
                    }
                },
            }
        }
        let now = self.world_time.get_time();
        let applied = self.entities.apply_component_update(
            &self.schema,
            entity_id,
            component_id,
            update,
            now,
        );
        proof {
            assert forall|e: EntityId| #[trigger] self.entities.has_entity(e)
                == pre.store().has_entity(e) by {
                if self.entities.has_entity(e) {
                }
                if pre.store().has_entity(e) {
                }
            }
            lemma_model_eq_store(pre, *self);
        }
        applied
    }

    /// Records the fabric's authority signal: into the entity's accumulator
    /// while it is still arriving this critical section, and straight into
    /// the store otherwise.  Signals for unknown entities or components are
    /// dropped.
    pub fn on_authority_change(
        &mut self,
        entity_id: EntityId,
        component_id: ComponentId,
        authority: Authority,
    ) -> (r: bool)
        requires
            old(self).wf(),
        ensures
            final(self).wf(),
            final(self).sch() == old(self).sch(),
            final(self).cmds() == old(self).cmds(),
            final(self).outbox_msgs() == old(self).outbox_msgs(),
            final(self).sys_times() == old(self).sys_times(),
            final(self).next_rid() == old(self).next_rid(),
            final(self).clock() == old(self).clock(),
            final(self).dispatch_model() == old(self).dispatch_model(),
            old(self).in_cs() && old(self).has_partial(entity_id) ==> final(self).store() == old(self).store() && r && final(self).has_partial(entity_id) && final(self).partial_for(
                entity_id,
            ).auth_for(component_id) == authority && (forall|c2: ComponentId|
                c2 != component_id ==> final(self).partial_for(entity_id).auth_for(c2) == old(self).partial_for(entity_id).auth_for(c2)),
            !(old(self).in_cs() && old(self).has_partial(entity_id)) ==> {
                &&& r == (old(self).store().has_entity(entity_id) && old(self).store().entity_has_component(entity_id, component_id))
                &&& crate::store::EntityCollection::model_preserved_except(
                    old(self).store(),
                    final(self).store(),
                    old(self).sch(),
                    entity_id,
                )
                &&& (r ==> final(self).store().entity_entry(entity_id, component_id) == old(self).store().entity_entry(entity_id, component_id) && final(self).store().entity_auth(
                    entity_id,
                    component_id,
                ) == authority.spec_permits_writes())
            },
    {
        let ghost pre = *self;
        if self.in_critical_section {
            let n = self.added_this_cs.len();
            let mut i: usize = 0;
            let mut pos: Option<usize> = None;
            while i < n
                invariant
                    i <= n,
                    n == self.partials().len(),
                    *self == pre,
                    match pos {
                        Some(p) => p < n && self.partials()[p as int].entity_id == entity_id,
                        None => forall|j: int|
                            0 <= j < i ==> (#[trigger] self.partials()[j]).entity_id != entity_id,
                    },
                decreases n - i,
            {
                if self.added_this_cs[i].entity_id == entity_id {
                    pos = Some(i);
                }
                i = i + 1;
            }
            match pos {
                Some(p) => {
                    proof {
                        pre.lemma_partial_at(p as int);
                    }
                    let partial = &mut self.added_this_cs[p];
                    partial.record_authority(component_id, authority);
                    proof {
                        let at = p as int;
                        let len = self.partials().len() as int;
                        assert(self.partials()[at].entity_id == pre.partials()[at].entity_id);
                        assert(forall|j: int|
                            0 <= j < len && j != at ==> #[trigger] self.partials()[j]
                                == pre.partials()[j]);
                        assert forall|p2: int, q2: int| 0 <= p2 < q2 < len implies (
                        #[trigger] self.partials()[p2]).entity_id != (#[trigger] self.partials()[
                            q2
                        ]).entity_id by {
                            assert(self.partials()[p2].entity_id == pre.partials()[p2].entity_id);
                            assert(self.partials()[q2].entity_id == pre.partials()[q2].entity_id);
                        }
                        self.lemma_partial_at(at);
                        assert(self.partials()[at].wf(pre.sch())) by {
                            let np = self.partials()[at];
                            let op = pre.partials()[at];
                            assert(np.component_data@ == op.component_data@);
                            assert(np.bit_field == op.bit_field);
                            assert(op.wf(pre.sch()));
                            assert(np.data_key_set() =~= op.data_key_set()) by {
                                assert forall|cid: ComponentId| #[trigger] np.has_data(cid)
                                    == op.has_data(cid) by {}
                            }
                        }
                        assert forall|e: EntityId| #[trigger] self.has_partial(e)
                            == pre.has_partial(e) && (pre.has_partial(e) ==> self.partial_for(
                            e,
                        ).data_key_set() == pre.partial_for(e).data_key_set()) by {
                            if pre.has_partial(e) {
                                let j = choose|j: int|
                                    0 <= j < pre.partials().len() && pre.partials()[j].entity_id
                                        == e;
                                assert(self.partials()[j].entity_id == e);
                                self.lemma_partial_at(j);
                                pre.lemma_partial_at(j);
                                if j == at {
                                    let np = self.partials()[at];
                                    let op = pre.partials()[at];
                                    assert(np.data_key_set() =~= op.data_key_set()) by {
                                        assert forall|cid: ComponentId| #[trigger] np.has_data(cid)
                                            == op.has_data(cid) by {}
                                    }
                                }
                            }
                            if self.has_partial(e) {
                                let j = choose|j: int|
                                    0 <= j < self.partials().len() && self.partials()[j].entity_id
                                        == e;
                                assert(pre.partials()[j].entity_id == e);
                            }
                        }
                        assert(self.dispatch_model().sigs =~= pre.dispatch_model().sigs);
                        assert(self.dispatch_model().partial =~= pre.dispatch_model().partial);
                    }
                    return true;
                },
                None => {
                    proof {
                        assert(!pre.has_partial(entity_id));
                    }
                },
            }
        }
        let applied = self.entities.apply_authority(
            &self.schema,
            entity_id,
            component_id,
            authority,
        );
        proof {
            lemma_model_eq_store(pre, *self);
        }
        applied
    }

    /// Removes an entity from the worker's view; removing an unknown id
    /// changes nothing.
    pub fn on_remove_entity(&mut self, entity_id: EntityId) -> (r: bool)
        requires
            old(self).wf(),
        ensures
            final(self).wf(),
            final(self).sch() == old(self).sch(),
            final(self).cmds() == old(self).cmds(),
            final(self).outbox_msgs() == old(self).outbox_msgs(),
            final(self).sys_times() == old(self).sys_times(),
            final(self).next_rid() == old(self).next_rid(),
            final(self).clock() == old(self).clock(),
            r == old(self).store().has_entity(entity_id),
            final(self).dispatch_model() == step_op(
                old(self).sch(),
                old(self).dispatch_model(),
                Op::RemoveEntity(entity_id),
            ),
            crate::store::EntityCollection::model_preserved_except(
                old(self).store(),
                final(self).store(),
                old(self).sch(),
                entity_id,
            ),
            !final(self).store().has_entity(entity_id),
    {
        let ghost pre = *self;
        let r = self.entities.evict(&self.schema, entity_id);
        proof {
            let m1 = step_op(pre.sch(), pre.dispatch_model(), Op::RemoveEntity(entity_id));
            assert(self.dispatch_model().sigs =~= m1.sigs) by {
                assert forall|e: EntityId|
                    self.dispatch_model().sigs.dom().contains(e) == m1.sigs.dom().contains(e) && (
                m1.sigs.dom().contains(e) ==> self.dispatch_model().sigs[e] == m1.sigs[e]) by {
                    if e != entity_id && pre.store().has_entity(e) {
                        assert(self.store().has_entity(e));
                    }
                }
            }
            assert(self.dispatch_model().partial =~= m1.partial) by {
                assert(self.partials() == pre.partials());
                assert forall|e: EntityId| #[trigger] self.has_partial(e) == pre.has_partial(e)
                    && (pre.has_partial(e) ==> self.partial_for(e) == pre.partial_for(e)) by {
                    if pre.has_partial(e) {
                        let j = choose|j: int|
                            0 <= j < pre.partials().len() && pre.partials()[j].entity_id == e;
                        assert(self.partials()[j].entity_id == e);
                        self.lemma_partial_at(j);
                        pre.lemma_partial_at(j);
                    }
                    if self.has_partial(e) {
                        let j = choose|j: int|
                            0 <= j < self.partials().len() && self.partials()[j].entity_id == e;
                        assert(pre.partials()[j].entity_id == e);
                    }
                }
            }
            if !r {
                assert(crate::store::EntityCollection::model_preserved_except(
                    pre.store(),
                    self.store(),
                    pre.sch(),
                    entity_id,
                )) by {
                    assert(self.store() == pre.store()) by {
                        assert(self.entities == pre.store());
                    }
                }
            }
            assert(self.wf()) by {
                assert(self.partials() == pre.partials());
                assert(self.cmds() == pre.cmds());
                assert(pre.wf());
            }
        }
        r
    }

    /// Removes one component from an entity: while the entity is still
    /// accumulating this critical section its recorded data and signature
    /// bit go; an admitted entity migrates to a chunk of the smaller
    /// signature, keeping every other component's data and authority, with
    /// the moved rows stamped by a fresh clock read.  Removals for unknown
    /// entities or components the entity does not carry change nothing.
    pub fn on_remove_component(&mut self, entity_id: EntityId, component_id: ComponentId) -> (r:
        bool)
        requires
            old(self).wf(),
        ensures
            final(self).wf(),
            final(self).sch() == old(self).sch(),
            final(self).cmds() == old(self).cmds(),
            final(self).outbox_msgs() == old(self).outbox_msgs(),
            final(self).sys_times() == old(self).sys_times(),
            final(self).next_rid() == old(self).next_rid(),
            final(self).dispatch_model() == step_op(
                old(self).sch(),
                old(self).dispatch_model(),
                Op::RemoveComponent(entity_id, component_id),
            ),
            old(self).in_cs() && old(self).has_partial(entity_id) ==> final(self).store() == old(self).store(),
            !(old(self).in_cs() && old(self).has_partial(entity_id)) ==> {
                &&& r == (old(self).store().has_entity(entity_id) && old(self).store().entity_has_component(entity_id, component_id))
                &&& crate::store::EntityCollection::model_preserved_except(
                    old(self).store(),
                    final(self).store(),
                    old(self).sch(),
                    entity_id,
                )
                &&& (forall|e: EntityId|
                    #[trigger] final(self).store().has_entity(e) == old(self).store().has_entity(
                        e,
                    ))
                &&& (r ==> !final(self).store().entity_has_component(entity_id, component_id)
                    && (forall|c2: ComponentId|
                    c2 != component_id && old(self).store().entity_has_component(entity_id, c2)
                        ==> final(self).store().entity_entry(entity_id, c2).data == old(self).store().entity_entry(entity_id, c2).data && final(self).store().entity_auth(
                        entity_id,
                        c2,
                    ) == old(self).store().entity_auth(entity_id, c2)))
            },
    {
        let ghost pre = *self;
        if self.in_critical_section {
            let n = self.added_this_cs.len();
            let mut i: usize = 0;
            let mut pos: Option<usize> = None;
            while i < n
                invariant
                    i <= n,
                    n == self.partials().len(),
                    *self == pre,
                    match pos {
                        Some(p) => p < n && self.partials()[p as int].entity_id == entity_id,
                        None => forall|j: int|
                            0 <= j < i ==> (#[trigger] self.partials()[j]).entity_id != entity_id,
                    },
                decreases n - i,
            {
                if self.added_this_cs[i].entity_id == entity_id {
                    pos = Some(i);
                }
                i = i + 1;
            }
            match pos {
                Some(p) => {
                    proof {
                        pre.lemma_partial_at(p as int);
                    }
                    let partial = &mut self.added_this_cs[p];
                    let r = partial.remove_component(&self.schema, component_id);
                    proof {
                        let at = p as int;
                        let len = self.partials().len() as int;
                        assert(self.partials()[at].entity_id == pre.partials()[at].entity_id);
                        assert(forall|j: int|
                            0 <= j < len && j != at ==> #[trigger] self.partials()[j]
                                == pre.partials()[j]);
                        assert forall|p2: int, q2: int| 0 <= p2 < q2 < len implies (
                        #[trigger] self.partials()[p2]).entity_id != (#[trigger] self.partials()[
                            q2
                        ]).entity_id by {
                            assert(self.partials()[p2].entity_id == pre.partials()[p2].entity_id);
                            assert(self.partials()[q2].entity_id == pre.partials()[q2].entity_id);
                        }
                        self.lemma_partial_at(at);
                        assert forall|e: EntityId| #[trigger] self.has_partial(e)
                            == pre.has_partial(e) && (pre.has_partial(e) && e != entity_id
                            ==> self.partial_for(e) == pre.partial_for(e)) by {
                            if pre.has_partial(e) {
                                let j = choose|j: int|
                                    0 <= j < pre.partials().len() && pre.partials()[j].entity_id
                                        == e;
                                assert(self.partials()[j].entity_id == e);
                                if e != entity_id {
                                    assert(j != at);
                                    self.lemma_partial_at(j);
                                    pre.lemma_partial_at(j);
                                }
                            }
                            if self.has_partial(e) {
                                let j = choose|j: int|
                                    0 <= j < self.partials().len() && self.partials()[j].entity_id
                                        == e;
                                assert(pre.partials()[j].entity_id == e);
                            }
                        }
                        assert(self.partial_for(entity_id).data_key_set() == pre.partial_for(
                            entity_id,
                        ).data_key_set().remove(component_id));
                        let m1 = step_op(
                            pre.sch(),
                            pre.dispatch_model(),
                            Op::RemoveComponent(entity_id, component_id),
                        );
                        assert(self.dispatch_model().sigs =~= m1.sigs);
                        assert(self.dispatch_model().partial =~= m1.partial);
                    }
                    return r;
                },
                None => {
                    proof {
                        assert(!pre.has_partial(entity_id));
                    }
                },
            }
        }
        let now = self.world_time.get_time();
        let r = self.entities.remove_component(&self.schema, entity_id, component_id, now);
        proof {
            let m1 = step_op(
                pre.sch(),
                pre.dispatch_model(),
                Op::RemoveComponent(entity_id, component_id),
            );
            assert(self.dispatch_model().sigs =~= m1.sigs) by {
                assert forall|e: EntityId|
                    self.dispatch_model().sigs.dom().contains(e) == m1.sigs.dom().contains(e) && (
                m1.sigs.dom().contains(e) ==> self.dispatch_model().sigs[e] == m1.sigs[e]) by {
                    assert(self.store().has_entity(e) == pre.store().has_entity(e));
                    if pre.store().has_entity(e) {
                        if e != entity_id {
                            assert(self.store().entity_sig_ids(pre.sch(), e)
                                == pre.store().entity_sig_ids(pre.sch(), e));
                        } else {
                            if r {
                                assert(self.store().entity_sig_ids(pre.sch(), e)
                                    == pre.store().entity_sig_ids(pre.sch(), e).remove(
                                    component_id,
                                ));
                            } else {
                                assert(self.store().chunks() == pre.store().chunks()
                                    && self.store().locs() == pre.store().locs());
                                assert(self.store().entity_sig_ids(pre.sch(), e)
                                    == pre.store().entity_sig_ids(pre.sch(), e));
                                assert(!pre.store().entity_has_component(e, component_id));
                                assert(!pre.store().entity_sig_ids(pre.sch(), e).contains(
                                    component_id,
                                )) by {
                                    let ci = pre.store().chunk_of(e);
                                    pre.store().lemma_loc_at(pre.store().loc_index(e));
                                    assert(pre.store().chunks()[ci].wf(pre.sch()));
                                    assert(pre.sch().signature_ids(
                                        pre.store().chunks()[ci].sig(),
                                    ) == pre.store().chunks()[ci].col_id_set());
                                }
                                assert(pre.store().entity_sig_ids(pre.sch(), e).remove(
                                    component_id,
                                ) =~= pre.store().entity_sig_ids(pre.sch(), e));
                            }
                        }
                    }
                }
            }
            assert(self.dispatch_model().partial =~= m1.partial) by {
                assert(self.partials() == pre.partials());
                assert forall|e: EntityId| #[trigger] self.has_partial(e) == pre.has_partial(e)
                    && (pre.has_partial(e) ==> self.partial_for(e) == pre.partial_for(e)) by {
                    if pre.has_partial(e) {
                        let j = choose|j: int|
                            0 <= j < pre.partials().len() && pre.partials()[j].entity_id == e;
                        assert(self.partials()[j].entity_id == e);
                        self.lemma_partial_at(j);
                        pre.lemma_partial_at(j);
                    }
                    if self.has_partial(e) {
                        let j = choose|j: int|
                            0 <= j < self.partials().len() && self.partials()[j].entity_id == e;
                        assert(pre.partials()[j].entity_id == e);
                    }
                }
            }
            assert(self.wf()) by {
                assert(self.partials() == pre.partials());
                assert(self.cmds() == pre.cmds());
                assert(pre.wf());
            }
        }
        r
    }

    /// Registers a command handler key; the driver owns the handler closure
    /// itself.  Registering the same `(component, command)` pair twice is a
    /// wiring bug: the second registration is refused and the driver must
    /// abort.
    pub fn register_command_handler(&mut self, component_id: ComponentId, command_index: u32) -> (r:
        bool)
        requires
            old(self).wf(),
        ensures
            final(self).wf(),
            r == !old(self).cmds().has_handler(component_id, command_index),
            final(self).cmds().has_handler(component_id, command_index),
            forall|c: ComponentId, x: u32|
                !(c == component_id && x == command_index) ==> final(self).cmds().has_handler(c, x)
                    == old(self).cmds().has_handler(c, x),
            final(self).sch() == old(self).sch(),
            final(self).store() == old(self).store(),
            final(self).outbox_msgs() == old(self).outbox_msgs(),
            final(self).dispatch_model() == old(self).dispatch_model(),
            final(self).cmds().command_pending() == old(self).cmds().command_pending(),
            final(self).cmds().create_pending() == old(self).cmds().create_pending(),
            final(self).cmds().delete_pending() == old(self).cmds().delete_pending(),
            final(self).next_rid() == old(self).next_rid(),
    {
        let ghost pre = *self;
        if self.commands.handler_registered(component_id, command_index) {
            return false;
        }
        let r = self.commands.register_handler(component_id, command_index);
        proof {
            lemma_model_eq(pre, *self);
        }
        r
    }

    /// Answers an inbound command: looks up the handler key and, when one is
    /// registered, returns the invocation the driver owes its handler
    /// closure.  Requests without a registered handler are dropped.
    pub fn on_command_request(
        &self,
        request_id: RequestId,
        entity_id: EntityId,
        component_id: ComponentId,
        command_index: u32,
        payload: Vec<i64>,
    ) -> (r: Option<WorldEvent>)
        ensures
            match r {
                Some(ev) => self.cmds().has_handler(component_id, command_index) && ev
                    == (WorldEvent::HandlerInvocation {
                    request_id,
                    entity_id,
                    component_id,
                    command_index,
                    payload,
                }),
                None => !self.cmds().has_handler(component_id, command_index),
            },
    {
        if self.commands.handler_registered(component_id, command_index) {
            Some(
                WorldEvent::HandlerInvocation {
                    request_id,
                    entity_id,
                    component_id,
                    command_index,
                    payload,
                },
            )
        } else {
            None
        }
    }

    /// Resolves a command response from the fabric: the parked callback
    /// fires exactly once — success with the payload, or failure with the
    /// status and message — and a response for an unknown or already-fired
    /// request id fires nothing.
    pub fn on_command_response(
        &mut self,
        request_id: RequestId,
        entity_id: EntityId,
        payload: Option<Vec<i64>>,
        status: CommandStatus,
        message: String,
    ) -> (r: Option<WorldEvent>)
        requires
            old(self).wf(),
        ensures
            final(self).wf(),
            final(self).sch() == old(self).sch(),
            final(self).store() == old(self).store(),
            final(self).outbox_msgs() == old(self).outbox_msgs(),
            final(self).sys_times() == old(self).sys_times(),
            final(self).dispatch_model() == old(self).dispatch_model(),
            final(self).next_rid() == old(self).next_rid(),
            final(self).cmds().handlers() == old(self).cmds().handlers(),
            r is Some <==> pending_contains(old(self).cmds().command_pending(), request_id),
            !pending_contains(final(self).cmds().command_pending(), request_id),
            forall|q: RequestId|
                q != request_id ==> pending_contains(final(self).cmds().command_pending(), q)
                    == pending_contains(old(self).cmds().command_pending(), q),
            final(self).cmds().create_pending() == old(self).cmds().create_pending(),
            final(self).cmds().delete_pending() == old(self).cmds().delete_pending(),
            r is Some ==> r->0 == if status == CommandStatus::Success {
                (WorldEvent::CommandSuccess { request_id, entity_id, payload })
            } else {
                (WorldEvent::CommandFailure { request_id, status, message })
            },
    {
        let ghost pre = *self;
        let had = self.commands.take_command(request_id);
        proof {
            lemma_model_eq(pre, *self);
            assert forall|q: RequestId|
                #[trigger] pending_contains(self.cmds().command_pending(), q) implies q
                < self.next_rid() by {
                assert(pending_contains(pre.cmds().command_pending(), q));
            }
        }
        if !had {
            return None;
        }
        if matches!(status, CommandStatus::Success) {
            Some(WorldEvent::CommandSuccess { request_id, entity_id, payload })
        } else {
            Some(WorldEvent::CommandFailure { request_id, status, message })
        }
    }

    /// Resolves an entity-creation response, with the same single-delivery
    /// guarantee as `on_command_response`.
    pub fn on_create_entity_response(
        &mut self,
        request_id: RequestId,
        entity_id: EntityId,
        status: CommandStatus,
        message: String,
    ) -> (r: Option<WorldEvent>)
        requires
            old(self).wf(),
        ensures
            final(self).wf(),
            final(self).sch() == old(self).sch(),
            final(self).store() == old(self).store(),
            final(self).outbox_msgs() == old(self).outbox_msgs(),
            final(self).sys_times() == old(self).sys_times(),
            final(self).dispatch_model() == old(self).dispatch_model(),
            final(self).next_rid() == old(self).next_rid(),
            final(self).cmds().handlers() == old(self).cmds().handlers(),
            r is Some <==> pending_contains(old(self).cmds().create_pending(), request_id),
            !pending_contains(final(self).cmds().create_pending(), request_id),
            forall|q: RequestId|
                q != request_id ==> pending_contains(final(self).cmds().create_pending(), q)
                    == pending_contains(old(self).cmds().create_pending(), q),
            final(self).cmds().command_pending() == old(self).cmds().command_pending(),
            final(self).cmds().delete_pending() == old(self).cmds().delete_pending(),
            r is Some ==> r->0 == if status == CommandStatus::Success {
                (WorldEvent::CreateEntitySuccess { request_id, entity_id })
            } else {
                (WorldEvent::CreateEntityFailure { request_id, status, message })
            },
    {
        let ghost pre = *self;
        let had = self.commands.take_create(request_id);
        proof {
            lemma_model_eq(pre, *self);
            assert forall|q: RequestId|
                #[trigger] pending_contains(self.cmds().create_pending(), q) implies q
                < self.next_rid() by {
                assert(pending_contains(pre.cmds().create_pending(), q));
            }
        }
        if !had {
            return None;
        }
        if matches!(status, CommandStatus::Success) {
            Some(WorldEvent::CreateEntitySuccess { request_id, entity_id })
        } else {
            Some(WorldEvent::CreateEntityFailure { request_id, status, message })
        }
    }

    /// Resolves an entity-deletion response, with the same single-delivery
    /// guarantee as `on_command_response`.
    pub fn on_delete_entity_response(
        &mut self,
        request_id: RequestId,
        entity_id: EntityId,
        status: CommandStatus,
        message: String,
    ) -> (r: Option<WorldEvent>)
        requires
            old(self).wf(),
        ensures
            final(self).wf(),
            final(self).sch() == old(self).sch(),
            final(self).store() == old(self).store(),
            final(self).outbox_msgs() == old(self).outbox_msgs(),
            final(self).sys_times() == old(self).sys_times(),
            final(self).dispatch_model() == old(self).dispatch_model(),
            final(self).next_rid() == old(self).next_rid(),
            final(self).cmds().handlers() == old(self).cmds().handlers(),
            r is Some <==> pending_contains(old(self).cmds().delete_pending(), request_id),
            !pending_contains(final(self).cmds().delete_pending(), request_id),
            forall|q: RequestId|
                q != request_id ==> pending_contains(final(self).cmds().delete_pending(), q)
                    == pending_contains(old(self).cmds().delete_pending(), q),
            final(self).cmds().command_pending() == old(self).cmds().command_pending(),
            final(self).cmds().create_pending() == old(self).cmds().create_pending(),
            r is Some ==> r->0 == if status == CommandStatus::Success {
                (WorldEvent::DeleteEntitySuccess { request_id, entity_id })
            } else {
                (WorldEvent::DeleteEntityFailure { request_id, status, message })
            },
    {
        let ghost pre = *self;
        let had = self.commands.take_delete(request_id);
        proof {
            lemma_model_eq(pre, *self);
            assert forall|q: RequestId|
                #[trigger] pending_contains(self.cmds().delete_pending(), q) implies q
                < self.next_rid() by {
                assert(pending_contains(pre.cmds().delete_pending(), q));
            }
        }
        if !had {
            return None;
        }
        if matches!(status, CommandStatus::Success) {
            Some(WorldEvent::DeleteEntitySuccess { request_id, entity_id })
        } else {
            Some(WorldEvent::DeleteEntityFailure { request_id, status, message })
        }
    }

    /// Dispatches one polled op list, in fabric order, and returns the
    /// callback invocations the driver owes its closures: the op-dispatch
    /// state machine folds over the list, the registry consumes exactly the
    /// answered request ids, the returned events are exactly what the list
    /// owes, and each op's effect on the store is the one its handler method
    /// states.
    pub fn process_op_list(&mut self, op_list: OpList) -> (events: Vec<WorldEvent>)
        requires
            old(self).wf(),
        ensures
            final(self).wf(),
            final(self).sch() == old(self).sch(),
            final(self).outbox_msgs() == old(self).outbox_msgs(),
            final(self).sys_times() == old(self).sys_times(),
            final(self).cmds().handlers() == old(self).cmds().handlers(),
            final(self).dispatch_model() == crate::dispatch::run_ops(
                old(self).sch(),
                old(self).dispatch_model(),
                op_list.ops@,
            ),
            final(self).command_model() == crate::dispatch::run_cmd_from(
                old(self).command_model(),
                op_list.ops@,
                0,
            ),
            events@ == crate::dispatch::run_events_from(
                old(self).command_model(),
                op_list.ops@,
                0,
            ),
    {
        let ghost ops0 = op_list.ops@;
        let ghost m0 = self.dispatch_model();
        let ghost cm0 = self.command_model();
        let mut op_list = op_list;
        let mut events: Vec<WorldEvent> = Vec::new();
        let n = op_list.ops.len();
        let mut i: usize = 0;
        while i < n
            invariant
                self.wf(),
                i <= n,
                n == ops0.len(),
                op_list.ops@.len() == n,
                forall|j: int| i <= j < n ==> #[trigger] op_list.ops@[j] == ops0[j],
                self.sch() == old(self).sch(),
                self.outbox_msgs() == old(self).outbox_msgs(),
                self.sys_times() == old(self).sys_times(),
                self.cmds().handlers() == old(self).cmds().handlers(),
                m0 == old(self).dispatch_model(),
                cm0 == old(self).command_model(),
                run_ops_from(self.sch(), self.dispatch_model(), ops0, i as int) == run_ops_from(
                    self.sch(),
                    m0,
                    ops0,
                    0,
                ),
                crate::dispatch::run_cmd_from(self.command_model(), ops0, i as int)
                    == crate::dispatch::run_cmd_from(cm0, ops0, 0),
                events@ + crate::dispatch::run_events_from(self.command_model(), ops0, i as int)
                    == crate::dispatch::run_events_from(cm0, ops0, 0),
            decreases n - i,
        {
            let mut op = Op::Unknown;
            op_list.ops.set_and_swap(i, &mut op);
            proof {
                assert(op == ops0[i as int]);
            }
            let ghost w_before = *self;
            let ghost m_before = self.dispatch_model();
            let ghost cm_before = self.command_model();
            let ghost events_before = events@;
            match op {
                Op::CriticalSection(opening) => {
                    self.on_critical_section(opening);
                    proof {
                        lemma_cmd_model_eq(w_before, *self);
                    }
                },
                Op::AddEntity(eid) => {
                    self.on_add_entity(eid);
                    proof {
                        lemma_cmd_model_eq(w_before, *self);
                    }
                },
                Op::AddComponent(eid, cid, snapshot) => {
                    let _ = self.on_add_component(eid, cid, &snapshot);
                    proof {
                        assert(self.dispatch_model() == step_op(
                            self.sch(),
                            m_before,
                            ops0[i as int],
                        ));
                        lemma_cmd_model_eq(w_before, *self);
                    }
                },
                Op::RemoveEntity(eid) => {
                    let _ = self.on_remove_entity(eid);
                    proof {
                        lemma_cmd_model_eq(w_before, *self);
                    }
                },
                Op::RemoveComponent(eid, cid) => {
                    let _ = self.on_remove_component(eid, cid);
                    proof {
                        lemma_cmd_model_eq(w_before, *self);
                    }
                },
                Op::ComponentUpdate(eid, cid, update) => {
                    let _ = self.on_component_update(eid, cid, &update);
                    proof {
                        lemma_cmd_model_eq(w_before, *self);
                    }
                },
                Op::AuthorityChange(eid, cid, authority) => {
                    let _ = self.on_authority_change(eid, cid, authority);
                    proof {
                        lemma_cmd_model_eq(w_before, *self);
                    }
                },
                Op::CommandRequest(request_id, eid, cid, command_index, payload) => {
                    match self.on_command_request(request_id, eid, cid, command_index, payload) {
                        Some(ev) => {
                            proof {
                                assert(cm_before.handlers.contains((cid, command_index)));
                                assert(events@.push(ev) =~= events@ + crate::dispatch::op_events(
                                    cm_before,
                                    ops0[i as int],
                                ));
                            }
                            events.push(ev);
                        },
                        None => {
                            proof {
                                assert(!cm_before.handlers.contains((cid, command_index)));
                                assert(events@ =~= events@ + crate::dispatch::op_events(
                                    cm_before,
                                    ops0[i as int],
                                ));
                            }
                        },
                    }
                },
                Op::CommandResponse(request_id, eid, payload, status, message) => {
                    match self.on_command_response(request_id, eid, payload, status, message) {
                        Some(ev) => {
                            proof {
                                assert(cm_before.command_pending.contains(request_id));
                                assert(events@.push(ev) =~= events@ + crate::dispatch::op_events(
                                    cm_before,
                                    ops0[i as int],
                                ));
                            }
                            events.push(ev);
                        },
                        None => {
                            proof {
                                assert(!cm_before.command_pending.contains(request_id));
                                assert(events@ =~= events@ + crate::dispatch::op_events(
                                    cm_before,
                                    ops0[i as int],
                                ));
                            }
                        },
                    }
                    proof {
                        let stepped = crate::dispatch::step_cmd(cm_before, ops0[i as int]);
                        assert(self.command_model().handlers =~= stepped.handlers);
                        assert(self.command_model().command_pending =~= stepped.command_pending);
                        assert(self.command_model().create_pending =~= stepped.create_pending);
                        assert(self.command_model().delete_pending =~= stepped.delete_pending);
                    }
                },
                Op::CreateEntityResponse(request_id, eid, status, message) => {
                    match self.on_create_entity_response(request_id, eid, status, message) {
                        Some(ev) => {
                            proof {
                                assert(cm_before.create_pending.contains(request_id));
                                assert(events@.push(ev) =~= events@ + crate::dispatch::op_events(
                                    cm_before,
                                    ops0[i as int],
                                ));
                            }
                            events.push(ev);
                        },
                        None => {
                            proof {
                                assert(!cm_before.create_pending.contains(request_id));
                                assert(events@ =~= events@ + crate::dispatch::op_events(
                                    cm_before,
                                    ops0[i as int],
                                ));
                            }
                        },
                    }
                    proof {
                        let stepped = crate::dispatch::step_cmd(cm_before, ops0[i as int]);
                        assert(self.command_model().handlers =~= stepped.handlers);
                        assert(self.command_model().command_pending =~= stepped.command_pending);
                        assert(self.command_model().create_pending =~= stepped.create_pending);
                        assert(self.command_model().delete_pending =~= stepped.delete_pending);
                    }
                },
                Op::DeleteEntityResponse(request_id, eid, status, message) => {
                    match self.on_delete_entity_response(request_id, eid, status, message) {
                        Some(ev) => {
                            proof {
                                assert(cm_before.delete_pending.contains(request_id));
                                assert(events@.push(ev) =~= events@ + crate::dispatch::op_events(
                                    cm_before,
                                    ops0[i as int],
                                ));
                            }
                            events.push(ev);
                        },
                        None => {
                            proof {
                                assert(!cm_before.delete_pending.contains(request_id));
                                assert(events@ =~= events@ + crate::dispatch::op_events(
                                    cm_before,
                                    ops0[i as int],
                                ));
                            }
                        },
                    }
                    proof {
                        let stepped = crate::dispatch::step_cmd(cm_before, ops0[i as int]);
                        assert(self.command_model().handlers =~= stepped.handlers);
                        assert(self.command_model().command_pending =~= stepped.command_pending);
                        assert(self.command_model().create_pending =~= stepped.create_pending);
                        assert(self.command_model().delete_pending =~= stepped.delete_pending);
                    }
                },
                _ => {},
            }
            proof {
                assert(self.dispatch_model() == step_op(self.sch(), m_before, ops0[i as int]));
                assert(self.command_model() == crate::dispatch::step_cmd(
                    cm_before,
                    ops0[i as int],
                ));
                assert(events@ == events_before + crate::dispatch::op_events(
                    cm_before,
                    ops0[i as int],
                ));
                assert(events@ + crate::dispatch::run_events_from(
                    self.command_model(),
                    ops0,
                    i + 1,
                ) =~= events_before + crate::dispatch::run_events_from(cm_before, ops0, i as int));
            }
            i = i + 1;
        }
        events
    }

    /// Sends a command to an entity: assigns a fresh request id, parks the
    /// driver's callbacks under it, and owes the fabric the request.
    pub fn send_command(
        &mut self,
        entity_id: EntityId,
        component_id: ComponentId,
        command_index: u32,
        payload: Vec<i64>,
        timeout_millis: Option<u32>,
    ) -> (r: RequestId)
        requires
            old(self).wf(),
            old(self).next_rid() < u32::MAX,
        ensures
            final(self).wf(),
            r == old(self).next_rid(),
            final(self).next_rid() == old(self).next_rid() + 1,
            final(self).sch() == old(self).sch(),
            final(self).store() == old(self).store(),
            final(self).dispatch_model() == old(self).dispatch_model(),
            final(self).cmds().handlers() == old(self).cmds().handlers(),
            final(self).cmds().command_pending() == old(self).cmds().command_pending().push(r),
            final(self).cmds().create_pending() == old(self).cmds().create_pending(),
            final(self).cmds().delete_pending() == old(self).cmds().delete_pending(),
            final(self).outbox_msgs() == old(self).outbox_msgs().push(
                (OutgoingMessage::CommandRequest {
                    request_id: r,
                    entity_id,
                    component_id,
                    command_index,
                    payload,
                    timeout_millis,
                }),
            ),
    {
        let ghost pre = *self;
        let request_id = self.next_request_id;
        self.next_request_id = self.next_request_id + 1;
        proof {
            assert(!pending_contains(self.commands.command_pending(), request_id));
        }
        self.commands.park_command(request_id);
        self.outbox.push(
            OutgoingMessage::CommandRequest {
                request_id,
                entity_id,
                component_id,
                command_index,
                payload,
                timeout_millis,
            },
        );
        proof {
            lemma_model_eq(pre, *self);
            assert forall|q: RequestId|
                #[trigger] pending_contains(self.cmds().command_pending(), q) implies q
                < self.next_rid() by {
                let k = choose|k: int|
                    0 <= k < self.cmds().command_pending().len() && self.cmds().command_pending()[k]
                        == q;
                if k < pre.cmds().command_pending().len() {
                    assert(pending_contains(pre.cmds().command_pending(), q));
                }
            }
        }
        request_id
    }

    /// Answers an inbound command: owes the fabric the handler's response,
    /// tagged with the request id it answers.
    pub fn send_command_response(
        &mut self,
        request_id: RequestId,
        component_id: ComponentId,
        payload: Vec<i64>,
    )
        requires
            old(self).wf(),
        ensures
            final(self).wf(),
            final(self).sch() == old(self).sch(),
            final(self).store() == old(self).store(),
            final(self).dispatch_model() == old(self).dispatch_model(),
            final(self).cmds() == old(self).cmds(),
            final(self).next_rid() == old(self).next_rid(),
            final(self).outbox_msgs() == old(self).outbox_msgs().push(
                (OutgoingMessage::CommandResponse { request_id, component_id, payload }),
            ),
    {
        let ghost pre = *self;
        self.outbox.push(OutgoingMessage::CommandResponse { request_id, component_id, payload });
        proof {
            lemma_model_eq(pre, *self);
            assert(self.cmds() == pre.cmds());
            assert(self.partials() == pre.partials());
            assert(pre.wf());
        }
    }

    /// Asks the fabric to create an entity from a template: assigns a fresh
    /// request id, parks the driver's callbacks, and owes the fabric the
    /// request.
    pub fn create_entity(&mut self, template: EntityTemplate) -> (r: RequestId)
        requires
            old(self).wf(),
            old(self).next_rid() < u32::MAX,
        ensures
            final(self).wf(),
            r == old(self).next_rid(),
            final(self).next_rid() == old(self).next_rid() + 1,
            final(self).sch() == old(self).sch(),
            final(self).store() == old(self).store(),
            final(self).dispatch_model() == old(self).dispatch_model(),
            final(self).cmds().handlers() == old(self).cmds().handlers(),
            final(self).cmds().create_pending() == old(self).cmds().create_pending().push(r),
            final(self).cmds().command_pending() == old(self).cmds().command_pending(),
            final(self).cmds().delete_pending() == old(self).cmds().delete_pending(),
            final(self).outbox_msgs() == old(self).outbox_msgs().push(
                (OutgoingMessage::CreateEntityRequest { request_id: r, template }),
            ),
    {
        let ghost pre = *self;
        let request_id = self.next_request_id;
        self.next_request_id = self.next_request_id + 1;
        proof {
            assert(!pending_contains(self.commands.create_pending(), request_id));
        }
        self.commands.park_create(request_id);
        self.outbox.push(OutgoingMessage::CreateEntityRequest { request_id, template });
        proof {
            lemma_model_eq(pre, *self);
            assert forall|q: RequestId|
                #[trigger] pending_contains(self.cmds().create_pending(), q) implies q
                < self.next_rid() by {
                let k = choose|k: int|
                    0 <= k < self.cmds().create_pending().len() && self.cmds().create_pending()[k]
                        == q;
                if k < pre.cmds().create_pending().len() {
                    assert(pending_contains(pre.cmds().create_pending(), q));
                }
            }
        }
        request_id
    }

    /// Asks the fabric to delete an entity, parking the driver's callbacks
    /// under a fresh request id.
    pub fn delete_entity(&mut self, entity_id: EntityId) -> (r: RequestId)
        requires
            old(self).wf(),
            old(self).next_rid() < u32::MAX,
        ensures
            final(self).wf(),
            r == old(self).next_rid(),
            final(self).next_rid() == old(self).next_rid() + 1,
            final(self).sch() == old(self).sch(),
            final(self).store() == old(self).store(),
            final(self).dispatch_model() == old(self).dispatch_model(),
            final(self).cmds().handlers() == old(self).cmds().handlers(),
            final(self).cmds().delete_pending() == old(self).cmds().delete_pending().push(r),
            final(self).cmds().command_pending() == old(self).cmds().command_pending(),
            final(self).cmds().create_pending() == old(self).cmds().create_pending(),
            final(self).outbox_msgs() == old(self).outbox_msgs().push(
                (OutgoingMessage::DeleteEntityRequest { request_id: r, entity_id }),
            ),
    {
        let ghost pre = *self;
        let request_id = self.next_request_id;
        self.next_request_id = self.next_request_id + 1;
        proof {
            assert(!pending_contains(self.commands.delete_pending(), request_id));
        }
        self.commands.park_delete(request_id);
        self.outbox.push(OutgoingMessage::DeleteEntityRequest { request_id, entity_id });
        proof {
            lemma_model_eq(pre, *self);
            assert forall|q: RequestId|
                #[trigger] pending_contains(self.cmds().delete_pending(), q) implies q
                < self.next_rid() by {
                let k = choose|k: int|
                    0 <= k < self.cmds().delete_pending().len() && self.cmds().delete_pending()[k]
                        == q;
                if k < pre.cmds().delete_pending().len() {
                    assert(pending_contains(pre.cmds().delete_pending(), q));
                }
            }
        }
        request_id
    }

    /// Owes the fabric a log line; the driver also prints it locally.
    pub fn log(&mut self, level: LogLevel, logger_name: String, message: String)
        requires
            old(self).wf(),
        ensures
            final(self).wf(),
            final(self).sch() == old(self).sch(),
            final(self).store() == old(self).store(),
            final(self).dispatch_model() == old(self).dispatch_model(),
            final(self).cmds() == old(self).cmds(),
            final(self).next_rid() == old(self).next_rid(),
            final(self).outbox_msgs() == old(self).outbox_msgs().push(
                (OutgoingMessage::LogMessage { level, logger_name, message }),
            ),
    {
        let ghost pre = *self;
        self.outbox.push(OutgoingMessage::LogMessage { level, logger_name, message });
        proof {
            lemma_model_eq(pre, *self);
            assert(self.cmds() == pre.cmds());
            assert(self.partials() == pre.partials());
            assert(pre.wf());
        }
    }

    /// Flushes every locally mutated component into the outbox: one update
    /// message per dirty slot carrying exactly its dirty fields and staged
    /// events, after which no column dirty flag, field dirty bit, or staged
    /// event remains anywhere in the store.
    pub fn replicate_all(&mut self)
        requires
            old(self).wf(),
        ensures
            final(self).wf(),
            final(self).sch() == old(self).sch(),
            final(self).cmds() == old(self).cmds(),
            final(self).sys_times() == old(self).sys_times(),
            final(self).next_rid() == old(self).next_rid(),
            final(self).dispatch_model() == old(self).dispatch_model(),
            crate::store::replicated_relation(old(self).store(), final(self).store()),
            crate::store::replicate_msgs_appended(
                old(self).store(),
                old(self).outbox_msgs(),
                final(self).outbox_msgs(),
            ),
    {
        let ghost pre = *self;
        EntityCollection::replicate_all(&mut self.entities, &self.schema, &mut self.outbox);
        proof {
            lemma_model_eq_store(pre, *self);
        }
    }

    /// Clears every received event buffer in the store at the end of a tick:
    /// events are visible to systems for exactly the tick they arrive in.
    pub fn cleanup_after_frame(&mut self)
        requires
            old(self).wf(),
        ensures
            final(self).wf(),
            final(self).sch() == old(self).sch(),
            final(self).cmds() == old(self).cmds(),
            final(self).sys_times() == old(self).sys_times(),
            final(self).next_rid() == old(self).next_rid(),
            final(self).outbox_msgs() == old(self).outbox_msgs(),
            final(self).dispatch_model() == old(self).dispatch_model(),
            crate::store::cleaned_relation(old(self).store(), final(self).store()),
    {
        let ghost pre = *self;
        EntityCollection::cleanup_after_frame(&mut self.entities, &self.schema);
        proof {
            lemma_model_eq_store(pre, *self);
        }
    }

    /// Hands the driver everything owed to the fabric, in send order,
    /// leaving the outbox empty.
    pub fn take_outbox(&mut self) -> (r: Vec<OutgoingMessage>)
        requires
            old(self).wf(),
        ensures
            final(self).wf(),
            r@ == old(self).outbox_msgs(),
            final(self).outbox_msgs().len() == 0,
            final(self).sch() == old(self).sch(),
            final(self).store() == old(self).store(),
            final(self).cmds() == old(self).cmds(),
            final(self).sys_times() == old(self).sys_times(),
            final(self).next_rid() == old(self).next_rid(),
            final(self).dispatch_model() == old(self).dispatch_model(),
    {
        let ghost pre = *self;
        let mut drained: Vec<OutgoingMessage> = Vec::new();
        core::mem::swap(&mut drained, &mut self.outbox);
        proof {
            lemma_model_eq(pre, *self);
            assert(self.cmds() == pre.cmds());
            assert(self.partials() == pre.partials());
            assert(pre.wf());
        }
        drained
    }

    /// The next request id this worker will assign; a driver checks it
    /// against the id space before sending, since the send functions require
    /// room for a fresh id.
    pub fn peek_next_request_id(&self) -> (r: RequestId)
        ensures
            r == self.next_rid(),
    {
        self.next_request_id
    }

    /// The current clock value; the clock does not advance.
    pub fn current_time(&self) -> (r: WorldTime)
        ensures
            r == self.clock(),
    {
        self.world_time
    }

    /// Whether the worker's view holds the entity.
    pub fn has_entity(&self, entity_id: EntityId) -> (r: bool)
        requires
            self.wf(),
        ensures
            r == self.store().has_entity(entity_id),
    {
        match self.entities.get_location(entity_id) {
            Some(_) => true,
            None => false,
        }
    }

    /// The value of one field of one component of one entity, or `None`
    /// when the entity is unknown, lacks the component, or the field does
    /// not exist.
    pub fn get_component_field(
        &self,
        entity_id: EntityId,
        component_id: ComponentId,
        field_index: usize,
    ) -> (r: Option<i64>)
        requires
            self.wf(),
        ensures
            match r {
                Some(v) => self.store().has_entity(entity_id) && self.store().entity_has_component(
                    entity_id,
                    component_id,
                ) && field_index < self.store().entity_entry(
                    entity_id,
                    component_id,
                ).data.fields().len() && v == self.store().entity_entry(
                    entity_id,
                    component_id,
                ).data.fields()[field_index as int].value(),
                None => !(self.store().has_entity(entity_id) && self.store().entity_has_component(
                    entity_id,
                    component_id,
                ) && field_index < self.store().entity_chunk(entity_id).col_for(
                    component_id,
                ).nfields()),
            },
    {
        self.entities.get_component_field(&self.schema, entity_id, component_id, field_index)
    }

    /// The authority the worker holds over one component of one entity, as
    /// the store tracks it.
    pub fn get_authority(&self, entity_id: EntityId, component_id: ComponentId) -> (r: Option<
        Authority,
    >)
        requires
            self.wf(),
        ensures
            match r {
                Some(a) => self.store().has_entity(entity_id) && self.store().entity_has_component(
                    entity_id,
                    component_id,
                ) && a == if self.store().entity_auth(entity_id, component_id) {
                    Authority::Authoritative
                } else {
                    Authority::NotAuthoritative
                },
                None => !(self.store().has_entity(entity_id) && self.store().entity_has_component(
                    entity_id,
                    component_id,
                )),
            },
    {
        self.entities.get_authority(&self.schema, entity_id, component_id)
    }

    /// The events one component of one entity received this tick on one
    /// buffer.
    pub fn get_received_events(
        &self,
        entity_id: EntityId,
        component_id: ComponentId,
        event_index: usize,
    ) -> (r: Option<&Vec<i64>>)
        requires
            self.wf(),
        ensures
            match r {
                Some(v) => self.store().has_entity(entity_id) && self.store().entity_has_component(
                    entity_id,
                    component_id,
                ) && event_index < self.store().entity_entry(
                    entity_id,
                    component_id,
                ).data.events().len() && v@ == self.store().entity_entry(
                    entity_id,
                    component_id,
                ).data.events()[event_index as int].received(),
                None => !(self.store().has_entity(entity_id) && self.store().entity_has_component(
                    entity_id,
                    component_id,
                ) && event_index < self.store().entity_chunk(entity_id).col_for(
                    component_id,
                ).nevents()),
            },
    {
        self.entities.get_received_events(&self.schema, entity_id, component_id, event_index)
    }

    /// When one component of one entity last changed through the fabric.
    pub fn get_last_updated(&self, entity_id: EntityId, component_id: ComponentId) -> (r: Option<
        WorldTime,
    >)
        requires
            self.wf(),
        ensures
            match r {
                Some(t) => self.store().has_entity(entity_id) && self.store().entity_has_component(
                    entity_id,
                    component_id,
                ) && t == self.store().entity_entry(entity_id, component_id).last_updated,
                None => !(self.store().has_entity(entity_id) && self.store().entity_has_component(
                    entity_id,
                    component_id,
                )),
            },
    {
        self.entities.get_last_updated(&self.schema, entity_id, component_id)
    }

    /// Overwrites one field of one component of one entity: the mutable
    /// access a system takes.  The write succeeds only when the worker holds
    /// authority over the component there; it marks the field, the data, the
    /// column, and the chunk dirty, so the next `replicate_all` sends it.
    /// An unpermitted write changes nothing — not even a dirty flag.
    pub fn set_component_field(
        &mut self,
        entity_id: EntityId,
        component_id: ComponentId,
        field_index: usize,
        value: i64,
    ) -> (r: bool)
        requires
            old(self).wf(),
        ensures
            final(self).wf(),
            final(self).sch() == old(self).sch(),
            final(self).cmds() == old(self).cmds(),
            final(self).outbox_msgs() == old(self).outbox_msgs(),
            final(self).sys_times() == old(self).sys_times(),
            final(self).next_rid() == old(self).next_rid(),
            final(self).clock() == old(self).clock(),
            final(self).dispatch_model() == old(self).dispatch_model(),
            r == (old(self).store().has_entity(entity_id) && old(self).store().entity_has_component(entity_id, component_id) && field_index < old(self).store().entity_chunk(entity_id).col_for(component_id).nfields() && old(self).store().entity_auth(entity_id, component_id)),
            !r ==> final(self).store().chunks() == old(self).store().chunks() && final(self).store().locs() == old(self).store().locs(),
            crate::store::EntityCollection::model_preserved_except(
                old(self).store(),
                final(self).store(),
                old(self).sch(),
                entity_id,
            ),
            r ==> {
                let e = final(self).store().entity_entry(entity_id, component_id);
                let o = old(self).store().entity_entry(entity_id, component_id);
                &&& e.last_updated == o.last_updated
                &&& e.data.events() == o.data.events()
                &&& e.data.dirty()
                &&& e.data.fields().len() == o.data.fields().len()
                &&& e.data.fields()[field_index as int].value() == value
                &&& e.data.fields()[field_index as int].dirty()
                &&& (forall|i: int|
                    0 <= i < o.data.fields().len() && i != field_index ==> e.data.fields()[i]
                        == o.data.fields()[i])
                &&& (forall|cid2: ComponentId|
                    old(self).store().entity_has_component(entity_id, cid2) && cid2 != component_id
                        ==> final(self).store().entity_entry(entity_id, cid2) == old(self).store().entity_entry(entity_id, cid2))
            },
    {
        let ghost pre = *self;
        let r = self.entities.set_field(&self.schema, entity_id, component_id, field_index, value);
        proof {
            lemma_model_eq_store(pre, *self);
        }
        r
    }

    /// Stages an event on one buffer of one component of one entity, under
    /// the same authority gate as `set_component_field`; the next
    /// `replicate_all` sends it.
    pub fn trigger_component_event(
        &mut self,
        entity_id: EntityId,
        component_id: ComponentId,
        event_index: usize,
        value: i64,
    ) -> (r: bool)
        requires
            old(self).wf(),
        ensures
            final(self).wf(),
            final(self).sch() == old(self).sch(),
            final(self).cmds() == old(self).cmds(),
            final(self).outbox_msgs() == old(self).outbox_msgs(),
            final(self).sys_times() == old(self).sys_times(),
            final(self).next_rid() == old(self).next_rid(),
            final(self).clock() == old(self).clock(),
            final(self).dispatch_model() == old(self).dispatch_model(),
            r == (old(self).store().has_entity(entity_id) && old(self).store().entity_has_component(entity_id, component_id) && event_index < old(self).store().entity_chunk(entity_id).col_for(component_id).nevents() && old(self).store().entity_auth(entity_id, component_id)),
            !r ==> final(self).store().chunks() == old(self).store().chunks() && final(self).store().locs() == old(self).store().locs(),
            crate::store::EntityCollection::model_preserved_except(
                old(self).store(),
                final(self).store(),
                old(self).sch(),
                entity_id,
            ),
            r ==> {
                let e = final(self).store().entity_entry(entity_id, component_id);
                let o = old(self).store().entity_entry(entity_id, component_id);
                &&& e.last_updated == o.last_updated
                &&& e.data.fields() == o.data.fields()
                &&& e.data.dirty()
                &&& e.data.events().len() == o.data.events().len()
                &&& (e.data.events()[event_index as int]).staged() == o.data.events()[
                    event_index as int
                ].staged().push(value)
                &&& (e.data.events()[event_index as int]).received() == o.data.events()[
                    event_index as int
                ].received()
            },
    {
        let ghost pre = *self;
        let r = self.entities.trigger_event(
            &self.schema,
            entity_id,
            component_id,
            event_index,
            value,
        );
        proof {
            lemma_model_eq_store(pre, *self);
        }
        r
    }

    /// Every live `(entity, chunk, slot)` triple whose chunk signature
    /// covers `signature`, in chunk then slot order: each live matching
    /// entity exactly once.
    pub fn iterate(&self, signature: &GeneratedComponentBitField) -> (r: Vec<
        (EntityId, usize, usize),
    >)
        requires
            self.wf(),
            signature.words().len() == self.sch().spec_word_count(),
        ensures
            r@ == crate::store::iterate_spec(self.store().chunks(), *signature),
    {
        self.entities.iterate(&self.schema, signature)
    }

    /// The same triples as `iterate`, grouped by chunk for parallel fan-out:
    /// no two triples of one group share an entity, and flattening the
    /// groups yields exactly what `iterate` yields.
    pub fn par_iterate(&self, signature: &GeneratedComponentBitField) -> (r: Vec<
        Vec<(EntityId, usize, usize)>,
    >)
        requires
            self.wf(),
            signature.words().len() == self.sch().spec_word_count(),
        ensures
            crate::store::groups_flatten(r@) == crate::store::iterate_spec(
                self.store().chunks(),
                *signature,
            ),
            forall|g: int|
                0 <= g < r@.len() ==> forall|k1: int, k2: int|
                    0 <= k1 < (#[trigger] r@[g])@.len() && 0 <= k2 < r@[g]@.len() && k1 != k2
                        ==> (#[trigger] r@[g]@[k1]).0 != (#[trigger] r@[g]@[k2]).0,
    {
        self.entities.par_iterate(&self.schema, signature)
    }

    /// The modified-only view: every live matching triple whose component
    /// `component_id` last changed after `since`.
    pub fn iterate_modified(
        &self,
        signature: &GeneratedComponentBitField,
        component_id: ComponentId,
        since: WorldTime,
    ) -> (r: Vec<(EntityId, usize, usize)>)
        requires
            self.wf(),
            signature.words().len() == self.sch().spec_word_count(),
            self.sch().has_component(component_id),
            signature.has_bit(self.sch().index_of(component_id)),
        ensures
            r@ == crate::store::iterate_modified_upto(
                self.store().chunks(),
                *signature,
                component_id,
                since,
                self.store().chunks().len() as int,
            ),
    {
        self.entities.iterate_modified(&self.schema, signature, component_id, since)
    }

    /// An empty signature sized for this world's schema.
    pub fn new_bit_field(&self) -> (r: GeneratedComponentBitField)
        ensures
            r.words().len() == self.sch().spec_word_count(),
            forall|i: int| !r.has_bit(i),
    {
        self.schema.new_bit_field()
    }

    /// The schema the world was built with.
    pub fn schema(&self) -> (r: &Schema)
        ensures
            *r == self.sch(),
    {
        &self.schema
    }
}

/// Two worlds with the same registry drive the same command model.
proof fn lemma_cmd_model_eq(a: World, b: World)
    requires
        a.cmds().handlers() == b.cmds().handlers(),
        a.cmds().command_pending() == b.cmds().command_pending(),
        a.cmds().create_pending() == b.cmds().create_pending(),
        a.cmds().delete_pending() == b.cmds().delete_pending(),
    ensures
        a.command_model() == b.command_model(),
{
    assert(a.command_model().handlers =~= b.command_model().handlers);
    assert(a.command_model().command_pending =~= b.command_model().command_pending);
    assert(a.command_model().create_pending =~= b.command_model().create_pending);
    assert(a.command_model().delete_pending =~= b.command_model().delete_pending);
}

/// Two worlds whose stores hold the same entities with the same signatures
/// drive the same dispatch model.
proof fn lemma_model_eq_store(a: World, b: World)
    requires
        a.sch() == b.sch(),
        a.partials() == b.partials(),
        a.in_cs() == b.in_cs(),
        forall|e: EntityId| #[trigger] b.store().has_entity(e) == a.store().has_entity(e),
        forall|e: EntityId|
            a.store().has_entity(e) ==> #[trigger] b.store().entity_sig_ids(a.sch(), e)
                == a.store().entity_sig_ids(a.sch(), e),
    ensures
        a.dispatch_model() == b.dispatch_model(),
{
    assert(a.dispatch_model().sigs =~= b.dispatch_model().sigs);
    assert(a.dispatch_model().partial =~= b.dispatch_model().partial);
}

/// Two worlds with the same store, schema, partials, and section flag drive
/// the same dispatch model.
proof fn lemma_model_eq(a: World, b: World)
    requires
        a.sch() == b.sch(),
        a.store() == b.store(),
        a.partials() == b.partials(),
        a.in_cs() == b.in_cs(),
    ensures
        a.dispatch_model() == b.dispatch_model(),
{
    assert(a.dispatch_model().sigs =~= b.dispatch_model().sigs);
    assert(a.dispatch_model().partial =~= b.dispatch_model().partial);
}

} // verus!
