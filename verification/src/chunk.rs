//! Fixed-capacity buckets of entities sharing one signature.
//!
//! A chunk owns one column per component of its signature.  Slots `0` to the
//! live count are live and packed; removal swaps the last live slot into the
//! gap.  A chunk-level dirty flag and events flag cover the columns'.

use crate::column::dirty_slots;
use crate::column::is_update_msg;
use crate::column::ComponentStorage;
use crate::data::applied_fields;
use crate::data::cleaned_fields;
use crate::data::extracted_fields;
use crate::data::staged_events_of;
use crate::data::ComponentUpdate;
use crate::ops::OutgoingMessage;
use crate::schema::Schema;
use crate::signature::GeneratedComponentBitField;
use crate::worker::Authority;
use crate::world::PartialEntity;
use crate::world::WorldTime;
use crate::ComponentId;
use crate::EntityId;
use vstd::pervasive::VecAdditionalExecFns;
use vstd::prelude::*;

verus! {

/// The number of slots every chunk holds.
pub const MAX_ENTITIES_PER_CHUNK: usize = 1024;

/// The messages the columns before `c` contribute to one replication pass.
pub open spec fn msgs_before(cols: Seq<ComponentStorage>, c: int) -> int
    decreases c,
{
    if c <= 0 {
        0
    } else {
        msgs_before(cols, c - 1) + dirty_slots(cols[c - 1].entries()).len()
    }
}

/// No column contributes a negative message count.
pub proof fn lemma_msgs_before_nonneg(cols: Seq<ComponentStorage>, c: int)
    ensures
        0 <= msgs_before(cols, c),
    decreases
            if c > 0 {
                c
            } else {
                0
            },
{
    if c > 0 {
        lemma_msgs_before_nonneg(cols, c - 1);
    }
}

/// Message counts accumulate monotonically over the columns.
pub proof fn lemma_msgs_before_bounds(cols: Seq<ComponentStorage>, c1: int, c2: int)
    requires
        c1 <= c2,
    ensures
        msgs_before(cols, c1) <= msgs_before(cols, c2),
        0 <= msgs_before(cols, c2),
    decreases c2 - c1,
{
    lemma_msgs_before_nonneg(cols, c2);
    if c1 < c2 {
        lemma_msgs_before_bounds(cols, c1, c2 - 1);
    }
}

/// The record carried for one component among an entity's extracted
/// records.
pub open spec fn record_for(
    records: Seq<(ComponentId, crate::column::ComponentDataEntry, bool)>,
    cid: ComponentId,
) -> (ComponentId, crate::column::ComponentDataEntry, bool) {
    records[choose|i: int| 0 <= i < records.len() && records[i].0 == cid]
}

/// While record keys repeat nowhere, the record stored at position `i` is
/// the one `record_for` returns for its key.
pub proof fn lemma_record_at(
    records: Seq<(ComponentId, crate::column::ComponentDataEntry, bool)>,
    i: int,
)
    requires
        forall|p: int, q: int|
            0 <= p < q < records.len() ==> (#[trigger] records[p]).0 != (#[trigger] records[q]).0,
        0 <= i < records.len(),
    ensures
        exists|j: int| 0 <= j < records.len() && (#[trigger] records[j]).0 == records[i].0,
        record_for(records, records[i].0) == records[i],
{
    let cid = records[i].0;
    assert(exists|j: int| 0 <= j < records.len() && (#[trigger] records[j]).0 == cid) by {
        assert(records[i].0 == cid);
    }
    let j = choose|j: int| 0 <= j < records.len() && records[j].0 == cid;
    if i != j {
        assert(records[i].0 != records[j].0 || records[j].0 != records[i].0);
    }
}

/// A fixed-capacity bucket for entities sharing one signature: the slot to
/// entity-id row and one column per component of the signature.
pub struct Chunk {
    signature: GeneratedComponentBitField,
    entity_ids: Vec<EntityId>,
    columns: Vec<ComponentStorage>,
    is_dirty: bool,
    has_events_this_frame: bool,
}

impl Chunk {
    /// The signature every entity of this chunk carries.
    pub closed spec fn sig(self) -> GeneratedComponentBitField {
        self.signature
    }

    /// The entity id of each live slot.
    pub closed spec fn ids(self) -> Seq<EntityId> {
        self.entity_ids@
    }

    /// The columns, one per component of the signature.
    pub closed spec fn cols(self) -> Seq<ComponentStorage> {
        self.columns@
    }

    /// Whether any column was mutated locally since the last replicate.
    pub closed spec fn dirty(self) -> bool {
        self.is_dirty
    }

    /// Whether any column received events this tick.
    pub closed spec fn has_events(self) -> bool {
        self.has_events_this_frame
    }

    /// Whether the chunk stores the component.
    pub open spec fn has_col(self, cid: ComponentId) -> bool {
        exists|c: int| 0 <= c < self.cols().len() && self.cols()[c].cid() == cid
    }

    /// The position of the component's column.
    pub open spec fn col_index(self, cid: ComponentId) -> int {
        choose|c: int| 0 <= c < self.cols().len() && self.cols()[c].cid() == cid
    }

    /// The component's column.
    pub open spec fn col_for(self, cid: ComponentId) -> ComponentStorage {
        self.cols()[self.col_index(cid)]
    }

    /// The component ids the chunk stores.
    pub open spec fn col_id_set(self) -> Set<ComponentId> {
        Set::new(|cid: ComponentId| self.has_col(cid))
    }

    /// The chunk's bookkeeping invariant: packed slots within capacity, one
    /// well-formed column per signature component with one record per live
    /// slot, column shapes matching the schema, and chunk flags covering the
    /// columns'.
    pub open spec fn wf(self, schema: Schema) -> bool {
        &&& self.ids().len() <= MAX_ENTITIES_PER_CHUNK
        &&& self.sig().words().len() == schema.spec_word_count()
        &&& forall|c: int|
            0 <= c < self.cols().len() ==> (#[trigger] self.cols()[c]).wf() && self.cols()[
                c
            ].entries().len() == self.ids().len() && self.cols()[c].auth().len()
                == self.ids().len()
        &&& forall|c1: int, c2: int|
            0 <= c1 < c2 < self.cols().len() ==> (#[trigger] self.cols()[c1]).cid() != (
            #[trigger] self.cols()[c2]).cid()
        &&& forall|c: int|
            0 <= c < self.cols().len() ==> {
                let col = #[trigger] self.cols()[c];
                &&& schema.has_component(col.cid())
                &&& col.nfields() == schema.descriptor_of(col.cid()).nfields()
                &&& col.nevents() == schema.descriptor_of(col.cid()).nevents()
            }
        &&& schema.signature_ids(self.sig()) == self.col_id_set()
        &&& !self.dirty() ==> forall|c: int|
            0 <= c < self.cols().len() ==> !(#[trigger] self.cols()[c]).dirty()
        &&& !self.has_events() ==> forall|c: int|
            0 <= c < self.cols().len() ==> !(#[trigger] self.cols()[c]).has_events()
    }

    /// While column ids repeat nowhere, the column at position `c` is the
    /// one `col_for` returns for its component.
    pub proof fn lemma_col_at(self, c: int)
        requires
            forall|c1: int, c2: int|
                0 <= c1 < c2 < self.cols().len() ==> (#[trigger] self.cols()[c1]).cid() != (
                #[trigger] self.cols()[c2]).cid(),
            0 <= c < self.cols().len(),
        ensures
            self.has_col(self.cols()[c].cid()),
            self.col_index(self.cols()[c].cid()) == c,
            self.col_for(self.cols()[c].cid()) == self.cols()[c],
    {
        let cid = self.cols()[c].cid();
        assert(self.has_col(cid));
        let j = self.col_index(cid);
        assert(0 <= j < self.cols().len() && self.cols()[j].cid() == cid);
        if c != j {
            assert(self.cols()[c].cid() != self.cols()[j].cid() || self.cols()[j].cid()
                != self.cols()[c].cid());
        }
    }

    /// The position of the component's column, or `None` when the chunk's
    /// signature does not name the component.
    pub fn find_column(&self, cid: ComponentId) -> (r: Option<usize>)
        ensures
            match r {
                Some(c) => c < self.cols().len() && self.cols()[c as int].cid() == cid,
                None => !self.has_col(cid),
            },
    {
        let n = self.columns.len();
        let mut c: usize = 0;
        while c < n
            invariant
                c <= n,
                n == self.cols().len(),
                forall|j: int| 0 <= j < c ==> (#[trigger] self.cols()[j]).cid() != cid,
            decreases n - c,
        {
            if self.columns[c].component_id() == cid {
                return Some(c);
            }
            c = c + 1;
        }
        None
    }

    /// An empty chunk for the signature of a partial entity, with one column
    /// per component the partial recorded data for.
    pub fn new(schema: &Schema, template_entity: &PartialEntity) -> (r: Chunk)
        requires
            schema.wf(),
            template_entity.wf(*schema),
        ensures
            r.wf(*schema),
            r.sig().words() == template_entity.bit_field.words(),
            r.ids().len() == 0,
            !r.dirty(),
            !r.has_events(),
            r.col_id_set() == template_entity.data_key_set(),
            r.cols().len() == template_entity.component_data@.len(),
            forall|c: int|
                0 <= c < r.cols().len() ==> (#[trigger] r.cols()[c]).cid()
                    == template_entity.component_data@[c].0,
    {
        let n = template_entity.component_data.len();
        let mut columns: Vec<ComponentStorage> = Vec::new();
        let mut c: usize = 0;
        while c < n
            invariant
                c <= n,
                n == template_entity.component_data@.len(),
                schema.wf(),
                template_entity.wf(*schema),
                columns@.len() == c,
                forall|j: int|
                    0 <= j < c ==> {
                        let col = #[trigger] columns@[j];
                        let cid = template_entity.component_data@[j].0;
                        &&& col.cid() == cid
                        &&& col.wf()
                        &&& col.entries().len() == 0
                        &&& col.auth().len() == 0
                        &&& !col.dirty()
                        &&& !col.has_events()
                        &&& col.nfields() == schema.descriptor_of(cid).nfields()
                        &&& col.nevents() == schema.descriptor_of(cid).nevents()
                    },
            decreases n - c,
        {
            let cid = template_entity.component_data[c].0;
            let descriptor = match schema.get_descriptor(cid) {
                Some(d) => d,
                None => {
                    proof {
                        assert(false);
                    }
                    crate::schema::ComponentDescriptor::new(0, 0, 0)
                },
            };
            columns.push(
                ComponentStorage::new(cid, descriptor.num_fields(), descriptor.num_events()),
            );
            c = c + 1;
        }
        let r = Chunk {
            signature: template_entity.bit_field.duplicate(),
            entity_ids: Vec::new(),
            columns,
            is_dirty: false,
            has_events_this_frame: false,
        };
        proof {
            assert forall|c1: int, c2: int| 0 <= c1 < c2 < r.cols().len() implies (
            #[trigger] r.cols()[c1]).cid() != (#[trigger] r.cols()[c2]).cid() by {
                assert(template_entity.component_data@[c1].0
                    != template_entity.component_data@[c2].0);
            }
            assert forall|cid: ComponentId| #[trigger] r.has_col(cid)
                == template_entity.has_data(cid) by {
                if r.has_col(cid) {
                    let c = choose|c: int| 0 <= c < r.cols().len() && r.cols()[c].cid() == cid;
                    assert(template_entity.component_data@[c].0 == cid);
                }
                if template_entity.has_data(cid) {
                    let j = choose|j: int|
                        0 <= j < template_entity.component_data@.len()
                            && template_entity.component_data@[j].0 == cid;
                    assert(r.cols()[j].cid() == cid);
                }
            }
            assert(r.col_id_set() =~= template_entity.data_key_set());
            assert(schema.signature_ids(r.sig()) =~= schema.signature_ids(
                template_entity.bit_field,
            )) by {
                assert forall|cid: ComponentId|
                    schema.signature_ids(r.sig()).contains(cid) == schema.signature_ids(
                        template_entity.bit_field,
                    ).contains(cid) by {
                    if schema.has_component(cid) {
                        let k = schema.index_of(cid);
                        assert(r.sig().has_bit(k) == template_entity.bit_field.has_bit(k));
                    }
                }
            }
            assert(schema.signature_ids(r.sig()) =~= r.col_id_set());
        }
        r
    }

    /// Whether a further entity fits.
    pub fn has_space(&self) -> (r: bool)
        ensures
            r == (self.ids().len() < MAX_ENTITIES_PER_CHUNK),
    {
        self.entity_ids.len() < MAX_ENTITIES_PER_CHUNK
    }

    /// The number of live slots.
    pub fn num_entities(&self) -> (r: usize)
        ensures
            r == self.ids().len(),
    {
        self.entity_ids.len()
    }

    /// The entity id at a live slot.
    pub fn get_entity_id(&self, index: usize) -> (r: EntityId)
        requires
            index < self.ids().len(),
        ensures
            r == self.ids()[index as int],
    {
        self.entity_ids[index]
    }

    /// The chunk's signature.
    pub fn signature(&self) -> (r: &GeneratedComponentBitField)
        ensures
            *r == self.sig(),
    {
        &self.signature
    }

    /// Whether any column was mutated locally since the last replicate.
    pub fn is_dirty(&self) -> (r: bool)
        ensures
            r == self.dirty(),
    {
        self.is_dirty
    }

    /// When the record at `slot` of the column at position `column_index`
    /// last changed through the fabric.
    pub fn col_entry_last_updated(&self, column_index: usize, slot: usize) -> (r: WorldTime)
        requires
            column_index < self.cols().len(),
            slot < self.cols()[column_index as int].entries().len(),
        ensures
            r == self.cols()[column_index as int].entries()[slot as int].last_updated,
    {
        self.columns[column_index].entry_last_updated(slot)
    }

    /// Appends a newly admitted entity: its id takes the next slot and every
    /// column receives the partial's data and recorded authority for its
    /// component, stamped `now`.
    pub fn add_entity(&mut self, schema: &Schema, entity: PartialEntity, now: WorldTime) -> (slot:
        usize)
        requires
            old(self).wf(*schema),
            schema.wf(),
            entity.wf(*schema),
            old(self).ids().len() < MAX_ENTITIES_PER_CHUNK,
            entity.data_key_set() == old(self).col_id_set(),
        ensures
            final(self).wf(*schema),
            slot == old(self).ids().len(),
            final(self).sig() == old(self).sig(),
            final(self).ids() == old(self).ids().push(entity.entity_id),
            final(self).dirty() == (old(self).dirty() || exists|c: int|
                0 <= c < old(self).cols().len() && entity.data_for(
                    (#[trigger] old(self).cols()[c]).cid(),
                ).dirty()),
            final(self).has_events() == (old(self).has_events() || exists|c: int|
                0 <= c < old(self).cols().len() && !entity.data_for(
                    (#[trigger] old(self).cols()[c]).cid(),
                ).no_received_events()),
            final(self).cols().len() == old(self).cols().len(),
            forall|c: int|
                0 <= c < old(self).cols().len() ==> {
                    let col = #[trigger] final(self).cols()[c];
                    let o = old(self).cols()[c];
                    let cid = o.cid();
                    &&& col.cid() == cid
                    &&& col.nfields() == o.nfields()
                    &&& col.nevents() == o.nevents()
                    &&& col.dirty() == (o.dirty() || entity.data_for(cid).dirty())
                    &&& col.has_events() == (o.has_events() || !entity.data_for(
                        cid,
                    ).no_received_events())
                    &&& col.entries() == o.entries().push(
                        (crate::column::ComponentDataEntry {
                            data: entity.data_for(cid),
                            last_updated: now,
                        }),
                    )
                    &&& col.auth() == o.auth().push(entity.auth_for(cid).spec_permits_writes())
                },
    {
        let ghost pre = *self;
        let mut entity = entity;
        let ghost e0 = entity;
        let slot = self.entity_ids.len();
        self.entity_ids.push(entity.entity_id);
        let npairs = entity.component_data.len();
        let mut p: usize = 0;
        while p < npairs
            invariant
                pre.wf(*schema),
                schema.wf(),
                e0.wf(*schema),
                e0.data_key_set() == pre.col_id_set(),
                npairs == e0.component_data@.len(),
                npairs == entity.component_data@.len(),
                p <= npairs,
                self.sig() == pre.sig(),
                self.ids() == pre.ids().push(e0.entity_id),
                self.dirty() == pre.dirty(),
                self.has_events() == pre.has_events(),
                self.cols().len() == pre.cols().len(),
                entity.write_authority@ == e0.write_authority@,
                forall|j: int|
                    p <= j < npairs ==> #[trigger] entity.component_data@[j]
                        == e0.component_data@[j],
                forall|c: int|
                    0 <= c < pre.cols().len() ==> {
                        let col = #[trigger] self.cols()[c];
                        let o = pre.cols()[c];
                        let cid = o.cid();
                        &&& col.cid() == cid
                        &&& col.nfields() == o.nfields()
                        &&& col.nevents() == o.nevents()
                        &&& col.wf()
                        &&& if exists|j: int|
                            0 <= j < p && (#[trigger] e0.component_data@[j]).0 == cid {
                            col.entries() == o.entries().push(
                                (crate::column::ComponentDataEntry {
                                    data: e0.data_for(cid),
                                    last_updated: now,
                                }),
                            ) && col.auth() == o.auth().push(
                                e0.auth_for(cid).spec_permits_writes(),
                            ) && col.dirty() == (o.dirty() || e0.data_for(cid).dirty())
                                && col.has_events() == (o.has_events() || !e0.data_for(
                                cid,
                            ).no_received_events())
                        } else {
                            col == o
                        }
                    },
            decreases npairs - p,
        {
            let cid = entity.component_data[p].0;
            proof {
                assert(entity.component_data@[p as int] == e0.component_data@[p as int]);
                e0.lemma_data_at(p as int);
                assert(e0.has_data(cid));
                assert(e0.data_key_set().contains(cid));
                assert(pre.col_id_set().contains(cid));
                assert(pre.has_col(cid));
            }
            let c = match self.find_column(cid) {
                Some(c) => c,
                None => {
                    proof {
                        let cw = choose|cw: int|
                            0 <= cw < pre.cols().len() && pre.cols()[cw].cid() == cid;
                        assert(self.cols()[cw].cid() == cid);
                        assert(false);
                    }
                    0
                },
            };
            proof {
                assert(!(exists|j: int|
                    0 <= j < p && (#[trigger] e0.component_data@[j]).0 == cid)) by {
                    if exists|j: int|
                        0 <= j < p && (#[trigger] e0.component_data@[j]).0 == cid {
                        let j = choose|j: int|
                            0 <= j < p && (#[trigger] e0.component_data@[j]).0 == cid;
                        assert(e0.component_data@[j].0 == e0.component_data@[p as int].0);
                    }
                }
                assert(self.cols()[c as int] == pre.cols()[c as int]);
                assert(schema.descriptor_of(cid).data_fits(e0.data_for(cid)));
                assert(e0.data_for(cid).dirty_consistent());
            }
            let mut tmp: (ComponentId, crate::data::ComponentData) = (
                0,
                crate::data::ComponentData::new(0, 0),
            );
            entity.component_data.set_and_swap(p, &mut tmp);
            let (_, data) = tmp;
            proof {
                assert(data == e0.component_data@[p as int].1);
                assert(data == e0.data_for(cid));
            }
            let authority = entity.get_recorded_authority(cid);
            proof {
                assert(authority == e0.auth_for(cid)) by {
                    assert(entity.write_authority@ == e0.write_authority@);
                    if entity.has_auth(cid) {
                        let j = choose|j: int|
                            0 <= j < entity.write_authority@.len() && entity.write_authority@[j].0
                                == cid;
                        assert(e0.write_authority@[j].0 == cid);
                    }
                    if e0.has_auth(cid) {
                        let j = choose|j: int|
                            0 <= j < e0.write_authority@.len() && e0.write_authority@[j].0 == cid;
                        assert(entity.write_authority@[j].0 == cid);
                    }
                }
            }
            let ghost mid = *self;
            let column = &mut self.columns[c];
            column.push_entity(data, authority, now);
            proof {
                let cidc = pre.cols()[c as int].cid();
                assert(cidc == cid);
                assert forall|c2: int| 0 <= c2 < pre.cols().len() && c2 != c as int implies {
                    let cid2 = pre.cols()[c2].cid();
                    #[trigger] self.cols()[c2] == mid.cols()[c2] && ((exists|j: int|
                        0 <= j < p + 1 && (#[trigger] e0.component_data@[j]).0 == cid2) == (
                    exists|j: int| 0 <= j < p && (#[trigger] e0.component_data@[j]).0 == cid2))
                } by {
                    let cid2 = pre.cols()[c2].cid();
                    assert(cid2 != cid);
                    if exists|j: int|
                        0 <= j < p + 1 && (#[trigger] e0.component_data@[j]).0 == cid2 {
                        let j = choose|j: int|
                            0 <= j < p + 1 && (#[trigger] e0.component_data@[j]).0 == cid2;
                        assert(j != p);
                    }
                }
                assert(exists|j: int|
                    0 <= j < p + 1 && (#[trigger] e0.component_data@[j]).0 == cid) by {
                    assert(e0.component_data@[p as int].0 == cid);
                }
            }
            p = p + 1;
        }
        let ncols = self.columns.len();
        let mut c: usize = 0;
        let mut any_events = false;
        while c < ncols
            invariant
                c <= ncols,
                ncols == self.cols().len(),
                any_events == exists|j: int|
                    0 <= j < c && (#[trigger] self.cols()[j]).has_events(),
            decreases ncols - c,
        {
            if self.columns[c].has_events_this_frame() {
                any_events = true;
                proof {
                    assert(self.cols()[c as int].has_events());
                }
            }
            c = c + 1;
        }
        if any_events {
            self.has_events_this_frame = true;
        }
        let mut c: usize = 0;
        let mut any_dirty = false;
        while c < ncols
            invariant
                c <= ncols,
                ncols == self.cols().len(),
                self.has_events() == (pre.has_events() || any_events),
                any_dirty == exists|j: int| 0 <= j < c && (#[trigger] self.cols()[j]).dirty(),
            decreases ncols - c,
        {
            if self.columns[c].is_dirty() {
                any_dirty = true;
                proof {
                    assert(self.cols()[c as int].dirty());
                }
            }
            c = c + 1;
        }
        if any_dirty {
            self.is_dirty = true;
        }
        proof {
            assert forall|c2: int| 0 <= c2 < pre.cols().len() implies {
                let col = #[trigger] self.cols()[c2];
                let o = pre.cols()[c2];
                let cid = o.cid();
                col.entries() == o.entries().push(
                    (crate::column::ComponentDataEntry {
                        data: e0.data_for(cid),
                        last_updated: now,
                    }),
                ) && col.auth() == o.auth().push(e0.auth_for(cid).spec_permits_writes())
            } by {
                let cid = pre.cols()[c2].cid();
                pre.lemma_col_at(c2);
                assert(pre.col_id_set().contains(cid));
                assert(e0.data_key_set().contains(cid));
                assert(e0.has_data(cid));
                let j = choose|j: int|
                    0 <= j < e0.component_data@.len() && e0.component_data@[j].0 == cid;
                assert(exists|j2: int|
                    0 <= j2 < npairs && (#[trigger] e0.component_data@[j2]).0 == cid);
            }
            assert forall|cid: ComponentId| #[trigger] self.has_col(cid) == pre.has_col(cid) by {
                if self.has_col(cid) {
                    let c2 = choose|c2: int|
                        0 <= c2 < self.cols().len() && self.cols()[c2].cid() == cid;
                    assert(pre.cols()[c2].cid() == cid);
                }
                if pre.has_col(cid) {
                    let c2 = choose|c2: int|
                        0 <= c2 < pre.cols().len() && pre.cols()[c2].cid() == cid;
                    assert(self.cols()[c2].cid() == cid);
                }
            }
            assert(self.col_id_set() =~= pre.col_id_set());
            assert(schema.signature_ids(self.sig()) =~= self.col_id_set());
            if !self.has_events() {
                assert(!any_events);
                assert forall|c2: int| 0 <= c2 < self.cols().len() implies !(
                #[trigger] self.cols()[c2]).has_events() by {}
            }
            if !self.dirty() {
                assert(!any_dirty);
                assert forall|c2: int| 0 <= c2 < self.cols().len() implies !(
                #[trigger] self.cols()[c2]).dirty() by {}
            }
            // the chunk flags equal the disjunction over the admitted data
            assert(self.dirty() == (pre.dirty() || exists|c2: int|
                0 <= c2 < pre.cols().len() && e0.data_for(
                    (#[trigger] pre.cols()[c2]).cid(),
                ).dirty())) by {
                if pre.dirty() {
                } else if exists|c2: int|
                    0 <= c2 < pre.cols().len() && e0.data_for(
                        (#[trigger] pre.cols()[c2]).cid(),
                    ).dirty() {
                    let c2 = choose|c2: int|
                        0 <= c2 < pre.cols().len() && e0.data_for(
                            (#[trigger] pre.cols()[c2]).cid(),
                        ).dirty();
                    assert(self.cols()[c2].dirty());
                    assert(any_dirty);
                } else {
                    if any_dirty {
                        let j = choose|j: int|
                            0 <= j < ncols && (#[trigger] self.cols()[j]).dirty();
                        assert(!pre.cols()[j].dirty());
                        assert(e0.data_for(pre.cols()[j].cid()).dirty());
                        assert(false);
                    }
                }
            }
            assert(self.has_events() == (pre.has_events() || exists|c2: int|
                0 <= c2 < pre.cols().len() && !e0.data_for(
                    (#[trigger] pre.cols()[c2]).cid(),
                ).no_received_events())) by {
                if pre.has_events() {
                } else if exists|c2: int|
                    0 <= c2 < pre.cols().len() && !e0.data_for(
                        (#[trigger] pre.cols()[c2]).cid(),
                    ).no_received_events() {
                    let c2 = choose|c2: int|
                        0 <= c2 < pre.cols().len() && !e0.data_for(
                            (#[trigger] pre.cols()[c2]).cid(),
                        ).no_received_events();
                    assert(self.cols()[c2].has_events());
                    assert(any_events);
                } else {
                    if any_events {
                        let j = choose|j: int|
                            0 <= j < ncols && (#[trigger] self.cols()[j]).has_events();
                        assert(!pre.cols()[j].has_events());
                        assert(!e0.data_for(pre.cols()[j].cid()).no_received_events());
                        assert(false);
                    }
                }
            }
        }
        slot
    }

    /// Removes the entity at `slot` by swapping the last live slot into the
    /// gap, in the id row and in every column, and shrinking the live count.
    pub fn remove_entity(&mut self, schema: &Schema, slot: usize)
        requires
            old(self).wf(*schema),
            slot < old(self).ids().len(),
        ensures
            final(self).wf(*schema),
            final(self).sig() == old(self).sig(),
            final(self).dirty() == old(self).dirty(),
            final(self).has_events() == old(self).has_events(),
            final(self).cols().len() == old(self).cols().len(),
            final(self).ids() == old(self).ids().update(
                slot as int,
                old(self).ids().last(),
            ).drop_last(),
            forall|c: int|
                0 <= c < old(self).cols().len() ==> {
                    let col = #[trigger] final(self).cols()[c];
                    let o = old(self).cols()[c];
                    &&& col.cid() == o.cid()
                    &&& col.nfields() == o.nfields()
                    &&& col.nevents() == o.nevents()
                    &&& col.dirty() == o.dirty()
                    &&& col.has_events() == o.has_events()
                    &&& col.entries() == o.entries().update(
                        slot as int,
                        o.entries().last(),
                    ).drop_last()
                    &&& col.auth() == o.auth().update(slot as int, o.auth().last()).drop_last()
                },
    {
        let ghost pre = *self;
        let last = self.entity_ids.len() - 1;
        let last_id = self.entity_ids[last];
        let slot_id = self.entity_ids[slot];
        self.entity_ids.set(slot, last_id);
        let _ = self.entity_ids.pop();
        proof {
            assert(self.ids() =~= pre.ids().update(slot as int, pre.ids().last()).drop_last());
        }
        let ncols = self.columns.len();
        let mut c: usize = 0;
        while c < ncols
            invariant
                pre.wf(*schema),
                slot <= last,
                last == pre.ids().len() - 1,
                c <= ncols,
                ncols == self.cols().len() == pre.cols().len(),
                self.sig() == pre.sig(),
                self.dirty() == pre.dirty(),
                self.has_events() == pre.has_events(),
                self.ids() == pre.ids().update(slot as int, pre.ids().last()).drop_last(),
                forall|c2: int|
                    0 <= c2 < c ==> {
                        let col = #[trigger] self.cols()[c2];
                        let o = pre.cols()[c2];
                        &&& col.cid() == o.cid()
                        &&& col.nfields() == o.nfields()
                        &&& col.nevents() == o.nevents()
                        &&& col.dirty() == o.dirty()
                        &&& col.has_events() == o.has_events()
                        &&& col.wf()
                        &&& col.entries() == o.entries().update(
                            slot as int,
                            o.entries().last(),
                        ).drop_last()
                        &&& col.auth() == o.auth().update(slot as int, o.auth().last()).drop_last()
                    },
                forall|c2: int| c <= c2 < ncols ==> self.cols()[c2] == pre.cols()[c2],
            decreases ncols - c,
        {
            proof {
                assert(pre.cols()[c as int].wf());
                assert(self.cols()[c as int] == pre.cols()[c as int]);
                assert(self.cols()[c as int].entries().len() == pre.ids().len());
            }
            let column = &mut self.columns[c];
            column.swap_entity(slot, last);
            let column = &mut self.columns[c];
            column.pop_entity();
            proof {
                let o = pre.cols()[c as int];
                assert(self.cols()[c as int].entries() =~= o.entries().update(
                    slot as int,
                    o.entries().last(),
                ).drop_last());
                assert(self.cols()[c as int].auth() =~= o.auth().update(
                    slot as int,
                    o.auth().last(),
                ).drop_last());
            }
            c = c + 1;
        }
        proof {
            assert forall|cid: ComponentId| #[trigger] self.has_col(cid) == pre.has_col(cid) by {
                if self.has_col(cid) {
                    let c2 = choose|c2: int|
                        0 <= c2 < self.cols().len() && self.cols()[c2].cid() == cid;
                    assert(pre.cols()[c2].cid() == cid);
                }
                if pre.has_col(cid) {
                    let c2 = choose|c2: int|
                        0 <= c2 < pre.cols().len() && pre.cols()[c2].cid() == cid;
                    assert(self.cols()[c2].cid() == cid);
                }
            }
            assert(self.col_id_set() =~= pre.col_id_set());
            assert(schema.signature_ids(self.sig()) =~= self.col_id_set());
        }
    }

    /// Removes the entity at `slot` exactly as `remove_entity` does, and
    /// hands back its records: one `(component, record, authority)` triple
    /// per column, in column order, ready to be re-admitted elsewhere.
    pub fn extract_entity(&mut self, schema: &Schema, slot: usize) -> (r: Vec<
        (ComponentId, crate::column::ComponentDataEntry, bool),
    >)
        requires
            old(self).wf(*schema),
            slot < old(self).ids().len(),
        ensures
            final(self).wf(*schema),
            final(self).sig() == old(self).sig(),
            final(self).dirty() == old(self).dirty(),
            final(self).has_events() == old(self).has_events(),
            final(self).cols().len() == old(self).cols().len(),
            final(self).ids() == old(self).ids().update(
                slot as int,
                old(self).ids().last(),
            ).drop_last(),
            forall|c: int|
                0 <= c < old(self).cols().len() ==> {
                    let col = #[trigger] final(self).cols()[c];
                    let o = old(self).cols()[c];
                    &&& col.cid() == o.cid()
                    &&& col.nfields() == o.nfields()
                    &&& col.nevents() == o.nevents()
                    &&& col.dirty() == o.dirty()
                    &&& col.has_events() == o.has_events()
                    &&& col.entries() == o.entries().update(
                        slot as int,
                        o.entries().last(),
                    ).drop_last()
                    &&& col.auth() == o.auth().update(slot as int, o.auth().last()).drop_last()
                },
            r@.len() == old(self).cols().len(),
            forall|c: int|
                0 <= c < old(self).cols().len() ==> #[trigger] r@[c] == (
                    old(self).cols()[c].cid(),
                    old(self).cols()[c].entries()[slot as int],
                    old(self).cols()[c].auth()[slot as int],
                ),
    {
        let ghost pre = *self;
        let last = self.entity_ids.len() - 1;
        let last_id = self.entity_ids[last];
        self.entity_ids.set(slot, last_id);
        let _ = self.entity_ids.pop();
        proof {
            assert(self.ids() =~= pre.ids().update(slot as int, pre.ids().last()).drop_last());
        }
        let mut r: Vec<(ComponentId, crate::column::ComponentDataEntry, bool)> = Vec::new();
        let ncols = self.columns.len();
        let mut c: usize = 0;
        while c < ncols
            invariant
                pre.wf(*schema),
                slot <= last,
                last == pre.ids().len() - 1,
                c <= ncols,
                ncols == self.cols().len() == pre.cols().len(),
                self.sig() == pre.sig(),
                self.dirty() == pre.dirty(),
                self.has_events() == pre.has_events(),
                self.ids() == pre.ids().update(slot as int, pre.ids().last()).drop_last(),
                r@.len() == c,
                forall|c2: int|
                    0 <= c2 < c ==> #[trigger] r@[c2] == (
                        pre.cols()[c2].cid(),
                        pre.cols()[c2].entries()[slot as int],
                        pre.cols()[c2].auth()[slot as int],
                    ),
                forall|c2: int|
                    0 <= c2 < c ==> {
                        let col = #[trigger] self.cols()[c2];
                        let o = pre.cols()[c2];
                        &&& col.cid() == o.cid()
                        &&& col.nfields() == o.nfields()
                        &&& col.nevents() == o.nevents()
                        &&& col.dirty() == o.dirty()
                        &&& col.has_events() == o.has_events()
                        &&& col.wf()
                        &&& col.entries() == o.entries().update(
                            slot as int,
                            o.entries().last(),
                        ).drop_last()
                        &&& col.auth() == o.auth().update(slot as int, o.auth().last()).drop_last()
                    },
                forall|c2: int| c <= c2 < ncols ==> self.cols()[c2] == pre.cols()[c2],
            decreases ncols - c,
        {
            proof {
                assert(pre.cols()[c as int].wf());
                assert(self.cols()[c as int] == pre.cols()[c as int]);
                assert(self.cols()[c as int].entries().len() == pre.ids().len());
            }
            let cid = self.columns[c].component_id();
            let column = &mut self.columns[c];
            column.swap_entity(slot, last);
            let column = &mut self.columns[c];
            let (entry, authority) = column.pop_entry();
            r.push((cid, entry, authority));
            proof {
                let o = pre.cols()[c as int];
                assert(self.cols()[c as int].entries() =~= o.entries().update(
                    slot as int,
                    o.entries().last(),
                ).drop_last());
                assert(self.cols()[c as int].auth() =~= o.auth().update(
                    slot as int,
                    o.auth().last(),
                ).drop_last());
                assert(entry == o.entries()[slot as int]) by {
                    assert(entry == o.entries().update(slot as int, o.entries().last()).update(
                        last as int,
                        o.entries()[slot as int],
                    ).last());
                }
                assert(authority == o.auth()[slot as int]) by {
                    assert(authority == o.auth().update(slot as int, o.auth().last()).update(
                        last as int,
                        o.auth()[slot as int],
                    ).last());
                }
            }
            c = c + 1;
        }
        proof {
            assert forall|cid: ComponentId| #[trigger] self.has_col(cid) == pre.has_col(cid) by {
                if self.has_col(cid) {
                    let c2 = choose|c2: int|
                        0 <= c2 < self.cols().len() && self.cols()[c2].cid() == cid;
                    assert(pre.cols()[c2].cid() == cid);
                }
                if pre.has_col(cid) {
                    let c2 = choose|c2: int|
                        0 <= c2 < pre.cols().len() && pre.cols()[c2].cid() == cid;
                    assert(self.cols()[c2].cid() == cid);
                }
            }
            assert(self.col_id_set() =~= pre.col_id_set());
            assert(schema.signature_ids(self.sig()) =~= self.col_id_set());
        }
        r
    }

    /// Admits an entity from its extracted records: its id takes the next
    /// slot and every column receives the record carried for its component;
    /// dirty records and buffered events raise the matching flags, so
    /// nothing owed to the fabric is lost by a move between chunks.
    pub fn add_entity_from_records(
        &mut self,
        schema: &Schema,
        entity_id: EntityId,
        records: Vec<(ComponentId, crate::column::ComponentDataEntry, bool)>,
    ) -> (slot: usize)
        requires
            old(self).wf(*schema),
            schema.wf(),
            old(self).ids().len() < MAX_ENTITIES_PER_CHUNK,
            forall|i: int, j: int|
                0 <= i < j < records@.len() ==> (#[trigger] records@[i]).0 != (
                #[trigger] records@[j]).0,
            forall|cid: ComponentId|
                (exists|i: int| 0 <= i < records@.len() && (#[trigger] records@[i]).0 == cid)
                    <==> old(self).has_col(cid),
            forall|i: int|
                0 <= i < records@.len() ==> {
                    let rec = #[trigger] records@[i];
                    &&& schema.has_component(rec.0)
                    &&& rec.1.data.fields().len() == schema.descriptor_of(rec.0).nfields()
                    &&& rec.1.data.events().len() == schema.descriptor_of(rec.0).nevents()
                    &&& rec.1.data.dirty_consistent()
                },
        ensures
            final(self).wf(*schema),
            slot == old(self).ids().len(),
            final(self).sig() == old(self).sig(),
            final(self).ids() == old(self).ids().push(entity_id),
            final(self).cols().len() == old(self).cols().len(),
            old(self).dirty() ==> final(self).dirty(),
            old(self).has_events() ==> final(self).has_events(),
            forall|c: int|
                0 <= c < old(self).cols().len() ==> {
                    let col = #[trigger] final(self).cols()[c];
                    let o = old(self).cols()[c];
                    let cid = o.cid();
                    &&& col.cid() == cid
                    &&& col.nfields() == o.nfields()
                    &&& col.nevents() == o.nevents()
                    &&& col.entries() == o.entries().push(record_for(records@, cid).1)
                    &&& col.auth() == o.auth().push(record_for(records@, cid).2)
                },
    {
        let ghost pre = *self;
        let mut records = records;
        let ghost r0 = records@;
        let slot = self.entity_ids.len();
        self.entity_ids.push(entity_id);
        let nrecs = records.len();
        let mut p: usize = 0;
        while p < nrecs
            invariant
                pre.wf(*schema),
                schema.wf(),
                nrecs == r0.len(),
                nrecs == records@.len(),
                p <= nrecs,
                self.sig() == pre.sig(),
                self.ids() == pre.ids().push(entity_id),
                pre.dirty() ==> self.dirty(),
                pre.has_events() ==> self.has_events(),
                self.cols().len() == pre.cols().len(),
                forall|i: int, j: int|
                    0 <= i < j < r0.len() ==> (#[trigger] r0[i]).0 != (#[trigger] r0[j]).0,
                forall|cid: ComponentId|
                    (exists|i: int| 0 <= i < r0.len() && (#[trigger] r0[i]).0 == cid) <==> pre.has_col(
                        cid,
                    ),
                forall|i: int|
                    0 <= i < r0.len() ==> {
                        let rec = #[trigger] r0[i];
                        &&& schema.has_component(rec.0)
                        &&& rec.1.data.fields().len() == schema.descriptor_of(rec.0).nfields()
                        &&& rec.1.data.events().len() == schema.descriptor_of(rec.0).nevents()
                        &&& rec.1.data.dirty_consistent()
                    },
                forall|j: int| p <= j < nrecs ==> #[trigger] records@[j] == r0[j],
                forall|c: int|
                    0 <= c < pre.cols().len() ==> {
                        let col = #[trigger] self.cols()[c];
                        let o = pre.cols()[c];
                        let cid = o.cid();
                        &&& col.cid() == cid
                        &&& col.nfields() == o.nfields()
                        &&& col.nevents() == o.nevents()
                        &&& col.wf()
                        &&& if exists|j: int| 0 <= j < p && (#[trigger] r0[j]).0 == cid {
                            col.entries() == o.entries().push(record_for(r0, cid).1)
                                && col.auth() == o.auth().push(record_for(r0, cid).2)
                        } else {
                            col == o
                        }
                    },
            decreases nrecs - p,
        {
            let cid = records[p].0;
            proof {
                assert(records@[p as int] == r0[p as int]);
                lemma_record_at(r0, p as int);
                assert(pre.has_col(cid)) by {
                    assert(r0[p as int].0 == cid);
                }
            }
            let c = match self.find_column(cid) {
                Some(c) => c,
                None => {
                    proof {
                        let cw = choose|cw: int|
                            0 <= cw < pre.cols().len() && pre.cols()[cw].cid() == cid;
                        assert(self.cols()[cw].cid() == cid);
                        assert(false);
                    }
                    0
                },
            };
            proof {
                assert(!(exists|j: int| 0 <= j < p && (#[trigger] r0[j]).0 == cid)) by {
                    if exists|j: int| 0 <= j < p && (#[trigger] r0[j]).0 == cid {
                        let j = choose|j: int| 0 <= j < p && (#[trigger] r0[j]).0 == cid;
                        assert(r0[j].0 == r0[p as int].0);
                    }
                }
                assert(self.cols()[c as int] == pre.cols()[c as int]);
            }
            let mut tmp: (ComponentId, crate::column::ComponentDataEntry, bool) = (
                0,
                crate::column::ComponentDataEntry {
                    data: crate::data::ComponentData::new(0, 0),
                    last_updated: WorldTime::new(),
                },
                false,
            );
            records.set_and_swap(p, &mut tmp);
            let (_, entry, authority) = tmp;
            proof {
                assert(entry == r0[p as int].1);
                assert(authority == r0[p as int].2);
                assert(record_for(r0, cid).1 == entry && record_for(r0, cid).2 == authority) by {
                    lemma_record_at(r0, p as int);
                }
            }
            let ghost mid = *self;
            let column = &mut self.columns[c];
            column.push_record(entry, authority);
            proof {
                let cidc = pre.cols()[c as int].cid();
                assert(cidc == cid);
                assert forall|c2: int| 0 <= c2 < pre.cols().len() && c2 != c as int implies {
                    let cid2 = pre.cols()[c2].cid();
                    #[trigger] self.cols()[c2] == mid.cols()[c2] && ((exists|j: int|
                        0 <= j < p + 1 && (#[trigger] r0[j]).0 == cid2) == (exists|j: int|
                        0 <= j < p && (#[trigger] r0[j]).0 == cid2))
                } by {
                    let cid2 = pre.cols()[c2].cid();
                    assert(cid2 != cid);
                    if exists|j: int| 0 <= j < p + 1 && (#[trigger] r0[j]).0 == cid2 {
                        let j = choose|j: int| 0 <= j < p + 1 && (#[trigger] r0[j]).0 == cid2;
                        assert(j != p);
                    }
                }
                assert(exists|j: int| 0 <= j < p + 1 && (#[trigger] r0[j]).0 == cid) by {
                    assert(r0[p as int].0 == cid);
                }
            }
            p = p + 1;
        }
        let ncols = self.columns.len();
        let mut c: usize = 0;
        let mut any_events = false;
        let mut any_dirty = false;
        while c < ncols
            invariant
                c <= ncols,
                ncols == self.cols().len(),
                any_events == exists|j: int|
                    0 <= j < c && (#[trigger] self.cols()[j]).has_events(),
                any_dirty == exists|j: int| 0 <= j < c && (#[trigger] self.cols()[j]).dirty(),
            decreases ncols - c,
        {
            if self.columns[c].has_events_this_frame() {
                any_events = true;
                proof {
                    assert(self.cols()[c as int].has_events());
                }
            }
            if self.columns[c].is_dirty() {
                any_dirty = true;
                proof {
                    assert(self.cols()[c as int].dirty());
                }
            }
            c = c + 1;
        }
        if any_events {
            self.has_events_this_frame = true;
        }
        if any_dirty {
            self.is_dirty = true;
        }
        proof {
            assert forall|c2: int| 0 <= c2 < pre.cols().len() implies {
                let col = #[trigger] self.cols()[c2];
                let o = pre.cols()[c2];
                let cid = o.cid();
                col.entries() == o.entries().push(record_for(r0, cid).1) && col.auth()
                    == o.auth().push(record_for(r0, cid).2)
            } by {
                let cid = pre.cols()[c2].cid();
                pre.lemma_col_at(c2);
                assert(pre.has_col(cid));
                let j = choose|j: int| 0 <= j < r0.len() && (#[trigger] r0[j]).0 == cid;
                assert(exists|j2: int| 0 <= j2 < nrecs && (#[trigger] r0[j2]).0 == cid);
            }
            assert forall|cid: ComponentId| #[trigger] self.has_col(cid) == pre.has_col(cid) by {
                if self.has_col(cid) {
                    let c2 = choose|c2: int|
                        0 <= c2 < self.cols().len() && self.cols()[c2].cid() == cid;
                    assert(pre.cols()[c2].cid() == cid);
                }
                if pre.has_col(cid) {
                    let c2 = choose|c2: int|
                        0 <= c2 < pre.cols().len() && pre.cols()[c2].cid() == cid;
                    assert(self.cols()[c2].cid() == cid);
                }
            }
            assert(self.col_id_set() =~= pre.col_id_set());
            assert(schema.signature_ids(self.sig()) =~= self.col_id_set());
            if !self.has_events() {
                assert(!any_events);
                assert forall|c2: int| 0 <= c2 < self.cols().len() implies !(
                #[trigger] self.cols()[c2]).has_events() by {}
            }
            if !self.dirty() {
                assert(!any_dirty);
                assert forall|c2: int| 0 <= c2 < self.cols().len() implies !(
                #[trigger] self.cols()[c2]).dirty() by {}
            }
        }
        slot
    }

    /// Dispatches an inbound update to the component's column at `slot` and
    /// raises the chunk's events flag when the update carried events.
    /// Updates for components the chunk does not store, or whose shape does
    /// not match, are dropped; the result says whether the update was
    /// applied.
    pub fn apply_component_update(
        &mut self,
        schema: &Schema,
        component_id: ComponentId,
        slot: usize,
        update: &ComponentUpdate,
        now: WorldTime,
    ) -> (applied: bool)
        requires
            old(self).wf(*schema),
            slot < old(self).ids().len(),
        ensures
            final(self).wf(*schema),
            final(self).sig() == old(self).sig(),
            final(self).ids() == old(self).ids(),
            final(self).dirty() == old(self).dirty(),
            final(self).cols().len() == old(self).cols().len(),
            applied == (old(self).has_col(component_id) && update.ufields().len() == old(
                self,
            ).col_for(component_id).nfields() && update.uevents().len() == old(self).col_for(
                component_id,
            ).nevents()),
            !applied ==> *final(self) == *old(self),
            applied ==> {
                let c = old(self).col_index(component_id);
                let col = final(self).cols()[c];
                let o = old(self).cols()[c];
                &&& final(self).has_events() == (old(self).has_events()
                    || update.spec_contains_events())
                &&& (forall|c2: int|
                    0 <= c2 < old(self).cols().len() && c2 != c ==> final(self).cols()[c2] == old(
                        self,
                    ).cols()[c2])
                &&& col.cid() == o.cid()
                &&& col.auth() == o.auth()
                &&& col.dirty() == o.dirty()
                &&& col.entries().len() == o.entries().len()
                &&& (forall|i: int|
                    0 <= i < o.entries().len() && i != slot ==> col.entries()[i] == o.entries()[i])
                &&& col.entries()[slot as int].last_updated == now
                &&& col.entries()[slot as int].data.fields() == applied_fields(
                    o.entries()[slot as int].data.fields(),
                    update.ufields(),
                )
                &&& col.entries()[slot as int].data.events().len() == o.nevents()
                &&& (forall|k: int|
                    0 <= k < o.nevents() ==> (#[trigger] col.entries()[slot as int].data.events()[
                        k
                    ]).received() == o.entries()[slot as int].data.events()[k].received()
                        + update.uevents()[k] && col.entries()[slot as int].data.events()[
                        k
                    ].staged() == o.entries()[slot as int].data.events()[k].staged())
                &&& col.entries()[slot as int].data.dirty() == o.entries()[
                    slot as int
                ].data.dirty()
            },
    {
        let ghost pre = *self;
        let c = match self.find_column(component_id) {
            Some(c) => c,
            None => {
                return false;
            },
        };
        if update.num_fields() != self.columns[c].num_fields() || update.num_events()
            != self.columns[c].num_events() {
            proof {
                pre.lemma_col_at(c as int);
            }
            return false;
        }
        proof {
            pre.lemma_col_at(c as int);
        }
        let column = &mut self.columns[c];
        let contains_events = column.apply_component_update(slot, update, now);
        if contains_events {
            self.has_events_this_frame = true;
        }
        proof {
            assert forall|cid: ComponentId| #[trigger] self.has_col(cid) == pre.has_col(cid) by {
                if self.has_col(cid) {
                    let c2 = choose|c2: int|
                        0 <= c2 < self.cols().len() && self.cols()[c2].cid() == cid;
                    assert(pre.cols()[c2].cid() == cid);
                }
                if pre.has_col(cid) {
                    let c2 = choose|c2: int|
                        0 <= c2 < pre.cols().len() && pre.cols()[c2].cid() == cid;
                    assert(self.cols()[c2].cid() == cid);
                }
            }
            assert(self.col_id_set() =~= pre.col_id_set());
            assert(schema.signature_ids(self.sig()) =~= self.col_id_set());
            if !self.has_events() {
                assert(!contains_events && !pre.has_events());
                assert forall|c2: int| 0 <= c2 < self.cols().len() implies !(
                #[trigger] self.cols()[c2]).has_events() by {
                    if c2 != c {
                        assert(self.cols()[c2] == pre.cols()[c2]);
                    }
                }
            }
        }
        true
    }

    /// Dispatches the fabric's authority signal for one component at `slot`;
    /// signals for components the chunk does not store are dropped.  The
    /// result says whether the signal was applied.
    pub fn apply_authority(
        &mut self,
        schema: &Schema,
        component_id: ComponentId,
        slot: usize,
        authority: Authority,
    ) -> (applied: bool)
        requires
            old(self).wf(*schema),
            slot < old(self).ids().len(),
        ensures
            final(self).wf(*schema),
            final(self).sig() == old(self).sig(),
            final(self).ids() == old(self).ids(),
            final(self).dirty() == old(self).dirty(),
            final(self).has_events() == old(self).has_events(),
            final(self).cols().len() == old(self).cols().len(),
            applied == old(self).has_col(component_id),
            !applied ==> *final(self) == *old(self),
            applied ==> {
                let c = old(self).col_index(component_id);
                let col = final(self).cols()[c];
                let o = old(self).cols()[c];
                &&& (forall|c2: int|
                    0 <= c2 < old(self).cols().len() && c2 != c ==> final(self).cols()[c2] == old(
                        self,
                    ).cols()[c2])
                &&& col.cid() == o.cid()
                &&& col.entries() == o.entries()
                &&& col.dirty() == o.dirty()
                &&& col.has_events() == o.has_events()
                &&& col.auth() == o.auth().update(
                    slot as int,
                    authority.spec_permits_writes(),
                )
            },
    {
        let ghost pre = *self;
        let c = match self.find_column(component_id) {
            Some(c) => c,
            None => {
                return false;
            },
        };
        proof {
            pre.lemma_col_at(c as int);
        }
        let column = &mut self.columns[c];
        column.set_authority(slot, authority);
        proof {
            assert forall|cid: ComponentId| #[trigger] self.has_col(cid) == pre.has_col(cid) by {
                if self.has_col(cid) {
                    let c2 = choose|c2: int|
                        0 <= c2 < self.cols().len() && self.cols()[c2].cid() == cid;
                    assert(pre.cols()[c2].cid() == cid);
                }
                if pre.has_col(cid) {
                    let c2 = choose|c2: int|
                        0 <= c2 < pre.cols().len() && pre.cols()[c2].cid() == cid;
                    assert(self.cols()[c2].cid() == cid);
                }
            }
            assert(self.col_id_set() =~= pre.col_id_set());
            assert(schema.signature_ids(self.sig()) =~= self.col_id_set());
            if !self.has_events() {
                assert forall|c2: int| 0 <= c2 < self.cols().len() implies !(
                #[trigger] self.cols()[c2]).has_events() by {
                    if c2 != c {
                        assert(self.cols()[c2] == pre.cols()[c2]);
                    }
                }
            }
            if !self.dirty() {
                assert forall|c2: int| 0 <= c2 < self.cols().len() implies !(
                #[trigger] self.cols()[c2]).dirty() by {
                    if c2 != c {
                        assert(self.cols()[c2] == pre.cols()[c2]);
                    }
                }
            }
        }
        true
    }

    /// Overwrites one field of one component at `slot`, provided the chunk
    /// stores the component, the field exists, and the worker holds
    /// authority over it there.  A permitted write marks the field, the
    /// data, the column, and the chunk dirty; anything else changes nothing.
    pub fn set_field(
        &mut self,
        schema: &Schema,
        component_id: ComponentId,
        slot: usize,
        field_index: usize,
        value: i64,
    ) -> (r: bool)
        requires
            old(self).wf(*schema),
            slot < old(self).ids().len(),
        ensures
            final(self).wf(*schema),
            final(self).sig() == old(self).sig(),
            final(self).ids() == old(self).ids(),
            final(self).has_events() == old(self).has_events(),
            final(self).cols().len() == old(self).cols().len(),
            r == (old(self).has_col(component_id) && field_index < old(self).col_for(
                component_id,
            ).nfields() && old(self).col_for(component_id).auth()[slot as int]),
            !r ==> *final(self) == *old(self),
            r ==> {
                let c = old(self).col_index(component_id);
                let col = final(self).cols()[c];
                let o = old(self).cols()[c];
                let e = col.entries()[slot as int];
                let oe = o.entries()[slot as int];
                &&& final(self).dirty()
                &&& col.dirty()
                &&& (forall|c2: int|
                    0 <= c2 < old(self).cols().len() && c2 != c ==> final(self).cols()[c2] == old(
                        self,
                    ).cols()[c2])
                &&& col.cid() == o.cid()
                &&& col.auth() == o.auth()
                &&& col.entries().len() == o.entries().len()
                &&& (forall|i: int|
                    0 <= i < o.entries().len() && i != slot ==> col.entries()[i] == o.entries()[i])
                &&& e.last_updated == oe.last_updated
                &&& e.data.events() == oe.data.events()
                &&& e.data.dirty()
                &&& e.data.fields().len() == oe.data.fields().len()
                &&& e.data.fields()[field_index as int].value() == value
                &&& e.data.fields()[field_index as int].dirty()
                &&& (forall|i: int|
                    0 <= i < oe.data.fields().len() && i != field_index ==> e.data.fields()[i]
                        == oe.data.fields()[i])
            },
    {
        let ghost pre = *self;
        let c = match self.find_column(component_id) {
            Some(c) => c,
            None => {
                return false;
            },
        };
        proof {
            pre.lemma_col_at(c as int);
        }
        if field_index >= self.columns[c].num_fields() {
            return false;
        }
        if !self.columns[c].auth_bit(slot) {
            return false;
        }
        let column = &mut self.columns[c];
        let permitted = column.set_field(slot, field_index, value);
        proof {
            assert(permitted);
        }
        self.is_dirty = true;
        proof {
            assert forall|cid: ComponentId| #[trigger] self.has_col(cid) == pre.has_col(cid) by {
                if self.has_col(cid) {
                    let c2 = choose|c2: int|
                        0 <= c2 < self.cols().len() && self.cols()[c2].cid() == cid;
                    assert(pre.cols()[c2].cid() == cid);
                }
                if pre.has_col(cid) {
                    let c2 = choose|c2: int|
                        0 <= c2 < pre.cols().len() && pre.cols()[c2].cid() == cid;
                    assert(self.cols()[c2].cid() == cid);
                }
            }
            assert(self.col_id_set() =~= pre.col_id_set());
            assert(schema.signature_ids(self.sig()) =~= self.col_id_set());
            if !self.has_events() {
                assert forall|c2: int| 0 <= c2 < self.cols().len() implies !(
                #[trigger] self.cols()[c2]).has_events() by {
                    if c2 != c {
                        assert(self.cols()[c2] == pre.cols()[c2]);
                    }
                }
            }
        }
        permitted
    }

    /// Stages an event on one buffer of one component at `slot`, under the
    /// same authority gate as `set_field`; a permitted trigger marks the
    /// data, the column, and the chunk dirty.
    pub fn trigger_event(
        &mut self,
        schema: &Schema,
        component_id: ComponentId,
        slot: usize,
        event_index: usize,
        value: i64,
    ) -> (r: bool)
        requires
            old(self).wf(*schema),
            slot < old(self).ids().len(),
        ensures
            final(self).wf(*schema),
            final(self).sig() == old(self).sig(),
            final(self).ids() == old(self).ids(),
            final(self).has_events() == old(self).has_events(),
            final(self).cols().len() == old(self).cols().len(),
            r == (old(self).has_col(component_id) && event_index < old(self).col_for(
                component_id,
            ).nevents() && old(self).col_for(component_id).auth()[slot as int]),
            !r ==> *final(self) == *old(self),
            r ==> {
                let c = old(self).col_index(component_id);
                let col = final(self).cols()[c];
                let o = old(self).cols()[c];
                let e = col.entries()[slot as int];
                let oe = o.entries()[slot as int];
                &&& final(self).dirty()
                &&& col.dirty()
                &&& (forall|c2: int|
                    0 <= c2 < old(self).cols().len() && c2 != c ==> final(self).cols()[c2] == old(
                        self,
                    ).cols()[c2])
                &&& col.cid() == o.cid()
                &&& col.auth() == o.auth()
                &&& col.entries().len() == o.entries().len()
                &&& (forall|i: int|
                    0 <= i < o.entries().len() && i != slot ==> col.entries()[i] == o.entries()[i])
                &&& e.last_updated == oe.last_updated
                &&& e.data.fields() == oe.data.fields()
                &&& e.data.dirty()
                &&& e.data.events().len() == oe.data.events().len()
                &&& (e.data.events()[event_index as int]).staged() == oe.data.events()[
                    event_index as int
                ].staged().push(value)
                &&& (e.data.events()[event_index as int]).received() == oe.data.events()[
                    event_index as int
                ].received()
                &&& (forall|i: int|
                    0 <= i < oe.data.events().len() && i != event_index ==> e.data.events()[i]
                        == oe.data.events()[i])
            },
    {
        let ghost pre = *self;
        let c = match self.find_column(component_id) {
            Some(c) => c,
            None => {
                return false;
            },
        };
        proof {
            pre.lemma_col_at(c as int);
        }
        if event_index >= self.columns[c].num_events() {
            return false;
        }
        if !self.columns[c].auth_bit(slot) {
            return false;
        }
        let column = &mut self.columns[c];
        let permitted = column.trigger_event(slot, event_index, value);
        proof {
            assert(permitted);
        }
        self.is_dirty = true;
        proof {
            assert forall|cid: ComponentId| #[trigger] self.has_col(cid) == pre.has_col(cid) by {
                if self.has_col(cid) {
                    let c2 = choose|c2: int|
                        0 <= c2 < self.cols().len() && self.cols()[c2].cid() == cid;
                    assert(pre.cols()[c2].cid() == cid);
                }
                if pre.has_col(cid) {
                    let c2 = choose|c2: int|
                        0 <= c2 < pre.cols().len() && pre.cols()[c2].cid() == cid;
                    assert(self.cols()[c2].cid() == cid);
                }
            }
            assert(self.col_id_set() =~= pre.col_id_set());
            assert(schema.signature_ids(self.sig()) =~= self.col_id_set());
            if !self.has_events() {
                assert forall|c2: int| 0 <= c2 < self.cols().len() implies !(
                #[trigger] self.cols()[c2]).has_events() by {
                    if c2 != c {
                        assert(self.cols()[c2] == pre.cols()[c2]);
                    }
                }
            }
        }
        permitted
    }

    /// The value of one field of one component at `slot`, or `None` when the
    /// chunk does not store the component or the field does not exist.
    pub fn get_component_field(
        &self,
        schema: &Schema,
        component_id: ComponentId,
        slot: usize,
        field_index: usize,
    ) -> (r: Option<i64>)
        requires
            self.wf(*schema),
            slot < self.ids().len(),
        ensures
            match r {
                Some(v) => self.has_col(component_id) && field_index < self.col_for(
                    component_id,
                ).nfields() && v == self.col_for(component_id).entries()[slot as int].data.fields()[
                    field_index as int
                ].value(),
                None => !(self.has_col(component_id) && field_index < self.col_for(
                    component_id,
                ).nfields()),
            },
    {
        let c = match self.find_column(component_id) {
            Some(c) => c,
            None => {
                return None;
            },
        };
        proof {
            self.lemma_col_at(c as int);
        }
        if field_index >= self.columns[c].num_fields() {
            return None;
        }
        Some(self.columns[c].entry_field(slot, field_index))
    }

    /// The authority the worker holds over one component at `slot`, as the
    /// store tracks it, or `None` when the chunk does not store the
    /// component.
    pub fn get_authority(&self, schema: &Schema, component_id: ComponentId, slot: usize) -> (r:
        Option<Authority>)
        requires
            self.wf(*schema),
            slot < self.ids().len(),
        ensures
            match r {
                Some(a) => self.has_col(component_id) && a == if self.col_for(
                    component_id,
                ).auth()[slot as int] {
                    Authority::Authoritative
                } else {
                    Authority::NotAuthoritative
                },
                None => !self.has_col(component_id),
            },
    {
        let c = match self.find_column(component_id) {
            Some(c) => c,
            None => {
                return None;
            },
        };
        proof {
            self.lemma_col_at(c as int);
        }
        Some(self.columns[c].get_authority(slot))
    }

    /// The events one component at `slot` received this tick on one buffer,
    /// or `None` when the chunk does not store the component or the buffer
    /// does not exist.
    pub fn get_received_events(
        &self,
        schema: &Schema,
        component_id: ComponentId,
        slot: usize,
        event_index: usize,
    ) -> (r: Option<&Vec<i64>>)
        requires
            self.wf(*schema),
            slot < self.ids().len(),
        ensures
            match r {
                Some(v) => self.has_col(component_id) && event_index < self.col_for(
                    component_id,
                ).nevents() && v@ == self.col_for(component_id).entries()[slot as int].data.events()[
                    event_index as int
                ].received(),
                None => !(self.has_col(component_id) && event_index < self.col_for(
                    component_id,
                ).nevents()),
            },
    {
        let c = match self.find_column(component_id) {
            Some(c) => c,
            None => {
                return None;
            },
        };
        proof {
            self.lemma_col_at(c as int);
        }
        if event_index >= self.columns[c].num_events() {
            return None;
        }
        Some(self.columns[c].entry_received_events(slot, event_index))
    }

    /// When one component at `slot` last changed through the fabric, or
    /// `None` when the chunk does not store the component.
    pub fn get_last_updated(&self, schema: &Schema, component_id: ComponentId, slot: usize) -> (r:
        Option<WorldTime>)
        requires
            self.wf(*schema),
            slot < self.ids().len(),
        ensures
            match r {
                Some(t) => self.has_col(component_id) && t == self.col_for(component_id).entries()[
                    slot as int
                ].last_updated,
                None => !self.has_col(component_id),
            },
    {
        let c = match self.find_column(component_id) {
            Some(c) => c,
            None => {
                return None;
            },
        };
        proof {
            self.lemma_col_at(c as int);
        }
        Some(self.columns[c].entry_last_updated(slot))
    }

    /// Replicates the chunk: appends to `out`, column by column in column
    /// order, one update message per dirty slot carrying exactly that slot's
    /// dirty fields and staged events, and leaves every column clean.  A
    /// clean chunk appends nothing.
    pub fn replicate(&mut self, schema: &Schema, out: &mut Vec<OutgoingMessage>)
        requires
            old(self).wf(*schema),
        ensures
            final(self).wf(*schema),
            final(self).sig() == old(self).sig(),
            final(self).ids() == old(self).ids(),
            final(self).has_events() == old(self).has_events(),
            final(self).cols().len() == old(self).cols().len(),
            !final(self).dirty(),
            forall|c: int|
                0 <= c < old(self).cols().len() ==> {
                    let col = #[trigger] final(self).cols()[c];
                    let o = old(self).cols()[c];
                    &&& col.cid() == o.cid()
                    &&& col.auth() == o.auth()
                    &&& col.has_events() == o.has_events()
                    &&& col.replicated_clean()
                    &&& col.entries().len() == o.entries().len()
                    &&& (forall|i: int|
                        0 <= i < o.entries().len() ==> {
                            let e = #[trigger] col.entries()[i];
                            let oe = o.entries()[i];
                            e.last_updated == oe.last_updated && e.data.fields() == cleaned_fields(
                                oe.data.fields(),
                            ) && e.data.events().len() == oe.data.events().len()
                        })
                    &&& (forall|i: int, k: int|
                        0 <= i < o.entries().len() && 0 <= k < o.entries()[i].data.events().len()
                            ==> (#[trigger] col.entries()[i].data.events()[k]).received()
                            == o.entries()[i].data.events()[k].received())
                },
            final(out)@.len() == old(out)@.len() + msgs_before(
                old(self).cols(),
                old(self).cols().len() as int,
            ),
            forall|k: int| 0 <= k < old(out)@.len() ==> final(out)@[k] == old(out)@[k],
            forall|c: int, k: int|
                0 <= c < old(self).cols().len() && 0 <= k < dirty_slots(
                    old(self).cols()[c].entries(),
                ).len() ==> {
                    let s = dirty_slots(old(self).cols()[c].entries())[k];
                    is_update_msg(
                        #[trigger] final(out)@[old(out)@.len() + msgs_before(old(self).cols(), c)
                            + k],
                        old(self).ids()[s],
                        old(self).cols()[c].cid(),
                        extracted_fields(old(self).cols()[c].entries()[s].data.fields()),
                        staged_events_of(old(self).cols()[c].entries()[s].data.events()),
                    )
                },
    {
        let ghost pre = *self;
        let ghost out0 = out@;
        if !self.is_dirty {
            proof {
                assert forall|c: int| 0 <= c < self.cols().len() implies {
                    let col = #[trigger] self.cols()[c];
                    col.replicated_clean() && dirty_slots(col.entries()) == Seq::<int>::empty()
                        && (forall|i: int|
                        0 <= i < col.entries().len() ==> (#[trigger] col.entries()[
                            i
                        ]).data.fields() == cleaned_fields(col.entries()[i].data.fields()))
                } by {
                    let col = self.cols()[c];
                    assert(col.wf() && !col.dirty());
                    crate::column::lemma_dirty_slots_empty(col.entries());
                    assert forall|i: int| 0 <= i < col.entries().len() implies (
                    #[trigger] col.entries()[i]).data.fields() == cleaned_fields(
                        col.entries()[i].data.fields(),
                    ) by {
                        assert(!col.entries()[i].data.dirty());
                        assert(col.entries()[i].data.dirty_consistent());
                        assert(col.entries()[i].data.fields() =~= cleaned_fields(
                            col.entries()[i].data.fields(),
                        ));
                    }
                }
                lemma_msgs_before_all_empty(self.cols(), self.cols().len() as int);
            }
            return ;
        }
        let ncols = self.columns.len();
        let mut c: usize = 0;
        while c < ncols
            invariant
                pre.wf(*schema),
                c <= ncols,
                ncols == self.cols().len() == pre.cols().len(),
                self.sig() == pre.sig(),
                self.ids() == pre.ids(),
                self.dirty() == pre.dirty(),
                self.has_events() == pre.has_events(),
                forall|c2: int| c <= c2 < ncols ==> self.cols()[c2] == pre.cols()[c2],
                forall|c2: int|
                    0 <= c2 < c ==> {
                        let col = #[trigger] self.cols()[c2];
                        let o = pre.cols()[c2];
                        &&& col.wf()
                        &&& col.cid() == o.cid()
                        &&& col.nfields() == o.nfields()
                        &&& col.nevents() == o.nevents()
                        &&& col.auth() == o.auth()
                        &&& col.has_events() == o.has_events()
                        &&& col.replicated_clean()
                        &&& col.entries().len() == o.entries().len()
                        &&& (forall|i: int|
                            0 <= i < o.entries().len() ==> {
                                let e = #[trigger] col.entries()[i];
                                let oe = o.entries()[i];
                                e.last_updated == oe.last_updated && e.data.fields()
                                    == cleaned_fields(oe.data.fields()) && e.data.events().len()
                                    == oe.data.events().len()
                            })
                        &&& (forall|i: int, k: int|
                            0 <= i < o.entries().len() && 0 <= k < o.entries()[
                                i
                            ].data.events().len() ==> (#[trigger] col.entries()[i].data.events()[
                                k
                            ]).received() == o.entries()[i].data.events()[k].received())
                    },
                out@.len() == out0.len() + msgs_before(pre.cols(), c as int),
                forall|k: int| 0 <= k < out0.len() ==> out@[k] == out0[k],
                forall|c2: int, k: int|
                    0 <= c2 < c && 0 <= k < dirty_slots(pre.cols()[c2].entries()).len() ==> {
                        let s = dirty_slots(pre.cols()[c2].entries())[k];
                        is_update_msg(
                            #[trigger] out@[out0.len() + msgs_before(pre.cols(), c2) + k],
                            pre.ids()[s],
                            pre.cols()[c2].cid(),
                            extracted_fields(pre.cols()[c2].entries()[s].data.fields()),
                            staged_events_of(pre.cols()[c2].entries()[s].data.events()),
                        )
                    },
            decreases ncols - c,
        {
            proof {
                assert(pre.cols()[c as int].wf());
                assert(self.cols()[c as int] == pre.cols()[c as int]);
                lemma_msgs_before_bounds(pre.cols(), 0, c as int);
            }
            let ghost out_mid = out@;
            let column = &mut self.columns[c];
            ComponentStorage::replicate(column, &self.entity_ids, out);
            proof {
                crate::column::lemma_dirty_slots_in_range(pre.cols()[c as int].entries());
                assert(out@.len() == out_mid.len() + dirty_slots(
                    pre.cols()[c as int].entries(),
                ).len());
                assert forall|c2: int, k: int|
                    0 <= c2 < c + 1 && 0 <= k < dirty_slots(pre.cols()[c2].entries()).len() implies {
                    let s = dirty_slots(pre.cols()[c2].entries())[k];
                    is_update_msg(
                        #[trigger] out@[out0.len() + msgs_before(pre.cols(), c2) + k],
                        pre.ids()[s],
                        pre.cols()[c2].cid(),
                        extracted_fields(pre.cols()[c2].entries()[s].data.fields()),
                        staged_events_of(pre.cols()[c2].entries()[s].data.events()),
                    )
                } by {
                    lemma_msgs_before_bounds(pre.cols(), 0, c2);
                    if c2 < c {
                        lemma_msgs_before_bounds(pre.cols(), c2 + 1, c as int);
                        crate::column::lemma_dirty_slots_in_range(pre.cols()[c2].entries());
                        assert(out0.len() + msgs_before(pre.cols(), c2) + k < out_mid.len());
                        assert(out@[out0.len() + msgs_before(pre.cols(), c2) + k] == out_mid[out0.len()
                            + msgs_before(pre.cols(), c2) + k]);
                    } else {
                        assert(msgs_before(pre.cols(), c2) == msgs_before(pre.cols(), c as int));
                    }
                }
            }
            c = c + 1;
        }
        self.is_dirty = false;
        proof {
            assert forall|cid: ComponentId| #[trigger] self.has_col(cid) == pre.has_col(cid) by {
                if self.has_col(cid) {
                    let c2 = choose|c2: int|
                        0 <= c2 < self.cols().len() && self.cols()[c2].cid() == cid;
                    assert(pre.cols()[c2].cid() == cid);
                }
                if pre.has_col(cid) {
                    let c2 = choose|c2: int|
                        0 <= c2 < pre.cols().len() && pre.cols()[c2].cid() == cid;
                    assert(self.cols()[c2].cid() == cid);
                }
            }
            assert(self.col_id_set() =~= pre.col_id_set());
            assert(schema.signature_ids(self.sig()) =~= self.col_id_set());
        }
    }

    /// Clears every column's received events at the end of a tick; staged
    /// events, field values, and dirty state are untouched.
    pub fn cleanup_after_frame(&mut self, schema: &Schema)
        requires
            old(self).wf(*schema),
        ensures
            final(self).wf(*schema),
            final(self).sig() == old(self).sig(),
            final(self).ids() == old(self).ids(),
            final(self).dirty() == old(self).dirty(),
            !final(self).has_events(),
            final(self).cols().len() == old(self).cols().len(),
            forall|c: int|
                0 <= c < old(self).cols().len() ==> {
                    let col = #[trigger] final(self).cols()[c];
                    let o = old(self).cols()[c];
                    &&& col.cid() == o.cid()
                    &&& col.auth() == o.auth()
                    &&& col.dirty() == o.dirty()
                    &&& col.entries().len() == o.entries().len()
                    &&& (forall|i: int|
                        0 <= i < o.entries().len() ==> {
                            let e = #[trigger] col.entries()[i];
                            let oe = o.entries()[i];
                            e.last_updated == oe.last_updated && e.data.fields() == oe.data.fields()
                                && e.data.dirty() == oe.data.dirty() && e.data.events().len()
                                == oe.data.events().len() && e.data.no_received_events()
                        })
                    &&& (forall|i: int, k: int|
                        0 <= i < o.entries().len() && 0 <= k < o.entries()[i].data.events().len()
                            ==> (#[trigger] col.entries()[i].data.events()[k]).staged()
                            == o.entries()[i].data.events()[k].staged())
                },
    {
        let ghost pre = *self;
        if !self.has_events_this_frame {
            proof {
                assert forall|c: int| 0 <= c < self.cols().len() implies {
                    let col = #[trigger] self.cols()[c];
                    forall|i: int|
                        0 <= i < col.entries().len() ==> (#[trigger] col.entries()[
                            i
                        ]).data.no_received_events()
                } by {
                    let col = self.cols()[c];
                    assert(col.wf() && !col.has_events());
                }
            }
            return ;
        }
        let ncols = self.columns.len();
        let mut c: usize = 0;
        while c < ncols
            invariant
                pre.wf(*schema),
                c <= ncols,
                ncols == self.cols().len() == pre.cols().len(),
                self.sig() == pre.sig(),
                self.ids() == pre.ids(),
                self.dirty() == pre.dirty(),
                self.has_events() == pre.has_events(),
                forall|c2: int| c <= c2 < ncols ==> self.cols()[c2] == pre.cols()[c2],
                forall|c2: int|
                    0 <= c2 < c ==> {
                        let col = #[trigger] self.cols()[c2];
                        let o = pre.cols()[c2];
                        &&& col.wf()
                        &&& col.cid() == o.cid()
                        &&& col.nfields() == o.nfields()
                        &&& col.nevents() == o.nevents()
                        &&& col.auth() == o.auth()
                        &&& col.dirty() == o.dirty()
                        &&& !col.has_events()
                        &&& col.entries().len() == o.entries().len()
                        &&& (forall|i: int|
                            0 <= i < o.entries().len() ==> {
                                let e = #[trigger] col.entries()[i];
                                let oe = o.entries()[i];
                                e.last_updated == oe.last_updated && e.data.fields()
                                    == oe.data.fields() && e.data.dirty() == oe.data.dirty()
                                    && e.data.events().len() == oe.data.events().len()
                                    && e.data.no_received_events()
                            })
                        &&& (forall|i: int, k: int|
                            0 <= i < o.entries().len() && 0 <= k < o.entries()[
                                i
                            ].data.events().len() ==> (#[trigger] col.entries()[i].data.events()[
                                k
                            ]).staged() == o.entries()[i].data.events()[k].staged())
                    },
            decreases ncols - c,
        {
            proof {
                assert(pre.cols()[c as int].wf());
                assert(self.cols()[c as int] == pre.cols()[c as int]);
            }
            let column = &mut self.columns[c];
            column.cleanup_after_frame();
            c = c + 1;
        }
        self.has_events_this_frame = false;
        proof {
            assert forall|cid: ComponentId| #[trigger] self.has_col(cid) == pre.has_col(cid) by {
                if self.has_col(cid) {
                    let c2 = choose|c2: int|
                        0 <= c2 < self.cols().len() && self.cols()[c2].cid() == cid;
                    assert(pre.cols()[c2].cid() == cid);
                }
                if pre.has_col(cid) {
                    let c2 = choose|c2: int|
                        0 <= c2 < pre.cols().len() && pre.cols()[c2].cid() == cid;
                    assert(self.cols()[c2].cid() == cid);
                }
            }
            assert(self.col_id_set() =~= pre.col_id_set());
            assert(schema.signature_ids(self.sig()) =~= self.col_id_set());
        }
    }
}

/// Columns without dirty slots contribute no messages.
pub proof fn lemma_msgs_before_all_empty(cols: Seq<ComponentStorage>, c: int)
    requires
        forall|c2: int|
            0 <= c2 < cols.len() ==> dirty_slots((#[trigger] cols[c2]).entries())
                == Seq::<int>::empty(),
        c <= cols.len(),
    ensures
        msgs_before(cols, c) == 0,
    decreases
            if c > 0 {
                c
            } else {
                0
            },
{
    if c > 0 {
        lemma_msgs_before_all_empty(cols, c - 1);
    }
}

} // verus!
