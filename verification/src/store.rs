//! The entity store: every chunk, and the entity-id to location map.
//!
//! Entities are grouped into chunks by signature.  The store resolves an
//! entity id to its `(chunk, slot)` location and keeps that map consistent
//! across admissions, evictions, and the slot swaps eviction causes.

use crate::chunk::msgs_before;
use crate::chunk::Chunk;
use crate::chunk::MAX_ENTITIES_PER_CHUNK;
use crate::column::dirty_slots;
use crate::column::is_update_msg;
use crate::column::ComponentDataEntry;
use crate::data::cleaned_fields;
use crate::data::extracted_fields;
use crate::data::staged_events_of;
use crate::ops::OutgoingMessage;
use crate::schema::Schema;
use crate::signature::GeneratedComponentBitField;
use crate::world::PartialEntity;
use crate::world::WorldTime;
use crate::ComponentId;
use crate::EntityId;
use vstd::prelude::*;

verus! {

/// The number of replication messages one chunk owes: the total over its
/// columns.
pub open spec fn chunk_msg_count(ch: Chunk) -> int {
    msgs_before(ch.cols(), ch.cols().len() as int)
}

/// The messages the chunks before `c` contribute to one replication pass.
pub open spec fn store_msgs_before(chunks: Seq<Chunk>, c: int) -> int
    decreases c,
{
    if c <= 0 {
        0
    } else {
        store_msgs_before(chunks, c - 1) + chunk_msg_count(chunks[c - 1])
    }
}

/// Chunk message counts accumulate monotonically.
pub proof fn lemma_store_msgs_before_bounds(chunks: Seq<Chunk>, c1: int, c2: int)
    requires
        c1 <= c2,
    ensures
        store_msgs_before(chunks, c1) <= store_msgs_before(chunks, c2),
        0 <= store_msgs_before(chunks, c2),
    decreases c2 - c1 + if c2 > 0 {
        c2
    } else {
        0
    },
{
    if c2 > 0 && c1 == c2 {
        lemma_store_msgs_before_bounds(chunks, c1 - 1, c2 - 1);
        crate::chunk::lemma_msgs_before_bounds(chunks[c2 - 1].cols(), 0, chunks[c2 - 1].cols().len() as int);
    }
    if c1 < c2 {
        lemma_store_msgs_before_bounds(chunks, c1, c2 - 1);
        lemma_store_msgs_before_bounds(chunks, c2 - 1, c2 - 1);
        crate::chunk::lemma_msgs_before_bounds(chunks[c2 - 1].cols(), 0, chunks[c2 - 1].cols().len() as int);
    }
}

/// Whether a chunk's signature covers a group's.
pub open spec fn chunk_matches(ch: Chunk, sig: crate::signature::GeneratedComponentBitField) -> bool {
    ch.sig().spec_superset_of(sig)
}

/// The live `(entity, chunk, slot)` triples of one chunk, in slot order.
pub open spec fn chunk_locs(ch: Chunk, c: int) -> Seq<(EntityId, usize, usize)> {
    Seq::new(ch.ids().len(), |s: int| (ch.ids()[s], c as usize, s as usize))
}

/// The live triples of every matching chunk before `c`, chunk by chunk.
pub open spec fn iterate_upto(
    chunks: Seq<Chunk>,
    sig: crate::signature::GeneratedComponentBitField,
    c: int,
) -> Seq<(EntityId, usize, usize)>
    decreases c,
{
    if c <= 0 {
        Seq::empty()
    } else {
        iterate_upto(chunks, sig, c - 1) + if chunk_matches(chunks[c - 1], sig) {
            chunk_locs(chunks[c - 1], c - 1)
        } else {
            Seq::empty()
        }
    }
}

/// What iteration over a store yields for a group signature: every live slot
/// of every chunk whose signature covers the group's, in chunk then slot
/// order.
pub open spec fn iterate_spec(
    chunks: Seq<Chunk>,
    sig: crate::signature::GeneratedComponentBitField,
) -> Seq<(EntityId, usize, usize)> {
    iterate_upto(chunks, sig, chunks.len() as int)
}

/// The triples of one matching chunk whose component `cid` changed after
/// `since`, over the first `s` slots.
pub open spec fn modified_slots_upto(
    ch: Chunk,
    c: int,
    cid: ComponentId,
    since: WorldTime,
    s: int,
) -> Seq<(EntityId, usize, usize)>
    decreases s,
{
    if s <= 0 {
        Seq::empty()
    } else {
        modified_slots_upto(ch, c, cid, since, s - 1) + if ch.col_for(cid).entries()[s
            - 1].last_updated.stamp() > since.stamp() {
            seq![(ch.ids()[s - 1], c as usize, (s - 1) as usize)]
        } else {
            Seq::empty()
        }
    }
}

/// What modified-only iteration yields: for every matching chunk, the slots
/// whose component `cid` changed after `since`.
pub open spec fn iterate_modified_upto(
    chunks: Seq<Chunk>,
    sig: crate::signature::GeneratedComponentBitField,
    cid: ComponentId,
    since: WorldTime,
    c: int,
) -> Seq<(EntityId, usize, usize)>
    decreases c,
{
    if c <= 0 {
        Seq::empty()
    } else {
        iterate_modified_upto(chunks, sig, cid, since, c - 1) + if chunk_matches(
            chunks[c - 1],
            sig,
        ) {
            modified_slots_upto(chunks[c - 1], c - 1, cid, since, chunks[c - 1].ids().len() as int)
        } else {
            Seq::empty()
        }
    }
}

/// Every triple the iteration prefix yields names a live slot of a matching
/// chunk and carries that slot's entity id.
pub proof fn lemma_iterate_upto_elements(
    chunks: Seq<Chunk>,
    sig: crate::signature::GeneratedComponentBitField,
    c: int,
)
    requires
        c <= chunks.len(),
        chunks.len() <= usize::MAX,
        forall|i: int| 0 <= i < chunks.len() ==> (#[trigger] chunks[i]).ids().len() <= usize::MAX,
    ensures
        forall|k: int|
            0 <= k < iterate_upto(chunks, sig, c).len() ==> {
                let t = #[trigger] iterate_upto(chunks, sig, c)[k];
                &&& 0 <= t.1 < c
                &&& chunk_matches(chunks[t.1 as int], sig)
                &&& 0 <= t.2 < chunks[t.1 as int].ids().len()
                &&& t.0 == chunks[t.1 as int].ids()[t.2 as int]
            },
    decreases
            if c > 0 {
                c
            } else {
                0
            },
{
    if c > 0 {
        lemma_iterate_upto_elements(chunks, sig, c - 1);
        assert forall|k: int| 0 <= k < iterate_upto(chunks, sig, c).len() implies {
            let t = #[trigger] iterate_upto(chunks, sig, c)[k];
            &&& 0 <= t.1 < c
            &&& chunk_matches(chunks[t.1 as int], sig)
            &&& 0 <= t.2 < chunks[t.1 as int].ids().len()
            &&& t.0 == chunks[t.1 as int].ids()[t.2 as int]
        } by {
            let prefix = iterate_upto(chunks, sig, c - 1);
            if k >= prefix.len() {
                assert(chunk_matches(chunks[c - 1], sig));
                assert(iterate_upto(chunks, sig, c)[k] == chunk_locs(chunks[c - 1], c - 1)[k
                    - prefix.len()]);
            }
        }
    }
}

/// The iteration prefix covers every live slot of every matching chunk it
/// has passed.
pub proof fn lemma_iterate_upto_complete(
    chunks: Seq<Chunk>,
    sig: crate::signature::GeneratedComponentBitField,
    c: int,
    c0: int,
    s0: int,
)
    requires
        0 <= c0 < c <= chunks.len(),
        chunks.len() <= usize::MAX,
        0 <= s0 < chunks[c0].ids().len(),
        chunks[c0].ids().len() <= usize::MAX,
        chunk_matches(chunks[c0], sig),
    ensures
        exists|k: int|
            0 <= k < iterate_upto(chunks, sig, c).len() && #[trigger] iterate_upto(
                chunks,
                sig,
                c,
            )[k] == (chunks[c0].ids()[s0], (c0 as usize), (s0 as usize)),
    decreases c,
{
    let prefix = iterate_upto(chunks, sig, c - 1);
    if c0 == c - 1 {
        let k = prefix.len() + s0;
        assert(iterate_upto(chunks, sig, c)[k as int] == chunk_locs(chunks[c0], c0)[s0]);
    } else {
        lemma_iterate_upto_complete(chunks, sig, c - 1, c0, s0);
        let k = choose|k: int|
            0 <= k < prefix.len() && #[trigger] prefix[k] == (
                chunks[c0].ids()[s0],
                (c0 as usize),
                (s0 as usize),
            );
        assert(iterate_upto(chunks, sig, c)[k] == prefix[k]);
    }
}

/// The concatenation of per-chunk groups, in group order.
pub open spec fn groups_flatten(groups: Seq<Vec<(EntityId, usize, usize)>>) -> Seq<
    (EntityId, usize, usize),
>
    decreases groups.len(),
{
    if groups.len() == 0 {
        Seq::empty()
    } else {
        groups_flatten(groups.drop_last()) + groups.last()@
    }
}


/// How replication transforms a store: every column of every chunk comes out
/// replicated-clean with values, authority, and timestamps kept, and only
/// dirty state and staged events gone.
pub open spec fn replicated_relation(pre: EntityCollection, post: EntityCollection) -> bool {
    &&& post.locs() == pre.locs()
    &&& post.chunks().len() == pre.chunks().len()
    &&& forall|c: int|
        0 <= c < pre.chunks().len() ==> {
            let ch = #[trigger] post.chunks()[c];
            let o = pre.chunks()[c];
            &&& ch.sig() == o.sig()
            &&& ch.ids() == o.ids()
            &&& ch.has_events() == o.has_events()
            &&& !ch.dirty()
            &&& ch.cols().len() == o.cols().len()
            &&& (forall|cc: int|
                0 <= cc < o.cols().len() ==> {
                    let col = #[trigger] ch.cols()[cc];
                    let oc = o.cols()[cc];
                    &&& col.cid() == oc.cid()
                    &&& col.auth() == oc.auth()
                    &&& col.has_events() == oc.has_events()
                    &&& col.replicated_clean()
                    &&& col.entries().len() == oc.entries().len()
                    &&& (forall|i: int|
                        0 <= i < oc.entries().len() ==> {
                            let e = #[trigger] col.entries()[i];
                            let oe = oc.entries()[i];
                            e.last_updated == oe.last_updated && e.data.fields() == cleaned_fields(
                                oe.data.fields(),
                            ) && e.data.events().len() == oe.data.events().len()
                        })
                    &&& (forall|i: int, k: int|
                        0 <= i < oc.entries().len() && 0 <= k < oc.entries()[
                            i
                        ].data.events().len() ==> (#[trigger] col.entries()[i].data.events()[
                            k
                        ]).received() == oc.entries()[i].data.events()[k].received())
                })
        }
}

/// What replication appends to the outbox: chunk by chunk, column by column,
/// one update message per dirty slot, ascending, carrying exactly that
/// slot's dirty fields and staged events.
pub open spec fn replicate_msgs_appended(
    pre: EntityCollection,
    out0: Seq<OutgoingMessage>,
    out1: Seq<OutgoingMessage>,
) -> bool {
    &&& out1.len() == out0.len() + store_msgs_before(pre.chunks(), pre.chunks().len() as int)
    &&& (forall|k: int| 0 <= k < out0.len() ==> out1[k] == out0[k])
    &&& (forall|c: int, cc: int, k: int|
        0 <= c < pre.chunks().len() && 0 <= cc < pre.chunks()[c].cols().len() && 0 <= k
            < dirty_slots(pre.chunks()[c].cols()[cc].entries()).len() ==> {
            let s = dirty_slots(pre.chunks()[c].cols()[cc].entries())[k];
            is_update_msg(
                #[trigger] out1[out0.len() + store_msgs_before(pre.chunks(), c) + msgs_before(
                    pre.chunks()[c].cols(),
                    cc,
                ) + k],
                pre.chunks()[c].ids()[s],
                pre.chunks()[c].cols()[cc].cid(),
                extracted_fields(pre.chunks()[c].cols()[cc].entries()[s].data.fields()),
                staged_events_of(pre.chunks()[c].cols()[cc].entries()[s].data.events()),
            )
        })
}

/// How transient cleanup transforms a store: every received event buffer
/// comes out empty, with everything else kept.
pub open spec fn cleaned_relation(pre: EntityCollection, post: EntityCollection) -> bool {
    &&& post.locs() == pre.locs()
    &&& post.chunks().len() == pre.chunks().len()
    &&& forall|c: int|
        0 <= c < pre.chunks().len() ==> {
            let ch = #[trigger] post.chunks()[c];
            let o = pre.chunks()[c];
            &&& ch.sig() == o.sig()
            &&& ch.ids() == o.ids()
            &&& ch.dirty() == o.dirty()
            &&& !ch.has_events()
            &&& ch.cols().len() == o.cols().len()
            &&& (forall|cc: int|
                0 <= cc < o.cols().len() ==> {
                    let col = #[trigger] ch.cols()[cc];
                    let oc = o.cols()[cc];
                    &&& col.cid() == oc.cid()
                    &&& col.auth() == oc.auth()
                    &&& col.dirty() == oc.dirty()
                    &&& col.entries().len() == oc.entries().len()
                    &&& (forall|i: int|
                        0 <= i < oc.entries().len() ==> {
                            let e = #[trigger] col.entries()[i];
                            let oe = oc.entries()[i];
                            e.last_updated == oe.last_updated && e.data.fields() == oe.data.fields()
                                && e.data.dirty() == oe.data.dirty() && e.data.events().len()
                                == oe.data.events().len() && e.data.no_received_events()
                        })
                    &&& (forall|i: int, k: int|
                        0 <= i < oc.entries().len() && 0 <= k < oc.entries()[
                            i
                        ].data.events().len() ==> (#[trigger] col.entries()[i].data.events()[
                            k
                        ]).staged() == oc.entries()[i].data.events()[k].staged())
                })
        }
}

/// The chunks and the entity-id to `(chunk, slot)` map.
pub struct EntityCollection {
    chunks: Vec<Chunk>,
    locations: Vec<(EntityId, (usize, usize))>,
}

impl EntityCollection {
    /// The chunks, in creation order; chunks are never freed.
    pub closed spec fn chunks(self) -> Seq<Chunk> {
        self.chunks@
    }

    /// The entity-id to location map, as a list with unique keys.
    pub closed spec fn locs(self) -> Seq<(EntityId, (usize, usize))> {
        self.locations@
    }

    /// Whether the store holds the entity.
    pub open spec fn has_entity(self, eid: EntityId) -> bool {
        exists|i: int| 0 <= i < self.locs().len() && self.locs()[i].0 == eid
    }

    /// The position of the entity's map entry.
    pub open spec fn loc_index(self, eid: EntityId) -> int {
        choose|i: int| 0 <= i < self.locs().len() && self.locs()[i].0 == eid
    }

    /// The chunk holding the entity.
    pub open spec fn chunk_of(self, eid: EntityId) -> int {
        self.locs()[self.loc_index(eid)].1.0 as int
    }

    /// The entity's slot within its chunk.
    pub open spec fn slot_of(self, eid: EntityId) -> int {
        self.locs()[self.loc_index(eid)].1.1 as int
    }

    /// The set of live entities.
    pub open spec fn live_set(self) -> Set<EntityId> {
        Set::new(|eid: EntityId| self.has_entity(eid))
    }

    /// The chunk holding the entity.
    pub open spec fn entity_chunk(self, eid: EntityId) -> Chunk {
        self.chunks()[self.chunk_of(eid)]
    }

    /// The component ids on the entity, read through the schema.
    pub open spec fn entity_sig_ids(self, schema: Schema, eid: EntityId) -> Set<ComponentId> {
        schema.signature_ids(self.entity_chunk(eid).sig())
    }

    /// Whether the entity carries the component.
    pub open spec fn entity_has_component(self, eid: EntityId, cid: ComponentId) -> bool {
        self.entity_chunk(eid).has_col(cid)
    }

    /// The entity's record for one of its components.
    pub open spec fn entity_entry(self, eid: EntityId, cid: ComponentId) -> ComponentDataEntry {
        self.entity_chunk(eid).col_for(cid).entries()[self.slot_of(eid)]
    }

    /// Whether the worker holds authority over one of the entity's
    /// components.
    pub open spec fn entity_auth(self, eid: EntityId, cid: ComponentId) -> bool {
        self.entity_chunk(eid).col_for(cid).auth()[self.slot_of(eid)]
    }

    /// The location map holds an entry sending the live slot `(c, s)`'s id
    /// back to `(c, s)`.
    pub open spec fn slot_mapped(self, c: int, s: int) -> bool {
        exists|i: int|
            0 <= i < self.locs().len() && (#[trigger] self.locs()[i]) == (
                self.chunks()[c].ids()[s],
                (c as usize, s as usize),
            )
    }

    /// The store's invariant: well-formed chunks, a location map with unique
    /// keys whose entries point at live slots carrying the mapped id, and —
    /// conversely — every live slot of every chunk mapped back to itself.
    pub open spec fn wf(self, schema: Schema) -> bool {
        &&& forall|c: int| 0 <= c < self.chunks().len() ==> (#[trigger] self.chunks()[c]).wf(schema)
        &&& forall|i: int, j: int|
            0 <= i < j < self.locs().len() ==> (#[trigger] self.locs()[i]).0 != (
            #[trigger] self.locs()[j]).0
        &&& forall|i: int|
            0 <= i < self.locs().len() ==> {
                let l = #[trigger] self.locs()[i];
                &&& (l.1.0 as int) < self.chunks().len()
                &&& (l.1.1 as int) < self.chunks()[l.1.0 as int].ids().len()
                &&& self.chunks()[l.1.0 as int].ids()[l.1.1 as int] == l.0
            }
        &&& forall|c: int, s: int|
            0 <= c < self.chunks().len() && 0 <= s < self.chunks()[c].ids().len()
                ==> #[trigger] self.slot_mapped(c, s)
    }

    /// While map keys repeat nowhere, the entry stored at position `i` is
    /// the one the lookup functions return for its key.
    pub proof fn lemma_loc_at(self, i: int)
        requires
            forall|p: int, q: int|
                0 <= p < q < self.locs().len() ==> (#[trigger] self.locs()[p]).0 != (
                #[trigger] self.locs()[q]).0,
            0 <= i < self.locs().len(),
        ensures
            self.has_entity(self.locs()[i].0),
            self.loc_index(self.locs()[i].0) == i,
            self.chunk_of(self.locs()[i].0) == self.locs()[i].1.0 as int,
            self.slot_of(self.locs()[i].0) == self.locs()[i].1.1 as int,
    {
        let eid = self.locs()[i].0;
        assert(self.has_entity(eid));
        let j = self.loc_index(eid);
        assert(0 <= j < self.locs().len() && self.locs()[j].0 == eid);
        if i != j {
            assert(self.locs()[i].0 != self.locs()[j].0 || self.locs()[j].0 != self.locs()[i].0);
        }
    }

    /// An empty store.
    pub fn new() -> (r: EntityCollection)
        ensures
            r.chunks().len() == 0,
            r.locs().len() == 0,
            r.live_set() == Set::<EntityId>::empty(),
            forall|schema: Schema| r.wf(schema),
    {
        let r = EntityCollection { chunks: Vec::new(), locations: Vec::new() };
        proof {
            assert(r.live_set() =~= Set::<EntityId>::empty());
        }
        r
    }

    /// The location map entry of an entity, if it is live.
    fn find_location(&self, eid: EntityId) -> (r: Option<(usize, usize)>)
        requires
            forall|p: int, q: int|
                0 <= p < q < self.locs().len() ==> (#[trigger] self.locs()[p]).0 != (
                #[trigger] self.locs()[q]).0,
        ensures
            match r {
                Some(l) => self.has_entity(eid) && l.0 as int == self.chunk_of(eid) && l.1 as int
                    == self.slot_of(eid),
                None => !self.has_entity(eid),
            },
    {
        let n = self.locations.len();
        let mut i: usize = 0;
        while i < n
            invariant
                i <= n,
                n == self.locs().len(),
                forall|p: int, q: int|
                    0 <= p < q < n ==> (#[trigger] self.locs()[p]).0 != (
                    #[trigger] self.locs()[q]).0,
                forall|j: int| 0 <= j < i ==> (#[trigger] self.locs()[j]).0 != eid,
            decreases n - i,
        {
            if self.locations[i].0 == eid {
                proof {
                    self.lemma_loc_at(i as int);
                }
                return Some(self.locations[i].1);
            }
            i = i + 1;
        }
        None
    }

    /// The entity's `(chunk, slot)` location, or `None` when the store does
    /// not hold it.
    pub fn get_location(&self, eid: EntityId) -> (r: Option<(usize, usize)>)
        requires
            forall|p: int, q: int|
                0 <= p < q < self.locs().len() ==> (#[trigger] self.locs()[p]).0 != (
                #[trigger] self.locs()[q]).0,
        ensures
            match r {
                Some(l) => self.has_entity(eid) && l.0 as int == self.chunk_of(eid) && l.1 as int
                    == self.slot_of(eid),
                None => !self.has_entity(eid),
            },
    {
        self.find_location(eid)
    }

    /// The number of chunks.
    pub fn num_chunks(&self) -> (r: usize)
        ensures
            r == self.chunks().len(),
    {
        self.chunks.len()
    }

    /// Admits a promoted partial entity into the store: it joins a chunk of its signature
    /// with a free slot — created on demand — and the map records where.
    /// Every already-live entity keeps its components, data, authority, and
    /// timestamps.
    pub fn admit_entity(&mut self, schema: &Schema, entity: PartialEntity, now: WorldTime) -> (r: (
        usize,
        usize,
    ))
        requires
            old(self).wf(*schema),
            schema.wf(),
            entity.wf(*schema),
            !old(self).has_entity(entity.entity_id),
        ensures
            final(self).wf(*schema),
            final(self).live_set() == old(self).live_set().insert(entity.entity_id),
            final(self).has_entity(entity.entity_id),
            forall|e: EntityId| #[trigger] old(self).has_entity(e) ==> final(self).has_entity(e),
            forall|e: EntityId|
                #[trigger] final(self).has_entity(e) ==> e == entity.entity_id || old(self).has_entity(e),
            forall|e: EntityId|
                #[trigger] old(self).has_entity(e) ==> {
                    &&& final(self).entity_sig_ids(*schema, e) == old(self).entity_sig_ids(
                        *schema,
                        e,
                    )
                    &&& (forall|cid: ComponentId|
                        #[trigger] final(self).entity_has_component(e, cid) == old(self).entity_has_component(e, cid) && (old(self).entity_has_component(e, cid)
                            ==> final(self).entity_entry(e, cid) == old(self).entity_entry(e, cid)
                            && final(self).entity_auth(e, cid) == old(self).entity_auth(e, cid)))
                },
            final(self).entity_sig_ids(*schema, entity.entity_id) == entity.data_key_set(),
            forall|cid: ComponentId|
                #[trigger] final(self).entity_has_component(entity.entity_id, cid)
                    == entity.data_key_set().contains(cid),
            forall|cid: ComponentId|
                entity.data_key_set().contains(cid) ==> {
                    let e = #[trigger] final(self).entity_entry(entity.entity_id, cid);
                    &&& e.data == entity.data_for(cid)
                    &&& e.last_updated == now
                    &&& final(self).entity_auth(entity.entity_id, cid) == entity.auth_for(
                        cid,
                    ).spec_permits_writes()
                },
            r.0 as int == final(self).chunk_of(entity.entity_id),
            r.1 as int == final(self).slot_of(entity.entity_id),
    {
        let ghost pre = *self;
        let eid = entity.entity_id;
        let nchunks = self.chunks.len();
        let mut target: Option<usize> = None;
        let mut c: usize = 0;
        while c < nchunks
            invariant
                pre.wf(*schema),
                *self == pre,
                entity.wf(*schema),
                nchunks == self.chunks().len(),
                c <= nchunks,
                match target {
                    Some(t) => t < nchunks && self.chunks()[t as int].sig().words()
                        == entity.bit_field.words() && self.chunks()[t as int].ids().len()
                        < MAX_ENTITIES_PER_CHUNK,
                    None => true,
                },
            decreases nchunks - c,
        {
            if target.is_none() {
                let matches = self.chunks[c].signature().equals(&entity.bit_field);
                if matches && self.chunks[c].has_space() {
                    target = Some(c);
                }
            }
            c = c + 1;
        }
        let chunk_index = match target {
            Some(t) => t,
            None => {
                let fresh = Chunk::new(schema, &entity);
                let t = self.chunks.len();
                self.chunks.push(fresh);
                t
            },
        };
        proof {
            let ch = self.chunks()[chunk_index as int];
            assert(ch.wf(*schema));
            assert(schema.signature_ids(ch.sig()) =~= entity.data_key_set()) by {
                if ch.sig().words() == entity.bit_field.words() {
                    assert forall|cid: ComponentId|
                        schema.signature_ids(ch.sig()).contains(cid) == schema.signature_ids(
                            entity.bit_field,
                        ).contains(cid) by {
                        if schema.has_component(cid) {
                            let k = schema.index_of(cid);
                            assert(ch.sig().has_bit(k) == entity.bit_field.has_bit(k));
                        }
                    }
                }
            }
            assert(entity.data_key_set() =~= ch.col_id_set());
        }
        let ghost mid = *self;
        let ghost e0 = entity;
        let column_chunk = &mut self.chunks[chunk_index];
        let slot = column_chunk.add_entity(schema, entity, now);
        self.locations.push((eid, (chunk_index, slot)));
        proof {
            let c = chunk_index as int;
            let s = slot as int;
            let nloc = self.locs().len() as int;
            assert(self.locs()[nloc - 1] == (eid, (chunk_index, slot)));
            assert(forall|j: int| 0 <= j < nloc - 1 ==> self.locs()[j] == pre.locs()[j]);
            // keys stay distinct: the new id was not live
            assert forall|p: int, q: int| 0 <= p < q < nloc implies (
            #[trigger] self.locs()[p]).0 != (#[trigger] self.locs()[q]).0 by {
                if q < nloc - 1 {
                    assert(pre.locs()[p].0 != pre.locs()[q].0);
                } else {
                    assert(pre.locs()[p].0 != eid);
                }
            }
            self.lemma_loc_at(nloc - 1);
            // chunks other than the target are untouched
            assert(forall|c2: int|
                0 <= c2 < self.chunks().len() && c2 != c ==> #[trigger] self.chunks()[c2]
                    == mid.chunks()[c2]);
            assert(forall|c2: int|
                0 <= c2 < pre.chunks().len() && c2 != c ==> #[trigger] self.chunks()[c2]
                    == pre.chunks()[c2]);
            // the target chunk before the add
            let och = mid.chunks()[c];
            let nch = self.chunks()[c];
            assert(nch.ids() == och.ids().push(eid));
            assert(s == och.ids().len());
            // location map: old entries still point correctly
            assert forall|i: int| 0 <= i < nloc - 1 implies {
                let l = #[trigger] self.locs()[i];
                (l.1.0 as int) < self.chunks().len() && (l.1.1 as int) < self.chunks()[
                    l.1.0 as int
                ].ids().len() && self.chunks()[l.1.0 as int].ids()[l.1.1 as int] == l.0
            } by {
                let l = pre.locs()[i];
                if l.1.0 as int == c {
                    assert(nch.ids()[l.1.1 as int] == och.ids()[l.1.1 as int]);
                }
            }
            // converse: every live slot is mapped
            assert forall|c2: int, s2: int|
                0 <= c2 < self.chunks().len() && 0 <= s2 < self.chunks()[c2].ids().len() implies
                #[trigger] self.slot_mapped(c2, s2) by {
                if c2 == c && s2 == s {
                    assert(self.locs()[nloc - 1] == (
                        self.chunks()[c2].ids()[s2],
                        (c2 as usize, s2 as usize),
                    ));
                } else if c2 < pre.chunks().len() {
                    assert(0 <= s2 < pre.chunks()[c2].ids().len()) by {
                        if c2 == c {
                            assert(self.chunks()[c].ids() == pre.chunks()[c].ids().push(eid));
                            assert(s2 != s);
                        }
                    }
                    assert(self.chunks()[c2].ids()[s2] == pre.chunks()[c2].ids()[s2]);
                    assert(pre.slot_mapped(c2, s2));
                    let i = choose|i: int|
                        0 <= i < pre.locs().len() && (#[trigger] pre.locs()[i]) == (
                        pre.chunks()[c2].ids()[s2],
                        (c2 as usize, s2 as usize),
                    );
                    assert(self.locs()[i] == (
                        self.chunks()[c2].ids()[s2],
                        (c2 as usize, s2 as usize),
                    ));
                    assert(self.slot_mapped(c2, s2));
                } else {
                    // a freshly created chunk had no slots before the add
                    assert(c2 == c && s2 == s);
                }
            }
            // the live set grows by exactly the new id
            assert forall|e: EntityId| #[trigger] pre.has_entity(e) implies self.has_entity(e) by {
                let i = choose|i: int| 0 <= i < pre.locs().len() && pre.locs()[i].0 == e;
                assert(self.locs()[i].0 == e);
            }
            assert forall|e: EntityId| #[trigger] self.has_entity(e) implies e == eid
                || pre.has_entity(e) by {
                let i = choose|i: int| 0 <= i < self.locs().len() && self.locs()[i].0 == e;
                if i < nloc - 1 {
                    assert(pre.locs()[i].0 == e);
                }
            }
            assert(self.live_set() =~= pre.live_set().insert(eid));
            // already-live entities keep their model
            assert forall|e: EntityId| #[trigger] pre.has_entity(e) implies {
                &&& self.entity_sig_ids(*schema, e) == pre.entity_sig_ids(*schema, e)
                &&& (forall|cid: ComponentId|
                    #[trigger] self.entity_has_component(e, cid) == pre.entity_has_component(
                        e,
                        cid,
                    ) && (pre.entity_has_component(e, cid) ==> self.entity_entry(e, cid)
                        == pre.entity_entry(e, cid) && self.entity_auth(e, cid) == pre.entity_auth(
                        e,
                        cid,
                    )))
            } by {
                let i = choose|i: int| 0 <= i < pre.locs().len() && pre.locs()[i].0 == e;
                pre.lemma_loc_at(i);
                self.lemma_loc_at(i);
                assert(self.locs()[i] == pre.locs()[i]);
                let c2 = pre.chunk_of(e);
                let s2 = pre.slot_of(e);
                assert(s2 < pre.chunks()[c2].ids().len());
                if c2 != c {
                    assert(self.chunks()[c2] == pre.chunks()[c2]);
                } else {
                    let och2 = pre.chunks()[c];
                    let nch2 = self.chunks()[c];
                    assert(schema.signature_ids(nch2.sig()) =~= schema.signature_ids(
                        och2.sig(),
                    )) by {
                        assert(nch2.sig() == och2.sig());
                    }
                    assert forall|cid: ComponentId| #[trigger] nch2.has_col(cid) == och2.has_col(
                        cid,
                    ) by {
                        if nch2.has_col(cid) {
                            let cc = choose|cc: int|
                                0 <= cc < nch2.cols().len() && nch2.cols()[cc].cid() == cid;
                            assert(och2.cols()[cc].cid() == cid);
                        }
                        if och2.has_col(cid) {
                            let cc = choose|cc: int|
                                0 <= cc < och2.cols().len() && och2.cols()[cc].cid() == cid;
                            assert(nch2.cols()[cc].cid() == cid);
                        }
                    }
                    assert forall|cid: ComponentId| och2.has_col(cid) implies nch2.col_for(
                        cid,
                    ).entries()[s2] == och2.col_for(cid).entries()[s2] && nch2.col_for(cid).auth()[
                        s2
                    ] == och2.col_for(cid).auth()[s2] by {
                        let cc = och2.col_index(cid);
                        och2.lemma_col_at(cc);
                        assert(nch2.cols()[cc].cid() == cid);
                        nch2.lemma_col_at(cc);
                        assert(nch2.cols()[cc].entries() == och2.cols()[cc].entries().push(
                            (ComponentDataEntry { data: e0.data_for(cid), last_updated: now }),
                        ));
                    }
                }
            }
            // the new entity's model
            self.lemma_loc_at(nloc - 1);
            assert(self.chunk_of(eid) == c && self.slot_of(eid) == s);
            assert(self.entity_sig_ids(*schema, eid) =~= e0.data_key_set());
            assert forall|cid: ComponentId| #[trigger] self.entity_has_component(eid, cid)
                == e0.data_key_set().contains(cid) by {
                assert(self.chunks()[c].has_col(cid) == mid.chunks()[c].has_col(cid)) by {
                    if self.chunks()[c].has_col(cid) {
                        let cc = choose|cc: int|
                            0 <= cc < self.chunks()[c].cols().len() && self.chunks()[c].cols()[
                                cc
                            ].cid() == cid;
                        assert(mid.chunks()[c].cols()[cc].cid() == cid);
                    }
                    if mid.chunks()[c].has_col(cid) {
                        let cc = choose|cc: int|
                            0 <= cc < mid.chunks()[c].cols().len() && mid.chunks()[c].cols()[
                                cc
                            ].cid() == cid;
                        assert(self.chunks()[c].cols()[cc].cid() == cid);
                    }
                }
                assert(mid.chunks()[c].col_id_set().contains(cid) == mid.chunks()[c].has_col(cid));
            }
            assert forall|cid: ComponentId| e0.data_key_set().contains(cid) implies {
                let e = #[trigger] self.entity_entry(eid, cid);
                e.data == e0.data_for(cid) && e.last_updated == now && self.entity_auth(eid, cid)
                    == e0.auth_for(cid).spec_permits_writes()
            } by {
                let och2 = mid.chunks()[c];
                let nch2 = self.chunks()[c];
                assert(och2.has_col(cid));
                let cc = och2.col_index(cid);
                och2.lemma_col_at(cc);
                assert(nch2.cols()[cc].cid() == cid);
                nch2.lemma_col_at(cc);
                assert(nch2.cols()[cc].entries() == och2.cols()[cc].entries().push(
                    (ComponentDataEntry { data: e0.data_for(cid), last_updated: now }),
                ));
                assert(och2.cols()[cc].entries().len() == s);
            }
        }
        (chunk_index, slot)
    }

    /// Two distinct live slots of one chunk hold distinct entity ids.
    pub proof fn lemma_chunk_ids_unique(self, schema: Schema, c: int, s1: int, s2: int)
        requires
            self.wf(schema),
            0 <= c < self.chunks().len(),
            0 <= s1 < self.chunks()[c].ids().len(),
            0 <= s2 < self.chunks()[c].ids().len(),
            s1 != s2,
        ensures
            self.chunks()[c].ids()[s1] != self.chunks()[c].ids()[s2],
    {
        assert(self.slot_mapped(c, s1));
        assert(self.slot_mapped(c, s2));
        let i1 = choose|i: int|
            0 <= i < self.locs().len() && (#[trigger] self.locs()[i]) == (
                self.chunks()[c].ids()[s1],
                (c as usize, s1 as usize),
            );
        let i2 = choose|i: int|
            0 <= i < self.locs().len() && (#[trigger] self.locs()[i]) == (
                self.chunks()[c].ids()[s2],
                (c as usize, s2 as usize),
            );
        if self.chunks()[c].ids()[s1] == self.chunks()[c].ids()[s2] {
            assert(i1 != i2);
            assert(self.locs()[i1].0 != self.locs()[i2].0 || self.locs()[i2].0 != self.locs()[
                i1
            ].0);
        }
    }

    /// One entity id names at most one live slot across all chunks.
    pub proof fn lemma_slot_id_unique(self, schema: Schema, c1: int, s1: int, c2: int, s2: int)
        requires
            self.wf(schema),
            0 <= c1 < self.chunks().len(),
            0 <= s1 < self.chunks()[c1].ids().len(),
            0 <= c2 < self.chunks().len(),
            0 <= s2 < self.chunks()[c2].ids().len(),
            self.chunks()[c1].ids()[s1] == self.chunks()[c2].ids()[s2],
        ensures
            c1 == c2 && s1 == s2,
    {
        vstd::std_specs::vec::axiom_spec_len(&self.chunks);
        assert(self.slot_mapped(c1, s1));
        assert(self.slot_mapped(c2, s2));
        let k1 = choose|k: int|
            0 <= k < self.locs().len() && (#[trigger] self.locs()[k]) == (
                self.chunks()[c1].ids()[s1],
                (c1 as usize, s1 as usize),
            );
        let k2 = choose|k: int|
            0 <= k < self.locs().len() && (#[trigger] self.locs()[k]) == (
                self.chunks()[c2].ids()[s2],
                (c2 as usize, s2 as usize),
            );
        if k1 != k2 {
            assert(self.locs()[k1].0 != self.locs()[k2].0 || self.locs()[k2].0 != self.locs()[
                k1
            ].0);
        }
        assert((c1 as usize, s1 as usize) == (c2 as usize, s2 as usize));
        assert(self.chunks()[c1].wf(schema) && self.chunks()[c2].wf(schema));
        assert(s1 <= MAX_ENTITIES_PER_CHUNK && s2 <= MAX_ENTITIES_PER_CHUNK);
    }

    /// The position of the entity's map entry, if it is live.
    fn find_loc_index(&self, eid: EntityId) -> (r: Option<usize>)
        ensures
            match r {
                Some(i) => i < self.locs().len() && self.locs()[i as int].0 == eid,
                None => !self.has_entity(eid),
            },
    {
        let n = self.locations.len();
        let mut i: usize = 0;
        while i < n
            invariant
                i <= n,
                n == self.locs().len(),
                forall|j: int| 0 <= j < i ==> (#[trigger] self.locs()[j]).0 != eid,
            decreases n - i,
        {
            if self.locations[i].0 == eid {
                return Some(i);
            }
            i = i + 1;
        }
        None
    }

    /// Every entity other than `eid` that `pre` holds is still held by
    /// `post` with the same signature, components, data, authority, and
    /// timestamps.
    pub open spec fn model_preserved_except(
        pre: EntityCollection,
        post: EntityCollection,
        schema: Schema,
        eid: EntityId,
    ) -> bool {
        forall|e: EntityId|
            e != eid && #[trigger] pre.has_entity(e) ==> {
                &&& post.has_entity(e)
                &&& post.entity_sig_ids(schema, e) == pre.entity_sig_ids(schema, e)
                &&& (forall|cid: ComponentId|
                    #[trigger] post.entity_has_component(e, cid) == pre.entity_has_component(
                        e,
                        cid,
                    ) && (pre.entity_has_component(e, cid) ==> post.entity_entry(e, cid)
                        == pre.entity_entry(e, cid) && post.entity_auth(e, cid) == pre.entity_auth(
                        e,
                        cid,
                    )))
            }
    }

    /// Evicts an entity: its chunk swaps the last live slot into its place,
    /// the map entry of the swapped entity is rewritten in the same step,
    /// and the evicted id leaves the map.  Every remaining entity keeps its
    /// components, data, authority, and timestamps; an unknown id changes
    /// nothing.
    pub fn evict(&mut self, schema: &Schema, eid: EntityId) -> (r: bool)
        requires
            old(self).wf(*schema),
        ensures
            final(self).wf(*schema),
            r == old(self).has_entity(eid),
            !r ==> *final(self) == *old(self),
            final(self).chunks().len() == old(self).chunks().len(),
            final(self).live_set() == if r {
                old(self).live_set().remove(eid)
            } else {
                old(self).live_set()
            },
            EntityCollection::model_preserved_except(*old(self), *final(self), *schema, eid),
            forall|e: EntityId|
                #[trigger] final(self).has_entity(e) ==> e != eid && old(self).has_entity(e),
    {
        match self.detach_entity(schema, eid) {
            Some(_) => true,
            None => false,
        }
    }

    /// Detaches an entity exactly as `evict` does, and hands back what its
    /// slot held — one `(component, record, authority)` triple per column of
    /// its chunk, in column order — so the entity can be re-admitted under
    /// another signature.
    #[verifier::rlimit(100)]
    #[verifier::spinoff_prover]
    fn detach_entity(&mut self, schema: &Schema, eid: EntityId) -> (r: Option<
        Vec<(ComponentId, ComponentDataEntry, bool)>,
    >)
        requires
            old(self).wf(*schema),
        ensures
            final(self).wf(*schema),
            r is Some == old(self).has_entity(eid),
            r is None ==> *final(self) == *old(self),
            final(self).chunks().len() == old(self).chunks().len(),
            final(self).live_set() == if r is Some {
                old(self).live_set().remove(eid)
            } else {
                old(self).live_set()
            },
            EntityCollection::model_preserved_except(*old(self), *final(self), *schema, eid),
            forall|e: EntityId|
                #[trigger] final(self).has_entity(e) ==> e != eid && old(self).has_entity(e),
            r is Some ==> {
                let ch = old(self).entity_chunk(eid);
                let s = old(self).slot_of(eid);
                &&& r->0@.len() == ch.cols().len()
                &&& (forall|c: int|
                    0 <= c < ch.cols().len() ==> #[trigger] r->0@[c] == (
                        ch.cols()[c].cid(),
                        ch.cols()[c].entries()[s],
                        ch.cols()[c].auth()[s],
                    ))
            },
    {
        let ghost pre = *self;
        let i = match self.find_loc_index(eid) {
            Some(i) => i,
            None => {
                proof {
                    assert(self.live_set() =~= pre.live_set());
                }
                return None;
            },
        };
        proof {
            pre.lemma_loc_at(i as int);
        }
        let (c, s) = self.locations[i].1;
        let last = self.chunks[c].num_entities() - 1;
        let moved_id = self.chunks[c].get_entity_id(last);
        proof {
            if s != last {
                pre.lemma_chunk_ids_unique(*schema, c as int, s as int, last as int);
                assert(moved_id != eid);
            } else {
                assert(moved_id == eid);
            }
        }
        let chunk = &mut self.chunks[c];
        let records = chunk.extract_entity(schema, s);
        let _ = self.locations.swap_remove(i);
        let ghost mid2 = *self;
        let ghost npre = pre.locs().len() as int;
        // where each surviving entry came from
        let ghost from = |k: int| if k == i as int { npre - 1 } else { k };
        proof {
            assert(mid2.locs().len() == npre - 1);
            assert(forall|k: int| 0 <= k < npre - 1 ==> mid2.locs()[k] == pre.locs()[from(k)]);
        }
        let mut j: usize = 0;
        let mut have_j = s == last;
        if s != last {
            match self.find_loc_index(moved_id) {
                Some(found) => {
                    j = found;
                    have_j = true;
                    self.locations[j].1 = (c, s);
                },
                None => {
                    proof {
                        // the moved entity's entry survives the removal of
                        // the evicted one
                        assert(pre.slot_mapped(c as int, last as int));
                        let jm = choose|jm: int|
                            0 <= jm < npre && (#[trigger] pre.locs()[jm]) == (
                                pre.chunks()[c as int].ids()[last as int],
                                (c, last),
                            );
                        assert(pre.locs()[jm].0 == moved_id);
                        assert(jm != i as int);
                        if jm == npre - 1 {
                            assert(mid2.locs()[i as int].0 == moved_id);
                        } else {
                            assert(mid2.locs()[jm].0 == moved_id);
                        }
                        assert(false);
                    }
                },
            }
        }
        proof {
            let ci = c as int;
            let si = s as int;
            let li = last as int;
            let ji = j as int;
            let och = pre.chunks()[ci];
            let nch = self.chunks()[ci];
            assert(nch.ids() == och.ids().update(si, och.ids().last()).drop_last());
            assert(nch.ids().len() == li);
            // the final map, entry by entry
            assert(self.locs().len() == npre - 1);
            assert forall|k: int| 0 <= k < npre - 1 implies #[trigger] self.locs()[k] == if (s
                != last && k == ji) {
                (moved_id, (c, s))
            } else {
                pre.locs()[from(k)]
            } by {
                if s != last && k == ji {
                } else {
                    assert(self.locs()[k] == mid2.locs()[k]);
                }
            }
            // the rewritten entry, when there is one, was the moved
            // entity's, which pointed at the last slot
            if s != last {
                assert(mid2.locs()[ji].0 == moved_id);
                assert(pre.locs()[from(ji)].0 == moved_id);
                pre.lemma_loc_at(from(ji));
                assert(pre.slot_mapped(ci, li));
                let jm = choose|jm: int|
                    0 <= jm < npre && (#[trigger] pre.locs()[jm]) == (
                        pre.chunks()[ci].ids()[li],
                        (c, last),
                    );
                assert(pre.locs()[jm].0 == moved_id);
                pre.lemma_loc_at(jm);
                assert(jm == from(ji)) by {
                    if jm != from(ji) {
                        assert(pre.locs()[jm].0 != pre.locs()[from(ji)].0 || pre.locs()[from(
                            ji,
                        )].0 != pre.locs()[jm].0);
                    }
                }
                assert(pre.locs()[from(ji)].1 == (c, last));
            }
            // every other surviving entry avoids the removed and moved slots
            assert forall|k: int|
                0 <= k < npre - 1 && !(s != last && k == ji) implies {
                let pl = #[trigger] self.locs()[k];
                pl.0 != eid && (pl.1.0 as int == ci ==> pl.1.1 as int != si && pl.1.1 as int != li)
            } by {
                let fk = from(k);
                let pl = pre.locs()[fk];
                assert(self.locs()[k] == pl);
                pre.lemma_loc_at(fk);
                if pl.0 == eid {
                    assert(pre.loc_index(eid) == i as int);
                    assert(fk == i as int);
                    assert(k == i as int ==> fk == npre - 1);
                    assert(i as int == npre - 1 ==> k != i as int);
                    assert(false);
                }
                if pl.1.0 as int == ci {
                    if pl.1.1 as int == si {
                        assert(pl.0 == pre.chunks()[ci].ids()[si]);
                        assert(pl.0 == eid);
                        assert(false);
                    }
                    if pl.1.1 as int == li {
                        assert(pl.0 == pre.chunks()[ci].ids()[li]);
                        assert(pl.0 == moved_id);
                        if s != last {
                            // only the moved entity's entry points there
                            assert(pre.locs()[from(ji)].0 == moved_id);
                            assert(fk == from(ji)) by {
                                if fk != from(ji) {
                                    assert(pre.locs()[fk].0 != pre.locs()[from(ji)].0
                                        || pre.locs()[from(ji)].0 != pre.locs()[fk].0);
                                }
                            }
                            assert(k == ji) by {
                                if k != ji {
                                    assert(from(k) != from(ji));
                                }
                            }
                            assert(false);
                        } else {
                            assert(pl.0 == eid);
                            assert(false);
                        }
                    }
                }
            }
            // keys distinct
            assert forall|p: int, q: int| 0 <= p < q < self.locs().len() implies (
            #[trigger] self.locs()[p]).0 != (#[trigger] self.locs()[q]).0 by {
                assert(self.locs()[p].0 == pre.locs()[from(p)].0);
                assert(self.locs()[q].0 == pre.locs()[from(q)].0);
                assert(from(p) != from(q));
                let a = from(p);
                let b = from(q);
                if a < b {
                    assert(pre.locs()[a].0 != pre.locs()[b].0);
                } else {
                    assert(pre.locs()[b].0 != pre.locs()[a].0);
                }
            }
            // forward direction of the map invariant
            assert forall|k: int| 0 <= k < self.locs().len() implies {
                let l = #[trigger] self.locs()[k];
                (l.1.0 as int) < self.chunks().len() && (l.1.1 as int) < self.chunks()[
                    l.1.0 as int
                ].ids().len() && self.chunks()[l.1.0 as int].ids()[l.1.1 as int] == l.0
            } by {
                if s != last && k == ji {
                    assert(self.locs()[k] == (moved_id, (c, s)));
                    assert(nch.ids()[si] == och.ids()[li]);
                } else {
                    let pl = pre.locs()[from(k)];
                    assert(self.locs()[k] == pl);
                    if pl.1.0 as int == ci {
                        assert(pl.1.1 as int != si && pl.1.1 as int != li);
                        assert(nch.ids()[pl.1.1 as int] == och.ids()[pl.1.1 as int]);
                    } else {
                        assert(self.chunks()[pl.1.0 as int] == pre.chunks()[pl.1.0 as int]);
                    }
                }
            }
            // converse direction
            assert forall|c2: int, s2: int|
                0 <= c2 < self.chunks().len() && 0 <= s2 < self.chunks()[c2].ids().len() implies
                #[trigger] self.slot_mapped(c2, s2) by {
                if c2 == ci && s2 == si && s != last {
                    assert(self.locs()[ji] == (moved_id, (c, s)));
                    assert(nch.ids()[si] == och.ids()[li] == moved_id);
                    assert(self.locs()[ji] == (self.chunks()[c2].ids()[s2], (c2 as usize, s2 as usize)));
                } else {
                    // the slot kept its id; its old entry survives
                    assert(s2 < pre.chunks()[c2].ids().len()) by {
                        if c2 == ci {
                            assert(self.chunks()[ci].ids().len() == och.ids().len() - 1);
                        } else {
                            assert(self.chunks()[c2] == pre.chunks()[c2]);
                        }
                    }
                    assert(self.chunks()[c2].ids()[s2] == pre.chunks()[c2].ids()[s2]) by {
                        if c2 == ci {
                            assert(s2 != li);
                            assert(s2 != si || s == last);
                        }
                    }
                    assert(pre.slot_mapped(c2, s2));
                    let kp = choose|kp: int|
                        0 <= kp < npre && (#[trigger] pre.locs()[kp]) == (
                            pre.chunks()[c2].ids()[s2],
                            (c2 as usize, s2 as usize),
                        );
                    pre.lemma_loc_at(kp);
                    assert(kp != i as int) by {
                        if kp == i as int {
                            assert(pre.locs()[kp].0 == eid);
                            assert(pre.chunks()[c2].ids()[s2] == eid);
                            assert(pre.chunks()[ci].ids()[si] == eid);
                            pre.lemma_slot_id_unique(*schema, c2, s2, ci, si);
                            assert(c2 == ci && s2 == si);
                            assert(s == last);
                            assert(s2 != li);
                            assert(false);
                        }
                    }
                    let nk: int = if kp == npre - 1 {
                        i as int
                    } else {
                        kp
                    };
                    assert(from(nk) == kp) by {
                        if kp == npre - 1 {
                            assert(i as int != npre - 1 || kp == i as int);
                            if i as int == npre - 1 {
                                assert(false);
                            }
                        }
                    }
                    assert(nk < self.locs().len()) by {
                        if nk == npre - 1 {
                            assert(kp == npre - 1 && i as int == npre - 1);
                            assert(false);
                        }
                    }
                    assert(!(s != last && nk == ji)) by {
                        if s != last && nk == ji {
                            assert(kp == from(ji));
                            assert(pre.locs()[kp].0 == moved_id);
                            assert(pre.chunks()[c2].ids()[s2] == moved_id);
                            assert(pre.chunks()[ci].ids()[li] == moved_id);
                            pre.lemma_slot_id_unique(*schema, c2, s2, ci, li);
                            assert(c2 == ci && s2 == li);
                            assert(false);
                        }
                    }
                    assert(self.locs()[nk] == pre.locs()[kp]);
                    assert(self.locs()[nk] == (self.chunks()[c2].ids()[s2], (c2 as usize, s2 as usize)));
                }
            }
            // the live set shrinks by exactly the evicted id
            assert forall|e: EntityId| #[trigger] self.has_entity(e) implies e != eid
                && pre.has_entity(e) by {
                let k = choose|k: int| 0 <= k < self.locs().len() && self.locs()[k].0 == e;
                if s != last && k == ji {
                    assert(e == moved_id);
                    assert(pre.locs()[from(ji)].0 == e);
                } else {
                    assert(pre.locs()[from(k)].0 == e);
                }
            }
            assert forall|e: EntityId|
                e != eid && #[trigger] pre.has_entity(e) implies self.has_entity(e) by {
                let kp = pre.loc_index(e);
                pre.lemma_loc_at(kp);
                assert(kp != i as int);
                let nk: int = if kp == npre - 1 {
                    i as int
                } else {
                    kp
                };
                assert(from(nk) == kp) by {
                    if kp == npre - 1 && i as int == npre - 1 {
                        assert(false);
                    }
                }
                assert(nk < self.locs().len()) by {
                    if nk == npre - 1 {
                        assert(i as int == npre - 1);
                        assert(false);
                    }
                }
                assert(self.locs()[nk].0 == e);
            }
            assert(self.live_set() =~= pre.live_set().remove(eid));
            // remaining entities keep their model
            assert forall|e: EntityId|
                e != eid && #[trigger] pre.has_entity(e) implies {
                &&& self.has_entity(e)
                &&& self.entity_sig_ids(*schema, e) == pre.entity_sig_ids(*schema, e)
                &&& (forall|cid: ComponentId|
                    #[trigger] self.entity_has_component(e, cid) == pre.entity_has_component(
                        e,
                        cid,
                    ) && (pre.entity_has_component(e, cid) ==> self.entity_entry(e, cid)
                        == pre.entity_entry(e, cid) && self.entity_auth(e, cid) == pre.entity_auth(
                        e,
                        cid,
                    )))
            } by {
                let kp = pre.loc_index(e);
                pre.lemma_loc_at(kp);
                assert(kp != i as int);
                let nk: int = if kp == npre - 1 {
                    i as int
                } else {
                    kp
                };
                assert(from(nk) == kp && nk < self.locs().len()) by {
                    if kp == npre - 1 && i as int == npre - 1 {
                        assert(false);
                    }
                    if nk == npre - 1 {
                        assert(i as int == npre - 1);
                        assert(false);
                    }
                }
                let moved_here = s != last && nk == ji;
                assert(self.locs()[nk].0 == e);
                self.lemma_loc_at(nk);
                let c2 = self.chunk_of(e);
                let s2 = self.slot_of(e);
                let pc = pre.chunk_of(e);
                let ps = pre.slot_of(e);
                assert(pc == pre.locs()[kp].1.0 as int && ps == pre.locs()[kp].1.1 as int);
                if moved_here {
                    assert(e == moved_id);
                    assert(pc == ci && ps == li);
                    assert(c2 == ci && s2 == si);
                } else {
                    assert(self.locs()[nk] == pre.locs()[kp]);
                    assert(c2 == pc && s2 == ps);
                }
                let och2 = pre.chunks()[pc];
                let nch2 = self.chunks()[c2];
                assert(c2 == pc);
                if pc != ci {
                    assert(nch2 == och2);
                    assert(self.entity_sig_ids(*schema, e) == pre.entity_sig_ids(*schema, e));
                } else {
                    assert(nch2.sig() == och2.sig());
                    assert forall|cid: ComponentId| #[trigger] nch2.has_col(cid) == och2.has_col(
                        cid,
                    ) by {
                        if nch2.has_col(cid) {
                            let cc = choose|cc: int|
                                0 <= cc < nch2.cols().len() && nch2.cols()[cc].cid() == cid;
                            assert(och2.cols()[cc].cid() == cid);
                        }
                        if och2.has_col(cid) {
                            let cc = choose|cc: int|
                                0 <= cc < och2.cols().len() && och2.cols()[cc].cid() == cid;
                            assert(nch2.cols()[cc].cid() == cid);
                        }
                    }
                    assert forall|cid: ComponentId| och2.has_col(cid) implies nch2.col_for(
                        cid,
                    ).entries()[s2] == och2.col_for(cid).entries()[ps] && nch2.col_for(cid).auth()[
                        s2
                    ] == och2.col_for(cid).auth()[ps] by {
                        let cc = och2.col_index(cid);
                        och2.lemma_col_at(cc);
                        assert(nch2.cols()[cc].cid() == cid);
                        nch2.lemma_col_at(cc);
                        let ne = nch2.cols()[cc].entries();
                        let oe = och2.cols()[cc].entries();
                        assert(ne == oe.update(si, oe.last()).drop_last());
                        if moved_here {
                            assert(ne[s2] == oe[li]);
                        } else {
                            assert(s2 != si || s == last);
                            assert(s2 != li);
                            assert(ne[s2] == oe[s2]);
                        }
                        let na = nch2.cols()[cc].auth();
                        let oa = och2.cols()[cc].auth();
                        assert(na == oa.update(si, oa.last()).drop_last());
                        if moved_here {
                            assert(na[s2] == oa[li]);
                        } else {
                            assert(na[s2] == oa[s2]);
                        }
                    }
                }
            }
            assert(EntityCollection::model_preserved_except(pre, *self, *schema, eid));
        }
        Some(records)
    }

    /// Iterating over the distinct live entities: within one store, the
    /// triples of the iteration prefix carry pairwise distinct entity ids.
    pub proof fn lemma_iterate_upto_distinct(
        self,
        schema: Schema,
        sig: GeneratedComponentBitField,
        c: int,
    )
        requires
            self.wf(schema),
            c <= self.chunks().len(),
        ensures
            forall|k1: int, k2: int|
                0 <= k1 < k2 < iterate_upto(self.chunks(), sig, c).len() ==> (
                #[trigger] iterate_upto(self.chunks(), sig, c)[k1]).0 != (#[trigger] iterate_upto(
                    self.chunks(),
                    sig,
                    c,
                )[k2]).0,
        decreases
                if c > 0 {
                    c
                } else {
                    0
                },
    {
        if c > 0 {
            vstd::std_specs::vec::axiom_spec_len(&self.chunks);
            assert forall|i: int| 0 <= i < self.chunks().len() implies (
            #[trigger] self.chunks()[i]).ids().len() <= usize::MAX by {
                assert(self.chunks()[i].wf(schema));
            }
            self.lemma_iterate_upto_distinct(schema, sig, c - 1);
            lemma_iterate_upto_elements(self.chunks(), sig, c - 1);
            lemma_iterate_upto_elements(self.chunks(), sig, c);
            let prefix = iterate_upto(self.chunks(), sig, c - 1);
            let whole = iterate_upto(self.chunks(), sig, c);
            assert forall|k1: int, k2: int| 0 <= k1 < k2 < whole.len() implies (
            #[trigger] whole[k1]).0 != (#[trigger] whole[k2]).0 by {
                let t1 = whole[k1];
                let t2 = whole[k2];
                if k2 < prefix.len() {
                    assert(whole[k1] == prefix[k1] && whole[k2] == prefix[k2]);
                } else {
                    assert(chunk_matches(self.chunks()[c - 1], sig));
                    assert(t2 == chunk_locs(self.chunks()[c - 1], c - 1)[k2 - prefix.len()]);
                    if k1 < prefix.len() {
                        assert(whole[k1] == prefix[k1]);
                        if t1.0 == t2.0 {
                            self.lemma_slot_id_unique(
                                schema,
                                t1.1 as int,
                                t1.2 as int,
                                c - 1,
                                k2 - prefix.len(),
                            );
                        }
                    } else {
                        assert(t1 == chunk_locs(self.chunks()[c - 1], c - 1)[k1 - prefix.len()]);
                        if t1.0 == t2.0 {
                            self.lemma_chunk_ids_unique(
                                schema,
                                c - 1,
                                k1 - prefix.len(),
                                k2 - prefix.len(),
                            );
                        }
                    }
                }
            }
        }
    }

    /// What iteration yields, exactly: each live entity at most once, each
    /// yielded triple naming the entity's own chunk and slot, and every live
    /// entity whose chunk signature covers the group's yielded somewhere.
    pub proof fn lemma_iterate_exact(self, schema: Schema, sig: GeneratedComponentBitField)
        requires
            self.wf(schema),
        ensures
            forall|k1: int, k2: int|
                0 <= k1 < k2 < iterate_spec(self.chunks(), sig).len() ==> (#[trigger] iterate_spec(
                    self.chunks(),
                    sig,
                )[k1]).0 != (#[trigger] iterate_spec(self.chunks(), sig)[k2]).0,
            forall|k: int|
                0 <= k < iterate_spec(self.chunks(), sig).len() ==> {
                    let t = #[trigger] iterate_spec(self.chunks(), sig)[k];
                    &&& self.has_entity(t.0)
                    &&& self.chunk_of(t.0) == t.1
                    &&& self.slot_of(t.0) == t.2
                    &&& chunk_matches(self.entity_chunk(t.0), sig)
                },
            forall|eid: EntityId|
                #[trigger] self.has_entity(eid) && chunk_matches(self.entity_chunk(eid), sig)
                    ==> exists|k: int|
                    0 <= k < iterate_spec(self.chunks(), sig).len() && (#[trigger] iterate_spec(
                        self.chunks(),
                        sig,
                    )[k]).0 == eid,
    {
        let n = self.chunks().len() as int;
        vstd::std_specs::vec::axiom_spec_len(&self.chunks);
        assert forall|i: int| 0 <= i < self.chunks().len() implies (
        #[trigger] self.chunks()[i]).ids().len() <= usize::MAX by {
            assert(self.chunks()[i].wf(schema));
        }
        self.lemma_iterate_upto_distinct(schema, sig, n);
        lemma_iterate_upto_elements(self.chunks(), sig, n);
        assert forall|k: int| 0 <= k < iterate_spec(self.chunks(), sig).len() implies {
            let t = #[trigger] iterate_spec(self.chunks(), sig)[k];
            &&& self.has_entity(t.0)
            &&& self.chunk_of(t.0) == t.1
            &&& self.slot_of(t.0) == t.2
            &&& chunk_matches(self.entity_chunk(t.0), sig)
        } by {
            let t = iterate_spec(self.chunks(), sig)[k];
            assert(self.slot_mapped(t.1 as int, t.2 as int));
            let i = choose|i: int|
                0 <= i < self.locs().len() && (#[trigger] self.locs()[i]) == (
                    self.chunks()[t.1 as int].ids()[t.2 as int],
                    (t.1, t.2),
                );
            self.lemma_loc_at(i);
        }
        assert forall|eid: EntityId|
            #[trigger] self.has_entity(eid) && chunk_matches(self.entity_chunk(eid), sig) implies
            exists|k: int|
                0 <= k < iterate_spec(self.chunks(), sig).len() && (#[trigger] iterate_spec(
                    self.chunks(),
                    sig,
                )[k]).0 == eid by {
            let i = self.loc_index(eid);
            self.lemma_loc_at(i);
            let c0 = self.chunk_of(eid);
            let s0 = self.slot_of(eid);
            lemma_iterate_upto_complete(self.chunks(), sig, n, c0, s0);
            let k = choose|k: int|
                0 <= k < iterate_upto(self.chunks(), sig, n).len() && #[trigger] iterate_upto(
                    self.chunks(),
                    sig,
                    n,
                )[k] == (self.chunks()[c0].ids()[s0], (c0 as usize), (s0 as usize));
            assert((iterate_spec(self.chunks(), sig)[k]).0 == eid);
        }
    }

    /// Preservation of every entity but one composes across two steps, the
    /// second of which preserves everything it holds.
    proof fn lemma_preservation_chain(
        pre: EntityCollection,
        mid: EntityCollection,
        post: EntityCollection,
        schema: Schema,
        eid: EntityId,
    )
        requires
            EntityCollection::model_preserved_except(pre, mid, schema, eid),
            forall|e: EntityId|
                #[trigger] mid.has_entity(e) ==> {
                    &&& post.has_entity(e)
                    &&& post.entity_sig_ids(schema, e) == mid.entity_sig_ids(schema, e)
                    &&& (forall|c2: ComponentId|
                        #[trigger] post.entity_has_component(e, c2) == mid.entity_has_component(
                            e,
                            c2,
                        ) && (mid.entity_has_component(e, c2) ==> post.entity_entry(e, c2)
                            == mid.entity_entry(e, c2) && post.entity_auth(e, c2)
                            == mid.entity_auth(e, c2)))
                },
        ensures
            EntityCollection::model_preserved_except(pre, post, schema, eid),
    {
        assert forall|e: EntityId|
            e != eid && #[trigger] pre.has_entity(e) implies post.has_entity(e)
            && post.entity_sig_ids(schema, e) == pre.entity_sig_ids(schema, e) by {
            assert(mid.has_entity(e));
        }
        assert forall|e: EntityId, c2: ComponentId|
            e != eid && #[trigger] pre.has_entity(e) implies #[trigger] post.entity_has_component(
            e,
            c2,
        ) == pre.entity_has_component(e, c2) && (pre.entity_has_component(e, c2)
            ==> post.entity_entry(e, c2) == pre.entity_entry(e, c2) && post.entity_auth(e, c2)
            == pre.entity_auth(e, c2)) by {
            assert(mid.has_entity(e));
            assert(mid.entity_has_component(e, c2) == pre.entity_has_component(e, c2));
            assert(post.entity_has_component(e, c2) == mid.entity_has_component(e, c2));
            if pre.entity_has_component(e, c2) {
                assert(mid.entity_entry(e, c2) == pre.entity_entry(e, c2));
                assert(post.entity_entry(e, c2) == mid.entity_entry(e, c2));
                assert(mid.entity_auth(e, c2) == pre.entity_auth(e, c2));
                assert(post.entity_auth(e, c2) == mid.entity_auth(e, c2));
            }
        }
    }

    /// The authority value a stored authority bit stands for.
    pub open spec fn auth_of_bit(b: bool) -> crate::worker::Authority {
        if b {
            crate::worker::Authority::Authoritative
        } else {
            crate::worker::Authority::NotAuthoritative
        }
    }

    /// Splits extracted records into the data and authority lists of an
    /// accumulator, dropping the records of one component.  The ghost result
    /// maps each kept pair back to its record, in order.
    fn split_records(
        records: Vec<(ComponentId, ComponentDataEntry, bool)>,
        cid: ComponentId,
    ) -> (r: (
        Vec<(ComponentId, crate::data::ComponentData)>,
        Vec<(ComponentId, crate::worker::Authority)>,
        Ghost<Seq<int>>,
    ))
        ensures
            r.0@.len() == r.2@.len(),
            r.1@.len() == r.2@.len(),
            forall|k: int|
                0 <= k < r.2@.len() ==> {
                    let c2 = #[trigger] r.2@[k];
                    &&& 0 <= c2 < records@.len()
                    &&& records@[c2].0 != cid
                    &&& r.0@[k] == (records@[c2].0, records@[c2].1.data)
                    &&& r.1@[k] == (records@[c2].0, EntityCollection::auth_of_bit(records@[c2].2))
                },
            forall|k1: int, k2: int| 0 <= k1 < k2 < r.2@.len() ==> r.2@[k1] < r.2@[k2],
            forall|c2: int|
                0 <= c2 < records@.len() && (#[trigger] records@[c2]).0 != cid ==> exists|k: int|
                    0 <= k < r.2@.len() && #[trigger] r.2@[k] == c2,
    {
        let ghost r0 = records@;
        let mut records = records;
        let mut data_pairs: Vec<(ComponentId, crate::data::ComponentData)> = Vec::new();
        let mut auth_pairs: Vec<(ComponentId, crate::worker::Authority)> = Vec::new();
        let ghost mut src: Seq<int> = Seq::empty();
        let nrecs = records.len();
        let mut p: usize = 0;
        while p < nrecs
            invariant
                nrecs == r0.len(),
                nrecs == records@.len(),
                p <= nrecs,
                forall|j: int| p <= j < nrecs ==> #[trigger] records@[j] == r0[j],
                data_pairs@.len() == src.len(),
                auth_pairs@.len() == src.len(),
                forall|k: int|
                    0 <= k < src.len() ==> {
                        let c2 = #[trigger] src[k];
                        &&& 0 <= c2 < p
                        &&& r0[c2].0 != cid
                        &&& data_pairs@[k] == (r0[c2].0, r0[c2].1.data)
                        &&& auth_pairs@[k] == (r0[c2].0, EntityCollection::auth_of_bit(r0[c2].2))
                    },
                forall|k1: int, k2: int| 0 <= k1 < k2 < src.len() ==> src[k1] < src[k2],
                forall|c2: int|
                    0 <= c2 < p && (#[trigger] r0[c2]).0 != cid ==> exists|k: int|
                        0 <= k < src.len() && #[trigger] src[k] == c2,
            decreases nrecs - p,
        {
            let key = records[p].0;
            proof {
                assert(records@[p as int] == r0[p as int]);
            }
            if key != cid {
                let mut tmp: (ComponentId, ComponentDataEntry, bool) = (
                    0,
                    ComponentDataEntry {
                        data: crate::data::ComponentData::new(0, 0),
                        last_updated: WorldTime::new(),
                    },
                    false,
                );
                records.set_and_swap(p, &mut tmp);
                let (_, entry, authority) = tmp;
                let auth_value = if authority {
                    crate::worker::Authority::Authoritative
                } else {
                    crate::worker::Authority::NotAuthoritative
                };
                data_pairs.push((key, entry.data));
                auth_pairs.push((key, auth_value));
                proof {
                    let src0 = src;
                    src = src.push(p as int);
                    let nd = src.len() as int;
                    assert(src[nd - 1] == p as int);
                    assert(data_pairs@[nd - 1] == (r0[p as int].0, r0[p as int].1.data));
                    assert(auth_pairs@[nd - 1] == (
                        r0[p as int].0,
                        EntityCollection::auth_of_bit(r0[p as int].2),
                    ));
                    assert forall|c2: int|
                        0 <= c2 < p + 1 && (#[trigger] r0[c2]).0 != cid implies exists|k: int|
                        0 <= k < src.len() && #[trigger] src[k] == c2 by {
                        if c2 == p as int {
                            assert(src[nd - 1] == c2);
                        } else {
                            let k = choose|k: int| 0 <= k < src0.len() && #[trigger] src0[k] == c2;
                            assert(src[k] == c2);
                        }
                    }
                }
            } else {
                proof {
                    assert(r0[p as int].0 == cid);
                    assert forall|c2: int|
                        0 <= c2 < p + 1 && (#[trigger] r0[c2]).0 != cid implies exists|k: int|
                        0 <= k < src.len() && #[trigger] src[k] == c2 by {
                        assert(c2 != p as int);
                        let k = choose|k: int| 0 <= k < src.len() && #[trigger] src[k] == c2;
                        assert(src[k] == c2);
                    }
                }
            }
            p = p + 1;
        }
        (data_pairs, auth_pairs, Ghost(src))
    }

    /// Removes one component from a live entity: the entity migrates to a
    /// chunk whose signature lacks the component's bit, keeping every other
    /// component's data — dirty state and buffered events included — and its
    /// authority, with the moved rows stamped `now`.  Removals of unknown
    /// entities or of components the entity does not carry change nothing.
    #[verifier::rlimit(50)]
    pub fn remove_component(
        &mut self,
        schema: &Schema,
        eid: EntityId,
        cid: ComponentId,
        now: WorldTime,
    ) -> (r: bool)
        requires
            old(self).wf(*schema),
            schema.wf(),
        ensures
            final(self).wf(*schema),
            r == (old(self).has_entity(eid) && old(self).entity_has_component(eid, cid)),
            !r ==> final(self).chunks() == old(self).chunks() && final(self).locs() == old(self).locs(),
            final(self).live_set() == old(self).live_set(),
            EntityCollection::model_preserved_except(*old(self), *final(self), *schema, eid),
            forall|e: EntityId| #[trigger] final(self).has_entity(e) == old(self).has_entity(e),
            r ==> {
                &&& final(self).entity_sig_ids(*schema, eid) == old(self).entity_sig_ids(
                    *schema,
                    eid,
                ).remove(cid)
                &&& !final(self).entity_has_component(eid, cid)
                &&& (forall|c2: ComponentId|
                    c2 != cid ==> #[trigger] final(self).entity_has_component(eid, c2) == old(self).entity_has_component(eid, c2))
                &&& (forall|c2: ComponentId|
                    c2 != cid && old(self).entity_has_component(eid, c2) ==> final(self).entity_entry(eid, c2).data == old(self).entity_entry(eid, c2).data && final(self).entity_entry(eid, c2).last_updated == now && final(self).entity_auth(
                        eid,
                        c2,
                    ) == old(self).entity_auth(eid, c2))
            },
    {
        let ghost pre = *self;
        let (c, s) = match self.find_location(eid) {
            Some(l) => l,
            None => {
                proof {
                    assert(self.live_set() =~= pre.live_set());
                }
                return false;
            },
        };
        if self.chunks[c].find_column(cid).is_none() {
            proof {
                assert(self.live_set() =~= pre.live_set());
            }
            return false;
        }
        // the signature the entity migrates to
        let mut new_sig = self.chunks[c].signature().duplicate();
        let bit = match schema.get_unique_index(cid) {
            Some(bit) => bit,
            None => {
                proof {
                    let ch0 = pre.entity_chunk(eid);
                    let cc = ch0.col_index(cid);
                    assert(schema.has_component(ch0.cols()[cc].cid()));
                    assert(false);
                }
                0
            },
        };
        proof {
            schema.lemma_index_in_capacity(bit as int);
        }
        new_sig.clear_bit(bit);
        let records = match self.detach_entity(schema, eid) {
            Some(records) => records,
            None => {
                proof {
                    assert(false);
                }
                Vec::new()
            },
        };
        let ghost mid = *self;
        let ghost r0 = records@;
        let ghost ch = pre.entity_chunk(eid);
        let ghost si = pre.slot_of(eid);
        proof {
            assert(pre.chunk_of(eid) == c as int && si == s as int) by {
                pre.lemma_loc_at(pre.loc_index(eid));
            }
            assert forall|p: int, q: int| 0 <= p < q < r0.len() implies (#[trigger] r0[p]).0 != (
            #[trigger] r0[q]).0 by {
                assert(r0[p].0 == ch.cols()[p].cid() && r0[q].0 == ch.cols()[q].cid());
            }
        }
        let (partial_data, partial_auth, ghost_src) = EntityCollection::split_records(
            records,
            cid,
        );
        let ghost src = ghost_src@;
        let entity = PartialEntity {
            entity_id: eid,
            bit_field: new_sig,
            component_data: partial_data,
            write_authority: partial_auth,
        };
        proof {
            assert(r0.len() == ch.cols().len());
            assert forall|k: int| 0 <= k < src.len() implies {
                let c2 = #[trigger] src[k];
                &&& 0 <= c2 < ch.cols().len()
                &&& ch.cols()[c2].cid() != cid
                &&& entity.component_data@[k] == (
                    ch.cols()[c2].cid(),
                    ch.cols()[c2].entries()[si].data,
                )
                &&& entity.write_authority@[k] == (
                    ch.cols()[c2].cid(),
                    EntityCollection::auth_of_bit(ch.cols()[c2].auth()[si]),
                )
            } by {
                let c2 = src[k];
                assert(r0[c2] == (ch.cols()[c2].cid(), ch.cols()[c2].entries()[si], ch.cols()[
                    c2
                ].auth()[si]));
            }
            assert(entity.bit_field.words().len() == ch.sig().words().len());
            assert(!entity.bit_field.has_bit(bit as int));
            assert forall|i: int| i != bit as int implies #[trigger] entity.bit_field.has_bit(i)
                == ch.sig().has_bit(i) by {
                assert(ch.sig() == pre.chunks()[c as int].sig());
            }
            assert(pre.has_entity(eid));
            assert(entity.entity_id == eid);
            assert(bit as int == schema.index_of(cid));
            assert(schema.has_component(cid));
            assert(entity.component_data@.len() == src.len());
            assert(entity.write_authority@.len() == src.len());
            assert(forall|k1: int, k2: int| 0 <= k1 < k2 < src.len() ==> src[k1] < src[k2]);
            assert forall|c2: int|
                0 <= c2 < ch.cols().len() && (#[trigger] ch.cols()[c2]).cid() != cid implies
                exists|k: int| 0 <= k < src.len() && #[trigger] src[k] == c2 by {
                assert(r0[c2].0 == ch.cols()[c2].cid());
            }
            assert(ch.has_col(cid)) by {
                assert(pre.chunks()[c as int].has_col(cid));
            }
            EntityCollection::lemma_rebuilt_partial(pre, entity, *schema, eid, cid, src, bit as int);
            assert(!mid.has_entity(eid));
        }
        let _ = self.admit_entity(schema, entity, now);
        proof {
            // every other entity is untouched through both halves
            assert forall|e: EntityId| #[trigger] self.has_entity(e) == pre.has_entity(e) by {
                if e == eid {
                    assert(self.has_entity(eid));
                } else {
                    if pre.has_entity(e) {
                        assert(mid.has_entity(e));
                    }
                    if self.has_entity(e) {
                        assert(e == eid || mid.has_entity(e));
                    }
                }
            }
            assert(self.live_set() =~= pre.live_set());
            EntityCollection::lemma_preservation_chain(pre, mid, *self, *schema, eid);
            // the moved entity's new model
            assert(self.entity_sig_ids(*schema, eid) =~= pre.entity_sig_ids(*schema, eid).remove(
                cid,
            )) by {
                assert forall|c2: ComponentId|
                    self.entity_sig_ids(*schema, eid).contains(c2) == pre.entity_sig_ids(
                        *schema,
                        eid,
                    ).remove(cid).contains(c2) by {
                    assert(self.entity_sig_ids(*schema, eid).contains(c2) == entity.has_data(c2));
                    assert(entity.has_data(c2) == (c2 != cid && ch.has_col(c2)));
                    assert(pre.entity_sig_ids(*schema, eid).contains(c2) == ch.col_id_set(
                    ).contains(c2));
                }
            }
            assert(!self.entity_has_component(eid, cid)) by {
                assert(!entity.data_key_set().contains(cid));
            }
            assert forall|c2: ComponentId|
                c2 != cid implies #[trigger] self.entity_has_component(eid, c2)
                == pre.entity_has_component(eid, c2) by {
                assert(self.entity_has_component(eid, c2) == entity.data_key_set().contains(c2));
                assert(pre.entity_has_component(eid, c2) == ch.has_col(c2));
            }
            assert forall|c2: ComponentId|
                c2 != cid && pre.entity_has_component(eid, c2) implies self.entity_entry(
                eid,
                c2,
            ).data == pre.entity_entry(eid, c2).data && self.entity_entry(eid, c2).last_updated
                == now && self.entity_auth(eid, c2) == pre.entity_auth(eid, c2) by {
                let w = ch.col_index(c2);
                ch.lemma_col_at(w);
                assert(entity.data_for(c2) == ch.cols()[w].entries()[si].data && entity.auth_for(
                    c2,
                ) == EntityCollection::auth_of_bit(ch.cols()[w].auth()[si]));
                assert(entity.data_key_set().contains(c2));
                assert(self.entity_entry(eid, c2).data == entity.data_for(c2));
                assert(self.entity_entry(eid, c2).last_updated == now);
                assert(self.entity_auth(eid, c2) == entity.auth_for(c2).spec_permits_writes());
                assert(pre.entity_entry(eid, c2) == ch.cols()[w].entries()[si]);
                assert(pre.entity_auth(eid, c2) == ch.cols()[w].auth()[si]);
                assert(EntityCollection::auth_of_bit(ch.cols()[w].auth()[si]).spec_permits_writes()
                    == ch.cols()[w].auth()[si]);
            }
        }
        true
    }

    /// The accumulator rebuilt from an entity's extracted records carries
    /// exactly the remaining components, well-formed, with each component's
    /// data and authority read back unchanged.
    #[verifier::rlimit(50)]
    proof fn lemma_rebuilt_partial(
        pre: EntityCollection,
        entity: PartialEntity,
        schema: Schema,
        eid: EntityId,
        cid: ComponentId,
        src: Seq<int>,
        bit: int,
    )
        requires
            pre.wf(schema),
            schema.wf(),
            pre.has_entity(eid),
            entity.entity_id == eid,
            ({
                let ch = pre.entity_chunk(eid);
                let si = pre.slot_of(eid);
                &&& ch.has_col(cid)
                &&& schema.has_component(cid)
                &&& bit == schema.index_of(cid)
                &&& entity.bit_field.words().len() == ch.sig().words().len()
                &&& !entity.bit_field.has_bit(bit)
                &&& (forall|i: int|
                    i != bit ==> #[trigger] entity.bit_field.has_bit(i) == ch.sig().has_bit(i))
                &&& entity.component_data@.len() == src.len()
                &&& entity.write_authority@.len() == src.len()
                &&& (forall|k: int|
                    0 <= k < src.len() ==> {
                        let c2 = #[trigger] src[k];
                        &&& 0 <= c2 < ch.cols().len()
                        &&& ch.cols()[c2].cid() != cid
                        &&& entity.component_data@[k] == (
                            ch.cols()[c2].cid(),
                            ch.cols()[c2].entries()[si].data,
                        )
                        &&& entity.write_authority@[k] == (
                            ch.cols()[c2].cid(),
                            EntityCollection::auth_of_bit(ch.cols()[c2].auth()[si]),
                        )
                    })
                &&& (forall|k1: int, k2: int| 0 <= k1 < k2 < src.len() ==> src[k1] < src[k2])
                &&& (forall|c2: int|
                    0 <= c2 < ch.cols().len() && (#[trigger] ch.cols()[c2]).cid() != cid
                        ==> exists|k: int| 0 <= k < src.len() && #[trigger] src[k] == c2)
            }),
        ensures
            entity.wf(schema),
            forall|c2: ComponentId|
                #[trigger] entity.has_data(c2) == (c2 != cid && pre.entity_chunk(eid).has_col(c2)),
            forall|c2: ComponentId|
                c2 != cid && pre.entity_chunk(eid).has_col(c2) ==> #[trigger] entity.data_for(c2)
                    == pre.entity_chunk(eid).col_for(c2).entries()[pre.slot_of(eid)].data
                    && entity.auth_for(c2) == EntityCollection::auth_of_bit(
                    pre.entity_chunk(eid).col_for(c2).auth()[pre.slot_of(eid)],
                ),
    {
        let ch = pre.entity_chunk(eid);
        let si = pre.slot_of(eid);
        assert(pre.chunk_of(eid) < pre.chunks().len()) by {
            pre.lemma_loc_at(pre.loc_index(eid));
        }
        assert(ch.wf(schema));
        assert(0 <= si < ch.ids().len()) by {
            pre.lemma_loc_at(pre.loc_index(eid));
        }
        // keys repeat nowhere
        assert forall|k1: int, k2: int|
            0 <= k1 < k2 < entity.component_data@.len() implies (
        #[trigger] entity.component_data@[k1]).0 != (#[trigger] entity.component_data@[k2]).0 by {
            assert(src[k1] < src[k2]);
            assert(ch.cols()[src[k1]].cid() != ch.cols()[src[k2]].cid());
        }
        assert forall|k1: int, k2: int|
            0 <= k1 < k2 < entity.write_authority@.len() implies (
        #[trigger] entity.write_authority@[k1]).0 != (#[trigger] entity.write_authority@[k2]).0 by {
            assert(src[k1] < src[k2]);
            assert(ch.cols()[src[k1]].cid() != ch.cols()[src[k2]].cid());
        }
        // the key set is the chunk's components minus the removed one
        assert forall|c2: ComponentId| #[trigger] entity.has_data(c2) == (c2 != cid && ch.has_col(
            c2,
        )) by {
            if entity.has_data(c2) {
                let k = choose|k: int|
                    0 <= k < entity.component_data@.len() && entity.component_data@[k].0 == c2;
                assert(ch.cols()[src[k]].cid() == c2);
                assert(ch.has_col(c2));
                assert(c2 != cid);
            }
            if c2 != cid && ch.has_col(c2) {
                let w = ch.col_index(c2);
                assert(0 <= w < ch.cols().len() && ch.cols()[w].cid() == c2);
                let k = choose|k: int| 0 <= k < src.len() && #[trigger] src[k] == w;
                assert(entity.component_data@[k].0 == c2);
                assert(entity.has_data(c2));
            }
        }
        // shape, dirty-consistency, and known components
        assert forall|k: int| 0 <= k < entity.component_data@.len() implies {
            let pair = #[trigger] entity.component_data@[k];
            &&& schema.has_component(pair.0)
            &&& schema.descriptor_of(pair.0).data_fits(pair.1)
            &&& pair.1.dirty_consistent()
        } by {
            let c2 = src[k];
            let col = ch.cols()[c2];
            assert(col.wf());
            assert(col.entries()[si].data.dirty_consistent());
            assert(col.entries()[si].data.fields().len() == schema.descriptor_of(
                col.cid(),
            ).nfields());
            assert(col.entries()[si].data.events().len() == schema.descriptor_of(
                col.cid(),
            ).nevents());
        }
        // the rebuilt signature names exactly the kept keys
        assert(schema.signature_ids(entity.bit_field) =~= entity.data_key_set()) by {
            assert forall|c2: ComponentId|
                schema.signature_ids(entity.bit_field).contains(c2) == entity.data_key_set(
                ).contains(c2) by {
                if schema.has_component(c2) {
                    let k = schema.index_of(c2);
                    if c2 == cid {
                        assert(k == bit);
                        assert(!entity.bit_field.has_bit(k));
                    } else {
                        assert(k != bit) by {
                            assert(schema.descs()[k].id() == c2);
                            assert(schema.descs()[bit].id() == cid);
                        }
                        assert(entity.bit_field.has_bit(k) == ch.sig().has_bit(k));
                        assert(schema.signature_ids(ch.sig()).contains(c2) == ch.col_id_set(
                        ).contains(c2));
                    }
                }
            }
        }
        // each kept component's record reads back unchanged
        assert forall|c2: ComponentId|
            c2 != cid && ch.has_col(c2) implies #[trigger] entity.data_for(c2) == ch.col_for(
            c2,
        ).entries()[si].data && entity.auth_for(c2) == EntityCollection::auth_of_bit(
            ch.col_for(c2).auth()[si],
        ) by {
            let w = ch.col_index(c2);
            ch.lemma_col_at(w);
            assert(0 <= w < ch.cols().len() && ch.cols()[w].cid() == c2);
            assert(exists|k: int| 0 <= k < src.len() && #[trigger] src[k] == w);
            let k = choose|k: int| 0 <= k < src.len() && #[trigger] src[k] == w;
            assert(src[k] == w);
            assert(entity.component_data@[k] == (
                ch.cols()[src[k]].cid(),
                ch.cols()[src[k]].entries()[si].data,
            ));
            assert(entity.component_data@[k] == (c2, ch.cols()[w].entries()[si].data));
            assert(entity.write_authority@[k] == (
                c2,
                EntityCollection::auth_of_bit(ch.cols()[w].auth()[si]),
            ));
            entity.lemma_data_at(k);
            entity.lemma_auth_at(k);
            assert(entity.data_for(c2) == entity.component_data@[k].1);
            assert(entity.auth_for(c2) == entity.write_authority@[k].1);
        }
    }

    /// A mutation confined to one column of one slot of one chunk leaves the
    /// model of every entity intact, except possibly the touched component
    /// of the touched entity.
    pub proof fn lemma_slot_local_update(
        pre: EntityCollection,
        post: EntityCollection,
        schema: Schema,
        ci: int,
        si: int,
        cc: int,
    )
        requires
            pre.wf(schema),
            post.locs() == pre.locs(),
            post.chunks().len() == pre.chunks().len(),
            0 <= ci < pre.chunks().len(),
            0 <= si < pre.chunks()[ci].ids().len(),
            0 <= cc < pre.chunks()[ci].cols().len(),
            forall|c2: int|
                0 <= c2 < pre.chunks().len() && c2 != ci ==> #[trigger] post.chunks()[c2]
                    == pre.chunks()[c2],
            post.chunks()[ci].sig() == pre.chunks()[ci].sig(),
            post.chunks()[ci].ids() == pre.chunks()[ci].ids(),
            post.chunks()[ci].cols().len() == pre.chunks()[ci].cols().len(),
            forall|c2: int|
                0 <= c2 < pre.chunks()[ci].cols().len() && c2 != cc ==> #[trigger] post.chunks()[
                    ci
                ].cols()[c2] == pre.chunks()[ci].cols()[c2],
            post.chunks()[ci].cols()[cc].cid() == pre.chunks()[ci].cols()[cc].cid(),
            post.chunks()[ci].cols()[cc].entries().len() == pre.chunks()[ci].cols()[
                cc
            ].entries().len(),
            forall|s2: int|
                0 <= s2 < pre.chunks()[ci].cols()[cc].entries().len() && s2 != si
                    ==> #[trigger] post.chunks()[ci].cols()[cc].entries()[s2] == pre.chunks()[
                    ci
                ].cols()[cc].entries()[s2],
            post.chunks()[ci].cols()[cc].auth().len() == pre.chunks()[ci].cols()[cc].auth().len(),
            forall|s2: int|
                0 <= s2 < pre.chunks()[ci].cols()[cc].auth().len() && s2 != si
                    ==> #[trigger] post.chunks()[ci].cols()[cc].auth()[s2] == pre.chunks()[
                    ci
                ].cols()[cc].auth()[s2],
        ensures
            post.live_set() == pre.live_set(),
            forall|e: EntityId|
                #[trigger] pre.has_entity(e) ==> post.has_entity(e) && post.chunk_of(e)
                    == pre.chunk_of(e) && post.slot_of(e) == pre.slot_of(e)
                    && post.entity_sig_ids(schema, e) == pre.entity_sig_ids(schema, e) && (forall|
                    cid: ComponentId,
                |
                    #[trigger] post.entity_has_component(e, cid) == pre.entity_has_component(
                        e,
                        cid,
                    )),
            forall|e: EntityId| #[trigger] post.has_entity(e) ==> pre.has_entity(e),
            forall|e: EntityId, cid: ComponentId|
                pre.has_entity(e) && #[trigger] pre.entity_has_component(e, cid) && !(
                pre.chunk_of(e) == ci && pre.slot_of(e) == si && cid == pre.chunks()[ci].cols()[
                    cc
                ].cid()) ==> post.entity_entry(e, cid) == pre.entity_entry(e, cid)
                    && post.entity_auth(e, cid) == pre.entity_auth(e, cid),
    {
        let och = pre.chunks()[ci];
        let nch = post.chunks()[ci];
        let tcid = och.cols()[cc].cid();
        assert(post.live_set() =~= pre.live_set());
        assert forall|cid: ComponentId| #[trigger] nch.has_col(cid) == och.has_col(cid) by {
            if nch.has_col(cid) {
                let k = choose|k: int| 0 <= k < nch.cols().len() && nch.cols()[k].cid() == cid;
                assert(och.cols()[k].cid() == cid);
            }
            if och.has_col(cid) {
                let k = choose|k: int| 0 <= k < och.cols().len() && och.cols()[k].cid() == cid;
                assert(nch.cols()[k].cid() == cid);
            }
        }
        assert forall|e: EntityId| #[trigger] pre.has_entity(e) implies post.has_entity(e)
            && post.chunk_of(e) == pre.chunk_of(e) && post.slot_of(e) == pre.slot_of(e)
            && post.entity_sig_ids(schema, e) == pre.entity_sig_ids(schema, e) && (forall|
            cid: ComponentId,
        |
            #[trigger] post.entity_has_component(e, cid) == pre.entity_has_component(e, cid)) by {
            let k = pre.loc_index(e);
            pre.lemma_loc_at(k);
            post.lemma_loc_at(k);
            let c2 = pre.chunk_of(e);
            if c2 != ci {
                assert(post.chunks()[c2] == pre.chunks()[c2]);
            } else {
                assert(post.entity_chunk(e).sig() == pre.entity_chunk(e).sig());
            }
        }
        assert forall|e: EntityId| #[trigger] post.has_entity(e) implies pre.has_entity(e) by {}
        assert forall|e: EntityId, cid: ComponentId|
            pre.has_entity(e) && #[trigger] pre.entity_has_component(e, cid) && !(pre.chunk_of(e)
                == ci && pre.slot_of(e) == si && cid == tcid) implies post.entity_entry(e, cid)
            == pre.entity_entry(e, cid) && post.entity_auth(e, cid) == pre.entity_auth(
            e,
            cid,
        ) by {
            let k = pre.loc_index(e);
            pre.lemma_loc_at(k);
            post.lemma_loc_at(k);
            let c2 = pre.chunk_of(e);
            let s2 = pre.slot_of(e);
            if c2 != ci {
                assert(post.chunks()[c2] == pre.chunks()[c2]);
            } else {
                let kk = och.col_index(cid);
                och.lemma_col_at(kk);
                assert(nch.cols()[kk].cid() == cid);
                assert forall|a: int, b: int|
                    0 <= a < b < nch.cols().len() implies (#[trigger] nch.cols()[a]).cid() != (
                    #[trigger] nch.cols()[b]).cid() by {
                    assert(och.cols()[a].cid() != och.cols()[b].cid());
                    assert(nch.cols()[a].cid() == och.cols()[a].cid());
                    assert(nch.cols()[b].cid() == och.cols()[b].cid());
                }
                nch.lemma_col_at(kk);
                if kk != cc {
                    assert(nch.cols()[kk] == och.cols()[kk]);
                } else {
                    assert(cid == tcid);
                    assert(s2 != si);
                    assert(nch.cols()[kk].entries()[s2] == och.cols()[kk].entries()[s2]);
                    assert(nch.cols()[kk].auth()[s2] == och.cols()[kk].auth()[s2]);
                }
            }
        }
    }

    /// Every entity `pre` holds is still held by `post` with the same
    /// signature, components, data, authority, and timestamps.
    pub open spec fn model_preserved(
        pre: EntityCollection,
        post: EntityCollection,
        schema: Schema,
    ) -> bool {
        forall|e: EntityId|
            #[trigger] pre.has_entity(e) ==> {
                &&& post.has_entity(e)
                &&& post.entity_sig_ids(schema, e) == pre.entity_sig_ids(schema, e)
                &&& (forall|cid: ComponentId|
                    #[trigger] post.entity_has_component(e, cid) == pre.entity_has_component(
                        e,
                        cid,
                    ) && (pre.entity_has_component(e, cid) ==> post.entity_entry(e, cid)
                        == pre.entity_entry(e, cid) && post.entity_auth(e, cid) == pre.entity_auth(
                        e,
                        cid,
                    )))
            }
    }

    /// A step that left the map and the chunks unchanged leaves the whole
    /// model unchanged.
    pub proof fn lemma_unchanged(pre: EntityCollection, post: EntityCollection, schema: Schema)
        requires
            pre.wf(schema),
            post.locs() == pre.locs(),
            post.chunks() == pre.chunks(),
        ensures
            post.wf(schema),
            post.live_set() == pre.live_set(),
            forall|e: EntityId|
                #[trigger] pre.has_entity(e) ==> post.has_entity(e) && post.chunk_of(e)
                    == pre.chunk_of(e) && post.slot_of(e) == pre.slot_of(e)
                    && post.entity_sig_ids(schema, e) == pre.entity_sig_ids(schema, e) && (forall|
                    cid: ComponentId,
                |
                    #[trigger] post.entity_has_component(e, cid) == pre.entity_has_component(
                        e,
                        cid,
                    )),
            forall|e: EntityId| #[trigger] post.has_entity(e) ==> pre.has_entity(e),
            forall|e: EntityId, cid: ComponentId|
                pre.has_entity(e) && #[trigger] pre.entity_has_component(e, cid)
                    ==> post.entity_entry(e, cid) == pre.entity_entry(e, cid) && post.entity_auth(
                    e,
                    cid,
                ) == pre.entity_auth(e, cid),
    {
        assert forall|e: EntityId| #[trigger] pre.has_entity(e) implies post.has_entity(e)
            && post.chunk_of(e) == pre.chunk_of(e) && post.slot_of(e) == pre.slot_of(e) by {
            let i = pre.loc_index(e);
            pre.lemma_loc_at(i);
            assert(post.locs()[i].0 == e);
            post.lemma_loc_at(i);
        }
        assert forall|e: EntityId| #[trigger] post.has_entity(e) implies pre.has_entity(e) by {
            let i = choose|i: int| 0 <= i < post.locs().len() && post.locs()[i].0 == e;
            assert(pre.locs()[i].0 == e);
        }
        assert(post.live_set() =~= pre.live_set());
        assert forall|i: int| 0 <= i < post.locs().len() implies {
            let l = #[trigger] post.locs()[i];
            (l.1.0 as int) < post.chunks().len() && (l.1.1 as int) < post.chunks()[
                l.1.0 as int
            ].ids().len() && post.chunks()[l.1.0 as int].ids()[l.1.1 as int] == l.0
        } by {
            assert(pre.locs()[i] == post.locs()[i]);
        }
        assert forall|c2: int, s2: int|
            0 <= c2 < post.chunks().len() && 0 <= s2 < post.chunks()[c2].ids().len() implies
            #[trigger] post.slot_mapped(c2, s2) by {
            assert(pre.slot_mapped(c2, s2));
            let k = choose|k: int|
                0 <= k < pre.locs().len() && (#[trigger] pre.locs()[k]) == (
                    pre.chunks()[c2].ids()[s2],
                    (c2 as usize, s2 as usize),
                );
            assert(post.locs()[k] == (post.chunks()[c2].ids()[s2], (c2 as usize, s2 as usize)));
        }
    }

    /// After a mutation confined to one chunk that kept the chunk's ids, the
    /// store's map invariant still holds.
    proof fn lemma_wf_after_chunk_update(pre: EntityCollection, post: EntityCollection, schema: Schema, ci: int)
        requires
            pre.wf(schema),
            post.locs() == pre.locs(),
            post.chunks().len() == pre.chunks().len(),
            0 <= ci < pre.chunks().len(),
            forall|c2: int|
                0 <= c2 < pre.chunks().len() && c2 != ci ==> #[trigger] post.chunks()[c2]
                    == pre.chunks()[c2],
            post.chunks()[ci].ids() == pre.chunks()[ci].ids(),
            post.chunks()[ci].wf(schema),
        ensures
            post.wf(schema),
    {
        assert forall|i: int| 0 <= i < post.locs().len() implies {
            let l = #[trigger] post.locs()[i];
            (l.1.0 as int) < post.chunks().len() && (l.1.1 as int) < post.chunks()[
                l.1.0 as int
            ].ids().len() && post.chunks()[l.1.0 as int].ids()[l.1.1 as int] == l.0
        } by {
            let l = pre.locs()[i];
            assert(post.chunks()[l.1.0 as int].ids() == pre.chunks()[l.1.0 as int].ids());
        }
        assert forall|c2: int, s2: int|
            0 <= c2 < post.chunks().len() && 0 <= s2 < post.chunks()[c2].ids().len() implies
            #[trigger] post.slot_mapped(c2, s2) by {
            assert(post.chunks()[c2].ids() == pre.chunks()[c2].ids());
            assert(pre.slot_mapped(c2, s2));
            let k = choose|k: int|
                0 <= k < pre.locs().len() && (#[trigger] pre.locs()[k]) == (
                    pre.chunks()[c2].ids()[s2],
                    (c2 as usize, s2 as usize),
                );
            assert(post.locs()[k] == (post.chunks()[c2].ids()[s2], (c2 as usize, s2 as usize)));
        }
    }

    /// Merges an inbound update into one component of one entity, stamping
    /// it `now`.  Updates for unknown entities, for components the entity
    /// does not carry, or of the wrong shape are dropped; the result says
    /// whether the update was applied.
    pub fn apply_component_update(
        &mut self,
        schema: &Schema,
        eid: EntityId,
        cid: ComponentId,
        update: &crate::data::ComponentUpdate,
        now: WorldTime,
    ) -> (r: bool)
        requires
            old(self).wf(*schema),
        ensures
            final(self).wf(*schema),
            final(self).locs() == old(self).locs(),
            final(self).chunks().len() == old(self).chunks().len(),
            final(self).live_set() == old(self).live_set(),
            r == (old(self).has_entity(eid) && old(self).entity_has_component(eid, cid)
                && update.ufields().len() == old(self).entity_chunk(eid).col_for(cid).nfields()
                && update.uevents().len() == old(self).entity_chunk(eid).col_for(cid).nevents()),
            !r ==> final(self).chunks() == old(self).chunks(),
            forall|e: EntityId|
                #[trigger] old(self).has_entity(e) ==> final(self).has_entity(e) && final(self).entity_sig_ids(*schema, e) == old(self).entity_sig_ids(*schema, e) && (forall|
                    cid2: ComponentId,
                |
                    #[trigger] final(self).entity_has_component(e, cid2) == old(self).entity_has_component(e, cid2)),
            forall|e: EntityId| #[trigger] final(self).has_entity(e) ==> old(self).has_entity(e),
            forall|e: EntityId, cid2: ComponentId|
                old(self).has_entity(e) && #[trigger] old(self).entity_has_component(e, cid2) && !(
                e == eid && cid2 == cid) ==> final(self).entity_entry(e, cid2) == old(self).entity_entry(e, cid2) && final(self).entity_auth(e, cid2) == old(self).entity_auth(e, cid2),
            r ==> {
                let e = final(self).entity_entry(eid, cid);
                let o = old(self).entity_entry(eid, cid);
                &&& final(self).entity_auth(eid, cid) == old(self).entity_auth(eid, cid)
                &&& e.last_updated == now
                &&& e.data.fields() == crate::data::applied_fields(
                    o.data.fields(),
                    update.ufields(),
                )
                &&& e.data.events().len() == o.data.events().len()
                &&& (forall|k: int|
                    0 <= k < o.data.events().len() ==> (#[trigger] e.data.events()[k]).received()
                        == o.data.events()[k].received() + update.uevents()[k]
                        && e.data.events()[k].staged() == o.data.events()[k].staged())
                &&& e.data.dirty() == o.data.dirty()
            },
    {
        let ghost pre = *self;
        let (c, s) = match self.find_location(eid) {
            Some(l) => l,
            None => {
                proof {
                    assert(self.live_set() =~= pre.live_set());
                }
                return false;
            },
        };
        let ghost ci = c as int;
        let ghost si = s as int;
        let chunk = &mut self.chunks[c];
        let applied = chunk.apply_component_update(schema, cid, s, update, now);
        proof {
            let och = pre.chunks()[ci];
            let nch = self.chunks()[ci];
            if !applied {
                assert(nch == och);
                assert(self.chunks() =~= pre.chunks());
                EntityCollection::lemma_unchanged(pre, *self, *schema);
            } else {
                let cc = och.col_index(cid);
                assert(och.has_col(cid));
                assert(0 <= cc < och.cols().len() && och.cols()[cc].cid() == cid);
                EntityCollection::lemma_wf_after_chunk_update(pre, *self, *schema, ci);
                EntityCollection::lemma_slot_local_update(pre, *self, *schema, ci, si, cc);
                assert(pre.chunks()[ci].cols()[cc].cid() == cid);
                pre.lemma_loc_at(pre.loc_index(eid));
                self.lemma_loc_at(pre.loc_index(eid));
                assert forall|e: EntityId, cid2: ComponentId|
                    pre.has_entity(e) && #[trigger] pre.entity_has_component(e, cid2) && !(e == eid
                        && cid2 == cid) implies self.entity_entry(e, cid2) == pre.entity_entry(
                    e,
                    cid2,
                ) && self.entity_auth(e, cid2) == pre.entity_auth(e, cid2) by {
                    if pre.chunk_of(e) == ci && pre.slot_of(e) == si {
                        assert(pre.chunks()[ci].ids()[si] == e && pre.chunks()[ci].ids()[si]
                            == eid);
                        assert(e == eid);
                        assert(cid2 != cid);
                    }
                }
                // the touched entry
                och.lemma_col_at(cc);
                let nchc = self.chunks()[ci];
                assert(nchc.cols()[cc].cid() == cid);
                assert forall|a: int, b: int|
                    0 <= a < b < nchc.cols().len() implies (#[trigger] nchc.cols()[a]).cid() != (
                    #[trigger] nchc.cols()[b]).cid() by {
                    assert(och.cols()[a].cid() != och.cols()[b].cid());
                    if a != cc {
                        assert(nchc.cols()[a] == och.cols()[a]);
                    }
                    if b != cc {
                        assert(nchc.cols()[b] == och.cols()[b]);
                    }
                }
                nchc.lemma_col_at(cc);
            }
        }
        applied
    }

    /// Applies the fabric's authority signal for one component of one
    /// entity; signals for unknown entities or components the entity does
    /// not carry are dropped.
    pub fn apply_authority(
        &mut self,
        schema: &Schema,
        eid: EntityId,
        cid: ComponentId,
        authority: crate::worker::Authority,
    ) -> (r: bool)
        requires
            old(self).wf(*schema),
        ensures
            final(self).wf(*schema),
            final(self).locs() == old(self).locs(),
            final(self).chunks().len() == old(self).chunks().len(),
            final(self).live_set() == old(self).live_set(),
            r == (old(self).has_entity(eid) && old(self).entity_has_component(eid, cid)),
            !r ==> final(self).chunks() == old(self).chunks(),
            forall|e: EntityId|
                #[trigger] old(self).has_entity(e) ==> final(self).has_entity(e) && final(self).entity_sig_ids(*schema, e) == old(self).entity_sig_ids(*schema, e) && (forall|
                    cid2: ComponentId,
                |
                    #[trigger] final(self).entity_has_component(e, cid2) == old(self).entity_has_component(e, cid2)),
            forall|e: EntityId| #[trigger] final(self).has_entity(e) ==> old(self).has_entity(e),
            forall|e: EntityId, cid2: ComponentId|
                old(self).has_entity(e) && #[trigger] old(self).entity_has_component(e, cid2) && !(
                e == eid && cid2 == cid) ==> final(self).entity_entry(e, cid2) == old(self).entity_entry(e, cid2) && final(self).entity_auth(e, cid2) == old(self).entity_auth(e, cid2),
            r ==> final(self).entity_entry(eid, cid) == old(self).entity_entry(eid, cid) && final(self).entity_auth(eid, cid) == authority.spec_permits_writes(),
    {
        let ghost pre = *self;
        let (c, s) = match self.find_location(eid) {
            Some(l) => l,
            None => {
                proof {
                    assert(self.live_set() =~= pre.live_set());
                }
                return false;
            },
        };
        let ghost ci = c as int;
        let ghost si = s as int;
        let chunk = &mut self.chunks[c];
        let applied = chunk.apply_authority(schema, cid, s, authority);
        proof {
            let och = pre.chunks()[ci];
            let nch = self.chunks()[ci];
            if !applied {
                assert(nch == och);
                assert(self.chunks() =~= pre.chunks());
                EntityCollection::lemma_unchanged(pre, *self, *schema);
            } else {
                let cc = och.col_index(cid);
                assert(och.has_col(cid));
                EntityCollection::lemma_wf_after_chunk_update(pre, *self, *schema, ci);
                EntityCollection::lemma_slot_local_update(pre, *self, *schema, ci, si, cc);
                pre.lemma_loc_at(pre.loc_index(eid));
                self.lemma_loc_at(pre.loc_index(eid));
                assert forall|e: EntityId, cid2: ComponentId|
                    pre.has_entity(e) && #[trigger] pre.entity_has_component(e, cid2) && !(e == eid
                        && cid2 == cid) implies self.entity_entry(e, cid2) == pre.entity_entry(
                    e,
                    cid2,
                ) && self.entity_auth(e, cid2) == pre.entity_auth(e, cid2) by {
                    if pre.chunk_of(e) == ci && pre.slot_of(e) == si {
                        assert(pre.chunks()[ci].ids()[si] == e && pre.chunks()[ci].ids()[si]
                            == eid);
                        assert(e == eid);
                        assert(cid2 != cid);
                    }
                }
                och.lemma_col_at(cc);
                let nchc = self.chunks()[ci];
                assert(nchc.cols()[cc].cid() == cid);
                assert forall|a: int, b: int|
                    0 <= a < b < nchc.cols().len() implies (#[trigger] nchc.cols()[a]).cid() != (
                    #[trigger] nchc.cols()[b]).cid() by {
                    assert(och.cols()[a].cid() != och.cols()[b].cid());
                    if a != cc {
                        assert(nchc.cols()[a] == och.cols()[a]);
                    }
                    if b != cc {
                        assert(nchc.cols()[b] == och.cols()[b]);
                    }
                }
                nchc.lemma_col_at(cc);
            }
        }
        applied
    }

    /// Overwrites one field of one component of one entity, under the
    /// authority gate: the write succeeds — and marks the field, the data,
    /// the column, and the chunk dirty — only when the worker holds
    /// authority over the component there.  Nothing else changes, and an
    /// unpermitted write changes nothing at all.
    pub fn set_field(
        &mut self,
        schema: &Schema,
        eid: EntityId,
        cid: ComponentId,
        field_index: usize,
        value: i64,
    ) -> (r: bool)
        requires
            old(self).wf(*schema),
        ensures
            final(self).wf(*schema),
            final(self).locs() == old(self).locs(),
            final(self).chunks().len() == old(self).chunks().len(),
            final(self).live_set() == old(self).live_set(),
            r == (old(self).has_entity(eid) && old(self).entity_has_component(eid, cid)
                && field_index < old(self).entity_chunk(eid).col_for(cid).nfields() && old(self).entity_auth(eid, cid)),
            !r ==> final(self).chunks() == old(self).chunks(),
            forall|e: EntityId|
                #[trigger] old(self).has_entity(e) ==> final(self).has_entity(e) && final(self).entity_sig_ids(*schema, e) == old(self).entity_sig_ids(*schema, e) && (forall|
                    cid2: ComponentId,
                |
                    #[trigger] final(self).entity_has_component(e, cid2) == old(self).entity_has_component(e, cid2)),
            forall|e: EntityId| #[trigger] final(self).has_entity(e) ==> old(self).has_entity(e),
            forall|e: EntityId, cid2: ComponentId|
                old(self).has_entity(e) && #[trigger] old(self).entity_has_component(e, cid2) && !(
                e == eid && cid2 == cid) ==> final(self).entity_entry(e, cid2) == old(self).entity_entry(e, cid2) && final(self).entity_auth(e, cid2) == old(self).entity_auth(e, cid2),
            r ==> {
                let e = final(self).entity_entry(eid, cid);
                let o = old(self).entity_entry(eid, cid);
                &&& final(self).entity_auth(eid, cid) == old(self).entity_auth(eid, cid)
                &&& final(self).entity_chunk(eid).dirty()
                &&& e.last_updated == o.last_updated
                &&& e.data.events() == o.data.events()
                &&& e.data.dirty()
                &&& e.data.fields().len() == o.data.fields().len()
                &&& e.data.fields()[field_index as int].value() == value
                &&& e.data.fields()[field_index as int].dirty()
                &&& (forall|i: int|
                    0 <= i < o.data.fields().len() && i != field_index ==> e.data.fields()[i]
                        == o.data.fields()[i])
            },
    {
        let ghost pre = *self;
        let (c, s) = match self.find_location(eid) {
            Some(l) => l,
            None => {
                proof {
                    assert(self.live_set() =~= pre.live_set());
                }
                return false;
            },
        };
        let ghost ci = c as int;
        let ghost si = s as int;
        let chunk = &mut self.chunks[c];
        let permitted = chunk.set_field(schema, cid, s, field_index, value);
        proof {
            let och = pre.chunks()[ci];
            let nch = self.chunks()[ci];
            if !permitted {
                assert(nch == och);
                assert(self.chunks() =~= pre.chunks());
                EntityCollection::lemma_unchanged(pre, *self, *schema);
            } else {
                let cc = och.col_index(cid);
                assert(och.has_col(cid));
                EntityCollection::lemma_wf_after_chunk_update(pre, *self, *schema, ci);
                EntityCollection::lemma_slot_local_update(pre, *self, *schema, ci, si, cc);
                pre.lemma_loc_at(pre.loc_index(eid));
                self.lemma_loc_at(pre.loc_index(eid));
                assert forall|e: EntityId, cid2: ComponentId|
                    pre.has_entity(e) && #[trigger] pre.entity_has_component(e, cid2) && !(e == eid
                        && cid2 == cid) implies self.entity_entry(e, cid2) == pre.entity_entry(
                    e,
                    cid2,
                ) && self.entity_auth(e, cid2) == pre.entity_auth(e, cid2) by {
                    if pre.chunk_of(e) == ci && pre.slot_of(e) == si {
                        assert(pre.chunks()[ci].ids()[si] == e && pre.chunks()[ci].ids()[si]
                            == eid);
                        assert(e == eid);
                        assert(cid2 != cid);
                    }
                }
                och.lemma_col_at(cc);
                let nchc = self.chunks()[ci];
                assert(nchc.cols()[cc].cid() == cid);
                assert forall|a: int, b: int|
                    0 <= a < b < nchc.cols().len() implies (#[trigger] nchc.cols()[a]).cid() != (
                    #[trigger] nchc.cols()[b]).cid() by {
                    assert(och.cols()[a].cid() != och.cols()[b].cid());
                    if a != cc {
                        assert(nchc.cols()[a] == och.cols()[a]);
                    }
                    if b != cc {
                        assert(nchc.cols()[b] == och.cols()[b]);
                    }
                }
                nchc.lemma_col_at(cc);
            }
        }
        permitted
    }

    /// Stages an event on one buffer of one component of one entity, under
    /// the same authority gate as `set_field`.
    pub fn trigger_event(
        &mut self,
        schema: &Schema,
        eid: EntityId,
        cid: ComponentId,
        event_index: usize,
        value: i64,
    ) -> (r: bool)
        requires
            old(self).wf(*schema),
        ensures
            final(self).wf(*schema),
            final(self).locs() == old(self).locs(),
            final(self).chunks().len() == old(self).chunks().len(),
            final(self).live_set() == old(self).live_set(),
            r == (old(self).has_entity(eid) && old(self).entity_has_component(eid, cid)
                && event_index < old(self).entity_chunk(eid).col_for(cid).nevents() && old(self).entity_auth(eid, cid)),
            !r ==> final(self).chunks() == old(self).chunks(),
            forall|e: EntityId|
                #[trigger] old(self).has_entity(e) ==> final(self).has_entity(e) && final(self).entity_sig_ids(*schema, e) == old(self).entity_sig_ids(*schema, e) && (forall|
                    cid2: ComponentId,
                |
                    #[trigger] final(self).entity_has_component(e, cid2) == old(self).entity_has_component(e, cid2)),
            forall|e: EntityId| #[trigger] final(self).has_entity(e) ==> old(self).has_entity(e),
            forall|e: EntityId, cid2: ComponentId|
                old(self).has_entity(e) && #[trigger] old(self).entity_has_component(e, cid2) && !(
                e == eid && cid2 == cid) ==> final(self).entity_entry(e, cid2) == old(self).entity_entry(e, cid2) && final(self).entity_auth(e, cid2) == old(self).entity_auth(e, cid2),
            r ==> {
                let e = final(self).entity_entry(eid, cid);
                let o = old(self).entity_entry(eid, cid);
                &&& final(self).entity_auth(eid, cid) == old(self).entity_auth(eid, cid)
                &&& e.last_updated == o.last_updated
                &&& e.data.fields() == o.data.fields()
                &&& e.data.dirty()
                &&& e.data.events().len() == o.data.events().len()
                &&& (e.data.events()[event_index as int]).staged() == o.data.events()[
                    event_index as int
                ].staged().push(value)
                &&& (e.data.events()[event_index as int]).received() == o.data.events()[
                    event_index as int
                ].received()
                &&& (forall|i: int|
                    0 <= i < o.data.events().len() && i != event_index ==> e.data.events()[i]
                        == o.data.events()[i])
            },
    {
        let ghost pre = *self;
        let (c, s) = match self.find_location(eid) {
            Some(l) => l,
            None => {
                proof {
                    assert(self.live_set() =~= pre.live_set());
                }
                return false;
            },
        };
        let ghost ci = c as int;
        let ghost si = s as int;
        let chunk = &mut self.chunks[c];
        let permitted = chunk.trigger_event(schema, cid, s, event_index, value);
        proof {
            let och = pre.chunks()[ci];
            let nch = self.chunks()[ci];
            if !permitted {
                assert(nch == och);
                assert(self.chunks() =~= pre.chunks());
                EntityCollection::lemma_unchanged(pre, *self, *schema);
            } else {
                let cc = och.col_index(cid);
                assert(och.has_col(cid));
                EntityCollection::lemma_wf_after_chunk_update(pre, *self, *schema, ci);
                EntityCollection::lemma_slot_local_update(pre, *self, *schema, ci, si, cc);
                pre.lemma_loc_at(pre.loc_index(eid));
                self.lemma_loc_at(pre.loc_index(eid));
                assert forall|e: EntityId, cid2: ComponentId|
                    pre.has_entity(e) && #[trigger] pre.entity_has_component(e, cid2) && !(e == eid
                        && cid2 == cid) implies self.entity_entry(e, cid2) == pre.entity_entry(
                    e,
                    cid2,
                ) && self.entity_auth(e, cid2) == pre.entity_auth(e, cid2) by {
                    if pre.chunk_of(e) == ci && pre.slot_of(e) == si {
                        assert(pre.chunks()[ci].ids()[si] == e && pre.chunks()[ci].ids()[si]
                            == eid);
                        assert(e == eid);
                        assert(cid2 != cid);
                    }
                }
                och.lemma_col_at(cc);
                let nchc = self.chunks()[ci];
                assert(nchc.cols()[cc].cid() == cid);
                assert forall|a: int, b: int|
                    0 <= a < b < nchc.cols().len() implies (#[trigger] nchc.cols()[a]).cid() != (
                    #[trigger] nchc.cols()[b]).cid() by {
                    assert(och.cols()[a].cid() != och.cols()[b].cid());
                    if a != cc {
                        assert(nchc.cols()[a] == och.cols()[a]);
                    }
                    if b != cc {
                        assert(nchc.cols()[b] == och.cols()[b]);
                    }
                }
                nchc.lemma_col_at(cc);
            }
        }
        permitted
    }

    /// The value of one field of one component of one entity, or `None` when
    /// the entity is unknown, lacks the component, or the field does not
    /// exist.
    pub fn get_component_field(
        &self,
        schema: &Schema,
        eid: EntityId,
        cid: ComponentId,
        field_index: usize,
    ) -> (r: Option<i64>)
        requires
            self.wf(*schema),
        ensures
            match r {
                Some(v) => self.has_entity(eid) && self.entity_has_component(eid, cid)
                    && field_index < self.entity_entry(eid, cid).data.fields().len() && v
                    == self.entity_entry(eid, cid).data.fields()[field_index as int].value(),
                None => !(self.has_entity(eid) && self.entity_has_component(eid, cid)
                    && field_index < self.entity_chunk(eid).col_for(cid).nfields()),
            },
    {
        let (c, s) = match self.find_location(eid) {
            Some(l) => l,
            None => {
                return None;
            },
        };
        let r = self.chunks[c].get_component_field(schema, cid, s, field_index);
        proof {
            if r is Some {
                let ch = self.entity_chunk(eid);
                assert(ch.col_for(cid).wf());
            }
        }
        r
    }

    /// The authority the worker holds over one component of one entity, as
    /// the store tracks it, or `None` when the entity is unknown or lacks
    /// the component.
    pub fn get_authority(&self, schema: &Schema, eid: EntityId, cid: ComponentId) -> (r: Option<
        crate::worker::Authority,
    >)
        requires
            self.wf(*schema),
        ensures
            match r {
                Some(a) => self.has_entity(eid) && self.entity_has_component(eid, cid) && a == if self.entity_auth(
                    eid,
                    cid,
                ) {
                    crate::worker::Authority::Authoritative
                } else {
                    crate::worker::Authority::NotAuthoritative
                },
                None => !(self.has_entity(eid) && self.entity_has_component(eid, cid)),
            },
    {
        let (c, s) = match self.find_location(eid) {
            Some(l) => l,
            None => {
                return None;
            },
        };
        self.chunks[c].get_authority(schema, cid, s)
    }

    /// The events one component of one entity received this tick on one
    /// buffer.
    pub fn get_received_events(
        &self,
        schema: &Schema,
        eid: EntityId,
        cid: ComponentId,
        event_index: usize,
    ) -> (r: Option<&Vec<i64>>)
        requires
            self.wf(*schema),
        ensures
            match r {
                Some(v) => self.has_entity(eid) && self.entity_has_component(eid, cid)
                    && event_index < self.entity_entry(eid, cid).data.events().len() && v@
                    == self.entity_entry(eid, cid).data.events()[event_index as int].received(),
                None => !(self.has_entity(eid) && self.entity_has_component(eid, cid)
                    && event_index < self.entity_chunk(eid).col_for(cid).nevents()),
            },
    {
        let (c, s) = match self.find_location(eid) {
            Some(l) => l,
            None => {
                return None;
            },
        };
        let r = self.chunks[c].get_received_events(schema, cid, s, event_index);
        proof {
            if r is Some {
                assert(self.entity_chunk(eid).col_for(cid).wf());
            }
        }
        r
    }

    /// Replicates every chunk: appends to `out` — chunk by chunk, column by
    /// column, slot by slot — one update message per dirty slot carrying
    /// exactly its dirty fields and staged events, and leaves every column's
    /// dirty flag, every field's dirty bit, and every staged buffer clear.
    pub fn replicate_all(&mut self, schema: &Schema, out: &mut Vec<OutgoingMessage>)
        requires
            old(self).wf(*schema),
        ensures
            final(self).wf(*schema),
            final(self).live_set() == old(self).live_set(),
            replicated_relation(*old(self), *final(self)),
            replicate_msgs_appended(*old(self), old(out)@, final(out)@),
    {
        let ghost pre = *self;
        let ghost out0 = out@;
        let nchunks = self.chunks.len();
        let mut c: usize = 0;
        while c < nchunks
            invariant
                pre.wf(*schema),
                c <= nchunks,
                nchunks == self.chunks().len() == pre.chunks().len(),
                self.locs() == pre.locs(),
                forall|c2: int| c <= c2 < nchunks ==> self.chunks()[c2] == pre.chunks()[c2],
                forall|c2: int|
                    0 <= c2 < c ==> {
                        let ch = #[trigger] self.chunks()[c2];
                        let o = pre.chunks()[c2];
                        &&& ch.wf(*schema)
                        &&& ch.sig() == o.sig()
                        &&& ch.ids() == o.ids()
                        &&& ch.has_events() == o.has_events()
                        &&& !ch.dirty()
                        &&& ch.cols().len() == o.cols().len()
                        &&& (forall|cc: int|
                            0 <= cc < o.cols().len() ==> {
                                let col = #[trigger] ch.cols()[cc];
                                let oc = o.cols()[cc];
                                &&& col.cid() == oc.cid()
                                &&& col.auth() == oc.auth()
                                &&& col.has_events() == oc.has_events()
                                &&& col.replicated_clean()
                                &&& col.entries().len() == oc.entries().len()
                                &&& (forall|i: int|
                                    0 <= i < oc.entries().len() ==> {
                                        let e = #[trigger] col.entries()[i];
                                        let oe = oc.entries()[i];
                                        e.last_updated == oe.last_updated && e.data.fields()
                                            == cleaned_fields(oe.data.fields())
                                            && e.data.events().len() == oe.data.events().len()
                                    })
                                &&& (forall|i: int, k: int|
                                    0 <= i < oc.entries().len() && 0 <= k < oc.entries()[
                                        i
                                    ].data.events().len() ==> (#[trigger] col.entries()[
                                        i
                                    ].data.events()[k]).received() == oc.entries()[
                                        i
                                    ].data.events()[k].received())
                            })
                    },
                out@.len() == out0.len() + store_msgs_before(pre.chunks(), c as int),
                forall|k: int| 0 <= k < out0.len() ==> out@[k] == out0[k],
                forall|c2: int, cc: int, k: int|
                    0 <= c2 < c && 0 <= cc < pre.chunks()[c2].cols().len() && 0 <= k < dirty_slots(
                        pre.chunks()[c2].cols()[cc].entries(),
                    ).len() ==> {
                        let s = dirty_slots(pre.chunks()[c2].cols()[cc].entries())[k];
                        is_update_msg(
                            #[trigger] out@[out0.len() + store_msgs_before(pre.chunks(), c2)
                                + msgs_before(pre.chunks()[c2].cols(), cc) + k],
                            pre.chunks()[c2].ids()[s],
                            pre.chunks()[c2].cols()[cc].cid(),
                            extracted_fields(
                                pre.chunks()[c2].cols()[cc].entries()[s].data.fields(),
                            ),
                            staged_events_of(
                                pre.chunks()[c2].cols()[cc].entries()[s].data.events(),
                            ),
                        )
                    },
            decreases nchunks - c,
        {
            proof {
                assert(pre.chunks()[c as int].wf(*schema));
                assert(self.chunks()[c as int] == pre.chunks()[c as int]);
                lemma_store_msgs_before_bounds(pre.chunks(), 0, c as int);
            }
            let ghost out_mid = out@;
            let chunk = &mut self.chunks[c];
            chunk.replicate(schema, out);
            proof {
                let ci = c as int;
                assert(out@.len() == out_mid.len() + chunk_msg_count(pre.chunks()[ci]));
                assert forall|c2: int, cc: int, k: int|
                    0 <= c2 < ci + 1 && 0 <= cc < pre.chunks()[c2].cols().len() && 0 <= k
                        < dirty_slots(pre.chunks()[c2].cols()[cc].entries()).len() implies {
                    let s = dirty_slots(pre.chunks()[c2].cols()[cc].entries())[k];
                    is_update_msg(
                        #[trigger] out@[out0.len() + store_msgs_before(pre.chunks(), c2)
                            + msgs_before(pre.chunks()[c2].cols(), cc) + k],
                        pre.chunks()[c2].ids()[s],
                        pre.chunks()[c2].cols()[cc].cid(),
                        extracted_fields(pre.chunks()[c2].cols()[cc].entries()[s].data.fields()),
                        staged_events_of(pre.chunks()[c2].cols()[cc].entries()[s].data.events()),
                    )
                } by {
                    lemma_store_msgs_before_bounds(pre.chunks(), 0, c2);
                    crate::chunk::lemma_msgs_before_bounds(pre.chunks()[c2].cols(), 0, cc);
                    crate::column::lemma_dirty_slots_in_range(
                        pre.chunks()[c2].cols()[cc].entries(),
                    );
                    if c2 < ci {
                        lemma_store_msgs_before_bounds(pre.chunks(), c2 + 1, ci);
                        crate::chunk::lemma_msgs_before_bounds(
                            pre.chunks()[c2].cols(),
                            cc + 1,
                            pre.chunks()[c2].cols().len() as int,
                        );
                        assert(out0.len() + store_msgs_before(pre.chunks(), c2) + msgs_before(
                            pre.chunks()[c2].cols(),
                            cc,
                        ) + k < out_mid.len());
                    } else {
                        assert(store_msgs_before(pre.chunks(), c2) == store_msgs_before(
                            pre.chunks(),
                            ci,
                        ));
                        assert(out_mid.len() == out0.len() + store_msgs_before(pre.chunks(), ci));
                    }
                }
            }
            c = c + 1;
        }
        proof {
            EntityCollection::lemma_wf_many_chunks(pre, *self, *schema);
        }
    }

    /// Clears every received event buffer of every chunk at the end of a
    /// tick; staged events, field values, and dirty state are untouched.
    pub fn cleanup_after_frame(&mut self, schema: &Schema)
        requires
            old(self).wf(*schema),
        ensures
            final(self).wf(*schema),
            final(self).live_set() == old(self).live_set(),
            cleaned_relation(*old(self), *final(self)),
    {
        let ghost pre = *self;
        let nchunks = self.chunks.len();
        let mut c: usize = 0;
        while c < nchunks
            invariant
                pre.wf(*schema),
                c <= nchunks,
                nchunks == self.chunks().len() == pre.chunks().len(),
                self.locs() == pre.locs(),
                forall|c2: int| c <= c2 < nchunks ==> self.chunks()[c2] == pre.chunks()[c2],
                forall|c2: int|
                    0 <= c2 < c ==> {
                        let ch = #[trigger] self.chunks()[c2];
                        let o = pre.chunks()[c2];
                        &&& ch.wf(*schema)
                        &&& ch.sig() == o.sig()
                        &&& ch.ids() == o.ids()
                        &&& ch.dirty() == o.dirty()
                        &&& !ch.has_events()
                        &&& ch.cols().len() == o.cols().len()
                        &&& (forall|cc: int|
                            0 <= cc < o.cols().len() ==> {
                                let col = #[trigger] ch.cols()[cc];
                                let oc = o.cols()[cc];
                                &&& col.cid() == oc.cid()
                                &&& col.auth() == oc.auth()
                                &&& col.dirty() == oc.dirty()
                                &&& col.entries().len() == oc.entries().len()
                                &&& (forall|i: int|
                                    0 <= i < oc.entries().len() ==> {
                                        let e = #[trigger] col.entries()[i];
                                        let oe = oc.entries()[i];
                                        e.last_updated == oe.last_updated && e.data.fields()
                                            == oe.data.fields() && e.data.dirty()
                                            == oe.data.dirty() && e.data.events().len()
                                            == oe.data.events().len()
                                            && e.data.no_received_events()
                                    })
                                &&& (forall|i: int, k: int|
                                    0 <= i < oc.entries().len() && 0 <= k < oc.entries()[
                                        i
                                    ].data.events().len() ==> (#[trigger] col.entries()[
                                        i
                                    ].data.events()[k]).staged() == oc.entries()[
                                        i
                                    ].data.events()[k].staged())
                            })
                    },
            decreases nchunks - c,
        {
            proof {
                assert(pre.chunks()[c as int].wf(*schema));
                assert(self.chunks()[c as int] == pre.chunks()[c as int]);
            }
            let chunk = &mut self.chunks[c];
            chunk.cleanup_after_frame(schema);
            c = c + 1;
        }
        proof {
            EntityCollection::lemma_wf_many_chunks(pre, *self, *schema);
        }
    }

    /// After mutations across chunks that kept every chunk's ids and
    /// well-formedness, the store's map invariant still holds.
    proof fn lemma_wf_many_chunks(pre: EntityCollection, post: EntityCollection, schema: Schema)
        requires
            pre.wf(schema),
            post.locs() == pre.locs(),
            post.chunks().len() == pre.chunks().len(),
            forall|c: int|
                0 <= c < pre.chunks().len() ==> (#[trigger] post.chunks()[c]).ids()
                    == pre.chunks()[c].ids() && post.chunks()[c].wf(schema),
        ensures
            post.wf(schema),
            post.live_set() == pre.live_set(),
    {
        assert forall|i: int| 0 <= i < post.locs().len() implies {
            let l = #[trigger] post.locs()[i];
            (l.1.0 as int) < post.chunks().len() && (l.1.1 as int) < post.chunks()[
                l.1.0 as int
            ].ids().len() && post.chunks()[l.1.0 as int].ids()[l.1.1 as int] == l.0
        } by {
            let l = pre.locs()[i];
            assert(post.chunks()[l.1.0 as int].ids() == pre.chunks()[l.1.0 as int].ids());
        }
        assert forall|c2: int, s2: int|
            0 <= c2 < post.chunks().len() && 0 <= s2 < post.chunks()[c2].ids().len() implies
            #[trigger] post.slot_mapped(c2, s2) by {
            assert(post.chunks()[c2].ids() == pre.chunks()[c2].ids());
            assert(pre.slot_mapped(c2, s2));
            let k = choose|k: int|
                0 <= k < pre.locs().len() && (#[trigger] pre.locs()[k]) == (
                    pre.chunks()[c2].ids()[s2],
                    (c2 as usize, s2 as usize),
                );
            assert(post.locs()[k] == (post.chunks()[c2].ids()[s2], (c2 as usize, s2 as usize)));
        }
        assert forall|e: EntityId| #[trigger] pre.has_entity(e) implies post.has_entity(e) by {
            let i = choose|i: int| 0 <= i < pre.locs().len() && pre.locs()[i].0 == e;
            assert(post.locs()[i].0 == e);
        }
        assert forall|e: EntityId| #[trigger] post.has_entity(e) implies pre.has_entity(e) by {
            let i = choose|i: int| 0 <= i < post.locs().len() && post.locs()[i].0 == e;
            assert(pre.locs()[i].0 == e);
        }
        assert(post.live_set() =~= pre.live_set());
    }

    /// Every live slot of every chunk whose signature covers `sig`, in chunk
    /// then slot order.
    pub fn iterate(&self, schema: &Schema, sig: &GeneratedComponentBitField) -> (r: Vec<
        (EntityId, usize, usize),
    >)
        requires
            self.wf(*schema),
            sig.words().len() == schema.spec_word_count(),
        ensures
            r@ == iterate_spec(self.chunks(), *sig),
    {
        let mut r: Vec<(EntityId, usize, usize)> = Vec::new();
        let nchunks = self.chunks.len();
        let mut c: usize = 0;
        while c < nchunks
            invariant
                self.wf(*schema),
                sig.words().len() == schema.spec_word_count(),
                c <= nchunks,
                nchunks == self.chunks().len(),
                r@ == iterate_upto(self.chunks(), *sig, c as int),
            decreases nchunks - c,
        {
            let ghost prefix = r@;
            let chunk = &self.chunks[c];
            if chunk.signature().is_subset(sig) {
                let n = chunk.num_entities();
                let mut s: usize = 0;
                while s < n
                    invariant
                        s <= n,
                        n == chunk.ids().len(),
                        c < self.chunks().len(),
                        chunk == self.chunks()[c as int],
                        r@ == prefix + chunk_locs(*chunk, c as int).take(s as int),
                    decreases n - s,
                {
                    r.push((chunk.get_entity_id(s), c, s));
                    proof {
                        assert(chunk_locs(*chunk, c as int).take(s + 1 as int) =~= chunk_locs(
                            *chunk,
                            c as int,
                        ).take(s as int).push((chunk.ids()[s as int], c, s)));
                    }
                    s = s + 1;
                }
                proof {
                    assert(chunk_locs(*chunk, c as int).take(n as int) =~= chunk_locs(
                        *chunk,
                        c as int,
                    ));
                    assert(r@ == iterate_upto(self.chunks(), *sig, c as int + 1));
                }
            } else {
                proof {
                    assert(r@ =~= iterate_upto(self.chunks(), *sig, c as int + 1));
                }
            }
            c = c + 1;
        }
        r
    }

    /// The same triples as `iterate`, grouped by chunk: one group per
    /// matching chunk, in chunk order, ready for per-chunk parallel fan-out.
    /// Flattening the groups yields exactly what `iterate` yields.
    pub fn par_iterate(&self, schema: &Schema, sig: &GeneratedComponentBitField) -> (r: Vec<
        Vec<(EntityId, usize, usize)>,
    >)
        requires
            self.wf(*schema),
            sig.words().len() == schema.spec_word_count(),
        ensures
            groups_flatten(r@) == iterate_spec(self.chunks(), *sig),
            forall|g: int|
                0 <= g < r@.len() ==> forall|k1: int, k2: int|
                    0 <= k1 < (#[trigger] r@[g])@.len() && 0 <= k2 < r@[g]@.len() && k1 != k2
                        ==> (#[trigger] r@[g]@[k1]).0 != (#[trigger] r@[g]@[k2]).0,
    {
        let mut r: Vec<Vec<(EntityId, usize, usize)>> = Vec::new();
        let nchunks = self.chunks.len();
        let mut c: usize = 0;
        while c < nchunks
            invariant
                self.wf(*schema),
                sig.words().len() == schema.spec_word_count(),
                c <= nchunks,
                nchunks == self.chunks().len(),
                groups_flatten(r@) == iterate_upto(self.chunks(), *sig, c as int),
                forall|g: int|
                    0 <= g < r@.len() ==> forall|k1: int, k2: int|
                        0 <= k1 < (#[trigger] r@[g])@.len() && 0 <= k2 < r@[g]@.len() && k1 != k2
                            ==> (#[trigger] r@[g]@[k1]).0 != (#[trigger] r@[g]@[k2]).0,
            decreases nchunks - c,
        {
            let chunk = &self.chunks[c];
            if chunk.signature().is_subset(sig) {
                let n = chunk.num_entities();
                let mut group: Vec<(EntityId, usize, usize)> = Vec::new();
                let mut s: usize = 0;
                while s < n
                    invariant
                        s <= n,
                        n == chunk.ids().len(),
                        c < self.chunks().len(),
                        self.wf(*schema),
                        chunk == self.chunks()[c as int],
                        group@ == chunk_locs(*chunk, c as int).take(s as int),
                    decreases n - s,
                {
                    group.push((chunk.get_entity_id(s), c, s));
                    proof {
                        assert(chunk_locs(*chunk, c as int).take(s + 1 as int) =~= chunk_locs(
                            *chunk,
                            c as int,
                        ).take(s as int).push((chunk.ids()[s as int], c, s)));
                    }
                    s = s + 1;
                }
                proof {
                    assert(chunk_locs(*chunk, c as int).take(n as int) =~= chunk_locs(
                        *chunk,
                        c as int,
                    ));
                    assert forall|k1: int, k2: int|
                        0 <= k1 < group@.len() && 0 <= k2 < group@.len() && k1 != k2 implies (
                    #[trigger] group@[k1]).0 != (#[trigger] group@[k2]).0 by {
                        self.lemma_chunk_ids_unique(*schema, c as int, k1, k2);
                    }
                }
                let ghost groups0 = r@;
                r.push(group);
                proof {
                    assert(r@.drop_last() =~= groups0);
                    assert(groups_flatten(r@) == iterate_upto(self.chunks(), *sig, c as int + 1));
                }
            } else {
                proof {
                    assert(groups_flatten(r@) =~= iterate_upto(self.chunks(), *sig, c as int + 1));
                }
            }
            c = c + 1;
        }
        r
    }

    /// Every live slot of every matching chunk whose component `cid` last
    /// changed after `since`: the modified-only view a system reads.
    pub fn iterate_modified(
        &self,
        schema: &Schema,
        sig: &GeneratedComponentBitField,
        cid: ComponentId,
        since: WorldTime,
    ) -> (r: Vec<(EntityId, usize, usize)>)
        requires
            self.wf(*schema),
            sig.words().len() == schema.spec_word_count(),
            schema.has_component(cid),
            sig.has_bit(schema.index_of(cid)),
        ensures
            r@ == iterate_modified_upto(
                self.chunks(),
                *sig,
                cid,
                since,
                self.chunks().len() as int,
            ),
    {
        let mut r: Vec<(EntityId, usize, usize)> = Vec::new();
        let nchunks = self.chunks.len();
        let mut c: usize = 0;
        while c < nchunks
            invariant
                self.wf(*schema),
                sig.words().len() == schema.spec_word_count(),
                schema.has_component(cid),
                sig.has_bit(schema.index_of(cid)),
                c <= nchunks,
                nchunks == self.chunks().len(),
                r@ == iterate_modified_upto(self.chunks(), *sig, cid, since, c as int),
            decreases nchunks - c,
        {
            let ghost prefix = r@;
            let chunk = &self.chunks[c];
            if chunk.signature().is_subset(sig) {
                proof {
                    // a matching chunk stores the filtered component
                    assert(chunk.sig().has_bit(schema.index_of(cid)));
                    assert(schema.signature_ids(chunk.sig()).contains(cid));
                    assert(chunk.has_col(cid));
                }
                let cc = match chunk.find_column(cid) {
                    Some(cc) => cc,
                    None => {
                        proof {
                            assert(false);
                        }
                        0
                    },
                };
                proof {
                    chunk.lemma_col_at(cc as int);
                }
                let n = chunk.num_entities();
                let mut s: usize = 0;
                while s < n
                    invariant
                        s <= n,
                        n == chunk.ids().len(),
                        c < self.chunks().len(),
                        self.wf(*schema),
                        chunk == self.chunks()[c as int],
                        chunk.wf(*schema),
                        cc < chunk.cols().len(),
                        chunk.cols()[cc as int] == chunk.col_for(cid),
                        chunk.col_for(cid).entries().len() == n,
                        r@ == prefix + modified_slots_upto(*chunk, c as int, cid, since, s as int),
                    decreases n - s,
                {
                    let t = chunk.col_entry_last_updated(cc, s);
                    if t.occured_after(&since) {
                        r.push((chunk.get_entity_id(s), c, s));
                    }
                    s = s + 1;
                }
                proof {
                    assert(r@ =~= prefix + modified_slots_upto(
                        *chunk,
                        c as int,
                        cid,
                        since,
                        n as int,
                    ));
                    assert(r@ =~= iterate_modified_upto(
                        self.chunks(),
                        *sig,
                        cid,
                        since,
                        c as int + 1,
                    ));
                }
            } else {
                proof {
                    assert(r@ =~= iterate_modified_upto(
                        self.chunks(),
                        *sig,
                        cid,
                        since,
                        c as int + 1,
                    ));
                }
            }
            c = c + 1;
        }
        r
    }

    /// When one component of one entity last changed through the fabric, or
    /// `None` when the entity is unknown or lacks the component.
    pub fn get_last_updated(&self, schema: &Schema, eid: EntityId, cid: ComponentId) -> (r: Option<
        WorldTime,
    >)
        requires
            self.wf(*schema),
        ensures
            match r {
                Some(t) => self.has_entity(eid) && self.entity_has_component(eid, cid) && t
                    == self.entity_entry(eid, cid).last_updated,
                None => !(self.has_entity(eid) && self.entity_has_component(eid, cid)),
            },
    {
        let (c, s) = match self.find_location(eid) {
            Some(l) => l,
            None => {
                return None;
            },
        };
        self.chunks[c].get_last_updated(schema, cid, s)
    }
}

} // verus!
