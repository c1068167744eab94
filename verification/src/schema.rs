//! The schema registry: the set of components this worker was built with.
//!
//! Code generation assigns every known component a dense unique index, which
//! is its bit position in every signature.  Components the schema does not
//! know set no bit and are dropped by the dispatcher, since the fabric may
//! replicate components a worker was not compiled with.

use crate::data::ComponentData;
use crate::data::ComponentUpdate;
use crate::signature::GeneratedComponentBitField;
use crate::ComponentId;
use vstd::prelude::*;

verus! {

/// The shape of one component: its id and how many scalar fields and event
/// buffers its data carries.
#[derive(Clone, Copy, PartialEq, Eq, Structural, Debug)]
pub struct ComponentDescriptor {
    component_id: ComponentId,
    num_fields: usize,
    num_events: usize,
}

impl ComponentDescriptor {
    /// The component's id.
    pub closed spec fn id(self) -> ComponentId {
        self.component_id
    }

    /// The number of scalar fields of the component's data.
    pub closed spec fn nfields(self) -> usize {
        self.num_fields
    }

    /// The number of event buffers of the component's data.
    pub closed spec fn nevents(self) -> usize {
        self.num_events
    }

    /// A descriptor for a component with the given shape.
    pub fn new(component_id: ComponentId, num_fields: usize, num_events: usize) -> (r:
        ComponentDescriptor)
        ensures
            r.id() == component_id,
            r.nfields() == num_fields,
            r.nevents() == num_events,
    {
        ComponentDescriptor { component_id, num_fields, num_events }
    }

    /// The component's id.
    pub fn component_id(&self) -> (r: ComponentId)
        ensures
            r == self.id(),
    {
        self.component_id
    }

    /// The number of scalar fields of the component's data.
    pub fn num_fields(&self) -> (r: usize)
        ensures
            r == self.nfields(),
    {
        self.num_fields
    }

    /// The number of event buffers of the component's data.
    pub fn num_events(&self) -> (r: usize)
        ensures
            r == self.nevents(),
    {
        self.num_events
    }

    /// Whether a data row has this component's shape.
    pub open spec fn data_fits(self, data: ComponentData) -> bool {
        data.fields().len() == self.nfields() && data.events().len() == self.nevents()
    }

    /// Whether an update has this component's shape.
    pub open spec fn update_fits(self, update: ComponentUpdate) -> bool {
        update.ufields().len() == self.nfields() && update.uevents().len() == self.nevents()
    }
}

/// The set of components known to this worker, with their dense unique
/// indices: a component's index is its position in the registry and its bit
/// position in every signature.
#[derive(Clone, Debug)]
pub struct Schema {
    components: Vec<ComponentDescriptor>,
}

impl Schema {
    /// The registered descriptors, in unique-index order.
    pub closed spec fn descs(self) -> Seq<ComponentDescriptor> {
        self.components@
    }

    /// Component ids are registered at most once.
    pub open spec fn wf(self) -> bool {
        forall|i: int, j: int|
            0 <= i < j < self.descs().len() ==> self.descs()[i].id() != self.descs()[j].id()
    }

    /// Whether the schema knows the component.
    pub open spec fn has_component(self, component_id: ComponentId) -> bool {
        exists|i: int| 0 <= i < self.descs().len() && self.descs()[i].id() == component_id
    }

    /// The unique index of a known component.
    pub open spec fn index_of(self, component_id: ComponentId) -> int {
        choose|i: int| 0 <= i < self.descs().len() && self.descs()[i].id() == component_id
    }

    /// The descriptor of a known component.
    pub open spec fn descriptor_of(self, component_id: ComponentId) -> ComponentDescriptor {
        self.descs()[self.index_of(component_id)]
    }

    /// The number of words a signature for this schema packs its bits into.
    pub open spec fn spec_word_count(self) -> int {
        self.descs().len() as int / 64 + 1
    }

    /// In a well-formed schema, the unique index of the component registered
    /// at position `i` is `i` itself.
    pub proof fn lemma_index_of(self, i: int)
        requires
            self.wf(),
            0 <= i < self.descs().len(),
        ensures
            self.has_component(self.descs()[i].id()),
            self.index_of(self.descs()[i].id()) == i,
            self.descriptor_of(self.descs()[i].id()) == self.descs()[i],
    {
        let cid = self.descs()[i].id();
        assert(self.has_component(cid));
        let j = self.index_of(cid);
        assert(0 <= j < self.descs().len() && self.descs()[j].id() == cid);
        if i != j {
            assert(self.descs()[i].id() != self.descs()[j].id());
        }
    }

    /// Every unique index fits inside the signature's capacity.
    pub proof fn lemma_index_in_capacity(self, i: int)
        requires
            0 <= i < self.descs().len(),
        ensures
            i < self.spec_word_count() * 64,
    {
        let n = self.descs().len() as int;
        vstd::arithmetic::div_mod::lemma_fundamental_div_mod(n, 64);
        assert((n / 64 + 1) * 64 == n / 64 * 64 + 64) by (nonlinear_arith);
        assert(0 <= n % 64 < 64);
    }

    /// A registry over the given descriptors; refused when two descriptors
    /// carry the same component id.
    pub fn new(components: Vec<ComponentDescriptor>) -> (r: Option<Schema>)
        ensures
            match r {
                Some(s) => s.descs() == components@ && s.wf(),
                None => !(forall|i: int, j: int|
                    0 <= i < j < components@.len() ==> components@[i].id() != components@[j].id()),
            },
    {
        let n = components.len();
        let mut i: usize = 0;
        while i < n
            invariant
                i <= n,
                n == components@.len(),
                forall|p: int, q: int|
                    0 <= p < q < n && p < i ==> components@[p].id() != components@[q].id(),
            decreases n - i,
        {
            let mut j: usize = i + 1;
            while j < n
                invariant
                    i < j <= n,
                    n == components@.len(),
                    forall|q: int| i < q < j ==> components@[i as int].id() != components@[q].id(),
                decreases n - j,
            {
                if components[i].component_id() == components[j].component_id() {
                    return None;
                }
                j = j + 1;
            }
            i = i + 1;
        }
        Some(Schema { components })
    }

    /// The number of known components.
    pub fn num_components(&self) -> (r: usize)
        ensures
            r == self.descs().len(),
    {
        self.components.len()
    }

    /// The descriptor at a unique index.
    pub fn descriptor_at(&self, index: usize) -> (r: ComponentDescriptor)
        requires
            index < self.descs().len(),
        ensures
            r == self.descs()[index as int],
    {
        self.components[index]
    }

    /// The dense unique index of a component id, or `None` when the schema
    /// does not know the component.
    pub fn get_unique_index(&self, component_id: ComponentId) -> (r: Option<usize>)
        requires
            self.wf(),
        ensures
            match r {
                Some(i) => self.has_component(component_id) && i == self.index_of(component_id)
                    && i < self.descs().len() && self.descs()[i as int].id() == component_id,
                None => !self.has_component(component_id),
            },
    {
        let n = self.components.len();
        let mut i: usize = 0;
        while i < n
            invariant
                i <= n,
                n == self.descs().len(),
                self.wf(),
                forall|j: int| 0 <= j < i ==> self.descs()[j].id() != component_id,
            decreases n - i,
        {
            if self.components[i].component_id() == component_id {
                proof {
                    self.lemma_index_of(i as int);
                }
                return Some(i);
            }
            i = i + 1;
        }
        None
    }

    /// The shape of a known component, or `None` when the schema does not
    /// know it.
    pub fn get_descriptor(&self, component_id: ComponentId) -> (r: Option<ComponentDescriptor>)
        requires
            self.wf(),
        ensures
            match r {
                Some(d) => self.has_component(component_id) && d == self.descriptor_of(
                    component_id,
                ) && d.id() == component_id,
                None => !self.has_component(component_id),
            },
    {
        match self.get_unique_index(component_id) {
            Some(i) => Some(self.components[i]),
            None => None,
        }
    }

    /// The number of words a signature for this schema packs its bits into.
    pub fn word_count(&self) -> (r: usize)
        ensures
            r == self.spec_word_count(),
    {
        self.components.len() / 64 + 1
    }

    /// An empty signature sized for this schema.
    pub fn new_bit_field(&self) -> (r: GeneratedComponentBitField)
        ensures
            r.words().len() == self.spec_word_count(),
            forall|i: int| !r.has_bit(i),
    {
        GeneratedComponentBitField::new(self.word_count())
    }

    /// The component ids a signature names, read through this schema.
    pub open spec fn signature_ids(self, sig: GeneratedComponentBitField) -> Set<ComponentId> {
        Set::new(
            |cid: ComponentId| self.has_component(cid) && sig.has_bit(self.index_of(cid)),
        )
    }
}

impl GeneratedComponentBitField {
    /// Sets the bit of a known component and reports whether the schema knew
    /// it; an unknown component sets no bit.
    pub fn add_component(&mut self, schema: &Schema, component_id: ComponentId) -> (r: bool)
        requires
            schema.wf(),
            old(self).words().len() == schema.spec_word_count(),
        ensures
            r == schema.has_component(component_id),
            final(self).words().len() == old(self).words().len(),
            r ==> final(self).has_bit(schema.index_of(component_id)) && forall|i: int|
                i != schema.index_of(component_id) ==> final(self).has_bit(i) == old(
                    self,
                ).has_bit(i),
            !r ==> final(self).words() == old(self).words(),
            schema.signature_ids(*final(self)) == schema.signature_ids(*old(self)).union(
                if r {
                    Set::<ComponentId>::empty().insert(component_id)
                } else {
                    Set::<ComponentId>::empty()
                },
            ),
    {
        let index = schema.get_unique_index(component_id);
        match index {
            Some(i) => {
                proof {
                    schema.lemma_index_in_capacity(i as int);
                }
                self.set_bit(i);
                proof {
                    assert forall|cid: ComponentId|
                        schema.signature_ids(*self).contains(cid) <==> schema.signature_ids(
                            *old(self),
                        ).insert(component_id).contains(cid) by {
                        if schema.has_component(cid) {
                            let k = schema.index_of(cid);
                            if cid == component_id {
                                assert(self.has_bit(k));
                            } else {
                                assert(k != i as int) by {
                                    assert(0 <= k < schema.descs().len() && schema.descs()[k].id()
                                        == cid);
                                    assert(schema.descs()[i as int].id() == component_id);
                                }
                            }
                        }
                    }
                    assert(schema.signature_ids(*self) =~= schema.signature_ids(
                        *old(self),
                    ).insert(component_id));
                    assert(schema.signature_ids(*old(self)).insert(component_id)
                        =~= schema.signature_ids(*old(self)).union(
                        Set::<ComponentId>::empty().insert(component_id),
                    ));
                }
                true
            },
            None => {
                proof {
                    assert(schema.signature_ids(*self) =~= schema.signature_ids(*old(self)).union(
                        Set::<ComponentId>::empty(),
                    ));
                }
                false
            },
        }
    }
}

} // verus!
