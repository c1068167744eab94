//! Templates for entities this worker asks the fabric to create.

use crate::ComponentId;
use crate::EntityId;
use vstd::prelude::*;
use vstd::string::StringExecFns;

verus! {

/// A worker constraint for an entity's access control list.
pub enum Worker<'a> {
    /// A worker class: matches any worker carrying the given attribute.
    Type(&'a str),
    /// Matches only the worker with the given worker id.
    Specific(&'a str),
    /// Matches no workers.
    Nobody,
}

impl<'a> Worker<'a> {
    /// The attribute string the fabric matches workers against, or `None`
    /// when the constraint matches no workers.
    pub fn get_attribute_string(&self) -> (r: Option<String>)
        ensures
            match *self {
                Worker::Type(attribute) => r is Some && r->Some_0@ == attribute@,
                Worker::Specific(id) => r is Some && r->Some_0@ == "workerId:"@ + id@,
                Worker::Nobody => r is None,
            },
    {
        match self {
            Worker::Type(attribute) => Some(String::from_str(attribute)),
            Worker::Specific(id) => {
                let mut s = String::from_str("workerId:");
                s.append(id);
                Some(s)
            },
            Worker::Nobody => None,
        }
    }
}

/// A template of an entity that does not exist yet: the components it starts
/// with (as snapshots), who may read it, and who may write each component.
pub struct EntityTemplate {
    entity_id: Option<EntityId>,
    data: Vec<(ComponentId, Vec<i64>)>,
    read_access: Vec<String>,
    write_access: Vec<(ComponentId, String)>,
}

impl EntityTemplate {
    /// The entity id the template asks for, if any.
    pub closed spec fn requested_id(self) -> Option<EntityId> {
        self.entity_id
    }

    /// The component snapshots the entity starts with.
    pub closed spec fn component_snapshots(self) -> Seq<(ComponentId, Vec<i64>)> {
        self.data@
    }

    /// The attributes whose workers may read the entity.
    pub closed spec fn read_attributes(self) -> Seq<String> {
        self.read_access@
    }

    /// The attribute whose workers may write each component.
    pub closed spec fn write_attributes(self) -> Seq<(ComponentId, String)> {
        self.write_access@
    }

    /// A template whose read access list is the union of the given worker
    /// constraints; constraints matching no workers contribute nothing.
    pub fn new(read_access: Vec<Worker>) -> (r: EntityTemplate)
        ensures
            r.requested_id() is None,
            r.component_snapshots().len() == 0,
            r.write_attributes().len() == 0,
            r.read_attributes().len() <= read_access@.len(),
    {
        let mut attributes: Vec<String> = Vec::new();
        let mut i: usize = 0;
        while i < read_access.len()
            invariant
                i <= read_access@.len(),
                attributes@.len() <= i,
            decreases read_access@.len() - i,
        {
            match read_access[i].get_attribute_string() {
                Some(attribute) => attributes.push(attribute),
                None => {},
            }
            i = i + 1;
        }
        EntityTemplate {
            entity_id: None,
            data: Vec::new(),
            read_access: attributes,
            write_access: Vec::new(),
        }
    }

    /// Asks for a specific entity id, which must have been reserved by this
    /// worker for the creation to succeed.
    pub fn set_entity_id(self, entity_id: EntityId) -> (r: EntityTemplate)
        ensures
            r.requested_id() == Some(entity_id),
            r.component_snapshots() == self.component_snapshots(),
            r.read_attributes() == self.read_attributes(),
            r.write_attributes() == self.write_attributes(),
    {
        EntityTemplate {
            entity_id: Some(entity_id),
            data: self.data,
            read_access: self.read_access,
            write_access: self.write_access,
        }
    }

    /// Adds a component with its initial snapshot and write access; a write
    /// constraint matching no workers records no write attribute.
    pub fn with_component(
        self,
        write_access: Worker,
        component_id: ComponentId,
        snapshot: Vec<i64>,
    ) -> (r: EntityTemplate)
        ensures
            r.requested_id() == self.requested_id(),
            r.component_snapshots() == self.component_snapshots().push((component_id, snapshot)),
            r.read_attributes() == self.read_attributes(),
            match write_access {
                Worker::Nobody => r.write_attributes() == self.write_attributes(),
                _ => r.write_attributes().len() == self.write_attributes().len() + 1
                    && r.write_attributes().last().0 == component_id,
            },
    {
        let mut r = self;
        match write_access.get_attribute_string() {
            Some(attribute) => {
                r.write_access.push((component_id, attribute));
            },
            None => {},
        }
        r.data.push((component_id, snapshot));
        r
    }
}

} // verus!
