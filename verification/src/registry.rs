//! The developer field registry: what the stream itself has declared about
//! developer fields so far.

use std::collections::HashMap;
use vstd::prelude::*;
use crate::error::ErrorKind;
use crate::value::{width_of, BaseType};

verus! {

broadcast use vstd::std_specs::hash::group_hash_axioms;

/// What a field description message declares: the base type of one
/// developer field.
#[derive(Clone, Copy, Debug, PartialEq, Eq)]
pub struct FieldDescription {
    /// The developer registration that the field belongs to.
    pub developer_index: u8,
    /// The field definition number.
    pub number: u8,
    /// How the field's bytes are to be read.
    pub base_type: BaseType,
}

/// What a developer data id message declares: who a developer data index
/// stands for.
#[derive(Clone, Debug, PartialEq, Eq)]
pub struct DeveloperDataId {
    /// The developer data index.
    pub developer_index: u8,
    /// The bytes of the application id.
    pub application_id: Vec<u8>,
}

/// The key under which the description of a developer field is kept.
pub open spec fn key_of(developer_index: u8, number: u8) -> u16 {
    (developer_index * 256 + number) as u16
}

/// The registrations seen so far in a decode session.
pub struct DeveloperFieldRegistry {
    ids: HashMap<u8, DeveloperDataId>,
    descriptions: HashMap<u16, BaseType>,
}

impl DeveloperFieldRegistry {
    /// The base type of each described field, by developer data index and
    /// field definition number.
    pub closed spec fn descriptions(&self) -> Map<(u8, u8), BaseType> {
        Map::new(
            |key: (u8, u8)| self.descriptions@.contains_key(key_of(key.0, key.1)),
            |key: (u8, u8)| self.descriptions@[key_of(key.0, key.1)],
        )
    }

    /// The application id of each registered developer data index.
    pub closed spec fn ids(&self) -> Map<u8, Seq<u8>> {
        Map::new(
            |index: u8| self.ids@.contains_key(index),
            |index: u8| self.ids@[index].application_id@,
        )
    }

    /// A registry that knows of no developer and no field.
    pub fn new() -> (registry: DeveloperFieldRegistry)
        ensures
            registry.descriptions() == Map::<(u8, u8), BaseType>::empty(),
            registry.ids() == Map::<u8, Seq<u8>>::empty(),
    {
        let registry = DeveloperFieldRegistry { ids: HashMap::new(), descriptions: HashMap::new() };
        proof {
            assert(registry.descriptions() =~= Map::<(u8, u8), BaseType>::empty());
            assert(registry.ids() =~= Map::<u8, Seq<u8>>::empty());
        }
        registry
    }

    /// Records who a developer data index stands for, in place of whatever
    /// was recorded for that index before.
    pub fn register_developer_id(&mut self, entry: DeveloperDataId)
        ensures
            final(self).ids() == old(self).ids().insert(
                entry.developer_index,
                entry.application_id@,
            ),
            final(self).descriptions() == old(self).descriptions(),
    {
        let ghost index = entry.developer_index;
        let ghost bytes = entry.application_id@;
        self.ids.insert(entry.developer_index, entry);
        proof {
            assert(final(self).ids() =~= old(self).ids().insert(index, bytes));
        }
    }

    /// Records the base type of a developer field, in place of whatever was
    /// recorded for that field before.
    pub fn register_field_description(&mut self, entry: FieldDescription)
        ensures
            final(self).descriptions() == old(self).descriptions().insert(
                (entry.developer_index, entry.number),
                entry.base_type,
            ),
            final(self).ids() == old(self).ids(),
    {
        let key: u16 = entry.developer_index as u16 * 256 + entry.number as u16;
        self.descriptions.insert(key, entry.base_type);
        proof {
            assert forall|other: (u8, u8)|
                key_of(other.0, other.1) == key implies other == (
                entry.developer_index,
                entry.number,
            ) by {}
            assert(final(self).descriptions() =~= old(self).descriptions().insert(
                (entry.developer_index, entry.number),
                entry.base_type,
            ));
        }
    }

    /// The element width and base type of a developer field. A field that no
    /// field description has declared yet is an error.
    pub fn resolve(&self, developer_index: u8, number: u8) -> (result: Result<
        (usize, BaseType),
        ErrorKind,
    >)
        ensures
            match result {
                Ok((width, base_type)) => {
                    &&& self.descriptions().contains_key((developer_index, number))
                    &&& base_type == self.descriptions()[(developer_index, number)]
                    &&& width == width_of(base_type)
                },
                Err(error) => {
                    &&& !self.descriptions().contains_key((developer_index, number))
                    &&& error == ErrorKind::MissingDeveloperDefinitionMessage()
                },
            },
    {
        let key: u16 = developer_index as u16 * 256 + number as u16;
        match self.descriptions.get(&key) {
            Some(base_type) => Ok((base_type.width(), *base_type)),
            None => Err(ErrorKind::MissingDeveloperDefinitionMessage()),
        }
    }

    /// The application id registered for a developer data index, if any.
    pub fn application_id(&self, developer_index: u8) -> (result: Option<&Vec<u8>>)
        ensures
            match result {
                Some(bytes) => {
                    &&& self.ids().contains_key(developer_index)
                    &&& bytes@ == self.ids()[developer_index]
                },
                None => !self.ids().contains_key(developer_index),
            },
    {
        match self.ids.get(&developer_index) {
            Some(entry) => Some(&entry.application_id),
            None => None,
        }
    }
}

} // verus!
