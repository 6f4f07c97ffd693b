//! The definition table: the layout that is active on each local channel.

use vstd::prelude::*;
use crate::definition::{Definition, DefinitionView};
use crate::error::ErrorKind;

verus! {

/// One slot for each of the sixteen local channels. A channel holds the
/// definition that was registered on it last, and nothing of earlier ones.
pub struct DefinitionTable {
    slots: Vec<Option<Definition>>,
}

impl View for DefinitionTable {
    type V = Map<u8, DefinitionView>;

    /// The channels that have a definition, each with its definition.
    closed spec fn view(&self) -> Map<u8, DefinitionView> {
        Map::new(
            |local: u8| local < self.slots@.len() && self.slots@[local as int] is Some,
            |local: u8| self.slots@[local as int]->Some_0@,
        )
    }
}

impl DefinitionTable {
    /// The table has its sixteen slots.
    pub closed spec fn wf(&self) -> bool {
        self.slots@.len() == 16
    }

    /// A table in which no channel has a definition.
    pub fn new() -> (table: DefinitionTable)
        ensures
            table.wf(),
            table@ == Map::<u8, DefinitionView>::empty(),
    {
        let mut slots: Vec<Option<Definition>> = Vec::new();
        let mut i: usize = 0;
        while i < 16
            invariant
                i <= 16,
                slots@.len() == i,
                forall|j: int| 0 <= j < i ==> slots@[j] is None,
            decreases 16 - i,
        {
            slots.push(None);
            i = i + 1;
        }
        let table = DefinitionTable { slots };
        proof {
            assert(table@ =~= Map::<u8, DefinitionView>::empty());
        }
        table
    }

    /// Makes `definition` the active definition of channel `local`. Whatever
    /// the channel held before is gone.
    pub fn define(&mut self, local: u8, definition: Definition)
        requires
            old(self).wf(),
            local < 16,
        ensures
            final(self).wf(),
            final(self)@ == old(self)@.insert(local, definition@),
    {
        self.slots.set(local as usize, Some(definition));
        proof {
            assert(final(self)@ =~= old(self)@.insert(local, definition@));
        }
    }

    /// The active definition of channel `local`. A channel without one is an
    /// error that names the channel and `position`, the offset of the record
    /// that asked.
    pub fn lookup(&self, local: u8, position: usize) -> (result: Result<&Definition, ErrorKind>)
        requires
            self.wf(),
        ensures
            match result {
                Ok(definition) => self@.contains_key(local) && self@[local] == definition@,
                Err(error) => {
                    &&& !self@.contains_key(local)
                    &&& error == ErrorKind::MissingDefinitionMessage(local, position)
                },
            },
    {
        if local >= 16 {
            return Err(ErrorKind::MissingDefinitionMessage(local, position));
        }
        match &self.slots[local as usize] {
            Some(definition) => Ok(definition),
            None => Err(ErrorKind::MissingDefinitionMessage(local, position)),
        }
    }
}

} // verus!
