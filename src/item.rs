//! A narrative item record kept in the document store.
use vstd::prelude::*;

verus! {

/// A character's narrative record. `id` is the 12-byte identifier that the
/// document store assigns; a record not yet stored has none.
#[derive(Debug, Clone)]
pub struct Item {
    pub id: Option<[u8; 12]>,
    pub character_name: String,
    pub world_lore: String,
}

impl Item {
    /// A record not yet stored.
    pub fn new(character_name: String, world_lore: String) -> (r: Item)
        ensures
            r.id.is_none(),
            r.character_name@ == character_name@,
            r.world_lore@ == world_lore@,
    {
        Item { id: None, character_name, world_lore }
    }
}

} // verus!
