//! The category and label that the user is in at present.

use vstd::prelude::*;
use vstd::string::StringExecFns;
use crate::store::Store;

verus! {

/// The category and label that the user is in at present. It has no
/// times: it is the template from which filler blocks are made.
#[derive(Debug, PartialEq, Eq)]
pub struct CurrentBlock {
    pub block_type_id: u8,
    pub current_block_name: String,
}

impl Clone for CurrentBlock {
    fn clone(&self) -> (copy: Self)
        ensures
            copy == *self,
    {
        CurrentBlock {
            block_type_id: self.block_type_id,
            current_block_name: self.current_block_name.clone(),
        }
    }
}

/// Whether `current` is what `CurrentBlock::get` answers with where the
/// store holds `held`: what is held or, where nothing is, the first-setup
/// value.
pub open spec fn is_current_of(held: Option<CurrentBlock>, current: CurrentBlock) -> bool {
    match held {
        Some(block) => current == block,
        None => current.is_first_setup(),
    }
}

impl CurrentBlock {
    /// Whether a value is the one that a store without a current block
    /// answers with: the reserved category `0` and a greeting.
    pub open spec fn is_first_setup(self) -> bool {
        &&& self.block_type_id == 0
        &&& self.current_block_name@ == "Hello for first setup"@
    }

    /// The current block of the store, or the first-setup value where the
    /// store has none.
    pub fn get(store: &Store) -> (current: CurrentBlock)
        ensures
            is_current_of(store.current_block(), current),
    {
        match store.current() {
            Some(held) => held.clone(),
            None => CurrentBlock {
                block_type_id: 0,
                current_block_name: String::from_str("Hello for first setup"),
            },
        }
    }

    /// Makes this value the current block of the store, in place of
    /// whatever was there.
    pub fn save(&self, store: &mut Store)
        ensures
            final(store).current_block() == Some(*self),
            final(store).days() == old(store).days(),
            final(store).block_types() == old(store).block_types(),
    {
        store.set_current(self.clone());
    }
}

} // verus!
