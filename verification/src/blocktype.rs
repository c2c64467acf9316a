//! The catalog of categories.

use vstd::prelude::*;
use vstd::string::StringExecFns;
use crate::error::{Error, ErrorType};
use crate::store::Store;
use crate::sync::Sync;

verus! {

/// A colour as red, green and blue.
#[derive(Debug, Clone, Copy, PartialEq, Eq, Structural)]
pub struct Color {
    pub r: u8,
    pub g: u8,
    pub b: u8,
}

/// An entry of the category catalog.
#[derive(Debug)]
pub struct BlockType {
    pub id: u8,
    pub name: String,
    pub color: Color,
}

/// A category that has no identifier yet.
#[derive(Debug)]
pub struct NewBlockType {
    pub name: String,
    pub color: Color,
}

/// The catalog as it comes in to be merged.
pub type SyncBlockType = Vec<BlockType>;

impl Clone for BlockType {
    fn clone(&self) -> (copy: Self)
        ensures
            copy == *self,
    {
        BlockType { id: self.id, name: self.name.clone(), color: self.color }
    }
}

impl PartialEq for BlockType {
    fn eq(&self, other: &Self) -> (equal: bool) {
        self.id == other.id && self.name == other.name && self.color == other.color
    }
}

impl vstd::std_specs::cmp::PartialEqSpecImpl for BlockType {
    open spec fn obeys_eq_spec() -> bool {
        true
    }

    /// Two entries are the same when they have the same identifier, the
    /// same name, letter for letter, and the same colour.
    open spec fn eq_spec(&self, other: &Self) -> bool {
        self.id == other.id && self.name@ == other.name@ && self.color == other.color
    }
}

/// Whether two entries have the same identifier, name and colour.
pub open spec fn same_type(first: BlockType, second: BlockType) -> bool {
    first.id == second.id && first.name@ == second.name@ && first.color == second.color
}

/// Whether some entry of the catalog is the same as the one after it.
pub open spec fn spec_check_identical(blocktypes: Seq<BlockType>) -> bool {
    exists|i: int|
        0 <= i < blocktypes.len() - 1 && same_type(#[trigger] blocktypes[i], blocktypes[i + 1])
}

/// Whether some entry of the catalog is the same as `entry`.
pub open spec fn holds_type(blocktypes: Seq<BlockType>, entry: BlockType) -> bool {
    exists|i: int| 0 <= i < blocktypes.len() && same_type(#[trigger] blocktypes[i], entry)
}

/// The greatest identifier of the catalog: `0` for an empty catalog.
pub open spec fn greatest_id(blocktypes: Seq<BlockType>) -> int
    decreases blocktypes.len(),
{
    if blocktypes.len() == 0 {
        0
    } else {
        let before = greatest_id(blocktypes.drop_last());
        if blocktypes.last().id > before {
            blocktypes.last().id as int
        } else {
            before
        }
    }
}

/// The catalog with the incoming entries added at its end, in their
/// order, but for those that the catalog holds by then.
pub open spec fn merged(blocktypes: Seq<BlockType>, incoming: Seq<BlockType>) -> Seq<BlockType>
    decreases incoming.len(),
{
    if incoming.len() == 0 {
        blocktypes
    } else {
        let before = merged(blocktypes, incoming.drop_last());
        if holds_type(before, incoming.last()) {
            before
        } else {
            before.push(incoming.last())
        }
    }
}

/// The catalog that a store without one starts with: the reserved system
/// category alone.
pub open spec fn is_first_catalog(blocktypes: Seq<BlockType>) -> bool {
    &&& blocktypes.len() == 1
    &&& blocktypes[0].id == 0
    &&& blocktypes[0].name@ == "System"@
    &&& blocktypes[0].color == Color { r: 0, g: 0, b: 255 }
}

/// Whether `catalog` is what `BlockType::load` answers with where the
/// store holds `held`: what is held or, where nothing is, the first
/// catalog.
pub open spec fn is_catalog_of(held: Option<Vec<BlockType>>, catalog: Seq<BlockType>) -> bool {
    match held {
        Some(types) => catalog == types@,
        None => is_first_catalog(catalog),
    }
}

/// Whether `written` and `result` are what merging `incoming` into the
/// catalog `loaded` leaves: the merged catalog or, where two neighbouring
/// entries of that are the same, `loaded` and the error.
pub open spec fn synced_catalog(
    loaded: Seq<BlockType>,
    incoming: Seq<BlockType>,
    written: Option<Vec<BlockType>>,
    result: Result<(), Error>,
) -> bool {
    &&& written is Some
    &&& if spec_check_identical(merged(loaded, incoming)) {
        result == Err::<(), Error>(Error { error_type: ErrorType::IdenticalBlockType })
            && written->0@ == loaded
    } else {
        result == Ok::<(), Error>(()) && written->0@ == merged(loaded, incoming)
    }
}

/// Adding an entry that gets the next free identifier.
pub trait PushNew<T> {
    /// Whether there is an identifier left for one more entry.
    spec fn has_room(&self) -> bool;

    /// Adds `new` at the end, under an identifier one greater than the
    /// greatest that is there.
    fn push_new(&mut self, new: T)
        requires
            old(self).has_room(),
    ;
}

impl PushNew<NewBlockType> for Vec<BlockType> {
    open spec fn has_room(&self) -> bool {
        greatest_id(self@) < 255
    }

    fn push_new(&mut self, new: NewBlockType)
        ensures
            final(self)@ == old(self)@.push(
                BlockType {
                    id: (greatest_id(old(self)@) + 1) as u8,
                    name: new.name,
                    color: new.color,
                },
            ),
    {
        let id: u8 = find_greatest_id(self) + 1;
        let blocktype = BlockType { id, name: new.name, color: new.color };
        self.push(blocktype);
    }
}

/// The greatest identifier of the catalog: `0` for an empty catalog.
pub fn find_greatest_id(blocktypes: &Vec<BlockType>) -> (greatest: u8)
    ensures
        greatest == greatest_id(blocktypes@),
{
    let mut greatest: u8 = 0;
    let mut i: usize = 0;
    while i < blocktypes.len()
        invariant
            i <= blocktypes@.len(),
            greatest == greatest_id(blocktypes@.subrange(0, i as int)),
        decreases blocktypes@.len() - i,
    {
        proof {
            let grown = blocktypes@.subrange(0, i + 1);
            assert(grown.drop_last() == blocktypes@.subrange(0, i as int));
        }
        if blocktypes[i].id > greatest {
            greatest = blocktypes[i].id;
        }
        i += 1;
    }
    assert(blocktypes@.subrange(0, blocktypes@.len() as int) == blocktypes@);
    greatest
}

/// Whether some entry of the catalog is the same as `entry`.
pub fn contains_type(blocktypes: &Vec<BlockType>, entry: &BlockType) -> (found: bool)
    ensures
        found == holds_type(blocktypes@, *entry),
{
    let mut i: usize = 0;
    while i < blocktypes.len()
        invariant
            i <= blocktypes@.len(),
            forall|k: int| 0 <= k < i ==> !same_type(#[trigger] blocktypes@[k], *entry),
        decreases blocktypes@.len() - i,
    {
        if blocktypes[i] == *entry {
            return true;
        }
        i += 1;
    }
    false
}

/// A copy of the catalog.
pub fn clone_types(blocktypes: &[BlockType]) -> (copy: Vec<BlockType>)
    ensures
        copy@ == blocktypes@,
{
    let mut copy: Vec<BlockType> = Vec::new();
    let mut i: usize = 0;
    while i < blocktypes.len()
        invariant
            i <= blocktypes@.len(),
            copy@ == blocktypes@.subrange(0, i as int),
        decreases blocktypes@.len() - i,
    {
        copy.push(blocktypes[i].clone());
        assert(blocktypes@.subrange(0, i as int).push(blocktypes@[i as int])
            == blocktypes@.subrange(0, i + 1));
        i += 1;
    }
    assert(blocktypes@.subrange(0, blocktypes@.len() as int) == blocktypes@);
    copy
}

impl BlockType {
    /// Makes `types` the catalog of the store, unless two neighbouring
    /// entries of it are the same: then the store is left as it was.
    pub fn save(store: &mut Store, types: &[Self]) -> (result: Result<(), Error>)
        ensures
            spec_check_identical(types@) ==> result == Err::<(), Error>(
                Error { error_type: ErrorType::IdenticalBlockType },
            ) && *final(store) == *old(store),
            !spec_check_identical(types@) ==> result == Ok::<(), Error>(())
                && final(store).block_types() is Some
                && final(store).block_types()->0@ == types@,
            final(store).days() == old(store).days(),
            final(store).current_block() == old(store).current_block(),
    {
        if Self::check_identical(types) {
            return Err(Error::new(ErrorType::IdenticalBlockType));
        }
        store.set_catalog(clone_types(types));
        Ok(())
    }

    /// The catalog of the store. A store without one gets the first
    /// catalog, which is the reserved system category alone.
    pub fn load(store: &mut Store) -> (blocktypes: Vec<Self>)
        ensures
            is_catalog_of(old(store).block_types(), blocktypes@),
            old(store).block_types() is Some ==> *final(store) == *old(store),
            final(store).block_types() is Some,
            final(store).block_types()->0@ == blocktypes@,
            final(store).days() == old(store).days(),
            final(store).current_block() == old(store).current_block(),
    {
        match store.catalog() {
            Some(held) => clone_types(held.as_slice()),
            None => {
                let mut blocktypes: Vec<BlockType> = Vec::new();
                blocktypes.push(
                    BlockType {
                        id: 0,
                        name: String::from_str("System"),
                        color: Color { r: 0, g: 0, b: 255 },
                    },
                );
                store.set_catalog(clone_types(blocktypes.as_slice()));
                blocktypes
            },
        }
    }

    /// Whether some entry of the catalog is the same as the one after it.
    pub fn check_identical(blocktypes: &[Self]) -> (identical: bool)
        ensures
            identical == spec_check_identical(blocktypes@),
    {
        if blocktypes.len() < 2 {
            return false;
        }
        let mut i: usize = 0;
        while i < blocktypes.len() - 1
            invariant
                blocktypes@.len() >= 2,
                i <= blocktypes@.len() - 1,
                forall|k: int|
                    0 <= k < i ==> !same_type(#[trigger] blocktypes@[k], blocktypes@[k + 1]),
            decreases blocktypes@.len() - i,
        {
            if blocktypes[i] == blocktypes[i + 1] {
                return true;
            }
            i += 1;
        }
        false
    }
}

impl Sync<SyncBlockType> for BlockType {
    /// Adds to the catalog of the store, at its end and in their order,
    /// the incoming entries that it does not hold yet. Where two
    /// neighbouring entries of the result are the same, nothing is
    /// written but the first catalog of a store that had none.
    fn sync(store: &mut Store, incoming_data: SyncBlockType) -> (result: Result<(), Error>)
        ensures
            exists|loaded: Seq<BlockType>| #[trigger]
                is_catalog_of(old(store).block_types(), loaded) && synced_catalog(
                    loaded,
                    incoming_data@,
                    final(store).block_types(),
                    result,
                ),
            final(store).days() == old(store).days(),
            final(store).current_block() == old(store).current_block(),
    {
        let mut blocktypes = BlockType::load(store);
        let ghost loaded = blocktypes@;
        let mut i: usize = 0;
        while i < incoming_data.len()
            invariant
                i <= incoming_data@.len(),
                blocktypes@ == merged(loaded, incoming_data@.subrange(0, i as int)),
            decreases incoming_data@.len() - i,
        {
            proof {
                let grown = incoming_data@.subrange(0, i + 1);
                assert(grown.drop_last() == incoming_data@.subrange(0, i as int));
            }
            if !contains_type(&blocktypes, &incoming_data[i]) {
                blocktypes.push(incoming_data[i].clone());
            }
            i += 1;
        }
        assert(incoming_data@.subrange(0, incoming_data@.len() as int) == incoming_data@);
        let result = BlockType::save(store, blocktypes.as_slice());
        assert(is_catalog_of(old(store).block_types(), loaded) && synced_catalog(
            loaded,
            incoming_data@,
            store.block_types(),
            result,
        ));
        result
    }
}

} // verus!
