//! What a renderer keeps about textures, and the marker of a graphics backend.

use std::collections::HashMap;
use vstd::prelude::*;

verus! {

/// The slot of a texture.
pub struct TextureId(pub usize);

/// A texture, known by its slot.
pub struct Texture {
    pub id: TextureId,
}

/// The textures in use: slot 0 is the default texture, which coloured primitives use.
pub struct TextureRegistry {
    /// The default texture.
    pub default: Texture,
    /// For each slot, the backend's id of its texture.
    pub slots: Vec<u32>,
    /// The next slot to give out.
    pub index: usize,
    /// From the backend's id of a texture to its slot.
    pub map: HashMap<u32, usize>,
}

impl TextureRegistry {
    /// A registry that holds the default texture alone.
    pub fn new() -> (registry: Self)
        ensures
            registry.default.id.0 == 0,
            registry.slots@ == Seq::<u32>::empty(),
            registry.index == 1,
            registry.map@ == Map::<u32, usize>::empty(),
    {
        TextureRegistry {
            default: Texture { id: TextureId(0) },
            slots: Vec::new(),
            index: 1,
            map: HashMap::new(),
        }
    }

    /// Forgets every texture but the default one: the next slot is 1 again.
    pub fn reset(&mut self)
        ensures
            final(self).index == 1,
            final(self).map@ == Map::<u32, usize>::empty(),
            final(self).slots == old(self).slots,
            final(self).default == old(self).default,
    {
        self.index = 1;
        self.map.clear();
    }
}

/// What a renderer draws through.
pub trait GraphicsBackend {

}

} // verus!
