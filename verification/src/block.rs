use vstd::prelude::*;

verus! {

/// How the mesher generates faces for a block type.
#[derive(Debug, Clone, Copy, PartialEq, Eq, Structural)]
pub enum BlockModel {
    /// A unit cube: one axis-aligned quad per exposed side.
    Cube,
}

/// A registered block type: what the mesher needs to render it.
#[derive(Debug, Clone, Copy, PartialEq, Eq, Structural)]
pub struct Block {
    pub model: BlockModel,
}

} // verus!
