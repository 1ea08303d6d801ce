use vstd::prelude::*;

verus! {

/// The tessellation densities a patch can be drawn with.
#[derive(Clone, Copy, Debug, PartialEq, Eq, Structural)]
pub enum TerrainLod {
    Standard,
    Coarse,
    VeryCoarse,
}

impl TerrainLod {
    /// The sampling step, in vertices, of the topology that stands for this level.
    pub open spec fn spec_resolution(self) -> u32 {
        match self {
            TerrainLod::Standard => 1,
            TerrainLod::Coarse => 4,
            TerrainLod::VeryCoarse => 8,
        }
    }

    /// The sampling step of this level's topology: 1, 4 or 8.
    #[verifier::when_used_as_spec(spec_resolution)]
    pub fn resolution(self) -> (r: u32)
        ensures
            r == self.spec_resolution(),
    {
        match self {
            TerrainLod::Standard => 1,
            TerrainLod::Coarse => 4,
            TerrainLod::VeryCoarse => 8,
        }
    }
}

} // verus!
