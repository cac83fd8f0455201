//! The layers of a drawing.

use vstd::prelude::*;

verus! {

/// A rendering layer. Layers are keys only: they say which group a shape is drawn
/// into, which style it takes and in which order the groups are written.
#[derive(Copy, Clone, Debug, Hash, Eq, PartialEq, Structural)]
pub enum Layer {
    Building,
    Road,
    Coastline,
    Park,
    ParkPath,
    ParkBuilding,
    Subway,
}

/// The number of layers.
pub const LAYER_COUNT: usize = 7;

impl Layer {
    /// The position of a layer in the order in which the layers are declared.
    pub open spec fn spec_index(self) -> int {
        match self {
            Layer::Building => 0,
            Layer::Road => 1,
            Layer::Coastline => 2,
            Layer::Park => 3,
            Layer::ParkPath => 4,
            Layer::ParkBuilding => 5,
            Layer::Subway => 6,
        }
    }

    /// The layer at a position; positions past the last give the last layer.
    pub open spec fn spec_at(position: int) -> Layer {
        if position <= 0 {
            Layer::Building
        } else if position == 1 {
            Layer::Road
        } else if position == 2 {
            Layer::Coastline
        } else if position == 3 {
            Layer::Park
        } else if position == 4 {
            Layer::ParkPath
        } else if position == 5 {
            Layer::ParkBuilding
        } else {
            Layer::Subway
        }
    }

    /// The position of a layer in the order in which the layers are declared.
    pub fn index(self) -> (position: usize)
        ensures
            position == self.spec_index(),
            position < LAYER_COUNT,
            Layer::spec_at(position as int) == self,
    {
        match self {
            Layer::Building => 0,
            Layer::Road => 1,
            Layer::Coastline => 2,
            Layer::Park => 3,
            Layer::ParkPath => 4,
            Layer::ParkBuilding => 5,
            Layer::Subway => 6,
        }
    }
}

/// Every layer has a position of its own below `LAYER_COUNT`, and is the layer at
/// that position.
pub proof fn layer_positions(layer: Layer)
    ensures
        0 <= layer.spec_index() < LAYER_COUNT,
        Layer::spec_at(layer.spec_index()) == layer,
{
}

} // verus!
