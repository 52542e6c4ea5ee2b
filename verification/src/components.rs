//! Plain component and marker types of the engine.
use vstd::prelude::*;

verus! {

/// Marks the entity the player controls.
#[derive(Debug, Clone, Copy, Default, PartialEq, Eq, Structural)]
pub struct Player;

/// Marks an entity that carries a collider.
#[derive(Debug, Clone, Copy, Default, PartialEq, Eq, Structural)]
pub struct HasCollider;

/// The medium that fills a space and carries sound.
#[derive(Debug, Clone, Copy, PartialEq, Eq, Hash, Structural)]
pub enum MediumType {
    Air,
    Water,
}

impl Default for MediumType {
    /// Spaces are filled with air unless said otherwise.
    fn default() -> (m: Self)
        ensures
            m == MediumType::Air,
    {
        MediumType::Air
    }
}

/// The medium an entity is currently in.
#[derive(Debug, Clone, Copy, Default, PartialEq, Eq, Structural)]
pub struct CurrentMedium {
    pub medium: MediumType,
}

/// The name of the world entity that an entity hangs under.
#[derive(Debug, Clone, Default)]
pub struct WorldParent(pub String);

/// The name of the medium that a medium volume has when its description
/// names none.
pub fn default_medium() -> (name: String)
    ensures
        name@ == "air"@,
{
    "air".to_string()
}

/// The medium a world description names: `"water"` is water, any other
/// name is air.
pub fn medium_from_name(name: &str) -> (m: MediumType)
    ensures
        m == (if name@ == "water"@ {
            MediumType::Water
        } else {
            MediumType::Air
        }),
{
    let given = name.to_owned();
    let water = "water".to_string();
    if given == water {
        MediumType::Water
    } else {
        MediumType::Air
    }
}

} // verus!
