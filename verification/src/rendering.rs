//! The rendering modes and distance models of the spatial audio renderer.
use vstd::prelude::*;

verus! {

/// How a sound source is rendered.
#[allow(non_camel_case_types)]
#[derive(Debug, Clone, Copy, PartialEq, Eq, Structural)]
pub enum RenderingMode {
    kStereoPanning,
    kBinauralLowQuality,
    kBinauralMediumQuality,
    kBinauralHighQuality,
    kRoomEffectsOnly,
}

impl RenderingMode {
    /// The number that stands for this mode across the renderer's interface.
    pub fn code(&self) -> (c: i32)
        ensures
            c == match *self {
                RenderingMode::kStereoPanning => 0i32,
                RenderingMode::kBinauralLowQuality => 1i32,
                RenderingMode::kBinauralMediumQuality => 2i32,
                RenderingMode::kBinauralHighQuality => 3i32,
                RenderingMode::kRoomEffectsOnly => 4i32,
            },
    {
        match *self {
            RenderingMode::kStereoPanning => 0,
            RenderingMode::kBinauralLowQuality => 1,
            RenderingMode::kBinauralMediumQuality => 2,
            RenderingMode::kBinauralHighQuality => 3,
            RenderingMode::kRoomEffectsOnly => 4,
        }
    }
}

/// How a source's loudness falls off with distance.
#[allow(non_camel_case_types)]
#[derive(Debug, Clone, Copy, PartialEq, Eq, Structural)]
pub enum DistanceRolloffModel {
    kLogarithmic,
    kLinear,
    kNone,
}

impl DistanceRolloffModel {
    /// The number that stands for this model across the renderer's interface.
    pub fn code(&self) -> (c: i32)
        ensures
            c == match *self {
                DistanceRolloffModel::kLogarithmic => 0i32,
                DistanceRolloffModel::kLinear => 1i32,
                DistanceRolloffModel::kNone => 2i32,
            },
    {
        match *self {
            DistanceRolloffModel::kLogarithmic => 0,
            DistanceRolloffModel::kLinear => 1,
            DistanceRolloffModel::kNone => 2,
        }
    }
}

} // verus!
