use audioverse_core::components::{default_medium, medium_from_name, CurrentMedium, MediumType, WorldParent};
use audioverse_core::rendering::{DistanceRolloffModel, RenderingMode};

#[test]
fn medium_defaults_to_air() {
    assert_eq!(MediumType::default(), MediumType::Air);
    assert_eq!(CurrentMedium::default().medium, MediumType::Air);
    assert_eq!(default_medium(), "air");
}

#[test]
fn medium_names() {
    assert_eq!(medium_from_name("water"), MediumType::Water);
    assert_eq!(medium_from_name("air"), MediumType::Air);
    assert_eq!(medium_from_name("Water"), MediumType::Air);
    assert_eq!(medium_from_name(""), MediumType::Air);
    assert_eq!(medium_from_name(&default_medium()), MediumType::Air);
}

#[test]
fn world_parent_holds_name() {
    let p = WorldParent("house_1".to_string());
    assert_eq!(p.0, "house_1");
}

#[test]
fn renderer_codes() {
    assert_eq!(RenderingMode::kStereoPanning.code(), 0);
    assert_eq!(RenderingMode::kRoomEffectsOnly.code(), 4);
    assert_eq!(RenderingMode::kBinauralMediumQuality.code(), 2);
    assert_eq!(DistanceRolloffModel::kLogarithmic.code(), 0);
    assert_eq!(DistanceRolloffModel::kNone.code(), 2);
}
