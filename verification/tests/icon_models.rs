use hexagon_launcher::model::{model_for_app, model_from_icon, model_or_hexagon, IconKind, ModelKind};

#[test]
fn icon_models() {
    assert_eq!(model_from_icon(IconKind::Png), ModelKind::IconOnHexagon);
    assert_eq!(model_from_icon(IconKind::Gltf), ModelKind::IconModel);
}

#[test]
fn app_models_with_required_icon_handling() {
    assert_eq!(model_for_app(None), ModelKind::Hexagon);
    assert_eq!(model_for_app(Some(IconKind::Png)), ModelKind::IconOnHexagon);
    assert_eq!(model_for_app(Some(IconKind::Gltf)), ModelKind::IconModel);
}

#[test]
fn app_models_falling_back_on_hexagon() {
    assert_eq!(model_or_hexagon(None), ModelKind::Hexagon);
    assert_eq!(model_or_hexagon(Some(IconKind::Svg)), ModelKind::Hexagon);
    assert_eq!(model_or_hexagon(Some(IconKind::Png)), ModelKind::IconOnHexagon);
    assert_eq!(model_or_hexagon(Some(IconKind::Gltf)), ModelKind::IconModel);
}
