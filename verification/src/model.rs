use vstd::prelude::*;

verus! {

/// The kind of an application's icon file.
#[derive(Clone, Copy, Debug, PartialEq, Eq, Structural)]
pub enum IconKind {
    Png,
    Svg,
    Gltf,
}

/// The model that stands for an application.
#[derive(Clone, Copy, Debug, PartialEq, Eq, Structural)]
pub enum ModelKind {
    /// The icon file is itself a 3D model and is loaded as it is.
    IconModel,
    /// The hexagon model with the icon image as its texture.
    IconOnHexagon,
    /// The hexagon model alone.
    Hexagon,
}

/// The model for an icon of a kind that can be shown: a PNG image goes on the hexagon, a glTF
/// file is loaded as the model. An SVG icon is refused.
pub fn model_from_icon(kind: IconKind) -> (model: ModelKind)
    requires
        kind != IconKind::Svg,
    ensures
        kind == IconKind::Png ==> model == ModelKind::IconOnHexagon,
        kind == IconKind::Gltf ==> model == ModelKind::IconModel,
{
    match kind {
        IconKind::Png => ModelKind::IconOnHexagon,
        IconKind::Gltf => ModelKind::IconModel,
        IconKind::Svg => ModelKind::Hexagon,
    }
}

/// The model of an application whose icon must be shown when it has one: the hexagon alone
/// without an icon, otherwise the model for the icon, which may not be an SVG image.
pub fn model_for_app(icon: Option<IconKind>) -> (model: ModelKind)
    requires
        icon != Some(IconKind::Svg),
    ensures
        icon == None::<IconKind> ==> model == ModelKind::Hexagon,
        icon == Some(IconKind::Png) ==> model == ModelKind::IconOnHexagon,
        icon == Some(IconKind::Gltf) ==> model == ModelKind::IconModel,
{
    match icon {
        Some(kind) => model_from_icon(kind),
        None => ModelKind::Hexagon,
    }
}

/// The model of an application that falls back on the hexagon: a glTF icon is loaded as the
/// model, a PNG icon goes on the hexagon, and any other icon, or none, leaves the hexagon alone.
pub fn model_or_hexagon(icon: Option<IconKind>) -> (model: ModelKind)
    ensures
        icon == Some(IconKind::Gltf) ==> model == ModelKind::IconModel,
        icon == Some(IconKind::Png) ==> model == ModelKind::IconOnHexagon,
        icon != Some(IconKind::Gltf) && icon != Some(IconKind::Png) ==> model == ModelKind::Hexagon,
{
    match icon {
        Some(IconKind::Gltf) => ModelKind::IconModel,
        Some(IconKind::Png) => ModelKind::IconOnHexagon,
        _ => ModelKind::Hexagon,
    }
}

} // verus!
