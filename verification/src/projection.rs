use vstd::prelude::*;

verus! {

/// Map projections offered for the planet view.
#[derive(Clone, Copy, Debug, PartialEq, Eq, Structural)]
pub enum ProjectionKind {
    Orthographic,
    Equirectangular,
    Mercator,
    Mollweide,
    Sinusoidal,
    AzimuthalEquidistant,
    Hammer,
    HEALPix,
    Cassini,
    TransverseMercator,
    LambertAzimuthalEqualArea,
    PeirceQuincuncial,
}

impl ProjectionKind {
    /// Number the map shader uses for this projection; orthographic views are
    /// drawn with the equirectangular shader.
    pub open spec fn shader_number(self) -> int {
        match self {
            ProjectionKind::Orthographic => 0,
            ProjectionKind::Equirectangular => 0,
            ProjectionKind::Mercator => 1,
            ProjectionKind::Mollweide => 2,
            ProjectionKind::Sinusoidal => 3,
            ProjectionKind::AzimuthalEquidistant => 4,
            ProjectionKind::Hammer => 5,
            ProjectionKind::HEALPix => 6,
            ProjectionKind::Cassini => 7,
            ProjectionKind::TransverseMercator => 8,
            ProjectionKind::LambertAzimuthalEqualArea => 9,
            ProjectionKind::PeirceQuincuncial => 10,
        }
    }

    /// Name shown to the user.
    pub open spec fn label_text(self) -> Seq<char> {
        match self {
            ProjectionKind::Orthographic => "Orthographic"@,
            ProjectionKind::Equirectangular => "Equirectangular"@,
            ProjectionKind::Mercator => "Mercator"@,
            ProjectionKind::Mollweide => "Mollweide"@,
            ProjectionKind::Sinusoidal => "Sinusoidal"@,
            ProjectionKind::AzimuthalEquidistant => "Azimuthal Equidistant"@,
            ProjectionKind::Hammer => "Hammer"@,
            ProjectionKind::HEALPix => "HEALPix"@,
            ProjectionKind::Cassini => "Cassini"@,
            ProjectionKind::TransverseMercator => "UTM"@,
            ProjectionKind::LambertAzimuthalEqualArea => "Lambert Azimuthal"@,
            ProjectionKind::PeirceQuincuncial => "Peirce Quincuncial"@,
        }
    }

    /// Number the map shader uses for this projection.
    pub fn shader_id(&self) -> (id: i32)
        ensures
            id as int == self.shader_number(),
            *self == ProjectionKind::Orthographic ==> id == 0,
            *self == ProjectionKind::Equirectangular ==> id == 0,
            *self == ProjectionKind::Mercator ==> id == 1,
            *self == ProjectionKind::Mollweide ==> id == 2,
            *self == ProjectionKind::Sinusoidal ==> id == 3,
            *self == ProjectionKind::AzimuthalEquidistant ==> id == 4,
            *self == ProjectionKind::Hammer ==> id == 5,
            *self == ProjectionKind::HEALPix ==> id == 6,
            *self == ProjectionKind::Cassini ==> id == 7,
            *self == ProjectionKind::TransverseMercator ==> id == 8,
            *self == ProjectionKind::LambertAzimuthalEqualArea ==> id == 9,
            *self == ProjectionKind::PeirceQuincuncial ==> id == 10,
    {
        match self {
            ProjectionKind::Orthographic | ProjectionKind::Equirectangular => 0,
            ProjectionKind::Mercator => 1,
            ProjectionKind::Mollweide => 2,
            ProjectionKind::Sinusoidal => 3,
            ProjectionKind::AzimuthalEquidistant => 4,
            ProjectionKind::Hammer => 5,
            ProjectionKind::HEALPix => 6,
            ProjectionKind::Cassini => 7,
            ProjectionKind::TransverseMercator => 8,
            ProjectionKind::LambertAzimuthalEqualArea => 9,
            ProjectionKind::PeirceQuincuncial => 10,
        }
    }

    pub fn label(&self) -> (s: &'static str)
        ensures
            s@ == self.label_text(),
    {
        match self {
            ProjectionKind::Orthographic => "Orthographic",
            ProjectionKind::Equirectangular => "Equirectangular",
            ProjectionKind::Mercator => "Mercator",
            ProjectionKind::Mollweide => "Mollweide",
            ProjectionKind::Sinusoidal => "Sinusoidal",
            ProjectionKind::AzimuthalEquidistant => "Azimuthal Equidistant",
            ProjectionKind::Hammer => "Hammer",
            ProjectionKind::HEALPix => "HEALPix",
            ProjectionKind::Cassini => "Cassini",
            ProjectionKind::TransverseMercator => "UTM",
            ProjectionKind::LambertAzimuthalEqualArea => "Lambert Azimuthal",
            ProjectionKind::PeirceQuincuncial => "Peirce Quincuncial",
        }
    }
}


/// Shader numbers lie in `0..=10`, and two projections share one only when
/// they are the same projection or both are drawn with the equirectangular
/// shader (orthographic and equirectangular).
pub proof fn lemma_shader_numbers_distinct(a: ProjectionKind, b: ProjectionKind)
    ensures
        0 <= a.shader_number() <= 10,
        a.shader_number() == b.shader_number() <==> (a == b || (a.shader_number() == 0 && b.shader_number() == 0)),
        a.shader_number() == 0 <==> (a == ProjectionKind::Orthographic || a == ProjectionKind::Equirectangular),
{
}

/// The shader numbers, projection by projection: orthographic and
/// equirectangular 0, Mercator 1, Mollweide 2, sinusoidal 3, azimuthal
/// equidistant 4, Hammer 5, HEALPix 6, Cassini 7, transverse Mercator 8,
/// Lambert azimuthal equal-area 9, Peirce quincuncial 10.
pub proof fn lemma_shader_number_table()
    ensures
        ProjectionKind::Orthographic.shader_number() == 0,
        ProjectionKind::Equirectangular.shader_number() == 0,
        ProjectionKind::Mercator.shader_number() == 1,
        ProjectionKind::Mollweide.shader_number() == 2,
        ProjectionKind::Sinusoidal.shader_number() == 3,
        ProjectionKind::AzimuthalEquidistant.shader_number() == 4,
        ProjectionKind::Hammer.shader_number() == 5,
        ProjectionKind::HEALPix.shader_number() == 6,
        ProjectionKind::Cassini.shader_number() == 7,
        ProjectionKind::TransverseMercator.shader_number() == 8,
        ProjectionKind::LambertAzimuthalEqualArea.shader_number() == 9,
        ProjectionKind::PeirceQuincuncial.shader_number() == 10,
{
}

} // verus!
