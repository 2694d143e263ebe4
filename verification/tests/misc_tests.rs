use leo_viz::geo::dirs_cache;
use leo_viz::hashing::{pseudo_random_bits, simple_hash_bits};
use leo_viz::igrf::idx;
use leo_viz::projection::ProjectionKind;

#[test]
fn coefficient_index_packs_by_degree() {
    assert_eq!(idx(1, 0), 0);
    assert_eq!(idx(1, 1), 1);
    assert_eq!(idx(2, 0), 2);
    assert_eq!(idx(2, 2), 4);
    assert_eq!(idx(3, 0), 5);
    assert_eq!(idx(13, 13), 103);
}

#[test]
fn coefficient_index_has_no_gaps() {
    for n in 1..20usize {
        assert_eq!(idx(n + 1, 0), idx(n, n) + 1);
    }
}

#[test]
fn shader_ids() {
    assert_eq!(ProjectionKind::Orthographic.shader_id(), 0);
    assert_eq!(ProjectionKind::Equirectangular.shader_id(), 0);
    assert_eq!(ProjectionKind::Mercator.shader_id(), 1);
    assert_eq!(ProjectionKind::HEALPix.shader_id(), 6);
    assert_eq!(ProjectionKind::PeirceQuincuncial.shader_id(), 10);
}

#[test]
fn shader_ids_distinct_apart_from_equirectangular() {
    let all = [
        ProjectionKind::Orthographic,
        ProjectionKind::Equirectangular,
        ProjectionKind::Mercator,
        ProjectionKind::Mollweide,
        ProjectionKind::Sinusoidal,
        ProjectionKind::AzimuthalEquidistant,
        ProjectionKind::Hammer,
        ProjectionKind::HEALPix,
        ProjectionKind::Cassini,
        ProjectionKind::TransverseMercator,
        ProjectionKind::LambertAzimuthalEqualArea,
        ProjectionKind::PeirceQuincuncial,
    ];
    for a in all.iter() {
        for b in all.iter() {
            let same = a.shader_id() == b.shader_id();
            assert_eq!(same, a == b || (a.shader_id() == 0 && b.shader_id() == 0));
        }
    }
}

#[test]
fn projection_labels() {
    assert_eq!(ProjectionKind::TransverseMercator.label(), "UTM");
    assert_eq!(ProjectionKind::AzimuthalEquidistant.label(), "Azimuthal Equidistant");
    assert_eq!(ProjectionKind::LambertAzimuthalEqualArea.label(), "Lambert Azimuthal");
    assert_eq!(ProjectionKind::Orthographic.label(), "Orthographic");
}

#[test]
fn cache_dir_under_home() {
    assert_eq!(dirs_cache(Some("/home/ada")), "/home/ada/.cache");
    assert_eq!(dirs_cache(Some("/home/ada/")), "/home/ada/.cache");
    assert_eq!(dirs_cache(Some("")), ".cache");
    assert_eq!(dirs_cache(Some("/")), "/.cache");
    assert_eq!(dirs_cache(Some("/home/a:b")), "/home/a:b/.cache");
    assert_eq!(dirs_cache(Some("/home/a\\b")), "/home/a\\b/.cache");
}

#[test]
fn cache_dir_ends_with_cache_for_any_home() {
    for h in ["C:", "C:x", "//server/share", "\\\\?\\C:\\x", "x\\"] {
        assert!(dirs_cache(Some(h)).ends_with(".cache"));
    }
}

#[test]
fn cache_dir_without_home() {
    assert_eq!(dirs_cache(None), ".");
}

#[test]
fn debris_hash_bits() {
    assert_eq!(simple_hash_bits(0), 0);
    assert_eq!(simple_hash_bits(1), 12994781566227106604);
    assert_eq!(simple_hash_bits(42), 9297814886316923340);
}

#[test]
fn noise_bits() {
    assert_eq!(pseudo_random_bits(0), 724590575353766);
    assert_eq!(pseudo_random_bits(1), 3635787090397837);
    assert_eq!(pseudo_random_bits(12345), 4500433628322698);
    assert!(pseudo_random_bits(u64::MAX) < (1u64 << 52));
}

#[test]
fn cache_dir_under_drive_letter_home() {
    // a drive path is joined like any other base (here with the Unix separator)
    assert_eq!(dirs_cache(Some("C:\\Users\\me")), "C:\\Users\\me/.cache");
    assert_eq!(dirs_cache(Some("C:/Users/me")), "C:/Users/me/.cache");
}
