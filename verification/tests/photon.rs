use clovers::wavelength::{random_wavelength, rotate_wavelength, Photon, MAX_WAVELENGTH, MIN_WAVELENGTH};
use rand::rngs::SmallRng;
use rand::SeedableRng;

#[test]
fn rotate_wavelength_spread() {
    let hero = 380;
    let rotations = rotate_wavelength(hero);
    let expected = [380, 480, 580, 680];
    assert_eq!(rotations, expected);
}

#[test]
fn rotate_wavelength_wraps_around() {
    let rotations = rotate_wavelength(700);
    assert_eq!(rotations, [700, 400, 500, 600]);
}

#[test]
fn rotate_wavelength_of_top_of_spectrum() {
    let rotations = rotate_wavelength(779);
    assert_eq!(rotations, [779, 479, 579, 679]);
}

#[test]
fn rotate_wavelength_above_spectrum_lands_inside() {
    // a hero outside the visible spectrum still yields visible wavelengths
    let rotations = rotate_wavelength(900);
    assert_eq!(rotations, [500, 600, 700, 400]);
    for w in rotations {
        assert!(w >= MIN_WAVELENGTH && w < MAX_WAVELENGTH);
    }
}

#[test]
fn rotation_of_rotation_is_cyclic_shift() {
    let first = rotate_wavelength(433);
    let again = rotate_wavelength(first[1]);
    assert_eq!(again, [first[1], first[2], first[3], first[0]]);
}

#[test]
fn random_wavelength_is_visible() {
    let mut rng = SmallRng::seed_from_u64(7);
    for _ in 0..1000 {
        let w = random_wavelength(&mut rng);
        assert!(w >= MIN_WAVELENGTH && w < MAX_WAVELENGTH);
        let photon = Photon { wavelength: w };
        assert_eq!(photon.wavelength, w);
    }
}

#[test]
fn random_wavelength_varies() {
    let mut rng = SmallRng::seed_from_u64(11);
    let first = random_wavelength(&mut rng);
    let mut seen_other = false;
    for _ in 0..100 {
        if random_wavelength(&mut rng) != first {
            seen_other = true;
        }
    }
    assert!(seen_other);
}
