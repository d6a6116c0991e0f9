//! The fundamental building blocks of spectral rendering: photons and wavelengths.
use crate::random::sample_single_usize;
use rand::rngs::SmallRng;
use vstd::prelude::*;
use vstd::arithmetic::div_mod::{lemma_add_mod_noop, lemma_mod_equivalence, lemma_mod_multiples_vanish};

verus! {

/// Wavelength in nanometers
pub type Wavelength = usize;

/// The lower bound for the wavelengths, inclusive
pub const MIN_WAVELENGTH: Wavelength = 380;

/// The upper bound for the wavelengths, exclusive
pub const MAX_WAVELENGTH: Wavelength = 780;

/// The range of wavelengths used, inclusive low, exclusive high
pub const SPECTRUM: core::ops::Range<Wavelength> = MIN_WAVELENGTH..MAX_WAVELENGTH;

/// The length of the wavelength spectrum used
pub const SPECTRUM_SIZE: usize = MAX_WAVELENGTH - MIN_WAVELENGTH;

/// The count of wavelengths used per ray in Hero Wavelength Sampling
pub const WAVE_SAMPLE_COUNT: usize = 4;

/// A fundamental light particle.
#[derive(Copy, Clone, Debug)]
pub struct Photon {
    /// Wavelength of the photon
    pub wavelength: Wavelength,
}

/// Whether a wavelength lies in the visible spectrum `MIN_WAVELENGTH..MAX_WAVELENGTH`.
pub open spec fn in_spectrum(w: int) -> bool {
    MIN_WAVELENGTH <= w < MAX_WAVELENGTH
}

/// The distance between two neighbouring wavelengths of a hero wavelength rotation.
pub open spec fn rotation_step() -> int {
    SPECTRUM_SIZE as int / WAVE_SAMPLE_COUNT as int
}

/// The `j`-th wavelength of the rotation of `hero`: `hero` moved `j` steps along
/// the spectrum, wrapping around at its upper end.
pub open spec fn rotated_wavelength(hero: int, j: int) -> int {
    (hero - MIN_WAVELENGTH + j * rotation_step()) % (SPECTRUM_SIZE as int) + MIN_WAVELENGTH
}

/// Return a random wavelength, sampled uniformly from the visible spectrum.
pub fn random_wavelength(rng: &mut SmallRng) -> (w: Wavelength)
    ensures
        in_spectrum(w as int),
{
    sample_single_usize(MIN_WAVELENGTH, MAX_WAVELENGTH, rng)
}

/// Given a hero wavelength, create additional equidistant wavelengths in the
/// visible spectrum. Returns an array of wavelengths, with the original hero
/// wavelength as the first one.
pub fn rotate_wavelength(hero: Wavelength) -> (r: [Wavelength; 4])
    requires
        MIN_WAVELENGTH <= hero,
        hero - MIN_WAVELENGTH + 3 * rotation_step() <= usize::MAX,
    ensures
        forall|j: int| 0 <= j < 4 ==> #[trigger] r@[j] == rotated_wavelength(hero as int, j),
{
    let offset = hero - MIN_WAVELENGTH;
    let step = SPECTRUM_SIZE / WAVE_SAMPLE_COUNT;
    let r = [
        offset % SPECTRUM_SIZE + MIN_WAVELENGTH,
        (offset + step) % SPECTRUM_SIZE + MIN_WAVELENGTH,
        (offset + 2 * step) % SPECTRUM_SIZE + MIN_WAVELENGTH,
        (offset + 3 * step) % SPECTRUM_SIZE + MIN_WAVELENGTH,
    ];
    assert(r@[0] == rotated_wavelength(hero as int, 0));
    r
}

/// Every wavelength of a hero wavelength rotation lies in the visible spectrum.
pub proof fn lemma_rotation_in_spectrum(hero: int, j: int)
    ensures
        in_spectrum(rotated_wavelength(hero, j)),
{
}

/// The first wavelength of the rotation of a visible hero wavelength is the hero itself.
pub proof fn lemma_rotation_starts_at_hero(hero: int)
    requires
        in_spectrum(hero),
    ensures
        rotated_wavelength(hero, 0) == hero,
{
    assert(SPECTRUM_SIZE == 400);
    assert((hero - MIN_WAVELENGTH) % 400 == hero - MIN_WAVELENGTH);
}

/// The wavelengths of one rotation are pairwise distinct.
pub proof fn lemma_rotation_distinct(hero: int, j: int, k: int)
    requires
        0 <= j < 4,
        0 <= k < 4,
        j != k,
    ensures
        rotated_wavelength(hero, j) != rotated_wavelength(hero, k),
{
    let a = hero - MIN_WAVELENGTH;
    let x = a + j * 100;
    let y = a + k * 100;
    lemma_mod_equivalence(x, y, 400);
    assert(x - y == (j - k) * 100);
}

/// Rotating the `k`-th wavelength of a rotation again gives the same rotation,
/// shifted cyclically by `k` places.
pub proof fn lemma_rotation_is_cyclic(hero: int, j: int, k: int)
    requires
        in_spectrum(hero),
        0 <= j < 4,
        0 <= k < 4,
    ensures
        rotated_wavelength(rotated_wavelength(hero, k), j) == rotated_wavelength(hero, (j + k) % 4),
{
    let a = hero - MIN_WAVELENGTH;
    let b = (a + k * 100) % 400;
    assert(rotated_wavelength(hero, k) - MIN_WAVELENGTH == b);
    lemma_add_mod_noop(a + k * 100, j * 100, 400);
    assert((b + j * 100) % 400 == (a + k * 100 + j * 100) % 400) by {
        assert((j * 100) % 400 == j * 100);
        assert(b % 400 == b);
    }
    if j + k >= 4 {
        assert(a + k * 100 + j * 100 == 400 * 1 + (a + ((j + k) % 4) * 100));
        lemma_mod_multiples_vanish(1, a + ((j + k) % 4) * 100, 400);
    }
}

} // verus!
