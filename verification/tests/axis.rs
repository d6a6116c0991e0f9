use clovers::axis::{axis_from_sample, random_axis, Axis};
use rand::rngs::SmallRng;
use rand::SeedableRng;

#[test]
fn axis_into_index() {
    assert_eq!(usize::from(Axis::XY), 2);
    assert_eq!(usize::from(Axis::XZ), 1);
    assert_eq!(usize::from(Axis::YZ), 0);
}

#[test]
fn axis_from_samples() {
    assert_eq!(axis_from_sample(0), Axis::XY);
    assert_eq!(axis_from_sample(1), Axis::XZ);
    assert_eq!(axis_from_sample(2), Axis::YZ);
}

#[test]
fn random_axis_takes_every_value() {
    let mut rng = SmallRng::seed_from_u64(3);
    let mut seen = [false; 3];
    for _ in 0..300 {
        let a = random_axis(&mut rng);
        seen[usize::from(a)] = true;
    }
    assert_eq!(seen, [true, true, true]);
}
