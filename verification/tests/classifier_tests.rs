use pixtrack::particle::{Particle, ParticleType};

#[test]
fn span_at_threshold_is_a_muon() {
    // Row span 12, column span 0.
    let mut p = Particle::new(vec![(0, 4, 1), (12, 4, 1)]);
    p.calculate_type();
    assert_eq!(p.particle_type, ParticleType::PossibleMuon(12));
}

#[test]
fn span_below_threshold_is_unknown() {
    // Row span 11, column span 3.
    let mut p = Particle::new(vec![(1, 0, 1), (12, 3, 1)]);
    p.calculate_type();
    assert_eq!(p.particle_type, ParticleType::Unknown);
}

#[test]
fn span_is_the_larger_axis_range() {
    // Row span 2, column span 30.
    let mut p = Particle::new(vec![(5, 10, 1), (7, 40, 1), (6, 25, 1)]);
    p.calculate_type();
    assert_eq!(p.particle_type, ParticleType::PossibleMuon(30));
}

#[test]
fn single_pixel_is_unknown() {
    let mut p = Particle::new(vec![(3, 3, 500)]);
    p.calculate_type();
    assert_eq!(p.particle_type, ParticleType::Unknown);
}

#[test]
fn classification_keeps_the_pixels() {
    let positions = vec![(0, 0, 1), (20, 0, 2), (10, 10, 3)];
    let mut p = Particle::new(positions.clone());
    assert_eq!(p.particle_type, ParticleType::Unknown);
    p.calculate_type();
    assert_eq!(p.positions, positions);
    assert_eq!(p.particle_type, ParticleType::PossibleMuon(20));
}
