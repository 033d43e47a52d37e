use pixtrack::filter::make_filter;
use pixtrack::particle::{Particle, ParticleType};

#[test]
fn filters_work() {
    let filter = make_filter(vec![String::from("muon")]);
    let muon = Particle {
        particle_type: ParticleType::PossibleMuon(5),
        positions: vec![],
    };
    let diff_particle = Particle {
        particle_type: ParticleType::Unknown,
        positions: vec![],
    };

    assert!(filter.selects(&muon));
    assert!(!filter.selects(&diff_particle));

    let filter = make_filter(vec![]);

    assert!(filter.selects(&muon));
    assert!(filter.selects(&diff_particle));
}

#[test]
fn unrecognized_names_select_nothing() {
    let filter = make_filter(vec![String::from("proton"), String::from("ion")]);
    let muon = Particle {
        particle_type: ParticleType::PossibleMuon(20),
        positions: vec![],
    };
    let unknown = Particle {
        particle_type: ParticleType::Unknown,
        positions: vec![],
    };
    assert!(!filter.selects(&muon));
    assert!(!filter.selects(&unknown));
}

#[test]
fn muon_name_among_others_still_selects() {
    let filter = make_filter(vec![String::from("ion"), String::from("muon")]);
    let muon = Particle {
        particle_type: ParticleType::PossibleMuon(13),
        positions: vec![],
    };
    let unknown = Particle {
        particle_type: ParticleType::Unknown,
        positions: vec![],
    };
    assert!(filter.selects(&muon));
    assert!(!filter.selects(&unknown));
}
