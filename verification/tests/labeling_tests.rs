use pixtrack::frame::Frame;
use pixtrack::particle::ParticleType;

fn grid_of_zeros(rows: usize, cols: usize) -> Vec<Vec<i16>> {
    let mut grid = Vec::new();
    for _ in 0..rows {
        grid.push(vec![0i16; cols]);
    }
    grid
}

fn sorted_coords(frame: &Frame) -> Vec<Vec<(usize, usize, i16)>> {
    let mut groups: Vec<Vec<(usize, usize, i16)>> = frame
        .get_particles()
        .iter()
        .map(|p| {
            let mut v = p.positions.clone();
            v.sort();
            v
        })
        .collect();
    groups.sort();
    groups
}

#[test]
fn zero_grid_yields_no_particles() {
    let mut frame = Frame::new(grid_of_zeros(8, 8));
    frame.count_particles(3);
    assert_eq!(frame.get_particles().len(), 0);
}

#[test]
fn empty_grid_leaves_particles_untouched() {
    let mut frame = Frame::new(Vec::new());
    frame.count_particles(3);
    assert_eq!(frame.get_particles().len(), 0);

    // Existing particle state survives a labeling call on an empty grid.
    let mut frame = Frame {
        data: Vec::new(),
        particles: vec![pixtrack::particle::Particle::new(vec![(0, 0, 1)])],
    };
    frame.count_particles(3);
    assert_eq!(frame.get_particles().len(), 1);

    let mut frame = Frame::new(vec![Vec::new(), Vec::new()]);
    frame.count_particles(5);
    assert_eq!(frame.get_particles().len(), 0);
}

#[test]
fn corner_cluster_of_three() {
    // 5x5 zeros except (0,0), (0,1), (1,0); kernel 3.
    let mut grid = grid_of_zeros(5, 5);
    grid[0][0] = 7;
    grid[0][1] = 7;
    grid[1][0] = 7;
    let mut frame = Frame::new(grid);
    frame.count_particles(3);
    let particles = frame.get_particles();
    assert_eq!(particles.len(), 1);
    let mut coords = particles[0].positions.clone();
    coords.sort();
    assert_eq!(coords, vec![(0, 0, 7), (0, 1, 7), (1, 0, 7)]);

    frame.classify_particles();
    let particles = frame.get_particles();
    assert_eq!(particles[0].particle_type, ParticleType::Unknown);
}

#[test]
fn diagonal_track_is_a_muon() {
    // 20x20 with a nonzero diagonal run from (0,0) to (15,15); kernel 3.
    let mut grid = grid_of_zeros(20, 20);
    for k in 0..16 {
        grid[k][k] = 100;
    }
    let mut frame = Frame::new(grid);
    frame.count_particles(3);
    let particles = frame.get_particles();
    assert_eq!(particles.len(), 1);
    assert_eq!(particles[0].positions.len(), 16);

    frame.classify_particles();
    let particles = frame.get_particles();
    assert_eq!(particles[0].particle_type, ParticleType::PossibleMuon(15));
}

#[test]
fn contiguous_run_is_one_particle() {
    // A horizontal run of adjacent nonzero pixels: one particle holding
    // exactly those pixels.
    let mut grid = grid_of_zeros(4, 10);
    for j in 2..8 {
        grid[1][j] = 3;
    }
    let mut frame = Frame::new(grid);
    frame.count_particles(3);
    let groups = sorted_coords(&frame);
    assert_eq!(groups.len(), 1);
    assert_eq!(
        groups[0],
        vec![
            (1, 2, 3),
            (1, 3, 3),
            (1, 4, 3),
            (1, 5, 3),
            (1, 6, 3),
            (1, 7, 3)
        ]
    );
}

#[test]
fn distant_groups_become_two_particles() {
    // Two clusters separated by far more than the kernel radius in both
    // axes: two disjoint particles.
    let mut grid = grid_of_zeros(20, 20);
    grid[0][0] = 1;
    grid[0][1] = 1;
    grid[10][10] = 2;
    grid[10][11] = 2;
    let mut frame = Frame::new(grid);
    frame.count_particles(3);
    let groups = sorted_coords(&frame);
    assert_eq!(groups.len(), 2);
    assert_eq!(groups[0], vec![(0, 0, 1), (0, 1, 1)]);
    assert_eq!(groups[1], vec![(10, 10, 2), (10, 11, 2)]);
}

#[test]
fn window_bridges_small_gaps() {
    // With kernel 5 (radius 2) a one-pixel gap is tolerated.
    let mut grid = grid_of_zeros(3, 7);
    grid[1][1] = 9;
    grid[1][3] = 9;
    let mut frame = Frame::new(grid);
    frame.count_particles(5);
    assert_eq!(frame.get_particles().len(), 1);

    // With kernel 3 (radius 1) the same gap separates the pixels.
    let mut grid = grid_of_zeros(3, 7);
    grid[1][1] = 9;
    grid[1][3] = 9;
    let mut frame = Frame::new(grid);
    frame.count_particles(3);
    assert_eq!(frame.get_particles().len(), 2);
}

#[test]
fn even_kernel_is_widened_to_next_odd() {
    // Kernel 2 behaves as kernel 3: radius 1.
    let mut grid = grid_of_zeros(3, 5);
    grid[1][1] = 4;
    grid[1][2] = 4;
    let mut frame = Frame::new(grid);
    frame.count_particles(2);
    assert_eq!(frame.get_particles().len(), 1);
}

#[test]
fn negative_intensities_count_as_hits() {
    let mut grid = grid_of_zeros(3, 3);
    grid[0][0] = -5;
    let mut frame = Frame::new(grid);
    frame.count_particles(3);
    let particles = frame.get_particles();
    assert_eq!(particles.len(), 1);
    assert_eq!(particles[0].positions, vec![(0, 0, -5)]);
}
