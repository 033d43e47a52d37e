//! Frames and the connected-component labeler.
//!
//! A frame owns an immutable 2-D grid of signed pixel intensities and, once
//! analyzed, the particle clusters found in it. `count_particles` groups the
//! nonzero pixels with a single causal raster pass: each pixel inherits a
//! label already assigned inside its kernel window, labels meeting at a
//! pixel are merged through union-find, and the pixels of each merged class
//! become one `Particle`.
//!
//! The labeling contract states that the particles partition the nonzero
//! pixels of the grid: every nonzero pixel is recorded in exactly one
//! particle with its intensity, every recorded pixel is a real nonzero
//! pixel, and no particle is empty. Beyond the partition it pins the
//! grouping down from both sides: nonzero pixels within the kernel radius
//! of one another land in one particle (`merges_within_radius`), and two
//! pixels share a particle only when a chain of window merges joins them
//! (`particles_window_connected`). The lemmas at the end draw the two
//! classic consequences: a connected cluster yields exactly one particle,
//! and two groups separated by more than the kernel radius in both axes
//! yield exactly two.

use vstd::prelude::*;

use crate::labels::{lemma_uf_root_push, same_class, uf_find, uf_root_of, uf_union, uf_wf};
use crate::particle::{Particle, ParticleType};

verus! {

/// A captured detector frame: the pixel grid and, after labeling, its
/// particle clusters.
#[derive(Debug)]
pub struct Frame {
    pub data: Vec<Vec<i16>>,
    pub particles: Vec<Particle>,
}

/// The grid is rectangular: every row is as long as the first.
pub open spec fn grid_rect(grid: Seq<Seq<i16>>) -> bool {
    forall|i: int| 0 <= i < grid.len() ==> (#[trigger] grid[i]).len() == grid[0].len()
}

/// `pos` records a real nonzero pixel of the grid, with its intensity.
pub open spec fn valid_pixel(grid: Seq<Seq<i16>>, pos: (usize, usize, i16)) -> bool {
    &&& (pos.0 as int) < grid.len()
    &&& (pos.1 as int) < grid[pos.0 as int].len()
    &&& pos.2 == grid[pos.0 as int][pos.1 as int]
    &&& pos.2 != 0
}

/// Every pixel recorded in a particle is a real nonzero pixel of the grid.
pub open spec fn particles_sound(grid: Seq<Seq<i16>>, ps: Seq<Particle>) -> bool {
    forall|p: int, k: int|
        0 <= p < ps.len() && 0 <= k < ps[p].positions@.len() ==> valid_pixel(
            grid,
            #[trigger] ps[p].positions@[k],
        )
}

/// Some particle records a pixel at coordinates `(i, j)`.
pub open spec fn particle_at(ps: Seq<Particle>, i: int, j: int) -> bool {
    exists|p: int, k: int|
        0 <= p < ps.len() && 0 <= k < ps[p].positions@.len()
            && (#[trigger] ps[p].positions@[k]).0 == i && ps[p].positions@[k].1 == j
}

/// Every nonzero pixel of the grid is recorded in some particle.
pub open spec fn particles_cover(grid: Seq<Seq<i16>>, ps: Seq<Particle>) -> bool {
    forall|i: int, j: int|
        0 <= i < grid.len() && 0 <= j < grid[i].len() && #[trigger] grid[i][j] != 0
            ==> particle_at(ps, i, j)
}

/// No pixel coordinate is recorded twice, neither across particles nor
/// within one.
pub open spec fn particles_disjoint(ps: Seq<Particle>) -> bool {
    forall|p1: int, k1: int, p2: int, k2: int|
        #![trigger ps[p1].positions@[k1], ps[p2].positions@[k2]]
        0 <= p1 < ps.len() && 0 <= k1 < ps[p1].positions@.len() && 0 <= p2 < ps.len() && 0 <= k2
            < ps[p2].positions@.len() && !(p1 == p2 && k1 == k2) ==> !(ps[p1].positions@[k1].0
            == ps[p2].positions@[k2].0 && ps[p1].positions@[k1].1 == ps[p2].positions@[k2].1)
}

/// Every particle holds at least one pixel.
pub open spec fn particles_nonempty(ps: Seq<Particle>) -> bool {
    forall|p: int| 0 <= p < ps.len() ==> (#[trigger] ps[p].positions@).len() > 0
}

/// No particle has been classified yet.
pub open spec fn particles_unclassified(ps: Seq<Particle>) -> bool {
    forall|p: int| 0 <= p < ps.len() ==> (#[trigger] ps[p].particle_type) == ParticleType::Unknown
}

/// The grid cell `(a, b)` is in bounds and holds a nonzero sample.
pub open spec fn cell_nonzero(grid: Seq<Seq<i16>>, a: int, b: int) -> bool {
    0 <= a < grid.len() && 0 <= b < grid[a].len() && grid[a][b] != 0
}

/// Cells `(a1, b1)` and `(a2, b2)` are at most `radius` apart in both
/// axes.
pub open spec fn within_radius(a1: int, b1: int, a2: int, b2: int, radius: int) -> bool {
    -radius <= a1 - a2 <= radius && -radius <= b1 - b2 <= radius
}

/// One particle records pixels at both coordinates.
pub open spec fn in_same_particle(ps: Seq<Particle>, a1: int, b1: int, a2: int, b2: int) -> bool {
    exists|p: int, k1: int, k2: int|
        0 <= p < ps.len() && 0 <= k1 < ps[p].positions@.len() && 0 <= k2 < ps[p].positions@.len()
            && (#[trigger] ps[p].positions@[k1]).0 == a1 && ps[p].positions@[k1].1 == b1 && (
        #[trigger] ps[p].positions@[k2]).0 == a2 && ps[p].positions@[k2].1 == b2
}

/// Labeling merges neighbors: any two nonzero pixels within the kernel
/// radius of one another in both axes lie in one particle.
pub open spec fn merges_within_radius(grid: Seq<Seq<i16>>, ps: Seq<Particle>, radius: int) -> bool {
    forall|a1: int, b1: int, a2: int, b2: int|
        #![trigger cell_nonzero(grid, a1, b1), cell_nonzero(grid, a2, b2)]
        cell_nonzero(grid, a1, b1) && cell_nonzero(grid, a2, b2) && within_radius(
            a1,
            b1,
            a2,
            b2,
            radius,
        ) ==> in_same_particle(ps, a1, b1, a2, b2)
}

/// A chain of nonzero pixels whose consecutive cells are within `radius`
/// of one another in both axes.
pub open spec fn is_step_path(grid: Seq<Seq<i16>>, radius: int, chain: Seq<(int, int)>) -> bool {
    &&& chain.len() > 0
    &&& forall|k: int|
        0 <= k < chain.len() ==> cell_nonzero(grid, (#[trigger] chain[k]).0, chain[k].1)
    &&& forall|k: int|
        0 <= k < chain.len() - 1 ==> within_radius(
            (#[trigger] chain[k]).0,
            chain[k].1,
            chain[k + 1].0,
            chain[k + 1].1,
            radius,
        )
}

/// Every two nonzero pixels of the grid are joined by a chain of nonzero
/// pixels stepping at most `radius` in both axes.
pub open spec fn pixels_connected(grid: Seq<Seq<i16>>, radius: int) -> bool {
    forall|a1: int, b1: int, a2: int, b2: int|
        #![trigger cell_nonzero(grid, a1, b1), cell_nonzero(grid, a2, b2)]
        cell_nonzero(grid, a1, b1) && cell_nonzero(grid, a2, b2) ==> exists|chain: Seq<(int, int)>|
            is_step_path(grid, radius, chain) && chain[0] == (a1, b1) && chain.last() == (a2, b2)
}

/// Sharing a particle is transitive: a pixel coordinate is recorded in
/// only one particle, so particles either coincide or stay apart.
proof fn lemma_same_particle_trans(
    ps: Seq<Particle>,
    a1: int,
    b1: int,
    a2: int,
    b2: int,
    a3: int,
    b3: int,
)
    requires
        particles_disjoint(ps),
        in_same_particle(ps, a1, b1, a2, b2),
        in_same_particle(ps, a2, b2, a3, b3),
    ensures
        in_same_particle(ps, a1, b1, a3, b3),
{
    let (p, k1, k2) = choose|p: int, k1: int, k2: int|
        0 <= p < ps.len() && 0 <= k1 < ps[p].positions@.len() && 0 <= k2 < ps[p].positions@.len()
            && (#[trigger] ps[p].positions@[k1]).0 == a1 && ps[p].positions@[k1].1 == b1 && (
        #[trigger] ps[p].positions@[k2]).0 == a2 && ps[p].positions@[k2].1 == b2;
    let (q, m2, m3) = choose|q: int, m2: int, m3: int|
        0 <= q < ps.len() && 0 <= m2 < ps[q].positions@.len() && 0 <= m3 < ps[q].positions@.len()
            && (#[trigger] ps[q].positions@[m2]).0 == a2 && ps[q].positions@[m2].1 == b2 && (
        #[trigger] ps[q].positions@[m3]).0 == a3 && ps[q].positions@[m3].1 == b3;
    if !(p == q && k2 == m2) {
        assert(!(ps[p].positions@[k2].0 == ps[q].positions@[m2].0 && ps[p].positions@[k2].1
            == ps[q].positions@[m2].1));
    }
    assert((ps[p].positions@[k1]).0 == a1 && ps[p].positions@[k1].1 == b1 && (
    ps[p].positions@[m3]).0 == a3 && ps[p].positions@[m3].1 == b3);
}

/// Walking a chain of nearby nonzero pixels never leaves the particle of
/// its first pixel.
proof fn lemma_path_same_particle(
    grid: Seq<Seq<i16>>,
    ps: Seq<Particle>,
    radius: int,
    chain: Seq<(int, int)>,
)
    requires
        radius >= 0,
        particles_disjoint(ps),
        merges_within_radius(grid, ps, radius),
        is_step_path(grid, radius, chain),
    ensures
        in_same_particle(ps, chain[0].0, chain[0].1, chain.last().0, chain.last().1),
    decreases chain.len(),
{
    let n = chain.len() as int;
    if n == 1 {
        assert(cell_nonzero(grid, chain[0].0, chain[0].1));
        assert(within_radius(chain[0].0, chain[0].1, chain[0].0, chain[0].1, radius));
    } else {
        let prefix = chain.drop_last();
        assert(is_step_path(grid, radius, prefix)) by {
            assert forall|k: int|
                0 <= k < prefix.len() implies cell_nonzero(
                grid,
                (#[trigger] prefix[k]).0,
                prefix[k].1,
            ) by {
                assert(prefix[k] == chain[k]);
            }
            assert forall|k: int|
                0 <= k < prefix.len() - 1 implies within_radius(
                (#[trigger] prefix[k]).0,
                prefix[k].1,
                prefix[k + 1].0,
                prefix[k + 1].1,
                radius,
            ) by {
                assert(prefix[k] == chain[k]);
                assert(prefix[k + 1] == chain[k + 1]);
            }
        }
        lemma_path_same_particle(grid, ps, radius, prefix);
        let c2 = chain[n - 2];
        let c3 = chain[n - 1];
        assert(prefix.last() == c2);
        assert(within_radius(c2.0, c2.1, c3.0, c3.1, radius));
        assert(cell_nonzero(grid, c2.0, c2.1));
        assert(cell_nonzero(grid, c3.0, c3.1));
        assert(in_same_particle(ps, c2.0, c2.1, c3.0, c3.1));
        lemma_same_particle_trans(ps, chain[0].0, chain[0].1, c2.0, c2.1, c3.0, c3.1);
    }
}

/// For a grid whose nonzero pixels form one cluster -- every two of them
/// joined by a chain of nonzero pixels stepping at most the kernel radius
/// -- labeling yields exactly one particle, and by the partition it holds
/// exactly those pixels.
pub proof fn lemma_connected_pixels_one_particle(
    grid: Seq<Seq<i16>>,
    ps: Seq<Particle>,
    radius: int,
)
    requires
        radius >= 0,
        is_labeling_of(grid, ps),
        merges_within_radius(grid, ps, radius),
        pixels_connected(grid, radius),
        exists|a: int, b: int| cell_nonzero(grid, a, b),
    ensures
        ps.len() == 1,
{
    let (a, b) = choose|a: int, b: int| cell_nonzero(grid, a, b);
    assert(particle_at(ps, a, b));
    let (p0, k0) = choose|p: int, k: int|
        0 <= p < ps.len() && 0 <= k < ps[p].positions@.len() && (#[trigger] ps[p].positions@[k]).0
            == a && ps[p].positions@[k].1 == b;
    assert(ps.len() >= 1);
    if ps.len() >= 2 {
        assert(ps[0].positions@.len() > 0);
        assert(ps[1].positions@.len() > 0);
        let pos0 = ps[0].positions@[0];
        let pos1 = ps[1].positions@[0];
        assert(valid_pixel(grid, pos0));
        assert(valid_pixel(grid, pos1));
        assert(cell_nonzero(grid, pos0.0 as int, pos0.1 as int));
        assert(cell_nonzero(grid, pos1.0 as int, pos1.1 as int));
        let chain = choose|chain: Seq<(int, int)>|
            is_step_path(grid, radius, chain) && chain[0] == (pos0.0 as int, pos0.1 as int)
                && chain.last() == (pos1.0 as int, pos1.1 as int);
        lemma_path_same_particle(grid, ps, radius, chain);
        let (p, k1, k2) = choose|p: int, k1: int, k2: int|
            0 <= p < ps.len() && 0 <= k1 < ps[p].positions@.len() && 0 <= k2
                < ps[p].positions@.len() && (#[trigger] ps[p].positions@[k1]).0 == pos0.0 as int
                && ps[p].positions@[k1].1 == pos0.1 as int && (#[trigger] ps[p].positions@[k2]).0
                == pos1.0 as int && ps[p].positions@[k2].1 == pos1.1 as int;
        if !(p == 0 && k1 == 0) {
            assert(!(ps[p].positions@[k1].0 == ps[0].positions@[0].0 && ps[p].positions@[k1].1
                == ps[0].positions@[0].1));
        }
        if !(p == 1 && k2 == 0) {
            assert(!(ps[p].positions@[k2].0 == ps[1].positions@[0].0 && ps[p].positions@[k2].1
                == ps[1].positions@[0].1));
        }
        assert(false);
    }
}

/// Pixels `(a1, b1)` and `(a2, b2)` are linked in one hop: some nonzero
/// pixel's kernel window holds both, so a scan of that pixel merges them.
pub open spec fn window_linked(
    grid: Seq<Seq<i16>>,
    a1: int,
    b1: int,
    a2: int,
    b2: int,
    radius: int,
) -> bool {
    exists|c: int, d: int|
        #![trigger within_radius(a1, b1, c, d, radius), within_radius(a2, b2, c, d, radius)]
        cell_nonzero(grid, c, d) && within_radius(a1, b1, c, d, radius) && within_radius(
            a2,
            b2,
            c,
            d,
            radius,
        )
}

/// A chain of nonzero pixels whose consecutive cells are window-linked.
pub open spec fn is_linked_path(grid: Seq<Seq<i16>>, radius: int, chain: Seq<(int, int)>) -> bool {
    &&& chain.len() > 0
    &&& forall|k: int|
        0 <= k < chain.len() ==> cell_nonzero(grid, (#[trigger] chain[k]).0, chain[k].1)
    &&& forall|k: int|
        0 <= k < chain.len() - 1 ==> window_linked(
            grid,
            (#[trigger] chain[k]).0,
            chain[k].1,
            chain[k + 1].0,
            chain[k + 1].1,
            radius,
        )
}

/// The two pixels are joined by a chain of window-linked nonzero pixels.
pub open spec fn win_connected(
    grid: Seq<Seq<i16>>,
    radius: int,
    a1: int,
    b1: int,
    a2: int,
    b2: int,
) -> bool {
    exists|chain: Seq<(int, int)>|
        is_linked_path(grid, radius, chain) && chain[0] == (a1, b1) && chain.last() == (a2, b2)
}

/// A nonzero pixel is connected to itself.
proof fn lemma_wconn_refl(grid: Seq<Seq<i16>>, radius: int, a: int, b: int)
    requires
        cell_nonzero(grid, a, b),
    ensures
        win_connected(grid, radius, a, b, a, b),
{
    let chain: Seq<(int, int)> = seq![(a, b)];
    assert(chain[0] == (a, b) && chain.last() == (a, b));
    assert(is_linked_path(grid, radius, chain));
}

/// A connection extends by one hop to a further nonzero pixel.
proof fn lemma_wconn_extend(
    grid: Seq<Seq<i16>>,
    radius: int,
    a1: int,
    b1: int,
    a2: int,
    b2: int,
    a3: int,
    b3: int,
)
    requires
        win_connected(grid, radius, a1, b1, a2, b2),
        window_linked(grid, a2, b2, a3, b3, radius),
        cell_nonzero(grid, a3, b3),
    ensures
        win_connected(grid, radius, a1, b1, a3, b3),
{
    let chain = choose|chain: Seq<(int, int)>|
        is_linked_path(grid, radius, chain) && chain[0] == (a1, b1) && chain.last() == (a2, b2);
    let longer = chain.push((a3, b3));
    assert forall|k: int|
        0 <= k < longer.len() implies cell_nonzero(grid, (#[trigger] longer[k]).0, longer[k].1) by {
        if k < chain.len() {
            assert(longer[k] == chain[k]);
        }
    }
    assert forall|k: int|
        0 <= k < longer.len() - 1 implies window_linked(
        grid,
        (#[trigger] longer[k]).0,
        longer[k].1,
        longer[k + 1].0,
        longer[k + 1].1,
        radius,
    ) by {
        if k < chain.len() - 1 {
            assert(longer[k] == chain[k]);
            assert(longer[k + 1] == chain[k + 1]);
        } else {
            assert(longer[k] == chain.last());
            assert(longer[k + 1] == (a3, b3));
        }
    }
    assert(is_linked_path(grid, radius, longer));
    assert(longer[0] == (a1, b1) && longer.last() == (a3, b3));
}

/// Connections run both ways: the chain read backwards is a chain.
proof fn lemma_wconn_sym(grid: Seq<Seq<i16>>, radius: int, a1: int, b1: int, a2: int, b2: int)
    requires
        win_connected(grid, radius, a1, b1, a2, b2),
    ensures
        win_connected(grid, radius, a2, b2, a1, b1),
{
    let chain = choose|chain: Seq<(int, int)>|
        is_linked_path(grid, radius, chain) && chain[0] == (a1, b1) && chain.last() == (a2, b2);
    let n = chain.len() as int;
    let back = Seq::new(chain.len(), |i: int| chain[n - 1 - i]);
    assert forall|k: int|
        0 <= k < back.len() implies cell_nonzero(grid, (#[trigger] back[k]).0, back[k].1) by {
        assert(back[k] == chain[n - 1 - k]);
    }
    assert forall|k: int|
        0 <= k < back.len() - 1 implies window_linked(
        grid,
        (#[trigger] back[k]).0,
        back[k].1,
        back[k + 1].0,
        back[k + 1].1,
        radius,
    ) by {
        assert(back[k] == chain[n - 1 - k]);
        assert(back[k + 1] == chain[n - 2 - k]);
        assert(window_linked(
            grid,
            chain[n - 2 - k].0,
            chain[n - 2 - k].1,
            chain[n - 1 - k].0,
            chain[n - 1 - k].1,
            radius,
        ));
        let (c, d) = choose|c: int, d: int|
            cell_nonzero(grid, c, d) && within_radius(
                chain[n - 2 - k].0,
                chain[n - 2 - k].1,
                c,
                d,
                radius,
            ) && within_radius(chain[n - 1 - k].0, chain[n - 1 - k].1, c, d, radius);
        assert(within_radius(back[k].0, back[k].1, c, d, radius));
        assert(within_radius(back[k + 1].0, back[k + 1].1, c, d, radius));
    }
    assert(is_linked_path(grid, radius, back));
    assert(back[0] == (a2, b2) && back.last() == (a1, b1));
}

/// Connections compose end to end.
proof fn lemma_wconn_concat(
    grid: Seq<Seq<i16>>,
    radius: int,
    a1: int,
    b1: int,
    a2: int,
    b2: int,
    a3: int,
    b3: int,
)
    requires
        radius >= 0,
        win_connected(grid, radius, a1, b1, a2, b2),
        win_connected(grid, radius, a2, b2, a3, b3),
    ensures
        win_connected(grid, radius, a1, b1, a3, b3),
{
    let one = choose|chain: Seq<(int, int)>|
        is_linked_path(grid, radius, chain) && chain[0] == (a1, b1) && chain.last() == (a2, b2);
    let two = choose|chain: Seq<(int, int)>|
        is_linked_path(grid, radius, chain) && chain[0] == (a2, b2) && chain.last() == (a3, b3);
    let joined = one + two;
    assert forall|k: int|
        0 <= k < joined.len() implies cell_nonzero(grid, (#[trigger] joined[k]).0, joined[k].1) by {
        if k < one.len() {
            assert(joined[k] == one[k]);
        } else {
            assert(joined[k] == two[k - one.len()]);
        }
    }
    assert forall|k: int|
        0 <= k < joined.len() - 1 implies window_linked(
        grid,
        (#[trigger] joined[k]).0,
        joined[k].1,
        joined[k + 1].0,
        joined[k + 1].1,
        radius,
    ) by {
        if k + 1 < one.len() {
            assert(joined[k] == one[k]);
            assert(joined[k + 1] == one[k + 1]);
        } else if k + 1 == one.len() {
            assert(joined[k] == one.last());
            assert(joined[k + 1] == two[0]);
            assert(joined[k] == (a2, b2) && joined[k + 1] == (a2, b2));
            assert(cell_nonzero(grid, a2, b2));
            assert(within_radius(a2, b2, a2, b2, radius));
        } else {
            assert(joined[k] == two[k - one.len()]);
            assert(joined[k + 1] == two[k + 1 - one.len()]);
        }
    }
    assert(is_linked_path(grid, radius, joined));
    assert(joined[0] == (a1, b1) && joined.last() == (a3, b3));
}

/// Within every particle, each two recorded pixels are window-connected:
/// joined by a chain of nonzero pixels merged through shared kernel
/// windows.
pub open spec fn particles_window_connected(
    grid: Seq<Seq<i16>>,
    ps: Seq<Particle>,
    radius: int,
) -> bool {
    forall|p: int, k1: int, k2: int|
        #![trigger ps[p].positions@[k1], ps[p].positions@[k2]]
        0 <= p < ps.len() && 0 <= k1 < ps[p].positions@.len() && 0 <= k2
            < ps[p].positions@.len() ==> win_connected(
            grid,
            radius,
            ps[p].positions@[k1].0 as int,
            ps[p].positions@[k1].1 as int,
            ps[p].positions@[k2].0 as int,
            ps[p].positions@[k2].1 as int,
        )
}

/// A chain of window-linked pixels cannot cross a gap wider than the
/// kernel radius in both axes: every hop shares a window center, and the
/// center sits on one side of the gap.
proof fn lemma_linked_path_keeps_side(
    grid: Seq<Seq<i16>>,
    radius: int,
    side: spec_fn(int, int) -> bool,
    chain: Seq<(int, int)>,
)
    requires
        is_linked_path(grid, radius, chain),
        forall|a1: int, b1: int, a2: int, b2: int|
            #![trigger cell_nonzero(grid, a1, b1), cell_nonzero(grid, a2, b2)]
            cell_nonzero(grid, a1, b1) && cell_nonzero(grid, a2, b2) && side(a1, b1) && !side(
                a2,
                b2,
            ) ==> ((a1 - a2 > radius || a2 - a1 > radius) && (b1 - b2 > radius || b2 - b1
                > radius)),
        side(chain[0].0, chain[0].1),
    ensures
        side(chain.last().0, chain.last().1),
    decreases chain.len(),
{
    if chain.len() > 1 {
        assert(window_linked(grid, chain[0].0, chain[0].1, chain[1].0, chain[1].1, radius));
        let (c, d) = choose|c: int, d: int|
            cell_nonzero(grid, c, d) && within_radius(chain[0].0, chain[0].1, c, d, radius)
                && within_radius(chain[1].0, chain[1].1, c, d, radius);
        assert(cell_nonzero(grid, chain[0].0, chain[0].1));
        assert(cell_nonzero(grid, chain[1].0, chain[1].1));
        assert(side(c, d));
        assert(side(chain[1].0, chain[1].1));
        let tail = chain.skip(1);
        assert(is_linked_path(grid, radius, tail)) by {
            assert forall|k: int|
                0 <= k < tail.len() implies cell_nonzero(grid, (#[trigger] tail[k]).0, tail[k].1) by {
                assert(tail[k] == chain[k + 1]);
            }
            assert forall|k: int|
                0 <= k < tail.len() - 1 implies window_linked(
                grid,
                (#[trigger] tail[k]).0,
                tail[k].1,
                tail[k + 1].0,
                tail[k + 1].1,
                radius,
            ) by {
                assert(tail[k] == chain[k + 1]);
                assert(tail[k + 1] == chain[k + 2]);
            }
        }
        assert(tail[0] == chain[1]);
        lemma_linked_path_keeps_side(grid, radius, side, tail);
        assert(tail.last() == chain.last());
    }
}

/// For a grid whose nonzero pixels fall into two groups, each internally
/// joined by chains stepping at most the kernel radius, with a gap wider
/// than the radius in both axes between the groups, labeling yields
/// exactly two particles -- disjoint by the partition -- one per group.
pub proof fn lemma_separated_groups_two_particles(
    grid: Seq<Seq<i16>>,
    ps: Seq<Particle>,
    radius: int,
    side: spec_fn(int, int) -> bool,
)
    requires
        radius >= 0,
        is_labeling_of(grid, ps),
        merges_within_radius(grid, ps, radius),
        particles_window_connected(grid, ps, radius),
        forall|a1: int, b1: int, a2: int, b2: int|
            #![trigger cell_nonzero(grid, a1, b1), cell_nonzero(grid, a2, b2)]
            cell_nonzero(grid, a1, b1) && cell_nonzero(grid, a2, b2) && side(a1, b1) && !side(
                a2,
                b2,
            ) ==> ((a1 - a2 > radius || a2 - a1 > radius) && (b1 - b2 > radius || b2 - b1
                > radius)),
        exists|a: int, b: int| cell_nonzero(grid, a, b) && side(a, b),
        exists|a: int, b: int| cell_nonzero(grid, a, b) && !side(a, b),
        forall|a1: int, b1: int, a2: int, b2: int|
            #![trigger cell_nonzero(grid, a1, b1), cell_nonzero(grid, a2, b2)]
            cell_nonzero(grid, a1, b1) && cell_nonzero(grid, a2, b2) && side(a1, b1) == side(
                a2,
                b2,
            ) ==> exists|chain: Seq<(int, int)>|
                is_step_path(grid, radius, chain) && chain[0] == (a1, b1) && chain.last() == (
                a2,
                b2,
            ),
    ensures
        ps.len() == 2,
{
    assert forall|p: int, k1: int, k2: int|
        #![trigger ps[p].positions@[k1], ps[p].positions@[k2]]
        0 <= p < ps.len() && 0 <= k1 < ps[p].positions@.len() && 0 <= k2
            < ps[p].positions@.len() implies side(
        ps[p].positions@[k1].0 as int,
        ps[p].positions@[k1].1 as int,
    ) == side(ps[p].positions@[k2].0 as int, ps[p].positions@[k2].1 as int) by {
        let e1 = ps[p].positions@[k1];
        let e2 = ps[p].positions@[k2];
        assert(valid_pixel(grid, e1));
        assert(valid_pixel(grid, e2));
        if side(e1.0 as int, e1.1 as int) != side(e2.0 as int, e2.1 as int) {
            if side(e1.0 as int, e1.1 as int) {
                assert(win_connected(grid, radius, e1.0 as int, e1.1 as int, e2.0 as int, e2.1 as int));
                let chain = choose|chain: Seq<(int, int)>|
                    is_linked_path(grid, radius, chain) && chain[0] == (e1.0 as int, e1.1 as int)
                        && chain.last() == (e2.0 as int, e2.1 as int);
                lemma_linked_path_keeps_side(grid, radius, side, chain);
            } else {
                assert(win_connected(grid, radius, e2.0 as int, e2.1 as int, e1.0 as int, e1.1 as int));
                let chain = choose|chain: Seq<(int, int)>|
                    is_linked_path(grid, radius, chain) && chain[0] == (e2.0 as int, e2.1 as int)
                        && chain.last() == (e1.0 as int, e1.1 as int);
                lemma_linked_path_keeps_side(grid, radius, side, chain);
            }
        }
    }
    let (aa, ab) = choose|a: int, b: int| cell_nonzero(grid, a, b) && side(a, b);
    assert(grid[aa][ab] != 0);
    assert(particle_at(ps, aa, ab));
    let (pa, ka) = choose|p: int, k: int|
        0 <= p < ps.len() && 0 <= k < ps[p].positions@.len() && (#[trigger] ps[p].positions@[k]).0
            == aa && ps[p].positions@[k].1 == ab;
    let (ba, bb) = choose|a: int, b: int| cell_nonzero(grid, a, b) && !side(a, b);
    assert(grid[ba][bb] != 0);
    assert(particle_at(ps, ba, bb));
    let (pb, kb) = choose|p: int, k: int|
        0 <= p < ps.len() && 0 <= k < ps[p].positions@.len() && (#[trigger] ps[p].positions@[k]).0
            == ba && ps[p].positions@[k].1 == bb;
    if pa == pb {
        assert(side(ps[pa].positions@[ka].0 as int, ps[pa].positions@[ka].1 as int) == side(
            ps[pa].positions@[kb].0 as int,
            ps[pa].positions@[kb].1 as int,
        ));
        assert(false);
    }
    assert forall|q: int| #![trigger ps[q]] 0 <= q < ps.len() implies (q == pa || q == pb) by {
        assert(ps[q].positions@.len() > 0);
        let e = ps[q].positions@[0];
        assert(valid_pixel(grid, e));
        let ea = e.0 as int;
        let eb = e.1 as int;
        assert(cell_nonzero(grid, ea, eb));
        if side(ea, eb) {
            assert(cell_nonzero(grid, aa, ab));
            let chain = choose|chain: Seq<(int, int)>|
                is_step_path(grid, radius, chain) && chain[0] == (ea, eb) && chain.last() == (
                aa,
                ab,
            );
            lemma_path_same_particle(grid, ps, radius, chain);
            let (pp, k1p, k2p) = choose|pp: int, k1p: int, k2p: int|
                0 <= pp < ps.len() && 0 <= k1p < ps[pp].positions@.len() && 0 <= k2p
                    < ps[pp].positions@.len() && (#[trigger] ps[pp].positions@[k1p]).0 == ea && (
                ps[pp].positions@[k1p]).1 == eb && (#[trigger] ps[pp].positions@[k2p]).0 == aa && (
                ps[pp].positions@[k2p]).1 == ab;
            if !(pp == q && k1p == 0) {
                assert(!(ps[pp].positions@[k1p].0 == ps[q].positions@[0].0
                    && ps[pp].positions@[k1p].1 == ps[q].positions@[0].1));
                assert(false);
            }
            if !(pp == pa && k2p == ka) {
                assert(!(ps[pp].positions@[k2p].0 == ps[pa].positions@[ka].0
                    && ps[pp].positions@[k2p].1 == ps[pa].positions@[ka].1));
                assert(false);
            }
        } else {
            assert(cell_nonzero(grid, ba, bb));
            let chain = choose|chain: Seq<(int, int)>|
                is_step_path(grid, radius, chain) && chain[0] == (ea, eb) && chain.last() == (
                ba,
                bb,
            );
            lemma_path_same_particle(grid, ps, radius, chain);
            let (pp, k1p, k2p) = choose|pp: int, k1p: int, k2p: int|
                0 <= pp < ps.len() && 0 <= k1p < ps[pp].positions@.len() && 0 <= k2p
                    < ps[pp].positions@.len() && (#[trigger] ps[pp].positions@[k1p]).0 == ea && (
                ps[pp].positions@[k1p]).1 == eb && (#[trigger] ps[pp].positions@[k2p]).0 == ba && (
                ps[pp].positions@[k2p]).1 == bb;
            if !(pp == q && k1p == 0) {
                assert(!(ps[pp].positions@[k1p].0 == ps[q].positions@[0].0
                    && ps[pp].positions@[k1p].1 == ps[q].positions@[0].1));
                assert(false);
            }
            if !(pp == pb && k2p == kb) {
                assert(!(ps[pp].positions@[k2p].0 == ps[pb].positions@[kb].0
                    && ps[pp].positions@[k2p].1 == ps[pb].positions@[kb].1));
                assert(false);
            }
        }
    }
    assert(ps.len() >= 2);
    if ps.len() > 2 {
        let q: int = if pa != 0 && pb != 0 {
            0
        } else if pa != 1 && pb != 1 {
            1
        } else {
            2
        };
        assert(ps[q].positions@.len() > 0);
        assert(q == pa || q == pb);
        assert(false);
    }
}

/// The sequence of rows of a vector of rows, each row seen as a sequence.
pub open spec fn rows_view<T>(data: Seq<Vec<T>>) -> Seq<Seq<T>> {
    Seq::new(data.len(), |i: int| data[i]@)
}

/// The particles partition the nonzero pixels of the grid.
pub open spec fn is_labeling_of(grid: Seq<Seq<i16>>, ps: Seq<Particle>) -> bool {
    &&& particles_sound(grid, ps)
    &&& particles_cover(grid, ps)
    &&& particles_disjoint(ps)
    &&& particles_nonempty(ps)
}

/// `b` holds the same clusters as `a`: same length, and position for
/// position the same type and pixel list.
pub open spec fn same_particles(a: Seq<Particle>, b: Seq<Particle>) -> bool {
    &&& a.len() == b.len()
    &&& forall|p: int|
        0 <= p < a.len() ==> (#[trigger] a[p]).particle_type == b[p].particle_type
            && a[p].positions@ == b[p].positions@
}

/// A fully-zero grid admits no particles: labeling it yields none.
pub proof fn lemma_zero_grid_no_particles(grid: Seq<Seq<i16>>, ps: Seq<Particle>)
    requires
        is_labeling_of(grid, ps),
        forall|i: int, j: int|
            0 <= i < grid.len() && 0 <= j < grid[i].len() ==> #[trigger] grid[i][j] == 0,
    ensures
        ps.len() == 0,
{
    if ps.len() > 0 {
        assert(ps[0].positions@.len() > 0);
        let pos = ps[0].positions@[0];
        assert(valid_pixel(grid, pos));
        assert(grid[pos.0 as int][pos.1 as int] == 0);
    }
}

impl Frame {
    /// The particle clusters found by the last labeling pass.
    pub open spec fn spec_particles(&self) -> Seq<Particle> {
        self.particles@
    }

    /// A frame over the given grid, with no particles found yet.
    pub fn new(data: Vec<Vec<i16>>) -> (r: Frame)
        ensures
            r.data == data,
            r.spec_particles() == Seq::<Particle>::empty(),
    {
        Frame { data, particles: Vec::new() }
    }

    /// A copy of the particle list of this frame.
    pub fn get_particles(&self) -> (r: Vec<Particle>)
        ensures
            same_particles(self.spec_particles(), r@),
    {
        let mut out: Vec<Particle> = Vec::new();
        let mut p: usize = 0;
        while p < self.particles.len()
            invariant
                p <= self.particles.len(),
                out@.len() == p,
                forall|q: int|
                    0 <= q < p ==> (#[trigger] self.particles@[q]).particle_type
                        == out@[q].particle_type && self.particles@[q].positions@
                        == out@[q].positions@,
            decreases self.particles.len() - p,
        {
            out.push(self.particles[p].clone());
            p = p + 1;
        }
        out
    }

    /// Classifies every particle of this frame by its bounding-box span,
    /// leaving the grid and every pixel list untouched.
    pub fn classify_particles(&mut self)
        requires
            particles_nonempty(old(self).spec_particles()),
        ensures
            final(self).data == old(self).data,
            final(self).spec_particles().len() == old(self).spec_particles().len(),
            forall|p: int|
                0 <= p < old(self).spec_particles().len()
                    ==> (#[trigger] final(self).spec_particles()[p]).positions@
                        == old(self).spec_particles()[p].positions@
                    && final(self).spec_particles()[p].particle_type
                        == crate::particle::classified(old(self).spec_particles()[p].positions@),
    {
        let n = self.particles.len();
        let mut p: usize = 0;
        while p < n
            invariant
                p <= n,
                n == self.particles@.len(),
                self.data == old(self).data,
                self.particles@.len() == old(self).spec_particles().len(),
                particles_nonempty(old(self).spec_particles()),
                forall|q: int|
                    p <= q < n ==> #[trigger] self.particles@[q]
                        == old(self).spec_particles()[q],
                forall|q: int|
                    0 <= q < p ==> (#[trigger] self.particles@[q]).positions@
                        == old(self).spec_particles()[q].positions@
                        && self.particles@[q].particle_type
                        == crate::particle::classified(old(self).spec_particles()[q].positions@),
            decreases n - p,
        {
            let particle = &mut self.particles[p];
            particle.calculate_type();
            p = p + 1;
        }
    }
}

/// An entry of some bucket records a pixel at coordinates `(i, j)`.
spec fn bucket_at(bs: Seq<Vec<(usize, usize, i16)>>, i: int, j: int) -> bool {
    exists|b: int, k: int|
        0 <= b < bs.len() && 0 <= k < bs[b]@.len() && (#[trigger] bs[b]@[k]).0 == i
            && bs[b]@[k].1 == j
}

/// Every bucket entry is a real nonzero pixel of the grid.
spec fn buckets_sound(grid: Seq<Seq<i16>>, bs: Seq<Vec<(usize, usize, i16)>>) -> bool {
    forall|b: int, k: int|
        0 <= b < bs.len() && 0 <= k < bs[b]@.len() ==> valid_pixel(grid, #[trigger] bs[b]@[k])
}

/// Every nonzero pixel of the grid is recorded in some bucket.
spec fn buckets_cover(grid: Seq<Seq<i16>>, bs: Seq<Vec<(usize, usize, i16)>>) -> bool {
    forall|i: int, j: int|
        0 <= i < grid.len() && 0 <= j < grid[i].len() && #[trigger] grid[i][j] != 0 ==> bucket_at(
            bs,
            i,
            j,
        )
}

/// No pixel coordinate is recorded twice over all buckets.
spec fn buckets_disjoint(bs: Seq<Vec<(usize, usize, i16)>>) -> bool {
    forall|b1: int, k1: int, b2: int, k2: int|
        #![trigger bs[b1]@[k1], bs[b2]@[k2]]
        0 <= b1 < bs.len() && 0 <= k1 < bs[b1]@.len() && 0 <= b2 < bs.len() && 0 <= k2
            < bs[b2]@.len() && !(b1 == b2 && k1 == k2) ==> !(bs[b1]@[k1].0 == bs[b2]@[k2].0
            && bs[b1]@[k1].1 == bs[b2]@[k2].1)
}

/// Cell `(a, b)` precedes cell `(i, j)` in raster order.
pub open spec fn raster_lt(a: int, b: int, i: int, j: int) -> bool {
    a < i || (a == i && b < j)
}

/// Cell `(a, b)` lies in the causal part of the kernel window around
/// `(i, j)`: within the radius in both axes and already visited in raster
/// order.
pub open spec fn causal_in_window(a: int, b: int, i: int, j: int, radius: int) -> bool {
    &&& i - radius <= a <= i
    &&& j - radius <= b <= j + radius
    &&& raster_lt(a, b, i, j)
}

/// Any two labeled cells within the kernel radius of one another, both
/// already scanned (raster order, up to the cell before `(i, j)`), carry
/// labels of one union-find class.
spec fn scanned_pairs_merged(
    data: Seq<Vec<i16>>,
    labels: Seq<Vec<usize>>,
    parent: Seq<usize>,
    i: int,
    j: int,
    radius: int,
) -> bool {
    forall|a1: int, b1: int, a2: int, b2: int|
        #![trigger labels[a1]@[b1], labels[a2]@[b2]]
        0 <= a1 < data.len() && 0 <= b1 < data[a1]@.len() && 0 <= a2 < data.len() && 0 <= b2
            < data[a2]@.len() && raster_lt(a1, b1, i, j) && raster_lt(a2, b2, i, j)
            && labels[a1]@[b1] != 0 && labels[a2]@[b2] != 0 && -radius <= a1 - a2 <= radius
            && -radius <= b1 - b2 <= radius ==> same_class(
            parent,
            labels[a1]@[b1] as int,
            labels[a2]@[b2] as int,
        )
}

/// Any two labeled, already scanned cells whose labels share a class are
/// window-connected.
spec fn classes_connected(
    data: Seq<Vec<i16>>,
    labels: Seq<Vec<usize>>,
    parent: Seq<usize>,
    i: int,
    j: int,
    radius: int,
) -> bool {
    forall|a1: int, b1: int, a2: int, b2: int|
        #![trigger labels[a1]@[b1], labels[a2]@[b2]]
        0 <= a1 < data.len() && 0 <= b1 < data[a1]@.len() && 0 <= a2 < data.len() && 0 <= b2
            < data[a2]@.len() && raster_lt(a1, b1, i, j) && raster_lt(a2, b2, i, j)
            && labels[a1]@[b1] != 0 && labels[a2]@[b2] != 0 && same_class(
            parent,
            labels[a1]@[b1] as int,
            labels[a2]@[b2] as int,
        ) ==> win_connected(rows_view(data), radius, a1, b1, a2, b2)
}

/// After the window sweep of nonzero cell `(i, j)`, two already scanned
/// labeled cells whose labels were tied together are window-connected:
/// either their tie predates the sweep, or both sides reach the window,
/// whose cells are all linked through `(i, j)` itself.
proof fn lemma_old_pair_connected(
    data: Seq<Vec<i16>>,
    labels: Seq<Vec<usize>>,
    p0: Seq<usize>,
    pscan: Seq<usize>,
    i: int,
    j: int,
    radius: int,
    rows: int,
    cols: int,
    a1: int,
    b1: int,
    a2: int,
    b2: int,
)
    requires
        radius >= 0,
        rows == data.len(),
        forall|a: int| 0 <= a < data.len() ==> (#[trigger] data[a]@).len() == cols,
        labels.len() == data.len(),
        forall|a: int| 0 <= a < data.len() ==> (#[trigger] labels[a]@).len() == data[a]@.len(),
        forall|a: int, b: int|
            0 <= a < labels.len() && 0 <= b < labels[a]@.len() ==> ((#[trigger] labels[a]@[b]) != 0
                ==> data[a]@[b] != 0),
        cell_nonzero(rows_view(data), i, j),
        classes_connected(data, labels, p0, i, j, radius),
        forall|x: int, y: int|
            #![trigger same_class(pscan, x, y)]
            0 <= x < p0.len() && 0 <= y < p0.len() && same_class(pscan, x, y) ==> (same_class(
                p0,
                x,
                y,
            ) || (window_reaches(labels, p0, x, i, j, radius, rows, cols, i + 1, 0)
                && window_reaches(labels, p0, y, i, j, radius, rows, cols, i + 1, 0))),
        0 <= a1 < data.len() && 0 <= b1 < data[a1]@.len(),
        0 <= a2 < data.len() && 0 <= b2 < data[a2]@.len(),
        raster_lt(a1, b1, i, j),
        raster_lt(a2, b2, i, j),
        labels[a1]@[b1] != 0,
        labels[a2]@[b2] != 0,
        labels[a1]@[b1] < p0.len(),
        labels[a2]@[b2] < p0.len(),
        same_class(pscan, labels[a1]@[b1] as int, labels[a2]@[b2] as int),
    ensures
        win_connected(rows_view(data), radius, a1, b1, a2, b2),
{
    let grid = rows_view(data);
    let l1 = labels[a1]@[b1] as int;
    let l2 = labels[a2]@[b2] as int;
    if same_class(p0, l1, l2) {
        assert(win_connected(grid, radius, a1, b1, a2, b2));
    } else {
        assert(window_reaches(labels, p0, l1, i, j, radius, rows, cols, i + 1, 0));
        let (w1a, w1b) = choose|a: int, b: int|
            0 <= a < rows && 0 <= b < cols && causal_in_window(a, b, i, j, radius) && (a < i + 1
                || (a == i + 1 && b < 0)) && (#[trigger] labels[a]@[b]) != 0 && same_class(
                p0,
                l1,
                labels[a]@[b] as int,
            );
        let (w2a, w2b) = choose|a: int, b: int|
            0 <= a < rows && 0 <= b < cols && causal_in_window(a, b, i, j, radius) && (a < i + 1
                || (a == i + 1 && b < 0)) && (#[trigger] labels[a]@[b]) != 0 && same_class(
                p0,
                l2,
                labels[a]@[b] as int,
            );
        assert(grid[w1a] == data[w1a]@);
        assert(grid[w2a] == data[w2a]@);
        assert(b1 < labels[a1]@.len() && b2 < labels[a2]@.len());
        assert(data[w1a]@.len() == cols && data[w2a]@.len() == cols);
        assert(raster_lt(w1a, w1b, i, j));
        assert(raster_lt(w2a, w2b, i, j));
        assert(same_class(p0, labels[a1]@[b1] as int, labels[w1a]@[w1b] as int));
        assert(same_class(p0, labels[a2]@[b2] as int, labels[w2a]@[w2b] as int));
        assert(win_connected(grid, radius, a1, b1, w1a, w1b));
        assert(win_connected(grid, radius, a2, b2, w2a, w2b));
        assert(grid[i] == data[i]@);
        assert(within_radius(w1a, w1b, i, j, radius));
        assert(within_radius(w2a, w2b, i, j, radius));
        assert(window_linked(grid, w1a, w1b, w2a, w2b, radius));
        assert(cell_nonzero(grid, w2a, w2b));
        lemma_wconn_extend(grid, radius, a1, b1, w1a, w1b, w2a, w2b);
        lemma_wconn_sym(grid, radius, a2, b2, w2a, w2b);
        lemma_wconn_concat(grid, radius, a1, b1, w2a, w2b, a2, b2);
    }
}

/// The freshly scanned nonzero cell `(i, j)` is window-connected to every
/// scanned cell whose label shares a class with the label it inherits.
proof fn lemma_new_cell_connected(
    data: Seq<Vec<i16>>,
    labels: Seq<Vec<usize>>,
    p0: Seq<usize>,
    pscan: Seq<usize>,
    cur: int,
    i: int,
    j: int,
    radius: int,
    rows: int,
    cols: int,
    a2: int,
    b2: int,
)
    requires
        radius >= 0,
        rows == data.len(),
        forall|a: int| 0 <= a < data.len() ==> (#[trigger] data[a]@).len() == cols,
        labels.len() == data.len(),
        forall|a: int| 0 <= a < data.len() ==> (#[trigger] labels[a]@).len() == data[a]@.len(),
        forall|a: int, b: int|
            0 <= a < labels.len() && 0 <= b < labels[a]@.len() ==> ((#[trigger] labels[a]@[b]) != 0
                ==> data[a]@[b] != 0),
        cell_nonzero(rows_view(data), i, j),
        classes_connected(data, labels, p0, i, j, radius),
        forall|x: int, y: int|
            #![trigger same_class(pscan, x, y)]
            0 <= x < p0.len() && 0 <= y < p0.len() && same_class(pscan, x, y) ==> (same_class(
                p0,
                x,
                y,
            ) || (window_reaches(labels, p0, x, i, j, radius, rows, cols, i + 1, 0)
                && window_reaches(labels, p0, y, i, j, radius, rows, cols, i + 1, 0))),
        exists|a: int, b: int|
            0 <= a < rows && 0 <= b < cols && causal_in_window(a, b, i, j, radius) && (
            #[trigger] labels[a]@[b]) as int == cur,
        0 <= a2 < data.len() && 0 <= b2 < data[a2]@.len(),
        raster_lt(a2, b2, i, j),
        labels[a2]@[b2] != 0,
        0 <= cur < p0.len(),
        cur != 0,
        labels[a2]@[b2] < p0.len(),
        same_class(pscan, cur, labels[a2]@[b2] as int),
    ensures
        win_connected(rows_view(data), radius, i, j, a2, b2),
{
    let grid = rows_view(data);
    let l2 = labels[a2]@[b2] as int;
    lemma_wconn_refl(grid, radius, i, j);
    assert(grid[i] == data[i]@);
    if same_class(p0, cur, l2) {
        let (wca, wcb) = choose|a: int, b: int|
            0 <= a < rows && 0 <= b < cols && causal_in_window(a, b, i, j, radius) && (
            #[trigger] labels[a]@[b]) as int == cur;
        assert(grid[wca] == data[wca]@);
        assert(labels[wca]@[wcb] != 0);
        assert(data[wca]@.len() == cols);
        assert(raster_lt(wca, wcb, i, j));
        assert(same_class(p0, labels[wca]@[wcb] as int, labels[a2]@[b2] as int));
        assert(win_connected(grid, radius, wca, wcb, a2, b2));
        assert(within_radius(wca, wcb, i, j, radius));
        assert(within_radius(i, j, i, j, radius));
        assert(window_linked(grid, i, j, wca, wcb, radius));
        assert(cell_nonzero(grid, wca, wcb));
        lemma_wconn_extend(grid, radius, i, j, i, j, wca, wcb);
        lemma_wconn_concat(grid, radius, i, j, wca, wcb, a2, b2);
    } else {
        assert(window_reaches(labels, p0, l2, i, j, radius, rows, cols, i + 1, 0));
        let (w2a, w2b) = choose|a: int, b: int|
            0 <= a < rows && 0 <= b < cols && causal_in_window(a, b, i, j, radius) && (a < i + 1
                || (a == i + 1 && b < 0)) && (#[trigger] labels[a]@[b]) != 0 && same_class(
                p0,
                l2,
                labels[a]@[b] as int,
            );
        assert(grid[w2a] == data[w2a]@);
        assert(data[w2a]@.len() == cols);
        assert(raster_lt(w2a, w2b, i, j));
        assert(same_class(p0, labels[a2]@[b2] as int, labels[w2a]@[w2b] as int));
        assert(win_connected(grid, radius, a2, b2, w2a, w2b));
        assert(within_radius(w2a, w2b, i, j, radius));
        assert(within_radius(i, j, i, j, radius));
        assert(window_linked(grid, i, j, w2a, w2b, radius));
        assert(cell_nonzero(grid, w2a, w2b));
        lemma_wconn_extend(grid, radius, i, j, i, j, w2a, w2b);
        lemma_wconn_sym(grid, radius, a2, b2, w2a, w2b);
        lemma_wconn_concat(grid, radius, i, j, w2a, w2b, a2, b2);
    }
}

/// A fresh all-zero label table with the same shape as the grid.
#[verifier::loop_isolation(false)]
fn zero_labels(data: &Vec<Vec<i16>>) -> (labels: Vec<Vec<usize>>)
    ensures
        labels@.len() == data@.len(),
        forall|a: int| 0 <= a < labels@.len() ==> (#[trigger] labels@[a]@).len() == data@[a]@.len(),
        forall|a: int, b: int|
            0 <= a < labels@.len() && 0 <= b < labels@[a]@.len() ==> (#[trigger] labels@[a]@[b])
                == 0,
{
    let mut labels: Vec<Vec<usize>> = Vec::new();
    let mut i: usize = 0;
    while i < data.len()
        invariant
            i <= data@.len(),
            labels@.len() == i,
            forall|a: int| 0 <= a < i ==> (#[trigger] labels@[a]@).len() == data@[a]@.len(),
            forall|a: int, b: int|
                0 <= a < i && 0 <= b < labels@[a]@.len() ==> (#[trigger] labels@[a]@[b]) == 0,
        decreases data@.len() - i,
    {
        let mut row: Vec<usize> = Vec::new();
        let mut j: usize = 0;
        let cols_i = data[i].len();
        while j < cols_i
            invariant
                j <= cols_i,
                row@.len() == j,
                forall|b: int| 0 <= b < j ==> (#[trigger] row@[b]) == 0,
            decreases cols_i - j,
        {
            row.push(0);
            j = j + 1;
        }
        labels.push(row);
        i = i + 1;
    }
    labels
}

/// Label `x`'s class (in table `parent`) holds the label of some cell of
/// the causal window around `(i, j)` that was already swept, i.e. lies
/// raster-before `(pi, pj)`.
spec fn window_reaches(
    labels: Seq<Vec<usize>>,
    parent: Seq<usize>,
    x: int,
    i: int,
    j: int,
    radius: int,
    rows: int,
    cols: int,
    pi: int,
    pj: int,
) -> bool {
    exists|a: int, b: int|
        #![trigger labels[a]@[b]]
        0 <= a < rows && 0 <= b < cols && causal_in_window(a, b, i, j, radius) && (a < pi || (a
            == pi && b < pj)) && labels[a]@[b] != 0 && same_class(parent, x, labels[a]@[b] as int)
}

/// Sweeping further cells only widens what a label can reach.
proof fn lemma_reach_mono(
    labels: Seq<Vec<usize>>,
    parent: Seq<usize>,
    x: int,
    i: int,
    j: int,
    radius: int,
    rows: int,
    cols: int,
    pi1: int,
    pj1: int,
    pi2: int,
    pj2: int,
)
    requires
        window_reaches(labels, parent, x, i, j, radius, rows, cols, pi1, pj1),
        pi1 < pi2 || (pi1 == pi2 && pj1 <= pj2),
    ensures
        window_reaches(labels, parent, x, i, j, radius, rows, cols, pi2, pj2),
{
    let (a, b) = choose|a: int, b: int|
        0 <= a < rows && 0 <= b < cols && causal_in_window(a, b, i, j, radius) && (a < pi1 || (a
            == pi1 && b < pj1)) && (#[trigger] labels[a]@[b]) != 0 && same_class(
            parent,
            x,
            labels[a]@[b] as int,
        );
    assert(labels[a]@[b] != 0);
}

/// A label tied (in the mid-sweep table) to a label already carried by a
/// swept window cell reaches the window: either the tie is as old as the
/// sweep's start, or the sweep itself created it, which places the label
/// at the window already.
proof fn lemma_reach_step(
    labels: Seq<Vec<usize>>,
    p0: Seq<usize>,
    pbefore: Seq<usize>,
    x: int,
    lab: int,
    wa: int,
    wb: int,
    i: int,
    j: int,
    radius: int,
    rows: int,
    cols: int,
    pi: int,
    pj: int,
)
    requires
        0 <= wa < rows,
        0 <= wb < cols,
        causal_in_window(wa, wb, i, j, radius),
        wa < pi || (wa == pi && wb < pj),
        labels[wa]@[wb] as int == lab,
        labels[wa]@[wb] != 0,
        forall|u: int, v: int|
            #![trigger same_class(pbefore, u, v)]
            0 <= u < pbefore.len() && 0 <= v < pbefore.len() && same_class(pbefore, u, v) ==> (
            same_class(p0, u, v) || (window_reaches(labels, p0, u, i, j, radius, rows, cols, pi, pj)
                && window_reaches(labels, p0, v, i, j, radius, rows, cols, pi, pj))),
        0 <= x < pbefore.len(),
        0 <= lab < pbefore.len(),
        same_class(pbefore, x, lab),
    ensures
        window_reaches(labels, p0, x, i, j, radius, rows, cols, pi, pj),
{
    assert(same_class(pbefore, x, lab));
    if same_class(p0, x, lab) {
        assert(labels[wa]@[wb] != 0);
    }
}

/// Collects the labels already assigned inside the causal part of the
/// kernel window around `(i, j)`: cells of earlier rows out to the window
/// edge, and earlier cells of the same row. The first label found is
/// returned (0 when none) and every further one is merged with it.
#[verifier::loop_isolation(false)]
fn scan_window(
    labels: &Vec<Vec<usize>>,
    parent: &mut Vec<usize>,
    i: usize,
    j: usize,
    radius: usize,
    rows: usize,
    cols: usize,
) -> (cur: usize)
    requires
        uf_wf(old(parent)@),
        old(parent)@.len() >= 1,
        labels@.len() == rows,
        forall|a: int| 0 <= a < rows ==> (#[trigger] labels@[a]@).len() == cols,
        forall|a: int, b: int|
            0 <= a < rows && 0 <= b < cols ==> (#[trigger] labels@[a]@[b]) < old(parent)@.len(),
        i < rows,
        j < cols,
    ensures
        uf_wf(final(parent)@),
        final(parent)@.len() == old(parent)@.len(),
        cur < final(parent)@.len(),
        forall|x: int, y: int|
            #![trigger same_class(final(parent)@, x, y)]
            0 <= x < old(parent)@.len() && 0 <= y < old(parent)@.len() && same_class(
                old(parent)@,
                x,
                y,
            ) ==> same_class(final(parent)@, x, y),
        cur == 0 ==> forall|a: int, b: int|
            0 <= a < rows && 0 <= b < cols && causal_in_window(a, b, i as int, j as int, radius as int)
                ==> (#[trigger] labels@[a]@[b]) == 0,
        cur != 0 ==> forall|a: int, b: int|
            0 <= a < rows && 0 <= b < cols && causal_in_window(a, b, i as int, j as int, radius as int)
                && (#[trigger] labels@[a]@[b]) != 0 ==> same_class(
                final(parent)@,
                labels@[a]@[b] as int,
                cur as int,
            ),
        cur != 0 ==> exists|a: int, b: int|
            0 <= a < rows && 0 <= b < cols && causal_in_window(a, b, i as int, j as int, radius as int)
                && (#[trigger] labels@[a]@[b]) == cur,
        forall|x: int, y: int|
            #![trigger same_class(final(parent)@, x, y)]
            0 <= x < old(parent)@.len() && 0 <= y < old(parent)@.len() && same_class(
                final(parent)@,
                x,
                y,
            ) ==> (same_class(old(parent)@, x, y) || (window_reaches(
                labels@,
                old(parent)@,
                x,
                i as int,
                j as int,
                radius as int,
                rows as int,
                cols as int,
                i as int + 1,
                0,
            ) && window_reaches(
                labels@,
                old(parent)@,
                y,
                i as int,
                j as int,
                radius as int,
                rows as int,
                cols as int,
                i as int + 1,
                0,
            ))),
{
    let ghost mut wa: int = 0;
    let ghost mut wb: int = 0;
    let lo_r = if i >= radius {
        i - radius
    } else {
        0
    };
    let lo_c = if j >= radius {
        j - radius
    } else {
        0
    };
    let hi_c = if cols - 1 - j < radius {
        cols - 1
    } else {
        j + radius
    };
    let mut cur: usize = 0;
    let mut ni = lo_r;
    while ni <= i
        invariant
            uf_wf(parent@),
            parent@.len() == old(parent)@.len(),
            cur < parent@.len(),
            lo_r <= ni <= i + 1,
            hi_c < cols,
            forall|x: int, y: int|
                #![trigger same_class(parent@, x, y)]
                0 <= x < parent@.len() && 0 <= y < parent@.len() && same_class(old(parent)@, x, y)
                    ==> same_class(parent@, x, y),
            cur == 0 ==> forall|a: int, b: int|
                0 <= a < rows && 0 <= b < cols && causal_in_window(a, b, i as int, j as int, radius as int)
                    && a < ni ==> (#[trigger] labels@[a]@[b]) == 0,
            cur != 0 ==> forall|a: int, b: int|
                0 <= a < rows && 0 <= b < cols && causal_in_window(a, b, i as int, j as int, radius as int)
                    && a < ni && (#[trigger] labels@[a]@[b]) != 0 ==> same_class(
                    parent@,
                    labels@[a]@[b] as int,
                    cur as int,
                ),
            cur != 0 ==> (0 <= wa < rows && 0 <= wb < cols && causal_in_window(
                wa,
                wb,
                i as int,
                j as int,
                radius as int,
            ) && wa < ni && labels@[wa]@[wb] as int == cur as int),
            forall|x: int, y: int|
                #![trigger same_class(parent@, x, y)]
                0 <= x < parent@.len() && 0 <= y < parent@.len() && same_class(parent@, x, y) ==> (
                same_class(old(parent)@, x, y) || (window_reaches(
                    labels@,
                    old(parent)@,
                    x,
                    i as int,
                    j as int,
                    radius as int,
                    rows as int,
                    cols as int,
                    ni as int,
                    0,
                ) && window_reaches(
                    labels@,
                    old(parent)@,
                    y,
                    i as int,
                    j as int,
                    radius as int,
                    rows as int,
                    cols as int,
                    ni as int,
                    0,
                ))),
        decreases i + 1 - ni,
    {
        let end = if ni < i {
            hi_c + 1
        } else {
            j
        };
        let mut nj = lo_c;
        while nj < end
            invariant
                uf_wf(parent@),
                parent@.len() == old(parent)@.len(),
                cur < parent@.len(),
                lo_r <= ni <= i,
                lo_c <= nj <= end,
                end <= cols,
                forall|x: int, y: int|
                    #![trigger same_class(parent@, x, y)]
                    0 <= x < parent@.len() && 0 <= y < parent@.len() && same_class(
                        old(parent)@,
                        x,
                        y,
                    ) ==> same_class(parent@, x, y),
                cur == 0 ==> forall|a: int, b: int|
                    0 <= a < rows && 0 <= b < cols && causal_in_window(a, b, i as int, j as int, radius as int)
                        && (a < ni || (a == ni && b < nj)) ==> (#[trigger] labels@[a]@[b]) == 0,
                cur != 0 ==> forall|a: int, b: int|
                    0 <= a < rows && 0 <= b < cols && causal_in_window(a, b, i as int, j as int, radius as int)
                        && (a < ni || (a == ni && b < nj)) && (#[trigger] labels@[a]@[b]) != 0
                        ==> same_class(parent@, labels@[a]@[b] as int, cur as int),
                cur != 0 ==> (0 <= wa < rows && 0 <= wb < cols && causal_in_window(
                    wa,
                    wb,
                    i as int,
                    j as int,
                    radius as int,
                ) && (wa < ni || (wa == ni && wb < nj)) && labels@[wa]@[wb] as int == cur as int),
                forall|x: int, y: int|
                    #![trigger same_class(parent@, x, y)]
                    0 <= x < parent@.len() && 0 <= y < parent@.len() && same_class(parent@, x, y)
                        ==> (same_class(old(parent)@, x, y) || (window_reaches(
                        labels@,
                        old(parent)@,
                        x,
                        i as int,
                        j as int,
                        radius as int,
                        rows as int,
                        cols as int,
                        ni as int,
                        nj as int,
                    ) && window_reaches(
                        labels@,
                        old(parent)@,
                        y,
                        i as int,
                        j as int,
                        radius as int,
                        rows as int,
                        cols as int,
                        ni as int,
                        nj as int,
                    ))),
            decreases end - nj,
        {
            let l = labels[ni][nj];
            let ghost pbefore = parent@;
            let ghost cur0 = cur;
            if l != 0 {
                if cur == 0 {
                    cur = l;
                    proof {
                        wa = ni as int;
                        wb = nj as int;
                    }
                } else if cur != l {
                    uf_union(parent, cur, l);
                }
            }
            proof {
                assert(causal_in_window(ni as int, nj as int, i as int, j as int, radius as int));
                if cur != 0 {
                    assert forall|a: int, b: int|
                        0 <= a < rows && 0 <= b < cols && causal_in_window(a, b, i as int, j as int, radius as int)
                            && (a < ni || (a == ni && b < nj + 1)) && (#[trigger] labels@[a]@[b])
                            != 0 implies same_class(parent@, labels@[a]@[b] as int, cur as int) by {
                        if a == ni && b == nj {
                            assert(labels@[a]@[b] == l);
                        } else {
                            assert(same_class(pbefore, labels@[a]@[b] as int, cur as int));
                        }
                    }
                }
                assert forall|u: int, v: int|
                    #![trigger same_class(pbefore, u, v)]
                    0 <= u < pbefore.len() && 0 <= v < pbefore.len() && same_class(pbefore, u, v)
                        implies (same_class(old(parent)@, u, v) || (window_reaches(
                        labels@,
                        old(parent)@,
                        u,
                        i as int,
                        j as int,
                        radius as int,
                        rows as int,
                        cols as int,
                        ni as int,
                        nj + 1,
                    ) && window_reaches(
                        labels@,
                        old(parent)@,
                        v,
                        i as int,
                        j as int,
                        radius as int,
                        rows as int,
                        cols as int,
                        ni as int,
                        nj + 1,
                    ))) by {
                    if !same_class(old(parent)@, u, v) {
                        lemma_reach_mono(
                            labels@,
                            old(parent)@,
                            u,
                            i as int,
                            j as int,
                            radius as int,
                            rows as int,
                            cols as int,
                            ni as int,
                            nj as int,
                            ni as int,
                            nj + 1,
                        );
                        lemma_reach_mono(
                            labels@,
                            old(parent)@,
                            v,
                            i as int,
                            j as int,
                            radius as int,
                            rows as int,
                            cols as int,
                            ni as int,
                            nj as int,
                            ni as int,
                            nj + 1,
                        );
                    }
                }
                let ghost did_union = l != 0 && cur0 != 0 && cur0 != l;
                assert forall|x: int, y: int|
                    #![trigger same_class(parent@, x, y)]
                    0 <= x < parent@.len() && 0 <= y < parent@.len() && same_class(parent@, x, y)
                        implies (same_class(old(parent)@, x, y) || (window_reaches(
                        labels@,
                        old(parent)@,
                        x,
                        i as int,
                        j as int,
                        radius as int,
                        rows as int,
                        cols as int,
                        ni as int,
                        nj + 1,
                    ) && window_reaches(
                        labels@,
                        old(parent)@,
                        y,
                        i as int,
                        j as int,
                        radius as int,
                        rows as int,
                        cols as int,
                        ni as int,
                        nj + 1,
                    ))) by {
                    if did_union {
                        if same_class(pbefore, x, y) {
                            assert(same_class(pbefore, x, y));
                        } else {
                            assert((same_class(pbefore, x, cur0 as int) || same_class(
                                pbefore,
                                x,
                                l as int,
                            )) && (same_class(pbefore, y, cur0 as int) || same_class(
                                pbefore,
                                y,
                                l as int,
                            )));
                            if same_class(pbefore, x, cur0 as int) {
                                lemma_reach_step(
                                    labels@,
                                    old(parent)@,
                                    pbefore,
                                    x,
                                    cur0 as int,
                                    wa,
                                    wb,
                                    i as int,
                                    j as int,
                                    radius as int,
                                    rows as int,
                                    cols as int,
                                    ni as int,
                                    nj + 1,
                                );
                            } else {
                                lemma_reach_step(
                                    labels@,
                                    old(parent)@,
                                    pbefore,
                                    x,
                                    l as int,
                                    ni as int,
                                    nj as int,
                                    i as int,
                                    j as int,
                                    radius as int,
                                    rows as int,
                                    cols as int,
                                    ni as int,
                                    nj + 1,
                                );
                            }
                            if same_class(pbefore, y, cur0 as int) {
                                lemma_reach_step(
                                    labels@,
                                    old(parent)@,
                                    pbefore,
                                    y,
                                    cur0 as int,
                                    wa,
                                    wb,
                                    i as int,
                                    j as int,
                                    radius as int,
                                    rows as int,
                                    cols as int,
                                    ni as int,
                                    nj + 1,
                                );
                            } else {
                                lemma_reach_step(
                                    labels@,
                                    old(parent)@,
                                    pbefore,
                                    y,
                                    l as int,
                                    ni as int,
                                    nj as int,
                                    i as int,
                                    j as int,
                                    radius as int,
                                    rows as int,
                                    cols as int,
                                    ni as int,
                                    nj + 1,
                                );
                            }
                        }
                    } else {
                        assert(parent@ == pbefore);
                        assert(same_class(pbefore, x, y));
                    }
                }
            }
            nj = nj + 1;
        }
        proof {
            assert forall|x: int, y: int|
                #![trigger same_class(parent@, x, y)]
                0 <= x < parent@.len() && 0 <= y < parent@.len() && same_class(parent@, x, y)
                    implies (same_class(old(parent)@, x, y) || (window_reaches(
                    labels@,
                    old(parent)@,
                    x,
                    i as int,
                    j as int,
                    radius as int,
                    rows as int,
                    cols as int,
                    ni as int + 1,
                    0,
                ) && window_reaches(
                    labels@,
                    old(parent)@,
                    y,
                    i as int,
                    j as int,
                    radius as int,
                    rows as int,
                    cols as int,
                    ni as int + 1,
                    0,
                ))) by {
                if !same_class(old(parent)@, x, y) {
                    lemma_reach_mono(
                        labels@,
                        old(parent)@,
                        x,
                        i as int,
                        j as int,
                        radius as int,
                        rows as int,
                        cols as int,
                        ni as int,
                        nj as int,
                        ni as int + 1,
                        0,
                    );
                    lemma_reach_mono(
                        labels@,
                        old(parent)@,
                        y,
                        i as int,
                        j as int,
                        radius as int,
                        rows as int,
                        cols as int,
                        ni as int,
                        nj as int,
                        ni as int + 1,
                        0,
                    );
                }
            }
            if cur != 0 {
                assert forall|a: int, b: int|
                    0 <= a < rows && 0 <= b < cols && causal_in_window(a, b, i as int, j as int, radius as int)
                        && a < ni + 1 && (#[trigger] labels@[a]@[b]) != 0 implies same_class(
                    parent@,
                    labels@[a]@[b] as int,
                    cur as int,
                ) by {
                    if a == ni {
                        assert(lo_c <= b < end);
                    }
                }
            } else {
                assert forall|a: int, b: int|
                    0 <= a < rows && 0 <= b < cols && causal_in_window(a, b, i as int, j as int, radius as int)
                        && a < ni + 1 implies (#[trigger] labels@[a]@[b]) == 0 by {
                    if a == ni {
                        assert(lo_c <= b < end);
                    }
                }
            }
        }
        ni = ni + 1;
    }
    proof {
        if cur != 0 {
            assert(0 <= wa < rows && 0 <= wb < cols && causal_in_window(
                wa,
                wb,
                i as int,
                j as int,
                radius as int,
            ) && labels@[wa]@[wb] as int == cur as int);
        }
    }
    cur
}

/// The causal raster pass: labels every nonzero pixel, minting a fresh
/// label where the causal window holds none and merging the window's labels
/// where it holds several. Returns the label table and the parent table;
/// afterwards a cell carries a nonzero label exactly when its pixel is
/// nonzero, and every label lies below the parent table's length.
#[verifier::loop_isolation(false)]
#[verifier::rlimit(100)]
fn assign_labels(data: &Vec<Vec<i16>>, radius: usize) -> (res: (Vec<Vec<usize>>, Vec<usize>))
    requires
        grid_rect(rows_view(data@)),
        data@.len() > 0,
        data@[0]@.len() > 0,
    ensures
        uf_wf(res.1@),
        res.1@.len() >= 1,
        res.0@.len() == data@.len(),
        forall|a: int| 0 <= a < res.0@.len() ==> (#[trigger] res.0@[a]@).len() == data@[a]@.len(),
        forall|a: int, b: int|
            0 <= a < res.0@.len() && 0 <= b < res.0@[a]@.len() ==> (#[trigger] res.0@[a]@[b])
                < res.1@.len(),
        forall|a: int, b: int|
            0 <= a < res.0@.len() && 0 <= b < res.0@[a]@.len() ==> ((#[trigger] res.0@[a]@[b]) != 0
                <==> data@[a]@[b] != 0),
        scanned_pairs_merged(data@, res.0@, res.1@, data@.len() as int, 0, radius as int),
        classes_connected(data@, res.0@, res.1@, data@.len() as int, 0, radius as int),
{
    let rows = data.len();
    let cols = data[0].len();
    let mut labels = zero_labels(data);
    let mut parent: Vec<usize> = Vec::new();
    parent.push(0);
    let mut i: usize = 0;
    while i < rows
        invariant
            i <= rows,
            uf_wf(parent@),
            parent@.len() >= 1,
            labels@.len() == rows,
            forall|a: int| 0 <= a < rows ==> (#[trigger] labels@[a]@).len() == data@[a]@.len(),
            forall|a: int, b: int|
                0 <= a < rows && 0 <= b < labels@[a]@.len() ==> (#[trigger] labels@[a]@[b])
                    < parent@.len(),
            forall|a: int, b: int|
                0 <= a < i && 0 <= b < labels@[a]@.len() ==> ((#[trigger] labels@[a]@[b]) != 0
                    <==> data@[a]@[b] != 0),
            forall|a: int, b: int|
                i <= a < rows && 0 <= b < labels@[a]@.len() ==> (#[trigger] labels@[a]@[b]) == 0,
            scanned_pairs_merged(data@, labels@, parent@, i as int, 0, radius as int),
            classes_connected(data@, labels@, parent@, i as int, 0, radius as int),
        decreases rows - i,
    {
        let mut j: usize = 0;
        while j < cols
            invariant
                j <= cols,
                i < rows,
                uf_wf(parent@),
                parent@.len() >= 1,
                labels@.len() == rows,
                forall|a: int| 0 <= a < rows ==> (#[trigger] labels@[a]@).len() == data@[a]@.len(),
                forall|a: int, b: int|
                    0 <= a < rows && 0 <= b < labels@[a]@.len() ==> (#[trigger] labels@[a]@[b])
                        < parent@.len(),
                forall|a: int, b: int|
                    0 <= a < i && 0 <= b < labels@[a]@.len() ==> ((#[trigger] labels@[a]@[b]) != 0
                        <==> data@[a]@[b] != 0),
                forall|b: int|
                    0 <= b < j ==> ((#[trigger] labels@[i as int]@[b]) != 0 <==> data@[i as int]@[b]
                        != 0),
                forall|b: int|
                    j <= b < labels@[i as int]@.len() ==> (#[trigger] labels@[i as int]@[b]) == 0,
                forall|a: int, b: int|
                    i < a < rows && 0 <= b < labels@[a]@.len() ==> (#[trigger] labels@[a]@[b]) == 0,
                scanned_pairs_merged(data@, labels@, parent@, i as int, j as int, radius as int),
                classes_connected(data@, labels@, parent@, i as int, j as int, radius as int),
            decreases cols - j,
        {
            proof {
                assert forall|a: int| 0 <= a < rows implies (#[trigger] labels@[a]@).len()
                    == cols by {
                    assert(rows_view(data@)[a] == data@[a]@);
                    assert(rows_view(data@)[0] == data@[0]@);
                }
                assert(rows_view(data@)[i as int] == data@[i as int]@);
                assert(rows_view(data@)[0] == data@[0]@);
                assert(data@[i as int]@.len() == cols);
                assert forall|a: int| 0 <= a < rows implies (#[trigger] data@[a]@).len()
                    == cols by {
                    assert(rows_view(data@)[a] == data@[a]@);
                    assert(rows_view(data@)[0] == data@[0]@);
                }
            }
            if data[i][j] != 0 {
                let ghost pbefore = parent@;
                let found = scan_window(&labels, &mut parent, i, j, radius, rows, cols);
                let ghost pscan = parent@;
                let cur = if found == 0 {
                    let nl = parent.len();
                    parent.push(nl);
                    proof {
                        assert forall|m: int|
                            0 <= m < pscan.len() implies crate::labels::uf_root_of(parent@, m)
                            == crate::labels::uf_root_of(pscan, m) by {
                            lemma_uf_root_push(pscan, nl, m);
                        }
                    }
                    nl
                } else {
                    found
                };
                let ghost pnow = parent@;
                let ghost labels0 = labels@;
                labels[i][j] = cur;
                proof {
                    assert(labels@[i as int]@ =~= labels0[i as int]@.update(j as int, cur));
                    assert forall|a: int| 0 <= a < rows && a != i implies labels@[a] == labels0[a]
                    by {}
                    assert forall|a1: int, b1: int, a2: int, b2: int|
                        #![trigger labels@[a1]@[b1], labels@[a2]@[b2]]
                        0 <= a1 < data@.len() && 0 <= b1 < data@[a1]@.len() && 0 <= a2 < data@.len()
                            && 0 <= b2 < data@[a2]@.len() && raster_lt(a1, b1, i as int, j + 1)
                            && raster_lt(a2, b2, i as int, j + 1) && labels@[a1]@[b1] != 0
                            && labels@[a2]@[b2] != 0 && -(radius as int) <= a1 - a2 <= radius as int
                            && -(radius as int) <= b1 - b2 <= radius as int implies same_class(
                        pnow,
                        labels@[a1]@[b1] as int,
                        labels@[a2]@[b2] as int,
                    ) by {
                        if a1 == i && b1 == j && a2 == i && b2 == j {
                        } else if a1 == i && b1 == j {
                            assert(labels@[a2]@[b2] == labels0[a2]@[b2]);
                            assert(causal_in_window(a2, b2, i as int, j as int, radius as int));
                            assert(labels@[a1]@[b1] == cur);
                            if found != 0 {
                                assert(same_class(pscan, labels0[a2]@[b2] as int, found as int));
                            } else {
                                assert(labels0[a2]@[b2] == 0);
                            }
                        } else if a2 == i && b2 == j {
                            assert(labels@[a1]@[b1] == labels0[a1]@[b1]);
                            assert(causal_in_window(a1, b1, i as int, j as int, radius as int));
                            assert(labels@[a2]@[b2] == cur);
                            if found != 0 {
                                assert(same_class(pscan, labels0[a1]@[b1] as int, found as int));
                            } else {
                                assert(labels0[a1]@[b1] == 0);
                            }
                        } else {
                            assert(labels@[a1]@[b1] == labels0[a1]@[b1]);
                            assert(labels@[a2]@[b2] == labels0[a2]@[b2]);
                            assert(raster_lt(a1, b1, i as int, j as int));
                            assert(raster_lt(a2, b2, i as int, j as int));
                            assert(same_class(pbefore, labels0[a1]@[b1] as int, labels0[a2]@[b2] as int));
                            assert(same_class(pscan, labels0[a1]@[b1] as int, labels0[a2]@[b2] as int));
                        }
                    }
                    assert(rows_view(data@)[i as int] == data@[i as int]@);
                    assert(cell_nonzero(rows_view(data@), i as int, j as int));
                    assert forall|a1: int, b1: int, a2: int, b2: int|
                        #![trigger labels@[a1]@[b1], labels@[a2]@[b2]]
                        0 <= a1 < data@.len() && 0 <= b1 < data@[a1]@.len() && 0 <= a2 < data@.len()
                            && 0 <= b2 < data@[a2]@.len() && raster_lt(a1, b1, i as int, j + 1)
                            && raster_lt(a2, b2, i as int, j + 1) && labels@[a1]@[b1] != 0
                            && labels@[a2]@[b2] != 0 && same_class(
                            pnow,
                            labels@[a1]@[b1] as int,
                            labels@[a2]@[b2] as int,
                        ) implies win_connected(rows_view(data@), radius as int, a1, b1, a2, b2) by {
                        let grid = rows_view(data@);
                        if a1 == i && b1 == j && a2 == i && b2 == j {
                            lemma_wconn_refl(grid, radius as int, i as int, j as int);
                        } else if a1 == i && b1 == j {
                            assert(labels@[a2]@[b2] == labels0[a2]@[b2]);
                            assert(labels@[a1]@[b1] == cur);
                            assert(labels0[a2]@[b2] < pbefore.len());
                            if found == 0 {
                                lemma_uf_root_push(pscan, cur, labels0[a2]@[b2] as int);
                                crate::labels::lemma_uf_root_le(pscan, labels0[a2]@[b2] as int);
                                assert(uf_root_of(pnow, cur as int) == cur);
                                assert(false);
                            } else {
                                lemma_new_cell_connected(
                                    data@,
                                    labels0,
                                    pbefore,
                                    pscan,
                                    cur as int,
                                    i as int,
                                    j as int,
                                    radius as int,
                                    rows as int,
                                    cols as int,
                                    a2,
                                    b2,
                                );
                            }
                        } else if a2 == i && b2 == j {
                            assert(labels@[a1]@[b1] == labels0[a1]@[b1]);
                            assert(labels@[a2]@[b2] == cur);
                            assert(labels0[a1]@[b1] < pbefore.len());
                            if found == 0 {
                                lemma_uf_root_push(pscan, cur, labels0[a1]@[b1] as int);
                                crate::labels::lemma_uf_root_le(pscan, labels0[a1]@[b1] as int);
                                assert(uf_root_of(pnow, cur as int) == cur);
                                assert(false);
                            } else {
                                lemma_new_cell_connected(
                                    data@,
                                    labels0,
                                    pbefore,
                                    pscan,
                                    cur as int,
                                    i as int,
                                    j as int,
                                    radius as int,
                                    rows as int,
                                    cols as int,
                                    a1,
                                    b1,
                                );
                                lemma_wconn_sym(grid, radius as int, i as int, j as int, a1, b1);
                            }
                        } else {
                            assert(labels@[a1]@[b1] == labels0[a1]@[b1]);
                            assert(labels@[a2]@[b2] == labels0[a2]@[b2]);
                            assert(raster_lt(a1, b1, i as int, j as int));
                            assert(raster_lt(a2, b2, i as int, j as int));
                            assert(labels0[a1]@[b1] < pbefore.len());
                            assert(labels0[a2]@[b2] < pbefore.len());
                            if found == 0 {
                                lemma_uf_root_push(pscan, cur, labels0[a1]@[b1] as int);
                                lemma_uf_root_push(pscan, cur, labels0[a2]@[b2] as int);
                            }
                            assert(same_class(pscan, labels0[a1]@[b1] as int, labels0[a2]@[b2] as int));
                            lemma_old_pair_connected(
                                data@,
                                labels0,
                                pbefore,
                                pscan,
                                i as int,
                                j as int,
                                radius as int,
                                rows as int,
                                cols as int,
                                a1,
                                b1,
                                a2,
                                b2,
                            );
                        }
                    }
                }
            } else {
                proof {
                    assert forall|a1: int, b1: int, a2: int, b2: int|
                        #![trigger labels@[a1]@[b1], labels@[a2]@[b2]]
                        0 <= a1 < data@.len() && 0 <= b1 < data@[a1]@.len() && 0 <= a2 < data@.len()
                            && 0 <= b2 < data@[a2]@.len() && raster_lt(a1, b1, i as int, j + 1)
                            && raster_lt(a2, b2, i as int, j + 1) && labels@[a1]@[b1] != 0
                            && labels@[a2]@[b2] != 0 && -(radius as int) <= a1 - a2 <= radius as int
                            && -(radius as int) <= b1 - b2 <= radius as int implies same_class(
                        parent@,
                        labels@[a1]@[b1] as int,
                        labels@[a2]@[b2] as int,
                    ) by {
                        if (a1 == i && b1 == j) || (a2 == i && b2 == j) {
                            assert(labels@[i as int]@[j as int] == 0);
                        } else {
                            assert(raster_lt(a1, b1, i as int, j as int));
                            assert(raster_lt(a2, b2, i as int, j as int));
                        }
                    }
                    assert forall|a1: int, b1: int, a2: int, b2: int|
                        #![trigger labels@[a1]@[b1], labels@[a2]@[b2]]
                        0 <= a1 < data@.len() && 0 <= b1 < data@[a1]@.len() && 0 <= a2 < data@.len()
                            && 0 <= b2 < data@[a2]@.len() && raster_lt(a1, b1, i as int, j + 1)
                            && raster_lt(a2, b2, i as int, j + 1) && labels@[a1]@[b1] != 0
                            && labels@[a2]@[b2] != 0 && same_class(
                            parent@,
                            labels@[a1]@[b1] as int,
                            labels@[a2]@[b2] as int,
                        ) implies win_connected(rows_view(data@), radius as int, a1, b1, a2, b2) by {
                        if (a1 == i && b1 == j) || (a2 == i && b2 == j) {
                            assert(labels@[i as int]@[j as int] == 0);
                        } else {
                            assert(raster_lt(a1, b1, i as int, j as int));
                            assert(raster_lt(a2, b2, i as int, j as int));
                        }
                    }
                }
            }
            j = j + 1;
        }
        proof {
            assert(rows_view(data@)[i as int] == data@[i as int]@);
            assert(rows_view(data@)[0] == data@[0]@);
            assert(data@[i as int]@.len() == cols);
            assert forall|a: int| 0 <= a < rows implies (#[trigger] data@[a]@).len() == cols by {
                assert(rows_view(data@)[a] == data@[a]@);
                assert(rows_view(data@)[0] == data@[0]@);
            }
        }
        i = i + 1;
    }
    (labels, parent)
}

/// The grouping pass: sends every labeled pixel to the bucket of its
/// label's union-find root. Afterwards the buckets hold exactly the
/// nonzero pixels of the grid, each exactly once.
#[verifier::loop_isolation(false)]
fn fill_buckets(
    data: &Vec<Vec<i16>>,
    labels: &Vec<Vec<usize>>,
    parent: &mut Vec<usize>,
) -> (buckets: Vec<Vec<(usize, usize, i16)>>)
    requires
        uf_wf(old(parent)@),
        old(parent)@.len() >= 1,
        grid_rect(rows_view(data@)),
        data@.len() > 0,
        data@[0]@.len() > 0,
        labels@.len() == data@.len(),
        forall|a: int| 0 <= a < labels@.len() ==> (#[trigger] labels@[a]@).len() == data@[a]@.len(),
        forall|a: int, b: int|
            0 <= a < labels@.len() && 0 <= b < labels@[a]@.len() ==> (#[trigger] labels@[a]@[b])
                < old(parent)@.len(),
        forall|a: int, b: int|
            0 <= a < labels@.len() && 0 <= b < labels@[a]@.len() ==> ((#[trigger] labels@[a]@[b])
                != 0 <==> data@[a]@[b] != 0),
    ensures
        buckets_sound(rows_view(data@), buckets@),
        buckets_cover(rows_view(data@), buckets@),
        buckets_disjoint(buckets@),
        final(parent)@.len() == old(parent)@.len(),
        uf_wf(final(parent)@),
        forall|m: int|
            0 <= m < old(parent)@.len() ==> uf_root_of(final(parent)@, m) == uf_root_of(
                old(parent)@,
                m,
            ),
        forall|bx: int, k: int|
            0 <= bx < buckets@.len() && 0 <= k < buckets@[bx]@.len() ==> bx == uf_root_of(
                final(parent)@,
                labels@[(#[trigger] buckets@[bx]@[k]).0 as int]@[buckets@[bx]@[k].1 as int] as int,
            ),
{
    let rows = data.len();
    let cols = data[0].len();
    let b_count = parent.len();
    let mut buckets: Vec<Vec<(usize, usize, i16)>> = Vec::new();
    while buckets.len() < b_count
        invariant
            buckets@.len() <= b_count,
            forall|x: int| 0 <= x < buckets@.len() ==> (#[trigger] buckets@[x]@).len() == 0,
        decreases b_count - buckets@.len(),
    {
        buckets.push(Vec::new());
    }
    let mut i: usize = 0;
    while i < rows
        invariant
            i <= rows,
            uf_wf(parent@),
            parent@.len() == b_count,
            buckets@.len() == b_count,
            forall|b: int, k: int|
                0 <= b < b_count && 0 <= k < buckets@[b]@.len() ==> valid_pixel(
                    rows_view(data@),
                    #[trigger] buckets@[b]@[k],
                ) && raster_lt(
                    buckets@[b]@[k].0 as int,
                    buckets@[b]@[k].1 as int,
                    i as int,
                    0,
                ),
            forall|a: int, c: int|
                0 <= a < rows && 0 <= c < data@[a]@.len() && raster_lt(a, c, i as int, 0) && (
                #[trigger] data@[a]@[c]) != 0 ==> bucket_at(buckets@, a, c),
            buckets_disjoint(buckets@),
            forall|m: int|
                0 <= m < parent@.len() ==> uf_root_of(parent@, m) == uf_root_of(old(parent)@, m),
            forall|bx: int, k: int|
                0 <= bx < buckets@.len() && 0 <= k < buckets@[bx]@.len() ==> bx == uf_root_of(
                    parent@,
                    labels@[(#[trigger] buckets@[bx]@[k]).0 as int]@[buckets@[bx]@[k].1 as int] as int,
                ),
        decreases rows - i,
    {
        let mut j: usize = 0;
        while j < cols
            invariant
                j <= cols,
                i < rows,
                uf_wf(parent@),
                parent@.len() == b_count,
                buckets@.len() == b_count,
                forall|b: int, k: int|
                    0 <= b < b_count && 0 <= k < buckets@[b]@.len() ==> valid_pixel(
                        rows_view(data@),
                        #[trigger] buckets@[b]@[k],
                    ) && raster_lt(
                        buckets@[b]@[k].0 as int,
                        buckets@[b]@[k].1 as int,
                        i as int,
                        j as int,
                    ),
                forall|a: int, c: int|
                    0 <= a < rows && 0 <= c < data@[a]@.len() && raster_lt(a, c, i as int, j as int)
                        && (#[trigger] data@[a]@[c]) != 0 ==> bucket_at(buckets@, a, c),
                buckets_disjoint(buckets@),
                forall|m: int|
                    0 <= m < parent@.len() ==> uf_root_of(parent@, m) == uf_root_of(old(parent)@, m),
                forall|bx: int, k: int|
                    0 <= bx < buckets@.len() && 0 <= k < buckets@[bx]@.len() ==> bx == uf_root_of(
                        parent@,
                        labels@[(#[trigger] buckets@[bx]@[k]).0 as int]@[buckets@[bx]@[k].1 as int] as int,
                    ),
            decreases cols - j,
        {
            proof {
                assert(rows_view(data@)[i as int] == data@[i as int]@);
                assert(rows_view(data@)[0] == data@[0]@);
                assert(data@[i as int]@.len() == cols);
            }
            let l = labels[i][j];
            if l != 0 {
                let r = uf_find(parent, l);
                let v = data[i][j];
                let ghost bs0 = buckets@;
                let ghost n0 = buckets@[r as int]@.len();
                buckets[r].push((i, j, v));
                proof {
                    assert(buckets@[r as int]@ =~= bs0[r as int]@.push((i, j, v)));
                    assert forall|x: int| 0 <= x < b_count && x != r implies buckets@[x] == bs0[x]
                    by {}
                    assert(valid_pixel(rows_view(data@), (i, j, v)));
                    assert forall|bx: int, k: int|
                        0 <= bx < buckets@.len() && 0 <= k < buckets@[bx]@.len() implies bx
                        == uf_root_of(
                        parent@,
                        labels@[(#[trigger] buckets@[bx]@[k]).0 as int]@[buckets@[bx]@[k].1 as int] as int,
                    ) by {
                        if bx == r && k == n0 {
                            assert(buckets@[bx]@[k] == (i, j, v));
                            assert(labels@[i as int]@[j as int] == l);
                        } else {
                            assert(buckets@[bx]@[k] == bs0[bx]@[k]);
                        }
                    }
                    assert forall|b: int, k: int|
                        0 <= b < b_count && 0 <= k < buckets@[b]@.len() implies valid_pixel(
                        rows_view(data@),
                        #[trigger] buckets@[b]@[k],
                    ) && raster_lt(
                        buckets@[b]@[k].0 as int,
                        buckets@[b]@[k].1 as int,
                        i as int,
                        j + 1,
                    ) by {
                        if b == r && k == n0 {
                            assert(buckets@[b]@[k] == (i, j, v));
                        } else {
                            assert(buckets@[b]@[k] == bs0[b]@[k]);
                        }
                    }
                    assert forall|a: int, c: int|
                        0 <= a < rows && 0 <= c < data@[a]@.len() && raster_lt(a, c, i as int, j + 1)
                            && (#[trigger] data@[a]@[c]) != 0 implies bucket_at(buckets@, a, c) by {
                        if a == i && c == j {
                            assert(buckets@[r as int]@[n0 as int] == (i, j, v));
                            assert(bucket_at(buckets@, a, c));
                        } else {
                            assert(raster_lt(a, c, i as int, j as int));
                            assert(bucket_at(bs0, a, c));
                            let (b2, k2) = choose|b2: int, k2: int|
                                0 <= b2 < bs0.len() && 0 <= k2 < bs0[b2]@.len() && (
                                #[trigger] bs0[b2]@[k2]).0 == a && bs0[b2]@[k2].1 == c;
                            assert(buckets@[b2]@[k2] == bs0[b2]@[k2]);
                            assert(bucket_at(buckets@, a, c));
                        }
                    }
                    assert forall|b1: int, k1: int, b2: int, k2: int|
                        #![trigger buckets@[b1]@[k1], buckets@[b2]@[k2]]
                        0 <= b1 < buckets@.len() && 0 <= k1 < buckets@[b1]@.len() && 0 <= b2
                            < buckets@.len() && 0 <= k2 < buckets@[b2]@.len() && !(b1 == b2 && k1
                            == k2) implies !(buckets@[b1]@[k1].0 == buckets@[b2]@[k2].0
                            && buckets@[b1]@[k1].1 == buckets@[b2]@[k2].1) by {
                        if b1 == r && k1 == n0 {
                            assert(buckets@[b2]@[k2] == bs0[b2]@[k2]);
                            assert(raster_lt(bs0[b2]@[k2].0 as int, bs0[b2]@[k2].1 as int, i as int, j as int));
                        } else if b2 == r && k2 == n0 {
                            assert(buckets@[b1]@[k1] == bs0[b1]@[k1]);
                            assert(raster_lt(bs0[b1]@[k1].0 as int, bs0[b1]@[k1].1 as int, i as int, j as int));
                        } else {
                            assert(buckets@[b1]@[k1] == bs0[b1]@[k1]);
                            assert(buckets@[b2]@[k2] == bs0[b2]@[k2]);
                        }
                    }
                }
            }
            j = j + 1;
        }
        proof {
            assert forall|a: int, c: int|
                0 <= a < rows && 0 <= c < data@[a]@.len() && raster_lt(a, c, i + 1, 0) && (
                #[trigger] data@[a]@[c]) != 0 implies bucket_at(buckets@, a, c) by {
                assert(rows_view(data@)[a] == data@[a]@);
                assert(rows_view(data@)[0] == data@[0]@);
                assert(data@[a]@.len() == cols);
                assert(raster_lt(a, c, i as int, cols as int));
            }
        }
        i = i + 1;
    }
    buckets
}

/// Turns every nonempty bucket into one fresh `Particle`. The particles
/// then partition the nonzero pixels of the grid.
#[verifier::loop_isolation(false)]
fn gather_particles(
    data: &Vec<Vec<i16>>,
    buckets: Vec<Vec<(usize, usize, i16)>>,
) -> (particles: Vec<Particle>)
    requires
        buckets_sound(rows_view(data@), buckets@),
        buckets_cover(rows_view(data@), buckets@),
        buckets_disjoint(buckets@),
    ensures
        is_labeling_of(rows_view(data@), particles@),
        particles_unclassified(particles@),
        forall|bx: int|
            0 <= bx < buckets@.len() && (#[trigger] buckets@[bx]@).len() > 0 ==> exists|p: int|
                0 <= p < particles@.len() && particles@[p].positions@ == buckets@[bx]@,
        forall|p: int|
            0 <= p < particles@.len() ==> exists|bx: int|
                0 <= bx < buckets@.len() && (#[trigger] particles@[p]).positions@ == buckets@[bx]@,
{
    let ghost bs0 = buckets@;
    let mut buckets = buckets;
    let mut particles: Vec<Particle> = Vec::new();
    let ghost mut srcs: Seq<int> = Seq::empty();
    let nb = buckets.len();
    let mut b: usize = 0;
    while b < nb
        invariant
            b <= nb,
            nb == bs0.len(),
            buckets@.len() == nb,
            forall|x: int| b <= x < nb ==> #[trigger] buckets@[x] == bs0[x],
            particles@.len() == srcs.len(),
            forall|p: int|
                0 <= p < srcs.len() ==> 0 <= #[trigger] srcs[p] < b && bs0[srcs[p]]@.len() > 0
                    && particles@[p].positions@ == bs0[srcs[p]]@ && particles@[p].particle_type
                    == ParticleType::Unknown,
            forall|p1: int, p2: int|
                #![trigger srcs[p1], srcs[p2]]
                0 <= p1 < p2 < srcs.len() ==> srcs[p1] < srcs[p2],
            forall|x: int|
                0 <= x < b && bs0[x]@.len() > 0 ==> exists|p: int|
                    0 <= p < srcs.len() && #[trigger] srcs[p] == x,
        decreases nb - b,
    {
        if buckets[b].len() > 0 {
            let mut taken: Vec<(usize, usize, i16)> = Vec::new();
            core::mem::swap(&mut taken, &mut buckets[b]);
            particles.push(Particle::new(taken));
            proof {
                let ghost srcs0 = srcs;
                srcs = srcs.push(b as int);
                assert(srcs[srcs.len() - 1] == b as int);
                assert forall|x: int|
                    0 <= x < b + 1 && bs0[x]@.len() > 0 implies exists|p: int|
                        0 <= p < srcs.len() && #[trigger] srcs[p] == x by {
                    if x == b {
                        assert(srcs[srcs.len() - 1] == x);
                    } else {
                        let p0 = choose|p: int| 0 <= p < srcs0.len() && srcs0[p] == x;
                        assert(srcs[p0] == x);
                    }
                }
            }
        }
        b = b + 1;
    }
    proof {
        let grid = rows_view(data@);
        let ps = particles@;
        assert forall|p: int, k: int|
            0 <= p < ps.len() && 0 <= k < ps[p].positions@.len() implies valid_pixel(
            grid,
            #[trigger] ps[p].positions@[k],
        ) by {
            assert(bs0[srcs[p]]@[k] == ps[p].positions@[k]);
        }
        assert forall|i: int, j: int|
            0 <= i < grid.len() && 0 <= j < grid[i].len() && #[trigger] grid[i][j] != 0 implies
            particle_at(ps, i, j) by {
            assert(bucket_at(bs0, i, j));
            let (b2, k2) = choose|b2: int, k2: int|
                0 <= b2 < bs0.len() && 0 <= k2 < bs0[b2]@.len() && (#[trigger] bs0[b2]@[k2]).0 == i
                    && bs0[b2]@[k2].1 == j;
            assert(bs0[b2]@.len() > 0);
            let p = choose|p: int| 0 <= p < srcs.len() && srcs[p] == b2;
            assert(ps[p].positions@[k2] == bs0[b2]@[k2]);
            assert((ps[p].positions@[k2]).0 == i && ps[p].positions@[k2].1 == j);
        }
        assert forall|p1: int, k1: int, p2: int, k2: int|
            #![trigger ps[p1].positions@[k1], ps[p2].positions@[k2]]
            0 <= p1 < ps.len() && 0 <= k1 < ps[p1].positions@.len() && 0 <= p2 < ps.len() && 0 <= k2
                < ps[p2].positions@.len() && !(p1 == p2 && k1 == k2) implies !(
        ps[p1].positions@[k1].0 == ps[p2].positions@[k2].0 && ps[p1].positions@[k1].1
            == ps[p2].positions@[k2].1) by {
            let b1 = srcs[p1];
            let b2 = srcs[p2];
            assert(ps[p1].positions@[k1] == bs0[b1]@[k1]);
            assert(ps[p2].positions@[k2] == bs0[b2]@[k2]);
            if p1 != p2 {
                if p1 < p2 {
                    assert(srcs[p1] < srcs[p2]);
                } else {
                    assert(srcs[p2] < srcs[p1]);
                }
                assert(!(b1 == b2 && k1 == k2));
            } else {
                assert(!(b1 == b2 && k1 == k2));
            }
        }
        assert forall|p: int| 0 <= p < ps.len() implies (#[trigger] ps[p].positions@).len() > 0 by {
            assert(ps[p].positions@ == bs0[srcs[p]]@);
        }
        assert forall|p: int|
            0 <= p < ps.len() implies (#[trigger] ps[p].particle_type) == ParticleType::Unknown by {
            assert(ps[p].positions@ == bs0[srcs[p]]@);
        }
        assert forall|bx: int|
            0 <= bx < bs0.len() && (#[trigger] bs0[bx]@).len() > 0 implies exists|p: int|
                0 <= p < ps.len() && ps[p].positions@ == bs0[bx]@ by {
            let p = choose|p: int| 0 <= p < srcs.len() && srcs[p] == bx;
            assert(ps[p].positions@ == bs0[bx]@);
        }
        assert forall|p: int|
            0 <= p < ps.len() implies exists|bx: int|
                0 <= bx < bs0.len() && (#[trigger] ps[p]).positions@ == bs0[bx]@ by {
            assert(0 <= srcs[p] < bs0.len() && ps[p].positions@ == bs0[srcs[p]]@);
        }
    }
    particles
}

impl Frame {
    /// Finds the particle clusters of this frame: groups the nonzero pixels
    /// with one causal raster pass over the kernel window of the given
    /// size, merging labels through union-find, and stores one particle per
    /// merged class. An even kernel size is widened to the next odd one,
    /// which leaves the window radius at `kernel_size / 2`. An empty grid,
    /// or one with no columns, leaves the stored particles untouched.
    #[verifier::rlimit(100)]
    pub fn count_particles(&mut self, kernel_size: usize)
        requires
            grid_rect(rows_view(old(self).data@)),
        ensures
            final(self).data == old(self).data,
            old(self).data@.len() == 0 || old(self).data@[0]@.len() == 0
                ==> final(self).spec_particles() == old(self).spec_particles(),
            old(self).data@.len() > 0 && old(self).data@[0]@.len() > 0 ==> is_labeling_of(
                rows_view(old(self).data@),
                final(self).spec_particles(),
            ) && particles_unclassified(final(self).spec_particles()),
            old(self).data@.len() > 0 && old(self).data@[0]@.len() > 0 ==> merges_within_radius(
                rows_view(old(self).data@),
                final(self).spec_particles(),
                kernel_size as int / 2,
            ),
            old(self).data@.len() > 0 && old(self).data@[0]@.len() > 0
                ==> particles_window_connected(
                rows_view(old(self).data@),
                final(self).spec_particles(),
                kernel_size as int / 2,
            ),
    {
        let radius = kernel_size / 2;
        if self.data.len() == 0 {
            return ;
        }
        if self.data[0].len() == 0 {
            return ;
        }
        let (labels, mut parent) = assign_labels(&self.data, radius);
        let ghost p_assign = parent@;
        let buckets = fill_buckets(&self.data, &labels, &mut parent);
        let ghost bsv = buckets@;
        let particles = gather_particles(&self.data, buckets);
        self.particles = particles;
        proof {
            let grid = rows_view(self.data@);
            let ps = self.particles@;
            assert forall|a1: int, b1: int, a2: int, b2: int|
                cell_nonzero(grid, a1, b1) && cell_nonzero(grid, a2, b2) && within_radius(
                    a1,
                    b1,
                    a2,
                    b2,
                    radius as int,
                ) implies in_same_particle(ps, a1, b1, a2, b2) by {
                assert(grid[a1] == self.data@[a1]@);
                assert(grid[a2] == self.data@[a2]@);
                let l1 = labels@[a1]@[b1];
                let l2 = labels@[a2]@[b2];
                assert(l1 != 0);
                assert(l2 != 0);
                assert(raster_lt(a1, b1, self.data@.len() as int, 0));
                assert(raster_lt(a2, b2, self.data@.len() as int, 0));
                assert(same_class(p_assign, l1 as int, l2 as int));
                assert(l1 < p_assign.len() && l2 < p_assign.len());
                assert(uf_root_of(parent@, l1 as int) == uf_root_of(p_assign, l1 as int));
                assert(uf_root_of(parent@, l2 as int) == uf_root_of(p_assign, l2 as int));
                assert(bucket_at(bsv, a1, b1));
                let (bx1, k1) = choose|bx: int, k: int|
                    0 <= bx < bsv.len() && 0 <= k < bsv[bx]@.len() && (#[trigger] bsv[bx]@[k]).0
                        == a1 && bsv[bx]@[k].1 == b1;
                assert(bx1 == uf_root_of(parent@, l1 as int));
                assert(bucket_at(bsv, a2, b2));
                let (bx2, k2) = choose|bx: int, k: int|
                    0 <= bx < bsv.len() && 0 <= k < bsv[bx]@.len() && (#[trigger] bsv[bx]@[k]).0
                        == a2 && bsv[bx]@[k].1 == b2;
                assert(bx2 == uf_root_of(parent@, l2 as int));
                assert(bx1 == bx2);
                assert(bsv[bx1]@.len() > 0);
                let p = choose|p: int| 0 <= p < ps.len() && ps[p].positions@ == bsv[bx1]@;
                assert(ps[p].positions@[k1] == bsv[bx1]@[k1]);
                assert(ps[p].positions@[k2] == bsv[bx1]@[k2]);
                assert(in_same_particle(ps, a1, b1, a2, b2));
            }
            assert forall|p: int, k1: int, k2: int|
                #![trigger ps[p].positions@[k1], ps[p].positions@[k2]]
                0 <= p < ps.len() && 0 <= k1 < ps[p].positions@.len() && 0 <= k2
                    < ps[p].positions@.len() implies win_connected(
                grid,
                radius as int,
                ps[p].positions@[k1].0 as int,
                ps[p].positions@[k1].1 as int,
                ps[p].positions@[k2].0 as int,
                ps[p].positions@[k2].1 as int,
            ) by {
                let e1 = ps[p].positions@[k1];
                let e2 = ps[p].positions@[k2];
                let bx = choose|bx: int| 0 <= bx < bsv.len() && ps[p].positions@ == bsv[bx]@;
                assert(bsv[bx]@[k1] == e1);
                assert(bsv[bx]@[k2] == e2);
                assert(valid_pixel(grid, e1));
                assert(valid_pixel(grid, e2));
                assert(grid[e1.0 as int] == self.data@[e1.0 as int]@);
                assert(grid[e2.0 as int] == self.data@[e2.0 as int]@);
                let l1 = labels@[e1.0 as int]@[e1.1 as int];
                let l2 = labels@[e2.0 as int]@[e2.1 as int];
                assert(l1 != 0);
                assert(l2 != 0);
                assert(bx == uf_root_of(parent@, l1 as int));
                assert(bx == uf_root_of(parent@, l2 as int));
                assert(l1 < p_assign.len() && l2 < p_assign.len());
                assert(uf_root_of(parent@, l1 as int) == uf_root_of(p_assign, l1 as int));
                assert(uf_root_of(parent@, l2 as int) == uf_root_of(p_assign, l2 as int));
                assert(same_class(p_assign, l1 as int, l2 as int));
                assert(raster_lt(e1.0 as int, e1.1 as int, self.data@.len() as int, 0));
                assert(raster_lt(e2.0 as int, e2.1 as int, self.data@.len() as int, 0));
                assert(win_connected(grid, radius as int, e1.0 as int, e1.1 as int, e2.0 as int, e2.1 as int));
            }
        }
    }
}

} // verus!
