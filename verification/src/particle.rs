//! Particle clusters and their classification.
//!
//! A particle is one connected cluster of nonzero pixels, recorded as
//! `(row, col, intensity)` triples. The classifier measures the cluster's
//! axis-aligned bounding box: a span of at least `12` in either axis marks a
//! long track consistent with a crossing muon, anything shorter stays
//! `Unknown`.

use vstd::prelude::*;

verus! {

/// The type assigned to a cluster by the classifier.
#[derive(Debug, Clone, Copy, PartialEq, Eq, Structural)]
pub enum ParticleType {
    /// A long track; carries the bounding-box span that triggered it.
    PossibleMuon(usize),
    Unknown,
}

/// One cluster of nonzero pixels, as `(row, col, intensity)` triples.
#[derive(Debug)]
pub struct Particle {
    pub particle_type: ParticleType,
    pub positions: Vec<(usize, usize, i16)>,
}

/// Least row index among the cluster's pixels.
pub open spec fn min_row(s: Seq<(usize, usize, i16)>) -> int
    recommends
        s.len() > 0,
    decreases s.len(),
{
    if s.len() <= 1 {
        s[0].0 as int
    } else {
        let m = min_row(s.drop_last());
        if (s.last().0 as int) < m {
            s.last().0 as int
        } else {
            m
        }
    }
}

/// Greatest row index among the cluster's pixels.
pub open spec fn max_row(s: Seq<(usize, usize, i16)>) -> int
    recommends
        s.len() > 0,
    decreases s.len(),
{
    if s.len() <= 1 {
        s[0].0 as int
    } else {
        let m = max_row(s.drop_last());
        if (s.last().0 as int) > m {
            s.last().0 as int
        } else {
            m
        }
    }
}

/// Least column index among the cluster's pixels.
pub open spec fn min_col(s: Seq<(usize, usize, i16)>) -> int
    recommends
        s.len() > 0,
    decreases s.len(),
{
    if s.len() <= 1 {
        s[0].1 as int
    } else {
        let m = min_col(s.drop_last());
        if (s.last().1 as int) < m {
            s.last().1 as int
        } else {
            m
        }
    }
}

/// Greatest column index among the cluster's pixels.
pub open spec fn max_col(s: Seq<(usize, usize, i16)>) -> int
    recommends
        s.len() > 0,
    decreases s.len(),
{
    if s.len() <= 1 {
        s[0].1 as int
    } else {
        let m = max_col(s.drop_last());
        if (s.last().1 as int) > m {
            s.last().1 as int
        } else {
            m
        }
    }
}

/// The bounding-box span of a cluster: the larger of its row range and its
/// column range.
pub open spec fn bbox_span(s: Seq<(usize, usize, i16)>) -> int
    recommends
        s.len() > 0,
{
    let row_span = max_row(s) - min_row(s);
    let col_span = max_col(s) - min_col(s);
    if row_span > col_span {
        row_span
    } else {
        col_span
    }
}

/// What the classifier assigns to a cluster: `PossibleMuon` carrying the
/// bounding-box span when that span reaches `12`, `Unknown` otherwise.
pub open spec fn classified(s: Seq<(usize, usize, i16)>) -> ParticleType
    recommends
        s.len() > 0,
{
    if bbox_span(s) >= 12 {
        ParticleType::PossibleMuon(bbox_span(s) as usize)
    } else {
        ParticleType::Unknown
    }
}

impl Particle {
    /// A fresh, not yet classified cluster over the given pixels.
    pub fn new(positions: Vec<(usize, usize, i16)>) -> (r: Particle)
        ensures
            r.particle_type == ParticleType::Unknown,
            r.positions == positions,
    {
        Particle { particle_type: ParticleType::Unknown, positions }
    }

    /// Classifies this cluster by its bounding-box span, leaving the pixel
    /// set untouched.
    pub fn calculate_type(&mut self)
        requires
            old(self).positions@.len() > 0,
        ensures
            final(self).positions == old(self).positions,
            final(self).particle_type == classified(old(self).positions@),
    {
        let ghost s = self.positions@;
        let first = self.positions[0];
        let mut min_r: usize = first.0;
        let mut max_r: usize = first.0;
        let mut min_c: usize = first.1;
        let mut max_c: usize = first.1;
        let n = self.positions.len();
        let mut k: usize = 1;
        proof {
            assert(s.take(1) =~= seq![s[0]]);
        }
        while k < n
            invariant
                1 <= k <= n,
                n == s.len(),
                self.positions@ == s,
                min_r <= max_r,
                min_c <= max_c,
                min_r == min_row(s.take(k as int)),
                max_r == max_row(s.take(k as int)),
                min_c == min_col(s.take(k as int)),
                max_c == max_col(s.take(k as int)),
            decreases n - k,
        {
            let p = self.positions[k];
            proof {
                assert(s.take(k + 1).drop_last() =~= s.take(k as int));
                assert(s.take(k + 1).last() == s[k as int]);
            }
            if p.0 < min_r {
                min_r = p.0;
            }
            if p.0 > max_r {
                max_r = p.0;
            }
            if p.1 < min_c {
                min_c = p.1;
            }
            if p.1 > max_c {
                max_c = p.1;
            }
            k = k + 1;
        }
        proof {
            assert(s.take(n as int) =~= s);
        }
        let row_span = max_r - min_r;
        let col_span = max_c - min_c;
        let size = if row_span > col_span {
            row_span
        } else {
            col_span
        };
        if size >= 12 {
            self.particle_type = ParticleType::PossibleMuon(size);
        } else {
            self.particle_type = ParticleType::Unknown;
        }
    }
}

impl Clone for Particle {
    /// A cluster equal to this one: same type, same pixel list.
    fn clone(&self) -> (r: Self)
        ensures
            r.particle_type == self.particle_type,
            r.positions@ == self.positions@,
    {
        let mut positions: Vec<(usize, usize, i16)> = Vec::new();
        let mut k: usize = 0;
        while k < self.positions.len()
            invariant
                k <= self.positions.len(),
                positions@ == self.positions@.take(k as int),
            decreases self.positions.len() - k,
        {
            positions.push(self.positions[k]);
            k = k + 1;
        }
        proof {
            assert(self.positions@.take(self.positions@.len() as int) =~= self.positions@);
        }
        Particle { particle_type: self.particle_type, positions }
    }
}

} // verus!
