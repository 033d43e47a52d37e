//! Particle filters over named kinds.
//!
//! The sink selects particles through a filter built from a list of kind
//! names. An empty list selects every particle; otherwise a particle is
//! selected when its classified type matches one of the recognized kinds,
//! and unrecognized names select nothing.

use vstd::prelude::*;
use vstd::string::*;

use crate::particle::{Particle, ParticleType};

verus! {

/// A named particle kind that a filter can select.
#[derive(Debug, Clone, Copy, PartialEq, Eq, Structural)]
pub enum FilterKind {
    /// Clusters classified as possible muons.
    Muon,
}

/// Whether a particle of type `t` belongs to the named kind.
pub open spec fn kind_matches(kind: FilterKind, t: ParticleType) -> bool {
    match kind {
        FilterKind::Muon => t is PossibleMuon,
    }
}

/// A tagged particle filter: either every particle, or those whose type
/// matches one of the stored kinds.
#[derive(Debug)]
pub struct ParticleFilter {
    /// True when the filter was built from an empty name list; it then
    /// selects every particle regardless of type.
    pub select_all: bool,
    /// The kinds recognized among the names the filter was built from.
    pub kinds: Vec<FilterKind>,
}

/// Whether the filter selects a particle of type `t`.
pub open spec fn filter_selects(f: ParticleFilter, t: ParticleType) -> bool {
    f.select_all || exists|k: int|
        0 <= k < f.kinds@.len() && kind_matches(#[trigger] f.kinds@[k], t)
}

impl ParticleFilter {
    /// Whether this filter selects the given particle, judged by its
    /// classified type alone.
    pub fn selects(&self, particle: &Particle) -> (r: bool)
        ensures
            r == filter_selects(*self, particle.particle_type),
    {
        if self.select_all {
            return true;
        }
        let mut k: usize = 0;
        while k < self.kinds.len()
            invariant
                k <= self.kinds@.len(),
                forall|q: int|
                    0 <= q < k ==> !kind_matches(#[trigger] self.kinds@[q], particle.particle_type),
            decreases self.kinds@.len() - k,
        {
            let matched = match self.kinds[k] {
                FilterKind::Muon => matches!(particle.particle_type, ParticleType::PossibleMuon(_)),
            };
            if matched {
                return true;
            }
            k = k + 1;
        }
        false
    }
}

/// Builds the particle filter named by the given list: an empty list
/// selects every particle; otherwise the name `muon` selects possible
/// muons and unrecognized names are ignored, so a nonempty list of only
/// unrecognized names selects nothing.
pub fn make_filter(to_filter: Vec<String>) -> (r: ParticleFilter)
    ensures
        r.select_all == (to_filter@.len() == 0),
        r.kinds@.contains(FilterKind::Muon) == (exists|i: int|
            0 <= i < to_filter@.len() && (#[trigger] to_filter@[i])@ == "muon"@),
        forall|t: ParticleType|
            filter_selects(r, t) == (to_filter@.len() == 0 || ((exists|i: int|
                0 <= i < to_filter@.len() && (#[trigger] to_filter@[i])@ == "muon"@)
                && t is PossibleMuon)),
{
    let muon_name = String::from_str("muon");
    let mut kinds: Vec<FilterKind> = Vec::new();
    let mut i: usize = 0;
    let mut found_muon = false;
    while i < to_filter.len()
        invariant
            i <= to_filter@.len(),
            muon_name@ == "muon"@,
            found_muon == (exists|q: int|
                0 <= q < i && (#[trigger] to_filter@[q])@ == "muon"@),
            kinds@.contains(FilterKind::Muon) == found_muon,
            forall|k: int| 0 <= k < kinds@.len() ==> #[trigger] kinds@[k] == FilterKind::Muon,
        decreases to_filter@.len() - i,
    {
        if !found_muon && to_filter[i] == muon_name {
            kinds.push(FilterKind::Muon);
            found_muon = true;
            proof {
                assert(kinds@[kinds@.len() - 1] == FilterKind::Muon);
            }
        }
        i = i + 1;
    }
    let select_all = to_filter.len() == 0;
    let r = ParticleFilter { select_all, kinds };
    proof {
        assert forall|t: ParticleType|
            filter_selects(r, t) == (to_filter@.len() == 0 || (found_muon
                && t is PossibleMuon)) by {
            if !r.select_all {
                if found_muon && t is PossibleMuon {
                    let k = choose|k: int|
                        0 <= k < r.kinds@.len() && r.kinds@[k] == FilterKind::Muon;
                    assert(kind_matches(r.kinds@[k], t));
                }
            }
        }
    }
    r
}

} // verus!
