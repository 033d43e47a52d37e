//! Union-find over cluster labels.
//!
//! Labels minted during the raster scan are merged with a disjoint-set
//! forest held in a parent table. The table is kept *descending*: every
//! entry points at or below its own index, so parent chains terminate and
//! `uf_find` can walk them iteratively. Merging therefore always hangs the
//! larger root under the smaller one; which root survives a merge is not
//! observable through the labeling contract, which speaks only of the
//! grouping of pixels.

use vstd::prelude::*;

verus! {

/// Well-formed parent table: every entry points at or below its own index.
pub open spec fn uf_wf(p: Seq<usize>) -> bool {
    forall|k: int| 0 <= k < p.len() ==> #[trigger] p[k] <= k
}

/// The root that the parent chain starting at `i` descends to.
pub open spec fn uf_root_of(p: Seq<usize>, i: int) -> int
    recommends
        uf_wf(p),
        0 <= i < p.len(),
    decreases i,
        when uf_wf(p) && 0 <= i < p.len()
{
    if p[i] == i {
        i
    } else {
        uf_root_of(p, p[i] as int)
    }
}

/// A chain's root lies at or below its start and is a fixed point of the
/// parent table.
pub proof fn lemma_uf_root_le(p: Seq<usize>, i: int)
    requires
        uf_wf(p),
        0 <= i < p.len(),
    ensures
        0 <= uf_root_of(p, i) <= i,
        p[uf_root_of(p, i)] == uf_root_of(p, i),
    decreases i,
{
    if p[i] != i {
        lemma_uf_root_le(p, p[i] as int);
    }
}

/// Path compression preserves every chain's root: pointing one entry
/// straight at its own chain's root leaves the root of every chain as it
/// was.
pub proof fn lemma_uf_root_compress(p: Seq<usize>, q: Seq<usize>, x: int, i: int)
    requires
        uf_wf(p),
        uf_wf(q),
        p.len() == q.len(),
        0 <= x < p.len(),
        0 <= i < p.len(),
        forall|k: int| 0 <= k < p.len() && k != x ==> p[k] == #[trigger] q[k],
        q[x] == uf_root_of(p, x),
    ensures
        uf_root_of(q, i) == uf_root_of(p, i),
    decreases i,
{
    lemma_uf_root_le(p, x);
    if p[i] == i {
    } else if i != x {
        lemma_uf_root_compress(p, q, x, p[i] as int);
    } else {
        let r = uf_root_of(p, x);
        lemma_uf_root_le(p, i);
        assert(r < x);
        assert(q[r] == p[r] == r);
        assert(uf_root_of(q, r) == r);
    }
}

/// Labels `x` and `y` have been merged: their chains share a root.
pub open spec fn same_class(p: Seq<usize>, x: int, y: int) -> bool {
    uf_root_of(p, x) == uf_root_of(p, y)
}

/// Hanging one root under another maps exactly the first root's class onto
/// the second's and leaves every other chain alone.
pub proof fn lemma_uf_root_link(p: Seq<usize>, q: Seq<usize>, r1: int, r2: int, i: int)
    requires
        uf_wf(p),
        uf_wf(q),
        p.len() == q.len(),
        0 <= r1 < r2 < p.len(),
        p[r1] == r1,
        p[r2] == r2,
        forall|k: int| 0 <= k < p.len() && k != r2 ==> p[k] == #[trigger] q[k],
        q[r2] == r1,
        0 <= i < p.len(),
    ensures
        uf_root_of(q, i) == if uf_root_of(p, i) == r2 {
            r1
        } else {
            uf_root_of(p, i)
        },
    decreases i,
{
    if p[i] == i {
        if i == r2 {
            assert(q[r2] == r1);
            assert(q[r1] == r1);
            assert(uf_root_of(q, r1) == r1);
        }
    } else {
        assert(i != r2);
        lemma_uf_root_link(p, q, r1, r2, p[i] as int);
    }
}

/// A label whose chain root is itself is a fixed point of the table.
proof fn lemma_root_fixed(p: Seq<usize>, r: int)
    requires
        uf_wf(p),
        0 <= r < p.len(),
        uf_root_of(p, r) == r,
    ensures
        p[r] == r,
{
    if p[r] != r {
        lemma_uf_root_le(p, p[r] as int);
    }
}

/// Minting a fresh label leaves every existing chain alone.
pub proof fn lemma_uf_root_push(p: Seq<usize>, v: usize, m: int)
    requires
        uf_wf(p),
        uf_wf(p.push(v)),
        0 <= m < p.len(),
    ensures
        uf_root_of(p.push(v), m) == uf_root_of(p, m),
    decreases m,
{
    if p[m] != m {
        lemma_uf_root_push(p, v, p[m] as int);
    }
}

/// Iterative find with path compression: walks the parent chain of `i` to
/// its root, then points every link of the chain straight at that root.
pub fn uf_find(p: &mut Vec<usize>, i: usize) -> (r: usize)
    requires
        uf_wf(old(p)@),
        i < old(p)@.len(),
    ensures
        uf_wf(final(p)@),
        final(p)@.len() == old(p)@.len(),
        r < final(p)@.len(),
        final(p)@[r as int] == r,
        r == uf_root_of(old(p)@, i as int),
        uf_root_of(final(p)@, i as int) == r,
        forall|m: int| 0 <= m < old(p)@.len() ==> uf_root_of(final(p)@, m) == uf_root_of(old(p)@, m),
{
    let ghost p0 = p@;
    let mut cur: usize = i;
    while p[cur] != cur
        invariant
            uf_wf(p@),
            p@ == p0,
            cur < p@.len(),
            uf_root_of(p@, cur as int) == uf_root_of(p0, i as int),
        decreases cur,
    {
        cur = p[cur];
    }
    let root = cur;
    let mut x: usize = i;
    while p[x] != x
        invariant
            uf_wf(p@),
            p@.len() == p0.len(),
            i < p@.len(),
            x < p@.len(),
            root < p@.len(),
            p@[root as int] == root,
            uf_root_of(p@, x as int) == root,
            uf_root_of(p@, i as int) == root,
            forall|m: int| 0 <= m < p@.len() ==> uf_root_of(p@, m) == uf_root_of(p0, m),
        decreases x,
    {
        let next = p[x];
        proof {
            lemma_uf_root_le(p@, x as int);
        }
        let ghost pprev = p@;
        p[x] = root;
        proof {
            assert forall|k: int| 0 <= k < p@.len() implies #[trigger] p@[k] <= k by {
                assert(pprev[k] <= k);
            }
            lemma_uf_root_compress(pprev, p@, x as int, next as int);
            lemma_uf_root_compress(pprev, p@, x as int, i as int);
            assert forall|m: int| 0 <= m < p@.len() implies uf_root_of(p@, m) == uf_root_of(
                p0,
                m,
            ) by {
                lemma_uf_root_compress(pprev, p@, x as int, m);
            }
        }
        x = next;
    }
    root
}

/// Merges the classes of labels `a` and `b`, hanging the larger root under
/// the smaller so that the table stays descending.
pub fn uf_union(p: &mut Vec<usize>, a: usize, b: usize)
    requires
        uf_wf(old(p)@),
        a < old(p)@.len(),
        b < old(p)@.len(),
    ensures
        uf_wf(final(p)@),
        final(p)@.len() == old(p)@.len(),
        same_class(final(p)@, a as int, b as int),
        forall|x: int, y: int|
            #![trigger same_class(final(p)@, x, y)]
            0 <= x < old(p)@.len() && 0 <= y < old(p)@.len() ==> (same_class(final(p)@, x, y)
                <==> (same_class(old(p)@, x, y) || ((same_class(old(p)@, x, a as int)
                || same_class(old(p)@, x, b as int)) && (same_class(old(p)@, y, a as int)
                || same_class(old(p)@, y, b as int))))),
{
    let ghost p0 = p@;
    let ra = uf_find(p, a);
    let rb = uf_find(p, b);
    let ghost pmid = p@;
    proof {
        assert(uf_root_of(pmid, ra as int) == ra as int);
        assert(uf_root_of(pmid, rb as int) == rb as int);
        lemma_root_fixed(pmid, ra as int);
        lemma_root_fixed(pmid, rb as int);
    }
    if ra < rb {
        p[rb] = ra;
        proof {
            assert forall|k: int| 0 <= k < p@.len() implies #[trigger] p@[k] <= k by {
                assert(pmid[k] <= k);
            }
            assert forall|m: int| 0 <= m < p@.len() implies uf_root_of(p@, m) == (
            if uf_root_of(pmid, m) == rb {
                ra as int
            } else {
                uf_root_of(pmid, m)
            }) by {
                lemma_uf_root_link(pmid, p@, ra as int, rb as int, m);
            }
        }
    } else if rb < ra {
        p[ra] = rb;
        proof {
            assert forall|k: int| 0 <= k < p@.len() implies #[trigger] p@[k] <= k by {
                assert(pmid[k] <= k);
            }
            assert forall|m: int| 0 <= m < p@.len() implies uf_root_of(p@, m) == (
            if uf_root_of(pmid, m) == ra {
                rb as int
            } else {
                uf_root_of(pmid, m)
            }) by {
                lemma_uf_root_link(pmid, p@, rb as int, ra as int, m);
            }
        }
    }
}

} // verus!
