//! Arithmetic of positions in an array-embedded binary tree.
//!
//! Position 0 is the root; the children of position `p` are `2p + 1` and
//! `2p + 2`.

use vstd::prelude::*;

verus! {

/// The left child of `p`.
pub open spec fn left(p: nat) -> nat {
    2 * p + 1
}

/// The right child of `p`.
pub open spec fn right(p: nat) -> nat {
    2 * p + 2
}

/// The parent of `p`; the root is its own parent.
pub open spec fn parent(p: nat) -> nat {
    if p == 0 {
        0
    } else {
        ((p - 1) / 2) as nat
    }
}

/// Which child of its parent `p` is: 1 for a left child, 2 for a right child.
pub open spec fn side(p: nat) -> nat {
    if p % 2 == 1 {
        1
    } else {
        2
    }
}

/// The number of edges between the root and `p`.
pub open spec fn depth(p: nat) -> nat
    decreases p,
{
    if p == 0 {
        0
    } else {
        1 + depth(parent(p))
    }
}

/// `q` lies in the subtree rooted at `root` (which includes `root` itself).
pub open spec fn below(root: nat, q: nat) -> bool
    decreases q,
{
    q == root || (q > root && below(root, parent(q)))
}

/// The position, counted from `root` as if it were position 0, of a position `q`
/// in the subtree rooted at `root`.
pub open spec fn rel(root: nat, q: nat) -> nat
    decreases q,
{
    if q <= root {
        0
    } else {
        2 * rel(root, parent(q)) + side(q)
    }
}

/// The position at which `r`, counted from position 0, comes to lie when
/// position 0 is moved to `root`.
pub open spec fn graft(root: nat, r: nat) -> nat
    decreases r,
{
    if r == 0 {
        root
    } else {
        2 * graft(root, parent(r)) + side(r)
    }
}

/// A child is deeper than its parent, and names its parent and side.
pub proof fn lemma_children(p: nat)
    ensures
        parent(left(p)) == p,
        parent(right(p)) == p,
        side(left(p)) == 1,
        side(right(p)) == 2,
        depth(left(p)) == depth(p) + 1,
        depth(right(p)) == depth(p) + 1,
        below(p, p),
        below(p, left(p)),
        below(p, right(p)),
        rel(p, left(p)) == 1,
        rel(p, right(p)) == 2,
        graft(p, 1) == left(p),
        graft(p, 2) == right(p),
{
    reveal_with_fuel(depth, 2);
    reveal_with_fuel(below, 2);
    reveal_with_fuel(rel, 2);
    reveal_with_fuel(graft, 2);
}

/// Every position but the root is one of the two children of its parent.
pub proof fn lemma_parent(p: nat)
    requires
        p > 0,
    ensures
        parent(p) < p,
        p == 2 * parent(p) + side(p),
        p == left(parent(p)) || p == right(parent(p)),
{
}

/// Positions are numbered level by level.
pub proof fn lemma_depth_monotone(p: nat, q: nat)
    requires
        p <= q,
    ensures
        depth(p) <= depth(q),
    decreases q,
{
    if p > 0 {
        lemma_depth_monotone(parent(p), parent(q));
    }
}

/// A position in a subtree is at least as deep as the subtree's root, and
/// only the root itself is at the root's depth.
pub proof fn lemma_below_depth(root: nat, q: nat)
    requires
        below(root, q),
    ensures
        depth(q) >= depth(root),
        depth(q) == depth(root) ==> q == root,
        q >= root,
    decreases q,
{
    if q != root {
        lemma_below_depth(root, parent(q));
    }
}

/// The subtree of `root` is `root`, the subtree of its left child and the
/// subtree of its right child.
pub proof fn lemma_below_split(root: nat, q: nat)
    ensures
        below(root, q) <==> (q == root || below(left(root), q) || below(right(root), q)),
    decreases q,
{
    lemma_children(root);
    if q > root {
        lemma_parent(q);
        lemma_below_split(root, parent(q));
        if parent(q) == root {
            assert(q == left(root) || q == right(root));
        }
        if q == left(root) || q == right(root) {
            assert(below(root, parent(q)));
        }
    } else if q < root {
        lemma_below_never_smaller(left(root), q);
        lemma_below_never_smaller(right(root), q);
    }
}

/// Nothing in a subtree has a smaller position than its root.
pub proof fn lemma_below_never_smaller(root: nat, q: nat)
    requires
        q < root,
    ensures
        !below(root, q),
{
}

/// Being in a subtree is transitive.
pub proof fn lemma_below_trans(a: nat, b: nat, c: nat)
    requires
        below(a, b),
        below(b, c),
    ensures
        below(a, c),
    decreases c,
{
    lemma_below_depth(a, b);
    if c != b {
        lemma_below_trans(a, b, parent(c));
    }
}

/// The two subtrees under one position share nothing.
pub proof fn lemma_siblings_disjoint(p: nat, q: nat)
    ensures
        !(below(left(p), q) && below(right(p), q)),
    decreases q,
{
    lemma_children(p);
    if below(left(p), q) && below(right(p), q) {
        lemma_below_depth(left(p), q);
        lemma_below_depth(right(p), q);
        if q == left(p) || q == right(p) {
            assert(false);
        } else {
            lemma_siblings_disjoint(p, parent(q));
        }
    }
}

/// A grafted position lies in the subtree it was grafted into, and counts
/// back to where it came from.
pub proof fn lemma_graft_rel(root: nat, r: nat)
    ensures
        below(root, graft(root, r)),
        rel(root, graft(root, r)) == r,
        graft(root, r) >= root,
        r > 0 ==> graft(root, r) > root,
        r > 0 ==> parent(graft(root, r)) == graft(root, parent(r)),
        r > 0 ==> side(graft(root, r)) == side(r),
    decreases r,
{
    if r > 0 {
        lemma_graft_rel(root, parent(r));
        lemma_parent(r);
    }
}

/// A position in a subtree is the graft of its relative position.
pub proof fn lemma_rel_graft(root: nat, q: nat)
    requires
        below(root, q),
    ensures
        graft(root, rel(root, q)) == q,
        q > root ==> rel(root, q) > 0,
        q > root ==> parent(rel(root, q)) == rel(root, parent(q)),
        q > root ==> side(rel(root, q)) == side(q),
    decreases q,
{
    if q > root {
        lemma_rel_graft(root, parent(q));
        lemma_parent(q);
    }
}

/// Grafting at the root changes nothing, and everything lies below the root.
pub proof fn lemma_root(q: nat)
    ensures
        below(0, q),
        rel(0, q) == q,
        graft(0, q) == q,
    decreases q,
{
    if q > 0 {
        lemma_root(parent(q));
        lemma_parent(q);
    }
}

/// Grafting twice is grafting once at the grafted root.
pub proof fn lemma_graft_assoc(a: nat, b: nat, r: nat)
    ensures
        graft(a, graft(b, r)) == graft(graft(a, b), r),
    decreases r,
{
    if r > 0 {
        lemma_graft_assoc(a, b, parent(r));
        lemma_graft_rel(b, r);
    }
}

/// Grafting keeps the order of positions.
pub proof fn lemma_graft_monotone(root: nat, r1: nat, r2: nat)
    requires
        r1 < r2,
    ensures
        graft(root, r1) < graft(root, r2),
    decreases r2,
{
    lemma_graft_rel(root, r2);
    if r1 > 0 {
        lemma_parent(r1);
        lemma_parent(r2);
        if parent(r1) < parent(r2) {
            lemma_graft_monotone(root, parent(r1), parent(r2));
        }
    }
}

/// Grafting at a higher root gives a higher position.
pub proof fn lemma_graft_root_monotone(a: nat, b: nat, r: nat)
    requires
        a <= b,
    ensures
        graft(a, r) <= graft(b, r),
    decreases r,
{
    if r > 0 {
        lemma_graft_root_monotone(a, b, parent(r));
    }
}

/// Of two subtrees that share a position, the one with the larger root
/// lies in the other.
pub proof fn lemma_overlap(a: nat, b: nat, q: nat)
    requires
        below(a, q),
        below(b, q),
        a <= b,
    ensures
        below(a, b),
    decreases q,
{
    if q != b {
        lemma_overlap(a, b, parent(q));
    }
}

/// A finite set of positions lies under some bound.
pub proof fn lemma_finite_bound(s: Set<nat>) -> (bound: nat)
    requires
        s.finite(),
    ensures
        forall|p: nat| s.contains(p) ==> p < bound,
    decreases s.len(),
{
    if s.len() == 0 {
        assert(s =~= Set::empty()) by {
            vstd::set_lib::lemma_set_empty_equivalency_len(s);
        }
        0
    } else {
        let x = s.choose();
        let rest = lemma_finite_bound(s.remove(x));
        assert forall|p: nat| s.contains(p) implies p < rest + x + 1 by {
            if p != x {
                assert(s.remove(x).contains(p));
            }
        }
        rest + x + 1
    }
}

/// Whether `q` lies in the subtree rooted at `root`.
pub fn is_below(root: usize, q: usize) -> (r: bool)
    ensures
        r == below(root as nat, q as nat),
{
    let mut at: usize = q;
    while at > root
        invariant
            below(root as nat, at as nat) == below(root as nat, q as nat),
        decreases at,
    {
        at = (at - 1) / 2;
    }
    at == root
}

/// The position at which `r` comes to lie when position 0 is moved to
/// `root`, if it is one that can be indexed.
pub fn graft_checked(root: usize, r: usize) -> (at: Option<usize>)
    ensures
        at == (if graft(root as nat, r as nat) < usize::MAX {
            Some(graft(root as nat, r as nat) as usize)
        } else {
            None
        }),
    decreases r,
{
    if r == 0 {
        if root < usize::MAX {
            Some(root)
        } else {
            None
        }
    } else {
        let side: usize = if r % 2 == 1 {
            1
        } else {
            2
        };
        match graft_checked(root, (r - 1) / 2) {
            None => None,
            Some(above) => {
                if above > (usize::MAX - side) / 2 {
                    None
                } else {
                    let at: usize = 2 * above + side;
                    if at < usize::MAX {
                        Some(at)
                    } else {
                        None
                    }
                }
            },
        }
    }
}

/// The positions under a bound.
pub open spec fn positions_under(n: nat) -> Set<nat> {
    Set::new(|p: nat| p < n)
}

/// There are `n` positions under `n`.
pub proof fn lemma_positions_under(n: nat)
    ensures
        positions_under(n).finite(),
        positions_under(n).len() == n,
    decreases n,
{
    if n == 0 {
        assert(positions_under(n) =~= Set::empty());
    } else {
        lemma_positions_under((n - 1) as nat);
        assert(positions_under(n) =~= positions_under((n - 1) as nat).insert((n - 1) as nat));
    }
}

} // verus!
