//! Cutting a subtree out of a tree and planting one into a tree.

use vstd::prelude::*;
use crate::position::{below, graft, graft_checked, left, parent, rel, right};
use crate::position::{lemma_below_depth, lemma_below_split, lemma_below_trans, lemma_children};
use crate::position::{lemma_graft_assoc, lemma_graft_monotone, lemma_graft_rel, lemma_parent};
use crate::position::{lemma_graft_root_monotone, lemma_overlap};
use crate::position::{lemma_rel_graft, lemma_root, lemma_siblings_disjoint};
use crate::tree::{connected, is_tree, lemma_nothing_below_a_gap, Node, VecTree};

verus! {

/// The tree without the subtree rooted at `root`.
pub open spec fn without(m: Map<nat, Node>, root: nat) -> Map<nat, Node> {
    Map::new(|q: nat| m.contains_key(q) && !below(root, q), |q: nat| m[q])
}

/// The subtree rooted at `root`, as a tree of its own: `root` becomes
/// position 0, and every node keeps its place relative to it.
pub open spec fn subtree(m: Map<nat, Node>, root: nat) -> Map<nat, Node> {
    Map::new(|r: nat| m.contains_key(graft(root, r)), |r: nat| m[graft(root, r)])
}

/// Position `q` receives a node when the tree `s` is planted at `root`.
pub open spec fn covers(s: Map<nat, Node>, root: nat, q: nat) -> bool {
    below(root, q) && s.contains_key(rel(root, q))
}

/// The tree with the tree `s` planted at `root`: the root of `s` comes to
/// lie at `root` and every node of `s` keeps its place relative to it. A
/// position that receives no node keeps what it held.
pub open spec fn planted(m: Map<nat, Node>, root: nat, s: Map<nat, Node>) -> Map<nat, Node> {
    Map::new(
        |q: nat| covers(s, root, q) || m.contains_key(q),
        |q: nat|
            if covers(s, root, q) {
                s[rel(root, q)]
            } else {
                m[q]
            },
    )
}

/// Planted at `root`, every node of `s` lies at a position that can be indexed.
pub open spec fn fits(s: Map<nat, Node>, root: nat) -> bool {
    forall|r: nat| s.contains_key(r) ==> #[trigger] graft(root, r) < usize::MAX
}

/// Under `root` the tree is in one piece: every occupied position under
/// `root`, but `root` itself, has an occupied parent.
pub open spec fn connected_below(m: Map<nat, Node>, root: nat) -> bool {
    forall|q: nat|
        #![trigger parent(q)]
        below(root, q) && q != root && m.contains_key(q) ==> m.contains_key(parent(q))
}

/// A tree in one piece is in one piece under each of its positions.
pub proof fn lemma_connected_below(m: Map<nat, Node>, root: nat)
    requires
        connected(m),
    ensures
        connected_below(m, root),
{
    assert forall|q: nat|
        #![trigger parent(q)]
        below(root, q) && q != root && m.contains_key(q) implies m.contains_key(parent(q)) by {}
}

/// Where the tree is in one piece under `root`, nothing is occupied under an
/// unoccupied position there.
pub proof fn lemma_gap_below(m: Map<nat, Node>, root: nat, gap: nat, q: nat)
    requires
        connected_below(m, root),
        below(root, gap),
        !m.contains_key(gap),
        below(gap, q),
    ensures
        !m.contains_key(q),
    decreases q,
{
    if q != gap {
        lemma_gap_below(m, root, gap, parent(q));
        lemma_below_trans(root, gap, q);
        lemma_below_depth(root, gap);
        assert(below(root, q) && q != root && m.contains_key(q) ==> m.contains_key(parent(q)));
    }
}

/// Relative positions compose: counted from `a`, a position under `b` is the
/// graft of its position counted from `b` at the position of `b` counted
/// from `a`.
pub proof fn lemma_rel_compose(a: nat, b: nat, q: nat)
    requires
        below(a, b),
        below(b, q),
    ensures
        rel(a, q) == graft(rel(a, b), rel(b, q)),
    decreases q,
{
    lemma_below_depth(a, b);
    if q != b {
        lemma_rel_compose(a, b, parent(q));
        lemma_rel_graft(b, q);
        lemma_parent(q);
    }
}

/// Under the left child of `dst`, moving from `dst` to `src` is moving from
/// the left child of `dst` to the left child of `src`; and so on the right.
pub proof fn lemma_shift_child(src: nat, dst: nat, q: nat)
    ensures
        below(left(dst), q) ==> graft(src, rel(dst, q)) == graft(left(src), rel(left(dst), q)),
        below(right(dst), q) ==> graft(src, rel(dst, q)) == graft(
            right(src),
            rel(right(dst), q),
        ),
{
    lemma_children(dst);
    lemma_children(src);
    if below(left(dst), q) {
        lemma_rel_compose(dst, left(dst), q);
        lemma_graft_assoc(src, 1, rel(left(dst), q));
    }
    if below(right(dst), q) {
        lemma_rel_compose(dst, right(dst), q);
        lemma_graft_assoc(src, 2, rel(right(dst), q));
    }
}

/// The subtree of a child, grafted at the child, is part of the subtree of
/// the parent.
pub proof fn lemma_graft_child(root: nat, r: nat)
    ensures
        graft(left(root), r) == graft(root, graft(1, r)),
        graft(right(root), r) == graft(root, graft(2, r)),
{
    lemma_children(root);
    lemma_graft_assoc(root, 1, r);
    lemma_graft_assoc(root, 2, r);
}

/// What fits when planted at `dst` has children that fit at the children of `dst`.
pub proof fn lemma_fits_children(m: Map<nat, Node>, src: nat, dst: nat)
    requires
        fits(subtree(m, src), dst),
    ensures
        fits(subtree(m, left(src)), left(dst)),
        fits(subtree(m, right(src)), right(dst)),
        m.contains_key(src) ==> dst < usize::MAX,
{
    assert forall|r: nat| subtree(m, left(src)).contains_key(r) implies #[trigger] graft(
        left(dst),
        r,
    ) < usize::MAX by {
        lemma_graft_child(src, r);
        lemma_graft_child(dst, r);
        assert(subtree(m, src).contains_key(graft(1, r)));
    }
    assert forall|r: nat| subtree(m, right(src)).contains_key(r) implies #[trigger] graft(
        right(dst),
        r,
    ) < usize::MAX by {
        lemma_graft_child(src, r);
        lemma_graft_child(dst, r);
        assert(subtree(m, src).contains_key(graft(2, r)));
    }
    if m.contains_key(src) {
        assert(subtree(m, src).contains_key(0));
        assert(graft(dst, 0) == dst);
    }
}

/// Moving the subtree at `src` of `m` to `dst` in `t` can be done in three
/// steps: the left subtree, the node at `src`, the right subtree.
pub proof fn lemma_move_in_steps(t: Map<nat, Node>, dst: nat, m: Map<nat, Node>, src: nat)
    requires
        m.contains_key(src),
        connected_below(m, src),
    ensures
        ({
            let m1 = without(m, left(src));
            let t1 = planted(t, left(dst), subtree(m, left(src)));
            let m2 = m1.remove(src);
            let t2 = t1.insert(dst, m[src]);
            &&& m1.contains_key(src) && m1[src] == m[src]
            &&& !m.contains_key(left(src)) ==> m1 == m && t1 == t
            &&& connected_below(m, left(src))
            &&& connected_below(m2, right(src))
            &&& m2.contains_key(right(src)) == m.contains_key(right(src))
            &&& subtree(m2, right(src)) == subtree(m, right(src))
            &&& !m.contains_key(right(src)) ==> without(m2, right(src)) == m2 && planted(
                t2,
                right(dst),
                subtree(m2, right(src)),
            ) == t2
            &&& without(m2, right(src)) == without(m, src)
            &&& planted(t2, right(dst), subtree(m2, right(src))) == planted(
                t,
                dst,
                subtree(m, src),
            )
        }),
{
    let sl = subtree(m, left(src));
    let sr = subtree(m, right(src));
    let m1 = without(m, left(src));
    let t1 = planted(t, left(dst), sl);
    let m2 = m1.remove(src);
    let t2 = t1.insert(dst, m[src]);
    let m3 = without(m2, right(src));
    let t3 = planted(t2, right(dst), subtree(m2, right(src)));
    lemma_children(src);
    lemma_children(dst);
    assert forall|q: nat| below(left(src), q) || below(right(src), q) implies below(src, q) && q
        != src by {
        lemma_below_split(src, q);
        if below(left(src), q) {
            lemma_below_depth(left(src), q);
        } else {
            lemma_below_depth(right(src), q);
        }
    }
    assert(connected_below(m, left(src))) by {
        assert forall|q: nat|
            #![trigger parent(q)]
            below(left(src), q) && q != left(src) && m.contains_key(q) implies m.contains_key(
                parent(q),
            ) by {
            assert(below(src, q) && q != src && m.contains_key(q) ==> m.contains_key(parent(q)));
        }
    }
    assert(connected_below(m2, right(src))) by {
        assert forall|q: nat|
            #![trigger parent(q)]
            below(right(src), q) && q != right(src) && m2.contains_key(q) implies m2.contains_key(
                parent(q),
            ) by {
            assert(below(src, q) && q != src && m.contains_key(q) ==> m.contains_key(parent(q)));
            lemma_below_depth(right(src), parent(q));
            lemma_siblings_disjoint(src, parent(q));
        }
    }
    assert(subtree(m2, right(src)) =~= sr) by {
        assert forall|r: nat| m2.contains_key(graft(right(src), r)) == m.contains_key(
            graft(right(src), r),
        ) by {
            lemma_graft_rel(right(src), r);
            lemma_siblings_disjoint(src, graft(right(src), r));
        }
    }
    if !m.contains_key(left(src)) {
        assert forall|q: nat| below(left(src), q) implies !m.contains_key(q) by {
            lemma_gap_below(m, src, left(src), q);
        }
        assert(m1 =~= m);
        assert forall|q: nat| !covers(sl, left(dst), q) by {
            lemma_graft_rel(left(src), rel(left(dst), q));
        }
        assert(t1 =~= t);
    }
    if !m.contains_key(right(src)) {
        assert forall|q: nat| below(right(src), q) implies !m.contains_key(q) by {
            lemma_gap_below(m, src, right(src), q);
        }
        assert(m3 =~= m2);
        assert forall|q: nat| !covers(sr, right(dst), q) by {
            lemma_graft_rel(right(src), rel(right(dst), q));
        }
        assert(t3 =~= t2);
    }
    assert(m3 =~= without(m, src)) by {
        assert forall|q: nat| m3.contains_key(q) == without(m, src).contains_key(q) by {
            lemma_below_split(src, q);
        }
    }
    let goal = planted(t, dst, subtree(m, src));
    assert forall|q: nat|
        #![trigger t3.dom().contains(q)]
        #![trigger goal.dom().contains(q)]
        t3.dom().contains(q) == goal.dom().contains(q) && (t3.dom().contains(q) ==> t3[q]
            == goal[q]) by {
        lemma_below_split(dst, q);
        lemma_shift_child(src, dst, q);
        lemma_siblings_disjoint(dst, q);
        if below(left(dst), q) {
            lemma_below_depth(left(dst), q);
        }
        if below(right(dst), q) {
            lemma_below_depth(right(dst), q);
        }
    }
    assert(t3 =~= goal);
}

/// Cutting a subtree out of a tree in one piece leaves it in one piece.
pub proof fn lemma_without_connected(m: Map<nat, Node>, root: nat)
    requires
        connected(m),
    ensures
        connected(without(m, root)),
{
    assert forall|q: nat| #![trigger parent(q)] without(m, root).contains_key(q) implies without(
        m,
        root,
    ).contains_key(parent(q)) by {
        assert(m.contains_key(q) ==> m.contains_key(parent(q)));
        if below(root, parent(q)) {
            lemma_below_depth(root, parent(q));
        }
    }
}

/// A subtree of a tree in one piece is in one piece.
pub proof fn lemma_subtree_connected(m: Map<nat, Node>, root: nat)
    requires
        connected(m),
    ensures
        connected(subtree(m, root)),
{
    assert forall|r: nat| #![trigger parent(r)] subtree(m, root).contains_key(r) implies subtree(
        m,
        root,
    ).contains_key(parent(r)) by {
        lemma_graft_rel(root, r);
        assert(m.contains_key(graft(root, r)) ==> m.contains_key(parent(graft(root, r))));
    }
}

/// A tree in one piece, planted under an occupied position or at the root of
/// a tree in one piece, gives a tree in one piece.
pub proof fn lemma_planted_connected(m: Map<nat, Node>, root: nat, s: Map<nat, Node>)
    requires
        connected(m),
        connected(s),
        root == 0 || m.contains_key(parent(root)),
    ensures
        connected(planted(m, root, s)),
{
    let after = planted(m, root, s);
    assert forall|q: nat| #![trigger parent(q)] after.contains_key(q) implies after.contains_key(
        parent(q),
    ) by {
        if covers(s, root, q) {
            if q != root {
                lemma_rel_graft(root, q);
                assert(s.contains_key(rel(root, q)) ==> s.contains_key(parent(rel(root, q))));
                assert(covers(s, root, parent(q)));
            }
        } else {
            assert(m.contains_key(q) ==> m.contains_key(parent(q)));
        }
    }
}

/// Nothing of the tree lies in the subtree rooted at `root`.
pub open spec fn clear_below(m: Map<nat, Node>, root: nat) -> bool {
    forall|q: nat| m.contains_key(q) ==> !below(root, q)
}

/// A tree planted where nothing was can be cut out again: what is cut out
/// is the planted tree, and what is left is the tree from before.
pub proof fn lemma_plant_extract_round_trip(m: Map<nat, Node>, root: nat, s: Map<nat, Node>)
    requires
        clear_below(m, root),
    ensures
        subtree(planted(m, root, s), root) == s,
        without(planted(m, root, s), root) == m,
{
    let after = planted(m, root, s);
    let cut = subtree(after, root);
    let rest = without(after, root);
    assert forall|r: nat|
        #![trigger cut.dom().contains(r)]
        #![trigger s.dom().contains(r)]
        cut.dom().contains(r) == s.dom().contains(r) && (cut.dom().contains(r) ==> cut[r]
            == s[r]) by {
        lemma_graft_rel(root, r);
    }
    assert(cut =~= s);
    assert forall|q: nat|
        #![trigger rest.dom().contains(q)]
        #![trigger m.dom().contains(q)]
        rest.dom().contains(q) == m.dom().contains(q) && (rest.dom().contains(q) ==> rest[q]
            == m[q]) by {}
    assert(rest =~= m);
}

/// Neither of the subtrees rooted at `a` and `b` holds the other.
pub open spec fn apart(a: nat, b: nat) -> bool {
    !below(a, b) && !below(b, a)
}

/// Two subtrees of which neither holds the other share no position.
pub proof fn lemma_apart(a: nat, b: nat, q: nat)
    requires
        apart(a, b),
    ensures
        !(below(a, q) && below(b, q)),
{
    if below(a, q) && below(b, q) {
        if a <= b {
            lemma_overlap(a, b, q);
        } else {
            lemma_overlap(b, a, q);
        }
    }
}

/// Cutting at `b` and planting at `a`, apart from `b`, can be done in
/// either order; and what is planted at `a` does not show under `b`.
pub proof fn lemma_plant_apart(m: Map<nat, Node>, a: nat, s: Map<nat, Node>, b: nat)
    requires
        apart(a, b),
    ensures
        without(planted(m, a, s), b) == planted(without(m, b), a, s),
        subtree(planted(m, a, s), b) == subtree(m, b),
{
    let cut = without(planted(m, a, s), b);
    let plant = planted(without(m, b), a, s);
    assert forall|q: nat|
        #![trigger cut.dom().contains(q)]
        #![trigger plant.dom().contains(q)]
        cut.dom().contains(q) == plant.dom().contains(q) && (cut.dom().contains(q) ==> cut[q]
            == plant[q]) by {
        lemma_apart(a, b, q);
    }
    assert(cut =~= plant);
    let under = subtree(planted(m, a, s), b);
    let before = subtree(m, b);
    assert forall|r: nat|
        #![trigger under.dom().contains(r)]
        #![trigger before.dom().contains(r)]
        under.dom().contains(r) == before.dom().contains(r) && (under.dom().contains(r)
            ==> under[r] == before[r]) by {
        lemma_graft_rel(b, r);
        lemma_apart(a, b, graft(b, r));
    }
    assert(under =~= before);
}

/// Cutting at `a` does not change what is under `b`, apart from `a`.
pub proof fn lemma_cut_apart(m: Map<nat, Node>, a: nat, b: nat)
    requires
        apart(a, b),
    ensures
        subtree(without(m, a), b) == subtree(m, b),
        without(without(m, a), b) == without(without(m, b), a),
{
    let under = subtree(without(m, a), b);
    let before = subtree(m, b);
    assert forall|r: nat|
        #![trigger under.dom().contains(r)]
        #![trigger before.dom().contains(r)]
        under.dom().contains(r) == before.dom().contains(r) && (under.dom().contains(r)
            ==> under[r] == before[r]) by {
        lemma_graft_rel(b, r);
        lemma_apart(a, b, graft(b, r));
    }
    assert(under =~= before);
    assert(without(without(m, a), b) =~= without(without(m, b), a));
}

/// Two trees planted apart from each other can be planted in either order.
pub proof fn lemma_plant_commutes(
    m: Map<nat, Node>,
    a: nat,
    s: Map<nat, Node>,
    b: nat,
    t: Map<nat, Node>,
)
    requires
        apart(a, b),
    ensures
        planted(planted(m, a, s), b, t) == planted(planted(m, b, t), a, s),
{
    let one = planted(planted(m, a, s), b, t);
    let other = planted(planted(m, b, t), a, s);
    assert forall|q: nat|
        #![trigger one.dom().contains(q)]
        #![trigger other.dom().contains(q)]
        one.dom().contains(q) == other.dom().contains(q) && (one.dom().contains(q) ==> one[q]
            == other[q]) by {
        lemma_apart(a, b, q);
    }
    assert(one =~= other);
}

/// What is left when a subtree is cut out has nothing under the cut.
pub proof fn lemma_without_clear(m: Map<nat, Node>, root: nat)
    ensures
        clear_below(without(m, root), root),
{
}

/// Cutting a subtree out of a tree leaves a tree, and the subtree is one.
pub proof fn lemma_cut_trees(m: Map<nat, Node>, root: nat)
    requires
        is_tree(m),
    ensures
        is_tree(without(m, root)),
        is_tree(subtree(m, root)),
{
    lemma_without_connected(m, root);
    lemma_subtree_connected(m, root);
    assert(without(m, root).dom().subset_of(m.dom()));
    vstd::set_lib::lemma_len_subset(without(m, root).dom(), m.dom());
    let under = Set::new(|q: nat| m.contains_key(q) && below(root, q));
    assert(under.subset_of(m.dom()));
    vstd::set_lib::lemma_len_subset(under, m.dom());
    let back = |q: nat| rel(root, q);
    assert(under.map(back) =~= subtree(m, root).dom()) by {
        assert forall|r: nat| subtree(m, root).dom().contains(r) implies under.map(back).contains(
            r,
        ) by {
            lemma_graft_rel(root, r);
            assert(under.contains(graft(root, r)));
            assert(back(graft(root, r)) == r);
        }
        assert forall|r: nat| under.map(back).contains(r) implies subtree(m, root).dom().contains(
            r,
        ) by {
            let q = choose|q: nat| under.contains(q) && r == back(q);
            lemma_rel_graft(root, q);
        }
    }
    under.lemma_map_finite(back);
    assert forall|r: nat| subtree(m, root).contains_key(r) implies r < usize::MAX by {
        lemma_graft_root_monotone(0, root, r);
        lemma_root(r);
    }
}

/// Planting a tree that fits into a tree, under an occupied position or at
/// the root, gives a tree.
pub proof fn lemma_planted_tree(m: Map<nat, Node>, root: nat, s: Map<nat, Node>)
    requires
        is_tree(m),
        is_tree(s),
        fits(s, root),
        root == 0 || m.contains_key(parent(root)),
    ensures
        is_tree(planted(m, root, s)),
{
    let after = planted(m, root, s);
    lemma_planted_connected(m, root, s);
    let onto = |r: nat| graft(root, r);
    s.dom().lemma_map_finite(onto);
    let all = m.dom().union(s.dom().map(onto));
    assert(after.dom().subset_of(all)) by {
        assert forall|q: nat| after.dom().contains(q) implies all.contains(q) by {
            if covers(s, root, q) {
                lemma_rel_graft(root, q);
                assert(s.dom().contains(rel(root, q)));
                assert(onto(rel(root, q)) == q);
            }
        }
    }
    vstd::set_lib::lemma_len_subset(after.dom(), all);
    assert forall|q: nat| after.contains_key(q) implies q < usize::MAX by {
        if covers(s, root, q) {
            lemma_rel_graft(root, q);
            assert(graft(root, rel(root, q)) < usize::MAX);
        }
    }
}

/// A subtree fits where it was cut out.
pub proof fn lemma_back_fits(m: Map<nat, Node>, pos: nat)
    requires
        forall|q: nat| m.contains_key(q) ==> q < usize::MAX,
    ensures
        fits(subtree(m, pos), pos),
{
}

/// A subtree cut out and planted back where it was gives the tree that was.
pub proof fn lemma_extract_plant_round_trip(m: Map<nat, Node>, pos: nat)
    ensures
        planted(without(m, pos), pos, subtree(m, pos)) == m,
{
    let back = planted(without(m, pos), pos, subtree(m, pos));
    assert forall|q: nat|
        #![trigger back.dom().contains(q)]
        #![trigger m.dom().contains(q)]
        back.dom().contains(q) == m.dom().contains(q) && (back.dom().contains(q) ==> back[q]
            == m[q]) by {
        if below(pos, q) {
            lemma_rel_graft(pos, q);
        }
    }
    assert(back =~= m);
}

/// A subtree of a tree can be cut out and planted back: it fits where it
/// was, planting it there gives the tree that was, and the parent of its
/// root stays in the tree.
pub proof fn lemma_cut_can_be_undone(m: Map<nat, Node>, p: nat)
    requires
        is_tree(m),
        m.contains_key(p),
    ensures
        fits(subtree(m, p), p),
        planted(without(m, p), p, subtree(m, p)) == m,
        p == 0 || without(m, p).contains_key(parent(p)),
{
    lemma_back_fits(m, p);
    lemma_extract_plant_round_trip(m, p);
    if p > 0 {
        lemma_parent(p);
        assert(m.contains_key(p) ==> m.contains_key(parent(p)));
        if below(p, parent(p)) {
            lemma_below_depth(p, parent(p));
        }
    }
}

/// Two subtrees of a tree, neither in the other, can be cut out one after
/// the other, and the parents of both roots stay in the tree.
pub proof fn lemma_cuts_keep_parents(m: Map<nat, Node>, pa: nat, pb: nat)
    requires
        is_tree(m),
        m.contains_key(pa),
        m.contains_key(pb),
        pa < pb,
        !below(pa, pb),
    ensures
        pa > 0,
        without(without(m, pa), pb).contains_key(parent(pa)),
        without(without(m, pa), pb).contains_key(parent(pb)),
        without(m, pa).contains_key(pb),
        is_tree(without(m, pa)),
{
    lemma_root(pb);
    lemma_parent(pa);
    lemma_parent(pb);
    lemma_cut_trees(m, pa);
    assert(m.contains_key(pa) ==> m.contains_key(parent(pa)));
    assert(m.contains_key(pb) ==> m.contains_key(parent(pb)));
    if below(pa, parent(pa)) {
        lemma_below_depth(pa, parent(pa));
    }
    if below(pb, parent(pa)) {
        lemma_below_depth(pb, parent(pa));
    }
    if below(pb, parent(pb)) {
        lemma_below_depth(pb, parent(pb));
    }
}

/// The subtree at the root is the whole tree, and without it nothing is left.
pub proof fn lemma_subtree_at_root(m: Map<nat, Node>)
    ensures
        subtree(m, 0) == m,
        without(m, 0) == Map::<nat, Node>::empty(),
{
    let whole = subtree(m, 0);
    assert forall|q: nat|
        #![trigger whole.dom().contains(q)]
        #![trigger m.dom().contains(q)]
        whole.dom().contains(q) == m.dom().contains(q) && (whole.dom().contains(q) ==> whole[q]
            == m[q]) by {
        lemma_root(q);
    }
    assert(subtree(m, 0) =~= m);
    assert forall|q: nat| !without(m, 0).contains_key(q) by {
        lemma_root(q);
    }
    assert(without(m, 0) =~= Map::<nat, Node>::empty());
}

/// Planting into an empty tree at the root gives the planted tree.
pub proof fn lemma_planted_at_root(s: Map<nat, Node>)
    ensures
        planted(Map::<nat, Node>::empty(), 0, s) == s,
{
    let after = planted(Map::<nat, Node>::empty(), 0, s);
    assert forall|q: nat|
        #![trigger after.dom().contains(q)]
        #![trigger s.dom().contains(q)]
        after.dom().contains(q) == s.dom().contains(q) && (after.dom().contains(q) ==> after[q]
            == s[q]) by {
        lemma_root(q);
    }
    assert(after =~= s);
}

impl VecTree {
    /// Whether this tree, planted at `pos`, has all its nodes at positions
    /// that can be indexed.
    pub fn fits_at(&self, pos: usize) -> (ok: bool)
        ensures
            ok == fits(self@, pos as nat),
    {
        match self.last_position() {
            None => true,
            Some(last) => {
                let at = graft_checked(pos, last);
                proof {
                    if at is Some {
                        assert forall|r: nat| self@.contains_key(r) implies #[trigger] graft(
                            pos as nat,
                            r,
                        ) < usize::MAX by {
                            if r < last {
                                lemma_graft_monotone(pos as nat, r, last as nat);
                            }
                        }
                    }
                }
                at.is_some()
            },
        }
    }

    /// Cuts the subtree rooted at `pos` out of the tree and returns it as a
    /// tree of its own, rooted at position 0.
    pub fn extract(&mut self, pos: usize) -> (sub: VecTree)
        requires
            old(self).wf(),
        ensures
            sub@ == subtree(old(self)@, pos as nat),
            final(self)@ == without(old(self)@, pos as nat),
            sub.wf(),
            final(self).wf(),
            final(self).span() == old(self).span(),
    {
        let mut result = VecTree::default();
        proof {
            lemma_without_connected(self@, pos as nat);
            lemma_subtree_connected(self@, pos as nat);
            lemma_planted_at_root(subtree(self@, pos as nat));
            lemma_connected_below(self@, pos as nat);
        }
        if self.has(pos) {
            proof {
                self.lemma_span();
                assert forall|r: nat| subtree(self@, pos as nat).contains_key(r) implies #[trigger] graft(
                    0,
                    r,
                ) < usize::MAX by {
                    lemma_root(r);
                    lemma_graft_rel(pos as nat, r);
                    if 0 < pos {
                        lemma_graft_root_monotone(0, pos as nat, r);
                    }
                }
            }
            self.extract_subtree(pos, 0, &mut result);
            proof {
                self.lemma_wf();
                result.lemma_wf();
            }
        } else {
            proof {
                assert forall|q: nat| below(pos as nat, q) implies !self@.contains_key(q) by {
                    lemma_nothing_below_a_gap(self@, pos as nat, q);
                }
                assert(without(self@, pos as nat) =~= self@);
                assert forall|r: nat| !subtree(self@, pos as nat).contains_key(r) by {
                    lemma_graft_rel(pos as nat, r);
                }
                assert(subtree(self@, pos as nat) =~= result@);
            }
        }
        result
    }

    /// Moves the subtree rooted at `src` into `result`, where its root comes
    /// to lie at `dst`: first the left subtree, then the node at `src`, then
    /// the right subtree.
    pub fn extract_subtree(&mut self, src: usize, dst: usize, result: &mut VecTree)
        requires
            old(self)@.contains_key(src as nat),
            connected_below(old(self)@, src as nat),
            fits(subtree(old(self)@, src as nat), dst as nat),
        ensures
            final(result)@ == planted(old(result)@, dst as nat, subtree(old(self)@, src as nat)),
            final(self)@ == without(old(self)@, src as nat),
            final(self).span() == old(self).span(),
            final(result).span() >= old(result).span(),
        decreases old(self).span() - src,
    {
        proof {
            self.lemma_span();
            lemma_children(src as nat);
            lemma_children(dst as nat);
            lemma_move_in_steps(result@, dst as nat, self@, src as nat);
            lemma_fits_children(self@, src as nat, dst as nat);
        }
        if src <= (usize::MAX - 2) / 2 && self.has(src * 2 + 1) {
            proof {
                assert(subtree(self@, left(src as nat)).contains_key(0));
                assert(graft(left(dst as nat), 0) == left(dst as nat));
            }
            self.extract_subtree(src * 2 + 1, dst * 2 + 1, result);
        }
        let node = self.take(src);
        result.put(dst, node);
        if src <= (usize::MAX - 2) / 2 && self.has(src * 2 + 2) {
            proof {
                assert(subtree(self@, right(src as nat)).contains_key(0));
                assert(graft(right(dst as nat), 0) == right(dst as nat));
            }
            self.extract_subtree(src * 2 + 2, dst * 2 + 2, result);
        }
    }

    /// Plants the tree `other` into this tree, its root at `pos`, and leaves
    /// `other` empty. Nodes of this tree at positions that receive a node
    /// are overwritten.
    pub fn plant(&mut self, pos: usize, other: &mut VecTree)
        requires
            old(other).wf(),
            fits(old(other)@, pos as nat),
        ensures
            final(self)@ == planted(old(self)@, pos as nat, old(other)@),
            final(other)@ == Map::<nat, Node>::empty(),
            old(self).wf() && (pos == 0 || old(self)@.contains_key(parent(pos as nat)))
                ==> final(self).wf(),
            final(self).span() >= old(self).span(),
            final(other).span() == old(other).span(),
    {
        proof {
            lemma_subtree_at_root(other@);
            lemma_connected_below(other@, 0);
            if self.wf() && (pos == 0 || self@.contains_key(parent(pos as nat))) {
                lemma_planted_connected(self@, pos as nat, other@);
            }
        }
        if other.has(0) {
            self.plant_subtree(pos, 0, other);
            proof {
                if connected(self@) {
                    self.lemma_wf();
                }
            }
        } else {
            proof {
                assert forall|q: nat| !other@.contains_key(q) by {
                    lemma_root(q);
                    lemma_nothing_below_a_gap(other@, 0, q);
                }
                assert(other@ =~= Map::<nat, Node>::empty());
                assert(planted(self@, pos as nat, other@) =~= self@);
            }
        }
    }

    /// Moves the subtree of `other` rooted at `src` into this tree, where its
    /// root comes to lie at `dst`: first the left subtree, then the node at
    /// `src`, then the right subtree.
    pub fn plant_subtree(&mut self, dst: usize, src: usize, other: &mut VecTree)
        requires
            old(other)@.contains_key(src as nat),
            connected_below(old(other)@, src as nat),
            fits(subtree(old(other)@, src as nat), dst as nat),
        ensures
            final(self)@ == planted(old(self)@, dst as nat, subtree(old(other)@, src as nat)),
            final(other)@ == without(old(other)@, src as nat),
            final(other).span() == old(other).span(),
            final(self).span() >= old(self).span(),
        decreases old(other).span() - src,
    {
        proof {
            other.lemma_span();
            lemma_children(src as nat);
            lemma_children(dst as nat);
            lemma_move_in_steps(self@, dst as nat, other@, src as nat);
            lemma_fits_children(other@, src as nat, dst as nat);
        }
        if src <= (usize::MAX - 2) / 2 && other.has(src * 2 + 1) {
            proof {
                assert(subtree(other@, left(src as nat)).contains_key(0));
                assert(graft(left(dst as nat), 0) == left(dst as nat));
            }
            self.plant_subtree(dst * 2 + 1, src * 2 + 1, other);
        }
        let node = other.take(src);
        self.put(dst, node);
        if src <= (usize::MAX - 2) / 2 && other.has(src * 2 + 2) {
            proof {
                assert(subtree(other@, right(src as nat)).contains_key(0));
                assert(graft(right(dst as nat), 0) == right(dst as nat));
            }
            self.plant_subtree(dst * 2 + 2, src * 2 + 2, other);
        }
    }
}

} // verus!
