//! Counting the nodes that carry an id, in one tree and in a pair of trees.

use vstd::prelude::*;
use crate::command::{command_model, Command};
use crate::pair::{cross_model, exchange_model, run_model, step_model};
use crate::pair::{Pair, SwapOp};
use crate::position::{below, graft, rel};
use crate::position::{lemma_finite_bound, lemma_graft_rel, lemma_overlap, lemma_rel_graft};
use crate::subtree::{clear_below, covers, planted, subtree, without};
use crate::subtree::{lemma_cut_can_be_undone, lemma_cut_trees};
use crate::subtree::lemma_cuts_keep_parents;
use crate::subtree::lemma_planted_tree;
use crate::tree::{count, first_match, holds_id, is_first_match, is_last_match};
use crate::tree::{carriers, is_tree, landing, last_match};
use crate::tree::{lemma_landing_connected, lemma_overwrite_connected, lemma_search_ends};
use crate::tree::Node;

verus! {

/// How many nodes of the two trees together carry `id`.
pub open spec fn total(pair: Pair, id: usize) -> nat {
    count(pair.0, id) + count(pair.1, id)
}

/// How many of the first `n` lines are commands that add nodes with `id`.
pub open spec fn introduced(lines: Seq<Seq<char>>, n: nat, id: usize) -> nat
    decreases n,
{
    if n == 0 {
        0
    } else {
        introduced(lines, (n - 1) as nat, id) + if adds(command_model(lines[n - 1]), id) {
            1nat
        } else {
            0nat
        }
    }
}

/// The line is a command that adds nodes with `id`.
pub open spec fn adds(command: Option<Command>, id: usize) -> bool {
    match command {
        Some(Command::Add { id: added, .. }) => added == id,
        _ => false,
    }
}

/// In a finite tree finitely many nodes carry an id.
pub proof fn lemma_matches_finite(m: Map<nat, Node>, id: usize)
    requires
        m.dom().finite(),
    ensures
        carriers(m, id).finite(),
{
    assert(carriers(m, id).subset_of(m.dom()));
    vstd::set_lib::lemma_len_subset(carriers(m, id), m.dom());
}

/// Where a node carries `id`, one is the first to do so.
pub proof fn lemma_first_match(m: Map<nat, Node>, id: usize, p: nat)
    requires
        holds_id(m, id, p),
    ensures
        is_first_match(m, id, first_match(m, id)),
    decreases p,
{
    if exists|q: nat| holds_id(m, id, q) && q < p {
        let q = choose|q: nat| holds_id(m, id, q) && q < p;
        lemma_first_match(m, id, q);
    } else {
        assert(is_first_match(m, id, p));
    }
}

/// Where a node of a tree under `bound` carries `id`, one is the last to do so.
proof fn lemma_last_match_under(m: Map<nat, Node>, id: usize, p: nat, bound: nat)
    requires
        holds_id(m, id, p),
        forall|q: nat| m.contains_key(q) ==> q < bound,
    ensures
        is_last_match(m, id, last_match(m, id)),
    decreases
            (if p < bound {
                bound - p
            } else {
                0
            }),
{
    if exists|q: nat| holds_id(m, id, q) && q > p {
        let q = choose|q: nat| holds_id(m, id, q) && q > p;
        lemma_last_match_under(m, id, q, bound);
    } else {
        assert(is_last_match(m, id, p));
    }
}

/// Where a node of a finite tree carries `id`, one is the last to do so.
pub proof fn lemma_last_match(m: Map<nat, Node>, id: usize, p: nat)
    requires
        m.dom().finite(),
        holds_id(m, id, p),
    ensures
        is_last_match(m, id, last_match(m, id)),
{
    let bound = lemma_finite_bound(m.dom());
    lemma_last_match_under(m, id, p, bound);
}

/// Where the count of an id in a finite tree is not 0, a node carries it:
/// the first match and the last match do.
pub proof fn lemma_counted(m: Map<nat, Node>, id: usize)
    requires
        m.dom().finite(),
        count(m, id) > 0,
    ensures
        is_first_match(m, id, first_match(m, id)),
        is_last_match(m, id, last_match(m, id)),
{
    lemma_matches_finite(m, id);
    let p = carriers(m, id).choose();
    if !carriers(m, id).contains(p) {
        assert(carriers(m, id) =~= Set::empty());
    }
    assert(holds_id(m, id, p));
    lemma_first_match(m, id, p);
    lemma_last_match(m, id, p);
}

/// Where one node of a finite tree carries `id`, it is the first match.
pub proof fn lemma_counted_once(m: Map<nat, Node>, id: usize)
    requires
        m.dom().finite(),
        count(m, id) == 1,
    ensures
        carriers(m, id) == set![first_match(m, id)],
        holds_id(m, id, first_match(m, id)),
{
    lemma_counted(m, id);
    lemma_matches_finite(m, id);
    Set::lemma_is_singleton(carriers(m, id));
    let f = first_match(m, id);
    assert(carriers(m, id).contains(f));
    assert forall|q: nat| carriers(m, id).contains(q) implies q == f by {}
    assert(carriers(m, id) =~= set![f]);
}

/// A node put at an unoccupied position is counted under its id and under
/// no other.
pub proof fn lemma_count_insert(m: Map<nat, Node>, p: nat, node: Node, id: usize)
    requires
        m.dom().finite(),
        !m.contains_key(p),
    ensures
        count(m.insert(p, node), id) == count(m, id) + if node.id == id {
            1nat
        } else {
            0nat
        },
{
    lemma_matches_finite(m, id);
    if node.id == id {
        assert(carriers(m.insert(p, node), id) =~= carriers(m, id).insert(p));
    } else {
        assert(carriers(m.insert(p, node), id) =~= carriers(m, id));
    }
}

/// A node replaced by one of the same id changes no count.
pub proof fn lemma_count_overwrite(m: Map<nat, Node>, p: nat, node: Node, id: usize)
    requires
        m.contains_key(p),
        m[p].id == node.id,
    ensures
        carriers(m.insert(p, node), id) == carriers(m, id),
{
    assert(carriers(m.insert(p, node), id) =~= carriers(m, id));
}

/// The nodes of a tree are those of a subtree and those of the rest.
pub proof fn lemma_count_cut(m: Map<nat, Node>, root: nat, id: usize)
    requires
        m.dom().finite(),
    ensures
        count(without(m, root), id) + count(subtree(m, root), id) == count(m, id),
        carriers(without(m, root), id).finite(),
        carriers(subtree(m, root), id).finite(),
{
    lemma_matches_finite(m, id);
    let all = carriers(m, id);
    let outside = carriers(without(m, root), id);
    let inside = Set::new(|q: nat| holds_id(m, id, q) && below(root, q));
    assert(outside.subset_of(all));
    assert(inside.subset_of(all));
    vstd::set_lib::lemma_len_subset(outside, all);
    vstd::set_lib::lemma_len_subset(inside, all);
    assert(outside.disjoint(inside));
    assert(outside + inside =~= all);
    vstd::set_lib::lemma_set_disjoint_lens(outside, inside);
    let back = |q: nat| rel(root, q);
    let moved = carriers(subtree(m, root), id);
    assert(inside.map(back) =~= moved) by {
        assert forall|r: nat| moved.contains(r) implies inside.map(back).contains(r) by {
            lemma_graft_rel(root, r);
            assert(inside.contains(graft(root, r)));
            assert(back(graft(root, r)) == r);
        }
        assert forall|r: nat| inside.map(back).contains(r) implies moved.contains(r) by {
            let q = choose|q: nat| inside.contains(q) && r == back(q);
            lemma_rel_graft(root, q);
        }
    }
    assert(vstd::relations::injective_on(back, inside)) by {
        assert forall|x1: nat, x2: nat|
            inside.contains(x1) && inside.contains(x2) && #[trigger] back(x1) == #[trigger] back(
                x2,
            ) implies x1 == x2 by {
            lemma_rel_graft(root, x1);
            lemma_rel_graft(root, x2);
        }
    }
    vstd::set_lib::lemma_map_size(inside, moved, back);
}

/// A tree planted where nothing was adds its nodes to the count.
pub proof fn lemma_count_planted(m: Map<nat, Node>, root: nat, s: Map<nat, Node>, id: usize)
    requires
        m.dom().finite(),
        s.dom().finite(),
        clear_below(m, root),
    ensures
        count(planted(m, root, s), id) == count(m, id) + count(s, id),
{
    lemma_matches_finite(m, id);
    lemma_matches_finite(s, id);
    let kept = carriers(m, id);
    let source = carriers(s, id);
    let onto = |r: nat| graft(root, r);
    let arrived = source.map(onto);
    assert(vstd::relations::injective_on(onto, source)) by {
        assert forall|x1: nat, x2: nat|
            source.contains(x1) && source.contains(x2) && #[trigger] onto(x1) == #[trigger] onto(
                x2,
            ) implies x1 == x2 by {
            lemma_graft_rel(root, x1);
            lemma_graft_rel(root, x2);
        }
    }
    vstd::set_lib::lemma_map_size(source, arrived, onto);
    assert(kept.disjoint(arrived)) by {
        assert forall|q: nat| !(kept.contains(q) && arrived.contains(q)) by {
            if arrived.contains(q) {
                let r = choose|r: nat| source.contains(r) && q == onto(r);
                lemma_graft_rel(root, r);
            }
        }
    }
    assert(carriers(planted(m, root, s), id) =~= kept + arrived) by {
        assert forall|q: nat| carriers(planted(m, root, s), id).contains(q) == (kept
            + arrived).contains(q) by {
            if covers(s, root, q) {
                lemma_rel_graft(root, q);
                if s[rel(root, q)].id == id {
                    assert(source.contains(rel(root, q)));
                    assert(onto(rel(root, q)) == q);
                }
            }
            if arrived.contains(q) {
                let r = choose|r: nat| source.contains(r) && q == onto(r);
                lemma_graft_rel(root, r);
            }
        }
    }
    vstd::set_lib::lemma_set_disjoint_lens(kept, arrived);
}

/// Exchanging two subtrees of a tree gives a tree with the same count of
/// every id.
pub proof fn lemma_exchange_census(m: Map<nat, Node>, pa: nat, pb: nat, id: usize)
    requires
        is_tree(m),
        pa <= pb,
        m.contains_key(pa),
        m.contains_key(pb),
        exchange_model(m, pa, pb) is Ok,
    ensures
        is_tree(exchange_model(m, pa, pb)->Ok_0),
        count(exchange_model(m, pa, pb)->Ok_0, id) == count(m, id),
{
    let m1 = without(m, pa);
    let s1 = subtree(m, pa);
    let m2 = without(m1, pb);
    let s2 = subtree(m1, pb);
    let m3 = planted(m2, pa, s2);
    let m4 = planted(m3, pb, s1);
    lemma_cuts_keep_parents(m, pa, pb);
    lemma_cut_trees(m, pa);
    lemma_cut_trees(m1, pb);
    lemma_planted_tree(m2, pa, s2);
    lemma_planted_tree(m3, pb, s1);
    assert(clear_below(m2, pa));
    assert(clear_below(m3, pb)) by {
        assert forall|q: nat| m3.contains_key(q) implies !below(pb, q) by {
            if covers(s2, pa, q) && below(pb, q) {
                lemma_overlap(pa, pb, q);
            }
        }
    }
    lemma_count_cut(m, pa, id);
    lemma_count_cut(m1, pb, id);
    lemma_count_planted(m2, pa, s2, id);
    lemma_count_planted(m3, pb, s1, id);
}

/// Exchanging two subtrees between two trees gives two trees, and leaves
/// the count of every id in the two together as it was.
pub proof fn lemma_cross_census(l: Map<nat, Node>, r: Map<nat, Node>, pl: nat, pr: nat, id: usize)
    requires
        is_tree(l),
        is_tree(r),
        l.contains_key(pl),
        r.contains_key(pr),
        cross_model(l, r, pl, pr) is Ok,
    ensures
        is_tree(cross_model(l, r, pl, pr)->Ok_0.0),
        is_tree(cross_model(l, r, pl, pr)->Ok_0.1),
        total(cross_model(l, r, pl, pr)->Ok_0, id) == total((l, r), id),
{
    lemma_cut_trees(l, pl);
    lemma_cut_trees(r, pr);
    lemma_cut_can_be_undone(l, pl);
    lemma_cut_can_be_undone(r, pr);
    lemma_planted_tree(without(l, pl), pl, subtree(r, pr));
    lemma_planted_tree(without(r, pr), pr, subtree(l, pl));
    lemma_count_cut(l, pl, id);
    lemma_count_cut(r, pr, id);
    lemma_count_planted(without(l, pl), pl, subtree(r, pr), id);
    lemma_count_planted(without(r, pr), pr, subtree(l, pl), id);
}

/// A command that is carried out on two trees gives two trees. A command
/// that adds nodes raises the count of their id by two; every other count
/// stays as it was.
pub proof fn lemma_step_census(pair: Pair, command: Command, op: SwapOp, id: usize)
    requires
        is_tree(pair.0),
        is_tree(pair.1),
        step_model(pair, command, op) is Ok,
    ensures
        is_tree(step_model(pair, command, op)->Ok_0.0),
        is_tree(step_model(pair, command, op)->Ok_0.1),
        total(step_model(pair, command, op)->Ok_0, id) == total(pair, id) + if adds(
            Some(command),
            id,
        ) {
            2nat
        } else {
            0nat
        },
{
    let l = pair.0;
    let r = pair.1;
    match command {
        Command::Add { id: added, left_rank, left_symbol, right_rank, right_symbol } => {
            let ln = Node { id: added, rank: left_rank, symbol: left_symbol };
            let rn = Node { id: added, rank: right_rank, symbol: right_symbol };
            lemma_search_ends(l, left_rank, 0);
            lemma_search_ends(r, right_rank, 0);
            let pl = landing(l, left_rank, 0);
            let pr = landing(r, right_rank, 0);
            lemma_landing_connected(l, ln, 0, pl);
            lemma_landing_connected(r, rn, 0, pr);
            lemma_count_insert(l, pl, ln, id);
            lemma_count_insert(r, pr, rn, id);
        },
        Command::Swap { id: swapped } => {
            match op {
                SwapOp::SingleNode => {
                    lemma_counted(l, swapped);
                    lemma_counted(r, swapped);
                    let pl = first_match(l, swapped);
                    let pr = first_match(r, swapped);
                    lemma_count_overwrite(l, pl, r[pr], id);
                    lemma_count_overwrite(r, pr, l[pl], id);
                    lemma_overwrite_connected(l, pl, r[pr]);
                    lemma_overwrite_connected(r, pr, l[pl]);
                    assert(l.insert(pl, r[pr]).dom() =~= l.dom());
                    assert(r.insert(pr, l[pl]).dom() =~= r.dom());
                },
                SwapOp::Subtree => {
                    if count(l, swapped) == 1 && count(r, swapped) == 1 {
                        lemma_counted(l, swapped);
                        lemma_counted(r, swapped);
                        lemma_cross_census(
                            l,
                            r,
                            first_match(l, swapped),
                            first_match(r, swapped),
                            id,
                        );
                    } else if count(l, swapped) == 0 && count(r, swapped) == 2 {
                        lemma_counted(r, swapped);
                        lemma_exchange_census(
                            r,
                            first_match(r, swapped),
                            last_match(r, swapped),
                            id,
                        );
                    } else {
                        lemma_counted(l, swapped);
                        lemma_exchange_census(
                            l,
                            first_match(l, swapped),
                            last_match(l, swapped),
                            id,
                        );
                    }
                },
            }
        },
    }
}

/// At every point of a run, the nodes that carry an id are two for each
/// command that has added nodes with it: an id that one command has
/// introduced is carried by two nodes of the two trees together, and an id
/// that none has introduced by no node. Both trees are well formed.
pub proof fn lemma_ids_come_in_pairs(lines: Seq<Seq<char>>, n: nat, op: SwapOp, id: usize)
    requires
        n <= lines.len(),
        run_model(lines, n, op) is Ok,
    ensures
        is_tree(run_model(lines, n, op)->Ok_0.0),
        is_tree(run_model(lines, n, op)->Ok_0.1),
        total(run_model(lines, n, op)->Ok_0, id) == 2 * introduced(lines, n, id),
        introduced(lines, n, id) == 1 ==> total(run_model(lines, n, op)->Ok_0, id) == 2,
    decreases n,
{
    if n == 0 {
        let empty = Map::<nat, Node>::empty();
        assert(carriers(empty, id) =~= Set::empty());
        assert(is_tree(empty));
    } else {
        lemma_ids_come_in_pairs(lines, (n - 1) as nat, op, id);
        let before = run_model(lines, (n - 1) as nat, op)->Ok_0;
        let command = command_model(lines[n - 1])->0;
        lemma_step_census(before, command, op, id);
    }
}

} // verus!
