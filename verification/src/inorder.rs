//! The walk through a tree from left to right: the order of the ranks along
//! it, and how the levels of the tree group it by depth.

use vstd::prelude::*;
use crate::command::{command_model, Command};
use crate::levels::{lemma_level_witness, level};
use crate::pair::{run_model, SwapOp};
use crate::position::{below, depth, left, parent, right};
use crate::position::{lemma_below_depth, lemma_below_split, lemma_children, lemma_parent};
use crate::position::lemma_root;
use crate::tree::{connected, is_tree, landing, lemma_landing_connected, lemma_landing_ordered};
use crate::tree::{lemma_search_ends, ordered, ordered_at, Node};

verus! {

/// The positions of the nodes under `pos`, as far as `height` levels down,
/// in the order of a walk from left to right: the left subtree, the node,
/// the right subtree.
pub open spec fn in_order_from(m: Map<nat, Node>, pos: nat, height: nat) -> Seq<nat>
    decreases height,
{
    if height == 0 || !m.contains_key(pos) {
        Seq::empty()
    } else {
        in_order_from(m, left(pos), (height - 1) as nat) + seq![pos] + in_order_from(
            m,
            right(pos),
            (height - 1) as nat,
        )
    }
}

/// The positions of the nodes of the tree in the order of a walk from left
/// to right. A tree has no more levels than nodes.
pub open spec fn in_order(m: Map<nat, Node>) -> Seq<nat> {
    in_order_from(m, 0, m.dom().len())
}

/// The ranks along a sequence of positions grow strictly.
pub open spec fn ranks_grow(m: Map<nat, Node>, walk: Seq<nat>) -> bool {
    forall|i: int, j: int| 0 <= i < j < walk.len() ==> m[walk[i]].rank < m[walk[j]].rank
}

/// The ancestors of `p`, and `p` itself.
pub open spec fn line_to(p: nat) -> Set<nat>
    decreases p,
{
    if p == 0 {
        set![0nat]
    } else {
        line_to(parent(p)).insert(p)
    }
}

/// The line from the root to `p` has one position of each depth down to
/// that of `p`, none larger than `p`.
pub proof fn lemma_line_to(p: nat)
    ensures
        line_to(p).finite(),
        line_to(p).len() == depth(p) + 1,
        forall|q: nat| line_to(p).contains(q) ==> q <= p,
    decreases p,
{
    if p > 0 {
        lemma_line_to(parent(p));
        lemma_parent(p);
    }
}

/// In a tree in one piece every position on the line to a node is occupied.
pub proof fn lemma_line_occupied(m: Map<nat, Node>, p: nat)
    requires
        connected(m),
        m.contains_key(p),
    ensures
        line_to(p).subset_of(m.dom()),
    decreases p,
{
    if p > 0 {
        assert(m.contains_key(p) ==> m.contains_key(parent(p)));
        lemma_parent(p);
        lemma_line_occupied(m, parent(p));
    }
}

/// A finite tree in one piece has more nodes than any of them is deep.
pub proof fn lemma_depth_under_size(m: Map<nat, Node>, p: nat)
    requires
        m.dom().finite(),
        connected(m),
        m.contains_key(p),
    ensures
        depth(p) < m.dom().len(),
{
    lemma_line_to(p);
    lemma_line_occupied(m, p);
    vstd::set_lib::lemma_len_subset(line_to(p), m.dom());
}

/// The walk under `pos` visits occupied positions under `pos` only.
pub proof fn lemma_walk_below(m: Map<nat, Node>, pos: nat, height: nat)
    ensures
        forall|i: int|
            0 <= i < in_order_from(m, pos, height).len() ==> m.contains_key(
                #[trigger] in_order_from(m, pos, height)[i],
            ) && below(pos, in_order_from(m, pos, height)[i]),
    decreases height,
{
    if height > 0 && m.contains_key(pos) {
        let h = (height - 1) as nat;
        let a = in_order_from(m, left(pos), h);
        let b = in_order_from(m, right(pos), h);
        let walk = in_order_from(m, pos, height);
        lemma_walk_below(m, left(pos), h);
        lemma_walk_below(m, right(pos), h);
        assert(walk == a + seq![pos] + b);
        assert forall|i: int| 0 <= i < walk.len() implies m.contains_key(#[trigger] walk[i])
            && below(pos, walk[i]) by {
            lemma_below_split(pos, walk[i]);
            if i < a.len() {
                assert(walk[i] == a[i]);
            } else if i > a.len() {
                assert(walk[i] == b[i - a.len() - 1]);
            }
        }
    }
}

/// In a search tree the ranks grow along the walk under `pos`.
pub proof fn lemma_walk_sorted(m: Map<nat, Node>, pos: nat, height: nat)
    requires
        ordered(m),
    ensures
        ranks_grow(m, in_order_from(m, pos, height)),
    decreases height,
{
    if height > 0 && m.contains_key(pos) {
        let h = (height - 1) as nat;
        let a = in_order_from(m, left(pos), h);
        let b = in_order_from(m, right(pos), h);
        let walk = in_order_from(m, pos, height);
        lemma_walk_sorted(m, left(pos), h);
        lemma_walk_sorted(m, right(pos), h);
        lemma_walk_below(m, left(pos), h);
        lemma_walk_below(m, right(pos), h);
        assert(walk == a + seq![pos] + b);
        assert forall|i: int, j: int| 0 <= i < j < walk.len() implies m[walk[i]].rank
            < m[walk[j]].rank by {
            if i < a.len() {
                assert(walk[i] == a[i]);
            } else if i > a.len() {
                assert(walk[i] == b[i - a.len() - 1]);
            }
            if j < a.len() {
                assert(walk[j] == a[j]);
            } else if j > a.len() {
                assert(walk[j] == b[j - a.len() - 1]);
            }
            assert(ordered_at(m, pos, walk[i]));
            assert(ordered_at(m, pos, walk[j]));
        }
    }
}

/// The walk under `pos` visits every occupied position under `pos` that is
/// less than `height` levels under it.
pub proof fn lemma_walk_complete(m: Map<nat, Node>, pos: nat, height: nat, p: nat)
    requires
        connected(m),
        m.contains_key(p),
        below(pos, p),
        depth(p) < depth(pos) + height,
    ensures
        in_order_from(m, pos, height).contains(p),
    decreases height,
{
    lemma_children(pos);
    lemma_below_split(pos, p);
    lemma_below_depth(pos, p);
    let h = (height - 1) as nat;
    let a = in_order_from(m, left(pos), h);
    let b = in_order_from(m, right(pos), h);
    let walk = in_order_from(m, pos, height);
    if !m.contains_key(pos) {
        crate::tree::lemma_nothing_below_a_gap(m, pos, p);
    }
    assert(walk == a + seq![pos] + b);
    if p == pos {
        assert(walk[a.len() as int] == pos);
    } else if below(left(pos), p) {
        lemma_walk_complete(m, left(pos), h, p);
        let i = choose|i: int| 0 <= i < a.len() && a[i] == p;
        assert(walk[i] == p);
    } else {
        lemma_walk_complete(m, right(pos), h, p);
        let i = choose|i: int| 0 <= i < b.len() && b[i] == p;
        assert(walk[a.len() + 1 + i] == p);
    }
}

/// The walk through a search tree visits the nodes by growing rank: it
/// visits every node of the tree, and the ranks grow strictly along it.
pub proof fn lemma_in_order_sorted(m: Map<nat, Node>)
    requires
        is_tree(m),
        ordered(m),
    ensures
        ranks_grow(m, in_order(m)),
        forall|p: nat| m.contains_key(p) <==> in_order(m).contains(p),
{
    lemma_walk_sorted(m, 0, m.dom().len());
    lemma_walk_below(m, 0, m.dom().len());
    assert forall|p: nat| m.contains_key(p) implies in_order(m).contains(p) by {
        lemma_depth_under_size(m, p);
        lemma_root(p);
        lemma_walk_complete(m, 0, m.dom().len(), p);
    }
}

/// The symbols of the nodes at depth `d` among the positions of `walk`, in
/// the order of the walk.
pub open spec fn symbols_at(m: Map<nat, Node>, walk: Seq<nat>, d: nat) -> Seq<char>
    decreases walk.len(),
{
    if walk.len() == 0 {
        Seq::empty()
    } else if depth(walk.last()) == d {
        symbols_at(m, walk.drop_last(), d).push(m[walk.last()].symbol)
    } else {
        symbols_at(m, walk.drop_last(), d)
    }
}

/// The symbols at a depth along two walks in a row are those along the
/// first and then those along the second.
pub proof fn lemma_symbols_at_add(m: Map<nat, Node>, a: Seq<nat>, b: Seq<nat>, d: nat)
    ensures
        symbols_at(m, a + b, d) == symbols_at(m, a, d) + symbols_at(m, b, d),
    decreases b.len(),
{
    if b.len() == 0 {
        assert(a + b =~= a);
        assert(symbols_at(m, a, d) + symbols_at(m, b, d) =~= symbols_at(m, a, d));
    } else {
        lemma_symbols_at_add(m, a, b.drop_last(), d);
        assert((a + b).drop_last() =~= a + b.drop_last());
        assert((a + b).last() == b.last());
        let front = symbols_at(m, a, d);
        let rest = symbols_at(m, b.drop_last(), d);
        assert((front + rest).push(m[b.last()].symbol) =~= front + rest.push(m[b.last()].symbol));
    }
}

/// A walk that visits no node at depth `d` has no symbol at that depth.
pub proof fn lemma_symbols_at_none(m: Map<nat, Node>, walk: Seq<nat>, d: nat)
    requires
        forall|i: int| 0 <= i < walk.len() ==> depth(#[trigger] walk[i]) != d,
    ensures
        symbols_at(m, walk, d) == Seq::<char>::empty(),
    decreases walk.len(),
{
    if walk.len() > 0 {
        assert(depth(walk[walk.len() - 1]) != d);
        assert forall|i: int| 0 <= i < walk.drop_last().len() implies depth(
            #[trigger] walk.drop_last()[i],
        ) != d by {
            assert(walk.drop_last()[i] == walk[i]);
        }
        lemma_symbols_at_none(m, walk.drop_last(), d);
    }
}

/// The level `d` under `pos` is what the walk under `pos` visits at that
/// depth, in the order of the walk.
pub proof fn lemma_level_along_walk(m: Map<nat, Node>, pos: nat, height: nat, d: nat)
    requires
        d < height,
    ensures
        level(m, pos, d) == symbols_at(m, in_order_from(m, pos, height), depth(pos) + d),
    decreases height,
{
    if m.contains_key(pos) {
        let h = (height - 1) as nat;
        let a = in_order_from(m, left(pos), h);
        let b = in_order_from(m, right(pos), h);
        let walk = in_order_from(m, pos, height);
        let target = depth(pos) + d;
        lemma_children(pos);
        assert(walk == a + seq![pos] + b);
        lemma_symbols_at_add(m, a + seq![pos], b, target);
        lemma_symbols_at_add(m, a, seq![pos], target);
        assert(seq![pos].drop_last() =~= Seq::<nat>::empty());
        assert(seq![pos].last() == pos);
        assert(symbols_at(m, Seq::<nat>::empty(), target) =~= Seq::<char>::empty());
        if d == 0 {
            lemma_walk_below(m, left(pos), h);
            lemma_walk_below(m, right(pos), h);
            assert forall|i: int| 0 <= i < a.len() implies depth(#[trigger] a[i]) != target by {
                lemma_below_depth(left(pos), a[i]);
            }
            assert forall|i: int| 0 <= i < b.len() implies depth(#[trigger] b[i]) != target by {
                lemma_below_depth(right(pos), b[i]);
            }
            lemma_symbols_at_none(m, a, target);
            lemma_symbols_at_none(m, b, target);
            assert(symbols_at(m, seq![pos], target) =~= seq![m[pos].symbol]);
            assert(level(m, pos, d) =~= Seq::<char>::empty() + seq![m[pos].symbol]
                + Seq::<char>::empty());
        } else {
            lemma_level_along_walk(m, left(pos), h, (d - 1) as nat);
            lemma_level_along_walk(m, right(pos), h, (d - 1) as nat);
            assert(symbols_at(m, seq![pos], target) =~= Seq::<char>::empty());
            assert(level(m, pos, d) =~= level(m, left(pos), (d - 1) as nat) + Seq::<char>::empty()
                + level(m, right(pos), (d - 1) as nat));
        }
    } else {
        assert(in_order_from(m, pos, height) =~= Seq::<nat>::empty());
    }
}

/// Every level of a tree is what the walk from left to right visits at
/// that depth, in the order of the walk.
pub proof fn lemma_levels_group_the_walk(m: Map<nat, Node>, d: nat)
    requires
        is_tree(m),
    ensures
        level(m, 0, d) == symbols_at(m, in_order(m), d),
{
    let size = m.dom().len();
    if d < size {
        lemma_level_along_walk(m, 0, size, d);
    } else {
        lemma_walk_below(m, 0, size);
        let walk = in_order(m);
        assert forall|i: int| 0 <= i < walk.len() implies depth(#[trigger] walk[i]) != d by {
            lemma_depth_under_size(m, walk[i]);
        }
        lemma_symbols_at_none(m, walk, d);
        if level(m, 0, d).len() > 0 {
            let q = lemma_level_witness(m, 0, d);
            lemma_depth_under_size(m, q);
        }
        assert(level(m, 0, d) =~= Seq::<char>::empty());
    }
}

/// All of the first `n` lines are commands that add nodes.
pub open spec fn only_adds(lines: Seq<Seq<char>>, n: nat) -> bool {
    forall|i: int| 0 <= i < n ==> (#[trigger] command_model(lines[i])) matches Some(
        Command::Add { .. },
    )
}

/// Two trees that commands have built that only add nodes are search trees.
pub proof fn lemma_adds_build_search_trees(lines: Seq<Seq<char>>, n: nat, op: SwapOp)
    requires
        n <= lines.len(),
        only_adds(lines, n),
        run_model(lines, n, op) is Ok,
    ensures
        is_tree(run_model(lines, n, op)->Ok_0.0),
        is_tree(run_model(lines, n, op)->Ok_0.1),
        ordered(run_model(lines, n, op)->Ok_0.0),
        ordered(run_model(lines, n, op)->Ok_0.1),
    decreases n,
{
    if n == 0 {
        let empty = Map::<nat, Node>::empty();
        assert(is_tree(empty));
        assert forall|a: nat, q: nat| #[trigger] ordered_at(empty, a, q) by {}
    } else {
        lemma_adds_build_search_trees(lines, (n - 1) as nat, op);
        let before = run_model(lines, (n - 1) as nat, op)->Ok_0;
        let command = command_model(lines[n - 1]);
        match command {
            Some(Command::Add { id, left_rank, left_symbol, right_rank, right_symbol }) => {
                let ln = Node { id, rank: left_rank, symbol: left_symbol };
                let rn = Node { id, rank: right_rank, symbol: right_symbol };
                lemma_search_ends(before.0, left_rank, 0);
                lemma_search_ends(before.1, right_rank, 0);
                lemma_landing_connected(before.0, ln, 0, landing(before.0, left_rank, 0));
                lemma_landing_connected(before.1, rn, 0, landing(before.1, right_rank, 0));
                lemma_landing_ordered(before.0, ln, landing(before.0, left_rank, 0));
                lemma_landing_ordered(before.1, rn, landing(before.1, right_rank, 0));
            },
            _ => {},
        }
    }
}

/// In two trees that commands have built that only add nodes, the walk
/// from left to right visits the nodes by strictly growing rank.
pub proof fn lemma_adds_walk_by_rank(lines: Seq<Seq<char>>, n: nat, op: SwapOp)
    requires
        n <= lines.len(),
        only_adds(lines, n),
        run_model(lines, n, op) is Ok,
    ensures
        ranks_grow(run_model(lines, n, op)->Ok_0.0, in_order(run_model(lines, n, op)->Ok_0.0)),
        ranks_grow(run_model(lines, n, op)->Ok_0.1, in_order(run_model(lines, n, op)->Ok_0.1)),
{
    lemma_adds_build_search_trees(lines, n, op);
    lemma_in_order_sorted(run_model(lines, n, op)->Ok_0.0);
    lemma_in_order_sorted(run_model(lines, n, op)->Ok_0.1);
}

} // verus!
