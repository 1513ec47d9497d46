//! Two trees that are built side by side, and the swaps between them.

use vstd::prelude::*;
use crate::command::{command_model, parse_command, Command};
use crate::position::{below, is_below};
use crate::subtree::{fits, planted, subtree, without};
use crate::subtree::{lemma_cut_can_be_undone, lemma_cuts_keep_parents};
use crate::tree::{count, first_match, holds_id, landing, last_match, slot_model};
use crate::tree::{lemma_overwrite_connected, Node, TreeError, VecTree};

verus! {

/// What a swap exchanges.
#[derive(Debug, Clone, Copy, PartialEq, Eq, Structural)]
pub enum SwapOp {
    /// The two nodes that carry the id change places; the trees keep their shape.
    SingleNode,
    /// The two subtrees rooted at the nodes that carry the id change places.
    Subtree,
}

/// A pair of trees as two maps from positions to nodes.
pub type Pair = (Map<nat, Node>, Map<nat, Node>);

/// Adding one node to each tree: the left tree is searched first, and
/// nothing is added unless both searches succeed.
pub open spec fn add_model(l: Map<nat, Node>, r: Map<nat, Node>, ln: Node, rn: Node) -> Result<
    Pair,
    TreeError,
> {
    match slot_model(l, ln.rank, 0) {
        Err(e) => Err(e),
        Ok(_) => match slot_model(r, rn.rank, 0) {
            Err(e) => Err(e),
            Ok(_) => Ok((l.insert(landing(l, ln.rank, 0), ln), r.insert(landing(r, rn.rank, 0), rn))),
        },
    }
}

/// Exchanging the first node that carries `id` in the left tree with the
/// first one in the right tree.
pub open spec fn swap_nodes_model(l: Map<nat, Node>, r: Map<nat, Node>, id: usize) -> Result<
    Pair,
    TreeError,
> {
    if count(l, id) == 0 || count(r, id) == 0 {
        Err(TreeError::Inconsistent)
    } else {
        Ok(
            (
                l.insert(first_match(l, id), r[first_match(r, id)]),
                r.insert(first_match(r, id), l[first_match(l, id)]),
            ),
        )
    }
}

/// Exchanging the subtree at `pl` of the left tree with the subtree at `pr`
/// of the right tree.
pub open spec fn cross_model(l: Map<nat, Node>, r: Map<nat, Node>, pl: nat, pr: nat) -> Result<
    Pair,
    TreeError,
> {
    if fits(subtree(r, pr), pl) && fits(subtree(l, pl), pr) {
        Ok((planted(without(l, pl), pl, subtree(r, pr)), planted(without(r, pr), pr, subtree(l, pl))))
    } else {
        Err(TreeError::Capacity)
    }
}

/// Exchanging the subtrees at `pa` and `pb` of one tree: both are cut out,
/// then each is planted where the other was. Two subtrees of which one
/// holds the other cannot be exchanged.
pub open spec fn exchange_model(m: Map<nat, Node>, pa: nat, pb: nat) -> Result<
    Map<nat, Node>,
    TreeError,
> {
    if below(pa, pb) {
        Err(TreeError::Inconsistent)
    } else if fits(subtree(without(m, pa), pb), pa) && fits(subtree(m, pa), pb) {
        Ok(
            planted(
                planted(without(without(m, pa), pb), pa, subtree(without(m, pa), pb)),
                pb,
                subtree(m, pa),
            ),
        )
    } else {
        Err(TreeError::Capacity)
    }
}

/// Exchanging the two subtrees rooted at the nodes that carry `id`: between
/// the trees where each tree holds one of them, within one tree where it
/// holds both.
pub open spec fn swap_subtrees_model(l: Map<nat, Node>, r: Map<nat, Node>, id: usize) -> Result<
    Pair,
    TreeError,
> {
    if count(l, id) == 1 && count(r, id) == 1 {
        cross_model(l, r, first_match(l, id), first_match(r, id))
    } else if count(l, id) == 0 && count(r, id) == 2 {
        match exchange_model(r, first_match(r, id), last_match(r, id)) {
            Ok(after) => Ok((l, after)),
            Err(e) => Err(e),
        }
    } else if count(l, id) == 2 && count(r, id) == 0 {
        match exchange_model(l, first_match(l, id), last_match(l, id)) {
            Ok(after) => Ok((after, r)),
            Err(e) => Err(e),
        }
    } else {
        Err(TreeError::Inconsistent)
    }
}

/// A swap under the policy `op`.
pub open spec fn swap_model(l: Map<nat, Node>, r: Map<nat, Node>, id: usize, op: SwapOp) -> Result<
    Pair,
    TreeError,
> {
    match op {
        SwapOp::SingleNode => swap_nodes_model(l, r, id),
        SwapOp::Subtree => swap_subtrees_model(l, r, id),
    }
}

/// One command, carried out on a pair of trees under the policy `op`.
pub open spec fn step_model(pair: Pair, command: Command, op: SwapOp) -> Result<Pair, TreeError> {
    match command {
        Command::Add { id, left_rank, left_symbol, right_rank, right_symbol } => add_model(
            pair.0,
            pair.1,
            Node { id, rank: left_rank, symbol: left_symbol },
            Node { id, rank: right_rank, symbol: right_symbol },
        ),
        Command::Swap { id } => swap_model(pair.0, pair.1, id, op),
    }
}

/// The pair of trees that the first `n` of `lines` build from two empty
/// trees, carried out in their order; or the reason for which the first
/// line that could not be carried out was refused.
pub open spec fn run_model(lines: Seq<Seq<char>>, n: nat, op: SwapOp) -> Result<Pair, TreeError>
    decreases n,
{
    if n == 0 {
        Ok((Map::<nat, Node>::empty(), Map::<nat, Node>::empty()))
    } else {
        match run_model(lines, (n - 1) as nat, op) {
            Err(e) => Err(e),
            Ok(pair) => match command_model(lines[n - 1]) {
                None => Err(TreeError::Malformed),
                Some(command) => step_model(pair, command, op),
            },
        }
    }
}

/// The texts of a list of lines.
pub open spec fn texts(lines: Seq<String>) -> Seq<Seq<char>> {
    Seq::new(lines.len(), |i: int| lines[i]@)
}

/// The operation was carried out as `model` says, or refused as it says and
/// then nothing has changed.
pub open spec fn carried_out(
    model: Result<Pair, TreeError>,
    before: Pair,
    after: Pair,
    r: Result<(), TreeError>,
) -> bool {
    match model {
        Ok(pair) => r is Ok && after == pair,
        Err(e) => r == Err::<(), TreeError>(e) && after == before,
    }
}

impl VecTree {
    /// Exchanges the subtrees rooted at the occupied positions `pa` and `pb`.
    pub fn exchange(&mut self, pa: usize, pb: usize) -> (r: Result<(), TreeError>)
        requires
            old(self).wf(),
            pa < pb,
            old(self)@.contains_key(pa as nat),
            old(self)@.contains_key(pb as nat),
        ensures
            final(self).wf(),
            final(self).span() >= old(self).span(),
            match exchange_model(old(self)@, pa as nat, pb as nat) {
                Ok(after) => r is Ok && final(self)@ == after,
                Err(e) => r == Err::<(), TreeError>(e) && final(self)@ == old(self)@,
            },
    {
        if is_below(pa, pb) {
            return Err(TreeError::Inconsistent);
        }
        proof {
            lemma_cuts_keep_parents(self@, pa as nat, pb as nat);
            lemma_cut_can_be_undone(self@, pa as nat);
            lemma_cut_can_be_undone(without(self@, pa as nat), pb as nat);
        }
        let mut first = self.extract(pa);
        let mut second = self.extract(pb);
        if second.fits_at(pa) && first.fits_at(pb) {
            self.plant(pa, &mut second);
            self.plant(pb, &mut first);
            Ok(())
        } else {
            self.plant(pb, &mut second);
            self.plant(pa, &mut first);
            Err(TreeError::Capacity)
        }
    }
}

/// Two trees, `left` and `right`, that receive the same commands.
#[derive(Debug)]
pub struct TreePair {
    pub left: VecTree,
    pub right: VecTree,
}

impl View for TreePair {
    type V = Pair;

    open spec fn view(&self) -> Pair {
        (self.left@, self.right@)
    }
}

impl TreePair {
    /// Both trees are well formed.
    pub open spec fn wf(&self) -> bool {
        self.left.wf() && self.right.wf()
    }

    /// Neither tree has fewer slots than it had in `before`.
    pub open spec fn grown_from(&self, before: &TreePair) -> bool {
        self.left.span() >= before.left.span() && self.right.span() >= before.right.span()
    }

    /// A pair of empty trees.
    pub fn new() -> (pair: Self)
        ensures
            pair@ == (Map::<nat, Node>::empty(), Map::<nat, Node>::empty()),
            pair.wf(),
    {
        TreePair { left: VecTree::default(), right: VecTree::default() }
    }

    /// Adds `left_node` to the left tree and `right_node` to the right tree.
    pub fn add(&mut self, left_node: Node, right_node: Node) -> (r: Result<(), TreeError>)
        requires
            old(self).wf(),
        ensures
            final(self).wf(),
            final(self).grown_from(old(self)),
            carried_out(
                add_model(old(self)@.0, old(self)@.1, left_node, right_node),
                old(self)@,
                final(self)@,
                r,
            ),
    {
        match self.left.slot_for(left_node.rank, 0) {
            Err(e) => Err(e),
            Ok(_) => match self.right.slot_for(right_node.rank, 0) {
                Err(e) => Err(e),
                Ok(_) => {
                    self.left.add(left_node);
                    self.right.add(right_node);
                    Ok(())
                },
            },
        }
    }

    /// Exchanges the first node that carries `id` in the left tree with the
    /// first one in the right tree. The trees keep their shape.
    pub fn swap_nodes(&mut self, id: usize) -> (r: Result<(), TreeError>)
        requires
            old(self).wf(),
        ensures
            final(self).wf(),
            final(self).grown_from(old(self)),
            carried_out(
                swap_nodes_model(old(self)@.0, old(self)@.1, id),
                old(self)@,
                final(self)@,
                r,
            ),
    {
        let found_left = self.left.find_by_id(id);
        let found_right = self.right.find_by_id(id);
        proof {
            found_left.lemma_lists(self.left@, id);
            found_right.lemma_lists(self.right@, id);
        }
        if found_left.entry.len() == 0 || found_right.entry.len() == 0 {
            return Err(TreeError::Inconsistent);
        }
        let ghost l = self.left@;
        let ghost r = self.right@;
        assert(holds_id(l, id, found_left.entry@[0].1 as nat));
        assert(holds_id(r, id, found_right.entry@[0].1 as nat));
        self.left.put(found_left.pos(), found_right.node());
        self.right.put(found_right.pos(), found_left.node());
        proof {
            lemma_overwrite_connected(l, found_left.entry@[0].1 as nat, found_right.entry@[0].0);
            lemma_overwrite_connected(r, found_right.entry@[0].1 as nat, found_left.entry@[0].0);
            self.left.lemma_wf();
            self.right.lemma_wf();
        }
        Ok(())
    }

    /// Exchanges the two subtrees rooted at the nodes that carry `id`.
    pub fn swap_subtrees(&mut self, id: usize) -> (r: Result<(), TreeError>)
        requires
            old(self).wf(),
        ensures
            final(self).wf(),
            final(self).grown_from(old(self)),
            carried_out(
                swap_subtrees_model(old(self)@.0, old(self)@.1, id),
                old(self)@,
                final(self)@,
                r,
            ),
    {
        let found_left = self.left.find_by_id(id);
        let found_right = self.right.find_by_id(id);
        proof {
            found_left.lemma_lists(self.left@, id);
            found_right.lemma_lists(self.right@, id);
        }
        let n_left = found_left.entry.len();
        let n_right = found_right.entry.len();
        if n_left == 1 && n_right == 1 {
            let pl = found_left.pos();
            let pr = found_right.pos();
            proof {
                assert(holds_id(self.left@, id, found_left.entry@[0].1 as nat));
                assert(holds_id(self.right@, id, found_right.entry@[0].1 as nat));
                lemma_cut_can_be_undone(self.left@, pl as nat);
                lemma_cut_can_be_undone(self.right@, pr as nat);
            }
            let mut from_left = self.left.extract(pl);
            let mut from_right = self.right.extract(pr);
            if from_right.fits_at(pl) && from_left.fits_at(pr) {
                self.left.plant(pl, &mut from_right);
                self.right.plant(pr, &mut from_left);
                Ok(())
            } else {
                self.left.plant(pl, &mut from_left);
                self.right.plant(pr, &mut from_right);
                Err(TreeError::Capacity)
            }
        } else if n_left == 0 && n_right == 2 {
            assert(holds_id(self.right@, id, found_right.entry@[0].1 as nat));
            assert(holds_id(self.right@, id, found_right.entry@[1].1 as nat));
            assert(found_right.entry@[0].1 < found_right.entry@[1].1);
            self.right.exchange(found_right.entry[0].1, found_right.entry[1].1)
        } else if n_left == 2 && n_right == 0 {
            assert(holds_id(self.left@, id, found_left.entry@[0].1 as nat));
            assert(holds_id(self.left@, id, found_left.entry@[1].1 as nat));
            assert(found_left.entry@[0].1 < found_left.entry@[1].1);
            self.left.exchange(found_left.entry[0].1, found_left.entry[1].1)
        } else {
            Err(TreeError::Inconsistent)
        }
    }

    /// Carries out one command under the policy `op`.
    pub fn apply(&mut self, command: Command, op: SwapOp) -> (r: Result<(), TreeError>)
        requires
            old(self).wf(),
        ensures
            final(self).wf(),
            final(self).grown_from(old(self)),
            carried_out(step_model(old(self)@, command, op), old(self)@, final(self)@, r),
    {
        match command {
            Command::Add { id, left_rank, left_symbol, right_rank, right_symbol } => self.add(
                Node::new(id, left_rank, left_symbol),
                Node::new(id, right_rank, right_symbol),
            ),
            Command::Swap { id } => self.swap(id, op),
        }
    }

    /// Carries out a swap on the nodes that carry `id`, under the policy `op`.
    pub fn swap(&mut self, id: usize, op: SwapOp) -> (r: Result<(), TreeError>)
        requires
            old(self).wf(),
        ensures
            final(self).wf(),
            final(self).grown_from(old(self)),
            carried_out(
                swap_model(old(self)@.0, old(self)@.1, id, op),
                old(self)@,
                final(self)@,
                r,
            ),
    {
        match op {
            SwapOp::SingleNode => self.swap_nodes(id),
            SwapOp::Subtree => self.swap_subtrees(id),
        }
    }
}

/// Builds a pair of trees from `lines`, each of them a command, carried out
/// in their order under the policy `swap_op`. The first line that is not a
/// command, or whose command cannot be carried out, ends the run.
pub fn parse_and_build(lines: &Vec<String>, swap_op: SwapOp) -> (r: Result<
    (VecTree, VecTree),
    TreeError,
>)
    ensures
        match run_model(texts(lines@), lines@.len(), swap_op) {
            Ok(pair) => r is Ok && r->Ok_0.0@ == pair.0 && r->Ok_0.1@ == pair.1,
            Err(e) => r is Err && r->Err_0 == e,
        },
        r is Ok ==> r->Ok_0.0.wf() && r->Ok_0.1.wf(),
{
    let mut pair = TreePair::new();
    let mut i: usize = 0;
    while i < lines.len()
        invariant
            i <= lines@.len(),
            pair.wf(),
            run_model(texts(lines@), i as nat, swap_op) == Ok::<Pair, TreeError>(pair@),
        decreases lines@.len() - i,
    {
        assert(texts(lines@)[i as int] == lines@[i as int]@);
        let done = match parse_command(lines[i].as_str()) {
            None => Err(TreeError::Malformed),
            Some(command) => pair.apply(command, swap_op),
        };
        match done {
            Err(e) => {
                proof {
                    lemma_run_stays_refused(texts(lines@), (i + 1) as nat, lines@.len(), swap_op);
                }
                return Err(e);
            },
            Ok(_) => {},
        }
        i += 1;
    }
    Ok((pair.left, pair.right))
}

/// Once a line has been refused, the run has ended.
pub proof fn lemma_run_stays_refused(lines: Seq<Seq<char>>, n: nat, later: nat, op: SwapOp)
    requires
        n <= later,
        run_model(lines, n, op) is Err,
    ensures
        run_model(lines, later, op) == run_model(lines, n, op),
    decreases later,
{
    if n < later {
        lemma_run_stays_refused(lines, n, (later - 1) as nat, op);
    }
}

} // verus!
