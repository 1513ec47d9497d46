//! A binary tree stored in an array: the node at position `p` has its
//! children at `2p + 1` and `2p + 2`.

use vstd::prelude::*;
use crate::position::{below, depth, left, parent, right, side};
use crate::position::{lemma_below_depth, lemma_below_split, lemma_children};
use crate::position::{lemma_depth_monotone, lemma_parent};
use crate::position::{lemma_finite_bound, lemma_positions_under, positions_under};

verus! {

/// One node of a tree. Its `rank` decides where it is placed; its `id` is
/// shared with the node's twin in the other tree of a pair.
#[derive(Debug, Default, Clone, Copy, PartialEq, Eq, Structural)]
pub struct Node {
    pub id: usize,
    pub rank: usize,
    pub symbol: char,
}

impl Node {
    /// A node with the given id, rank and symbol.
    pub fn new(id: usize, rank: usize, symbol: char) -> (node: Self)
        ensures
            node == (Node { id, rank, symbol }),
    {
        Self { id, rank, symbol }
    }
}

/// Why an operation on a tree, or on a pair of trees, was not carried out.
#[derive(Debug, Clone, Copy, PartialEq, Eq, Structural)]
pub enum TreeError {
    /// A line of input is not a command.
    Malformed,
    /// The rank to insert is already on the search path.
    Collision,
    /// A node would come to lie at a position that the machine cannot index.
    Capacity,
    /// The nodes that carry an id are not where a swap needs them.
    Inconsistent,
}

/// Every occupied position but the root has an occupied parent.
pub open spec fn connected(m: Map<nat, Node>) -> bool {
    forall|p: nat| #![trigger parent(p)] m.contains_key(p) ==> m.contains_key(parent(p))
}

/// The map is a tree that the machine can hold: it has finitely many nodes,
/// all at positions that can be indexed, and is in one piece.
pub open spec fn is_tree(m: Map<nat, Node>) -> bool {
    &&& m.dom().finite()
    &&& connected(m)
    &&& forall|p: nat| m.contains_key(p) ==> p < usize::MAX
}

/// Searching for `rank` from position `from` passes through position `p`:
/// every position on the way from `from` down to the parent of `p` is
/// occupied, and at each the search turns towards `p`.
pub open spec fn routed(m: Map<nat, Node>, rank: usize, from: nat, p: nat) -> bool
    decreases p,
{
    p == from || (p > from && {
        &&& routed(m, rank, from, parent(p))
        &&& m.contains_key(parent(p))
        &&& if side(p) == 1 {
            rank < m[parent(p)].rank
        } else {
            rank > m[parent(p)].rank
        }
    })
}

/// The search for `rank` from `from` ends at the unoccupied position `p`.
pub open spec fn is_landing(m: Map<nat, Node>, rank: usize, from: nat, p: nat) -> bool {
    routed(m, rank, from, p) && !m.contains_key(p)
}

/// The search for `rank` from `from` meets a node of that very rank.
pub open spec fn collides(m: Map<nat, Node>, rank: usize, from: nat) -> bool {
    exists|p: nat| is_collision(m, rank, from, p)
}

/// The search for `rank` from `from` meets a node of that rank at `p`.
pub open spec fn is_collision(m: Map<nat, Node>, rank: usize, from: nat, p: nat) -> bool {
    routed(m, rank, from, p) && m.contains_key(p) && m[p].rank == rank
}

/// The position at which the search for `rank` from `from` ends.
pub open spec fn landing(m: Map<nat, Node>, rank: usize, from: nat) -> nat {
    choose|p: nat| is_landing(m, rank, from, p)
}

/// What a search for the place of a new node of rank `rank` gives.
pub open spec fn slot_model(m: Map<nat, Node>, rank: usize, from: nat) -> Result<usize, TreeError> {
    if collides(m, rank, from) {
        Err(TreeError::Collision)
    } else if landing(m, rank, from) >= usize::MAX {
        Err(TreeError::Capacity)
    } else {
        Ok(landing(m, rank, from) as usize)
    }
}

/// Positions on a search path lie below its start.
pub proof fn lemma_routed_below(m: Map<nat, Node>, rank: usize, from: nat, p: nat)
    requires
        routed(m, rank, from, p),
    ensures
        below(from, p),
    decreases p,
{
    if p != from {
        lemma_routed_below(m, rank, from, parent(p));
    }
}

/// A search path holds one position of each depth.
pub proof fn lemma_routed_level(m: Map<nat, Node>, rank: usize, from: nat, p: nat, q: nat)
    requires
        routed(m, rank, from, p),
        routed(m, rank, from, q),
        depth(p) == depth(q),
    ensures
        p == q,
    decreases p,
{
    lemma_routed_below(m, rank, from, p);
    lemma_routed_below(m, rank, from, q);
    lemma_below_depth(from, p);
    lemma_below_depth(from, q);
    if p != from {
        lemma_routed_level(m, rank, from, parent(p), parent(q));
        lemma_parent(p);
        lemma_parent(q);
    }
}

/// Of two positions on a search path, the search went on from the first:
/// it is occupied, and by a node of another rank.
pub proof fn lemma_routed_chain(m: Map<nat, Node>, rank: usize, from: nat, p: nat, q: nat)
    requires
        routed(m, rank, from, p),
        routed(m, rank, from, q),
        p < q,
    ensures
        m.contains_key(p),
        m[p].rank != rank,
    decreases q,
{
    lemma_routed_below(m, rank, from, p);
    lemma_below_depth(from, p);
    let a = parent(q);
    if a > p {
        lemma_routed_chain(m, rank, from, p, a);
    } else if a < p {
        lemma_depth_monotone(a, p);
        lemma_depth_monotone(p, q);
        if depth(p) == depth(q) {
            lemma_routed_level(m, rank, from, p, q);
        } else {
            lemma_routed_level(m, rank, from, a, p);
        }
    }
}

/// In a tree whose positions lie under `bound`, a search that has come to
/// `p` ends: at an unoccupied position or at a node of the rank searched for.
pub proof fn lemma_search_goes_on(m: Map<nat, Node>, rank: usize, from: nat, p: nat, bound: nat)
    requires
        routed(m, rank, from, p),
        forall|q: nat| m.contains_key(q) ==> q < bound,
    ensures
        collides(m, rank, from) || exists|l: nat| is_landing(m, rank, from, l),
    decreases
            (if p < bound {
                bound - p
            } else {
                0
            }),
{
    if !m.contains_key(p) {
        assert(is_landing(m, rank, from, p));
    } else if m[p].rank == rank {
        assert(is_collision(m, rank, from, p));
    } else {
        lemma_children(p);
        let next = if rank < m[p].rank {
            left(p)
        } else {
            right(p)
        };
        lemma_routed_below(m, rank, from, p);
        lemma_below_depth(from, p);
        assert(routed(m, rank, from, next));
        lemma_search_goes_on(m, rank, from, next, bound);
    }
}

/// In a finite tree every search ends: at the landing, or at a node of the
/// rank searched for.
pub proof fn lemma_search_ends(m: Map<nat, Node>, rank: usize, from: nat)
    requires
        m.dom().finite(),
    ensures
        collides(m, rank, from) || is_landing(m, rank, from, landing(m, rank, from)),
{
    let bound = lemma_finite_bound(m.dom());
    lemma_search_goes_on(m, rank, from, from, bound);
}

/// A search ends in at most one way: at one unoccupied position, or at a
/// node of the rank searched for.
pub proof fn lemma_landing_unique(m: Map<nat, Node>, rank: usize, from: nat, p: nat)
    requires
        is_landing(m, rank, from, p),
    ensures
        landing(m, rank, from) == p,
        !collides(m, rank, from),
{
    let l = landing(m, rank, from);
    if l < p {
        lemma_routed_chain(m, rank, from, l, p);
    } else if p < l {
        lemma_routed_chain(m, rank, from, p, l);
    }
    if collides(m, rank, from) {
        let c = choose|c: nat| is_collision(m, rank, from, c);
        if c < p {
            lemma_routed_chain(m, rank, from, c, p);
        } else if p < c {
            lemma_routed_chain(m, rank, from, p, c);
        }
    }
}

/// Under an unoccupied position of a tree in one piece nothing is occupied.
pub proof fn lemma_nothing_below_a_gap(m: Map<nat, Node>, gap: nat, q: nat)
    requires
        connected(m),
        !m.contains_key(gap),
        below(gap, q),
    ensures
        !m.contains_key(q),
    decreases q,
{
    if q != gap {
        lemma_nothing_below_a_gap(m, gap, parent(q));
        assert(m.contains_key(q) ==> m.contains_key(parent(q)));
    }
}

/// A node put where a search from the root ends keeps the tree in one piece.
pub proof fn lemma_landing_connected(m: Map<nat, Node>, node: Node, from: nat, p: nat)
    requires
        connected(m),
        is_landing(m, node.rank, from, p),
        from == 0 || m.contains_key(parent(from)),
    ensures
        connected(m.insert(p, node)),
{
    let after = m.insert(p, node);
    assert forall|q: nat| #![trigger parent(q)] after.contains_key(q) implies after.contains_key(
        parent(q),
    ) by {
        if q != p {
            assert(m.contains_key(q) ==> m.contains_key(parent(q)));
        }
    }
}

/// Replacing the node at an occupied position keeps the tree in one piece.
pub proof fn lemma_overwrite_connected(m: Map<nat, Node>, p: nat, node: Node)
    requires
        connected(m),
        m.contains_key(p),
    ensures
        connected(m.insert(p, node)),
{
    let after = m.insert(p, node);
    assert forall|q: nat| #![trigger parent(q)] after.contains_key(q) implies after.contains_key(
        parent(q),
    ) by {
        assert(m.contains_key(q) ==> m.contains_key(parent(q)));
    }
}

/// The node at `q`, if it lies under the node at `a`, is on the side of `a`
/// that its rank asks for.
pub open spec fn ordered_at(m: Map<nat, Node>, a: nat, q: nat) -> bool {
    m.contains_key(a) && m.contains_key(q) ==> {
        &&& below(left(a), q) ==> m[q].rank < m[a].rank
        &&& below(right(a), q) ==> m[q].rank > m[a].rank
    }
}

/// The tree is a search tree by rank: under every node, the smaller ranks
/// are on the left and the larger ones on the right.
pub open spec fn ordered(m: Map<nat, Node>) -> bool {
    forall|a: nat, q: nat| #[trigger] ordered_at(m, a, q)
}

/// A search that passes under a node has turned towards the side of its rank.
pub proof fn lemma_routed_side(m: Map<nat, Node>, rank: usize, a: nat, p: nat)
    requires
        routed(m, rank, 0, p),
    ensures
        below(left(a), p) ==> m.contains_key(a) && rank < m[a].rank,
        below(right(a), p) ==> m.contains_key(a) && rank > m[a].rank,
    decreases p,
{
    lemma_children(a);
    if below(left(a), p) {
        if p != left(a) {
            lemma_routed_side(m, rank, a, parent(p));
        }
    }
    if below(right(a), p) {
        if p != right(a) {
            lemma_routed_side(m, rank, a, parent(p));
        }
    }
}

/// A node put where the search for its rank ends keeps a search tree a
/// search tree.
pub proof fn lemma_landing_ordered(m: Map<nat, Node>, node: Node, p: nat)
    requires
        connected(m),
        ordered(m),
        is_landing(m, node.rank, 0, p),
    ensures
        ordered(m.insert(p, node)),
{
    let after = m.insert(p, node);
    assert forall|a: nat, q: nat| #[trigger] ordered_at(after, a, q) by {
        assert(ordered_at(m, a, q));
        if after.contains_key(a) && after.contains_key(q) {
            if a == p {
                if below(left(a), q) || below(right(a), q) {
                    lemma_below_split(a, q);
                    lemma_below_depth(a, q);
                    lemma_children(a);
                    lemma_nothing_below_a_gap(m, p, q);
                }
            } else if q == p {
                lemma_routed_side(m, node.rank, a, p);
            }
        }
    }
}

/// Position `p` holds a node that carries `id`.
pub open spec fn holds_id(m: Map<nat, Node>, id: usize, p: nat) -> bool {
    m.contains_key(p) && m[p].id == id
}

/// The positions whose nodes carry `id`.
pub open spec fn carriers(m: Map<nat, Node>, id: usize) -> Set<nat> {
    Set::new(|p: nat| holds_id(m, id, p))
}

/// How many nodes carry `id`.
pub open spec fn count(m: Map<nat, Node>, id: usize) -> nat {
    carriers(m, id).len()
}

/// `p` is the first position whose node carries `id`.
pub open spec fn is_first_match(m: Map<nat, Node>, id: usize, p: nat) -> bool {
    holds_id(m, id, p) && forall|q: nat| holds_id(m, id, q) ==> p <= q
}

/// `p` is the last position whose node carries `id`.
pub open spec fn is_last_match(m: Map<nat, Node>, id: usize, p: nat) -> bool {
    holds_id(m, id, p) && forall|q: nat| holds_id(m, id, q) ==> q <= p
}

/// The first position whose node carries `id`.
pub open spec fn first_match(m: Map<nat, Node>, id: usize) -> nat {
    choose|p: nat| is_first_match(m, id, p)
}

/// The last position whose node carries `id`.
pub open spec fn last_match(m: Map<nat, Node>, id: usize) -> nat {
    choose|p: nat| is_last_match(m, id, p)
}

/// The nodes of a tree that carry one id, each with its position.
#[derive(Debug)]
pub struct Found {
    pub entry: Vec<(Node, usize)>,
}

impl Default for Found {
    fn default() -> (found: Self)
        ensures
            found.entry@.len() == 0,
    {
        Found { entry: Vec::new() }
    }
}

impl Found {
    /// The entries are the nodes of `m` that carry `id`, each once, by
    /// ascending position.
    pub open spec fn lists(&self, m: Map<nat, Node>, id: usize) -> bool {
        &&& forall|i: int|
            0 <= i < self.entry@.len() ==> holds_id(m, id, (#[trigger] self.entry@[i]).1 as nat)
                && m[self.entry@[i].1 as nat] == self.entry@[i].0
        &&& forall|i: int, j: int|
            0 <= i < j < self.entry@.len() ==> (#[trigger] self.entry@[i]).1 < (
            #[trigger] self.entry@[j]).1
        &&& forall|p: nat|
            holds_id(m, id, p) ==> exists|i: int|
                0 <= i < self.entry@.len() && (#[trigger] self.entry@[i]).1 == p
    }

    /// The positions of the entries, in their order.
    pub open spec fn positions(&self) -> Seq<nat> {
        Seq::new(self.entry@.len(), |i: int| self.entry@[i].1 as nat)
    }

    /// A list of the nodes that carry an id counts them, and begins with the
    /// first and ends with the last of them.
    pub proof fn lemma_lists(&self, m: Map<nat, Node>, id: usize)
        requires
            self.lists(m, id),
        ensures
            carriers(m, id).finite(),
            count(m, id) == self.entry@.len(),
            carriers(m, id) == self.positions().to_set(),
            self.entry@.len() > 0 ==> first_match(m, id) == self.entry@[0].1 && last_match(m, id)
                == self.entry@[self.entry@.len() - 1].1,
    {
        let ps = self.positions();
        assert forall|i: int, j: int| 0 <= i < ps.len() && 0 <= j < ps.len() && i != j implies ps[i]
            != ps[j] by {
            if i < j {
                assert(self.entry@[i].1 < self.entry@[j].1);
            } else {
                assert(self.entry@[j].1 < self.entry@[i].1);
            }
        }
        assert forall|p: nat| ps.to_set().contains(p) == carriers(m, id).contains(p) by {
            if ps.to_set().contains(p) {
                let i = choose|i: int| 0 <= i < ps.len() && ps[i] == p;
                assert(holds_id(m, id, self.entry@[i].1 as nat));
            }
            if holds_id(m, id, p) {
                let i = choose|i: int| 0 <= i < self.entry@.len() && self.entry@[i].1 == p;
                assert(ps[i] == p);
            }
        }
        assert(ps.to_set() =~= carriers(m, id));
        ps.unique_seq_to_set();
        vstd::seq_lib::seq_to_set_is_finite(ps);
        if self.entry@.len() > 0 {
            let lo = self.entry@[0].1 as nat;
            let hi = self.entry@[self.entry@.len() - 1].1 as nat;
            assert(holds_id(m, id, lo));
            assert(holds_id(m, id, hi));
            assert forall|q: nat| holds_id(m, id, q) implies lo <= q && q <= hi by {
                let i = choose|i: int| 0 <= i < self.entry@.len() && self.entry@[i].1 == q;
                if 0 < i {
                    assert(self.entry@[0].1 < self.entry@[i].1);
                }
                if i < self.entry@.len() - 1 {
                    assert(self.entry@[i].1 < self.entry@[self.entry@.len() - 1].1);
                }
            }
            assert(is_first_match(m, id, lo));
            assert(is_last_match(m, id, hi));
            let f = first_match(m, id);
            let l = last_match(m, id);
            assert(is_first_match(m, id, f));
            assert(is_last_match(m, id, l));
        }
    }

    /// The position of the first entry.
    pub fn pos(&self) -> (p: usize)
        requires
            self.entry@.len() > 0,
        ensures
            p == self.entry@[0].1,
    {
        self.entry[0].1
    }

    /// The node of the first entry.
    pub fn node(&self) -> (n: Node)
        requires
            self.entry@.len() > 0,
        ensures
            n == self.entry@[0].0,
    {
        self.entry[0].0
    }
}

/// The tree: a growable array of slots, each empty or holding a node.
#[derive(Debug)]
pub struct VecTree {
    vec: Vec<Option<Node>>,
}

impl View for VecTree {
    type V = Map<nat, Node>;

    /// The occupied positions, each with its node.
    closed spec fn view(&self) -> Map<nat, Node> {
        Map::new(
            |p: nat| p < self.vec@.len() && self.vec@[p as int] is Some,
            |p: nat| self.vec@[p as int]->0,
        )
    }
}

impl Default for VecTree {
    fn default() -> (tree: Self)
        ensures
            tree@ == Map::<nat, Node>::empty(),
            tree.wf(),
    {
        let tree = VecTree { vec: Vec::new() };
        assert(tree@ =~= Map::<nat, Node>::empty());
        proof {
            tree.lemma_wf();
        }
        tree
    }
}

impl VecTree {
    /// The tree is well formed: it is in one piece, so that every node but
    /// the root has its parent, and it holds finitely many nodes at
    /// positions that can be indexed.
    pub open spec fn wf(&self) -> bool {
        is_tree(self@)
    }

    /// A tree in one piece is well formed: the array keeps it finite and
    /// its positions within reach.
    pub proof fn lemma_wf(&self)
        requires
            connected(self@),
        ensures
            self.wf(),
    {
        self.lemma_finite();
        self.lemma_span();
    }

    /// A tree holds finitely many nodes.
    pub proof fn lemma_finite(&self)
        ensures
            self@.dom().finite(),
    {
        let range = positions_under(self.vec@.len());
        lemma_positions_under(self.vec@.len());
        assert(self@.dom().subset_of(range));
        vstd::set_lib::lemma_len_subset(self@.dom(), range);
    }

    /// The number of slots of the array, which bounds the occupied positions.
    pub closed spec fn span(&self) -> nat {
        self.vec@.len()
    }

    /// Every occupied position is under the span, and can be indexed.
    pub proof fn lemma_span(&self)
        ensures
            self.span() <= usize::MAX,
            forall|p: nat| self@.contains_key(p) ==> p < self.span(),
    {
        assert(self.vec.len() == self.vec@.len());
    }

    /// Whether position `pos` is occupied.
    pub fn has(&self, pos: usize) -> (r: bool)
        ensures
            r == self@.contains_key(pos as nat),
    {
        pos < self.vec.len() && self.vec[pos].is_some()
    }

    /// The node at an occupied position.
    pub fn get(&self, pos: usize) -> (node: Node)
        requires
            self@.contains_key(pos as nat),
        ensures
            node == self@[pos as nat],
    {
        self.vec[pos].unwrap()
    }

    /// The last occupied position, if there is a node at all.
    pub fn last_position(&self) -> (last: Option<usize>)
        ensures
            match last {
                Some(p) => self@.contains_key(p as nat) && forall|q: nat|
                    self@.contains_key(q) ==> q <= p,
                None => self@ == Map::<nat, Node>::empty(),
            },
    {
        let mut n: usize = self.vec.len();
        while n > 0
            invariant
                n <= self.vec@.len(),
                forall|q: nat| self@.contains_key(q) ==> q < n,
            decreases n,
        {
            if self.vec[n - 1].is_some() {
                return Some(n - 1);
            }
            n -= 1;
        }
        assert(self@ =~= Map::<nat, Node>::empty());
        None
    }

    /// Makes sure that the array has a slot at every position below `len`.
    fn grow(&mut self, len: usize)
        ensures
            final(self)@ == old(self)@,
            final(self).vec@.len() >= len,
            final(self).vec@.len() >= old(self).vec@.len(),
    {
        while self.vec.len() < len
            invariant
                self@ == old(self)@,
                self.vec@.len() >= old(self).vec@.len(),
            decreases len - self.vec.len(),
        {
            let ghost before = self.vec@;
            self.vec.push(None);
            assert(self.vec@ == before.push(None));
            assert(self@ =~= old(self)@);
        }
    }

    /// Takes the node out of an occupied position.
    pub fn take(&mut self, pos: usize) -> (node: Node)
        requires
            old(self)@.contains_key(pos as nat),
        ensures
            node == old(self)@[pos as nat],
            final(self)@ == old(self)@.remove(pos as nat),
            final(self).span() == old(self).span(),
    {
        let node = self.vec[pos].unwrap();
        self.vec[pos] = None;
        assert(self@ =~= old(self)@.remove(pos as nat));
        node
    }

    /// Puts `node` at `pos`, whatever was there.
    pub fn put(&mut self, pos: usize, node: Node)
        requires
            pos < usize::MAX,
        ensures
            final(self)@ == old(self)@.insert(pos as nat, node),
            final(self).span() >= old(self).span(),
    {
        self.grow(pos + 1);
        self.vec[pos] = Some(node);
        assert(self@ =~= old(self)@.insert(pos as nat, node));
    }

    /// Searches from `pos` for the place of a new node of rank `rank`.
    pub fn slot_for(&self, rank: usize, pos: usize) -> (r: Result<usize, TreeError>)
        ensures
            r == slot_model(self@, rank, pos as nat),
            !collides(self@, rank, pos as nat) ==> is_landing(
                self@,
                rank,
                pos as nat,
                landing(self@, rank, pos as nat),
            ),
    {
        let mut p: usize = pos;
        loop
            invariant
                routed(self@, rank, pos as nat, p as nat),
            decreases
                if p < self.vec@.len() { self.vec@.len() - p } else { 0 },
        {
            if p >= self.vec.len() || self.vec[p].is_none() {
                proof {
                    lemma_landing_unique(self@, rank, pos as nat, p as nat);
                }
                if p == usize::MAX {
                    return Err(TreeError::Capacity);
                }
                return Ok(p);
            }
            let there = self.vec[p].unwrap();
            if there.rank == rank {
                proof {
                    assert(is_collision(self@, rank, pos as nat, p as nat));
                }
                return Err(TreeError::Collision);
            }
            proof {
                lemma_children(p as nat);
            }
            if p > (usize::MAX - 2) / 2 {
                proof {
                    let c = if rank < there.rank { left(p as nat) } else { right(p as nat) };
                    assert(routed(self@, rank, pos as nat, c));
                    lemma_landing_unique(self@, rank, pos as nat, c);
                }
                return Err(TreeError::Capacity);
            }
            if rank < there.rank {
                p = 2 * p + 1;
            } else {
                p = 2 * p + 2;
            }
        }
    }

    /// Inserts `node` below `pos`: at the first unoccupied position that the
    /// search for its rank reaches from there.
    pub fn insert(&mut self, node: Node, pos: usize)
        requires
            slot_model(old(self)@, node.rank, pos as nat) is Ok,
        ensures
            final(self)@ == old(self)@.insert(landing(old(self)@, node.rank, pos as nat), node),
            is_landing(old(self)@, node.rank, pos as nat, landing(old(self)@, node.rank, pos as nat)),
            old(self).wf() && (pos == 0 || old(self)@.contains_key(parent(pos as nat)))
                ==> final(self).wf(),
            old(self).wf() && pos == 0 && ordered(old(self)@) ==> ordered(final(self)@),
            final(self).span() >= old(self).span(),
    {
        let slot = self.slot_for(node.rank, pos).unwrap();
        proof {
            if self.wf() && (pos == 0 || self@.contains_key(parent(pos as nat))) {
                lemma_landing_connected(self@, node, pos as nat, slot as nat);
            }
            if self.wf() && pos == 0 && ordered(self@) {
                lemma_landing_ordered(self@, node, slot as nat);
            }
        }
        self.put(slot, node);
        proof {
            if connected(self@) {
                self.lemma_wf();
            }
        }
    }

    /// Inserts `node` into the tree.
    pub fn add(&mut self, node: Node)
        requires
            slot_model(old(self)@, node.rank, 0) is Ok,
        ensures
            final(self)@ == old(self)@.insert(landing(old(self)@, node.rank, 0), node),
            is_landing(old(self)@, node.rank, 0, landing(old(self)@, node.rank, 0)),
            old(self).wf() ==> final(self).wf(),
            old(self).wf() && ordered(old(self)@) ==> ordered(final(self)@),
            final(self).span() >= old(self).span(),
    {
        self.insert(node, 0);
    }

    /// Every node that carries `id`, with its position, by ascending position.
    pub fn find_by_id(&self, id: usize) -> (found: Found)
        ensures
            found.lists(self@, id),
    {
        let mut result = Found::default();
        let mut pos: usize = 0;
        while pos < self.vec.len()
            invariant
                pos <= self.vec@.len(),
                forall|i: int|
                    0 <= i < result.entry@.len() ==> holds_id(
                        self@,
                        id,
                        (#[trigger] result.entry@[i]).1 as nat,
                    ) && self@[result.entry@[i].1 as nat] == result.entry@[i].0
                        && result.entry@[i].1 < pos,
                forall|i: int, j: int|
                    0 <= i < j < result.entry@.len() ==> (#[trigger] result.entry@[i]).1 < (
                    #[trigger] result.entry@[j]).1,
                forall|p: nat|
                    p < pos && holds_id(self@, id, p) ==> exists|i: int|
                        0 <= i < result.entry@.len() && (#[trigger] result.entry@[i]).1 == p,
            decreases self.vec@.len() - pos,
        {
            if let Some(node) = self.vec[pos] {
                if node.id == id {
                    let ghost before = result.entry@;
                    result.entry.push((node, pos));
                    assert(forall|i: int| 0 <= i < before.len() ==> result.entry@[i] == before[i]);
                    assert(result.entry@[before.len() as int].1 == pos);
                }
            }
            pos += 1;
        }
        result
    }
}

} // verus!
