//! The levels of a tree, and the widest of them.

use vstd::prelude::*;
use crate::position::{depth, left, lemma_children, right};
use crate::tree::{Node, VecTree};

verus! {

/// `String::push` of the standard library appends one character to the string.
pub assume_specification[ String::push ](s: &mut String, ch: char)
    ensures
        final(s)@ == old(s)@.push(ch),
;

/// The symbols of the nodes `d` levels under `pos`, from left to right, as
/// far as they can be reached from `pos` through occupied positions.
pub open spec fn level(m: Map<nat, Node>, pos: nat, d: nat) -> Seq<char>
    decreases d,
{
    if !m.contains_key(pos) {
        Seq::empty()
    } else if d == 0 {
        seq![m[pos].symbol]
    } else {
        level(m, left(pos), (d - 1) as nat) + level(m, right(pos), (d - 1) as nat)
    }
}

/// Row `d` of a list of rows; beyond the list the rows are empty.
pub open spec fn row(rows: Seq<String>, d: nat) -> Seq<char> {
    if d < rows.len() {
        rows[d as int]@
    } else {
        Seq::empty()
    }
}

/// What a walk under `pos`, whose root is at depth `depth`, adds to row `d`.
pub open spec fn added(m: Map<nat, Node>, pos: nat, depth: nat, d: nat) -> Seq<char> {
    if d >= depth {
        level(m, pos, (d - depth) as nat)
    } else {
        Seq::empty()
    }
}

/// Level `d` of the tree is at least as long as every level, and longer
/// than every level above it.
pub open spec fn is_widest(m: Map<nat, Node>, d: nat) -> bool {
    &&& forall|k: nat| (#[trigger] level(m, 0, k)).len() <= level(m, 0, d).len()
    &&& forall|k: nat| k < d ==> (#[trigger] level(m, 0, k)).len() < level(m, 0, d).len()
}

/// The first of the longest levels of the tree.
pub open spec fn widest(m: Map<nat, Node>) -> nat {
    choose|d: nat| is_widest(m, d)
}

/// Only one level is the first of the longest.
pub proof fn lemma_widest_unique(m: Map<nat, Node>, d: nat)
    requires
        is_widest(m, d),
    ensures
        widest(m) == d,
{
    let w = widest(m);
    if w < d {
        assert(level(m, 0, w).len() < level(m, 0, d).len());
        assert(level(m, 0, d).len() <= level(m, 0, w).len());
    } else if d < w {
        assert(level(m, 0, d).len() < level(m, 0, w).len());
        assert(level(m, 0, w).len() <= level(m, 0, d).len());
    }
}

/// Under an empty level every level is empty.
pub proof fn lemma_level_empty_on(m: Map<nat, Node>, pos: nat, d: nat, e: nat)
    requires
        level(m, pos, d).len() == 0,
        d <= e,
    ensures
        level(m, pos, e).len() == 0,
    decreases e,
{
    if m.contains_key(pos) && d < e {
        if d == 0 {
        } else {
            lemma_level_empty_on(m, left(pos), (d - 1) as nat, (e - 1) as nat);
            lemma_level_empty_on(m, right(pos), (d - 1) as nat, (e - 1) as nat);
        }
    }
}

/// A level that is not empty holds a node: one that is `d` levels deeper
/// than `pos`, at a position at least that many places after `pos`.
pub proof fn lemma_level_witness(m: Map<nat, Node>, pos: nat, d: nat) -> (q: nat)
    requires
        level(m, pos, d).len() > 0,
    ensures
        m.contains_key(q),
        q >= pos + d,
        depth(q) == depth(pos) + d,
    decreases d,
{
    lemma_children(pos);
    if d == 0 {
        pos
    } else if level(m, left(pos), (d - 1) as nat).len() > 0 {
        lemma_level_witness(m, left(pos), (d - 1) as nat)
    } else {
        lemma_level_witness(m, right(pos), (d - 1) as nat)
    }
}

impl VecTree {
    /// Walks the subtree rooted at `pos` from left to right (left subtree,
    /// node, right subtree) and appends the symbol of each node to the row
    /// of its depth, where `pos` is at depth `depth`. Rows that are missing
    /// are added.
    pub fn traverse(&self, pos: usize, depth: usize, levels: &mut Vec<String>)
        requires
            self@.contains_key(pos as nat),
            forall|k: nat| (#[trigger] level(self@, pos as nat, k)).len() > 0 ==> depth + k < usize::MAX,
        ensures
            forall|d: nat|
                #![trigger row(final(levels)@, d)]
                row(final(levels)@, d) == row(old(levels)@, d) + added(
                    self@,
                    pos as nat,
                    depth as nat,
                    d,
                ),
            final(levels)@.len() >= old(levels)@.len(),
            forall|k: nat|
                (#[trigger] level(self@, pos as nat, k)).len() > 0 ==> final(levels)@.len() > depth
                    + k,
            final(levels)@.len() > old(levels)@.len() ==> final(levels)@.len() > depth && level(
                self@,
                pos as nat,
                (final(levels)@.len() - 1 - depth) as nat,
            ).len() > 0,
        decreases self.span() - pos,
    {
        proof {
            self.lemma_span();
            lemma_children(pos as nat);
            assert(level(self@, pos as nat, 0).len() > 0);
            assert forall|k: nat| (#[trigger] level(self@, left(pos as nat), k)).len()
                > 0 implies depth + 1 + k < usize::MAX by {
                assert(level(self@, pos as nat, k + 1).len() > 0);
            }
            assert forall|k: nat| (#[trigger] level(self@, right(pos as nat), k)).len()
                > 0 implies depth + 1 + k < usize::MAX by {
                assert(level(self@, pos as nat, k + 1).len() > 0);
            }
        }
        if pos <= (usize::MAX - 2) / 2 && self.has(pos * 2 + 1) {
            self.traverse(pos * 2 + 1, depth + 1, levels);
        }
        let ghost rows1 = levels@;
        while levels.len() <= depth
            invariant
                levels@.len() >= rows1.len(),
                levels@.len() > rows1.len() ==> levels@.len() <= depth + 1,
                forall|d: nat| #![trigger row(levels@, d)] row(levels@, d) == row(rows1, d),
                depth < usize::MAX,
            decreases depth + 1 - levels@.len(),
        {
            let ghost before = levels@;
            levels.push(String::new());
            assert forall|d: nat| #![trigger row(levels@, d)] row(levels@, d) == row(rows1, d) by {
                if d < before.len() {
                    assert(levels@[d as int] == before[d as int]);
                }
                assert(row(before, d) == row(rows1, d));
            }
        }
        let ghost rows2 = levels@;
        let symbol = self.get(pos).symbol;
        levels[depth].push(symbol);
        let ghost rows3 = levels@;
        proof {
            assert forall|d: nat| #![trigger row(rows3, d)] row(rows3, d) == row(rows2, d) + (if d
                == depth {
                seq![symbol]
            } else {
                Seq::empty()
            }) by {
                if d < rows2.len() && d != depth {
                    assert(rows3[d as int] == rows2[d as int]);
                }
            }
        }
        if pos <= (usize::MAX - 2) / 2 && self.has(pos * 2 + 2) {
            self.traverse(pos * 2 + 2, depth + 1, levels);
        }
        proof {
            let m = self@;
            let p = pos as nat;
            assert forall|d: nat| #![trigger row(levels@, d)] row(levels@, d) == row(old(levels)@, d)
                + added(m, p, depth as nat, d) by {
                assert(row(rows1, d) == row(old(levels)@, d) + (if m.contains_key(left(p)) {
                    added(m, left(p), (depth + 1) as nat, d)
                } else {
                    Seq::empty()
                }));
                assert(row(rows2, d) == row(rows1, d));
                assert(row(rows3, d) == row(rows2, d) + (if d == depth {
                    seq![symbol]
                } else {
                    Seq::empty()
                }));
                assert(row(levels@, d) == row(rows3, d) + (if m.contains_key(right(p)) {
                    added(m, right(p), (depth + 1) as nat, d)
                } else {
                    Seq::empty()
                }));
                if d > depth {
                    assert(level(m, p, (d - depth) as nat) == level(
                        m,
                        left(p),
                        (d - depth - 1) as nat,
                    ) + level(m, right(p), (d - depth - 1) as nat));
                }
            }
            assert forall|k: nat| (#[trigger] level(m, p, k)).len() > 0 implies levels@.len()
                > depth + k by {
                if k > 0 {
                    let kk = (k - 1) as nat;
                    assert(level(m, p, k) == level(m, left(p), kk) + level(m, right(p), kk));
                    if level(m, left(p), kk).len() > 0 {
                        assert(m.contains_key(left(p)));
                    } else {
                        assert(level(m, right(p), kk).len() > 0);
                        assert(m.contains_key(right(p)));
                    }
                }
            }
            if levels@.len() > old(levels)@.len() {
                let last = (levels@.len() - 1 - depth) as nat;
                if levels@.len() > rows3.len() {
                    assert(level(m, right(p), (last - 1) as nat).len() > 0);
                    assert(level(m, p, last) == level(m, left(p), (last - 1) as nat) + level(
                        m,
                        right(p),
                        (last - 1) as nat,
                    ));
                } else if rows2.len() > rows1.len() {
                    assert(last == 0);
                } else {
                    assert(rows1.len() > old(levels)@.len());
                    assert(level(m, left(p), (last - 1) as nat).len() > 0);
                    assert(level(m, p, last) == level(m, left(p), (last - 1) as nat) + level(
                        m,
                        right(p),
                        (last - 1) as nat,
                    ));
                }
            }
        }
    }

    /// The levels of the tree, from the root's down: each the symbols of its
    /// nodes from left to right. No level of the list is empty, and every
    /// level after the list is.
    pub fn levels(&self) -> (rows: Vec<String>)
        ensures
            forall|d: nat|
                d < rows@.len() ==> rows@[d as int]@ == #[trigger] level(self@, 0, d) && level(
                    self@,
                    0,
                    d,
                ).len() > 0,
            forall|d: nat| d >= rows@.len() ==> (#[trigger] level(self@, 0, d)).len() == 0,
    {
        let mut result: Vec<String> = Vec::new();
        if self.has(0) {
            proof {
                self.lemma_span();
                assert forall|k: nat| (#[trigger] level(self@, 0, k)).len() > 0 implies 0 + k
                    < usize::MAX by {
                    let q = lemma_level_witness(self@, 0, k);
                }
            }
            self.traverse(0, 0, &mut result);
            proof {
                assert forall|d: nat| d < result@.len() implies result@[d as int]@
                    == #[trigger] level(self@, 0, d) && level(self@, 0, d).len() > 0 by {
                    assert(row(result@, d) == row(Seq::<String>::empty(), d) + added(
                        self@,
                        0,
                        0,
                        d,
                    ));
                    if level(self@, 0, d).len() == 0 {
                        lemma_level_empty_on(self@, 0, d, (result@.len() - 1) as nat);
                    }
                }
            }
        }
        result
    }

    /// The symbols of the widest level of the tree, from left to right: of
    /// the levels with the most nodes, the one nearest to the root.
    pub fn widest_level(&self) -> (symbols: String)
        requires
            self@.contains_key(0),
        ensures
            is_widest(self@, widest(self@)),
            symbols@ == level(self@, 0, widest(self@)),
    {
        let levels = self.levels();
        assert(level(self@, 0, 0).len() > 0);
        let best = first_longest(&levels);
        proof {
            let d = best as nat;
            assert(levels@[best as int]@ == level(self@, 0, d));
            assert forall|k: nat| (#[trigger] level(self@, 0, k)).len() <= level(
                self@,
                0,
                d,
            ).len() by {
                if k < levels@.len() {
                    assert(levels@[k as int]@ == level(self@, 0, k));
                }
            }
            assert forall|k: nat| k < d implies (#[trigger] level(self@, 0, k)).len() < level(
                self@,
                0,
                d,
            ).len() by {
                assert(levels@[k as int]@ == level(self@, 0, k));
            }
            lemma_widest_unique(self@, d);
        }
        levels[best].clone()
    }
}

/// The index of the first of the longest rows: the row that is at least as
/// long as every row, and longer than every row before it.
pub fn first_longest(rows: &Vec<String>) -> (best: usize)
    requires
        rows@.len() > 0,
    ensures
        best < rows@.len(),
        forall|k: int| 0 <= k < rows@.len() ==> (#[trigger] rows@[k])@.len() <= rows@[best as int]@.len(),
        forall|k: int| 0 <= k < best ==> (#[trigger] rows@[k])@.len() < rows@[best as int]@.len(),
{
    let mut best: usize = 0;
    let mut best_len: usize = rows[0].as_str().unicode_len();
    let mut i: usize = 1;
    while i < rows.len()
        invariant
            1 <= i <= rows@.len(),
            best < i,
            best_len == rows@[best as int]@.len(),
            forall|k: int| 0 <= k < i ==> (#[trigger] rows@[k])@.len() <= best_len,
            forall|k: int| 0 <= k < best ==> (#[trigger] rows@[k])@.len() < best_len,
        decreases rows@.len() - i,
    {
        let len = rows[i].as_str().unicode_len();
        if best_len < len {
            best = i;
            best_len = len;
        }
        i += 1;
    }
    best
}

} // verus!
