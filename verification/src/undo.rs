//! A swap of subtrees that is carried out twice gives back what was there.

use vstd::prelude::*;
use crate::census::{lemma_counted, lemma_counted_once, lemma_exchange_census};
use crate::census::{lemma_first_match, lemma_matches_finite};
use crate::pair::{exchange_model, swap_subtrees_model, Pair};
use crate::position::{graft, lemma_graft_rel, lemma_rel_graft, rel};
use crate::subtree::{apart, clear_below, covers, planted, subtree, without};
use crate::subtree::{lemma_apart, lemma_back_fits, lemma_cut_apart, lemma_extract_plant_round_trip};
use crate::subtree::{lemma_plant_apart, lemma_plant_commutes, lemma_plant_extract_round_trip};
use crate::subtree::lemma_without_clear;
use crate::tree::{carriers, count, first_match, holds_id, is_tree, last_match, Node, TreeError};

verus! {

/// After the subtrees at `pl` and `pr`, whose roots alone carry `id`, have
/// changed trees, the node at `pl` is the only one of its tree that carries `id`.
pub proof fn lemma_cross_keeps_match(
    l: Map<nat, Node>,
    r: Map<nat, Node>,
    pl: nat,
    pr: nat,
    id: usize,
)
    requires
        l.dom().finite(),
        r.dom().finite(),
        carriers(l, id) == set![pl],
        carriers(r, id) == set![pr],
    ensures
        carriers(planted(without(l, pl), pl, subtree(r, pr)), id) == set![pl],
        count(planted(without(l, pl), pl, subtree(r, pr)), id) == 1,
        first_match(planted(without(l, pl), pl, subtree(r, pr)), id) == pl,
{
    let after = planted(without(l, pl), pl, subtree(r, pr));
    assert(carriers(l, id).contains(pl));
    assert(carriers(r, id).contains(pr));
    assert forall|q: nat| carriers(after, id).contains(q) == (q == pl) by {
        if covers(subtree(r, pr), pl, q) {
            lemma_rel_graft(pl, q);
            lemma_graft_rel(pr, rel(pl, q));
            let source = graft(pr, rel(pl, q));
            assert(carriers(r, id).contains(source) == (source == pr));
        } else if carriers(after, id).contains(q) {
            assert(carriers(l, id).contains(q));
        }
    }
    assert(carriers(after, id) =~= set![pl]);
    assert(holds_id(after, id, pl));
    lemma_first_match(after, id, pl);
    assert(carriers(after, id).contains(first_match(after, id)));
}

/// Where two nodes of a finite tree carry `id`, they are the first match
/// and the last match.
pub proof fn lemma_counted_twice(m: Map<nat, Node>, id: usize)
    requires
        m.dom().finite(),
        count(m, id) == 2,
    ensures
        carriers(m, id) == set![first_match(m, id), last_match(m, id)],
        first_match(m, id) < last_match(m, id),
        holds_id(m, id, first_match(m, id)),
        holds_id(m, id, last_match(m, id)),
{
    lemma_counted(m, id);
    lemma_matches_finite(m, id);
    let all = carriers(m, id);
    let f = first_match(m, id);
    let l = last_match(m, id);
    assert(all.contains(f));
    assert(all.contains(l));
    if f == l {
        assert forall|q: nat| all.contains(q) implies q == f by {}
        assert(all =~= set![f]);
    }
    let rest = all.remove(f).remove(l);
    assert(rest.len() == 0);
    assert(rest =~= Set::empty()) by {
        vstd::set_lib::lemma_set_empty_equivalency_len(rest);
    }
    assert forall|q: nat| all.contains(q) implies q == f || q == l by {
        if q != f && q != l {
            assert(rest.contains(q));
        }
    }
    assert(all =~= set![f, l]);
}

/// After two subtrees of a tree, whose roots alone carry `id`, have changed
/// places, the nodes at their roots are still the ones that carry `id`.
pub proof fn lemma_exchange_keeps_matches(m: Map<nat, Node>, pa: nat, pb: nat, id: usize)
    requires
        apart(pa, pb),
        carriers(m, id) == set![pa, pb],
        exchange_model(m, pa, pb) is Ok,
    ensures
        carriers(exchange_model(m, pa, pb)->Ok_0, id) == set![pa, pb],
{
    let after = exchange_model(m, pa, pb)->Ok_0;
    let s1 = subtree(m, pa);
    let s2 = subtree(without(m, pa), pb);
    let m3 = planted(without(without(m, pa), pb), pa, s2);
    lemma_cut_apart(m, pa, pb);
    assert(carriers(m, id).contains(pa));
    assert(carriers(m, id).contains(pb));
    assert forall|q: nat| carriers(after, id).contains(q) == (q == pa || q == pb) by {
        lemma_apart(pa, pb, q);
        if covers(s1, pb, q) {
            lemma_rel_graft(pb, q);
            lemma_graft_rel(pa, rel(pb, q));
            let source = graft(pa, rel(pb, q));
            lemma_apart(pa, pb, source);
            assert(carriers(m, id).contains(source) == (source == pa || source == pb));
        } else if covers(s2, pa, q) {
            lemma_rel_graft(pa, q);
            lemma_graft_rel(pb, rel(pa, q));
            let source = graft(pb, rel(pa, q));
            lemma_apart(pa, pb, source);
            assert(carriers(m, id).contains(source) == (source == pa || source == pb));
        } else if carriers(after, id).contains(q) {
            assert(carriers(m, id).contains(q));
        }
    }
    assert(carriers(after, id) =~= set![pa, pb]);
}

/// Two subtrees of a tree that have changed places change back when they
/// change places again.
pub proof fn lemma_exchange_twice(m: Map<nat, Node>, pa: nat, pb: nat)
    requires
        apart(pa, pb),
        forall|q: nat| m.contains_key(q) ==> q < usize::MAX,
        exchange_model(m, pa, pb) is Ok,
    ensures
        exchange_model(exchange_model(m, pa, pb)->Ok_0, pa, pb) == Ok::<Map<nat, Node>, TreeError>(
            m,
        ),
{
    let s1 = subtree(m, pa);
    let s2 = subtree(m, pb);
    let m2 = without(without(m, pa), pb);
    let after = planted(planted(m2, pa, s2), pb, s1);
    lemma_cut_apart(m, pa, pb);
    assert(exchange_model(m, pa, pb)->Ok_0 == after);
    // what the second exchange cuts out
    lemma_plant_apart(planted(m2, pa, s2), pb, s1, pa);
    assert(clear_below(m2, pa));
    lemma_plant_extract_round_trip(m2, pa, s2);
    assert(without(after, pa) == planted(m2, pb, s1));
    assert(subtree(after, pa) == s2);
    assert(clear_below(m2, pb));
    lemma_plant_extract_round_trip(m2, pb, s1);
    // what it plants gives the tree from before
    lemma_back_fits(m, pa);
    lemma_back_fits(m, pb);
    lemma_extract_plant_round_trip(m, pa);
    lemma_extract_plant_round_trip(without(m, pa), pb);
    lemma_plant_commutes(m2, pa, s1, pb, s2);
}

/// A swap of subtrees that is carried out twice in a row on the same id
/// gives back the two trees that were there before, whether the subtrees
/// change trees or change places within one tree.
pub proof fn lemma_swap_twice(l: Map<nat, Node>, r: Map<nat, Node>, id: usize)
    requires
        is_tree(l),
        is_tree(r),
        swap_subtrees_model(l, r, id) is Ok,
    ensures
        swap_subtrees_model(
            swap_subtrees_model(l, r, id)->Ok_0.0,
            swap_subtrees_model(l, r, id)->Ok_0.1,
            id,
        ) == Ok::<Pair, TreeError>((l, r)),
{
    if count(l, id) == 1 && count(r, id) == 1 {
        lemma_cross_swap_twice(l, r, id);
    } else if count(l, id) == 0 && count(r, id) == 2 {
        lemma_within_twice(r, id);
    } else {
        lemma_within_twice(l, id);
    }
}

/// Where two nodes of a tree carry `id`, their subtrees change places and,
/// the second time, change back; the count of `id` stays 2 in between.
pub proof fn lemma_within_twice(m: Map<nat, Node>, id: usize)
    requires
        is_tree(m),
        count(m, id) == 2,
        exchange_model(m, first_match(m, id), last_match(m, id)) is Ok,
    ensures
        count(exchange_model(m, first_match(m, id), last_match(m, id))->Ok_0, id) == 2,
        exchange_model(
            exchange_model(m, first_match(m, id), last_match(m, id))->Ok_0,
            first_match(exchange_model(m, first_match(m, id), last_match(m, id))->Ok_0, id),
            last_match(exchange_model(m, first_match(m, id), last_match(m, id))->Ok_0, id),
        ) == Ok::<Map<nat, Node>, TreeError>(m),
{
    let pa = first_match(m, id);
    let pb = last_match(m, id);
    let after = exchange_model(m, pa, pb)->Ok_0;
    lemma_counted_twice(m, id);
    lemma_exchange_keeps_matches(m, pa, pb, id);
    lemma_exchange_census(m, pa, pb, id);
    lemma_counted_twice(after, id);
    let fa = first_match(after, id);
    let la = last_match(after, id);
    assert(carriers(after, id).contains(fa));
    assert(carriers(after, id).contains(la));
    assert(fa == pa && la == pb);
    lemma_exchange_twice(m, pa, pb);
}

/// A swap of subtrees between the two trees, carried out twice in a row on
/// the same id, gives back the two trees that were there before.
pub proof fn lemma_cross_swap_twice(l: Map<nat, Node>, r: Map<nat, Node>, id: usize)
    requires
        is_tree(l),
        is_tree(r),
        count(l, id) == 1,
        count(r, id) == 1,
        swap_subtrees_model(l, r, id) is Ok,
    ensures
        swap_subtrees_model(
            swap_subtrees_model(l, r, id)->Ok_0.0,
            swap_subtrees_model(l, r, id)->Ok_0.1,
            id,
        ) == Ok::<Pair, TreeError>((l, r)),
{
    let pl = first_match(l, id);
    let pr = first_match(r, id);
    lemma_counted_once(l, id);
    lemma_counted_once(r, id);
    let after = swap_subtrees_model(l, r, id)->Ok_0;
    lemma_cross_keeps_match(l, r, pl, pr, id);
    lemma_cross_keeps_match(r, l, pr, pl, id);
    lemma_without_clear(l, pl);
    lemma_without_clear(r, pr);
    lemma_plant_extract_round_trip(without(l, pl), pl, subtree(r, pr));
    lemma_plant_extract_round_trip(without(r, pr), pr, subtree(l, pl));
    lemma_back_fits(l, pl);
    lemma_back_fits(r, pr);
    lemma_extract_plant_round_trip(l, pl);
    lemma_extract_plant_round_trip(r, pr);
}

} // verus!
