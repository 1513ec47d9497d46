use quests::command::{parse_command, rank_and_symbol, Command};
use quests::levels::first_longest;
use quests::pair::{parse_and_build, SwapOp, TreePair};
use quests::position::{graft_checked, is_below};
use quests::tree::{Node, TreeError, VecTree};

fn build(lines: &[&str], op: SwapOp) -> Result<(VecTree, VecTree), TreeError> {
    let lines: Vec<String> = lines.iter().map(|l| l.to_string()).collect();
    parse_and_build(&lines, op)
}

fn slots(tree: &VecTree, n: usize) -> Vec<Option<Node>> {
    (0..n).map(|p| if tree.has(p) { Some(tree.get(p)) } else { None }).collect()
}

fn tree_of(ranks: &[usize]) -> VecTree {
    let mut tree = VecTree::default();
    for (i, rank) in ranks.iter().enumerate() {
        let symbol = (b'a' + (i % 26) as u8) as char;
        assert_eq!(tree.slot_for(*rank, 0).is_ok(), true);
        tree.add(Node::new(i, *rank, symbol));
    }
    tree
}

fn in_order(tree: &VecTree, pos: usize, out: &mut Vec<Node>) {
    if tree.has(pos) {
        in_order(tree, 2 * pos + 1, out);
        out.push(tree.get(pos));
        in_order(tree, 2 * pos + 2, out);
    }
}

fn count(tree: &VecTree, id: usize) -> usize {
    tree.find_by_id(id).entry.len()
}

const THREE_ADDS: [&str; 3] =
    ["ADD ID=1 A[2,X] B[2,Y]", "ADD ID=2 A[1,Z] B[3,W]", "ADD ID=3 A[3,Q] B[1,R]"];

#[test]
fn three_adds_give_two_level_trees() {
    let (left, right) = build(&THREE_ADDS, SwapOp::SingleNode).unwrap();
    assert_eq!(
        slots(&left, 4),
        vec![Some(Node::new(1, 2, 'X')), Some(Node::new(2, 1, 'Z')), Some(Node::new(3, 3, 'Q')), None]
    );
    assert_eq!(
        slots(&right, 4),
        vec![Some(Node::new(1, 2, 'Y')), Some(Node::new(3, 1, 'R')), Some(Node::new(2, 3, 'W')), None]
    );
    assert_eq!(left.widest_level(), "ZQ");
    assert_eq!(right.widest_level(), "RW");
    assert_eq!(format!("{}{}", left.widest_level(), right.widest_level()), "ZQRW");
}

#[test]
fn node_swap_exchanges_contents_and_keeps_shapes() {
    let mut lines = THREE_ADDS.to_vec();
    lines.push("SWAP 2");
    let (left, right) = build(&lines, SwapOp::SingleNode).unwrap();
    assert_eq!(
        slots(&left, 4),
        vec![Some(Node::new(1, 2, 'X')), Some(Node::new(2, 3, 'W')), Some(Node::new(3, 3, 'Q')), None]
    );
    assert_eq!(
        slots(&right, 4),
        vec![Some(Node::new(1, 2, 'Y')), Some(Node::new(3, 1, 'R')), Some(Node::new(2, 1, 'Z')), None]
    );
    assert_eq!(format!("{}{}", left.widest_level(), right.widest_level()), "WQRZ");
}

#[test]
fn subtree_swap_between_the_trees() {
    let lines = ["ADD ID=1 A[5,A] B[5,a]", "ADD ID=2 A[3,B] B[7,b]", "ADD ID=3 A[2,C] B[1,c]", "SWAP 2"];
    let (left, right) = build(&lines, SwapOp::Subtree).unwrap();
    assert_eq!(
        slots(&left, 7),
        vec![Some(Node::new(1, 5, 'A')), Some(Node::new(2, 7, 'b')), None, None, None, None, None]
    );
    assert_eq!(
        slots(&right, 7),
        vec![
            Some(Node::new(1, 5, 'a')),
            Some(Node::new(3, 1, 'c')),
            Some(Node::new(2, 3, 'B')),
            None,
            None,
            Some(Node::new(3, 2, 'C')),
            None
        ]
    );
}

#[test]
fn swap_of_an_id_that_has_migrated_stays_within_one_tree() {
    let first = ["ADD ID=1 A[5,A] B[5,a]", "ADD ID=2 A[3,B] B[7,b]", "ADD ID=3 A[2,C] B[1,c]", "SWAP 2"];
    let (left_before, right_before) = build(&first, SwapOp::Subtree).unwrap();
    assert_eq!(count(&left_before, 3), 0);
    assert_eq!(count(&right_before, 3), 2);
    let mut lines = first.to_vec();
    lines.push("SWAP 3");
    let (left, right) = build(&lines, SwapOp::Subtree).unwrap();
    assert_eq!(slots(&left, 16), slots(&left_before, 16));
    assert_eq!(left.widest_level(), left_before.widest_level());
    assert_eq!(
        slots(&right, 7),
        vec![
            Some(Node::new(1, 5, 'a')),
            Some(Node::new(3, 2, 'C')),
            Some(Node::new(2, 3, 'B')),
            None,
            None,
            Some(Node::new(3, 1, 'c')),
            None
        ]
    );
}

#[test]
fn swap_within_the_left_tree() {
    let lines = [
        "ADD ID=1 A[5,A] B[5,a]",
        "ADD ID=2 A[7,B] B[3,b]",
        "ADD ID=3 A[1,C] B[2,c]",
        "SWAP 2",
        "SWAP 3",
    ];
    let (left, right) = build(&lines, SwapOp::Subtree).unwrap();
    // After SWAP 2 the left tree holds id 3 at 1 and at 5; SWAP 3 exchanges them.
    assert_eq!(count(&left, 3), 2);
    assert_eq!(count(&right, 3), 0);
    assert_eq!(left.get(1), Node::new(3, 2, 'c'));
    assert_eq!(left.get(5), Node::new(3, 1, 'C'));
    assert_eq!(left.get(2), Node::new(2, 3, 'b'));
    assert_eq!(slots(&right, 3), vec![Some(Node::new(1, 5, 'a')), Some(Node::new(2, 7, 'B')), None]);
}

#[test]
fn in_order_walk_of_added_nodes_is_by_rank() {
    let tree = tree_of(&[50, 20, 70, 10, 30, 60, 80, 25, 65, 5]);
    let mut walk = Vec::new();
    in_order(&tree, 0, &mut walk);
    let ranks: Vec<usize> = walk.iter().map(|n| n.rank).collect();
    assert_eq!(ranks, vec![5, 10, 20, 25, 30, 50, 60, 65, 70, 80]);
}

#[test]
fn insert_places_by_rank() {
    let tree = tree_of(&[50, 20, 70, 10, 30, 60, 80]);
    let ranks: Vec<usize> = slots(&tree, 7).iter().map(|n| n.unwrap().rank).collect();
    assert_eq!(ranks, vec![50, 20, 70, 10, 30, 60, 80]);
    assert_eq!(tree.slot_for(25, 0), Ok(9));
    assert_eq!(tree.slot_for(25, 1), Ok(9));
    assert_eq!(tree.slot_for(25, 2), Ok(11));
    assert_eq!(tree.slot_for(30, 0), Err(TreeError::Collision));
    assert_eq!(tree.slot_for(30, 2), Ok(11));
}

#[test]
fn every_id_is_carried_by_two_nodes_at_every_point() {
    let lines = [
        "ADD ID=1 A[5,A] B[5,a]",
        "ADD ID=2 A[3,B] B[7,b]",
        "ADD ID=3 A[2,C] B[1,c]",
        "SWAP 2",
        "ADD ID=4 A[9,D] B[9,d]",
        "SWAP 3",
        "SWAP 1",
        "SWAP 2",
    ];
    for n in 0..=lines.len() {
        let (left, right) = build(&lines[..n], SwapOp::Subtree).unwrap();
        for id in 1..=4 {
            let introduced = lines[..n].iter().any(|l| l.starts_with(&format!("ADD ID={id} ")));
            assert_eq!(count(&left, id) + count(&right, id), if introduced { 2 } else { 0 });
        }
    }
}

#[test]
fn extract_and_plant_back_restores_the_tree() {
    let mut tree = tree_of(&[50, 20, 70, 10, 30, 60, 80, 25, 65, 5]);
    let before = slots(&tree, 64);
    for pos in [0, 1, 2, 4, 5, 9, 3] {
        let mut sub = tree.extract(pos);
        assert_eq!(tree.has(pos), false);
        assert_eq!(sub.fits_at(pos), true);
        tree.plant(pos, &mut sub);
        assert_eq!(sub.has(0), false);
        assert_eq!(slots(&tree, 64), before);
    }
}

#[test]
fn extract_renumbers_from_the_root() {
    let mut tree = tree_of(&[50, 20, 70, 10, 30, 60, 80, 25]);
    let sub = tree.extract(1);
    let ranks: Vec<Option<usize>> = slots(&sub, 8).iter().map(|n| n.map(|n| n.rank)).collect();
    assert_eq!(ranks, vec![Some(20), Some(10), Some(30), None, None, Some(25), None, None]);
    let rest: Vec<Option<usize>> = slots(&tree, 10).iter().map(|n| n.map(|n| n.rank)).collect();
    assert_eq!(
        rest,
        vec![Some(50), None, Some(70), None, None, Some(60), Some(80), None, None, None]
    );
}

#[test]
fn extract_of_an_unoccupied_position_gives_an_empty_tree() {
    let mut tree = tree_of(&[50, 20]);
    let sub = tree.extract(2);
    assert_eq!(sub.has(0), false);
    let sub = tree.extract(100);
    assert_eq!(sub.has(0), false);
    assert_eq!(slots(&tree, 3).iter().filter(|n| n.is_some()).count(), 2);
}

#[test]
fn plant_maps_children_by_doubling() {
    let mut source = tree_of(&[50, 20, 70, 10]);
    let mut target = tree_of(&[5]);
    assert_eq!(source.fits_at(2), true);
    target.plant(2, &mut source);
    let ranks: Vec<Option<usize>> = slots(&target, 14).iter().map(|n| n.map(|n| n.rank)).collect();
    assert_eq!(
        ranks,
        vec![
            Some(5),
            None,
            Some(50),
            None,
            None,
            Some(20),
            Some(70),
            None,
            None,
            None,
            None,
            Some(10),
            None,
            None
        ]
    );
}

#[test]
fn cross_swap_twice_restores_both_trees() {
    let adds = [
        "ADD ID=1 A[50,A] B[50,a]",
        "ADD ID=2 A[20,B] B[70,b]",
        "ADD ID=3 A[10,C] B[60,c]",
        "ADD ID=4 A[30,D] B[80,d]",
        "ADD ID=5 A[70,E] B[20,e]",
        "ADD ID=6 A[25,F] B[65,f]",
    ];
    let (left0, right0) = build(&adds, SwapOp::Subtree).unwrap();
    let mut once = adds.to_vec();
    once.push("SWAP 2");
    let (left1, right1) = build(&once, SwapOp::Subtree).unwrap();
    assert_ne!(slots(&left1, 64), slots(&left0, 64));
    assert_ne!(slots(&right1, 64), slots(&right0, 64));
    let mut twice = once.clone();
    twice.push("SWAP 2");
    let (left2, right2) = build(&twice, SwapOp::Subtree).unwrap();
    assert_eq!(slots(&left2, 64), slots(&left0, 64));
    assert_eq!(slots(&right2, 64), slots(&right0, 64));
}

#[test]
fn widest_level_keeps_the_first_of_equal_levels() {
    let rows: Vec<String> = vec!["abc".to_string(), "d".to_string(), "efg".to_string()];
    assert_eq!(rows[first_longest(&rows)], "abc");
    let rows: Vec<String> = vec!["a".to_string(), "bc".to_string(), "def".to_string(), "gh".to_string()];
    assert_eq!(rows[first_longest(&rows)], "def");
    // levels of 1, 2 and 2 nodes: the level under the root wins
    let tree = tree_of(&[50, 20, 70, 10, 80]);
    assert_eq!(tree.levels(), vec!["a".to_string(), "bc".to_string(), "de".to_string()]);
    assert_eq!(tree.widest_level(), "bc");
}

#[test]
fn levels_list_symbols_from_left_to_right() {
    let tree = tree_of(&[50, 70, 20, 80, 10, 60, 30, 65]);
    assert_eq!(
        tree.levels(),
        vec!["a".to_string(), "cb".to_string(), "egfd".to_string(), "h".to_string()]
    );
    assert_eq!(tree.widest_level(), "egfd");
    assert_eq!(VecTree::default().levels(), Vec::<String>::new());
}

#[test]
fn widest_level_counts_symbols_not_bytes() {
    let mut tree = VecTree::default();
    tree.add(Node::new(1, 5, 'é'));
    tree.add(Node::new(2, 3, 'x'));
    tree.add(Node::new(3, 7, 'y'));
    assert_eq!(tree.widest_level(), "xy");
}

#[test]
fn find_by_id_lists_every_match_by_position() {
    let mut tree = VecTree::default();
    tree.add(Node::new(7, 50, 'a'));
    tree.add(Node::new(8, 20, 'b'));
    tree.add(Node::new(7, 70, 'c'));
    let found = tree.find_by_id(7);
    assert_eq!(found.entry, vec![(Node::new(7, 50, 'a'), 0), (Node::new(7, 70, 'c'), 2)]);
    assert_eq!(found.pos(), 0);
    assert_eq!(found.node(), Node::new(7, 50, 'a'));
    assert_eq!(tree.find_by_id(8).entry, vec![(Node::new(8, 20, 'b'), 1)]);
    assert_eq!(tree.find_by_id(9).entry, vec![]);
}

#[test]
fn malformed_lines_end_the_run() {
    assert_eq!(build(&["MOVE 1"], SwapOp::Subtree).err(), Some(TreeError::Malformed));
    assert_eq!(build(&["ADD ID=x A[1,a] B[1,b]"], SwapOp::Subtree).err(), Some(TreeError::Malformed));
    assert_eq!(build(&["ADD ID=1 A[1,a]"], SwapOp::Subtree).err(), Some(TreeError::Malformed));
    assert_eq!(build(&["ADD ID=1 A[1,a] B[1]"], SwapOp::Subtree).err(), Some(TreeError::Malformed));
    assert_eq!(build(&["SWAP"], SwapOp::Subtree).err(), Some(TreeError::Malformed));
    assert_eq!(build(&["SWAP one"], SwapOp::Subtree).err(), Some(TreeError::Malformed));
    assert_eq!(build(&[""], SwapOp::Subtree).err(), Some(TreeError::Malformed));
    assert_eq!(build(&[], SwapOp::Subtree).is_ok(), true);
}

#[test]
fn equal_ranks_on_the_search_path_collide() {
    let lines = ["ADD ID=1 A[5,A] B[5,a]", "ADD ID=2 A[5,B] B[7,b]"];
    assert_eq!(build(&lines, SwapOp::Subtree).err(), Some(TreeError::Collision));
    let lines = ["ADD ID=1 A[5,A] B[5,a]", "ADD ID=2 A[3,B] B[5,b]"];
    assert_eq!(build(&lines, SwapOp::Subtree).err(), Some(TreeError::Collision));
}

#[test]
fn a_refused_add_changes_neither_tree() {
    let mut pair = TreePair::new();
    assert_eq!(pair.add(Node::new(1, 5, 'A'), Node::new(1, 5, 'a')), Ok(()));
    assert_eq!(pair.add(Node::new(2, 3, 'B'), Node::new(2, 5, 'b')), Err(TreeError::Collision));
    assert_eq!(slots(&pair.left, 3), vec![Some(Node::new(1, 5, 'A')), None, None]);
    assert_eq!(slots(&pair.right, 3), vec![Some(Node::new(1, 5, 'a')), None, None]);
}

#[test]
fn swaps_without_the_right_matches_are_inconsistent() {
    let mut lines = THREE_ADDS.to_vec();
    lines.push("SWAP 9");
    assert_eq!(build(&lines, SwapOp::Subtree).err(), Some(TreeError::Inconsistent));
    assert_eq!(build(&lines, SwapOp::SingleNode).err(), Some(TreeError::Inconsistent));
    // an id that two commands introduced is carried by two nodes in each tree
    let lines = ["ADD ID=1 A[5,A] B[5,a]", "ADD ID=1 A[3,B] B[7,b]", "SWAP 1"];
    assert_eq!(build(&lines, SwapOp::Subtree).err(), Some(TreeError::Inconsistent));
    assert_eq!(build(&lines, SwapOp::SingleNode).is_ok(), true);
}

#[test]
fn a_subtree_cannot_change_places_with_one_inside_it() {
    let mut nested = VecTree::default();
    nested.add(Node::new(9, 5, 'a'));
    nested.add(Node::new(9, 3, 'b'));
    let before = slots(&nested, 4);
    assert_eq!(nested.exchange(0, 1), Err(TreeError::Inconsistent));
    assert_eq!(slots(&nested, 4), before);
    let mut both = TreePair { left: nested, right: VecTree::default() };
    assert_eq!(both.swap(9, SwapOp::Subtree), Err(TreeError::Inconsistent));
    assert_eq!(slots(&both.left, 4), before);
}

#[test]
fn positions_that_cannot_be_indexed_do_not_fit() {
    assert_eq!(graft_checked(3, 0), Some(3));
    assert_eq!(graft_checked(3, 1), Some(7));
    assert_eq!(graft_checked(3, 2), Some(8));
    assert_eq!(graft_checked(3, 5), Some(17));
    assert_eq!(graft_checked(0, 12), Some(12));
    assert_eq!(graft_checked(usize::MAX / 2, 1), None);
    assert_eq!(graft_checked(usize::MAX, 0), None);
    assert_eq!(graft_checked(usize::MAX - 1, 0), Some(usize::MAX - 1));
    let tree = tree_of(&[50, 20, 70]);
    assert_eq!(tree.fits_at(usize::MAX / 2 - 1), true);
    assert_eq!(tree.fits_at(usize::MAX / 2), false);
    assert_eq!(VecTree::default().fits_at(usize::MAX), true);
}

#[test]
fn subtrees_are_told_by_their_positions() {
    assert_eq!(is_below(1, 3), true);
    assert_eq!(is_below(1, 4), true);
    assert_eq!(is_below(1, 9), true);
    assert_eq!(is_below(1, 5), false);
    assert_eq!(is_below(3, 1), false);
    assert_eq!(is_below(0, 1000), true);
    assert_eq!(is_below(4, 4), true);
}

#[test]
fn parses_commands() {
    assert_eq!(
        parse_command("ADD ID=1 A[2,X] B[2,Y]"),
        Some(Command::Add { id: 1, left_rank: 2, left_symbol: 'X', right_rank: 2, right_symbol: 'Y' })
    );
    assert_eq!(
        parse_command("ADD id=12 left=[30,!] right=[+4,ab] and more"),
        Some(Command::Add { id: 12, left_rank: 30, left_symbol: '!', right_rank: 4, right_symbol: 'a' })
    );
    assert_eq!(parse_command("SWAP 7"), Some(Command::Swap { id: 7 }));
    assert_eq!(parse_command("SWAP 7 8"), Some(Command::Swap { id: 7 }));
    assert_eq!(parse_command("MOVE 7"), None);
    assert_eq!(parse_command("swap 7"), None);
    assert_eq!(parse_command("ADD  ID=1 A[2,X] B[2,Y]"), None);
    assert_eq!(parse_command("SWAP -7"), None);
    assert_eq!(parse_command("SWAP 99999999999999999999999"), None);
}

#[test]
fn reads_rank_and_symbol_between_brackets() {
    assert_eq!(rank_and_symbol("left=[12,Q]"), Some((12, 'Q')));
    assert_eq!(rank_and_symbol("[12,Q]tail"), Some((12, 'Q')));
    assert_eq!(rank_and_symbol("[12,Qx]"), Some((12, 'Q')));
    assert_eq!(rank_and_symbol("[12,,]"), Some((12, ',')));
    assert_eq!(rank_and_symbol("[x,Q]"), None);
    assert_eq!(rank_and_symbol("[12,]"), None);
    assert_eq!(rank_and_symbol("[12Q]"), None);
    assert_eq!(rank_and_symbol("12,Q]"), None);
    assert_eq!(rank_and_symbol("[12,Q"), None);
    assert_eq!(rank_and_symbol("][12,Q]"), Some((12, 'Q')));
}

#[test]
fn a_search_that_leaves_the_index_range_is_refused() {
    assert_eq!(VecTree::default().slot_for(5, usize::MAX), Err(TreeError::Capacity));
    assert_eq!(VecTree::default().slot_for(5, usize::MAX - 1), Ok(usize::MAX - 1));
    assert_eq!(VecTree::default().slot_for(5, 0), Ok(0));
}

#[test]
fn put_take_and_last_position() {
    let mut tree = VecTree::default();
    assert_eq!(tree.last_position(), None);
    tree.put(0, Node::new(1, 5, 'a'));
    tree.put(2, Node::new(2, 9, 'b'));
    assert_eq!(tree.last_position(), Some(2));
    assert_eq!(slots(&tree, 4), vec![Some(Node::new(1, 5, 'a')), None, Some(Node::new(2, 9, 'b')), None]);
    tree.put(2, Node::new(3, 7, 'c'));
    assert_eq!(tree.get(2), Node::new(3, 7, 'c'));
    assert_eq!(tree.take(2), Node::new(3, 7, 'c'));
    assert_eq!(tree.has(2), false);
    assert_eq!(tree.last_position(), Some(0));
    assert_eq!(tree.has(1000), false);
}

#[test]
fn insert_below_a_position_searches_from_there() {
    let mut tree = tree_of(&[50, 20, 70]);
    assert_eq!(tree.slot_for(60, 1), Ok(4));
    tree.insert(Node::new(9, 60, 'z'), 1);
    assert_eq!(tree.get(4), Node::new(9, 60, 'z'));
}

#[test]
fn traverse_appends_to_the_rows_of_each_depth() {
    let tree = tree_of(&[50, 20, 70, 10]);
    let mut rows: Vec<String> = vec!["x".to_string()];
    tree.traverse(1, 1, &mut rows);
    assert_eq!(rows, vec!["x".to_string(), "b".to_string(), "d".to_string()]);
    tree.traverse(0, 0, &mut rows);
    assert_eq!(rows, vec!["xa".to_string(), "bbc".to_string(), "dd".to_string()]);
}
