//! The commands that build and change a pair of trees, one to a line.
//!
//! `ADD ID=<id> <left> <right>` adds a node to each tree; `<left>` and
//! `<right>` each hold `[<rank>,<symbol>]`. `SWAP <id>` exchanges the nodes
//! that carry the id.

use vstd::prelude::*;
use crate::text::{assigned, assigned_model, field, nth_field, parse_uint, split_at_first};
use crate::text::{split_once, to_chars, uint_value};

verus! {

/// One line of input.
#[derive(Debug, Clone, Copy, PartialEq, Eq, Structural)]
pub enum Command {
    /// Add a node that carries `id` to each tree.
    Add { id: usize, left_rank: usize, left_symbol: char, right_rank: usize, right_symbol: char },
    /// Exchange the nodes that carry `id`.
    Swap { id: usize },
}

/// The rank and the symbol that `s` holds between its first `[` and the
/// first `]` after it: the rank before the first comma there, and the
/// symbol the first character after that comma.
pub open spec fn rank_and_symbol_model(s: Seq<char>) -> Option<(usize, char)> {
    match split_once(s, '[') {
        None => None,
        Some((_, rest)) => match split_once(rest, ']') {
            None => None,
            Some((inner, _)) => match split_once(inner, ',') {
                None => None,
                Some((rank, symbol)) => match uint_value(rank) {
                    Some(r) if symbol.len() > 0 => Some((r, symbol[0])),
                    _ => None,
                },
            },
        },
    }
}

/// The command that the fields of `line` after the keyword `ADD` spell.
pub open spec fn add_command_model(line: Seq<char>) -> Option<Command> {
    match (field(line, 1), field(line, 2), field(line, 3)) {
        (Some(id), Some(left), Some(right)) => match (
            assigned_model(id),
            rank_and_symbol_model(left),
            rank_and_symbol_model(right),
        ) {
            (Some(id), Some(l), Some(r)) => Some(
                Command::Add {
                    id,
                    left_rank: l.0,
                    left_symbol: l.1,
                    right_rank: r.0,
                    right_symbol: r.1,
                },
            ),
            _ => None,
        },
        _ => None,
    }
}

/// The command that the fields of `line` after the keyword `SWAP` spell.
pub open spec fn swap_command_model(line: Seq<char>) -> Option<Command> {
    match field(line, 1) {
        Some(id) => match uint_value(id) {
            Some(id) => Some(Command::Swap { id }),
            None => None,
        },
        None => None,
    }
}

/// The command that `line` spells, if it spells one. Fields that follow
/// the ones of the command are not read.
pub open spec fn command_model(line: Seq<char>) -> Option<Command> {
    match field(line, 0) {
        Some(keyword) => if keyword == seq!['A', 'D', 'D'] {
            add_command_model(line)
        } else if keyword == seq!['S', 'W', 'A', 'P'] {
            swap_command_model(line)
        } else {
            None
        },
        None => None,
    }
}

/// The rank and the symbol of a node, read from text of the form
/// `..[<rank>,<symbol>..]..`.
pub fn rank_and_symbol(s: &str) -> (r: Option<(usize, char)>)
    ensures
        r == rank_and_symbol_model(s@),
{
    let text = to_chars(s);
    rank_and_symbol_of(&text)
}

fn rank_and_symbol_of(text: &Vec<char>) -> (r: Option<(usize, char)>)
    ensures
        r == rank_and_symbol_model(text@),
{
    match split_at_first(text, '[') {
        None => None,
        Some((_, rest)) => match split_at_first(&rest, ']') {
            None => None,
            Some((inner, _)) => match split_at_first(&inner, ',') {
                None => None,
                Some((rank, symbol)) => match parse_uint(&rank) {
                    None => None,
                    Some(r) => if symbol.len() > 0 {
                        Some((r, symbol[0]))
                    } else {
                        None
                    },
                },
            },
        },
    }
}

fn parse_add(line: &Vec<char>) -> (r: Option<Command>)
    ensures
        r == add_command_model(line@),
{
    match (nth_field(line, 1), nth_field(line, 2), nth_field(line, 3)) {
        (Some(id), Some(left), Some(right)) => match (
            assigned(&id),
            rank_and_symbol_of(&left),
            rank_and_symbol_of(&right),
        ) {
            (Some(id), Some(l), Some(r)) => Some(
                Command::Add {
                    id,
                    left_rank: l.0,
                    left_symbol: l.1,
                    right_rank: r.0,
                    right_symbol: r.1,
                },
            ),
            _ => None,
        },
        _ => None,
    }
}

fn parse_swap(line: &Vec<char>) -> (r: Option<Command>)
    ensures
        r == swap_command_model(line@),
{
    match nth_field(line, 1) {
        Some(id) => match parse_uint(&id) {
            Some(id) => Some(Command::Swap { id }),
            None => None,
        },
        None => None,
    }
}

/// Reads one line of input as a command.
pub fn parse_command(line: &str) -> (r: Option<Command>)
    ensures
        r == command_model(line@),
{
    let text = to_chars(line);
    match nth_field(&text, 0) {
        Some(keyword) => {
            if keyword.len() == 3 && keyword[0] == 'A' && keyword[1] == 'D' && keyword[2] == 'D' {
                assert(keyword@ =~= seq!['A', 'D', 'D']);
                parse_add(&text)
            } else if keyword.len() == 4 && keyword[0] == 'S' && keyword[1] == 'W' && keyword[2]
                == 'A' && keyword[3] == 'P' {
                assert(keyword@ =~= seq!['S', 'W', 'A', 'P']);
                parse_swap(&text)
            } else {
                assert(keyword@ != seq!['A', 'D', 'D']) by {
                    if keyword@ == seq!['A', 'D', 'D'] {
                        assert(seq!['A', 'D', 'D'].len() == 3);
                        assert(seq!['A', 'D', 'D'][0] == 'A');
                        assert(seq!['A', 'D', 'D'][1] == 'D');
                        assert(seq!['A', 'D', 'D'][2] == 'D');
                    }
                }
                assert(keyword@ != seq!['S', 'W', 'A', 'P']) by {
                    if keyword@ == seq!['S', 'W', 'A', 'P'] {
                        assert(seq!['S', 'W', 'A', 'P'].len() == 4);
                        assert(seq!['S', 'W', 'A', 'P'][0] == 'S');
                        assert(seq!['S', 'W', 'A', 'P'][1] == 'W');
                        assert(seq!['S', 'W', 'A', 'P'][2] == 'A');
                        assert(seq!['S', 'W', 'A', 'P'][3] == 'P');
                    }
                }
                None
            }
        },
        None => None,
    }
}

} // verus!
