use solitaire::cards::{Color, Stack, StackRole, Suite};
use solitaire::rules::{calc_possible_moves, check_victory, Move};
use solitaire::solver::{AiResult, AiState};

use Color::{Green, Red, White};
use Suite::{Dragon, FaceDown, Flower, Number};

fn stack_of(role: StackRole, cards: Vec<Suite>) -> Stack {
    Stack { cards, role }
}

fn full_target(color: Color, upto: u8) -> Stack {
    let cards = (1..=upto).map(|n| Number(n, color)).collect();
    stack_of(StackRole::Target, cards)
}

#[test]
fn victory_predicate() {
    let won = vec![
        full_target(Red, 9),
        full_target(Green, 9),
        full_target(White, 9),
        stack_of(StackRole::Sorting, vec![]),
        stack_of(StackRole::Dragon, vec![FaceDown; 4]),
        stack_of(StackRole::Flower, vec![Flower]),
    ];
    assert!(check_victory(&won));

    let not_won = vec![
        full_target(Red, 8),
        stack_of(StackRole::Sorting, vec![]),
    ];
    assert!(!check_victory(&not_won));

    let cards_left = vec![
        full_target(Red, 9),
        stack_of(StackRole::Sorting, vec![Number(1, Green)]),
    ];
    assert!(!check_victory(&cards_left));
}

#[test]
fn solver_round_trip_trivial_win() {
    // One move from a win: the nine of white completes the last target.
    let board = vec![
        full_target(Red, 9),
        full_target(Green, 9),
        full_target(White, 8),
        stack_of(StackRole::Sorting, vec![Number(9, White)]),
    ];
    let dfs_state = AiState::new(board.iter().map(|s| Stack {
        cards: s.cards.clone(),
        role: s.role,
    }).collect());
    let astar_state = AiState::new(board);
    assert!(matches!(astar_state.astar(10), AiResult::Winable(1)));
    assert!(matches!(dfs_state.dfs(10), AiResult::Winable(1)));
}

#[test]
fn solver_on_already_won_board() {
    let board = vec![full_target(Red, 9), stack_of(StackRole::Sorting, vec![])];
    let state = AiState::new(board);
    assert!(matches!(state.astar(5), AiResult::Winable(0)));
}

#[test]
fn solver_budget_returns_unknown_not_lost() {
    let board = vec![
        full_target(Red, 9),
        full_target(Green, 9),
        full_target(White, 8),
        stack_of(StackRole::Sorting, vec![Number(9, White)]),
    ];
    let state = AiState::new(board);
    assert!(matches!(state.astar(1), AiResult::Unknown));
    assert!(matches!(state.dfs(1), AiResult::Unknown));
    assert!(matches!(state.astar(0), AiResult::Unknown));
}

#[test]
fn visited_dedup_expands_each_position_once() {
    // Two aces can reach the two targets in either order; different move
    // orders meet in the same positions, each of which must be expanded
    // only once. A position places the two aces on distinct slots among
    // the two targets and the two sorting stacks; of those twelve
    // placements only the full swap of the sorting stacks is unreachable,
    // since a card on a target never comes back. So the search expands
    // exactly the eleven reachable positions before its frontier empties.
    let board = vec![
        stack_of(StackRole::Target, vec![]),
        stack_of(StackRole::Target, vec![]),
        stack_of(StackRole::Sorting, vec![Number(1, Red)]),
        stack_of(StackRole::Sorting, vec![Number(1, Green)]),
    ];
    let state = AiState::new(board);
    let (result, expanded) = state.priority_search(100);
    assert!(matches!(result, AiResult::Lost));
    assert_eq!(expanded, 11);
}

#[test]
fn possible_moves_of_small_position() {
    let board = vec![
        stack_of(StackRole::Target, vec![]),
        stack_of(StackRole::Sorting, vec![Number(1, Red)]),
    ];
    let moves = calc_possible_moves(&board);
    assert_eq!(moves, vec![Move::Cards(0, 1, 1)]);

    // A button move appears when four dragons of one color show on top.
    let board = vec![
        stack_of(StackRole::Dragon, vec![]),
        stack_of(StackRole::Sorting, vec![Dragon(Green)]),
        stack_of(StackRole::Sorting, vec![Dragon(Green)]),
        stack_of(StackRole::Sorting, vec![Dragon(Green)]),
        stack_of(StackRole::Sorting, vec![Dragon(Green)]),
    ];
    let moves = calc_possible_moves(&board);
    assert!(moves.contains(&Move::Button(Green, 0, [1, 2, 3, 4])));
}

#[test]
fn applying_a_button_move_collects_the_dragons() {
    let board = vec![
        stack_of(StackRole::Dragon, vec![Dragon(Green)]),
        stack_of(StackRole::Sorting, vec![Number(2, Red), Dragon(Green)]),
        stack_of(StackRole::Sorting, vec![Dragon(Green)]),
        stack_of(StackRole::Sorting, vec![Dragon(Green)]),
    ];
    let state = AiState::new(board);
    let next = state.apply_move(Move::Button(Green, 0, [0, 1, 2, 3]));
    let stacks = next.into_stacks();
    assert_eq!(stacks[0].cards, vec![FaceDown; 4]);
    assert_eq!(stacks[1].cards, vec![Number(2, Red)]);
    assert_eq!(stacks[2].cards, vec![]);
    assert_eq!(stacks[3].cards, vec![]);
}

#[test]
fn applying_a_cards_move_carries_the_run() {
    let board = vec![
        stack_of(StackRole::Sorting, vec![Number(7, Red)]),
        stack_of(StackRole::Sorting, vec![Flower, Number(6, Green), Number(5, White)]),
    ];
    let state = AiState::new(board);
    let next = state.apply_move(Move::Cards(0, 1, 2));
    let stacks = next.into_stacks();
    assert_eq!(
        stacks[0].cards,
        vec![Number(7, Red), Number(6, Green), Number(5, White)]
    );
    assert_eq!(stacks[1].cards, vec![Flower]);
}

#[test]
fn state_score_values() {
    // A collected dragon block is worth 100, a target counts ten times its
    // top rank, and a sorting stack counts the run sitting on its top.
    let board = vec![
        stack_of(StackRole::Dragon, vec![FaceDown; 4]),
        stack_of(StackRole::Target, vec![Number(1, Red), Number(2, Red), Number(3, Red)]),
        stack_of(
            StackRole::Sorting,
            vec![Flower, Number(5, White), Number(4, Red), Number(3, White)],
        ),
    ];
    let state = AiState::new(board);
    assert_eq!(state.score(), 100 + 30 + 2);

    let empty = AiState::new(vec![
        stack_of(StackRole::Dragon, vec![Dragon(Red)]),
        stack_of(StackRole::Target, vec![]),
        stack_of(StackRole::Sorting, vec![]),
    ]);
    assert_eq!(empty.score(), 0);
}
