use solitaire::cards::{Color, Stack, StackRole, Suite};
use solitaire::rules::{
    check_button, get_automove, is_valid_drag, is_valid_drop, is_valid_move, is_valid_pair,
    is_valid_sequence,
};

use Color::{Green, Red, White};
use Suite::{Dragon, FaceDown, Flower, Number};

fn stack_of(role: StackRole, cards: Vec<Suite>) -> Stack {
    Stack { cards, role }
}

#[test]
fn valid_pairs() {
    for i in 1..9 {
        assert!(is_valid_pair(Number(i + 1, Green), Number(i, Red)));
        assert!(is_valid_pair(Number(i + 1, Green), Number(i, White)));
        assert!(is_valid_pair(Number(i + 1, White), Number(i, Red)));
        assert!(is_valid_pair(Number(i + 1, Red), Number(i, Green)));
        assert!(is_valid_pair(Number(i + 1, White), Number(i, Green)));
        assert!(is_valid_pair(Number(i + 1, Red), Number(i, White)));
        assert!(!is_valid_pair(Number(i + 1, Red), Number(i, Red)));
        assert!(!is_valid_pair(Number(i + 1, Green), Number(i, Green)));
        assert!(!is_valid_pair(Number(i + 1, White), Number(i, White)));
    }

    for &c1 in &[Red, Green, White] {
        for &c2 in &[Red, Green, White] {
            for i in 1..10 {
                for j in 1..10 {
                    if i == j + 1 {
                        continue;
                    }
                    assert!(!is_valid_pair(Number(i, c1), Number(j, c2)));
                }
                assert!(!is_valid_pair(Number(i, c1), Dragon(c2)));
                assert!(!is_valid_pair(Number(i, c1), Flower));
                assert!(!is_valid_pair(Dragon(c1), Number(i, c2)));
                assert!(!is_valid_pair(Flower, Number(i, c2)));
            }
            assert!(!is_valid_pair(Dragon(c1), Dragon(c2)));
        }
        assert!(!is_valid_pair(Dragon(c1), Flower));
        assert!(!is_valid_pair(Flower, Dragon(c1)));
    }
    assert!(!is_valid_pair(Flower, Flower));
}

#[test]
fn valid_sequences() {
    let valid_vec = vec![Number(5, White), Number(4, Red), Number(3, White)];
    let valid_slice = &[Number(9, Red), Number(8, Green), Number(7, White)];

    assert!(is_valid_sequence(&valid_vec));
    assert!(is_valid_sequence(&valid_vec));
    assert!(is_valid_sequence(&Vec::new()));

    assert!(is_valid_sequence(valid_slice));
    assert!(is_valid_sequence(valid_slice));
    assert!(is_valid_sequence(&[]));
    assert!(is_valid_sequence(&[Number(42, Red)]));

    let chained = vec![Number(3, Green), Number(2, Red), Number(1, White)];
    assert!(is_valid_sequence(&chained));
    assert!(is_valid_sequence(&[]));
    assert!(is_valid_sequence(&[Number(6, White)]));

    assert!(!is_valid_sequence(&[Number(3, Red), Number(2, Red), Number(1, Red)]));
    assert!(!is_valid_sequence(&[Number(3, Red), Number(2, Green), Dragon(White)]));
    assert!(!is_valid_sequence(&[Number(3, Red), Number(2, Green), Flower]));
}

#[test]
fn target_acceptance() {
    let empty_target = stack_of(StackRole::Target, vec![]);
    for &c in &[Red, Green, White] {
        assert!(is_valid_move(&empty_target, Number(1, c), 1));
        assert!(!is_valid_move(&empty_target, Number(2, c), 1));
        assert!(!is_valid_move(&empty_target, Dragon(c), 1));
    }
    assert!(!is_valid_move(&empty_target, Flower, 1));
    assert!(!is_valid_move(&empty_target, Number(1, Red), 2));

    let topped = stack_of(StackRole::Target, vec![Number(4, Green)]);
    assert!(is_valid_move(&topped, Number(5, Green), 1));
    assert!(!is_valid_move(&topped, Number(5, Red), 1));
    assert!(!is_valid_move(&topped, Number(6, Green), 1));
    assert!(!is_valid_move(&topped, Number(5, Green), 2));
}

#[test]
fn sorting_and_dragon_acceptance() {
    let empty_dragon = stack_of(StackRole::Dragon, vec![]);
    assert!(is_valid_move(&empty_dragon, Dragon(Red), 1));
    assert!(is_valid_move(&empty_dragon, Number(7, White), 1));
    assert!(!is_valid_move(&empty_dragon, Number(7, White), 2));

    let full_dragon = stack_of(StackRole::Dragon, vec![Dragon(Red)]);
    assert!(!is_valid_move(&full_dragon, Dragon(Red), 1));

    let empty_sorting = stack_of(StackRole::Sorting, vec![]);
    assert!(is_valid_move(&empty_sorting, Dragon(Green), 1));
    assert!(is_valid_move(&empty_sorting, Number(9, Red), 3));

    let topped_sorting = stack_of(StackRole::Sorting, vec![Number(6, Red)]);
    assert!(is_valid_move(&topped_sorting, Number(5, Green), 2));
    assert!(!is_valid_move(&topped_sorting, Number(5, Red), 1));
    assert!(!is_valid_move(&topped_sorting, Number(6, Green), 1));

    let flower_stack = stack_of(StackRole::Flower, vec![]);
    assert!(is_valid_move(&flower_stack, Flower, 1));
    assert!(!is_valid_move(&flower_stack, Dragon(Red), 1));
}

#[test]
fn drag_rules() {
    let sorting = stack_of(
        StackRole::Sorting,
        vec![Flower, Number(5, White), Number(4, Red), Number(3, White)],
    );
    assert!(is_valid_drag(&sorting, 1));
    assert!(is_valid_drag(&sorting, 2));
    assert!(is_valid_drag(&sorting, 3));
    assert!(!is_valid_drag(&sorting, 0));

    let target = stack_of(StackRole::Target, vec![Number(1, Red)]);
    assert!(!is_valid_drag(&target, 0));

    let flower = stack_of(StackRole::Flower, vec![Flower]);
    assert!(!is_valid_drag(&flower, 0));

    let dragon_real = stack_of(StackRole::Dragon, vec![Dragon(Red)]);
    assert!(is_valid_drag(&dragon_real, 0));
    let dragon_collected = stack_of(StackRole::Dragon, vec![FaceDown; 4]);
    assert!(!is_valid_drag(&dragon_collected, 0));

    let empty = stack_of(StackRole::Sorting, vec![]);
    assert!(!is_valid_drag(&empty, 0));
}

#[test]
fn drop_delegates_to_move() {
    let target = stack_of(StackRole::Target, vec![Number(4, Green)]);
    let good = stack_of(StackRole::Generic, vec![Number(5, Green)]);
    let bad = stack_of(StackRole::Generic, vec![Number(5, Red)]);
    assert!(is_valid_drop(&target, &good));
    assert!(!is_valid_drop(&target, &bad));

    let sorting = stack_of(StackRole::Sorting, vec![Number(6, Red)]);
    let run = stack_of(StackRole::Generic, vec![Number(5, Green), Number(4, White)]);
    assert!(is_valid_drop(&sorting, &run));
}

#[test]
fn button_needs_exactly_four_dragons_and_a_slot() {
    // Four red dragons on top, one dragon stack empty: the button may fire.
    let stacks = vec![
        stack_of(StackRole::Dragon, vec![]),
        stack_of(StackRole::Dragon, vec![Dragon(Green)]),
        stack_of(StackRole::Dragon, vec![Dragon(White)]),
        stack_of(StackRole::Sorting, vec![Dragon(Red)]),
        stack_of(StackRole::Sorting, vec![Dragon(Red)]),
        stack_of(StackRole::Sorting, vec![Dragon(Red)]),
        stack_of(StackRole::Sorting, vec![Dragon(Red)]),
    ];
    assert_eq!(check_button(Red, &stacks), Some((0, [3, 4, 5, 6])));

    // The first dragon stack already topped by a red dragon is the target.
    let stacks = vec![
        stack_of(StackRole::Dragon, vec![Dragon(Red)]),
        stack_of(StackRole::Dragon, vec![]),
        stack_of(StackRole::Dragon, vec![Dragon(White)]),
        stack_of(StackRole::Sorting, vec![Dragon(Red)]),
        stack_of(StackRole::Sorting, vec![Dragon(Red)]),
        stack_of(StackRole::Sorting, vec![Dragon(Red)]),
    ];
    assert_eq!(check_button(Red, &stacks), Some((0, [0, 3, 4, 5])));

    // Only three red dragons visible: no activation.
    let stacks = vec![
        stack_of(StackRole::Dragon, vec![]),
        stack_of(StackRole::Sorting, vec![Dragon(Red)]),
        stack_of(StackRole::Sorting, vec![Dragon(Red)]),
        stack_of(StackRole::Sorting, vec![Dragon(Red)]),
    ];
    assert_eq!(check_button(Red, &stacks), None);

    // Five red dragons visible: no activation either.
    let stacks = vec![
        stack_of(StackRole::Dragon, vec![]),
        stack_of(StackRole::Sorting, vec![Dragon(Red)]),
        stack_of(StackRole::Sorting, vec![Dragon(Red)]),
        stack_of(StackRole::Sorting, vec![Dragon(Red)]),
        stack_of(StackRole::Sorting, vec![Dragon(Red)]),
        stack_of(StackRole::Sorting, vec![Dragon(Red)]),
    ];
    assert_eq!(check_button(Red, &stacks), None);

    // All dragon stacks blocked by other colors: no collection slot.
    let stacks = vec![
        stack_of(StackRole::Dragon, vec![Dragon(Green)]),
        stack_of(StackRole::Dragon, vec![Dragon(White)]),
        stack_of(StackRole::Dragon, vec![Dragon(Green)]),
        stack_of(StackRole::Sorting, vec![Dragon(Red)]),
        stack_of(StackRole::Sorting, vec![Dragon(Red)]),
        stack_of(StackRole::Sorting, vec![Dragon(Red)]),
        stack_of(StackRole::Sorting, vec![Dragon(Red)]),
    ];
    assert_eq!(check_button(Red, &stacks), None);
}

#[test]
fn automove_prefers_first_target_and_source() {
    let stacks = vec![
        stack_of(StackRole::Target, vec![]),
        stack_of(StackRole::Target, vec![]),
        stack_of(StackRole::Sorting, vec![Number(1, Red)]),
        stack_of(StackRole::Sorting, vec![Number(1, Green)]),
    ];
    assert_eq!(get_automove(&stacks), Some((0, 2)));
}

#[test]
fn automove_collects_flower() {
    let stacks = vec![
        stack_of(StackRole::Target, vec![]),
        stack_of(StackRole::Flower, vec![]),
        stack_of(StackRole::Sorting, vec![Number(3, Red), Flower]),
    ];
    assert_eq!(get_automove(&stacks), Some((1, 2)));
}

#[test]
fn automove_gating_holds_back_needed_cards() {
    // The red target already shows rank four, so rank five would be
    // accepted there, but the other targets still sit at rank one: the
    // five of red must stay out for manual play.
    let stacks = vec![
        stack_of(
            StackRole::Target,
            vec![Number(1, Red), Number(2, Red), Number(3, Red), Number(4, Red)],
        ),
        stack_of(StackRole::Target, vec![Number(1, Green)]),
        stack_of(StackRole::Target, vec![Number(1, White)]),
        stack_of(StackRole::Sorting, vec![Number(5, Red)]),
    ];
    assert_eq!(get_automove(&stacks), None);

    // Once every target reaches rank four, the five may move on its own.
    let stacks = vec![
        stack_of(
            StackRole::Target,
            vec![Number(1, Red), Number(2, Red), Number(3, Red), Number(4, Red)],
        ),
        stack_of(
            StackRole::Target,
            vec![Number(1, Green), Number(2, Green), Number(3, Green), Number(4, Green)],
        ),
        stack_of(
            StackRole::Target,
            vec![Number(1, White), Number(2, White), Number(3, White), Number(4, White)],
        ),
        stack_of(StackRole::Sorting, vec![Number(5, Red)]),
    ];
    assert_eq!(get_automove(&stacks), Some((0, 3)));
}
