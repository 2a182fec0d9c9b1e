use solitaire::cards::{Color, Stack, StackRole, Suite};
use solitaire::rules::is_valid_move;
use solitaire::table::{shuffled_deck, Button, ButtonState, Entity, Table};

use Color::{Green, Red, White};
use Suite::{Dragon, FaceDown, Flower, Number};

fn stack_of(role: StackRole, cards: Vec<Suite>) -> Stack {
    Stack { cards, role }
}

#[test]
fn entity_keeps_its_id() {
    assert_eq!(Entity::new(7), Entity(7));
    assert_ne!(Entity::new(7), Entity(8));
}

#[test]
fn new_button_is_up() {
    let b = Button::new(Green);
    assert_eq!(b.color, Green);
    assert_eq!(b.state, ButtonState::Up);
    assert!(b.stacks.is_none());
}

#[test]
fn empty_target_takes_only_a_one() {
    // A single red ace dealt onto an otherwise empty board may go onto an
    // empty target stack; a red two may not.
    let table = Table::new();
    let target = table.get_stack(3);
    assert!(is_valid_move(target, Number(1, Red), 1));
    assert!(!is_valid_move(target, Number(2, Red), 1));
}

#[test]
fn deck_holds_every_card_once() {
    let deck = shuffled_deck();
    assert_eq!(deck.len(), 40);
    for &color in &[Red, Green, White] {
        assert_eq!(deck.iter().filter(|&&c| c == Dragon(color)).count(), 4);
        for rank in 1..=9 {
            assert_eq!(
                deck.iter().filter(|&&c| c == Number(rank, color)).count(),
                1
            );
        }
    }
    assert_eq!(deck.iter().filter(|&&c| c == Flower).count(), 1);
    assert_eq!(deck.iter().filter(|&&c| c == FaceDown).count(), 0);
}

#[test]
fn new_game_deals_five_cards_to_each_sorting_stack() {
    let mut table = Table::new();
    table.new_game();
    for i in 0..15 {
        let stack = table.get_stack(i);
        if (6..14).contains(&i) {
            assert_eq!(stack.len(), 5);
        } else {
            assert_eq!(stack.len(), 0);
        }
    }
    let mut all_cards: Vec<Suite> = Vec::new();
    for i in 6..14 {
        all_cards.extend(table.get_stack(i).cards.iter().copied());
    }
    assert_eq!(all_cards.len(), 40);
    for &color in &[Red, Green, White] {
        assert_eq!(all_cards.iter().filter(|&&c| c == Dragon(color)).count(), 4);
        for rank in 1..=9 {
            assert_eq!(
                all_cards.iter().filter(|&&c| c == Number(rank, color)).count(),
                1
            );
        }
    }
    for b in 0..3 {
        assert_eq!(table.get_button(b).state, ButtonState::Up);
    }
}

#[test]
fn update_collects_an_exposed_ace() {
    let mut table = Table::new();
    table.push_stack(6, stack_of(StackRole::Generic, vec![Number(1, Red)]));
    assert_eq!(table.get_stack(6).len(), 1);
    table.update();
    // The ace moves on its own to the first target stack.
    assert_eq!(table.get_stack(6).len(), 0);
    assert_eq!(table.get_stack(3).cards, vec![Number(1, Red)]);
}

#[test]
fn update_chains_automatic_moves() {
    // Once all three aces are home, the two of red follows its ace onto
    // the target in the same pass; the gating rule allows it because every
    // target then shows rank one.
    let mut table = Table::new();
    table.push_stack(
        6,
        stack_of(StackRole::Generic, vec![Number(2, Red), Number(1, Red)]),
    );
    table.push_stack(7, stack_of(StackRole::Generic, vec![Number(1, Green)]));
    table.push_stack(8, stack_of(StackRole::Generic, vec![Number(1, White)]));
    table.update();
    assert_eq!(
        table.get_stack(3).cards,
        vec![Number(1, Red), Number(2, Red)]
    );
    assert_eq!(table.get_stack(4).cards, vec![Number(1, Green)]);
    assert_eq!(table.get_stack(5).cards, vec![Number(1, White)]);
    assert_eq!(table.get_stack(6).len(), 0);
    assert_eq!(table.get_stack(7).len(), 0);
    assert_eq!(table.get_stack(8).len(), 0);
}

#[test]
fn update_activates_and_click_fires_a_button() {
    let mut table = Table::new();
    // Four red dragons on top, plus number cards the pass must not touch.
    table.push_stack(0, stack_of(StackRole::Generic, vec![Dragon(Red)]));
    table.push_stack(6, stack_of(StackRole::Generic, vec![Number(5, Red), Dragon(Red)]));
    table.push_stack(7, stack_of(StackRole::Generic, vec![Dragon(Red)]));
    table.push_stack(8, stack_of(StackRole::Generic, vec![Dragon(Red)]));
    table.update();
    assert_eq!(table.get_button(0).state, ButtonState::Active);
    assert_eq!(table.get_button(1).state, ButtonState::Up);
    assert_eq!(table.get_button(2).state, ButtonState::Up);

    let fired = table.click_button(0);
    assert!(fired);
    assert_eq!(table.get_button(0).state, ButtonState::Down);
    // The collected block sits face down on the first dragon stack.
    assert_eq!(table.get_stack(0).cards, vec![FaceDown; 4]);
    assert_eq!(table.get_stack(6).cards, vec![Number(5, Red)]);
    assert_eq!(table.get_stack(7).len(), 0);
    assert_eq!(table.get_stack(8).len(), 0);

    // A second click does nothing: the button is down.
    let again = table.click_button(0);
    assert!(!again);
}

#[test]
fn click_of_inactive_button_changes_nothing() {
    let mut table = Table::new();
    table.push_stack(6, stack_of(StackRole::Generic, vec![Dragon(Red)]));
    let fired = table.click_button(0);
    assert!(!fired);
    assert_eq!(table.get_stack(6).cards, vec![Dragon(Red)]);
    assert_eq!(table.get_button(0).state, ButtonState::Up);
}

#[test]
fn find_dragon_target_prefers_matching_top() {
    let mut table = Table::new();
    table.push_stack(1, stack_of(StackRole::Generic, vec![Dragon(Red)]));
    assert_eq!(table.find_dragon_target(Red), Some(1));
    // No green dragon on top: the last empty dragon stack serves.
    assert_eq!(table.find_dragon_target(Green), Some(2));
    table.push_stack(0, stack_of(StackRole::Generic, vec![Dragon(White)]));
    table.push_stack(2, stack_of(StackRole::Generic, vec![Dragon(White)]));
    // All dragon stacks blocked by other colors.
    assert_eq!(table.find_dragon_target(Green), None);
}

#[test]
fn win_condition_on_table() {
    let mut table = Table::new();
    for (i, &color) in [Red, Green, White].iter().enumerate() {
        let cards = (1..=9).map(|n| Number(n, color)).collect();
        table.push_stack(3 + i, stack_of(StackRole::Generic, cards));
    }
    assert!(table.check_win_condition());
    table.push_stack(6, stack_of(StackRole::Generic, vec![Flower]));
    assert!(!table.check_win_condition());
}

#[test]
fn export_copies_the_stacks() {
    let mut table = Table::new();
    table.push_stack(6, stack_of(StackRole::Generic, vec![Number(3, Red)]));
    let stacks = table.export();
    assert_eq!(stacks.len(), 15);
    assert_eq!(stacks[6].cards, vec![Number(3, Red)]);
    assert_eq!(stacks[6].role, StackRole::Sorting);
    assert_eq!(stacks[14].role, StackRole::Flower);
}
