use sissu::rule::{Action, Card, Color, Place};
use sissu::state::State;

fn n(c: Color, r: i8) -> Card {
    Card::Number(c, r)
}

fn trays_of(v: Vec<Vec<Card>>) -> [Vec<Card>; 8] {
    let mut t: [Vec<Card>; 8] = Default::default();
    for (i, tray) in v.into_iter().enumerate() {
        t[i] = tray;
    }
    t
}

fn root(v: Vec<Vec<Card>>) -> State {
    State::with_trays_and_slots(&trays_of(v), &[None, None, None])
}

#[test]
fn flower_alone_is_cleared_at_root() {
    let s = root(vec![vec![Card::Flower]]);
    assert_eq!(s.card_count, 0);
    assert_eq!(s.step, 0);
    assert!(s.action.is_none());
    assert!(s.trays.iter().all(|t| t.is_empty()));
}

#[test]
fn ones_and_safe_numbers_leave_at_root() {
    let s = root(vec![vec![n(Color::Red, 1)]]);
    assert_eq!(s.card_count, 0);
    let s = root(vec![vec![n(Color::Black, 5), n(Color::Green, 1)]]);
    assert_eq!(s.card_count, 0);
}

#[test]
fn numbers_still_needed_stay() {
    // g2 stays while g1 is buried; r3 stays since green has a lower card.
    let s = root(vec![vec![n(Color::Black, 7), n(Color::Red, 3), n(Color::Green, 2)], vec![n(Color::Green, 1), Card::Dragon(Color::Red)]]);
    assert_eq!(s.card_count, 5);
    assert_eq!(s.lowest_each_color, [3, 1, 7]);
}

#[test]
fn dragon_collapse_removes_four_dragons() {
    let s = root(vec![
        vec![n(Color::Green, 9), Card::Dragon(Color::Red)],
        vec![Card::Dragon(Color::Red)],
        vec![Card::Dragon(Color::Red)],
        vec![Card::Dragon(Color::Red)],
        vec![n(Color::Green, 8), n(Color::Black, 9)],
    ]);
    assert_eq!(s.card_count, 7);
    let actions = s.valid_actions();
    let collapses: Vec<&Action> = actions.iter().filter(|a| matches!(a, Action::CollapseDragon(_))).collect();
    assert_eq!(collapses.len(), 1);
    assert_eq!(*collapses[0], Action::CollapseDragon(Color::Red));
    let t = s.transit(Action::CollapseDragon(Color::Red));
    assert_eq!(t.card_count, 3);
    assert_eq!(t.slots, [Some(Card::CollapsedDragon), None, None]);
    assert_eq!(t.trays[0], vec![n(Color::Green, 9)]);
    assert!(t.trays[1].is_empty() && t.trays[2].is_empty() && t.trays[3].is_empty());
    assert_eq!(t.step, 1);
    assert_eq!(t.action, Some(Action::CollapseDragon(Color::Red)));
}

#[test]
fn collapse_needs_all_four_and_a_slot() {
    let s = root(vec![
        vec![Card::Dragon(Color::Red)],
        vec![Card::Dragon(Color::Red)],
        vec![Card::Dragon(Color::Red)],
        vec![n(Color::Green, 9), Card::Dragon(Color::Green)],
    ]);
    assert!(!s.valid_actions().iter().any(|a| matches!(a, Action::CollapseDragon(_))));
    let full = State::with_trays_and_slots(
        &trays_of(vec![
            vec![Card::Dragon(Color::Red)],
            vec![Card::Dragon(Color::Red)],
            vec![Card::Dragon(Color::Red)],
            vec![Card::Dragon(Color::Red)],
        ]),
        &[Some(Card::CollapsedDragon), Some(Card::Dragon(Color::Green)), Some(Card::CollapsedDragon)],
    );
    assert!(!full.valid_actions().contains(&Action::CollapseDragon(Color::Red)));
    let in_slot = State::with_trays_and_slots(
        &trays_of(vec![vec![Card::Dragon(Color::Red)], vec![Card::Dragon(Color::Red)], vec![Card::Dragon(Color::Red)]]),
        &[Some(Card::CollapsedDragon), Some(Card::Dragon(Color::Red)), Some(Card::CollapsedDragon)],
    );
    assert!(in_slot.valid_actions().contains(&Action::CollapseDragon(Color::Red)));
    let t = in_slot.transit(Action::CollapseDragon(Color::Red));
    assert_eq!(t.slots, [Some(Card::CollapsedDragon), Some(Card::CollapsedDragon), Some(Card::CollapsedDragon)]);
    assert_eq!(t.card_count, 0);
}

#[test]
fn stack_run_moves_onto_next_rank() {
    let s = root(vec![
        vec![n(Color::Black, 7), n(Color::Red, 3), n(Color::Green, 2)],
        vec![n(Color::Black, 4)],
        vec![n(Color::Green, 1), Card::Dragon(Color::Red)],
    ]);
    let mv = Action::Move { src: Place::Tray(0), dest: Place::Tray(1), count: 2 };
    assert!(s.valid_actions().contains(&mv));
    let t = s.transit(mv);
    assert_eq!(t.trays[0], vec![n(Color::Black, 7)]);
    assert_eq!(t.trays[1], vec![n(Color::Black, 4), n(Color::Red, 3), n(Color::Green, 2)]);
    assert_eq!(t.card_count, s.card_count);
}

#[test]
fn whole_tray_never_moves_to_empty_tray() {
    let s = root(vec![
        vec![n(Color::Red, 3), n(Color::Green, 2)],
        vec![n(Color::Green, 1), Card::Dragon(Color::Red)],
    ]);
    let actions = s.valid_actions();
    for a in &actions {
        if let Action::Move { src: Place::Tray(i), dest: Place::Tray(k), count } = *a {
            if s.trays[k].is_empty() {
                assert!(count < s.trays[i].len());
            }
        }
    }
    assert!(actions.contains(&Action::Move { src: Place::Tray(0), dest: Place::Tray(2), count: 1 }));
    assert!(!actions.contains(&Action::Move { src: Place::Tray(0), dest: Place::Tray(2), count: 2 }));
}

#[test]
fn pop_is_offered_for_lowest_of_its_color() {
    let s = root(vec![vec![n(Color::Red, 2), n(Color::Green, 3)], vec![n(Color::Green, 2)]]);
    assert_eq!(s.card_count, 2);
    assert!(s.valid_actions().contains(&Action::Pop { src: Place::Tray(0) }));
    let t = s.transit(Action::Pop { src: Place::Tray(0) });
    assert_eq!(t.card_count, 0);
}

#[test]
fn fallback_parks_tray_tops_in_empty_slots() {
    let s = State::with_trays_and_slots(
        &trays_of(vec![vec![n(Color::Black, 7), n(Color::Red, 3)], vec![], vec![n(Color::Green, 1), Card::Dragon(Color::Red)]]),
        &[None, Some(Card::CollapsedDragon), None],
    );
    let actions = s.valid_slot_actions();
    assert_eq!(actions.len(), 4);
    assert!(actions.contains(&Action::Move { src: Place::Tray(0), dest: Place::Slot(0), count: 1 }));
    assert!(actions.contains(&Action::Move { src: Place::Tray(2), dest: Place::Slot(2), count: 1 }));
    assert!(!actions.contains(&Action::Move { src: Place::Tray(0), dest: Place::Slot(1), count: 1 }));
}

#[test]
fn slot_card_returns_to_stackable_or_empty_trays() {
    let s = State::with_trays_and_slots(
        &trays_of(vec![vec![n(Color::Black, 4)], vec![n(Color::Green, 1), Card::Dragon(Color::Red)]]),
        &[Some(n(Color::Red, 3)), None, None],
    );
    let actions = s.valid_actions();
    assert!(actions.contains(&Action::Move { src: Place::Slot(0), dest: Place::Tray(0), count: 1 }));
    assert!(!actions.contains(&Action::Move { src: Place::Slot(0), dest: Place::Tray(1), count: 1 }));
    for k in 2..8 {
        assert!(actions.contains(&Action::Move { src: Place::Slot(0), dest: Place::Tray(k), count: 1 }));
    }
}

#[test]
fn priority_counts_cards_steps_and_runs() {
    // A full run on a 9 earns twelve tenths per pair.
    let s = root(vec![vec![n(Color::Black, 9), n(Color::Red, 8), n(Color::Green, 7)], vec![n(Color::Red, 2), Card::Dragon(Color::Green)]]);
    assert_eq!(s.card_count, 5);
    assert_eq!(s.priority, 10 * 5 - 24);
    // A full run on another card earns eleven tenths per pair.
    let s = root(vec![vec![n(Color::Black, 8), n(Color::Red, 7)], vec![n(Color::Red, 2), Card::Dragon(Color::Green)]]);
    assert_eq!(s.priority, 10 * 4 - 11);
    // A broken run earns ten tenths per stacked pair.
    let s = root(vec![vec![Card::Dragon(Color::Black), n(Color::Black, 8), n(Color::Red, 7)], vec![n(Color::Red, 2), Card::Dragon(Color::Green)]]);
    assert_eq!(s.priority, 10 * 5 - 10);
    let t = s.transit(Action::Move { src: Place::Tray(0), dest: Place::Tray(3), count: 2 });
    assert_eq!(t.step, 1);
    assert_eq!(t.priority, 10 * 5 + 1 - 11);
}

#[test]
fn transit_is_repeatable() {
    let s = root(vec![
        vec![n(Color::Black, 7), n(Color::Red, 3), n(Color::Green, 2)],
        vec![n(Color::Black, 4)],
        vec![n(Color::Green, 1), Card::Dragon(Color::Red)],
    ]);
    let mv = Action::Move { src: Place::Tray(0), dest: Place::Tray(1), count: 2 };
    let a = s.transit(mv);
    let b = s.transit(mv);
    assert!(a == b);
    assert_eq!(a.trays, b.trays);
    assert_eq!(a.slots, b.slots);
    assert_eq!(a.card_count, b.card_count);
    assert_eq!(a.priority, b.priority);
    assert_eq!(a.board_hash(), b.board_hash());
}

#[test]
fn equality_and_hash_ignore_history() {
    let s = root(vec![vec![n(Color::Black, 7), n(Color::Red, 3)], vec![n(Color::Green, 1), Card::Dragon(Color::Red)]]);
    let parked = s.transit(Action::Move { src: Place::Tray(0), dest: Place::Slot(0), count: 1 });
    assert_eq!(parked.slots[0], Some(n(Color::Red, 3)));
    assert!(parked != s);
    let back = parked.transit(Action::Move { src: Place::Slot(0), dest: Place::Tray(0), count: 1 });
    assert_eq!(back.step, 2);
    assert!(back == s);
    assert_eq!(back.board_hash(), s.board_hash());
    assert_ne!(back.priority, s.priority);
}

#[test]
fn every_generated_action_applies_cleanly() {
    let s = State::with_trays_and_slots(
        &trays_of(vec![
            vec![n(Color::Black, 7), n(Color::Red, 3), n(Color::Green, 2)],
            vec![n(Color::Black, 4)],
            vec![n(Color::Green, 1), Card::Dragon(Color::Red)],
            vec![Card::Dragon(Color::Red)],
            vec![n(Color::Red, 9), Card::Dragon(Color::Red)],
            vec![],
        ]),
        &[Some(Card::Dragon(Color::Red)), None, Some(n(Color::Black, 6))],
    );
    let mut all = s.valid_actions();
    assert!(all.contains(&Action::CollapseDragon(Color::Red)));
    all.extend(s.valid_slot_actions());
    assert!(all.len() > 10);
    for a in all {
        let t = s.transit(a);
        assert_eq!(t.step, 1);
        assert!(t.card_count <= s.card_count);
        let tray_cards: usize = t.trays.iter().map(|tray| tray.len()).sum();
        let slot_cards = t.slots.iter().filter(|c| matches!(c, Some(card) if *card != Card::CollapsedDragon)).count();
        assert_eq!(t.card_count, tray_cards + slot_cards);
        for tray in &t.trays {
            if let Some(top) = tray.last() {
                assert!(*top != Card::Flower);
                assert!(!matches!(top, Card::Number(_, 1)));
            }
        }
    }
}
