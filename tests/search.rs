use sissu::algo::{Progress, Search};
use sissu::deal::load_trays_and_slots;
use sissu::rule::{Action, Card, Place};
use sissu::state::State;

fn run(search: &mut Search, limit: usize) -> Option<Vec<Action>> {
    for _ in 0..limit {
        match search.step() {
            Progress::Solved(actions) => return Some(actions),
            Progress::Exhausted => return None,
            Progress::Running => {}
        }
    }
    None
}

fn replay(trays: &[Vec<Card>; 8], slots: &[Option<Card>; 3], actions: &[Action]) -> State {
    let mut s = State::with_trays_and_slots(trays, slots);
    for a in actions {
        s = s.transit(*a);
    }
    s
}

#[test]
fn search_solves_a_one_move_deal() {
    let (trays, slots) = load_trays_and_slots("r2 g3\ng2").unwrap();
    let mut search = Search::new(&trays, &slots);
    let actions = run(&mut search, 100).expect("solution");
    assert_eq!(actions, vec![Action::Pop { src: Place::Tray(0) }]);
    assert_eq!(replay(&trays, &slots, &actions).card_count, 0);
}

#[test]
fn search_on_cleared_root_needs_no_move() {
    let (trays, slots) = load_trays_and_slots("f").unwrap();
    let mut search = Search::new(&trays, &slots);
    assert_eq!(search.pending_count(), 1);
    assert_eq!(search.iterations(), 0);
    let actions = run(&mut search, 1).expect("solution");
    assert!(actions.is_empty());
    assert_eq!(search.iterations(), 0);
    assert_eq!(search.pending_count(), 0);
}

#[test]
fn search_reports_exhaustion() {
    // A lone dragon can never leave: no sequence clears the board.
    let (trays, slots) = load_trays_and_slots("dr").unwrap();
    let mut search = Search::new(&trays, &slots);
    assert!(run(&mut search, 100_000).is_none());
    assert!(matches!(search.step(), Progress::Exhausted));
    assert_eq!(search.pending_count(), 0);
}

#[test]
fn search_solves_sample_deal() {
    let input = [
        "b3 dg db db b6",
        "r3 dr r7 b8 dr",
        "dr g9 r9 g1 db",
        "b4 g7 g2 r2 dr",
        "r8 g4 g3 b7",
        "b2 r5 g5 dg b5",
        "g6 g8 dg dg",
        "f r6 db r4 b9",
    ]
    .join("\n");
    let (trays, slots) = load_trays_and_slots(&input).unwrap();
    let mut search = Search::new(&trays, &slots);
    let actions = run(&mut search, 200_000).expect("solution");
    assert!(!actions.is_empty());
    assert_eq!(replay(&trays, &slots, &actions).card_count, 0);
}

#[test]
fn visited_set_turns_away_a_returning_board() {
    let (trays, slots) = load_trays_and_slots("b7 r3\ng1 dr").unwrap();
    let root = State::with_trays_and_slots(&trays, &slots);
    let mut search = Search::new(&trays, &slots);
    assert_eq!(search.generated_count(), 1);
    assert_eq!(search.pending_count(), 1);
    let parked = root.transit(Action::Move { src: Place::Tray(0), dest: Place::Slot(0), count: 1 });
    let back = parked.transit(Action::Move { src: Place::Slot(0), dest: Place::Tray(0), count: 1 });
    assert!(search.visit(parked, 0));
    assert!(!search.visit(back, 1));
    assert_eq!(search.generated_count(), 2);
    assert_eq!(search.pending_count(), 2);
}
