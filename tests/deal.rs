use sissu::deal::{all_trays_empty, load_trays_and_slots, validate_game};
use sissu::rule::{Card, Color};

fn n(c: Color, r: i8) -> Card {
    Card::Number(c, r)
}

fn sample_deal() -> String {
    [
        "b3 dg db db b6",
        "r3 dr r7 b8 dr",
        "dr g9 r9 g1 db",
        "b4 g7 g2 r2 dr",
        "r8 g4 g3 b7",
        "b2 r5 g5 dg b5",
        "g6 g8 dg dg",
        "f r6 db r4 b9",
    ]
    .join("\n")
}

#[test]
fn load_reads_one_tray_per_line() {
    let (trays, slots) = load_trays_and_slots(&sample_deal()).unwrap();
    assert_eq!(
        trays[0],
        vec![
            n(Color::Black, 3),
            Card::Dragon(Color::Green),
            Card::Dragon(Color::Black),
            Card::Dragon(Color::Black),
            n(Color::Black, 6)
        ]
    );
    assert_eq!(trays[4], vec![n(Color::Red, 8), n(Color::Green, 4), n(Color::Green, 3), n(Color::Black, 7)]);
    assert_eq!(trays[7][0], Card::Flower);
    assert_eq!(trays[7].len(), 5);
    assert_eq!(slots, [None, None, None]);
}

#[test]
fn load_accepts_blank_lines_and_short_files() {
    let (trays, _) = load_trays_and_slots("\n\n\n\n\n\n\n\n").unwrap();
    assert!(all_trays_empty(&trays));
    let (trays, _) = load_trays_and_slots("  r3   g2 \r\n\nf").unwrap();
    assert_eq!(trays[0], vec![n(Color::Red, 3), n(Color::Green, 2)]);
    assert!(trays[1].is_empty());
    assert_eq!(trays[2], vec![Card::Flower]);
    assert!(trays[3].is_empty());
    assert!(!all_trays_empty(&trays));
}

#[test]
fn load_rejects_bad_tokens_and_extra_trays() {
    let err = load_trays_and_slots("r3 x9\ng2").unwrap_err();
    assert!(err.contains("Invalid card format: x9"));
    let err = load_trays_and_slots("r3\n\u{3000}b5 zz").unwrap_err();
    assert!(err.contains("zz"));
    assert!(load_trays_and_slots("r0").is_err());
    let err = load_trays_and_slots("\n\n\n\n\n\n\n\nr3").unwrap_err();
    assert!(err.contains("Too many trays"));
    assert!(load_trays_and_slots("\n\n\n\n\n\n\n\n  \n").is_ok());
}

#[test]
fn validate_accepts_sample_deal() {
    let (trays, slots) = load_trays_and_slots(&sample_deal()).unwrap();
    assert!(validate_game(&trays, &slots).is_ok());
}

#[test]
fn validate_rejects_fifth_dragon() {
    let (trays, slots) = load_trays_and_slots("dr dr dr\ndr dr").unwrap();
    assert!(validate_game(&trays, &slots).is_err());
    let (trays, slots) = load_trays_and_slots("dr dr dr\ndr").unwrap();
    assert!(validate_game(&trays, &slots).is_ok());
}

#[test]
fn validate_rejects_duplicate_rank() {
    let (trays, slots) = load_trays_and_slots("g9 g8\ng8").unwrap();
    let err = validate_game(&trays, &slots).unwrap_err();
    assert!(err.contains("Too many"));
}

#[test]
fn validate_rejects_rank_below_missing_one() {
    // 9 is missing while 8 is on the board.
    let (trays, slots) = load_trays_and_slots("b8").unwrap();
    let err = validate_game(&trays, &slots).unwrap_err();
    assert!(err.contains("Missing"));
    // Low ranks already gone are fine.
    let (trays, slots) = load_trays_and_slots("b9 b8 b7").unwrap();
    assert!(validate_game(&trays, &slots).is_ok());
}
