use sissu::rule::{can_be_stacked, Card, Color};

#[test]
fn test_card_from_str() {
    // Test special cards
    assert_eq!("f".parse::<Card>().unwrap(), Card::Flower);

    // Test short dragon names
    assert_eq!("dr".parse::<Card>().unwrap(), Card::Dragon(Color::Red));
    assert_eq!("dg".parse::<Card>().unwrap(), Card::Dragon(Color::Green));
    assert_eq!("db".parse::<Card>().unwrap(), Card::Dragon(Color::Black));

    // Test number cards (compact format only)
    assert_eq!("r1".parse::<Card>().unwrap(), Card::Number(Color::Red, 1));
    assert_eq!("g5".parse::<Card>().unwrap(), Card::Number(Color::Green, 5));
    assert_eq!("b9".parse::<Card>().unwrap(), Card::Number(Color::Black, 9));

    // Test error cases
    assert!("invalid".parse::<Card>().is_err());
    assert!("flower".parse::<Card>().is_err());
    assert!("red_1".parse::<Card>().is_err());
    assert!("dragon_red".parse::<Card>().is_err());
    assert!("red1".parse::<Card>().is_err()); // Too long
    assert!("r0".parse::<Card>().is_err()); // Invalid number
    assert!("x1".parse::<Card>().is_err()); // Invalid color

    // CollapsedDragon should not be parseable from string
    assert!("collapsed_dragon".parse::<Card>().is_err());
    assert!("cd".parse::<Card>().is_err());
}

#[test]
fn test_color_from_str() {
    assert_eq!("r".parse::<Color>().unwrap(), Color::Red);
    assert_eq!("g".parse::<Color>().unwrap(), Color::Green);
    assert_eq!("b".parse::<Color>().unwrap(), Color::Black);

    // Error cases
    assert!("invalid".parse::<Color>().is_err());

    // Should not accept full names
    assert!("red".parse::<Color>().is_err());
    assert!("green".parse::<Color>().is_err());
    assert!("black".parse::<Color>().is_err());

    // Should not accept uppercase single letters
    assert!("R".parse::<Color>().is_err());
    assert!("G".parse::<Color>().is_err());
    assert!("B".parse::<Color>().is_err());
}

#[test]
fn card_text_ignores_surrounding_white_space() {
    assert_eq!(Card::from_text("  g7\t").unwrap(), Card::Number(Color::Green, 7));
    assert_eq!(Card::from_text("\u{a0}f\n").unwrap(), Card::Flower);
    assert!(Card::from_text("g 7").is_err());
    assert!(Card::from_text("").is_err());
    assert!(Card::from_text("dd").is_err());
}

#[test]
fn color_values_in_order() {
    assert_eq!(Color::values(), vec![Color::Red, Color::Green, Color::Black]);
}

#[test]
fn stacking_needs_other_color_and_next_rank() {
    assert!(can_be_stacked(Card::Number(Color::Red, 3), Card::Number(Color::Green, 4)));
    assert!(can_be_stacked(Card::Number(Color::Black, 8), Card::Number(Color::Red, 9)));
    assert!(!can_be_stacked(Card::Number(Color::Red, 3), Card::Number(Color::Red, 4)));
    assert!(!can_be_stacked(Card::Number(Color::Red, 3), Card::Number(Color::Green, 5)));
    assert!(!can_be_stacked(Card::Number(Color::Red, 4), Card::Number(Color::Green, 3)));
    assert!(!can_be_stacked(Card::Dragon(Color::Red), Card::Number(Color::Green, 4)));
    assert!(!can_be_stacked(Card::Number(Color::Red, 3), Card::Dragon(Color::Green)));
    assert!(!can_be_stacked(Card::Flower, Card::CollapsedDragon));
    assert!(!can_be_stacked(Card::Number(Color::Red, 127), Card::Number(Color::Green, -128)));
}
