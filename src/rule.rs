use vstd::prelude::*;

verus! {

/// Number of trays (tableau columns) on the board.
pub const TRAY_COUNT: usize = 8;

/// Number of free slots on the board.
pub const SLOT_COUNT: usize = 3;

/// Number of dragons of each color in a complete deck.
pub const DRAGON_COUNT: usize = 4;

#[derive(Clone, Copy, PartialEq, Eq, Hash, Debug, Structural)]
pub enum Color {
    Red,
    Green,
    Black,
}

#[derive(Clone, Copy, PartialEq, Eq, Hash, Debug, Structural)]
pub enum Card {
    CollapsedDragon,
    Dragon(Color),
    Flower,
    Number(Color, i8),
}

#[derive(Clone, Copy, PartialEq, Eq, Debug, Structural)]
pub enum Place {
    Tray(usize),
    Slot(usize),
}

#[derive(Clone, Copy, PartialEq, Eq, Debug, Structural)]
pub enum Action {
    Pop { src: Place },
    Move { src: Place, dest: Place, count: usize },
    CollapseDragon(Color),
}

/// The three colors, in the order the solver walks them.
pub open spec fn all_colors() -> Seq<Color> {
    seq![Color::Red, Color::Green, Color::Black]
}

impl Color {
    pub fn values() -> (r: Vec<Color>)
        ensures
            r@ == all_colors(),
    {
        vec![Color::Red, Color::Green, Color::Black]
    }

    pub fn from_text(s: &str) -> (r: Result<Color, String>)
        ensures
            r is Ok <==> color_of_text(s@) is Some,
            r is Ok ==> r->Ok_0 == color_of_text(s@)->0,
    {
        let chars = chars_of(s);
        let res = if chars.len() == 1 {
            color_from_char(chars[0])
        } else {
            None
        };
        match res {
            Some(c) => Ok(c),
            None => Err(String::from_str("Invalid color: ").concat(s)),
        }
    }
}

impl std::str::FromStr for Color {
    type Err = String;

    fn from_str(s: &str) -> Result<Color, String> {
        Color::from_text(s)
    }
}

/// The color that a single letter names.
pub open spec fn color_of_char(c: char) -> Option<Color> {
    if c == 'r' {
        Some(Color::Red)
    } else if c == 'g' {
        Some(Color::Green)
    } else if c == 'b' {
        Some(Color::Black)
    } else {
        None
    }
}

/// A color is written as exactly one of the letters `r`, `g`, `b`.
pub open spec fn color_of_text(s: Seq<char>) -> Option<Color> {
    if s.len() == 1 {
        color_of_char(s[0])
    } else {
        None
    }
}

fn color_from_char(c: char) -> (r: Option<Color>)
    ensures
        r == color_of_char(c),
{
    if c == 'r' {
        Some(Color::Red)
    } else if c == 'g' {
        Some(Color::Green)
    } else if c == 'b' {
        Some(Color::Black)
    } else {
        None
    }
}

/// Unicode White_Space, the set that `char::is_whitespace` tests.
pub open spec fn is_space(c: char) -> bool {
    ('\u{9}' <= c && c <= '\u{d}') || c == ' ' || c == '\u{85}' || c == '\u{a0}'
        || c == '\u{1680}' || ('\u{2000}' <= c && c <= '\u{200a}') || c == '\u{2028}'
        || c == '\u{2029}' || c == '\u{202f}' || c == '\u{205f}' || c == '\u{3000}'
}

pub fn is_space_char(c: char) -> (r: bool)
    ensures
        r == is_space(c),
{
    ('\u{9}' <= c && c <= '\u{d}') || c == ' ' || c == '\u{85}' || c == '\u{a0}'
        || c == '\u{1680}' || ('\u{2000}' <= c && c <= '\u{200a}') || c == '\u{2028}'
        || c == '\u{2029}' || c == '\u{202f}' || c == '\u{205f}' || c == '\u{3000}'
}

/// `s` without its leading white space.
pub open spec fn trim_front(s: Seq<char>) -> Seq<char>
    decreases s.len(),
{
    if s.len() > 0 && is_space(s[0]) {
        trim_front(s.drop_first())
    } else {
        s
    }
}

/// `s` without its trailing white space.
pub open spec fn trim_back(s: Seq<char>) -> Seq<char>
    decreases s.len(),
{
    if s.len() > 0 && is_space(s.last()) {
        trim_back(s.drop_last())
    } else {
        s
    }
}

pub open spec fn trim(s: Seq<char>) -> Seq<char> {
    trim_back(trim_front(s))
}

/// The card that a token names: `f`, `d` and a color letter, or a color
/// letter and a digit from 1 to 9.
pub open spec fn card_of_token(t: Seq<char>) -> Option<Card> {
    if t.len() == 1 && t[0] == 'f' {
        Some(Card::Flower)
    } else if t.len() == 2 && t[0] == 'd' && color_of_char(t[1]) is Some {
        Some(Card::Dragon(color_of_char(t[1])->0))
    } else if t.len() == 2 && color_of_char(t[0]) is Some && '1' <= t[1] && t[1] <= '9' {
        Some(Card::Number(color_of_char(t[0])->0, (t[1] as int - '0' as int) as i8))
    } else {
        None
    }
}

/// The card that a piece of text names, white space around it aside.
pub open spec fn card_of_text(s: Seq<char>) -> Option<Card> {
    card_of_token(trim(s))
}

/// The characters of `s`, in order.
pub fn chars_of(s: &str) -> (r: Vec<char>)
    ensures
        r@ == s@,
{
    let mut v: Vec<char> = Vec::new();
    for c in it: s.chars()
        invariant
            v@ == it.seq().take(it.index() as int),
    {
        v.push(c);
    }
    v
}

/// Trims white space off both ends of `s`.
pub fn trim_chars(s: &Vec<char>) -> (r: Vec<char>)
    ensures
        r@ == trim(s@),
{
    let n = s.len();
    let mut start: usize = 0;
    assert(s@.subrange(0, n as int) =~= s@);
    while start < n && is_space_char(s[start])
        invariant
            start <= n == s@.len(),
            trim_front(s@) == trim_front(s@.subrange(start as int, n as int)),
        decreases n - start,
    {
        assert(s@.subrange(start as int, n as int).drop_first() =~= s@.subrange(
            start as int + 1,
            n as int,
        ));
        start += 1;
    }
    assert(trim_front(s@) == s@.subrange(start as int, n as int));
    let mut end: usize = n;
    while end > start && is_space_char(s[end - 1])
        invariant
            start <= end <= n == s@.len(),
            trim(s@) == trim_back(s@.subrange(start as int, end as int)),
        decreases end,
    {
        assert(s@.subrange(start as int, end as int).drop_last() =~= s@.subrange(
            start as int,
            end as int - 1,
        ));
        end -= 1;
    }
    let mut r: Vec<char> = Vec::new();
    let mut i: usize = start;
    while i < end
        invariant
            start <= i <= end <= n == s@.len(),
            r@ == s@.subrange(start as int, i as int),
        decreases end - i,
    {
        r.push(s[i]);
        assert(r@ =~= s@.subrange(start as int, i as int + 1));
        i += 1;
    }
    r
}

/// Reads the card that a token of characters names.
pub fn card_from_chars(t: &Vec<char>) -> (r: Option<Card>)
    ensures
        r == card_of_text(t@),
{
    let t = trim_chars(t);
    if t.len() == 1 && t[0] == 'f' {
        return Some(Card::Flower);
    }
    if t.len() == 2 {
        let first = t[0];
        let second = t[1];
        if first == 'd' {
            if let Some(c) = color_from_char(second) {
                return Some(Card::Dragon(c));
            }
        }
        if let Some(c) = color_from_char(first) {
            if '1' <= second && second <= '9' {
                let digit = (second as u32 - '0' as u32) as i8;
                return Some(Card::Number(c, digit));
            }
        }
    }
    None
}

impl Card {
    pub fn from_text(s: &str) -> (r: Result<Card, String>)
        ensures
            r is Ok <==> card_of_text(s@) is Some,
            r is Ok ==> r->Ok_0 == card_of_text(s@)->0,
    {
        let chars = chars_of(s);
        match card_from_chars(&chars) {
            Some(c) => Ok(c),
            None => Err(
                String::from_str("Invalid card format: ").concat(s).concat(
                    ". Expected formats: 'f', 'dr/dg/db', or '<color><number>' (e.g., r1, g2, b3)",
                ),
            ),
        }
    }
}

impl std::str::FromStr for Card {
    type Err = String;

    fn from_str(s: &str) -> Result<Card, String> {
        Card::from_text(s)
    }
}

/// `upper` may lie on `lower` in a tray: two numbers of different colors,
/// `lower` one rank higher.
pub open spec fn stacks_on(upper: Card, lower: Card) -> bool {
    match (upper, lower) {
        (Card::Number(c1, n1), Card::Number(c2, n2)) => c1 != c2 && n1 + 1 == n2,
        _ => false,
    }
}

pub fn can_be_stacked(src: Card, dest: Card) -> (r: bool)
    ensures
        r == stacks_on(src, dest),
{
    match (src, dest) {
        (Card::Number(color_src, number_src), Card::Number(color_dest, number_dest)) => {
            color_src != color_dest && number_src as i16 + 1 == number_dest as i16
        },
        _ => false,
    }
}

} // verus!
