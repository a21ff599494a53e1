//! Deals: reading one from text, and checking that its cards can come from
//! one deck.
use vstd::prelude::*;

use crate::board::{lemma_take_last, slots_equal, Board};
use crate::rule::{
    card_from_chars, card_of_text, is_space, is_space_char, Card, Color, DRAGON_COUNT,
    SLOT_COUNT, TRAY_COUNT,
};
use crate::state::{board_of, trays_view};

verus! {

/// Occurrences of `c` in a tray.
pub open spec fn tray_count(t: Seq<Card>, c: Card) -> nat
    decreases t.len(),
{
    if t.len() == 0 {
        0
    } else {
        tray_count(t.drop_last(), c) + if t.last() == c {
            1nat
        } else {
            0nat
        }
    }
}

pub open spec fn trays_count(ts: Seq<Seq<Card>>, c: Card) -> nat
    decreases ts.len(),
{
    if ts.len() == 0 {
        0
    } else {
        trays_count(ts.drop_last(), c) + tray_count(ts.last(), c)
    }
}

/// Occurrences of `c` on the board, in trays and slots.
pub open spec fn count_of(b: Board, c: Card) -> nat {
    trays_count(b.trays, c) + slots_equal(b.slots, c)
}

/// The cards of one color can come from a deck whose lowest cards went to
/// the foundation: at most four dragons, each rank at most once, and no
/// rank present below a missing one.
pub open spec fn color_valid(b: Board, col: Color) -> bool {
    &&& count_of(b, Card::Dragon(col)) <= DRAGON_COUNT
    &&& forall|r: i8| 1 <= r <= 9 ==> #[trigger] count_of(b, Card::Number(col, r)) <= 1
    &&& forall|lo: i8, hi: i8|
        1 <= lo < hi <= 9 && #[trigger] count_of(b, Card::Number(col, hi)) == 0 ==> #[trigger] count_of(
            b,
            Card::Number(col, lo),
        ) == 0
}

pub open spec fn deal_valid(b: Board) -> bool {
    &&& color_valid(b, Color::Red)
    &&& color_valid(b, Color::Green)
    &&& color_valid(b, Color::Black)
}

/// Occurrences of `c` on the board.
fn count_card(trays: &[Vec<Card>; TRAY_COUNT], slots: &[Option<Card>; SLOT_COUNT], c: Card) -> (r: u128)
    ensures
        r == count_of(board_of(*trays, *slots), c),
{
    let ghost ts = trays_view(*trays);
    let mut sum: u128 = 0;
    for i in 0..TRAY_COUNT
        invariant
            ts == trays_view(*trays),
            sum == trays_count(ts.take(i as int), c),
            sum <= i * 0x1_0000_0000_0000_0000,
    {
        proof {
            lemma_take_last(ts, i as int);
        }
        let t = &trays[i];
        assert(ts[i as int] == t@);
        let n = t.len();
        let mut k: u128 = 0;
        for m in 0..n
            invariant
                n == t@.len(),
                k == tray_count(t@.take(m as int), c),
                k <= m,
        {
            proof {
                lemma_take_last(t@, m as int);
            }
            if t[m] == c {
                k = k + 1;
            }
        }
        assert(t@.take(n as int) =~= t@);
        sum = sum + k;
    }
    assert(ts.take(TRAY_COUNT as int) =~= ts);
    for j in 0..SLOT_COUNT
        invariant
            sum == trays_count(ts, c) + slots_equal(slots@.take(j as int), c),
            sum <= 8 * 0x1_0000_0000_0000_0000 + j,
    {
        proof {
            lemma_take_last(slots@, j as int);
        }
        if let Some(x) = slots[j] {
            if x == c {
                sum = sum + 1;
            }
        }
    }
    assert(slots@.take(SLOT_COUNT as int) =~= slots@);
    sum
}

fn color_name(c: Color) -> &'static str {
    match c {
        Color::Red => "Red",
        Color::Green => "Green",
        Color::Black => "Black",
    }
}

/// Checks that the cards of one color can come from one deck.
fn validate_color(trays: &[Vec<Card>; TRAY_COUNT], slots: &[Option<Card>; SLOT_COUNT], color: Color) -> (r: Result<(), String>)
    ensures
        r is Ok <==> color_valid(board_of(*trays, *slots), color),
{
    let ghost b = board_of(*trays, *slots);
    let dragon_count = count_card(trays, slots, Card::Dragon(color));
    if dragon_count > DRAGON_COUNT as u128 {
        return Err(String::from_str("Too many ").concat(color_name(color)).concat(" dragons: ").concat(
            dragon_count.to_string().as_str(),
        ));
    }
    let mut missing = false;
    let mut number: i8 = 9;
    while number >= 1
        invariant
            0 <= number <= 9,
            b == board_of(*trays, *slots),
            forall|r: i8| number < r <= 9 ==> #[trigger] count_of(b, Card::Number(color, r)) <= 1,
            missing <==> exists|r: i8| number < r <= 9 && #[trigger] count_of(b, Card::Number(color, r)) == 0,
            forall|lo: i8, hi: i8|
                number < lo < hi <= 9 && #[trigger] count_of(b, Card::Number(color, hi)) == 0
                    ==> #[trigger] count_of(b, Card::Number(color, lo)) == 0,
        decreases number,
    {
        let card_count = count_card(trays, slots, Card::Number(color, number));
        if card_count == 1 {
            if missing {
                proof {
                    let hi = choose|r: i8| number < r <= 9 && #[trigger] count_of(b, Card::Number(color, r)) == 0;
                    assert(count_of(b, Card::Number(color, hi)) == 0);
                    assert(count_of(b, Card::Number(color, number)) == 1);
                }
                return Err(String::from_str("Missing ").concat(color_name(color)).concat(" card: ").concat(
                    (number + 1).to_string().as_str(),
                ));
            }
        } else if card_count > 1 {
            return Err(String::from_str("Too many ").concat(color_name(color)).concat(" cards: ").concat(
                number.to_string().as_str(),
            ));
        } else {
            missing = true;
        }
        number = number - 1;
    }
    Ok(())
}

/// Checks that the cards of a deal can come from one deck: for each color,
/// at most four dragons, no rank twice, and no rank present below a
/// missing one.
pub fn validate_game(trays: &[Vec<Card>; TRAY_COUNT], slots: &[Option<Card>; SLOT_COUNT]) -> (r: Result<(), String>)
    ensures
        r is Ok <==> deal_valid(board_of(*trays, *slots)),
{
    let colors = Color::values();
    for k in 0..colors.len()
        invariant
            colors@ == crate::rule::all_colors(),
            k >= 1 ==> color_valid(board_of(*trays, *slots), Color::Red),
            k >= 2 ==> color_valid(board_of(*trays, *slots), Color::Green),
            k >= 3 ==> color_valid(board_of(*trays, *slots), Color::Black),
    {
        let res = validate_color(trays, slots, colors[k]);
        if res.is_err() {
            return res;
        }
    }
    Ok(())
}

/// Whether every tray of a deal is empty.
pub fn all_trays_empty(trays: &[Vec<Card>; TRAY_COUNT]) -> (r: bool)
    ensures
        r == forall|i: int| 0 <= i < TRAY_COUNT ==> #[trigger] trays@[i]@.len() == 0,
{
    for i in 0..TRAY_COUNT
        invariant
            forall|k: int| 0 <= k < i ==> #[trigger] trays@[k]@.len() == 0,
    {
        if trays[i].len() > 0 {
            return false;
        }
    }
    true
}

// ---------------------------------------------------------------------------
// Reading a deal
/// Where a left-to-right reading of the text stands: the lines finished,
/// the tokens of the current line, and the token being read.
pub struct Scan {
    pub lines: Seq<Seq<Seq<char>>>,
    pub line: Seq<Seq<char>>,
    pub cur: Seq<char>,
}

pub open spec fn flush(line: Seq<Seq<char>>, cur: Seq<char>) -> Seq<Seq<char>> {
    if cur.len() > 0 {
        line.push(cur)
    } else {
        line
    }
}

/// Reads the text: a newline ends a line, other white space ends a token.
pub open spec fn scan(s: Seq<char>) -> Scan
    decreases s.len(),
{
    if s.len() == 0 {
        Scan { lines: seq![], line: seq![], cur: seq![] }
    } else {
        let p = scan(s.drop_last());
        let c = s.last();
        if c == '\n' {
            Scan { lines: p.lines.push(flush(p.line, p.cur)), line: seq![], cur: seq![] }
        } else if is_space(c) {
            Scan { lines: p.lines, line: flush(p.line, p.cur), cur: seq![] }
        } else {
            Scan { lines: p.lines, line: p.line, cur: p.cur.push(c) }
        }
    }
}

/// The lines of a text, each as its white-space separated tokens.
pub open spec fn deal_lines(s: Seq<char>) -> Seq<Seq<Seq<char>>> {
    let p = scan(s);
    p.lines.push(flush(p.line, p.cur))
}

/// Every token names a card, and no line after the last tray holds one.
pub open spec fn lines_ok(ls: Seq<Seq<Seq<char>>>) -> bool {
    &&& forall|i: int, j: int|
        0 <= i < ls.len() && 0 <= j < ls[i].len() ==> card_of_text(#[trigger] ls[i][j]) is Some
    &&& forall|i: int| TRAY_COUNT <= i < ls.len() ==> #[trigger] ls[i].len() == 0
}

/// The cards that a line of tokens names.
pub open spec fn cards_of_line(l: Seq<Seq<char>>) -> Seq<Card> {
    Seq::new(l.len(), |j: int| card_of_text(l[j])->0)
}

/// The tray that line `i` of a text describes; empty past the last line.
pub open spec fn tray_of_text(s: Seq<char>, i: int) -> Seq<Card> {
    if i < deal_lines(s).len() {
        cards_of_line(deal_lines(s)[i])
    } else {
        seq![]
    }
}

spec fn scan_ok(sc: Scan) -> bool {
    &&& forall|i: int, j: int|
        0 <= i < sc.lines.len() && 0 <= j < sc.lines[i].len() ==> card_of_text(
            #[trigger] sc.lines[i][j],
        ) is Some
    &&& forall|i: int| TRAY_COUNT <= i < sc.lines.len() ==> #[trigger] sc.lines[i].len() == 0
    &&& forall|j: int| 0 <= j < sc.line.len() ==> card_of_text(#[trigger] sc.line[j]) is Some
    &&& sc.lines.len() >= TRAY_COUNT ==> sc.line.len() == 0
}

spec fn trays_match(trays: [Vec<Card>; TRAY_COUNT], sc: Scan) -> bool {
    &&& forall|i: int| 0 <= i < sc.lines.len() && i < TRAY_COUNT ==> trays@[i]@ == cards_of_line(#[trigger] sc.lines[i])
    &&& sc.lines.len() < TRAY_COUNT ==> trays@[sc.lines.len() as int]@ == cards_of_line(sc.line)
    &&& forall|i: int| sc.lines.len() < i < TRAY_COUNT ==> (#[trigger] trays@[i])@.len() == 0
}

proof fn lemma_scan_ok_flush(sc: Scan)
    ensures
        scan_ok(Scan { lines: sc.lines, line: flush(sc.line, sc.cur), cur: seq![] }) ==> scan_ok(sc),
{
    let mid = Scan { lines: sc.lines, line: flush(sc.line, sc.cur), cur: seq![] };
    if scan_ok(mid) && sc.cur.len() > 0 {
        assert forall|j: int| 0 <= j < sc.line.len() implies card_of_text(#[trigger] sc.line[j]) is Some by {
            assert(mid.line[j] == sc.line[j]);
        }
    }
}

/// Adds the token being read, if any, to the current line.
fn flush_token(
    trays: &mut [Vec<Card>; TRAY_COUNT],
    line_no: usize,
    cur: &Vec<char>,
    ok: &mut bool,
    ghost_scan: Ghost<Scan>,
)
    requires
        ghost_scan@.lines.len() == line_no,
        ghost_scan@.cur == cur@,
        *old(ok) ==> scan_ok(ghost_scan@) && trays_match(*old(trays), ghost_scan@),
    ensures
        ({
            let sc = Scan {
                lines: ghost_scan@.lines,
                line: flush(ghost_scan@.line, ghost_scan@.cur),
                cur: seq![],
            };
            *final(ok) == (*old(ok) && scan_ok(sc)) && (*final(ok) ==> trays_match(*final(trays), sc))
        }),
{
    let ghost sc = ghost_scan@;
    let ghost nsc = Scan { lines: sc.lines, line: flush(sc.line, sc.cur), cur: seq![] };
    if cur.len() == 0 {
        assert(nsc.line == sc.line);
        return;
    }
    let card = card_from_chars(cur);
    match card {
        Some(c) => {
            if line_no < TRAY_COUNT {
                if *ok {
                    trays[line_no].push(c);
                    assert(cards_of_line(nsc.line) =~= cards_of_line(sc.line).push(c));
                }
                assert(nsc.line == sc.line.push(cur@));
                assert(*ok ==> scan_ok(nsc)) by {
                    if *ok {
                        assert forall|j: int| 0 <= j < nsc.line.len() implies card_of_text(#[trigger] nsc.line[j]) is Some by {
                            if j < sc.line.len() {
                                assert(nsc.line[j] == sc.line[j]);
                            }
                        }
                    }
                }
            } else {
                *ok = false;
            }
        },
        None => {
            assert(nsc.line[nsc.line.len() - 1] == cur@);
            *ok = false;
        },
    }
}

/// Reads a deal: one tray per line, bottom card first, cards separated by
/// white space. Fails when a token names no card or a line after the last
/// tray holds one. The slots start empty.
pub fn load_trays_and_slots(input: &str) -> (r: Result<([Vec<Card>; TRAY_COUNT], [Option<Card>; SLOT_COUNT]), String>)
    ensures
        r is Ok <==> lines_ok(deal_lines(input@)),
        r matches Ok((trays, slots)) ==> {
            &&& forall|i: int| 0 <= i < TRAY_COUNT ==> #[trigger] trays@[i]@ == tray_of_text(input@, i)
            &&& forall|j: int| 0 <= j < SLOT_COUNT ==> #[trigger] slots@[j] is None
        },
{
    let chars = crate::rule::chars_of(input);
    let mut trays: [Vec<Card>; TRAY_COUNT] = [
        Vec::new(),
        Vec::new(),
        Vec::new(),
        Vec::new(),
        Vec::new(),
        Vec::new(),
        Vec::new(),
        Vec::new(),
    ];
    let mut line_no: usize = 0;
    let mut cur: Vec<char> = Vec::new();
    let mut ok = true;
    let mut start: usize = 0;
    let mut bad: Option<(usize, usize)> = None;
    assert(chars@.take(0) =~= Seq::<char>::empty());
    assert(cards_of_line(seq![]) =~= Seq::<Card>::empty());
    assert(trays_match(trays, scan(chars@.take(0))));
    for k in 0..chars.len()
        invariant
            chars@ == input@,
            line_no <= k,
            start <= k,
            bad matches Some((a, b)) ==> a <= b <= chars@.len(),
            ({
                let sc = scan(chars@.take(k as int));
                &&& sc.lines.len() == line_no
                &&& sc.cur == cur@
                &&& ok == scan_ok(sc)
                &&& ok ==> trays_match(trays, sc)
            }),
    {
        let ghost sc = scan(chars@.take(k as int));
        let c = chars[k];
        assert(chars@.take(k + 1).drop_last() =~= chars@.take(k as int));
        assert(chars@.take(k + 1).last() == c);
        proof {
            lemma_scan_ok_flush(sc);
        }
        if c == '\n' || is_space_char(c) {
            if bad.is_none() && cur.len() > 0 && card_from_chars(&cur).is_none() {
                bad = Some((start, k));
            }
            flush_token(&mut trays, line_no, &cur, &mut ok, Ghost(sc));
            cur = Vec::new();
            if c == '\n' {
                let ghost nsc = scan(chars@.take(k + 1));
                proof {
                    let mid = Scan { lines: sc.lines, line: flush(sc.line, sc.cur), cur: seq![] };
                    assert(nsc.lines == mid.lines.push(mid.line));
                    if ok {
                        assert forall|i: int, j: int|
                            0 <= i < nsc.lines.len() && 0 <= j < nsc.lines[i].len() implies card_of_text(
                                #[trigger] nsc.lines[i][j],
                            ) is Some by {
                            if i < mid.lines.len() {
                                assert(nsc.lines[i] == mid.lines[i]);
                            }
                        }
                        assert forall|i: int| TRAY_COUNT <= i < nsc.lines.len() implies #[trigger] nsc.lines[i].len() == 0 by {
                            if i < mid.lines.len() {
                                assert(nsc.lines[i] == mid.lines[i]);
                            }
                        }
                        assert(cards_of_line(seq![]) =~= Seq::<Card>::empty());
                        if nsc.lines.len() < TRAY_COUNT {
                            assert(trays@[nsc.lines.len() as int]@ =~= Seq::<Card>::empty());
                        }
                        assert forall|i: int| 0 <= i < nsc.lines.len() && i < TRAY_COUNT implies trays@[i]@
                            == cards_of_line(#[trigger] nsc.lines[i]) by {
                            if i < mid.lines.len() {
                                assert(nsc.lines[i] == mid.lines[i]);
                            }
                        }
                        assert(trays_match(trays, nsc));
                    }
                    if !ok && scan_ok(nsc) {
                        assert(scan_ok(mid)) by {
                            assert forall|i: int, j: int|
                                0 <= i < mid.lines.len() && 0 <= j < mid.lines[i].len() implies card_of_text(
                                    #[trigger] mid.lines[i][j],
                                ) is Some by {
                                assert(nsc.lines[i] == mid.lines[i]);
                            }
                            assert forall|i: int| TRAY_COUNT <= i < mid.lines.len() implies #[trigger] mid.lines[i].len() == 0 by {
                                assert(nsc.lines[i] == mid.lines[i]);
                            }
                            assert forall|j: int| 0 <= j < mid.line.len() implies card_of_text(#[trigger] mid.line[j]) is Some by {
                                assert(nsc.lines[mid.lines.len() as int] == mid.line);
                            }
                            if mid.lines.len() >= TRAY_COUNT {
                                assert(nsc.lines[mid.lines.len() as int] == mid.line);
                            }
                        }
                    }
                }
                line_no = line_no + 1;
            }
        } else {
            if cur.len() == 0 {
                start = k;
            }
            cur.push(c);
        }
    }
    assert(chars@.take(chars@.len() as int) =~= chars@);
    let ghost sc = scan(chars@);
    proof {
        lemma_scan_ok_flush(sc);
    }
    if bad.is_none() && cur.len() > 0 && card_from_chars(&cur).is_none() {
        bad = Some((start, chars.len()));
    }
    flush_token(&mut trays, line_no, &cur, &mut ok, Ghost(sc));
    proof {
        let mid = Scan { lines: sc.lines, line: flush(sc.line, sc.cur), cur: seq![] };
        let ls = deal_lines(input@);
        assert(ls == mid.lines.push(mid.line));
        if ok {
            assert forall|i: int, j: int|
                0 <= i < ls.len() && 0 <= j < ls[i].len() implies card_of_text(#[trigger] ls[i][j]) is Some by {
                if i < mid.lines.len() {
                    assert(ls[i] == mid.lines[i]);
                }
            }
            assert forall|i: int| TRAY_COUNT <= i < ls.len() implies #[trigger] ls[i].len() == 0 by {
                if i < mid.lines.len() {
                    assert(ls[i] == mid.lines[i]);
                }
            }
            assert forall|i: int| 0 <= i < TRAY_COUNT implies #[trigger] trays@[i]@ == tray_of_text(input@, i) by {
                if i < mid.lines.len() {
                    assert(ls[i] == mid.lines[i]);
                } else if i == mid.lines.len() {
                    assert(ls[i] == mid.line);
                }
            }
        }
        if !ok && lines_ok(ls) {
            assert forall|i: int, j: int|
                0 <= i < mid.lines.len() && 0 <= j < mid.lines[i].len() implies card_of_text(
                    #[trigger] mid.lines[i][j],
                ) is Some by {
                assert(ls[i] == mid.lines[i]);
            }
            assert forall|i: int| TRAY_COUNT <= i < mid.lines.len() implies #[trigger] mid.lines[i].len() == 0 by {
                assert(ls[i] == mid.lines[i]);
            }
            assert forall|j: int| 0 <= j < mid.line.len() implies card_of_text(#[trigger] mid.line[j]) is Some by {
                assert(ls[mid.lines.len() as int] == mid.line);
            }
            if mid.lines.len() >= TRAY_COUNT {
                assert(ls[mid.lines.len() as int] == mid.line);
            }
            assert(scan_ok(mid));
        }
    }
    if ok {
        return Ok((trays, [None, None, None]));
    }
    if let Some((a, b)) = bad {
        if let Err(message) = Card::from_text(input.substring_char(a, b)) {
            return Err(message);
        }
    }
    Err(String::from_str("Too many trays: a deal holds at most 8 lines of cards"))
}

} // verus!
