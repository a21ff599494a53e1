//! Board snapshots: construction, auto-foundation, transitions and the
//! actions that a search may try from a state.
use vstd::prelude::*;

use crate::board::{
    always_free, applicable, apply, board_hash, canonical, card_code, color_code, card_count, clear_safe,
    collapse_ready, drop_free, drop_safe, drop_top, fallback, free_step, from_slot_primary,
    from_tray_primary, hash_cards, hash_slots, hash_step, hash_trays, lemma_apply_total,
    lemma_card_count_le_total, lemma_first_empty, lemma_normalize_canonical, lemma_pass_shrinks,
    lemma_push_contains, lemma_push_no_duplicates, lemma_take_last, lowest, min, normalize, pass, primary, priority_of,
    rank_in, run_from, safe_with, slot_rank, slots_cards, slots_equal, slots_lowest, slots_used,
    stacked_pairs, successor, taken, tops_equal, total, tray_bonus, tray_lowest, tray_move_ok,
    trays_bonus, trays_len, trays_lowest, unpark_ok, without_taken, Board, HASH_BASE, HASH_MODULUS,
};
use crate::rule::{
    Action, Card, Color, Place, can_be_stacked, stacks_on, DRAGON_COUNT, SLOT_COUNT, TRAY_COUNT,
};

verus! {

/// An immutable board snapshot with what the search derives from it. The
/// link to the state it came from is kept by the search, beside the state
/// (see `algo::Node`).
pub struct State {
    pub trays: [Vec<Card>; TRAY_COUNT],
    pub slots: [Option<Card>; SLOT_COUNT],
    /// The action that produced this state; none for the root.
    pub action: Option<Action>,
    /// Moves from the root.
    pub step: usize,
    /// Cards left to play: tray cards and unsealed slot cards.
    pub card_count: usize,
    /// The search heuristic in tenths; lower is better.
    pub priority: i128,
    /// Lowest rank left of each color (red, green, black), 10 if none.
    pub lowest_each_color: [i8; 3],
}

pub open spec fn trays_view(t: [Vec<Card>; TRAY_COUNT]) -> Seq<Seq<Card>> {
    Seq::new(TRAY_COUNT as nat, |i: int| t@[i]@)
}

pub open spec fn board_of(t: [Vec<Card>; TRAY_COUNT], s: [Option<Card>; SLOT_COUNT]) -> Board {
    Board { trays: trays_view(t), slots: s@ }
}

/// `low` holds the lowest rank left of each color on `b`.
pub open spec fn lowest_matches(low: [i8; 3], b: Board) -> bool {
    &&& low@[0] == lowest(b, Color::Red)
    &&& low@[1] == lowest(b, Color::Green)
    &&& low@[2] == lowest(b, Color::Black)
}

impl State {
    pub open spec fn board(&self) -> Board {
        board_of(self.trays, self.slots)
    }

    /// The derived fields agree with the board, and the board is in normal form.
    pub open spec fn wf(&self) -> bool {
        &&& canonical(self.board())
        &&& total(self.board()) <= usize::MAX
        &&& self.card_count == card_count(self.board())
        &&& self.priority == priority_of(self.board(), self.step as nat)
        &&& lowest_matches(self.lowest_each_color, self.board())
    }
}

fn color_slot(c: Color) -> (r: usize)
    ensures
        r == color_code(c),
{
    match c {
        Color::Red => 0,
        Color::Green => 1,
        Color::Black => 2,
    }
}

pub fn clone_trays(t: &[Vec<Card>; TRAY_COUNT]) -> (r: [Vec<Card>; TRAY_COUNT])
    ensures
        trays_view(r) == trays_view(*t),
{
    let mut r: [Vec<Card>; TRAY_COUNT] = [
        Vec::new(),
        Vec::new(),
        Vec::new(),
        Vec::new(),
        Vec::new(),
        Vec::new(),
        Vec::new(),
        Vec::new(),
    ];
    for i in 0..TRAY_COUNT
        invariant
            forall|j: int| 0 <= j < i ==> r@[j]@ == t@[j]@,
    {
        let v = t[i].clone();
        r[i] = v;
    }
    assert(trays_view(r) =~= trays_view(*t));
    r
}

fn is_free(c: Card) -> (r: bool)
    ensures
        r == always_free(c),
{
    match c {
        Card::Flower => true,
        Card::Number(_, r) => r == 1,
        _ => false,
    }
}

fn is_safe(c: Card, low: &[i8; 3]) -> (r: bool)
    ensures
        r == safe_with(c, low@[0] as int, low@[1] as int, low@[2] as int),
{
    match c {
        Card::Number(col, r) => {
            if r > 2 {
                r <= low[0] && r <= low[1] && r <= low[2]
            } else if r == 2 {
                r == low[color_slot(col)]
            } else {
                false
            }
        },
        _ => false,
    }
}

/// `low` holds exactly the given ranks for red, green and black.
pub open spec fn low_is(low: [i8; 3], red: int, green: int, black: int) -> bool {
    &&& low@[0] == red
    &&& low@[1] == green
    &&& low@[2] == black
}

/// Lowers `low` to the ranks in tray `t`.
fn fold_tray_lowest(t: &Vec<Card>, low: &mut [i8; 3])
    requires
        old(low)@[0] <= 10 && old(low)@[1] <= 10 && old(low)@[2] <= 10,
    ensures
        low_is(
            *final(low),
            min(old(low)@[0] as int, tray_lowest(t@, Color::Red)),
            min(old(low)@[1] as int, tray_lowest(t@, Color::Green)),
            min(old(low)@[2] as int, tray_lowest(t@, Color::Black)),
        ),
{
    let n = t.len();
    for m in 0..n
        invariant
            n == t@.len(),
            low_is(
                *low,
                min(old(low)@[0] as int, tray_lowest(t@.take(m as int), Color::Red)),
                min(old(low)@[1] as int, tray_lowest(t@.take(m as int), Color::Green)),
                min(old(low)@[2] as int, tray_lowest(t@.take(m as int), Color::Black)),
            ),
            tray_lowest(t@.take(m as int), Color::Red) <= 10,
            tray_lowest(t@.take(m as int), Color::Green) <= 10,
            tray_lowest(t@.take(m as int), Color::Black) <= 10,
    {
        proof {
            lemma_take_last(t@, m as int);
            assert(tray_lowest(t@.take(m + 1), Color::Red) == min(tray_lowest(t@.take(m as int), Color::Red), rank_in(t@[m as int], Color::Red)));
            assert(tray_lowest(t@.take(m + 1), Color::Green) == min(tray_lowest(t@.take(m as int), Color::Green), rank_in(t@[m as int], Color::Green)));
            assert(tray_lowest(t@.take(m + 1), Color::Black) == min(tray_lowest(t@.take(m as int), Color::Black), rank_in(t@[m as int], Color::Black)));
        }
        if let Card::Number(col, r) = t[m] {
            let k = color_slot(col);
            if r < low[k] {
                low[k] = r;
            }
        }
    }
    assert(t@.take(n as int) =~= t@);
}

/// The lowest rank left of each color on the board.
fn compute_lowest(trays: &[Vec<Card>; TRAY_COUNT], slots: &[Option<Card>; SLOT_COUNT]) -> (r: [i8; 3])
    ensures
        lowest_matches(r, board_of(*trays, *slots)),
{
    let ghost ts = trays_view(*trays);
    let mut low: [i8; 3] = [10, 10, 10];
    for i in 0..TRAY_COUNT
        invariant
            ts == trays_view(*trays),
            low_is(
                low,
                trays_lowest(ts.take(i as int), Color::Red),
                trays_lowest(ts.take(i as int), Color::Green),
                trays_lowest(ts.take(i as int), Color::Black),
            ),
            low@[0] <= 10 && low@[1] <= 10 && low@[2] <= 10,
            trays_lowest(ts.take(i as int), Color::Red) <= 10,
            trays_lowest(ts.take(i as int), Color::Green) <= 10,
            trays_lowest(ts.take(i as int), Color::Black) <= 10,
    {
        proof {
            lemma_take_last(ts, i as int);
        }
        fold_tray_lowest(&trays[i], &mut low);
    }
    assert(ts.take(TRAY_COUNT as int) =~= ts);
    for j in 0..SLOT_COUNT
        invariant
            low_is(
                low,
                min(trays_lowest(ts, Color::Red), slots_lowest(slots@.take(j as int), Color::Red)),
                min(
                    trays_lowest(ts, Color::Green),
                    slots_lowest(slots@.take(j as int), Color::Green),
                ),
                min(
                    trays_lowest(ts, Color::Black),
                    slots_lowest(slots@.take(j as int), Color::Black),
                ),
            ),
            slots_lowest(slots@.take(j as int), Color::Red) <= 10,
            slots_lowest(slots@.take(j as int), Color::Green) <= 10,
            slots_lowest(slots@.take(j as int), Color::Black) <= 10,
            trays_lowest(ts, Color::Red) <= 10,
            trays_lowest(ts, Color::Green) <= 10,
            trays_lowest(ts, Color::Black) <= 10,
    {
        proof {
            lemma_take_last(slots@, j as int);
            assert(slots_lowest(slots@.take(j + 1), Color::Red) == min(slots_lowest(slots@.take(j as int), Color::Red), slot_rank(slots@[j as int], Color::Red)));
            assert(slots_lowest(slots@.take(j + 1), Color::Green) == min(slots_lowest(slots@.take(j as int), Color::Green), slot_rank(slots@[j as int], Color::Green)));
            assert(slots_lowest(slots@.take(j + 1), Color::Black) == min(slots_lowest(slots@.take(j as int), Color::Black), slot_rank(slots@[j as int], Color::Black)));
        }
        if let Some(Card::Number(col, r)) = slots[j] {
            let k = color_slot(col);
            if r < low[k] {
                low[k] = r;
            }
        }
    }
    assert(slots@.take(SLOT_COUNT as int) =~= slots@);
    low
}

/// Every card on the board, sealed slots included.
fn board_total(trays: &[Vec<Card>; TRAY_COUNT], slots: &[Option<Card>; SLOT_COUNT]) -> (r: u128)
    ensures
        r == total(board_of(*trays, *slots)),
{
    let ghost ts = trays_view(*trays);
    let mut sum: u128 = 0;
    for i in 0..TRAY_COUNT
        invariant
            ts == trays_view(*trays),
            sum == trays_len(ts.take(i as int)),
            sum <= i * 0x1_0000_0000_0000_0000,
    {
        proof {
            lemma_take_last(ts, i as int);
        }
        sum = sum + trays[i].len() as u128;
    }
    assert(ts.take(TRAY_COUNT as int) =~= ts);
    for j in 0..SLOT_COUNT
        invariant
            sum == trays_len(ts) + slots_used(slots@.take(j as int)),
            sum <= 8 * 0x1_0000_0000_0000_0000 + j,
    {
        proof {
            lemma_take_last(slots@, j as int);
        }
        if slots[j].is_some() {
            sum = sum + 1;
        }
    }
    assert(slots@.take(SLOT_COUNT as int) =~= slots@);
    sum
}

/// One pass of auto-foundation. When the pass leaves the board as it was,
/// the lowest ranks it returns are those of the board.
fn foundation_pass(trays: &mut [Vec<Card>; TRAY_COUNT], slots: &mut [Option<Card>; SLOT_COUNT]) -> (low: [i8; 3])
    ensures
        board_of(*final(trays), *final(slots)) == pass(board_of(*old(trays), *old(slots))),
        pass(board_of(*old(trays), *old(slots))) == board_of(*old(trays), *old(slots))
            ==> lowest_matches(low, board_of(*old(trays), *old(slots))),
{
    let ghost b = board_of(*trays, *slots);
    for i in 0..TRAY_COUNT
        invariant
            b == board_of(*old(trays), *old(slots)),
            *slots == *old(slots),
            forall|k: int| 0 <= k < i ==> trays@[k]@ == drop_free(b.trays[k]),
            forall|k: int| i <= k < TRAY_COUNT ==> trays@[k]@ == b.trays[k],
    {
        let n = trays[i].len();
        if n > 0 && is_free(trays[i][n - 1]) {
            trays[i].pop();
        }
    }
    let ghost b1 = board_of(*trays, *slots);
    assert(b1 == free_step(b)) by {
        assert(b1.trays =~= free_step(b).trays);
    }
    let low = compute_lowest(trays, slots);
    for i in 0..TRAY_COUNT
        invariant
            b1 == free_step(b),
            lowest_matches(low, b1),
            slots@ == b1.slots,
            forall|k: int| 0 <= k < i ==> trays@[k]@ == drop_safe(b1.trays[k], b1),
            forall|k: int| i <= k < TRAY_COUNT ==> trays@[k]@ == b1.trays[k],
    {
        let n = trays[i].len();
        if n > 0 && is_safe(trays[i][n - 1], &low) {
            trays[i].pop();
        }
    }
    let ghost t2 = trays_view(*trays);
    for j in 0..SLOT_COUNT
        invariant
            b1 == free_step(b),
            lowest_matches(low, b1),
            t2 == trays_view(*trays),
            forall|k: int| 0 <= k < j ==> slots@[k] == clear_safe(b1.slots[k], b1),
            forall|k: int| j <= k < SLOT_COUNT ==> slots@[k] == b1.slots[k],
    {
        if let Some(c) = slots[j] {
            if is_safe(c, &low) {
                slots[j] = None;
            }
        }
    }
    let ghost p = board_of(*trays, *slots);
    assert(p.trays =~= pass(b).trays);
    assert(p.slots =~= pass(b).slots);
    proof {
        if pass(b) == b {
            assert forall|k: int| 0 <= k < TRAY_COUNT implies b1.trays[k] == b.trays[k] by {
                assert(p.trays[k] == b.trays[k]);
            }
            assert(b1.trays =~= b.trays);
        }
    }
    low
}

/// Runs auto-foundation to its fixpoint; returns the lowest rank left of
/// each color on the result.
fn auto_remove_cards(trays: &mut [Vec<Card>; TRAY_COUNT], slots: &mut [Option<Card>; SLOT_COUNT]) -> (low: [i8; 3])
    ensures
        board_of(*final(trays), *final(slots)) == normalize(board_of(*old(trays), *old(slots))),
        lowest_matches(low, board_of(*final(trays), *final(slots))),
        total(board_of(*final(trays), *final(slots))) <= total(board_of(*old(trays), *old(slots))),
{
    loop
        invariant
            normalize(board_of(*trays, *slots)) == normalize(board_of(*old(trays), *old(slots))),
            total(board_of(*trays, *slots)) <= total(board_of(*old(trays), *old(slots))),
        decreases total(board_of(*trays, *slots)),
    {
        let ghost before = board_of(*trays, *slots);
        proof {
            lemma_pass_shrinks(before);
        }
        let count_before = board_total(trays, slots);
        let low = foundation_pass(trays, slots);
        let count_after = board_total(trays, slots);
        if count_before == count_after {
            assert(board_of(*trays, *slots) == before);
            return low;
        }
    }
}

/// The cards left to play on a board whose size fits in `usize`.
fn calc_card_count(trays: &[Vec<Card>; TRAY_COUNT], slots: &[Option<Card>; SLOT_COUNT]) -> (r: usize)
    requires
        total(board_of(*trays, *slots)) <= usize::MAX,
    ensures
        r == card_count(board_of(*trays, *slots)),
{
    let ghost ts = trays_view(*trays);
    let mut sum: u128 = 0;
    for i in 0..TRAY_COUNT
        invariant
            ts == trays_view(*trays),
            sum == trays_len(ts.take(i as int)),
            sum <= i * 0x1_0000_0000_0000_0000,
    {
        proof {
            lemma_take_last(ts, i as int);
        }
        sum = sum + trays[i].len() as u128;
    }
    assert(ts.take(TRAY_COUNT as int) =~= ts);
    for j in 0..SLOT_COUNT
        invariant
            sum == trays_len(ts) + slots_cards(slots@.take(j as int)),
            sum <= 8 * 0x1_0000_0000_0000_0000 + j,
    {
        proof {
            lemma_take_last(slots@, j as int);
        }
        match slots[j] {
            Some(Card::CollapsedDragon) => {},
            Some(_) => {
                sum = sum + 1;
            },
            None => {},
        }
    }
    assert(slots@.take(SLOT_COUNT as int) =~= slots@);
    proof {
        lemma_card_count_le_total(board_of(*trays, *slots));
    }
    sum as usize
}

/// A tray's stacking bonus in tenths.
fn calc_tray_bonus(t: &Vec<Card>) -> (r: u128)
    ensures
        r == tray_bonus(t@),
        r <= 12 * t@.len(),
{
    let n = t.len();
    if n == 0 {
        return 0;
    }
    let mut pairs: u128 = 0;
    for m in 1..n
        invariant
            n == t@.len(),
            pairs == stacked_pairs(t@.take(m as int)),
            pairs <= m,
    {
        proof {
            lemma_take_last(t@, m as int);
            assert(t@.take(m + 1)[m - 1] == t@[m - 1]);
        }
        if can_be_stacked(t[m], t[m - 1]) {
            pairs = pairs + 1;
        }
    }
    assert(t@.take(n as int) =~= t@);
    if pairs == n as u128 - 1 {
        if let Card::Number(_, 9) = t[0] {
            12 * pairs
        } else {
            11 * pairs
        }
    } else {
        10 * pairs
    }
}

/// The heuristic of a board reached in `step` moves.
fn calc_priority(trays: &[Vec<Card>; TRAY_COUNT], card_count: usize, step: usize) -> (r: i128)
    ensures
        r == 10 * card_count + step - trays_bonus(trays_view(*trays)),
{
    let ghost ts = trays_view(*trays);
    let mut bonus: u128 = 0;
    for i in 0..TRAY_COUNT
        invariant
            ts == trays_view(*trays),
            bonus == trays_bonus(ts.take(i as int)),
            bonus <= i * 12 * 0x1_0000_0000_0000_0000,
    {
        proof {
            lemma_take_last(ts, i as int);
        }
        let n = trays[i].len();
        let b = calc_tray_bonus(&trays[i]);
        assert(b <= 12 * 0x1_0000_0000_0000_0000) by {
            assert(trays@[i as int]@.len() == n);
        }
        bonus = bonus + b;
    }
    assert(ts.take(TRAY_COUNT as int) =~= ts);
    10 * card_count as i128 + step as i128 - bonus as i128
}

/// The board holds at most `usize::MAX` cards, so that counts of them fit.
pub fn board_fits(trays: &[Vec<Card>; TRAY_COUNT], slots: &[Option<Card>; SLOT_COUNT]) -> (r: bool)
    ensures
        r == (total(board_of(*trays, *slots)) <= usize::MAX),
{
    board_total(trays, slots) <= usize::MAX as u128
}

/// Applies an action to a board, without auto-foundation.
fn apply_action(trays: &mut [Vec<Card>; TRAY_COUNT], slots: &mut [Option<Card>; SLOT_COUNT], action: Action)
    requires
        applicable(board_of(*old(trays), *old(slots)), action),
    ensures
        board_of(*final(trays), *final(slots)) == apply(board_of(*old(trays), *old(slots)), action),
{
    let ghost b = board_of(*trays, *slots);
    match action {
        Action::Pop { src } => match src {
            Place::Tray(i) => {
                trays[i].pop();
                assert(board_of(*trays, *slots).trays =~= apply(b, action).trays);
            },
            Place::Slot(_) => {},
        },
        Action::Move { src, dest, count } => {
            let mut cards: Vec<Card> = match src {
                Place::Tray(i) => {
                    let n = trays[i].len();
                    trays[i].split_off(n - count)
                },
                Place::Slot(j) => {
                    let c = slots[j].unwrap();
                    slots[j] = None;
                    vec![c]
                },
            };
            let ghost w = board_of(*trays, *slots);
            assert(w.trays =~= without_taken(b, src, count as nat).trays);
            assert(w.slots =~= without_taken(b, src, count as nat).slots);
            assert(cards@ =~= taken(b, src, count as nat));
            match dest {
                Place::Tray(k) => {
                    trays[k].append(&mut cards);
                },
                Place::Slot(k) => {
                    slots[k] = Some(cards[0]);
                },
            }
            assert(board_of(*trays, *slots).trays =~= apply(b, action).trays);
            assert(board_of(*trays, *slots).slots =~= apply(b, action).slots);
        },
        Action::CollapseDragon(col) => {
            let d = Card::Dragon(col);
            for i in 0..TRAY_COUNT
                invariant
                    *slots == *old(slots),
                    b == board_of(*old(trays), *old(slots)),
                    forall|k: int| 0 <= k < i ==> trays@[k]@ == drop_top(b.trays[k], d),
                    forall|k: int| i <= k < TRAY_COUNT ==> trays@[k]@ == b.trays[k],
            {
                let n = trays[i].len();
                if n > 0 && trays[i][n - 1] == d {
                    trays[i].pop();
                }
            }
            for j in 0..SLOT_COUNT
                invariant
                    b == board_of(*old(trays), *old(slots)),
                    forall|k: int| 0 <= k < TRAY_COUNT ==> trays@[k]@ == drop_top(b.trays[k], d),
                    forall|k: int|
                        0 <= k < j ==> slots@[k] == (if b.slots[k] == Some(d) {
                            None
                        } else {
                            b.slots[k]
                        }),
                    forall|k: int| j <= k < SLOT_COUNT ==> slots@[k] == b.slots[k],
            {
                if let Some(c) = slots[j] {
                    if c == d {
                        slots[j] = None;
                    }
                }
            }
            let ghost cleared_slots = slots@;
            assert(cleared_slots =~= b.slots.map_values(
                |s: Option<Card>|
                    if s == Some(d) {
                        None
                    } else {
                        s
                    },
            ));
            assert(trays_view(*trays) =~= b.trays.map_values(|t: Seq<Card>| drop_top(t, d)));
            let ghost cleared_trays = trays_view(*trays);
            let mut j: usize = 0;
            while j < SLOT_COUNT
                invariant
                    j <= SLOT_COUNT,
                    b == board_of(*old(trays), *old(slots)),
                    action == Action::CollapseDragon(col),
                    d == Card::Dragon(col),
                    cleared_trays == trays_view(*trays),
                    cleared_trays == b.trays.map_values(|t: Seq<Card>| drop_top(t, d)),
                    cleared_slots == b.slots.map_values(
                        |s: Option<Card>|
                            if s == Some(d) {
                                None
                            } else {
                                s
                            },
                    ),
                    slots@ == cleared_slots,
                    forall|k: int| 0 <= k < j ==> cleared_slots[k] is Some,
                decreases SLOT_COUNT - j,
            {
                if slots[j].is_none() {
                    proof {
                        lemma_first_empty(cleared_slots, j as int);
                    }
                    slots[j] = Some(Card::CollapsedDragon);
                    assert(board_of(*trays, *slots).trays =~= apply(b, action).trays);
                    assert(board_of(*trays, *slots).slots =~= apply(b, action).slots);
                    return;
                }
                j += 1;
            }
            proof {
                lemma_first_empty(cleared_slots, j as int);
            }
            assert(board_of(*trays, *slots).trays =~= apply(b, action).trays);
            assert(board_of(*trays, *slots).slots =~= apply(b, action).slots);
        },
    }
}

impl State {
    /// The root state of a deal: the given trays and slots after
    /// auto-foundation, with no action and step 0.
    pub fn with_trays_and_slots(trays: &[Vec<Card>; TRAY_COUNT], slots: &[Option<Card>; SLOT_COUNT]) -> (r: State)
        requires
            total(board_of(*trays, *slots)) <= usize::MAX,
        ensures
            r.wf(),
            r.board() == normalize(board_of(*trays, *slots)),
            r.step == 0,
            r.action is None,
    {
        let mut t = clone_trays(trays);
        let mut s = *slots;
        let low = auto_remove_cards(&mut t, &mut s);
        proof {
            lemma_normalize_canonical(board_of(*trays, *slots));
        }
        let card_count = calc_card_count(&t, &s);
        let priority = calc_priority(&t, card_count, 0);
        State {
            trays: t,
            slots: s,
            action: None,
            step: 0,
            card_count,
            priority,
            lowest_each_color: low,
        }
    }

    /// The state that `action` leads to from this one: the action, then
    /// auto-foundation, one step further from the root.
    pub fn transit(&self, action: Action) -> (r: State)
        requires
            self.wf(),
            applicable(self.board(), action),
            self.step < usize::MAX,
        ensures
            r.wf(),
            r.board() == successor(self.board(), action),
            r.step == self.step + 1,
            r.action == Some(action),
    {
        let mut t = clone_trays(&self.trays);
        let mut s = self.slots;
        apply_action(&mut t, &mut s, action);
        proof {
            lemma_apply_total(self.board(), action);
        }
        let low = auto_remove_cards(&mut t, &mut s);
        proof {
            lemma_normalize_canonical(apply(self.board(), action));
        }
        let card_count = calc_card_count(&t, &s);
        let step = self.step + 1;
        let priority = calc_priority(&t, card_count, step);
        State {
            trays: t,
            slots: s,
            action: Some(action),
            step,
            card_count,
            priority,
            lowest_each_color: low,
        }
    }
}

/// The tray an action takes from, or -1.
pub open spec fn src_tray(a: Action) -> int {
    match a {
        Action::Pop { src: Place::Tray(i) } => i as int,
        Action::Move { src: Place::Tray(i), .. } => i as int,
        _ => -1,
    }
}

/// The slot an action takes from, or -1.
pub open spec fn src_slot(a: Action) -> int {
    match a {
        Action::Move { src: Place::Slot(j), .. } => j as int,
        _ => -1,
    }
}

/// The tray or slot index an action puts cards on, or -1.
pub open spec fn dest_index(a: Action) -> int {
    match a {
        Action::Move { dest: Place::Tray(k), .. } => k as int,
        Action::Move { dest: Place::Slot(k), .. } => k as int,
        _ => -1,
    }
}

/// The depth in its source tray of the deepest card that a move takes.
pub open spec fn move_depth(b: Board, a: Action) -> int {
    match a {
        Action::Move { src: Place::Tray(i), count, .. } => b.trays[i as int].len() - count,
        _ => -1,
    }
}

spec fn tray_part(b: Board, i: int, a: Action, depth: int, k: int) -> bool {
    &&& src_tray(a) == i
    &&& from_tray_primary(b, a)
    &&& (a is Pop || move_depth(b, a) > depth || (move_depth(b, a) == depth && dest_index(a) < k))
}

spec fn slot_part(b: Board, a: Action, j: int, k: int) -> bool {
    &&& from_slot_primary(b, a)
    &&& (src_slot(a) < j || (src_slot(a) == j && dest_index(a) < k))
}

impl State {
    /// Appends the primary actions that take from tray `i`.
    fn push_tray_actions(&self, i: usize, out: &mut Vec<Action>)
        requires
            self.wf(),
            i < TRAY_COUNT,
            old(out)@.no_duplicates(),
            forall|a: Action| #[trigger] old(out)@.contains(a) ==> src_tray(a) < i,
        ensures
            final(out)@.no_duplicates(),
            forall|a: Action|
                #[trigger] final(out)@.contains(a) <==> (old(out)@.contains(a) || (src_tray(a)
                    == i && from_tray_primary(self.board(), a))),
    {
        let ghost b = self.board();
        let t = &self.trays[i];
        let n = t.len();
        assert(b.trays[i as int] == t@);
        if n == 0 {
            return;
        }
        if let Card::Number(col, r) = t[n - 1] {
            if self.lowest_each_color[color_slot(col)] == r {
                let ghost before = out@;
                proof {
                    lemma_push_no_duplicates(out@, Action::Pop { src: Place::Tray(i) });
                }
                out.push(Action::Pop { src: Place::Tray(i) });
                proof {
                    assert forall|a: Action| #[trigger] out@.contains(a) == (before.contains(a)
                        || a == Action::Pop { src: Place::Tray(i) }) by {
                        lemma_push_contains(before, Action::Pop { src: Place::Tray(i) }, a);
                    }
                }
            }
        }
        let mut j: usize = n - 1;
        loop
            invariant
                out@.no_duplicates(),
                forall|a: Action| #[trigger] old(out)@.contains(a) ==> src_tray(a) < i,
                b == self.board(),
                b.trays[i as int] == t@,
                n == t@.len(),
                i < TRAY_COUNT,
                j < n,
                run_from(t@, j as int),
                forall|a: Action|
                    #[trigger] out@.contains(a) <==> (old(out)@.contains(a) || tray_part(
                        b,
                        i as int,
                        a,
                        j as int,
                        0,
                    )),
            decreases j,
        {
            let card = t[j];
            for k in 0..TRAY_COUNT
                invariant
                    out@.no_duplicates(),
                    forall|a: Action| #[trigger] old(out)@.contains(a) ==> src_tray(a) < i,
                    b == self.board(),
                    b.trays[i as int] == t@,
                    n == t@.len(),
                    i < TRAY_COUNT,
                    j < n,
                    card == t@[j as int],
                    run_from(t@, j as int),
                    forall|a: Action|
                        #[trigger] out@.contains(a) <==> (old(out)@.contains(a) || tray_part(
                            b,
                            i as int,
                            a,
                            j as int,
                            k as int,
                        )),
            {
                if k != i {
                    let o = &self.trays[k];
                    let m = o.len();
                    assert(b.trays[k as int] == o@);
                    let emit = if m > 0 {
                        can_be_stacked(card, o[m - 1])
                    } else {
                        j != 0
                    };
                    let mv = Action::Move { src: Place::Tray(i), dest: Place::Tray(k), count: n - j };
                    let ghost before = out@;
                    if emit {
                        proof {
                            assert(!old(out)@.contains(mv));
                            assert(!tray_part(b, i as int, mv, j as int, k as int));
                            lemma_push_no_duplicates(out@, mv);
                        }
                        out.push(mv);
                    }
                    proof {
                        assert(emit == tray_move_ok(b, i as int, k as int, j as int));
                        assert forall|a: Action| #[trigger]
                            out@.contains(a) <==> (old(out)@.contains(a) || tray_part(
                                b,
                                i as int,
                                a,
                                j as int,
                                k + 1,
                            )) by {
                            if emit {
                                lemma_push_contains(before, mv, a);
                            }
                            if tray_part(b, i as int, a, j as int, k + 1) && !tray_part(b, i as int, a, j as int, k as int) {
                                assert(a == mv);
                            }
                        }
                    }
                } else {
                    proof {
                        assert forall|a: Action| #[trigger]
                            out@.contains(a) <==> (old(out)@.contains(a) || tray_part(
                                b,
                                i as int,
                                a,
                                j as int,
                                k + 1,
                            )) by {
                            if tray_part(b, i as int, a, j as int, k + 1) && !tray_part(b, i as int, a, j as int, k as int) {
                                assert(dest_index(a) == i);
                            }
                        }
                    }
                }
            }
            if j == 0 || !can_be_stacked(card, t[j - 1]) {
                proof {
                    assert forall|a: Action| #[trigger]
                        out@.contains(a) <==> (old(out)@.contains(a) || (src_tray(a) == i
                            && from_tray_primary(b, a))) by {
                        if src_tray(a) == i && from_tray_primary(b, a) && !(a is Pop) && move_depth(b, a) < j {
                            assert(!run_from(t@, move_depth(b, a))) by {
                                assert(stacks_on(t@[j as int], t@[j - 1]) == false);
                            }
                        }
                    }
                }
                return;
            }
            proof {
                assert(run_from(t@, j - 1)) by {
                    assert forall|m: int| j - 1 < m < t@.len() implies stacks_on(#[trigger] t@[m], t@[m - 1]) by {
                        if m > j {
                        }
                    }
                }
                assert forall|a: Action| #[trigger]
                    out@.contains(a) <==> (old(out)@.contains(a) || tray_part(
                        b,
                        i as int,
                        a,
                        j - 1,
                        0,
                    )) by {
                    if tray_part(b, i as int, a, j as int, TRAY_COUNT as int) {
                        assert(tray_part(b, i as int, a, j - 1, 0));
                    }
                    if tray_part(b, i as int, a, j - 1, 0) && !(a is Pop) && move_depth(b, a) == j {
                        assert(0 <= dest_index(a) < TRAY_COUNT);
                    }
                }
            }
            j = j - 1;
        }
    }
}

fn color_at(k: usize) -> (r: Color)
    requires
        k < 3,
    ensures
        color_code(r) == k,
{
    if k == 0 {
        Color::Red
    } else if k == 1 {
        Color::Green
    } else {
        Color::Black
    }
}

impl State {
    /// All dragons of `col` are exposed and a slot can take them.
    fn can_collapse(&self, col: Color) -> (r: bool)
        ensures
            r == collapse_ready(self.board(), col),
    {
        let ghost b = self.board();
        let d = Card::Dragon(col);
        let mut exposed: usize = 0;
        for i in 0..TRAY_COUNT
            invariant
                b == self.board(),
                exposed == tops_equal(b.trays.take(i as int), d),
                exposed <= i,
        {
            proof {
                lemma_take_last(b.trays, i as int);
            }
            let n = self.trays[i].len();
            assert(b.trays[i as int] == self.trays@[i as int]@);
            if n > 0 && self.trays[i][n - 1] == d {
                exposed = exposed + 1;
            }
        }
        assert(b.trays.take(TRAY_COUNT as int) =~= b.trays);
        let mut in_slots: usize = 0;
        let mut has_empty = false;
        for j in 0..SLOT_COUNT
            invariant
                b == self.board(),
                exposed == tops_equal(b.trays, d),
                exposed <= TRAY_COUNT,
                in_slots == slots_equal(b.slots.take(j as int), d),
                in_slots <= j,
                has_empty == exists|m: int| 0 <= m < j && b.slots[m] is None,
        {
            proof {
                lemma_take_last(b.slots, j as int);
            }
            match self.slots[j] {
                None => {
                    has_empty = true;
                },
                Some(c) => {
                    if c == d {
                        in_slots = in_slots + 1;
                    }
                },
            }
        }
        assert(b.slots.take(SLOT_COUNT as int) =~= b.slots);
        exposed + in_slots == DRAGON_COUNT && (has_empty || in_slots > 0)
    }

    /// The primary actions from this state: pops of numbers with no lower
    /// card of their color left, run moves between trays, moves from a slot
    /// back to a tray, and dragon collapses.
    pub fn valid_actions(&self) -> (r: Vec<Action>)
        requires
            self.wf(),
        ensures
            forall|a: Action| #[trigger] r@.contains(a) <==> primary(self.board(), a),
            r@.no_duplicates(),
    {
        let ghost b = self.board();
        let mut out: Vec<Action> = Vec::new();
        for i in 0..TRAY_COUNT
            invariant
                out@.no_duplicates(),
                self.wf(),
                b == self.board(),
                forall|a: Action|
                    #[trigger] out@.contains(a) <==> (from_tray_primary(b, a) && src_tray(a) < i),
        {
            self.push_tray_actions(i, &mut out);
        }
        for j in 0..SLOT_COUNT
            invariant
                out@.no_duplicates(),
                b == self.board(),
                forall|a: Action|
                    #[trigger] out@.contains(a) <==> (from_tray_primary(b, a) || slot_part(
                        b,
                        a,
                        j as int,
                        0,
                    )),
        {
            let slot = self.slots[j];
            for k in 0..TRAY_COUNT
                invariant
                    out@.no_duplicates(),
                    b == self.board(),
                    slot == b.slots[j as int],
                    j < SLOT_COUNT,
                    forall|a: Action|
                        #[trigger] out@.contains(a) <==> (from_tray_primary(b, a) || slot_part(
                            b,
                            a,
                            j as int,
                            k as int,
                        )),
            {
                let o = &self.trays[k];
                let m = o.len();
                assert(b.trays[k as int] == o@);
                let emit = match slot {
                    Some(c) => c != Card::CollapsedDragon && (m == 0 || can_be_stacked(c, o[m - 1])),
                    None => false,
                };
                let mv = Action::Move { src: Place::Slot(j), dest: Place::Tray(k), count: 1 };
                let ghost before = out@;
                if emit {
                    proof {
                        lemma_push_no_duplicates(out@, mv);
                    }
                    out.push(mv);
                }
                proof {
                    assert(emit == unpark_ok(b, j as int, k as int));
                    assert forall|a: Action| #[trigger]
                        out@.contains(a) <==> (from_tray_primary(b, a) || slot_part(
                            b,
                            a,
                            j as int,
                            k + 1,
                        )) by {
                        if emit {
                            lemma_push_contains(before, mv, a);
                        }
                        if slot_part(b, a, j as int, k + 1) && !slot_part(b, a, j as int, k as int) {
                            assert(a == mv);
                        }
                    }
                }
            }
            proof {
                assert forall|a: Action| #[trigger]
                    out@.contains(a) <==> (from_tray_primary(b, a) || slot_part(b, a, j + 1, 0))
                    by {
                    if slot_part(b, a, j + 1, 0) && !slot_part(b, a, j as int, TRAY_COUNT as int) {
                        assert(0 <= dest_index(a) < TRAY_COUNT);
                    }
                }
            }
        }
        for ci in 0..3
            invariant
                out@.no_duplicates(),
                b == self.board(),
                forall|a: Action|
                    #[trigger] out@.contains(a) <==> (from_tray_primary(b, a) || from_slot_primary(
                        b,
                        a,
                    ) || match a {
                        Action::CollapseDragon(col) => color_code(col) < ci && collapse_ready(
                            b,
                            col,
                        ),
                        _ => false,
                    }),
        {
            proof {
                if ci == 0 {
                    assert forall|a: Action| #[trigger]
                        out@.contains(a) <==> (from_tray_primary(b, a) || from_slot_primary(b, a) || match a {
                            Action::CollapseDragon(col) => color_code(col) < ci && collapse_ready(b, col),
                            _ => false,
                        }) by {
                        if from_slot_primary(b, a) {
                            assert(slot_part(b, a, SLOT_COUNT as int, 0));
                        }
                    }
                }
            }
            let col = color_at(ci);
            let mv = Action::CollapseDragon(col);
            let ghost before = out@;
            let emit = self.can_collapse(col);
            if emit {
                proof {
                    lemma_push_no_duplicates(out@, mv);
                }
                out.push(mv);
            }
            proof {
                assert forall|a: Action| #[trigger]
                    out@.contains(a) <==> (from_tray_primary(b, a) || from_slot_primary(b, a)
                        || match a {
                        Action::CollapseDragon(c2) => color_code(c2) < ci + 1 && collapse_ready(
                            b,
                            c2,
                        ),
                        _ => false,
                    }) by {
                    if emit {
                        lemma_push_contains(before, mv, a);
                    }
                }
            }
        }
        out
    }

    /// The fallback actions from this state: the top card of any non-empty
    /// tray parked in any empty slot.
    pub fn valid_slot_actions(&self) -> (r: Vec<Action>)
        ensures
            forall|a: Action| #[trigger] r@.contains(a) <==> fallback(self.board(), a),
            r@.no_duplicates(),
    {
        let ghost b = self.board();
        let mut out: Vec<Action> = Vec::new();
        for i in 0..TRAY_COUNT
            invariant
                out@.no_duplicates(),
                b == self.board(),
                forall|a: Action|
                    #[trigger] out@.contains(a) <==> (fallback(b, a) && src_tray(a) < i),
        {
            let n = self.trays[i].len();
            assert(b.trays[i as int] == self.trays@[i as int]@);
            for j in 0..SLOT_COUNT
                invariant
                    out@.no_duplicates(),
                    b == self.board(),
                    i < TRAY_COUNT,
                    n == b.trays[i as int].len(),
                    forall|a: Action|
                        #[trigger] out@.contains(a) <==> (fallback(b, a) && (src_tray(a) < i || (
                        src_tray(a) == i && dest_index(a) < j))),
            {
                let mv = Action::Move { src: Place::Tray(i), dest: Place::Slot(j), count: 1 };
                let ghost before = out@;
                let emit = n > 0 && self.slots[j].is_none();
                if emit {
                    proof {
                        lemma_push_no_duplicates(out@, mv);
                    }
                    out.push(mv);
                }
                proof {
                    assert forall|a: Action| #[trigger]
                        out@.contains(a) <==> (fallback(b, a) && (src_tray(a) < i || (src_tray(a)
                            == i && dest_index(a) < j + 1))) by {
                        if emit {
                            lemma_push_contains(before, mv, a);
                        }
                    }
                }
            }
        }
        out
    }
}

fn card_code_of(c: Card) -> (r: u64)
    ensures
        r == card_code(c),
        r < HASH_BASE,
{
    match c {
        Card::CollapsedDragon => 1,
        Card::Dragon(col) => 2 + color_slot(col) as u64,
        Card::Flower => 5,
        Card::Number(col, r) => 8 + 256 * color_slot(col) as u64 + (r as i16 + 128) as u64,
    }
}

fn hash_step_of(h: u64, x: u64) -> (r: u64)
    requires
        h < HASH_MODULUS,
        x < HASH_BASE,
    ensures
        r == hash_step(h, x),
        r < HASH_MODULUS,
{
    (h * HASH_BASE + x) % HASH_MODULUS
}

impl State {
    /// A hash of the trays and slots alone.
    pub fn board_hash(&self) -> (r: u64)
        ensures
            r == board_hash(self.board()),
    {
        let ghost ts = self.board().trays;
        let mut h: u64 = 0;
        for i in 0..TRAY_COUNT
            invariant
                ts == self.board().trays,
                h == hash_trays(0, ts.take(i as int)),
                h < HASH_MODULUS,
        {
            proof {
                lemma_take_last(ts, i as int);
            }
            let t = &self.trays[i];
            assert(ts[i as int] == t@);
            let n = t.len();
            let ghost h0 = h;
            for m in 0..n
                invariant
                    n == t@.len(),
                    h == hash_cards(h0, t@.take(m as int)),
                    h < HASH_MODULUS,
            {
                proof {
                    lemma_take_last(t@, m as int);
                }
                h = hash_step_of(h, card_code_of(t[m]));
            }
            assert(t@.take(n as int) =~= t@);
            h = hash_step_of(h, 0);
        }
        assert(ts.take(TRAY_COUNT as int) =~= ts);
        for j in 0..SLOT_COUNT
            invariant
                h == hash_slots(hash_trays(0, ts), self.slots@.take(j as int)),
                h < HASH_MODULUS,
        {
            proof {
                lemma_take_last(self.slots@, j as int);
            }
            let code = match self.slots[j] {
                Some(c) => card_code_of(c),
                None => 0,
            };
            h = hash_step_of(h, code);
        }
        assert(self.slots@.take(SLOT_COUNT as int) =~= self.slots@);
        h
    }

    /// Whether two states hold the same trays and slots.
    pub fn same_board(&self, other: &State) -> (r: bool)
        ensures
            r == (self.board() == other.board()),
    {
        let ghost b1 = self.board();
        let ghost b2 = other.board();
        for i in 0..TRAY_COUNT
            invariant
                b1 == self.board(),
                b2 == other.board(),
                forall|k: int| 0 <= k < i ==> b1.trays[k] == b2.trays[k],
        {
            let t1 = &self.trays[i];
            let t2 = &other.trays[i];
            assert(b1.trays[i as int] == t1@ && b2.trays[i as int] == t2@);
            if t1.len() != t2.len() {
                return false;
            }
            for m in 0..t1.len()
                invariant
                    t1@.len() == t2@.len(),
                    i < TRAY_COUNT,
                    b1 == self.board(),
                    b2 == other.board(),
                    b1.trays[i as int] == t1@ && b2.trays[i as int] == t2@,
                    forall|q: int| 0 <= q < m ==> t1@[q] == t2@[q],
            {
                if t1[m] != t2[m] {
                    assert(b1.trays[i as int][m as int] != b2.trays[i as int][m as int]);
                    return false;
                }
            }
            assert(t1@ =~= t2@);
        }
        assert(b1.trays =~= b2.trays);
        for j in 0..SLOT_COUNT
            invariant
                b1.trays == b2.trays,
                b1 == self.board(),
                b2 == other.board(),
                forall|k: int| 0 <= k < j ==> b1.slots[k] == b2.slots[k],
        {
            let same = match (self.slots[j], other.slots[j]) {
                (Some(c1), Some(c2)) => c1 == c2,
                (None, None) => true,
                _ => false,
            };
            if !same {
                assert(b1.slots[j as int] != b2.slots[j as int]);
                return false;
            }
        }
        assert(b1.slots =~= b2.slots);
        true
    }
}

impl PartialEq for State {
    fn eq(&self, other: &State) -> (r: bool) {
        self.same_board(other)
    }
}

impl vstd::std_specs::cmp::PartialEqSpecImpl for State {
    open spec fn obeys_eq_spec() -> bool {
        true
    }

    open spec fn eq_spec(&self, other: &State) -> bool {
        self.board() == other.board()
    }
}

} // verus!
