//! The mathematical model of a board: its trays and slots as sequences, the
//! auto-foundation rule, the effect of each action, and the search heuristic.
use vstd::prelude::*;

use crate::rule::{Action, Card, Color, Place, stacks_on, DRAGON_COUNT, SLOT_COUNT, TRAY_COUNT};

verus! {

/// A board as plain values: each tray bottom first, and the slots.
pub struct Board {
    pub trays: Seq<Seq<Card>>,
    pub slots: Seq<Option<Card>>,
}

/// The board has the fixed number of trays and slots.
pub open spec fn shaped(b: Board) -> bool {
    b.trays.len() == TRAY_COUNT && b.slots.len() == SLOT_COUNT
}

pub open spec fn min(a: int, b: int) -> int {
    if a <= b {
        a
    } else {
        b
    }
}

/// The rank of `c` if it is a number of color `col`; 10 otherwise.
pub open spec fn rank_in(c: Card, col: Color) -> int {
    match c {
        Card::Number(c2, r) => if c2 == col {
            r as int
        } else {
            10
        },
        _ => 10,
    }
}

/// The smallest rank of color `col` in a tray, never above 10.
pub open spec fn tray_lowest(t: Seq<Card>, col: Color) -> int
    decreases t.len(),
{
    if t.len() == 0 {
        10
    } else {
        min(tray_lowest(t.drop_last(), col), rank_in(t.last(), col))
    }
}

pub open spec fn trays_lowest(ts: Seq<Seq<Card>>, col: Color) -> int
    decreases ts.len(),
{
    if ts.len() == 0 {
        10
    } else {
        min(trays_lowest(ts.drop_last(), col), tray_lowest(ts.last(), col))
    }
}

pub open spec fn slot_rank(s: Option<Card>, col: Color) -> int {
    match s {
        Some(c) => rank_in(c, col),
        None => 10,
    }
}

pub open spec fn slots_lowest(ss: Seq<Option<Card>>, col: Color) -> int
    decreases ss.len(),
{
    if ss.len() == 0 {
        10
    } else {
        min(slots_lowest(ss.drop_last(), col), slot_rank(ss.last(), col))
    }
}

/// The smallest rank of color `col` still on the board; 10 if none is.
pub open spec fn lowest(b: Board, col: Color) -> int {
    min(trays_lowest(b.trays, col), slots_lowest(b.slots, col))
}

/// A card that always goes to the foundation once exposed: the flower or a 1.
pub open spec fn always_free(c: Card) -> bool {
    match c {
        Card::Flower => true,
        Card::Number(_, r) => r == 1,
        _ => false,
    }
}

/// A number that no later move can need, given the lowest ranks left of
/// each color: a 2 once no lower card of its color is left; a rank above 2
/// once no color has a lower card left.
pub open spec fn safe_with(c: Card, red: int, green: int, black: int) -> bool {
    match c {
        Card::Number(col, r) => if r > 2 {
            r <= red && r <= green && r <= black
        } else if r == 2 {
            r == (match col {
                Color::Red => red,
                Color::Green => green,
                Color::Black => black,
            })
        } else {
            false
        },
        _ => false,
    }
}

pub open spec fn safe_on(c: Card, b: Board) -> bool {
    safe_with(c, lowest(b, Color::Red), lowest(b, Color::Green), lowest(b, Color::Black))
}

/// A tray without its top card if that card is the flower or a 1.
pub open spec fn drop_free(t: Seq<Card>) -> Seq<Card> {
    if t.len() > 0 && always_free(t.last()) {
        t.drop_last()
    } else {
        t
    }
}

/// A tray without its top card if that card is safe on `b`.
pub open spec fn drop_safe(t: Seq<Card>, b: Board) -> Seq<Card> {
    if t.len() > 0 && safe_on(t.last(), b) {
        t.drop_last()
    } else {
        t
    }
}

pub open spec fn clear_safe(s: Option<Card>, b: Board) -> Option<Card> {
    if s is Some && safe_on(s->0, b) {
        None
    } else {
        s
    }
}

/// The board after the first step of a pass: free cards off the tray tops.
pub open spec fn free_step(b: Board) -> Board {
    Board { trays: b.trays.map_values(|t: Seq<Card>| drop_free(t)), slots: b.slots }
}

/// One pass of auto-foundation: free cards off the tray tops, then every
/// safe exposed number off the trays and slots, judged by what the first
/// step left.
pub open spec fn pass(b: Board) -> Board {
    let b1 = free_step(b);
    Board {
        trays: b1.trays.map_values(|t: Seq<Card>| drop_safe(t, b1)),
        slots: b1.slots.map_values(|s: Option<Card>| clear_safe(s, b1)),
    }
}

/// Auto-foundation has nothing left to remove.
pub open spec fn canonical(b: Board) -> bool {
    pass(b) == b
}

pub open spec fn trays_len(ts: Seq<Seq<Card>>) -> nat
    decreases ts.len(),
{
    if ts.len() == 0 {
        0
    } else {
        trays_len(ts.drop_last()) + ts.last().len()
    }
}

pub open spec fn slots_used(ss: Seq<Option<Card>>) -> nat
    decreases ss.len(),
{
    if ss.len() == 0 {
        0
    } else {
        slots_used(ss.drop_last()) + if ss.last() is Some {
            1nat
        } else {
            0nat
        }
    }
}

/// Every card on the board, sealed slots included.
pub open spec fn total(b: Board) -> nat {
    trays_len(b.trays) + slots_used(b.slots)
}

pub open spec fn slots_cards(ss: Seq<Option<Card>>) -> nat
    decreases ss.len(),
{
    if ss.len() == 0 {
        0
    } else {
        slots_cards(ss.drop_last()) + if ss.last() is Some && ss.last() != Some(
            Card::CollapsedDragon,
        ) {
            1nat
        } else {
            0nat
        }
    }
}

/// The cards still to be played: all tray cards, and slot cards but sealed ones.
pub open spec fn card_count(b: Board) -> nat {
    trays_len(b.trays) + slots_cards(b.slots)
}

/// Every tray is empty and every slot is empty or sealed.
pub open spec fn cleared(b: Board) -> bool {
    &&& forall|i: int| 0 <= i < b.trays.len() ==> b.trays[i].len() == 0
    &&& forall|j: int|
        0 <= j < b.slots.len() ==> (b.slots[j] is None || b.slots[j] == Some(
            Card::CollapsedDragon,
        ))
}

/// Auto-foundation run to its fixpoint.
pub open spec fn normalize(b: Board) -> Board
    decreases total(b),
{
    if pass(b) == b {
        b
    } else {
        proof {
            lemma_pass_shrinks(b);
        }
        normalize(pass(b))
    }
}

// ---------------------------------------------------------------------------
// Actions
/// Whether the top `count` cards of a tray can be taken, a slot's card, and
/// so on: the conditions under which an action is defined on a board.
pub open spec fn applicable(b: Board, a: Action) -> bool {
    match a {
        Action::Pop { src } => match src {
            Place::Tray(i) => i < TRAY_COUNT && b.trays[i as int].len() > 0,
            Place::Slot(_) => false,
        },
        Action::Move { src, dest, count } => {
            &&& count >= 1
            &&& match src {
                Place::Tray(i) => i < TRAY_COUNT && count <= b.trays[i as int].len(),
                Place::Slot(j) => j < SLOT_COUNT && count == 1 && b.slots[j as int] is Some,
            }
            &&& match dest {
                Place::Tray(k) => k < TRAY_COUNT,
                Place::Slot(k) => k < SLOT_COUNT && count == 1 && b.slots[k as int] is None,
            }
        },
        Action::CollapseDragon(col) => collapse_ready(b, col),
    }
}

pub open spec fn top_is(t: Seq<Card>, c: Card) -> bool {
    t.len() > 0 && t.last() == c
}

/// Number of trays whose top card is `c`.
pub open spec fn tops_equal(ts: Seq<Seq<Card>>, c: Card) -> nat
    decreases ts.len(),
{
    if ts.len() == 0 {
        0
    } else {
        tops_equal(ts.drop_last(), c) + if top_is(ts.last(), c) {
            1nat
        } else {
            0nat
        }
    }
}

/// Number of slots holding `c`.
pub open spec fn slots_equal(ss: Seq<Option<Card>>, c: Card) -> nat
    decreases ss.len(),
{
    if ss.len() == 0 {
        0
    } else {
        slots_equal(ss.drop_last(), c) + if ss.last() == Some(c) {
            1nat
        } else {
            0nat
        }
    }
}

/// Dragons of color `col` on tray tops or in slots.
pub open spec fn exposed_dragons(b: Board, col: Color) -> nat {
    tops_equal(b.trays, Card::Dragon(col)) + slots_equal(b.slots, Card::Dragon(col))
}

pub open spec fn has_empty_slot(b: Board) -> bool {
    exists|j: int| 0 <= j < b.slots.len() && b.slots[j] is None
}

/// All dragons of `col` are exposed and a slot can take the collapsed pile.
pub open spec fn collapse_ready(b: Board, col: Color) -> bool {
    &&& exposed_dragons(b, col) == DRAGON_COUNT
    &&& (has_empty_slot(b) || slots_equal(b.slots, Card::Dragon(col)) > 0)
}

/// The cards that a move takes from its source, bottom first.
pub open spec fn taken(b: Board, src: Place, count: nat) -> Seq<Card> {
    match src {
        Place::Tray(i) => {
            let t = b.trays[i as int];
            t.subrange(t.len() - count, t.len() as int)
        },
        Place::Slot(j) => seq![b.slots[j as int]->0],
    }
}

/// The board without the cards that a move takes.
pub open spec fn without_taken(b: Board, src: Place, count: nat) -> Board {
    match src {
        Place::Tray(i) => {
            let t = b.trays[i as int];
            Board {
                trays: b.trays.update(i as int, t.subrange(0, t.len() - count)),
                slots: b.slots,
            }
        },
        Place::Slot(j) => Board { trays: b.trays, slots: b.slots.update(j as int, None) },
    }
}

/// The board with `cards` put on `dest`.
pub open spec fn with_put(b: Board, dest: Place, cards: Seq<Card>) -> Board {
    match dest {
        Place::Tray(k) => Board {
            trays: b.trays.update(k as int, b.trays[k as int] + cards),
            slots: b.slots,
        },
        Place::Slot(k) => Board { trays: b.trays, slots: b.slots.update(k as int, Some(cards[0])) },
    }
}

/// A tray without its top card if that card is `c`.
pub open spec fn drop_top(t: Seq<Card>, c: Card) -> Seq<Card> {
    if top_is(t, c) {
        t.drop_last()
    } else {
        t
    }
}

/// The first empty slot, scanning from the left.
pub open spec fn first_empty(ss: Seq<Option<Card>>) -> Option<nat>
    decreases ss.len(),
{
    if ss.len() == 0 {
        None
    } else if ss[0] is None {
        Some(0)
    } else {
        match first_empty(ss.drop_first()) {
            Some(j) => Some(j + 1),
            None => None,
        }
    }
}

/// The exposed dragons of `col` leave; the first empty slot is sealed.
pub open spec fn collapsed(b: Board, col: Color) -> Board {
    let d = Card::Dragon(col);
    let trays = b.trays.map_values(|t: Seq<Card>| drop_top(t, d));
    let slots = b.slots.map_values(
        |s: Option<Card>|
            if s == Some(d) {
                None
            } else {
                s
            },
    );
    match first_empty(slots) {
        Some(j) => Board { trays, slots: slots.update(j as int, Some(Card::CollapsedDragon)) },
        None => Board { trays, slots },
    }
}

/// The board right after an action, before auto-foundation.
pub open spec fn apply(b: Board, a: Action) -> Board {
    match a {
        Action::Pop { src } => match src {
            Place::Tray(i) => Board {
                trays: b.trays.update(i as int, b.trays[i as int].drop_last()),
                slots: b.slots,
            },
            Place::Slot(_) => b,
        },
        Action::Move { src, dest, count } => with_put(
            without_taken(b, src, count as nat),
            dest,
            taken(b, src, count as nat),
        ),
        Action::CollapseDragon(col) => collapsed(b, col),
    }
}

/// The board that an action leads to: the action, then auto-foundation.
pub open spec fn successor(b: Board, a: Action) -> Board {
    normalize(apply(b, a))
}

/// Whether each action in turn is defined on the board that the previous
/// ones led to.
pub open spec fn replayable(b: Board, acts: Seq<Action>) -> bool
    decreases acts.len(),
{
    acts.len() == 0 || (applicable(b, acts[0]) && replayable(
        successor(b, acts[0]),
        acts.drop_first(),
    ))
}

/// The board that a sequence of actions leads to.
pub open spec fn replay(b: Board, acts: Seq<Action>) -> Board
    decreases acts.len(),
{
    if acts.len() == 0 {
        b
    } else {
        replay(successor(b, acts[0]), acts.drop_first())
    }
}

// ---------------------------------------------------------------------------
// Heuristic
/// Number of adjacent pairs in a tray where the upper card stacks on the lower.
pub open spec fn stacked_pairs(t: Seq<Card>) -> nat
    decreases t.len(),
{
    if t.len() < 2 {
        0
    } else {
        stacked_pairs(t.drop_last()) + if stacks_on(t.last(), t[t.len() - 2]) {
            1nat
        } else {
            0nat
        }
    }
}

/// A tray's stacking bonus, in tenths: ten per stacked pair, eleven when the
/// whole tray is one run, twelve when that run stands on a 9.
pub open spec fn tray_bonus(t: Seq<Card>) -> int {
    let p = stacked_pairs(t) as int;
    if t.len() == 0 {
        0
    } else if p == t.len() - 1 {
        if t[0] matches Card::Number(_, 9) {
            12 * p
        } else {
            11 * p
        }
    } else {
        10 * p
    }
}

pub open spec fn trays_bonus(ts: Seq<Seq<Card>>) -> int
    decreases ts.len(),
{
    if ts.len() == 0 {
        0
    } else {
        trays_bonus(ts.drop_last()) + tray_bonus(ts.last())
    }
}

/// The search heuristic in tenths, lower first: ten per card left, one per
/// step taken, less the stacking bonus.
pub open spec fn priority_of(b: Board, step: nat) -> int {
    10 * card_count(b) + step - trays_bonus(b.trays)
}

// ---------------------------------------------------------------------------
// Lemmas
pub proof fn lemma_trays_len_mono(ts1: Seq<Seq<Card>>, ts2: Seq<Seq<Card>>)
    requires
        ts1.len() == ts2.len(),
        forall|i: int| 0 <= i < ts1.len() ==> ts1[i].len() <= ts2[i].len(),
    ensures
        trays_len(ts1) <= trays_len(ts2),
        (exists|i: int| 0 <= i < ts1.len() && ts1[i].len() < ts2[i].len()) ==> trays_len(ts1)
            < trays_len(ts2),
    decreases ts1.len(),
{
    if ts1.len() > 0 {
        let n = ts1.len() - 1;
        lemma_trays_len_mono(ts1.drop_last(), ts2.drop_last());
        if exists|i: int| 0 <= i < ts1.len() && ts1[i].len() < ts2[i].len() {
            let i = choose|i: int| 0 <= i < ts1.len() && ts1[i].len() < ts2[i].len();
            if i < n {
                assert(ts1.drop_last()[i].len() < ts2.drop_last()[i].len());
            }
        }
    }
}

pub proof fn lemma_slots_used_mono(ss1: Seq<Option<Card>>, ss2: Seq<Option<Card>>)
    requires
        ss1.len() == ss2.len(),
        forall|j: int| 0 <= j < ss1.len() ==> (ss1[j] is Some ==> ss2[j] is Some),
    ensures
        slots_used(ss1) <= slots_used(ss2),
        (exists|j: int| 0 <= j < ss1.len() && ss1[j] is None && ss2[j] is Some) ==> slots_used(
            ss1,
        ) < slots_used(ss2),
    decreases ss1.len(),
{
    if ss1.len() > 0 {
        let n = ss1.len() - 1;
        lemma_slots_used_mono(ss1.drop_last(), ss2.drop_last());
        if exists|j: int| 0 <= j < ss1.len() && ss1[j] is None && ss2[j] is Some {
            let j = choose|j: int| 0 <= j < ss1.len() && ss1[j] is None && ss2[j] is Some;
            if j < n {
                assert(ss1.drop_last()[j] is None && ss2.drop_last()[j] is Some);
            }
        }
    }
}

/// A pass that changes the board leaves fewer cards on it.
pub proof fn lemma_pass_shrinks(b: Board)
    ensures
        total(pass(b)) <= total(b),
        pass(b) != b ==> total(pass(b)) < total(b),
{
    let b1 = free_step(b);
    let p = pass(b);
    assert forall|i: int| 0 <= i < b.trays.len() implies p.trays[i].len() <= b.trays[i].len() by {
        assert(b1.trays[i] == drop_free(b.trays[i]));
    }
    lemma_trays_len_mono(p.trays, b.trays);
    lemma_slots_used_mono(p.slots, b.slots);
    if p != b {
        if p.trays == b.trays {
            assert(p.slots != b.slots);
            if !(exists|j: int| 0 <= j < p.slots.len() && p.slots[j] is None && b.slots[j] is Some) {
                assert(p.slots =~= b.slots);
            }
        } else {
            if !(exists|i: int| 0 <= i < p.trays.len() && p.trays[i].len() < b.trays[i].len()) {
                assert forall|i: int| 0 <= i < p.trays.len() implies p.trays[i] == b.trays[i] by {
                    assert(b1.trays[i] == drop_free(b.trays[i]));
                    if b1.trays[i] != b.trays[i] {
                        assert(p.trays[i].len() < b.trays[i].len());
                    }
                }
                assert(p.trays =~= b.trays);
            }
        }
    }
}

/// The normal form is a fixpoint of auto-foundation.
pub proof fn lemma_normalize_canonical(b: Board)
    ensures
        canonical(normalize(b)),
    decreases total(b),
{
    if pass(b) != b {
        lemma_pass_shrinks(b);
        lemma_normalize_canonical(pass(b));
    }
}

/// The first `i + 1` items of `s` are the first `i` and then `s[i]`.
pub proof fn lemma_take_last<T>(s: Seq<T>, i: int)
    requires
        0 <= i < s.len(),
    ensures
        s.take(i + 1).drop_last() == s.take(i),
        s.take(i + 1).last() == s[i],
{
    assert(s.take(i + 1).drop_last() =~= s.take(i));
}

pub proof fn lemma_first_empty(ss: Seq<Option<Card>>, j: int)
    requires
        0 <= j <= ss.len(),
        forall|k: int| 0 <= k < j ==> ss[k] is Some,
    ensures
        j < ss.len() && ss[j] is None ==> first_empty(ss) == Some(j as nat),
        j == ss.len() ==> first_empty(ss) is None,
    decreases j,
{
    if j > 0 {
        lemma_first_empty(ss.drop_first(), j - 1);
    } else if ss.len() > 0 {
    }
}

pub proof fn lemma_slots_cards_le(ss: Seq<Option<Card>>)
    ensures
        slots_cards(ss) <= slots_used(ss),
        slots_used(ss) <= ss.len(),
    decreases ss.len(),
{
    if ss.len() > 0 {
        lemma_slots_cards_le(ss.drop_last());
    }
}

/// What is left to play never exceeds what is on the board.
pub proof fn lemma_card_count_le_total(b: Board)
    ensures
        card_count(b) <= total(b),
{
    lemma_slots_cards_le(b.slots);
}

pub proof fn lemma_stacked_pairs_le(t: Seq<Card>)
    ensures
        stacked_pairs(t) <= t.len(),
        t.len() > 0 ==> stacked_pairs(t) <= t.len() - 1,
    decreases t.len(),
{
    if t.len() >= 2 {
        lemma_stacked_pairs_le(t.drop_last());
    }
}

pub proof fn lemma_tops_equal_pos(ts: Seq<Seq<Card>>, c: Card)
    requires
        tops_equal(ts, c) > 0,
    ensures
        exists|i: int| 0 <= i < ts.len() && top_is(#[trigger] ts[i], c),
    decreases ts.len(),
{
    if !top_is(ts.last(), c) {
        lemma_tops_equal_pos(ts.drop_last(), c);
        let i = choose|i: int| 0 <= i < ts.len() - 1 && top_is(#[trigger] ts.drop_last()[i], c);
        assert(ts[i] == ts.drop_last()[i]);
    }
}

pub proof fn lemma_slots_equal_pos(ss: Seq<Option<Card>>, c: Card)
    requires
        slots_equal(ss, c) > 0,
    ensures
        exists|j: int| 0 <= j < ss.len() && #[trigger] ss[j] == Some(c),
    decreases ss.len(),
{
    if ss.last() != Some(c) {
        lemma_slots_equal_pos(ss.drop_last(), c);
        let j = choose|j: int| 0 <= j < ss.len() - 1 && #[trigger] ss.drop_last()[j] == Some(c);
        assert(ss[j] == ss.drop_last()[j]);
    }
}

pub proof fn lemma_first_empty_spec(ss: Seq<Option<Card>>)
    ensures
        first_empty(ss) is Some ==> first_empty(ss)->0 < ss.len() && ss[first_empty(ss)->0 as int] is None,
        first_empty(ss) is None ==> forall|j: int| 0 <= j < ss.len() ==> ss[j] is Some,
    decreases ss.len(),
{
    if ss.len() > 0 && ss[0] is Some {
        lemma_first_empty_spec(ss.drop_first());
        assert forall|j: int| 0 < j < ss.len() implies ss[j] == ss.drop_first()[j - 1] by {}
    }
}

/// An action never adds cards to the board.
pub proof fn lemma_apply_total(b: Board, a: Action)
    requires
        shaped(b),
        applicable(b, a),
    ensures
        total(apply(b, a)) <= total(b),
{
    let r = apply(b, a);
    match a {
        Action::Pop { src } => {
            lemma_trays_len_mono(r.trays, b.trays);
            lemma_slots_used_mono(r.slots, b.slots);
        },
        Action::Move { src, dest, count } => {
            let w = without_taken(b, src, count as nat);
            let moved = taken(b, src, count as nat);
            lemma_moved_total(b, src, dest, count as nat);
        },
        Action::CollapseDragon(col) => {
            lemma_collapse_total(b, col);
        },
    }
}

pub proof fn lemma_trays_len_update(ts: Seq<Seq<Card>>, i: int, t: Seq<Card>)
    requires
        0 <= i < ts.len(),
    ensures
        trays_len(ts.update(i, t)) + ts[i].len() == trays_len(ts) + t.len(),
    decreases ts.len(),
{
    let u = ts.update(i, t);
    if i < ts.len() - 1 {
        assert(u.drop_last() =~= ts.drop_last().update(i, t));
        lemma_trays_len_update(ts.drop_last(), i, t);
    } else {
        assert(u.drop_last() =~= ts.drop_last());
    }
}

pub proof fn lemma_slots_used_update(ss: Seq<Option<Card>>, j: int, s: Option<Card>)
    requires
        0 <= j < ss.len(),
    ensures
        slots_used(ss.update(j, s)) + (if ss[j] is Some { 1int } else { 0 }) == slots_used(ss) + (
        if s is Some {
            1int
        } else {
            0
        }),
    decreases ss.len(),
{
    let u = ss.update(j, s);
    if j < ss.len() - 1 {
        assert(u.drop_last() =~= ss.drop_last().update(j, s));
        lemma_slots_used_update(ss.drop_last(), j, s);
    } else {
        assert(u.drop_last() =~= ss.drop_last());
    }
}

proof fn lemma_moved_total(b: Board, src: Place, dest: Place, count: nat)
    requires
        shaped(b),
        applicable(b, Action::Move { src, dest, count: count as usize }),
        count == count as usize,
    ensures
        total(with_put(without_taken(b, src, count), dest, taken(b, src, count))) == total(b),
{
    let w = without_taken(b, src, count);
    let moved = taken(b, src, count);
    match src {
        Place::Tray(i) => {
            let t = b.trays[i as int];
            lemma_trays_len_update(b.trays, i as int, t.subrange(0, t.len() - count));
            assert(moved.len() == count);
        },
        Place::Slot(j) => {
            lemma_slots_used_update(b.slots, j as int, None);
        },
    }
    match dest {
        Place::Tray(k) => {
            lemma_trays_len_update(w.trays, k as int, w.trays[k as int] + moved);
        },
        Place::Slot(k) => {
            lemma_slots_used_update(w.slots, k as int, Some(moved[0]));
        },
    }
}

proof fn lemma_collapse_total(b: Board, col: Color)
    requires
        shaped(b),
        collapse_ready(b, col),
    ensures
        total(collapsed(b, col)) <= total(b),
{
    let d = Card::Dragon(col);
    let r = collapsed(b, col);
    let trays = b.trays.map_values(|t: Seq<Card>| drop_top(t, d));
    let slots = b.slots.map_values(
        |s: Option<Card>|
            if s == Some(d) {
                None
            } else {
                s
            },
    );
    lemma_trays_len_mono(trays, b.trays);
    lemma_slots_used_mono(slots, b.slots);
    if tops_equal(b.trays, d) > 0 {
        lemma_tops_equal_pos(b.trays, d);
        let i = choose|i: int| 0 <= i < b.trays.len() && top_is(#[trigger] b.trays[i], d);
        assert(trays[i].len() < b.trays[i].len());
    } else {
        lemma_slots_equal_pos(b.slots, d);
        let j = choose|j: int| 0 <= j < b.slots.len() && #[trigger] b.slots[j] == Some(d);
        assert(slots[j] is None);
    }
    match first_empty(slots) {
        Some(j) => {
            lemma_first_empty_spec(slots);
            lemma_slots_used_update(slots, j as int, Some(Card::CollapsedDragon));
        },
        None => {},
    }
}

// ---------------------------------------------------------------------------
// Move generation
/// The cards from depth `j` to the top of `t` form one stacked run.
pub open spec fn run_from(t: Seq<Card>, j: int) -> bool {
    forall|m: int| j < m < t.len() ==> stacks_on(#[trigger] t[m], t[m - 1])
}

/// The top card of tray `i` is a number whose color has no lower card left.
pub open spec fn pop_ok(b: Board, i: int) -> bool {
    &&& 0 <= i < TRAY_COUNT
    &&& b.trays[i].len() > 0
    &&& match b.trays[i].last() {
        Card::Number(col, r) => r == lowest(b, col),
        _ => false,
    }
}

/// The run from depth `j` of tray `i` may go onto tray `k`: onto a card it
/// stacks on, or onto an empty tray unless it is the whole tray.
pub open spec fn tray_move_ok(b: Board, i: int, k: int, j: int) -> bool {
    let t = b.trays[i];
    let o = b.trays[k];
    &&& 0 <= i < TRAY_COUNT
    &&& 0 <= k < TRAY_COUNT
    &&& i != k
    &&& 0 <= j < t.len()
    &&& run_from(t, j)
    &&& if o.len() > 0 {
        stacks_on(t[j], o.last())
    } else {
        j > 0
    }
}

/// The card in slot `j` may go back onto tray `k`.
pub open spec fn unpark_ok(b: Board, j: int, k: int) -> bool {
    &&& 0 <= j < SLOT_COUNT
    &&& 0 <= k < TRAY_COUNT
    &&& b.slots[j] is Some
    &&& b.slots[j]->0 != Card::CollapsedDragon
    &&& (b.trays[k].len() == 0 || stacks_on(b.slots[j]->0, b.trays[k].last()))
}

/// An action taken from a tray among the primary ones.
pub open spec fn from_tray_primary(b: Board, a: Action) -> bool {
    match a {
        Action::Pop { src: Place::Tray(i) } => pop_ok(b, i as int),
        Action::Move { src: Place::Tray(i), dest: Place::Tray(k), count } => tray_move_ok(
            b,
            i as int,
            k as int,
            b.trays[i as int].len() - count,
        ),
        _ => false,
    }
}

/// An action taken from a slot among the primary ones.
pub open spec fn from_slot_primary(b: Board, a: Action) -> bool {
    match a {
        Action::Move { src: Place::Slot(j), dest: Place::Tray(k), count } => count == 1
            && unpark_ok(b, j as int, k as int),
        _ => false,
    }
}

/// The primary actions: pops, run moves between trays, moves from a slot
/// back to a tray, and dragon collapses.
pub open spec fn primary(b: Board, a: Action) -> bool {
    ||| from_tray_primary(b, a)
    ||| from_slot_primary(b, a)
    ||| match a {
        Action::CollapseDragon(col) => collapse_ready(b, col),
        _ => false,
    }
}

/// The fallback actions: a tray's top card parked in an empty slot.
pub open spec fn fallback(b: Board, a: Action) -> bool {
    match a {
        Action::Move { src: Place::Tray(i), dest: Place::Slot(j), count } => {
            &&& count == 1
            &&& i < TRAY_COUNT
            &&& j < SLOT_COUNT
            &&& b.trays[i as int].len() > 0
            &&& b.slots[j as int] is None
        },
        _ => false,
    }
}

/// Pushing an item not yet in a sequence keeps its items distinct.
pub proof fn lemma_push_no_duplicates<T>(s: Seq<T>, x: T)
    requires
        s.no_duplicates(),
        !s.contains(x),
    ensures
        s.push(x).no_duplicates(),
{
    assert forall|i: int, j: int| 0 <= i < s.push(x).len() && 0 <= j < s.push(x).len() && i != j
        implies s.push(x)[i] != s.push(x)[j] by {
        if i == s.len() {
            assert(s[j] == s.push(x)[j]);
        } else if j == s.len() {
            assert(s[i] == s.push(x)[i]);
        }
    }
}

pub proof fn lemma_push_contains<T>(s: Seq<T>, x: T, a: T)
    ensures
        s.push(x).contains(a) == (s.contains(a) || a == x),
{
    if s.contains(a) {
        let i = choose|i: int| 0 <= i < s.len() && s[i] == a;
        assert(s.push(x)[i] == a);
    }
    if a == x {
        assert(s.push(x)[s.len() as int] == x);
    }
    if s.push(x).contains(a) {
        let i = choose|i: int| 0 <= i < s.len() + 1 && s.push(x)[i] == a;
        if i < s.len() {
            assert(s[i] == a);
        }
    }
}

// ---------------------------------------------------------------------------
// Hashing
/// Modulus of the board hash, a prime below 2^53.
pub const HASH_MODULUS: u64 = 9_007_199_254_740_881;

/// Multiplier of the board hash.
pub const HASH_BASE: u64 = 1031;

/// A code for each card, all distinct and below the multiplier; 0 marks
/// the end of a tray and an empty slot.
pub open spec fn card_code(c: Card) -> u64 {
    match c {
        Card::CollapsedDragon => 1,
        Card::Dragon(col) => (2 + color_code(col)) as u64,
        Card::Flower => 5,
        Card::Number(col, r) => (8 + 256 * color_code(col) + r as int + 128) as u64,
    }
}

pub open spec fn color_code(c: Color) -> int {
    match c {
        Color::Red => 0,
        Color::Green => 1,
        Color::Black => 2,
    }
}

pub open spec fn hash_step(h: u64, x: u64) -> u64 {
    ((h as int * HASH_BASE as int + x as int) % HASH_MODULUS as int) as u64
}

pub open spec fn hash_cards(h: u64, t: Seq<Card>) -> u64
    decreases t.len(),
{
    if t.len() == 0 {
        h
    } else {
        hash_step(hash_cards(h, t.drop_last()), card_code(t.last()))
    }
}

pub open spec fn hash_trays(h: u64, ts: Seq<Seq<Card>>) -> u64
    decreases ts.len(),
{
    if ts.len() == 0 {
        h
    } else {
        hash_step(hash_cards(hash_trays(h, ts.drop_last()), ts.last()), 0)
    }
}

pub open spec fn slot_code(s: Option<Card>) -> u64 {
    match s {
        Some(c) => card_code(c),
        None => 0,
    }
}

pub open spec fn hash_slots(h: u64, ss: Seq<Option<Card>>) -> u64
    decreases ss.len(),
{
    if ss.len() == 0 {
        h
    } else {
        hash_step(hash_slots(h, ss.drop_last()), slot_code(ss.last()))
    }
}

/// A polynomial hash of the trays, each closed by a 0, then the slots.
pub open spec fn board_hash(b: Board) -> u64 {
    hash_slots(hash_trays(0, b.trays), b.slots)
}

// ---------------------------------------------------------------------------
// Cards left to play never grow along generated actions
/// 1 for a slot that holds a card still to play, else 0.
pub open spec fn slot_card(s: Option<Card>) -> int {
    if s is Some && s != Some(Card::CollapsedDragon) {
        1
    } else {
        0
    }
}

pub proof fn lemma_slots_cards_update(ss: Seq<Option<Card>>, j: int, s: Option<Card>)
    requires
        0 <= j < ss.len(),
    ensures
        slots_cards(ss.update(j, s)) + slot_card(ss[j]) == slots_cards(ss) + slot_card(s),
    decreases ss.len(),
{
    let u = ss.update(j, s);
    if j < ss.len() - 1 {
        assert(u.drop_last() =~= ss.drop_last().update(j, s));
        lemma_slots_cards_update(ss.drop_last(), j, s);
    } else {
        assert(u.drop_last() =~= ss.drop_last());
    }
}

pub proof fn lemma_slots_cards_mono(ss1: Seq<Option<Card>>, ss2: Seq<Option<Card>>)
    requires
        ss1.len() == ss2.len(),
        forall|j: int| 0 <= j < ss1.len() ==> slot_card(#[trigger] ss1[j]) <= slot_card(ss2[j]),
    ensures
        slots_cards(ss1) <= slots_cards(ss2),
    decreases ss1.len(),
{
    if ss1.len() > 0 {
        assert forall|j: int| 0 <= j < ss1.len() - 1 implies slot_card(#[trigger] ss1.drop_last()[j])
            <= slot_card(ss2.drop_last()[j]) by {
            assert(ss1.drop_last()[j] == ss1[j]);
            assert(ss2.drop_last()[j] == ss2[j]);
        }
        lemma_slots_cards_mono(ss1.drop_last(), ss2.drop_last());
        assert(slot_card(ss1[ss1.len() - 1]) <= slot_card(ss2[ss1.len() - 1]));
    }
}

pub proof fn lemma_pass_card_count(b: Board)
    ensures
        card_count(pass(b)) <= card_count(b),
{
    let b1 = free_step(b);
    let p = pass(b);
    assert forall|i: int| 0 <= i < b.trays.len() implies p.trays[i].len() <= b.trays[i].len() by {
        assert(b1.trays[i] == drop_free(b.trays[i]));
    }
    lemma_trays_len_mono(p.trays, b.trays);
    lemma_slots_cards_mono(p.slots, b.slots);
}

/// Auto-foundation never adds a card to play.
pub proof fn lemma_normalize_card_count(b: Board)
    ensures
        card_count(normalize(b)) <= card_count(b),
    decreases total(b),
{
    if pass(b) != b {
        lemma_pass_shrinks(b);
        lemma_pass_card_count(b);
        lemma_normalize_card_count(pass(b));
    }
}

/// A generated action never adds a card to play.
pub proof fn lemma_apply_card_count(b: Board, a: Action)
    requires
        shaped(b),
        primary(b, a) || fallback(b, a),
    ensures
        card_count(apply(b, a)) <= card_count(b),
{
    let r = apply(b, a);
    match a {
        Action::Pop { src } => {
            lemma_trays_len_mono(r.trays, b.trays);
        },
        Action::Move { src, dest, count } => {
            let w = without_taken(b, src, count as nat);
            let moved = taken(b, src, count as nat);
            match src {
                Place::Tray(i) => {
                    let t = b.trays[i as int];
                    lemma_trays_len_update(b.trays, i as int, t.subrange(0, t.len() - count));
                    assert(moved.len() == count);
                },
                Place::Slot(j) => {
                    lemma_slots_cards_update(b.slots, j as int, None);
                    assert(slot_card(b.slots[j as int]) == 1);
                },
            }
            match dest {
                Place::Tray(k) => {
                    lemma_trays_len_update(w.trays, k as int, w.trays[k as int] + moved);
                },
                Place::Slot(k) => {
                    lemma_slots_cards_update(w.slots, k as int, Some(moved[0]));
                },
            }
        },
        Action::CollapseDragon(col) => {
            let d = Card::Dragon(col);
            let trays = b.trays.map_values(|t: Seq<Card>| drop_top(t, d));
            let slots = b.slots.map_values(
                |s: Option<Card>|
                    if s == Some(d) {
                        None
                    } else {
                        s
                    },
            );
            lemma_trays_len_mono(trays, b.trays);
            lemma_slots_cards_mono(slots, b.slots);
            match first_empty(slots) {
                Some(j) => {
                    lemma_first_empty_spec(slots);
                    lemma_slots_cards_update(slots, j as int, Some(Card::CollapsedDragon));
                },
                None => {},
            }
        },
    }
}

} // verus!
