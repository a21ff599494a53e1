//! Properties of states, transitions and move generation, stated over the
//! board model and proved.
use vstd::prelude::*;

use crate::board::{
    always_free, applicable, apply, board_hash, canonical, card_count, cleared, drop_free,
    drop_safe, exposed_dragons, fallback, free_step, has_empty_slot, lemma_apply_card_count,
    lemma_apply_total, lemma_normalize_canonical, lemma_normalize_card_count, pass, primary,
    safe_on, shaped, slots_cards, slots_equal, successor, total, trays_len, Board,
};
use crate::rule::{stacks_on, Action, Card, Color, Place, DRAGON_COUNT, SLOT_COUNT, TRAY_COUNT};
use crate::state::State;
use vstd::std_specs::cmp::PartialEqSpec;

verus! {

/// On a board in normal form no tray top is the flower or a 1, and no
/// exposed card, on a tray top or in a slot, is safe to send to the
/// foundation.
pub proof fn lemma_canonical_exposed(b: Board)
    requires
        shaped(b),
        canonical(b),
    ensures
        forall|i: int|
            0 <= i < b.trays.len() && b.trays[i].len() > 0 ==> !always_free(
                #[trigger] b.trays[i].last(),
            ) && !safe_on(b.trays[i].last(), b),
        forall|j: int|
            0 <= j < b.slots.len() && b.slots[j] is Some ==> !safe_on(#[trigger] b.slots[j]->0, b),
{
    let b1 = free_step(b);
    assert forall|i: int| 0 <= i < b.trays.len() implies b1.trays[i] == b.trays[i] by {
        assert(pass(b).trays[i] == drop_safe(b1.trays[i], b1));
        assert(b1.trays[i] == drop_free(b.trays[i]));
    }
    assert(b1.trays =~= b.trays);
    assert(b1 == b);
    assert forall|i: int| 0 <= i < b.trays.len() && b.trays[i].len() > 0 implies !always_free(
        #[trigger] b.trays[i].last(),
    ) && !safe_on(b.trays[i].last(), b) by {
        assert(pass(b).trays[i] == drop_safe(b1.trays[i], b1));
        assert(b1.trays[i] == drop_free(b.trays[i]));
    }
    assert forall|j: int| 0 <= j < b.slots.len() && b.slots[j] is Some implies !safe_on(
        #[trigger] b.slots[j]->0,
        b,
    ) by {
        assert(pass(b).slots[j] == b.slots[j]);
    }
}

pub proof fn lemma_trays_len_zero(ts: Seq<Seq<Card>>)
    ensures
        trays_len(ts) == 0 <==> forall|i: int| 0 <= i < ts.len() ==> #[trigger] ts[i].len() == 0,
    decreases ts.len(),
{
    if ts.len() > 0 {
        lemma_trays_len_zero(ts.drop_last());
        if trays_len(ts) == 0 {
            assert forall|i: int| 0 <= i < ts.len() implies #[trigger] ts[i].len() == 0 by {
                if i < ts.len() - 1 {
                    assert(ts[i] == ts.drop_last()[i]);
                }
            }
        } else if forall|i: int| 0 <= i < ts.len() ==> #[trigger] ts[i].len() == 0 {
            assert forall|i: int| 0 <= i < ts.len() - 1 implies #[trigger] ts.drop_last()[i].len()
                == 0 by {
                assert(ts[i] == ts.drop_last()[i]);
            }
            assert(ts[ts.len() - 1].len() == 0);
        }
    }
}

pub proof fn lemma_slots_cards_zero(ss: Seq<Option<Card>>)
    ensures
        slots_cards(ss) == 0 <==> forall|j: int|
            0 <= j < ss.len() ==> (#[trigger] ss[j] is None || ss[j] == Some(
                Card::CollapsedDragon,
            )),
    decreases ss.len(),
{
    if ss.len() > 0 {
        lemma_slots_cards_zero(ss.drop_last());
        if slots_cards(ss) == 0 {
            assert forall|j: int| 0 <= j < ss.len() implies (#[trigger] ss[j] is None || ss[j]
                == Some(Card::CollapsedDragon)) by {
                if j < ss.len() - 1 {
                    assert(ss[j] == ss.drop_last()[j]);
                }
            }
        } else if forall|j: int|
            0 <= j < ss.len() ==> (#[trigger] ss[j] is None || ss[j] == Some(
                Card::CollapsedDragon,
            )) {
            assert forall|j: int| 0 <= j < ss.len() - 1 implies (#[trigger] ss.drop_last()[j] is None
                || ss.drop_last()[j] == Some(Card::CollapsedDragon)) by {
                assert(ss[j] == ss.drop_last()[j]);
            }
            assert(ss[ss.len() - 1] is None || ss[ss.len() - 1] == Some(Card::CollapsedDragon));
        }
    }
}

/// No cards are left to play exactly when every tray is empty and every
/// slot is empty or sealed.
pub proof fn lemma_card_count_zero(b: Board)
    ensures
        card_count(b) == 0 <==> cleared(b),
{
    lemma_trays_len_zero(b.trays);
    lemma_slots_cards_zero(b.slots);
}

/// Every well-formed state, the root and all that `transit` produces: its
/// board is in normal form with no flower, no 1 and no number safe for the
/// foundation exposed, its card count is
/// the tray cards plus the unsealed slot cards, that count is zero exactly
/// on a cleared board, and equality and hashing read the board alone.
pub proof fn lemma_state_invariants(s: State)
    requires
        s.wf(),
    ensures
        canonical(s.board()),
        forall|i: int|
            0 <= i < TRAY_COUNT && s.board().trays[i].len() > 0 ==> !always_free(
                #[trigger] s.board().trays[i].last(),
            ) && !safe_on(s.board().trays[i].last(), s.board()),
        forall|j: int|
            0 <= j < SLOT_COUNT && s.board().slots[j] is Some ==> !safe_on(
                #[trigger] s.board().slots[j]->0,
                s.board(),
            ),
        s.card_count == trays_len(s.board().trays) + slots_cards(s.board().slots),
        s.card_count == 0 <==> cleared(s.board()),
        forall|o: State| #[trigger] s.eq_spec(&o) <==> s.board() == o.board(),
{
    lemma_canonical_exposed(s.board());
    lemma_card_count_zero(s.board());
}

/// Two states with the same trays and slots are equal and hash alike,
/// whatever their action, step and priority.
pub proof fn lemma_equal_boards_hash_alike(s1: State, s2: State)
    requires
        s1.trays@.map_values(|t: Vec<Card>| t@) == s2.trays@.map_values(|t: Vec<Card>| t@),
        s1.slots == s2.slots,
    ensures
        s1.eq_spec(&s2),
        board_hash(s1.board()) == board_hash(s2.board()),
{
    assert forall|i: int| 0 <= i < TRAY_COUNT implies s1.board().trays[i] == s2.board().trays[i] by {
        assert(s1.trays@.map_values(|t: Vec<Card>| t@)[i] == s2.trays@.map_values(
            |t: Vec<Card>| t@,
        )[i]);
    }
    assert(s1.board().trays =~= s2.board().trays);
}

/// A transition depends on the state's board, step and the action alone:
/// any two results of `transit` on them agree on trays, slots, card count
/// and priority.
pub proof fn lemma_transit_pure(s: State, a: Action, r1: State, r2: State)
    requires
        r1.wf(),
        r2.wf(),
        r1.board() == successor(s.board(), a),
        r2.board() == successor(s.board(), a),
        r1.step == s.step + 1,
        r2.step == s.step + 1,
    ensures
        r1.board() == r2.board(),
        r1.card_count == r2.card_count,
        r1.priority == r2.priority,
{
}

/// A number stacks on a number of another color and the next rank; no other
/// pair of cards stacks.
pub proof fn lemma_stacking_rule(c1: Color, c2: Color, r: i8, upper: Card, lower: Card)
    requires
        r < i8::MAX,
    ensures
        stacks_on(Card::Number(c1, r), Card::Number(c2, (r + 1) as i8)) == (c1 != c2),
        !(upper is Number && lower is Number) ==> !stacks_on(upper, lower),
        (upper is Number && lower is Number && lower->Number_1 != upper->Number_1 + 1) ==> !stacks_on(upper, lower),
{
}

/// Every generated action is defined on the state's board, and applying it
/// leads to a board in normal form that is no larger and holds no more cards
/// to play, so that `transit` accepts it and yields a well-formed state.
pub proof fn lemma_generated_actions_sound(s: State, a: Action)
    requires
        s.wf(),
        primary(s.board(), a) || fallback(s.board(), a),
    ensures
        applicable(s.board(), a),
        canonical(successor(s.board(), a)),
        total(apply(s.board(), a)) <= total(s.board()),
        card_count(successor(s.board(), a)) <= s.card_count,
{
    lemma_apply_total(s.board(), a);
    lemma_apply_card_count(s.board(), a);
    lemma_normalize_card_count(apply(s.board(), a));
    lemma_normalize_canonical(apply(s.board(), a));
}

/// A collapse is generated only when all four dragons of its color are
/// exposed and a slot can take them: an empty one or one already holding
/// such a dragon.
pub proof fn lemma_collapse_legal(b: Board, col: Color)
    requires
        primary(b, Action::CollapseDragon(col)),
    ensures
        exposed_dragons(b, col) == DRAGON_COUNT,
        has_empty_slot(b) || slots_equal(b.slots, Card::Dragon(col)) > 0,
{
}

/// No generated move takes a whole tray onto an empty tray.
pub proof fn lemma_no_whole_tray_to_empty(b: Board, i: usize, k: usize, count: usize)
    requires
        primary(b, Action::Move { src: Place::Tray(i), dest: Place::Tray(k), count }),
        b.trays[k as int].len() == 0,
    ensures
        count < b.trays[i as int].len(),
{
}

} // verus!
