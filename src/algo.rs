//! Best-first search over normalized states, with a visited set keyed by
//! board and back links for rebuilding the solution.
use vstd::multiset::Multiset;
use vstd::prelude::*;

use std::collections::HashMap;

use crate::board::{
    applicable, board_hash, card_count, cleared, normalize, primary, fallback, replay, replayable,
    successor, Board,
};
use crate::heap::{entry_le, Entry, Frontier};
use crate::laws::{lemma_card_count_zero, lemma_generated_actions_sound};
use crate::rule::{Action, Card, SLOT_COUNT, TRAY_COUNT};
use crate::state::{board_of, State};

verus! {

broadcast use vstd::std_specs::hash::group_hash_axioms;

/// A state of the search graph with its link to the state it came from.
pub struct Node {
    pub state: State,
    /// Index of the predecessor; none for the root.
    pub prev: Option<usize>,
    /// Index of the previous node whose board has the same hash.
    next_same_hash: Option<usize>,
}

/// What one round of the search came to.
pub enum Progress {
    /// A cleared board was reached by these actions from the root.
    Solved(Vec<Action>),
    /// The frontier ran empty: no solution.
    Exhausted,
    /// A state was expanded; the search goes on.
    Running,
}

/// The search: every state generated so far, the visited set over their
/// boards, and the frontier of states still to expand.
pub struct Search {
    nodes: Vec<Node>,
    visited: HashMap<u64, usize>,
    frontier: Frontier,
    iterations: usize,
}

spec fn node_board(nodes: Seq<Node>, i: int) -> Board {
    nodes[i].state.board()
}

/// Node `i` is the root, or the successor of an earlier node by the action
/// it records.
spec fn linked(nodes: Seq<Node>, i: int) -> bool {
    let n = nodes[i];
    &&& n.state.wf()
    &&& n.state.step <= i
    &&& (n.prev is None <==> i == 0)
    &&& n.prev is Some ==> {
        let p = n.prev->0 as int;
        &&& 0 <= p < i
        &&& n.state.action is Some
        &&& applicable(node_board(nodes, p), n.state.action->0)
        &&& n.state.board() == successor(node_board(nodes, p), n.state.action->0)
        &&& n.state.step == nodes[p].state.step + 1
    }
}

spec fn index_of(o: Option<usize>) -> int {
    match o {
        Some(c) => c as int,
        None => -1,
    }
}

/// Node `i` lies on the chain of same-hash nodes that starts at node `c`.
spec fn in_chain(nodes: Seq<Node>, c: int, i: int) -> bool
    decreases c + 1,
{
    if c < 0 || c >= nodes.len() {
        false
    } else if c == i {
        true
    } else if index_of(nodes[c].next_same_hash) < c {
        in_chain(nodes, index_of(nodes[c].next_same_hash), i)
    } else {
        false
    }
}

proof fn lemma_chain_push(nodes: Seq<Node>, x: Node, c: int, i: int)
    requires
        c < nodes.len(),
    ensures
        in_chain(nodes.push(x), c, i) == in_chain(nodes, c, i),
    decreases c + 1,
{
    if c >= 0 && c != i {
        assert(nodes.push(x)[c] == nodes[c]);
        let n = index_of(nodes[c].next_same_hash);
        if n < c {
            lemma_chain_push(nodes, x, n, i);
        }
    }
}

proof fn lemma_remove_contains(m: Multiset<Entry>, e: Entry, x: Entry)
    requires
        m.remove(e).contains(x),
    ensures
        m.contains(x),
{
    broadcast use vstd::multiset::group_multiset_axioms;

}

/// The frontier entries of nodes `lo` up to `hi`, each with its priority.
spec fn entries_from(nodes: Seq<Node>, lo: int, hi: int) -> Multiset<Entry>
    decreases hi - lo,
{
    if hi <= lo {
        Multiset::empty()
    } else {
        entries_from(nodes, lo, hi - 1).insert(
            Entry { priority: nodes[hi - 1].state.priority, index: (hi - 1) as usize },
        )
    }
}

proof fn lemma_entries_frame(n1: Seq<Node>, n2: Seq<Node>, lo: int, hi: int)
    requires
        0 <= lo,
        hi <= n1.len(),
        hi <= n2.len(),
        forall|k: int| 0 <= k < hi ==> n1[k] == n2[k],
    ensures
        entries_from(n1, lo, hi) == entries_from(n2, lo, hi),
    decreases hi - lo,
{
    if hi > lo {
        lemma_entries_frame(n1, n2, lo, hi - 1);
        assert(n1[hi - 1] == n2[hi - 1]);
    }
}

/// The actions recorded along the back links from the root to node `i`.
spec fn chain_actions(nodes: Seq<Node>, i: int) -> Seq<Action>
    decreases i,
{
    if 0 <= i < nodes.len() && nodes[i].prev is Some && nodes[i].prev->0 < i
        && nodes[i].state.action is Some {
        chain_actions(nodes, nodes[i].prev->0 as int).push(nodes[i].state.action->0)
    } else {
        seq![]
    }
}

impl Search {
    /// The entries waiting in the frontier.
    pub closed spec fn queue(&self) -> Multiset<Entry> {
        self.frontier.view()
    }

    /// The heuristic of generated state `i`.
    pub closed spec fn priority_at(&self, i: int) -> int {
        self.nodes@[i].state.priority as int
    }

    /// The frontier entries of the states generated from index `lo` on.
    pub closed spec fn entries_since(&self, lo: int) -> Multiset<Entry> {
        entries_from(self.nodes@, lo, self.generated() as int)
    }

    /// `e` waits in the frontier and no entry there comes before it.
    pub closed spec fn least_entry(&self, e: Entry) -> bool {
        &&& self.frontier.view().contains(e)
        &&& forall|x: Entry| #[trigger] self.frontier.view().contains(x) ==> entry_le(e, x)
    }

    /// The actions recorded along the back links from the root to state `i`.
    pub closed spec fn path_to(&self, i: int) -> Seq<Action> {
        chain_actions(self.nodes@, i)
    }

    /// `self` holds the states of `earlier`, unchanged, and maybe more.
    pub closed spec fn extends(&self, earlier: &Search) -> bool {
        &&& self.nodes@.len() >= earlier.nodes@.len()
        &&& forall|k: int| 0 <= k < earlier.nodes@.len() ==> self.nodes@[k] == earlier.nodes@[k]
    }

    /// The normalized board of the deal.
    pub closed spec fn root(&self) -> Board {
        self.nodes@[0].state.board()
    }

    /// Number of states generated so far.
    pub closed spec fn generated(&self) -> nat {
        self.nodes@.len()
    }

    /// Number of states expanded so far.
    pub closed spec fn expanded(&self) -> nat {
        self.iterations as nat
    }

    /// Moves from the root to generated state `i`.
    pub closed spec fn step_at(&self, i: int) -> nat {
        self.nodes@[i].state.step as nat
    }

    /// Some generated state has board `b`.
    pub closed spec fn holds_board(&self, b: Board) -> bool {
        exists|k: int| 0 <= k < self.generated() && #[trigger] self.board_at(k) == b
    }

    /// The board of generated state `i`.
    pub closed spec fn board_at(&self, i: int) -> Board {
        node_board(self.nodes@, i)
    }

    #[verifier::opaque]
    pub closed spec fn wf(&self) -> bool {
        &&& self.nodes@.len() >= 1
        &&& forall|i: int| 0 <= i < self.nodes@.len() ==> #[trigger] linked(self.nodes@, i)
        &&& forall|i: int|
            0 <= i < self.nodes@.len() ==> match (#[trigger] self.nodes@[i]).next_same_hash {
                Some(j) => j < i,
                None => true,
            }
        &&& forall|h: u64| #[trigger]
            self.visited@.contains_key(h) ==> self.visited@[h] < self.nodes@.len()
        &&& forall|i: int|
            0 <= i < self.nodes@.len() ==> {
                let h = board_hash(#[trigger] node_board(self.nodes@, i));
                &&& self.visited@.contains_key(h)
                &&& in_chain(self.nodes@, self.visited@[h] as int, i)
            }
        &&& self.frontier.wf()
        &&& forall|e: Entry| #[trigger] self.frontier.view().contains(e) ==> e.index < self.nodes@.len()
    }

    /// Starts a search from a deal: the root is the deal after
    /// auto-foundation, visited and waiting to be expanded.
    pub fn new(trays: &[Vec<Card>; TRAY_COUNT], slots: &[Option<Card>; SLOT_COUNT]) -> (r: Search)
        requires
            crate::board::total(board_of(*trays, *slots)) <= usize::MAX,
        ensures
            r.wf(),
            r.root() == normalize(board_of(*trays, *slots)),
            r.generated() == 1,
            r.expanded() == 0,
            r.pending() == 1,
            r.queue() == Multiset::<Entry>::empty().insert(
                Entry { priority: r.priority_at(0) as i128, index: 0 },
            ),
    {
        reveal(Search::wf);
        let root = State::with_trays_and_slots(trays, slots);
        let h = root.board_hash();
        let priority = root.priority;
        let mut nodes: Vec<Node> = Vec::new();
        nodes.push(Node { state: root, prev: None, next_same_hash: None });
        let mut visited: HashMap<u64, usize> = HashMap::new();
        visited.insert(h, 0);
        let mut frontier = Frontier::new();
        frontier.push(Entry { priority, index: 0 });
        let r = Search { nodes, visited, frontier, iterations: 0 };
        assert(r.queue() =~= Multiset::<Entry>::empty().insert(Entry { priority, index: 0 }));
        proof {
            broadcast use vstd::multiset::group_multiset_axioms;

        }
        assert(linked(r.nodes@, 0));
        assert(in_chain(r.nodes@, 0, 0));
        r
    }

    /// Number of states generated so far.
    pub fn generated_count(&self) -> (r: usize)
        ensures
            r == self.generated(),
    {
        self.nodes.len()
    }

    /// Number of states waiting in the frontier.
    pub fn pending_count(&self) -> (r: usize)
        ensures
            r == self.pending(),
    {
        self.frontier.len()
    }

    /// Number of states expanded so far.
    pub fn iterations(&self) -> (r: usize)
        ensures
            r == self.expanded(),
    {
        self.iterations
    }

    /// Adds `state`, reached from node `prev`, and queues it in the frontier
    /// with its priority, unless a generated state already has the same board. Returns whether it was added; a state is
    /// turned away only for an equal board or when no index is left for it.
    pub fn visit(&mut self, state: State, prev: usize) -> (added: bool)
        requires
            old(self).wf(),
            prev < old(self).generated(),
            state.wf(),
            state.action is Some,
            applicable(old(self).board_at(prev as int), state.action->0),
            state.board() == successor(old(self).board_at(prev as int), state.action->0),
            state.step == old(self).step_at(prev as int) + 1,
        ensures
            final(self).wf(),
            final(self).root() == old(self).root(),
            final(self).expanded() == old(self).expanded(),
            added ==> final(self).generated() == old(self).generated() + 1 && final(self).board_at(
                old(self).generated() as int,
            ) == state.board(),
            !added ==> final(self).generated() == old(self).generated(),
            added <==> old(self).generated() < usize::MAX && !old(self).holds_board(state.board()),
            forall|k: int| 0 <= k < old(self).generated() ==> final(self).board_at(k) == old(self).board_at(k),
            final(self).extends(old(self)),
            added ==> final(self).priority_at(old(self).generated() as int) == state.priority,
            added ==> final(self).queue() == old(self).queue().insert(
                Entry { priority: state.priority, index: old(self).generated() as usize },
            ),
            !added ==> final(self).queue() == old(self).queue() && *final(self) == *old(self),
    {
        reveal(Search::wf);
        let h = state.board_hash();
        let head: Option<usize> = match self.visited.get(&h) {
            Some(i) => Some(*i),
            None => None,
        };
        let mut cur = head;
        proof {
            assert forall|k: int| 0 <= k < self.nodes@.len() && #[trigger] node_board(self.nodes@, k) == state.board()
                implies in_chain(self.nodes@, index_of(cur), k) by {
                assert(board_hash(node_board(self.nodes@, k)) == h);
            }
        }
        while cur.is_some()
            invariant
                self.wf(),
                self == old(self),
                cur matches Some(c) ==> c < self.nodes@.len(),
                forall|k: int|
                    0 <= k < self.nodes@.len() && #[trigger] node_board(self.nodes@, k) == state.board()
                        ==> in_chain(self.nodes@, index_of(cur), k),
            decreases match cur {
                Some(c) => c + 1,
                None => 0,
            },
        {
            reveal(Search::wf);
            let c = cur.unwrap();
            if self.nodes[c].state.same_board(&state) {
                assert(old(self).board_at(c as int) == state.board());
                return false;
            }
            proof {
                assert forall|k: int| 0 <= k < self.nodes@.len() && #[trigger] node_board(self.nodes@, k) == state.board()
                    implies in_chain(self.nodes@, index_of(self.nodes@[c as int].next_same_hash), k) by {
                    assert(in_chain(self.nodes@, c as int, k));
                    assert(k != c);
                }
            }
            cur = self.nodes[c].next_same_hash;
        }
        assert(!old(self).holds_board(state.board())) by {
            if old(self).holds_board(state.board()) {
                let k = choose|k: int| 0 <= k < old(self).generated() && #[trigger] old(self).board_at(k) == state.board();
                assert(node_board(self.nodes@, k) == state.board());
            }
        }
        if self.nodes.len() == usize::MAX {
            return false;
        }
        let index = self.nodes.len();
        let priority = state.priority;
        let ghost old_nodes = self.nodes@;
        let ghost old_visited = self.visited@;
        let ghost new_board = state.board();
        let node = Node { state, prev: Some(prev), next_same_hash: head };
        self.nodes.push(node);
        self.visited.insert(h, index);
        self.frontier.push(Entry { priority, index });
        proof {
            assert forall|i: int| 0 <= i < self.nodes@.len() implies #[trigger] linked(self.nodes@, i) by {
                if i < index {
                    assert(self.nodes@[i] == old_nodes[i]);
                    assert(linked(old_nodes, i));
                    if old_nodes[i].prev is Some {
                        assert(self.nodes@[old_nodes[i].prev->0 as int] == old_nodes[old_nodes[i].prev->0 as int]);
                    }
                } else {
                    assert(self.nodes@[prev as int] == old_nodes[prev as int]);
                    assert(linked(old_nodes, prev as int));
                }
            }
            assert forall|i: int| 0 <= i < self.nodes@.len() implies match (#[trigger] self.nodes@[i]).next_same_hash {
                Some(j) => j < i,
                None => true,
            } by {
                if i < index {
                    assert(self.nodes@[i] == old_nodes[i]);
                }
            }
            assert forall|e: Entry| #[trigger] self.frontier.view().contains(e) implies e.index < self.nodes@.len() by {
                if e != (Entry { priority, index }) {
                    assert(old(self).frontier.view().contains(e));
                }
            }
            assert forall|k: int| 0 <= k < old(self).generated() implies self.board_at(k) == old(self).board_at(k) by {
                assert(self.nodes@[k] == old_nodes[k]);
            }
            assert(self.nodes@[0] == old_nodes[0]);
            assert forall|i: int| 0 <= i < self.nodes@.len() implies {
                let hi = board_hash(#[trigger] node_board(self.nodes@, i));
                &&& self.visited@.contains_key(hi)
                &&& in_chain(self.nodes@, self.visited@[hi] as int, i)
            } by {
                let hi = board_hash(node_board(self.nodes@, i));
                if i < index {
                    assert(self.nodes@[i] == old_nodes[i]);
                    assert(node_board(old_nodes, i) == node_board(self.nodes@, i));
                    let hh = board_hash(node_board(old_nodes, i));
                    assert(old_visited.contains_key(hh));
                    if hi == h {
                        lemma_chain_push(old_nodes, node, index_of(head), i);
                        assert(self.nodes@[index as int] == node);
                        assert(in_chain(self.nodes@, index as int, i));
                    } else {
                        lemma_chain_push(old_nodes, node, old_visited[hi] as int, i);
                    }
                } else {
                    assert(node_board(self.nodes@, i) == new_board);
                }
            }
        }
        true
    }

    /// Number of states waiting in the frontier.
    pub closed spec fn pending(&self) -> nat {
        self.frontier.view().len()
    }

    /// Every primary successor of `b` is among the generated boards.
    pub open spec fn primary_known(&self, b: Board) -> bool {
        forall|a: Action| #[trigger] primary(b, a) ==> self.holds_board(successor(b, a))
    }

    /// Every fallback successor of `b` is among the generated boards.
    pub open spec fn fallback_known(&self, b: Board) -> bool {
        forall|a: Action| #[trigger] fallback(b, a) ==> self.holds_board(successor(b, a))
    }

    proof fn lemma_node_wf(&self, i: int)
        requires
            self.wf(),
            0 <= i < self.generated(),
        ensures
            self.nodes@[i].state.wf(),
            self.board_at(i) == self.nodes@[i].state.board(),
    {
        reveal(Search::wf);
        assert(linked(self.nodes@, i));
    }

    proof fn lemma_holds_kept(&self, other: &Search, b: Board)
        requires
            self.generated() <= other.generated(),
            forall|k: int| 0 <= k < self.generated() ==> other.board_at(k) == self.board_at(k),
            self.holds_board(b),
        ensures
            other.holds_board(b),
    {
        let k = choose|k: int| 0 <= k < self.generated() && #[trigger] self.board_at(k) == b;
        assert(other.board_at(k) == b);
    }

    /// Generates the successors of node `idx` by `actions` and visits each;
    /// returns how many were new. None is new when all were generated
    /// before, and only then, unless no index is left.
    fn expand(&mut self, idx: usize, actions: &Vec<Action>) -> (added: usize)
        requires
            old(self).wf(),
            idx < old(self).generated(),
            forall|a: Action|
                #[trigger] actions@.contains(a) ==> primary(old(self).board_at(idx as int), a)
                    || fallback(old(self).board_at(idx as int), a),
        ensures
            final(self).wf(),
            final(self).root() == old(self).root(),
            final(self).expanded() == old(self).expanded(),
            final(self).generated() == old(self).generated() + added,
            forall|k: int| 0 <= k < old(self).generated() ==> final(self).board_at(k) == old(self).board_at(k),
            final(self).generated() < usize::MAX ==> forall|a: Action|
                #[trigger] actions@.contains(a) ==> final(self).holds_board(
                    successor(old(self).board_at(idx as int), a),
                ),
            (forall|a: Action|
                #[trigger] actions@.contains(a) ==> old(self).holds_board(
                    successor(old(self).board_at(idx as int), a),
                )) ==> added == 0,
            added == 0 && old(self).generated() < usize::MAX ==> forall|a: Action|
                #[trigger] actions@.contains(a) ==> old(self).holds_board(
                    successor(old(self).board_at(idx as int), a),
                ),
            final(self).extends(old(self)),
            final(self).queue() == old(self).queue().add(final(self).entries_since(old(self).generated() as int)),
            forall|k: int|
                #![trigger final(self).board_at(k)]
                old(self).generated() <= k < final(self).generated() ==> exists|a: Action|
                    #[trigger] actions@.contains(a) && final(self).board_at(k) == successor(
                        old(self).board_at(idx as int),
                        a,
                    ),
            old(self).generated() >= usize::MAX ==> added == 0,
    {
        reveal(Search::wf);
        let ghost b = self.board_at(idx as int);
        let ghost start = *self;
        let mut added: usize = 0;
        assert(self.queue() =~= old(self).queue().add(entries_from(self.nodes@, self.generated() as int, self.generated() as int))) by {
            broadcast use vstd::multiset::group_multiset_axioms;

        }
        for m in 0..actions.len()
            invariant
                self.wf(),
                start == *old(self),
                idx < old(self).generated() <= self.generated(),
                b == old(self).board_at(idx as int),
                self.root() == old(self).root(),
                self.expanded() == old(self).expanded(),
                self.generated() == old(self).generated() + added,
                forall|k: int| 0 <= k < old(self).generated() ==> self.board_at(k) == old(self).board_at(k),
                forall|a: Action|
                    #[trigger] actions@.contains(a) ==> primary(b, a) || fallback(b, a),
                self.generated() < usize::MAX ==> forall|q: int|
                    0 <= q < m ==> self.holds_board(successor(b, #[trigger] actions@[q])),
                (forall|a: Action| #[trigger] actions@.contains(a) ==> old(self).holds_board(successor(b, a)))
                    ==> added == 0,
                added == 0 && old(self).generated() < usize::MAX ==> forall|q: int|
                    0 <= q < m ==> old(self).holds_board(successor(b, #[trigger] actions@[q])),
                self.extends(old(self)),
                self.queue() == old(self).queue().add(entries_from(self.nodes@, old(self).generated() as int, self.generated() as int)),
                forall|k: int|
                    old(self).generated() <= k < self.generated() ==> exists|q: int|
                        0 <= q < m && #[trigger] self.board_at(k) == successor(b, actions@[q]),
                old(self).generated() >= usize::MAX ==> added == 0,
        {
            reveal(Search::wf);
            let a = actions[m];
            assert(actions@.contains(a)) by {
                assert(actions@[m as int] == a);
            }
            assert(linked(self.nodes@, idx as int));
            proof {
                lemma_generated_actions_sound(self.nodes@[idx as int].state, a);
            }
            let generated = self.nodes.len();
            let next = self.nodes[idx].state.transit(a);
            let ghost before = *self;
            let ghost np = next.priority;
            let is_new = self.visit(next, idx);
            proof {
                let lo = old(self).generated() as int;
                if is_new {
                    broadcast use vstd::multiset::group_multiset_axioms;

                    let e = Entry { priority: np, index: before.generated() as usize };
                    lemma_entries_frame(self.nodes@, before.nodes@, lo, before.generated() as int);
                    assert(self.nodes@[before.generated() as int].state.priority == np);
                    assert(entries_from(self.nodes@, lo, self.generated() as int) == entries_from(
                        before.nodes@,
                        lo,
                        before.generated() as int,
                    ).insert(e));
                    assert(self.queue() =~= old(self).queue().add(
                        entries_from(self.nodes@, lo, self.generated() as int),
                    ));
                }
                assert forall|k: int| lo <= k < self.generated() implies exists|q: int|
                    0 <= q < m + 1 && #[trigger] self.board_at(k) == successor(b, actions@[q]) by {
                    if k < before.generated() {
                        let q = choose|q: int| 0 <= q < m && #[trigger] before.board_at(k) == successor(b, actions@[q]);
                        assert(self.board_at(k) == before.board_at(k));
                        assert(0 <= q < m + 1 && self.board_at(k) == successor(b, actions@[q]));
                    } else {
                        assert(self.board_at(k) == successor(b, actions@[m as int]));
                    }
                }
                assert(self.extends(old(self)));
                if self.generated() < usize::MAX {
                    assert forall|q: int| 0 <= q < m + 1 implies self.holds_board(successor(b, #[trigger] actions@[q])) by {
                        if q < m {
                            before.lemma_holds_kept(self, successor(b, actions@[q]));
                        } else if is_new {
                            assert(self.board_at(before.generated() as int) == successor(b, a));
                        } else {
                            before.lemma_holds_kept(self, successor(b, a));
                        }
                    }
                }
                if added == 0 && !is_new && old(self).generated() < usize::MAX {
                    assert(before.holds_board(successor(b, a)));
                    let k = choose|k: int| 0 <= k < before.generated() && #[trigger] before.board_at(k) == successor(b, a);
                    assert(old(self).board_at(k) == successor(b, a));
                    assert forall|q: int| 0 <= q < m + 1 implies old(self).holds_board(successor(b, #[trigger] actions@[q])) by {
                        if q == m {
                            assert(old(self).board_at(k) == successor(b, a));
                        }
                    }
                }
                if added == 0 && (forall|a2: Action| #[trigger] actions@.contains(a2) ==> old(self).holds_board(successor(b, a2))) {
                    old(self).lemma_holds_kept(&before, successor(b, a));
                }
            }
            if is_new {
                added = added + 1;
            }
        }
        proof {
            assert forall|k: int|
                #![trigger self.board_at(k)]
                old(self).generated() <= k < self.generated() implies exists|a: Action|
                #[trigger] actions@.contains(a) && self.board_at(k) == successor(b, a) by {
                let q = choose|q: int| 0 <= q < actions@.len() && #[trigger] self.board_at(k) == successor(b, actions@[q]);
                assert(actions@.contains(actions@[q]));
            }
            if self.generated() < usize::MAX {
                assert forall|a: Action| #[trigger] actions@.contains(a) implies self.holds_board(successor(b, a)) by {
                    let q = choose|q: int| 0 <= q < actions@.len() && actions@[q] == a;
                }
            }
            if added == 0 && old(self).generated() < usize::MAX {
                assert forall|a: Action| #[trigger] actions@.contains(a) implies old(self).holds_board(successor(b, a)) by {
                    let q = choose|q: int| 0 <= q < actions@.len() && actions@[q] == a;
                }
            }
        }
        added
    }

    /// The actions that lead from the root to node `idx`.
    fn solution(&self, idx: usize) -> (r: Vec<Action>)
        requires
            self.wf(),
            idx < self.generated(),
        ensures
            replayable(self.root(), r@),
            replay(self.root(), r@) == self.board_at(idx as int),
            r@ == self.path_to(idx as int),
            r@.len() == self.step_at(idx as int),
    {
        reveal(Search::wf);
        let mut acts: Vec<Action> = Vec::new();
        let mut cur: usize = idx;
        assert(self.path_to(idx as int) =~= self.path_to(idx as int) + acts@);
        loop
            invariant
                self.wf(),
                cur < self.generated(),
                idx < self.generated(),
                replayable(self.board_at(cur as int), acts@),
                replay(self.board_at(cur as int), acts@) == self.board_at(idx as int),
                self.path_to(idx as int) == self.path_to(cur as int) + acts@,
                self.step_at(idx as int) == self.step_at(cur as int) + acts@.len(),
            ensures
                cur == 0,
                replayable(self.board_at(0), acts@),
                replay(self.board_at(0), acts@) == self.board_at(idx as int),
                self.path_to(idx as int) == acts@,
                self.step_at(idx as int) == acts@.len(),
            decreases cur,
        {
            reveal(Search::wf);
            assert(linked(self.nodes@, cur as int));
            match self.nodes[cur].prev {
                None => {
                    assert(self.path_to(cur as int) =~= Seq::<Action>::empty());
                    assert(self.path_to(idx as int) =~= acts@);
                    break;
                },
                Some(p) => {
                    let a = self.nodes[cur].state.action.unwrap();
                    let ghost old_acts = acts@;
                    acts.insert(0, a);
                    assert(acts@.drop_first() =~= old_acts);
                    assert(acts@[0] == a);
                    assert(self.path_to(cur as int) == self.path_to(p as int).push(a));
                    assert(self.path_to(idx as int) =~= self.path_to(p as int) + acts@);
                    cur = p;
                },
            }
        }
        acts
    }

    /// Visits the successors of node `idx` by the primary actions, or by the
    /// fallback ones when no primary successor is new.
    fn expand_node(&mut self, idx: usize)
        requires
            old(self).wf(),
            idx < old(self).generated(),
        ensures
            final(self).wf(),
            final(self).root() == old(self).root(),
            final(self).expanded() == old(self).expanded(),
            final(self).generated() >= old(self).generated(),
            final(self).generated() < usize::MAX ==> final(self).primary_known(old(self).board_at(idx as int)),
            old(self).primary_known(old(self).board_at(idx as int)) && final(self).generated() < usize::MAX
                ==> final(self).fallback_known(old(self).board_at(idx as int)),
            final(self).extends(old(self)),
            final(self).queue() == old(self).queue().add(final(self).entries_since(old(self).generated() as int)),
            !old(self).primary_known(old(self).board_at(idx as int)) ==> forall|k: int|
                #![trigger final(self).board_at(k)]
                old(self).generated() <= k < final(self).generated() ==> exists|a: Action|
                    #[trigger] primary(old(self).board_at(idx as int), a) && final(self).board_at(k)
                        == successor(old(self).board_at(idx as int), a),
    {
        proof {
            self.lemma_node_wf(idx as int);
        }
        let ghost b = self.board_at(idx as int);
        let primary_actions = self.nodes[idx].state.valid_actions();
        let ghost popped = *self;
        let added = self.expand(idx, &primary_actions);
        let ghost mid = *self;
        proof {
            assert(b == popped.board_at(idx as int));
            if old(self).primary_known(b) {
                assert forall|a: Action| #[trigger] primary_actions@.contains(a) implies popped.holds_board(successor(b, a)) by {
                    assert(primary(b, a));
                }
            }
        }
        if added == 0 {
            assert(self.queue() =~= old(self).queue()) by {
                broadcast use vstd::multiset::group_multiset_axioms;

                assert(self.entries_since(old(self).generated() as int) =~= Multiset::empty());
            }
            proof {
                self.lemma_node_wf(idx as int);
            }
            let fallback_actions = self.nodes[idx].state.valid_slot_actions();
            let added2 = self.expand(idx, &fallback_actions);
            proof {
                if !old(self).primary_known(b) {
                    if old(self).generated() < usize::MAX {
                        assert forall|a: Action| #[trigger] primary(b, a) implies old(self).holds_board(successor(b, a)) by {
                            assert(primary_actions@.contains(a));
                        }
                        assert(old(self).primary_known(b));
                    } else {
                        assert(mid.generated() >= usize::MAX);
                        assert(added2 == 0);
                    }
                    assert(self.generated() == old(self).generated());
                }
                assert(self.extends(old(self)));
                if self.generated() < usize::MAX {
                    assert forall|a: Action| #[trigger] fallback(b, a) implies self.holds_board(successor(b, a)) by {
                        assert(fallback_actions@.contains(a));
                    }
                }
            }
        }
        proof {
            if self.generated() < usize::MAX {
                assert forall|a: Action| #[trigger] primary(b, a) implies self.holds_board(successor(b, a)) by {
                    assert(primary_actions@.contains(a));
                    mid.lemma_holds_kept(self, successor(b, a));
                }
            }
            if added > 0 {
                assert forall|k: int|
                    #![trigger self.board_at(k)]
                    old(self).generated() <= k < self.generated() implies exists|a: Action|
                        #[trigger] primary(b, a) && self.board_at(k) == successor(b, a) by {
                    let a = choose|a: Action| #[trigger] primary_actions@.contains(a) && mid.board_at(k) == successor(b, a);
                    assert(primary(b, a));
                }
            }
        }
    }

    /// One round of the search: takes a least entry from the frontier; if
    /// its board is cleared, returns the actions recorded from the root to
    /// it; otherwise visits its successors by the primary actions, or by the
    /// fallback ones when no primary successor is new, and queues each new
    /// state.
    pub fn step(&mut self) -> (r: Progress)
        requires
            old(self).wf(),
        ensures
            final(self).wf(),
            final(self).root() == old(self).root(),
            final(self).extends(old(self)),
            r is Exhausted <==> old(self).pending() == 0,
            r is Exhausted ==> final(self).queue() == old(self).queue(),
            r matches Progress::Solved(acts) ==> replayable(old(self).root(), acts@) && card_count(
                replay(old(self).root(), acts@),
            ) == 0 && cleared(replay(old(self).root(), acts@)),
            r is Running ==> final(self).expanded() == if old(self).expanded() < usize::MAX {
                old(self).expanded() + 1
            } else {
                old(self).expanded()
            },
            !(r is Exhausted) ==> exists|e: Entry|
                #[trigger] old(self).least_entry(e) && e.index < old(self).generated() && ({
                    let b = old(self).board_at(e.index as int);
                    &&& (r is Solved <==> card_count(b) == 0)
                    &&& r matches Progress::Solved(acts) ==> {
                        &&& acts@ == old(self).path_to(e.index as int)
                        &&& acts@.len() == old(self).step_at(e.index as int)
                        &&& final(self).queue() == old(self).queue().remove(e)
                        &&& final(self).generated() == old(self).generated()
                    }
                    &&& r is Running ==> final(self).queue() == old(self).queue().remove(e).add(
                        final(self).entries_since(old(self).generated() as int),
                    )
                    &&& r is Running && final(self).generated() < usize::MAX
                        ==> final(self).primary_known(b)
                    &&& r is Running && old(self).primary_known(b) && final(self).generated()
                        < usize::MAX ==> final(self).fallback_known(b)
                    &&& r is Running && !old(self).primary_known(b) ==> forall|k: int|
                        #![trigger final(self).board_at(k)]
                        old(self).generated() <= k < final(self).generated() ==> exists|a: Action|
                            #[trigger] primary(b, a) && final(self).board_at(k) == successor(b, a)
                }),
    {
        match self.take_least() {
            None => Progress::Exhausted,
            Some(e) => {
                let idx = e.index;
                let ghost b = old(self).board_at(idx as int);
                if self.is_goal(idx) {
                    let acts = self.solution(idx);
                    proof {
                        lemma_card_count_zero(self.board_at(idx as int));
                        assert(old(self).least_entry(e));
                        assert(self.path_to(idx as int) == old(self).path_to(idx as int));
                        assert(self.step_at(idx as int) == old(self).step_at(idx as int));
                        assert(self.board_at(idx as int) == b);
                    }
                    return Progress::Solved(acts);
                }
                let ghost popped = *self;
                proof {
                    assert forall|c: Board| #[trigger] old(self).holds_board(c) == popped.holds_board(c) by {
                        if old(self).holds_board(c) {
                            old(self).lemma_holds_kept(&popped, c);
                        }
                        if popped.holds_board(c) {
                            popped.lemma_holds_kept(old(self), c);
                        }
                    }
                    assert(old(self).primary_known(b) == popped.primary_known(b));
                }
                self.expand_node(idx);
                let ghost expanded = *self;
                self.count_iteration();
                proof {
                    assert(expanded.generated() == self.generated());
                    assert forall|c: Board| expanded.holds_board(c) implies self.holds_board(c) by {
                        expanded.lemma_holds_kept(self, c);
                    }
                    assert(self.generated() < usize::MAX ==> self.primary_known(b));
                    assert(old(self).primary_known(b) && self.generated() < usize::MAX ==> self.fallback_known(b));
                    assert(self.queue() == old(self).queue().remove(e).add(
                        self.entries_since(old(self).generated() as int),
                    ));
                    assert(old(self).least_entry(e));
                    assert(popped.board_at(idx as int) == b);
                    if !old(self).primary_known(b) {
                        assert forall|k: int|
                            #![trigger self.board_at(k)]
                            old(self).generated() <= k < self.generated() implies exists|a: Action|
                                #[trigger] primary(b, a) && self.board_at(k) == successor(b, a) by {
                            assert(self.board_at(k) == expanded.board_at(k));
                        }
                    }
                }
                Progress::Running
            }
        }
    }

    /// Whether generated state `idx` has no cards left to play.
    fn is_goal(&self, idx: usize) -> (r: bool)
        requires
            self.wf(),
            idx < self.generated(),
        ensures
            r == (card_count(self.board_at(idx as int)) == 0),
    {
        reveal(Search::wf);
        assert(linked(self.nodes@, idx as int));
        self.nodes[idx].state.card_count == 0
    }

    fn count_iteration(&mut self)
        requires
            old(self).wf(),
        ensures
            final(self).wf(),
            final(self).nodes == old(self).nodes,
            final(self).frontier == old(self).frontier,
            final(self).expanded() == if old(self).expanded() < usize::MAX {
                old(self).expanded() + 1
            } else {
                old(self).expanded()
            },
    {
        reveal(Search::wf);
        if self.iterations < usize::MAX {
            self.iterations = self.iterations + 1;
        }
    }

    /// Takes a least entry out of the frontier; none when it is empty.
    fn take_least(&mut self) -> (r: Option<Entry>)
        requires
            old(self).wf(),
        ensures
            final(self).wf(),
            final(self).nodes == old(self).nodes,
            final(self).iterations == old(self).iterations,
            r is None <==> old(self).pending() == 0,
            r is None ==> final(self).queue() == old(self).queue(),
            r matches Some(e) ==> e.index < old(self).generated() && old(self).least_entry(e)
                && final(self).queue() == old(self).queue().remove(e),
    {
        reveal(Search::wf);
        match self.frontier.pop() {
            None => None,
            Some(e) => {
                assert(old(self).frontier.view().contains(e));
                proof {
                    assert forall|x: Entry| #[trigger] self.frontier.view().contains(x) implies x.index
                        < self.nodes@.len() by {
                        lemma_remove_contains(old(self).frontier.view(), e, x);
                    }
                }
                Some(e)
            }
        }
    }
}

} // verus!
