//! A binary min-heap of search entries, ordered by priority and then by index.
use vstd::prelude::*;
use vstd::multiset::Multiset;

verus! {

broadcast use vstd::seq_lib::group_to_multiset_ensures;

/// A frontier entry: a state's priority and its index in the search's arena.
#[derive(Clone, Copy, PartialEq, Eq, Debug, Structural)]
pub struct Entry {
    pub priority: i128,
    pub index: usize,
}

/// `a` comes out no later than `b`: lower priority first, then lower index.
pub open spec fn entry_le(a: Entry, b: Entry) -> bool {
    a.priority < b.priority || (a.priority == b.priority && a.index <= b.index)
}

pub open spec fn parent(i: int) -> int {
    (i - 1) / 2
}

pub open spec fn heap_ordered(s: Seq<Entry>) -> bool {
    forall|c: int| 0 < c < s.len() ==> entry_le(#[trigger] s[parent(c)], s[c])
}

fn entry_lt(a: Entry, b: Entry) -> (r: bool)
    ensures
        r == !entry_le(b, a),
{
    a.priority < b.priority || (a.priority == b.priority && a.index < b.index)
}

proof fn lemma_root_min(s: Seq<Entry>, k: int)
    requires
        heap_ordered(s),
        0 <= k < s.len(),
    ensures
        entry_le(s[0], s[k]),
    decreases k,
{
    if k > 0 {
        assert(entry_le(s[parent(k)], s[k]));
        lemma_root_min(s, parent(k));
    }
}

proof fn lemma_swap_multiset(s: Seq<Entry>, i: int, j: int)
    requires
        0 <= i < s.len(),
        0 <= j < s.len(),
    ensures
        s.update(i, s[j]).update(j, s[i]).to_multiset() == s.to_multiset(),
{
    broadcast use vstd::seq_lib::to_multiset_update, vstd::multiset::group_multiset_axioms;

    let s1 = s.update(i, s[j]);
    assert(s1.to_multiset() == s.to_multiset().insert(s[j]).remove(s[i]));
    assert(s1.update(j, s[i]).to_multiset() == s1.to_multiset().insert(s[i]).remove(s1[j]));
    if i == j {
        assert(s1.update(j, s[i]) =~= s);
    } else {
        assert(s1[j] == s[j]);
        assert(s1.update(j, s[i]).to_multiset() =~= s.to_multiset());
    }
}

/// The frontier: entries waiting to be expanded, least first.
pub struct Frontier {
    items: Vec<Entry>,
}

impl Frontier {
    /// The entries held, without order.
    pub closed spec fn view(&self) -> Multiset<Entry> {
        self.items@.to_multiset()
    }

    pub closed spec fn wf(&self) -> bool {
        heap_ordered(self.items@)
    }

    pub fn new() -> (r: Frontier)
        ensures
            r.wf(),
            r.view() =~= Multiset::empty(),
    {
        Frontier { items: Vec::new() }
    }

    pub fn len(&self) -> (r: usize)
        ensures
            r == self.view().len(),
    {
        self.items.len()
    }

    /// Adds an entry.
    pub fn push(&mut self, e: Entry)
        requires
            old(self).wf(),
        ensures
            final(self).wf(),
            final(self).view() == old(self).view().insert(e),
    {
        self.items.push(e);
        let ghost m = self.items@.to_multiset();
        let mut i: usize = self.items.len() - 1;
        while i > 0
            invariant
                0 <= i < self.items@.len(),
                self.items@.to_multiset() == m,
                forall|c: int|
                    0 < c < self.items@.len() && c != i ==> entry_le(
                        #[trigger] self.items@[parent(c)],
                        self.items@[c],
                    ),
                forall|c: int|
                    0 < c < self.items@.len() && parent(c) == i && i > 0 ==> entry_le(
                        self.items@[parent(i as int)],
                        #[trigger] self.items@[c],
                    ),
            ensures
                heap_ordered(self.items@),
                self.items@.to_multiset() == m,
            decreases i,
        {
            let p = (i - 1) / 2;
            if entry_lt(self.items[i], self.items[p]) {
                let ghost s = self.items@;
                let a = self.items[i];
                let b = self.items[p];
                self.items.set(i, b);
                self.items.set(p, a);
                proof {
                    lemma_swap_multiset(s, i as int, p as int);
                    assert(self.items@ == s.update(i as int, s[p as int]).update(p as int, s[i as int]));
                }
                i = p;
            } else {
                proof {
                    assert forall|c: int| 0 < c < self.items@.len() implies entry_le(
                        #[trigger] self.items@[parent(c)],
                        self.items@[c],
                    ) by {
                        if c == i {
                            assert(parent(c) == p);
                        }
                    }
                }
                break;
            }
        }
    }

    /// Takes out a least entry; none when the frontier is empty.
    pub fn pop(&mut self) -> (r: Option<Entry>)
        requires
            old(self).wf(),
        ensures
            final(self).wf(),
            old(self).view().len() == 0 <==> r is None,
            r is None ==> final(self).view() == old(self).view(),
            r is Some ==> {
                &&& old(self).view().contains(r->0)
                &&& final(self).view() == old(self).view().remove(r->0)
                &&& forall|x: Entry| #[trigger] old(self).view().contains(x) ==> entry_le(r->0, x)
            },
    {
        broadcast use vstd::seq_lib::to_multiset_remove, vstd::multiset::group_multiset_axioms;

        let n = self.items.len();
        if n == 0 {
            return None;
        }
        let ghost s0 = self.items@;
        let top = self.items[0];
        proof {
            assert forall|x: Entry| #[trigger] s0.to_multiset().contains(x) implies entry_le(top, x) by {
                assert(s0.contains(x));
                let k = choose|k: int| 0 <= k < s0.len() && s0[k] == x;
                lemma_root_min(s0, k);
            }
            assert(s0.contains(top)) by {
                assert(s0[0] == top);
            }
        }
        let last = self.items.pop().unwrap();
        if n == 1 {
            proof {
                assert(s0.remove(0) =~= self.items@);
            }
            return Some(top);
        }
        self.items.set(0, last);
        let ghost m = s0.to_multiset().remove(top);
        proof {
            let t = s0.update(0, last);
            assert(self.items@ =~= t.remove(n - 1));
            vstd::seq_lib::to_multiset_update(s0, 0, last);
            assert(t[n - 1] == last);
            assert(self.items@.to_multiset() == t.to_multiset().remove(last));
            assert(self.items@.to_multiset() =~= m);
        }
        let len = n - 1;
        let mut i: usize = 0;
        loop
            invariant
                len == self.items@.len(),
                i < len,
                self.items@.to_multiset() == m,
                forall|c: int|
                    0 < c < len && parent(c) != i ==> entry_le(
                        #[trigger] self.items@[parent(c)],
                        self.items@[c],
                    ),
                forall|c: int|
                    0 < c < len && parent(c) == i && i > 0 ==> entry_le(
                        self.items@[parent(i as int)],
                        #[trigger] self.items@[c],
                    ),
            ensures
                heap_ordered(self.items@),
                self.items@.to_multiset() == m,
            decreases len - i,
        {
            if i >= len / 2 {
                proof {
                    assert forall|c: int| 0 < c < len implies entry_le(
                        #[trigger] self.items@[parent(c)],
                        self.items@[c],
                    ) by {
                        if parent(c) == i {
                            assert(c >= 2 * i + 1);
                        }
                    }
                }
                break;
            }
            let l = 2 * i + 1;
            let r = 2 * i + 2;
            let mut smallest = i;
            if l < len && entry_lt(self.items[l], self.items[smallest]) {
                smallest = l;
            }
            if r < len && entry_lt(self.items[r], self.items[smallest]) {
                smallest = r;
            }
            if smallest == i {
                proof {
                    assert forall|c: int| 0 < c < len implies entry_le(
                        #[trigger] self.items@[parent(c)],
                        self.items@[c],
                    ) by {
                        if parent(c) == i {
                            assert(c == l || c == r);
                        }
                    }
                }
                break;
            }
            let ghost s = self.items@;
            let a = self.items[i];
            let b = self.items[smallest];
            self.items.set(i, b);
            self.items.set(smallest, a);
            proof {
                lemma_swap_multiset(s, i as int, smallest as int);
                assert(self.items@ == s.update(i as int, s[smallest as int]).update(smallest as int, s[i as int]));
                assert forall|c: int| 0 < c < len && parent(c) != smallest implies entry_le(
                    #[trigger] self.items@[parent(c)],
                    self.items@[c],
                ) by {
                    if parent(c) == i {
                        assert(c == l || c == r);
                    }
                }
            }
            i = smallest;
        }
        Some(top)
    }
}

} // verus!
