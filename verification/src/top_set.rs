//! A bounded set that keeps the greatest candidates offered to it, with the
//! least of them at hand.

use vstd::prelude::*;
use vstd::multiset::Multiset;

verus! {

/// A candidate of a search: the index `x` of a point in the first list, the
/// index `y` of its nearest neighbour in the second, and their distance `v`.
#[derive(Clone, Copy, Debug, PartialEq, Eq, Structural)]
pub struct Candidate {
    pub x: usize,
    pub y: usize,
    pub v: u64,
}

/// What became of a candidate offered to a `TopSet`.
#[derive(Clone, Copy, Debug, PartialEq, Eq, Structural)]
pub enum Offered {
    /// The set had room: the candidate was added.
    Added,
    /// The set was full and the candidate greater than its least member,
    /// which left the set and is given here.
    Replaced(Candidate),
    /// The set was full and the candidate not greater than its least member.
    Refused,
}

/// `least` is a member of `members`, and none of them has a smaller value.
pub open spec fn is_least(members: Multiset<Candidate>, least: Candidate) -> bool {
    &&& members.count(least) > 0
    &&& forall|other: Candidate| members.count(other) > 0 ==> least.v <= other.v
}

/// Every item below the root is at least as great as the item above it.
spec fn ordered(items: Seq<Candidate>) -> bool {
    forall|i: int| 0 < i < items.len() ==> (#[trigger] items[(i - 1) / 2]).v <= items[i].v
}

/// As `ordered`, except that the item at `hole` may be smaller than the one
/// above it; the items below `hole` are then at least as great as that one.
spec fn ordered_but_up(items: Seq<Candidate>, hole: int) -> bool {
    &&& forall|i: int|
        0 < i < items.len() && i != hole ==> (#[trigger] items[(i - 1) / 2]).v <= items[i].v
    &&& forall|i: int|
        0 < i < items.len() && 0 < hole && (i - 1) / 2 == hole ==> items[(hole - 1) / 2].v
            <= (#[trigger] items[i]).v
}

/// As `ordered`, except that the item at `hole` may be greater than those
/// below it; these are then at least as great as the item above `hole`.
spec fn ordered_but_down(items: Seq<Candidate>, hole: int) -> bool {
    &&& forall|i: int|
        0 < i < items.len() && (i - 1) / 2 != hole ==> (#[trigger] items[(i - 1) / 2]).v
            <= items[i].v
    &&& forall|i: int|
        0 < i < items.len() && 0 < hole && (i - 1) / 2 == hole ==> items[(hole - 1) / 2].v
            <= (#[trigger] items[i]).v
}

/// In an ordered sequence no item is smaller than the first.
proof fn lemma_root_is_least(items: Seq<Candidate>, i: int)
    requires
        ordered(items),
        0 <= i < items.len(),
    ensures
        items[0].v <= items[i].v,
    decreases i,
{
    if i > 0 {
        let up = (i - 1) / 2;
        assert(items[up].v <= items[i].v);
        lemma_root_is_least(items, up);
    }
}

/// Exchanging two items keeps the members.
proof fn lemma_exchange_keeps_members(items: Seq<Candidate>, i: int, j: int)
    requires
        0 <= i < items.len(),
        0 <= j < items.len(),
    ensures
        items.update(i, items[j]).update(j, items[i]).to_multiset() == items.to_multiset(),
{
    broadcast use vstd::seq_lib::group_to_multiset_ensures;

    let mid = items.update(i, items[j]);
    vstd::seq_lib::to_multiset_update(items, i, items[j]);
    vstd::seq_lib::to_multiset_update(mid, j, items[i]);
    assert(mid[j] == items[j]);
    assert(mid.update(j, items[i]).to_multiset() =~= items.to_multiset());
}

/// At most `capacity` candidates, of which the least can be read at once.
pub struct TopSet {
    items: Vec<Candidate>,
    limit: usize,
}

impl View for TopSet {
    type V = Multiset<Candidate>;

    closed spec fn view(&self) -> Multiset<Candidate> {
        self.items@.to_multiset()
    }
}

impl TopSet {
    /// The greatest number of members that the set holds.
    pub closed spec fn capacity(&self) -> nat {
        self.limit as nat
    }

    /// The set holds no more than its capacity, which is at least one, and
    /// its least member stands first.
    pub closed spec fn wf(&self) -> bool {
        &&& 1 <= self.limit
        &&& self.items.len() <= self.limit
        &&& ordered(self.items@)
    }

    /// An empty set for at most `capacity` members.
    pub fn new(capacity: usize) -> (set: TopSet)
        requires
            capacity >= 1,
        ensures
            set.wf(),
            set.capacity() == capacity,
            set@ == Multiset::<Candidate>::empty(),
    {
        broadcast use vstd::seq_lib::group_to_multiset_ensures;

        let set = TopSet { items: Vec::new(), limit: capacity };
        assert(set.items@ =~= Seq::<Candidate>::empty());
        set
    }

    /// The number of members.
    pub fn len(&self) -> (n: usize)
        requires
            self.wf(),
        ensures
            n == self@.len(),
            n <= self.capacity(),
    {
        broadcast use vstd::seq_lib::group_to_multiset_ensures;

        self.items.len()
    }

    /// Whether the set holds as many members as it can.
    pub fn is_full(&self) -> (full: bool)
        requires
            self.wf(),
        ensures
            full <==> self@.len() == self.capacity(),
    {
        broadcast use vstd::seq_lib::group_to_multiset_ensures;

        self.items.len() == self.limit
    }

    /// The least member, if there is any.
    pub fn peek(&self) -> (least: Option<Candidate>)
        requires
            self.wf(),
        ensures
            least is None <==> self@.len() == 0,
            least matches Some(c) ==> is_least(self@, c),
    {
        broadcast use vstd::seq_lib::group_to_multiset_ensures;

        if self.items.len() == 0 {
            None
        } else {
            let c = self.items[0];
            proof {
                self.lemma_first_is_least();
            }
            Some(c)
        }
    }

    /// The value below which nothing is admitted: that of the least member
    /// once the set is full, and zero while it has room.
    pub fn threshold(&self) -> (threshold: u64)
        requires
            self.wf(),
        ensures
            self@.len() < self.capacity() ==> threshold == 0,
            self@.len() >= self.capacity() ==> exists|least: Candidate| #[trigger]
                is_least(self@, least) && threshold == least.v,
    {
        broadcast use vstd::seq_lib::group_to_multiset_ensures;

        if self.items.len() == self.limit {
            proof {
                self.lemma_first_is_least();
            }
            self.items[0].v
        } else {
            0
        }
    }

    proof fn lemma_first_is_least(&self)
        requires
            self.wf(),
            self.items.len() > 0,
        ensures
            is_least(self@, self.items@[0]),
    {
        broadcast use vstd::seq_lib::group_to_multiset_ensures;

        let items = self.items@;
        assert(items.contains(items[0]));
        assert forall|other: Candidate| self@.count(other) > 0 implies items[0].v <= other.v by {
            assert(items.contains(other));
            let i = choose|i: int| 0 <= i < items.len() && items[i] == other;
            lemma_root_is_least(items, i);
        }
    }

    /// Moves the item at `hole` up until the item above it is not greater.
    fn sift_up(&mut self, hole: usize)
        requires
            hole < old(self).items.len(),
            ordered_but_up(old(self).items@, hole as int),
        ensures
            final(self).limit == old(self).limit,
            final(self).items.len() == old(self).items.len(),
            final(self)@ == old(self)@,
            ordered(final(self).items@),
    {
        let mut at: usize = hole;
        while at > 0
            invariant
                at < self.items.len(),
                self.limit == old(self).limit,
                self.items.len() == old(self).items.len(),
                self@ == old(self)@,
                ordered_but_up(self.items@, at as int),
            decreases at,
        {
            let up: usize = (at - 1) / 2;
            let below = self.items[at];
            let above = self.items[up];
            if above.v <= below.v {
                return ;
            }
            proof {
                lemma_exchange_keeps_members(self.items@, at as int, up as int);
            }
            let ghost before = self.items@;
            self.items.set(at, above);
            self.items.set(up, below);
            proof {
                let after = self.items@;
                assert forall|i: int| 0 < i < after.len() && i != up implies (#[trigger] after[(i
                    - 1) / 2]).v <= after[i].v by {
                    if i == at {
                    } else if (i - 1) / 2 == at {
                        assert(before[up as int].v <= before[i].v);
                    } else if (i - 1) / 2 == up {
                        assert(before[(i - 1) / 2].v <= before[i].v);
                    } else {
                        assert(before[(i - 1) / 2].v <= before[i].v);
                    }
                }
                assert forall|i: int|
                    0 < i < after.len() && 0 < up && (i - 1) / 2 == up implies after[(up - 1)
                    / 2].v <= (#[trigger] after[i]).v by {
                    assert(before[(up - 1) / 2].v <= before[up as int].v);
                    if i != at {
                        assert(before[(i - 1) / 2].v <= before[i].v);
                    }
                }
            }
            at = up;
        }
        proof {
            let items = self.items@;
            assert forall|i: int| 0 < i < items.len() implies (#[trigger] items[(i - 1) / 2]).v
                <= items[i].v by {
                assert(i != at);
            }
        }
    }

    /// Moves the item at the root down until the items below it are not smaller.
    fn sift_down(&mut self)
        requires
            old(self).items.len() > 0,
            ordered_but_down(old(self).items@, 0),
        ensures
            final(self).limit == old(self).limit,
            final(self).items.len() == old(self).items.len(),
            final(self)@ == old(self)@,
            ordered(final(self).items@),
    {
        let n: usize = self.items.len();
        let mut at: usize = 0;
        while at < n / 2
            invariant
                n == self.items.len(),
                at < n,
                self.limit == old(self).limit,
                self.items.len() == old(self).items.len(),
                self@ == old(self)@,
                ordered_but_down(self.items@, at as int),
            decreases n - at,
        {
            let left: usize = 2 * at + 1;
            let right: usize = left + 1;
            let down: usize = if right < n && self.items[right].v < self.items[left].v {
                right
            } else {
                left
            };
            let above = self.items[at];
            let below = self.items[down];
            if above.v <= below.v {
                proof {
                    let items = self.items@;
                    assert forall|i: int| 0 < i < items.len() implies (#[trigger] items[(i - 1)
                        / 2]).v <= items[i].v by {
                        if (i - 1) / 2 == at {
                            assert(i == left || i == right);
                            assert(items[down as int].v <= items[i].v);
                        }
                    }
                }
                return ;
            }
            proof {
                lemma_exchange_keeps_members(self.items@, at as int, down as int);
            }
            let ghost before = self.items@;
            self.items.set(at, below);
            self.items.set(down, above);
            proof {
                let after = self.items@;
                assert forall|i: int|
                    0 < i < after.len() && (i - 1) / 2 != down implies (#[trigger] after[(i - 1)
                    / 2]).v <= after[i].v by {
                    if (i - 1) / 2 == at {
                        assert(i == left || i == right);
                    } else if i == at {
                        assert(before[(at - 1) / 2].v <= before[down as int].v);
                    } else {
                        assert(before[(i - 1) / 2].v <= before[i].v);
                    }
                }
                assert forall|i: int|
                    0 < i < after.len() && 0 < down && (i - 1) / 2 == down implies after[(down
                    - 1) / 2].v <= (#[trigger] after[i]).v by {
                    assert(before[(i - 1) / 2].v <= before[i].v);
                }
            }
            at = down;
        }
        proof {
            let items = self.items@;
            assert forall|i: int| 0 < i < items.len() implies (#[trigger] items[(i - 1) / 2]).v
                <= items[i].v by {
                if (i - 1) / 2 == at {
                    assert(i >= 2 * at + 1);
                }
            }
        }
    }

    /// Offers a candidate to the set.
    ///
    /// While the set has room the candidate is added. Once the set is full,
    /// a candidate greater than the least member takes that member's place,
    /// and any other candidate is refused.
    pub fn offer(&mut self, c: Candidate) -> (outcome: Offered)
        requires
            old(self).wf(),
        ensures
            final(self).wf(),
            final(self).capacity() == old(self).capacity(),
            old(self)@.len() < old(self).capacity() ==> outcome == Offered::Added && final(self)@
                == old(self)@.insert(c),
            old(self)@.len() >= old(self).capacity() ==> match outcome {
                Offered::Added => false,
                Offered::Replaced(least) => is_least(old(self)@, least) && least.v < c.v
                    && final(self)@ == old(self)@.insert(c).remove(least),
                Offered::Refused => final(self)@ == old(self)@ && exists|least: Candidate|
                    is_least(old(self)@, least) && c.v <= least.v,
            },
    {
        broadcast use vstd::seq_lib::group_to_multiset_ensures;

        if self.items.len() < self.limit {
            let ghost before = self.items@;
            self.items.push(c);
            proof {
                let after = self.items@;
                let hole = after.len() - 1;
                assert(after == before.push(c));
                assert forall|i: int| 0 < i < after.len() && i != hole implies (#[trigger] after[(
                i - 1) / 2]).v <= after[i].v by {
                    assert(before[(i - 1) / 2].v <= before[i].v);
                }
            }
            self.sift_up(self.items.len() - 1);
            Offered::Added
        } else {
            let least = self.items[0];
            proof {
                self.lemma_first_is_least();
            }
            if c.v > least.v {
                let ghost before = self.items@;
                self.items.set(0, c);
                proof {
                    let after = self.items@;
                    vstd::seq_lib::to_multiset_update(before, 0, c);
                    assert forall|i: int|
                        0 < i < after.len() && (i - 1) / 2 != 0 implies (#[trigger] after[(i - 1)
                        / 2]).v <= after[i].v by {
                        assert(before[(i - 1) / 2].v <= before[i].v);
                    }
                }
                self.sift_down();
                Offered::Replaced(least)
            } else {
                Offered::Refused
            }
        }
    }
}

} // verus!
