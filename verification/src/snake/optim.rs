//! A snake held in a ring of fixed size.
use crate::requests::Point;
use crate::snake::{advanced, body_blocks, retreated};
use vstd::prelude::*;

verus! {

/// The slot that holds the segment at place `i` behind the front slot, in a
/// ring of `len` slots.
pub open spec fn ring_slot(front: int, i: int, len: int) -> int {
    if front + i < len {
        front + i
    } else {
        front + i - len
    }
}

/// A snake whose segments live in a ring of slots. Advancing the head
/// overwrites the slot of the tail, so nothing moves and nothing is
/// allocated.
#[derive(Debug)]
pub struct Snake {
    is_first: bool,
    head_index: usize,
    body: Vec<Point>,
}

impl View for Snake {
    type V = Seq<Point>;

    /// The segments from head to tail.
    closed spec fn view(&self) -> Seq<Point> {
        Seq::new(
            self.body@.len(),
            |i: int| self.body@[ring_slot(self.front(), i, self.body@.len() as int)],
        )
    }
}

impl From<Vec<Point>> for Snake {
    /// A snake whose segments are those of `value`, head first.
    fn from(value: Vec<Point>) -> (snake: Snake)
        ensures
            snake@ == value@,
            snake.slots() == value@,
            snake.front() == 0,
            !snake.has_advanced(),
            snake.wf() <==> value@.len() > 0,
    {
        let last = if value.len() == 0 {
            0
        } else {
            value.len() - 1
        };
        let snake = Snake { is_first: true, head_index: last, body: value };
        proof {
            assert(snake@ =~= value@);
        }
        snake
    }
}

impl vstd::std_specs::convert::FromSpecImpl<Vec<Point>> for Snake {
    open spec fn obeys_from_spec() -> bool {
        true
    }

    closed spec fn from_spec(v: Vec<Point>) -> Self {
        Snake {
            is_first: true,
            head_index: if v@.len() == 0 {
                0
            } else {
                (v@.len() - 1) as usize
            },
            body: v,
        }
    }
}

impl Snake {
    /// The slots of the ring, in the order in which they are stored.
    pub closed spec fn slots(&self) -> Seq<Point> {
        self.body@
    }

    /// The slot that holds the head.
    pub closed spec fn front(&self) -> int {
        if self.is_first {
            0
        } else {
            self.head_index as int
        }
    }

    /// Whether the head has advanced at least once since the snake was made.
    pub closed spec fn has_advanced(&self) -> bool {
        !self.is_first
    }

    /// The ring holds at least one segment and the head is one of its slots;
    /// until the first advance the head pointer rests on the last slot, the
    /// one that the first advance writes.
    pub closed spec fn wf(&self) -> bool {
        &&& self.body@.len() > 0
        &&& self.head_index < self.body@.len()
        &&& self.is_first ==> self.head_index == self.body@.len() - 1
    }

    /// How the segments lie in the ring: the head in the front slot, each
    /// further segment one slot on, round the end of the ring.
    pub proof fn lemma_view_of_slots(&self)
        requires
            self.wf(),
        ensures
            self@.len() == self.slots().len(),
            self@.len() > 0,
            0 <= self.front() < self.slots().len(),
            forall|i: int|
                0 <= i < self@.len() ==> self@[i] == self.slots()[ring_slot(
                    self.front(),
                    i,
                    self.slots().len() as int,
                )],
    {
    }

    /// Moves the head onto `p` and returns the segment that fell off the end.
    pub fn push_head(&mut self, p: Point) -> (evicted: Point)
        requires
            old(self).wf(),
        ensures
            final(self).wf(),
            final(self).has_advanced(),
            final(self)@ == advanced(old(self)@, p),
            evicted == old(self)@.last(),
            final(self).front() == ring_slot(
                old(self).front(),
                old(self).slots().len() - 1,
                old(self).slots().len() as int,
            ),
            final(self).slots() == old(self).slots().update(final(self).front(), p),
    {
        if !self.is_first {
            self.head_index = self.head_index.checked_sub(1).unwrap_or(self.body.len() - 1);
        }
        self.is_first = false;
        let evicted = self.body[self.head_index];
        self.body[self.head_index] = p;
        proof {
            assert(final(self)@ =~= advanced(old(self)@, p));
        }
        evicted
    }

    /// Takes the head back by one square and puts `p` at the end: the
    /// inverse of the last `push_head`, given what that call returned.
    pub fn pop_head(&mut self, p: Point)
        requires
            old(self).wf(),
            old(self).has_advanced(),
        ensures
            final(self).wf(),
            final(self).has_advanced(),
            final(self)@ == retreated(old(self)@, p),
            final(self).front() == ring_slot(
                old(self).front(),
                1,
                old(self).slots().len() as int,
            ),
            final(self).slots() == old(self).slots().update(old(self).front(), p),
    {
        let len = self.body.len();
        self.body[self.head_index] = p;
        self.head_index = (self.head_index + 1) % len;
        proof {
            let h = old(self).head_index as int;
            if h + 1 < len {
                vstd::arithmetic::div_mod::lemma_small_mod((h + 1) as nat, len as nat);
            } else {
                vstd::arithmetic::div_mod::lemma_mod_self_0(len as int);
            }
            assert(final(self)@ =~= retreated(old(self)@, p));
        }
    }

    /// The square of the head.
    pub fn get_head(&self) -> (head: Point)
        requires
            self.wf(),
        ensures
            head == self@[0],
    {
        if self.is_first {
            self.body[0]
        } else {
            self.body[self.head_index]
        }
    }

    /// Whether stepping onto `p` runs into this snake: whether `p` is one of
    /// its segments other than the tail.
    pub fn collides_with(&self, p: Point) -> (hit: bool)
        requires
            self.wf(),
        ensures
            hit == body_blocks(self@, p),
    {
        let len = self.body.len();
        let tail_index = if self.is_first {
            self.head_index
        } else {
            self.head_index.checked_sub(1).unwrap_or(len - 1)
        };
        let ghost front = self.front();
        assert(tail_index == ring_slot(front, len - 1, len as int));
        let mut index: usize = 0;
        while index < len
            invariant
                self.wf(),
                len == self.body@.len(),
                front == self.front(),
                index <= len,
                tail_index == ring_slot(front, len - 1, len as int),
                forall|j: int| 0 <= j < index && j != tail_index ==> self.body@[j] != p,
            decreases len - index,
        {
            if index != tail_index && p == self.body[index] {
                proof {
                    let i = if index >= front {
                        index - front
                    } else {
                        index - front + len
                    };
                    assert(ring_slot(front, i, len as int) == index);
                    assert(0 <= i < self@.len() - 1 && self@[i] == p);
                }
                return true;
            }
            index += 1;
        }
        proof {
            assert forall|i: int| 0 <= i < self@.len() - 1 implies self@[i] != p by {
                let j = ring_slot(front, i, len as int);
                assert(0 <= j < len && j != tail_index);
            }
        }
        false
    }

    /// Overwrites the slot `index` of the ring with `p`, whatever place the
    /// slot has in the body.
    pub fn set_unchecked(&mut self, index: usize, p: Point)
        requires
            index < old(self).slots().len(),
        ensures
            final(self).slots() == old(self).slots().update(index as int, p),
            final(self).front() == old(self).front(),
            final(self).has_advanced() == old(self).has_advanced(),
            final(self).wf() == old(self).wf(),
    {
        self.body[index] = p;
    }

    /// The slots of the ring, in the order in which they are stored.
    pub fn get_body(&self) -> (slots: Vec<Point>)
        ensures
            slots@ == self.slots(),
    {
        self.body.clone()
    }
}

} // verus!
