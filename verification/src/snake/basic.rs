//! A snake held in a double-ended queue.
use crate::requests::Point;
use crate::snake::{advanced, body_blocks, retreated};
use std::collections::VecDeque;
use vstd::prelude::*;

verus! {

/// A snake whose segments live in a double-ended queue, head at the front.
#[derive(Debug)]
pub struct Snake {
    body: VecDeque<Point>,
}

impl View for Snake {
    type V = Seq<Point>;

    /// The segments from head to tail.
    closed spec fn view(&self) -> Seq<Point> {
        self.body@
    }
}

impl From<Vec<Point>> for Snake {
    /// A snake whose segments are those of `value`, head first.
    fn from(value: Vec<Point>) -> (snake: Snake)
        ensures
            snake@ == value@,
    {
        let mut body: VecDeque<Point> = VecDeque::new();
        let mut i: usize = 0;
        while i < value.len()
            invariant
                i <= value.len(),
                body@ == value@.subrange(0, i as int),
            decreases value.len() - i,
        {
            body.push_back(value[i]);
            assert(body@ =~= value@.subrange(0, i + 1));
            i += 1;
        }
        assert(body@ =~= value@);
        Snake { body }
    }
}

/// Two queues that hold the same segments need not be the same value, so
/// no snake is named as the result: `from` says in its own `ensures` what
/// the snake holds.
impl vstd::std_specs::convert::FromSpecImpl<Vec<Point>> for Snake {
    open spec fn obeys_from_spec() -> bool {
        false
    }

    closed spec fn from_spec(v: Vec<Point>) -> Self {
        choose|snake: Snake| snake@ == v@
    }
}

impl Snake {
    /// The snake has at least one segment.
    pub open spec fn wf(&self) -> bool {
        self@.len() > 0
    }

    /// Moves the head onto `p` and returns the segment that fell off the
    /// end. A snake without segments stays without, and gives `p` back.
    pub fn push_head(&mut self, p: Point) -> (evicted: Point)
        ensures
            old(self).wf() ==> final(self)@ == advanced(old(self)@, p) && evicted == old(self)@.last(),
            !old(self).wf() ==> final(self)@ == old(self)@ && evicted == p,
    {
        self.body.push_front(p);
        let evicted = self.body.pop_back();
        proof {
            if old(self).wf() {
                assert(final(self)@ =~= advanced(old(self)@, p));
            } else {
                assert(final(self)@ =~= old(self)@);
            }
        }
        match evicted {
            Some(last) => last,
            None => p,
        }
    }

    /// Takes the head back by one square and puts `p` at the end: the
    /// inverse of `push_head`, given what that call returned. A snake
    /// without segments gets `p` as its only one.
    pub fn pop_head(&mut self, p: Point)
        ensures
            old(self).wf() ==> final(self)@ == retreated(old(self)@, p),
            !old(self).wf() ==> final(self)@ == seq![p],
    {
        self.body.pop_front();
        self.body.push_back(p);
        proof {
            if old(self).wf() {
                assert(final(self)@ =~= retreated(old(self)@, p));
            } else {
                assert(final(self)@ =~= seq![p]);
            }
        }
    }

    /// The square of the head.
    pub fn get_head(&self) -> (head: Point)
        requires
            self.wf(),
        ensures
            head == self@[0],
    {
        self.body[0]
    }

    /// Whether stepping onto `p` runs into this snake: whether `p` is one of
    /// its segments other than the tail.
    pub fn collides_with(&self, p: Point) -> (hit: bool)
        requires
            self.wf(),
        ensures
            hit == body_blocks(self@, p),
    {
        let stop = self.body.len() - 1;
        let mut i: usize = 0;
        while i < stop
            invariant
                stop == self@.len() - 1,
                i <= stop,
                forall|j: int| 0 <= j < i ==> self@[j] != p,
            decreases stop - i,
        {
            if self.body[i] == p {
                return true;
            }
            i += 1;
        }
        false
    }

    /// Overwrites the segment at place `index`, counted from the head, with
    /// `p`.
    pub fn set_unchecked(&mut self, index: usize, p: Point)
        requires
            index < old(self)@.len(),
        ensures
            final(self)@ == old(self)@.update(index as int, p),
    {
        self.body.remove(index);
        self.body.insert(index, p);
        proof {
            assert(final(self)@ =~= old(self)@.update(index as int, p));
        }
    }

    /// The segments from head to tail.
    pub fn get_body(&self) -> (body: Vec<Point>)
        ensures
            body@ == self@,
    {
        let mut body: Vec<Point> = Vec::new();
        let mut i: usize = 0;
        while i < self.body.len()
            invariant
                i <= self@.len(),
                body@ == self@.subrange(0, i as int),
            decreases self@.len() - i,
        {
            body.push(self.body[i]);
            assert(body@ =~= self@.subrange(0, i + 1));
            i += 1;
        }
        assert(body@ =~= self@);
        body
    }
}

} // verus!
