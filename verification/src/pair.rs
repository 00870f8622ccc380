//! The origins of one cell of the grid: which cells its tile came from.

use vstd::prelude::*;
use vstd::std_specs::cmp::PartialEqSpecImpl;
use vstd::std_specs::convert::FromSpecImpl;

verus! {

/// Up to two origin coordinates `(row, column)`. A tile that merged out of two
/// tiles has two origins, a tile that only moved has one, an empty cell none.
#[derive(Clone, Copy, Debug, Eq)]
pub struct Pair {
    pub first: Option<(usize, usize)>,
    pub second: Option<(usize, usize)>,
}

impl Pair {
    /// The slots fill from the front: `second` is taken only if `first` is.
    pub open spec fn wf(self) -> bool {
        self.second is Some ==> self.first is Some
    }

    /// The pair without origins.
    pub open spec fn empty() -> Pair {
        Pair { first: None, second: None }
    }

    /// The pair with the single origin `coord`.
    pub open spec fn one(coord: (usize, usize)) -> Pair {
        Pair { first: Some(coord), second: None }
    }

    /// The number of origins held.
    pub open spec fn count(self) -> nat {
        (if self.first is Some { 1nat } else { 0nat }) + (if self.second is Some { 1nat } else { 0nat })
    }

    /// The pair after `coord` went in: into the first slot if that is free,
    /// else into the second, replacing what was there.
    pub open spec fn pushed(self, coord: (usize, usize)) -> Pair {
        if self.first is None {
            Pair { first: Some(coord), second: self.second }
        } else {
            Pair { first: self.first, second: Some(coord) }
        }
    }

    /// The origin that `pop` hands out: the second if there is one, else the first.
    pub open spec fn top(self) -> Option<(usize, usize)> {
        if self.second is Some {
            self.second
        } else {
            self.first
        }
    }

    /// The pair after `pop`.
    pub open spec fn popped(self) -> Pair {
        if self.second is Some {
            Pair { first: self.first, second: None }
        } else {
            Pair::empty()
        }
    }

    /// The pair after every origin of `other` was popped and pushed into `self`.
    pub open spec fn absorbed(self, other: Pair) -> Pair {
        match other.top() {
            None => self,
            Some(a) => match other.popped().top() {
                None => self.pushed(a),
                Some(b) => self.pushed(a).pushed(b),
            },
        }
    }

    /// The origins held, the first slot first.
    pub open spec fn listed(self) -> Seq<(usize, usize)> {
        (match self.first {
            Some(coord) => seq![coord],
            None => Seq::empty(),
        }) + (match self.second {
            Some(coord) => seq![coord],
            None => Seq::empty(),
        })
    }

    /// Equality up to the order of the two slots.
    pub open spec fn same_origins(self, other: Pair) -> bool {
        (self.first == other.first && self.second == other.second) || (self.first == other.second
            && self.second == other.first)
    }

    /// Adds an origin: into the first slot if that is free, else into the second.
    pub fn push(&mut self, coord: (usize, usize))
        ensures
            *final(self) == old(self).pushed(coord),
            final(self).wf(),
    {
        if self.first.is_none() {
            self.first = Some(coord);
        } else {
            self.second = Some(coord);
        }
    }

    /// Takes the most recent origin out: the second if there is one, else the first.
    pub fn pop(&mut self) -> (coord: Option<(usize, usize)>)
        ensures
            coord == old(self).top(),
            *final(self) == old(self).popped(),
            final(self).wf(),
    {
        if self.second.is_some() {
            let coord = self.second;
            self.second = None;
            coord
        } else {
            let coord = self.first;
            self.first = None;
            coord
        }
    }

    /// Removes every origin.
    pub fn clear(&mut self)
        ensures
            *final(self) == Pair::empty(),
            final(self).wf(),
    {
        self.second = None;
        self.first = None;
    }

    /// The number of origins held.
    pub fn len(&self) -> (n: usize)
        requires
            self.wf(),
        ensures
            n == self.count(),
            n <= 2,
    {
        if self.second.is_some() {
            2
        } else if self.first.is_some() {
            1
        } else {
            0
        }
    }
}

/// Whether two optional coordinates are the same.
fn same_slot(a: Option<(usize, usize)>, b: Option<(usize, usize)>) -> (same: bool)
    ensures
        same == (a == b),
{
    match (a, b) {
        (None, None) => true,
        (Some(x), Some(y)) => x.0 == y.0 && x.1 == y.1,
        _ => false,
    }
}

impl Default for Pair {
    fn default() -> (pair: Pair)
        ensures
            pair == Pair::empty(),
            pair.wf(),
    {
        Pair { first: None, second: None }
    }
}

impl From<()> for Pair {
    fn from(_unit: ()) -> (pair: Pair) {
        Pair { first: None, second: None }
    }
}

impl FromSpecImpl<()> for Pair {
    open spec fn obeys_from_spec() -> bool {
        true
    }

    open spec fn from_spec(_unit: ()) -> Pair {
        Pair::empty()
    }
}

impl From<(usize, usize)> for Pair {
    fn from(coord: (usize, usize)) -> (pair: Pair) {
        Pair { first: Some(coord), second: None }
    }
}

impl FromSpecImpl<(usize, usize)> for Pair {
    open spec fn obeys_from_spec() -> bool {
        true
    }

    open spec fn from_spec(coord: (usize, usize)) -> Pair {
        Pair::one(coord)
    }
}

impl From<((usize, usize), (usize, usize))> for Pair {
    fn from(coords: ((usize, usize), (usize, usize))) -> (pair: Pair) {
        Pair { first: Some(coords.0), second: Some(coords.1) }
    }
}

impl FromSpecImpl<((usize, usize), (usize, usize))> for Pair {
    open spec fn obeys_from_spec() -> bool {
        true
    }

    open spec fn from_spec(coords: ((usize, usize), (usize, usize))) -> Pair {
        Pair { first: Some(coords.0), second: Some(coords.1) }
    }
}

impl PartialEq for Pair {
    /// Two pairs are equal when they hold the same origins, in either order.
    fn eq(&self, other: &Pair) -> (same: bool) {
        (same_slot(self.first, other.first) && same_slot(self.second, other.second)) || (same_slot(
            self.first,
            other.second,
        ) && same_slot(self.second, other.first))
    }
}

impl PartialEqSpecImpl for Pair {
    open spec fn obeys_eq_spec() -> bool {
        true
    }

    open spec fn eq_spec(&self, other: &Pair) -> bool {
        self.same_origins(*other)
    }
}

} // verus!
