//! Binding of the two human players of a game to its two roles.

use vstd::prelude::*;

verus! {

/// One of the two roles of a two-player board.
#[derive(Clone, Copy, Debug, PartialEq, Eq, Structural)]
pub enum Side {
    First,
    Second,
}

/// The two seats of a game. A seat holds the identity and the display name
/// of the user bound to it; once bound, a seat never changes.
#[derive(Clone, Debug)]
pub struct PlayerBinding {
    pub first: Option<(i64, String)>,
    pub second: Option<(i64, String)>,
}

impl PlayerBinding {
    pub open spec fn seat(&self, side: Side) -> Option<(i64, String)> {
        match side {
            Side::First => self.first,
            Side::Second => self.second,
        }
    }

    /// A free seat admits everyone; a bound seat admits only its own user.
    pub open spec fn admits(&self, side: Side, id: i64) -> bool {
        match self.seat(side) {
            None => true,
            Some(p) => p.0 == id,
        }
    }

    /// The binding after user `id` made a move for `side`: a free seat is
    /// bound to that user, a bound one stays as it is.
    pub open spec fn bound_after(self, side: Side, id: i64, name: String) -> PlayerBinding {
        match self.seat(side) {
            Some(_) => self,
            None => match side {
                Side::First => PlayerBinding { first: Some((id, name)), second: self.second },
                Side::Second => PlayerBinding { first: self.first, second: Some((id, name)) },
            },
        }
    }

    pub fn new() -> (r: Self)
        ensures
            r.first is None,
            r.second is None,
    {
        PlayerBinding { first: None, second: None }
    }

    /// Whether user `id` may move for `side`.
    pub fn admits_user(&self, side: Side, id: i64) -> (r: bool)
        ensures
            r == self.admits(side, id),
    {
        let seat = match side {
            Side::First => &self.first,
            Side::Second => &self.second,
        };
        match seat {
            None => true,
            Some(p) => p.0 == id,
        }
    }

    /// Binds a free seat of `side` to user `id`; a bound seat is left alone.
    pub fn bind(&mut self, side: Side, id: i64, name: String)
        ensures
            *final(self) == old(self).bound_after(side, id, name),
    {
        match side {
            Side::First => {
                if self.first.is_none() {
                    self.first = Some((id, name));
                }
            },
            Side::Second => {
                if self.second.is_none() {
                    self.second = Some((id, name));
                }
            },
        }
    }

    /// Binds a free seat to user `id` and returns `true`; on a bound seat
    /// returns whether it is bound to `id`, and changes nothing.
    pub fn bind_or_check(&mut self, side: Side, id: i64, name: String) -> (r: bool)
        ensures
            r == old(self).admits(side, id),
            *final(self) == if r {
                old(self).bound_after(side, id, name)
            } else {
                *old(self)
            },
    {
        if self.admits_user(side, id) {
            self.bind(side, id, name);
            true
        } else {
            false
        }
    }
}

} // verus!
