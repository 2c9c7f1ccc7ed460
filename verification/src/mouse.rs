use vstd::prelude::*;

verus! {

/// The mouse cursor state, at positions of type `P`.
#[derive(Debug, Copy, Clone, PartialEq, Eq, Structural)]
pub enum Cursor<P> {
    /// The cursor has a defined position.
    Available(P),
    /// The cursor has a defined position, but it's levitating over a layer
    /// above.
    Levitating(P),
    /// The cursor is currently unavailable (i.e. out of bounds or busy).
    Unavailable,
}

impl<P> Cursor<P> {
    /// The cursor after it levitates: an available cursor levitates at the
    /// same position; any other cursor stays as it is.
    pub open spec fn levitated(self) -> Self {
        match self {
            Cursor::Available(position) => Cursor::Levitating(position),
            _ => self,
        }
    }

    /// Levitating keeps the position of the cursor, makes an available
    /// cursor levitate, and leaves a levitating or unavailable one alone.
    pub proof fn law_levitated(self, position: P)
        ensures
            self == Cursor::Available(position) ==> self.levitated() == Cursor::Levitating(position),
            self == Cursor::Levitating(position) ==> self.levitated() == self,
            self is Unavailable ==> self.levitated() is Unavailable,
            self.levitated() is Levitating <==> !(self is Unavailable),
    {
    }
}

impl<P: Copy> Cursor<P> {
    /// Returns true if the [`Cursor`] is levitating over a layer above.
    pub fn is_levitating(&self) -> (levitating: bool)
        ensures
            levitating == (*self is Levitating),
    {
        match self {
            Cursor::Levitating(_) => true,
            _ => false,
        }
    }

    /// Makes the [`Cursor`] levitate over a layer above.
    pub fn levitate(self) -> (cursor: Self)
        ensures
            cursor == self.levitated(),
    {
        match self {
            Cursor::Available(position) => Cursor::Levitating(position),
            _ => self,
        }
    }
}

} // verus!
