use vstd::prelude::*;

verus! {

/// The strategy used to fill space in a specific dimension.
#[derive(Debug, Copy, Clone, PartialEq, Eq, Structural)]
pub enum Length {
    /// Fill all the remaining space.
    Fill,
    /// Fill a portion of the remaining space relative to other elements.
    FillPortion(u16),
    /// Fill the least amount of space.
    Shrink,
    /// Fill a fixed amount of space, given as the bit pattern of an `f32`
    /// number of logical pixels.
    Fixed(u32),
}

impl Length {
    /// Whether the strategy grows to take remaining space.
    pub open spec fn is_fluid_fill(self) -> bool {
        self is Fill || self is FillPortion
    }

    /// What `enclose` returns: a shrinking length adopts a filling one;
    /// every other length stays as it is.
    pub open spec fn enclosing(self, other: Length) -> Length {
        if self is Shrink && other.is_fluid_fill() {
            other
        } else {
            self
        }
    }

    /// Enclosing keeps one of the two lengths: the other one only when this
    /// one shrinks and the other one fills.
    pub proof fn law_enclosing(self, other: Length)
        ensures
            self.enclosing(other) == self || self.enclosing(other) == other,
            self.enclosing(other) == other && other != self ==> (self is Shrink && (other is Fill || other is FillPortion)),
            !(self is Shrink) ==> self.enclosing(other) == self,
            (self is Shrink && (other is Fill || other is FillPortion)) ==> self.enclosing(other) == other,
    {
    }

    /// Adapts the [`Length`] so it can contain the other [`Length`] and
    /// match its fluidity.
    pub fn enclose(self, other: Length) -> (enclosing: Length)
        ensures
            enclosing == self.enclosing(other),
    {
        match (self, other) {
            (Length::Shrink, Length::Fill) | (Length::Shrink, Length::FillPortion(_)) => other,
            _ => self,
        }
    }
}

/// An amount of space in two dimensions.
#[derive(Debug, Copy, Clone, PartialEq, Eq, Structural)]
pub struct Size<T> {
    /// The width.
    pub width: T,
    /// The height.
    pub height: T,
}

} // verus!
