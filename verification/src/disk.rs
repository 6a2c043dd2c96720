use vstd::prelude::*;

verus! {

/// The two-valued color tag placed on a board cell.
#[derive(Clone, Copy, Debug, PartialEq, Eq, Structural)]
pub enum Disk {
    Light,
    Dark,
}

impl Disk {
    /// The other color.
    pub open spec fn opposite(self) -> Disk {
        match self {
            Disk::Light => Disk::Dark,
            Disk::Dark => Disk::Light,
        }
    }

    /// Turns this disk into the other color, in place.
    pub fn reverse(&mut self)
        ensures
            *final(self) == old(self).opposite(),
    {
        match *self {
            Disk::Light => *self = Disk::Dark,
            Disk::Dark => *self = Disk::Light,
        }
    }
}

} // verus!
