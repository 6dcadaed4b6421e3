//! Schema versions and the direction of a migration.

use vstd::prelude::*;

verus! {

/// A schema version. Versions are totally ordered: by major number, then by
/// minor number, then by patch number.
#[derive(Clone, Copy, Debug, PartialEq, Eq, Structural, Hash)]
pub struct Version {
    pub major: u32,
    pub minor: u32,
    pub patch: u32,
}

impl Version {
    /// The strict order on versions.
    pub open spec fn precedes(self, other: Version) -> bool {
        ||| self.major < other.major
        ||| self.major == other.major && self.minor < other.minor
        ||| self.major == other.major && self.minor == other.minor && self.patch < other.patch
    }

    /// The version with the three numbers.
    pub fn new(major: u32, minor: u32, patch: u32) -> (v: Version)
        ensures
            v == (Version { major, minor, patch }),
    {
        Version { major, minor, patch }
    }

    /// Whether `self` is strictly older than `other`.
    pub fn is_before(&self, other: &Version) -> (b: bool)
        ensures
            b == self.precedes(*other),
    {
        if self.major != other.major {
            self.major < other.major
        } else if self.minor != other.minor {
            self.minor < other.minor
        } else {
            self.patch < other.patch
        }
    }

    /// The place of the version among all versions, as a number: an older
    /// version has a smaller rank.
    pub open spec fn rank(self) -> int {
        self.major * 0x1_0000_0000_0000_0000 + self.minor * 0x1_0000_0000 + self.patch
    }

    /// The order of versions is the order of their ranks.
    pub proof fn lemma_rank_order(a: Version, b: Version)
        ensures
            a.precedes(b) == (a.rank() < b.rank()),
            a.rank() >= 0,
    {
    }

    /// `precedes` is a strict total order: no version precedes itself, of two
    /// different versions exactly one precedes the other, and the relation is
    /// transitive.
    pub proof fn lemma_precedes_is_total_order(a: Version, b: Version, c: Version)
        ensures
            !a.precedes(a),
            a.precedes(b) ==> !b.precedes(a),
            a != b ==> a.precedes(b) || b.precedes(a),
            a.precedes(b) && b.precedes(c) ==> a.precedes(c),
    {
    }
}

/// The direction of a migration run: towards newer versions or towards older
/// ones.
#[derive(Clone, Copy, Debug, PartialEq, Eq, Structural, Hash)]
pub enum Direction {
    Forward,
    Backward,
}

impl Direction {
    /// Whether going from `a` to `b` is a move in this direction.
    pub open spec fn leads(self, a: Version, b: Version) -> bool {
        match self {
            Direction::Forward => a.precedes(b),
            Direction::Backward => b.precedes(a),
        }
    }

    /// How far `b` lies ahead of `a` in this direction, in ranks.
    pub open spec fn distance(self, a: Version, b: Version) -> int {
        match self {
            Direction::Forward => b.rank() - a.rank(),
            Direction::Backward => a.rank() - b.rank(),
        }
    }

    /// In either direction `leads` is a strict total order, and a move in the
    /// direction covers a positive distance.
    pub proof fn lemma_leads_is_total_order(self, a: Version, b: Version, c: Version)
        ensures
            !self.leads(a, a),
            self.leads(a, b) ==> !self.leads(b, a),
            a != b ==> self.leads(a, b) || self.leads(b, a),
            self.leads(a, b) && self.leads(b, c) ==> self.leads(a, c),
            self.leads(a, b) == (self.distance(a, b) > 0),
            self.distance(a, c) == self.distance(a, b) + self.distance(b, c),
    {
        Version::lemma_rank_order(a, b);
        Version::lemma_rank_order(b, a);
    }

    /// Whether going from `a` to `b` is a move in this direction.
    pub fn is_move(&self, a: &Version, b: &Version) -> (r: bool)
        ensures
            r == self.leads(*a, *b),
    {
        match self {
            Direction::Forward => a.is_before(b),
            Direction::Backward => b.is_before(a),
        }
    }

    /// The opposite direction.
    pub fn reversed(&self) -> (r: Direction)
        ensures
            forall|a: Version, b: Version| r.leads(a, b) == self.leads(b, a),
    {
        match self {
            Direction::Forward => Direction::Backward,
            Direction::Backward => Direction::Forward,
        }
    }
}

} // verus!
