//! Intersection of an arbitrary number of position sources, each pre-sorted by chromosome and
//! position.
//!
//! The common chromosomes of all sources, and their order, are held in a [`ChromDict`]. Given the
//! dictionary, [`Intersect`] walks each source once, holding a single position per source, and
//! yields every location that occurs in all of them.
use vstd::prelude::*;

pub mod chrom_dict;
pub mod intersect;

pub use self::chrom_dict::ChromDict;
pub use self::intersect::{Intersect, Positions, Search};

verus! {

/// Relies on `<str as PartialEq>::eq`: two string slices are equal when they hold the same
/// characters.
pub assume_specification[ <str as PartialEq>::eq ](s: &str, other: &str) -> (r: bool)
    ensures
        r == (s@ == other@),
;

/// A genomic position.
///
/// Anything whose location along a genome is a chromosome (or contig) ID and an integer
/// coordinate along that chromosome.
pub trait ChromPos {
    /// The chromosome ID, as characters.
    spec fn chrom_spec(&self) -> Seq<char>;

    /// The position along the chromosome.
    spec fn pos_spec(&self) -> u32;

    /// Get the chromosome ID.
    fn chrom(&self) -> (r: &str)
        ensures
            r@ == self.chrom_spec(),
    ;

    /// Get the position along the chromosome.
    fn pos(&self) -> (r: u32)
        ensures
            r == self.pos_spec(),
    ;

    /// Check whether two positions are on the same chromosome with the same position along that
    /// chromosome.
    fn intersect(&self, other: &Self) -> (r: bool)
        ensures
            r == (self.chrom_spec() == other.chrom_spec() && self.pos_spec() == other.pos_spec()),
    {
        *self.chrom() == *other.chrom() && self.pos() == other.pos()
    }
}

/// Two positions share both chromosome ID and coordinate.
pub open spec fn colocated<T: ChromPos + ?Sized>(a: &T, b: &T) -> bool {
    a.chrom_spec() == b.chrom_spec() && a.pos_spec() == b.pos_spec()
}

impl<'a> ChromPos for (&'a str, u32) {
    open spec fn chrom_spec(&self) -> Seq<char> {
        self.0@
    }

    open spec fn pos_spec(&self) -> u32 {
        self.1
    }

    fn chrom(&self) -> (r: &str) {
        self.0
    }

    fn pos(&self) -> (r: u32) {
        self.1
    }
}

impl ChromPos for (String, u32) {
    open spec fn chrom_spec(&self) -> Seq<char> {
        self.0@
    }

    open spec fn pos_spec(&self) -> u32 {
        self.1
    }

    fn chrom(&self) -> (r: &str) {
        self.0.as_str()
    }

    fn pos(&self) -> (r: u32) {
        self.1
    }
}

} // verus!
