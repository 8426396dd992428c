//! Entity identifiers and the base relations of one analysis run.

use vstd::prelude::*;

verus! {

/// A lifetime/region variable, as a dense zero-based identifier.
#[derive(Clone, Copy, PartialEq, Eq, Structural, Debug)]
pub struct Region {
    pub index: usize,
}

/// A specific borrow event, as a dense zero-based identifier.
#[derive(Clone, Copy, PartialEq, Eq, Structural, Debug)]
pub struct Borrow {
    pub index: usize,
}

/// A program point (statement or block-terminator position), as a dense
/// zero-based identifier.
#[derive(Clone, Copy, PartialEq, Eq, Structural, Debug)]
pub struct Point {
    pub index: usize,
}

/// The base relations of one analysis run.  Each is a set of tuples:
/// duplicates carry no meaning, and the solver reads them as sets.
pub struct AllFacts {
    /// `(R, B, P)`: the borrow `B`'s resulting reference is assigned the
    /// region `R` at the point `P`.
    pub borrow_region: Vec<(Region, Borrow, Point)>,
    /// `(P, Q)`: sequential successor edge within a block.
    pub next_statement: Vec<(Point, Point)>,
    /// `(P, Q)`: control transfer from a block terminator to another
    /// block's entry.
    pub goto: Vec<(Point, Point)>,
    /// `(R, P)`: the region `R` is required live on entry to the point `P`.
    pub region_live_on_entry: Vec<(Region, Point)>,
    /// `(B, P)`: the borrow `B` is invalidated at the point `P`.
    pub killed: Vec<(Borrow, Point)>,
    /// `(P, R1, R2, Q)`: at the point `P`, data flows from `R1` into `R2`;
    /// the constraint becomes effective at the point `Q`.
    pub outlives: Vec<(Point, Region, Region, Point)>,
}

impl AllFacts {
    /// An empty fact store.
    pub fn new() -> (r: AllFacts)
        ensures
            r.borrow_region@ == Seq::<(Region, Borrow, Point)>::empty(),
            r.next_statement@ == Seq::<(Point, Point)>::empty(),
            r.goto@ == Seq::<(Point, Point)>::empty(),
            r.region_live_on_entry@ == Seq::<(Region, Point)>::empty(),
            r.killed@ == Seq::<(Borrow, Point)>::empty(),
            r.outlives@ == Seq::<(Point, Region, Region, Point)>::empty(),
    {
        AllFacts {
            borrow_region: Vec::new(),
            next_statement: Vec::new(),
            goto: Vec::new(),
            region_live_on_entry: Vec::new(),
            killed: Vec::new(),
            outlives: Vec::new(),
        }
    }
}

} // verus!
