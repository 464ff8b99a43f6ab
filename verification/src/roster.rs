//! Actor descriptions: each actor is named and points at two resource
//! slots of the shared ring, acquired in the literal order `left` then
//! `right`.

use vstd::prelude::*;

verus! {

/// One actor of the roster.  `left` and `right` are indices into the
/// resource ring; the actor acquires the resource at `left` first and the
/// one at `right` second.
#[derive(Clone, Debug)]
pub struct Philosopher {
    pub name: String,
    pub left: usize,
    pub right: usize,
}

impl Philosopher {
    /// Builds an actor from a name and its two resource indices.
    pub fn new(name: &str, left: usize, right: usize) -> (p: Philosopher)
        ensures
            p.name@ == name@,
            p.left == left,
            p.right == right,
    {
        Philosopher { name: String::from_str(name), left, right }
    }
}

/// Every actor of the roster acquires its lower-indexed resource first.
/// This is the static topology fix that rules out a circular wait.
pub open spec fn roster_ordered(roster: Seq<Philosopher>) -> bool {
    forall|k: int| 0 <= k < roster.len() ==> (#[trigger] roster[k]).left < roster[k].right
}

/// Every actor's resource indices lie inside a ring of `n_resources` slots.
pub open spec fn roster_in_bounds(roster: Seq<Philosopher>, n_resources: usize) -> bool {
    forall|k: int|
        0 <= k < roster.len() ==> (#[trigger] roster[k]).left < n_resources
            && roster[k].right < n_resources
}

/// The number of resource slots of the fixed default ring.
pub const DEFAULT_RESOURCES: usize = 5;

/// The fixed default roster of five actors on five resources.  Actor `k`
/// takes resources `(k, k + 1)`, except the last, which takes `(0, 4)`
/// instead of `(4, 0)`: the one flipped acquisition order that breaks the
/// circular wait.
pub fn default_roster() -> (roster: Vec<Philosopher>)
    ensures
        roster@.len() == 5,
        roster@[0].left == 0 && roster@[0].right == 1,
        roster@[1].left == 1 && roster@[1].right == 2,
        roster@[2].left == 2 && roster@[2].right == 3,
        roster@[3].left == 3 && roster@[3].right == 4,
        roster@[4].left == 0 && roster@[4].right == 4,
        roster@[0].name@ == "Judith Butler"@,
        roster@[1].name@ == "Gilles Deleuze"@,
        roster@[2].name@ == "Karl Marx"@,
        roster@[3].name@ == "Emma Goldman"@,
        roster@[4].name@ == "Michel Foucault"@,
        roster_ordered(roster@),
        roster_in_bounds(roster@, DEFAULT_RESOURCES),
{
    let mut roster: Vec<Philosopher> = Vec::new();
    roster.push(Philosopher::new("Judith Butler", 0, 1));
    roster.push(Philosopher::new("Gilles Deleuze", 1, 2));
    roster.push(Philosopher::new("Karl Marx", 2, 3));
    roster.push(Philosopher::new("Emma Goldman", 3, 4));
    roster.push(Philosopher::new("Michel Foucault", 0, 4));
    roster
}

} // verus!
