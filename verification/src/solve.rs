//! The solver: derives `CfgEdge`, `RegionLiveAt`, `Restricts` and
//! `BorrowLiveAt` from a fact store.
//!
//! `Restricts` is the least relation closed under three monotone rules,
//! computed by a semi-naive round-based fixpoint; `BorrowLiveAt` projects it
//! against `RegionLiveAt`.

use vstd::prelude::*;
use vstd::string::StringExecFns;
use crate::facts::{AllFacts, Borrow, Point, Region};
use crate::intern::{
    intern_all, intern_rows3, intern_rows4, intern_rows_bp, intern_rows_pp, intern_rows_rp,
    is_prefix, lemma_intern_all_append, lemma_intern_all_prefix, pair_both, pair_firsts,
    pair_seconds, quad_points, quad_regions, row3_ok, row4_ok, row_bp_ok, row_pp_ok, row_rp_ok,
    triple_firsts, triple_seconds, triple_thirds, InternerTables,
};
use crate::ir::Input;
use crate::lower::{views2, views3, views4};

verus! {

broadcast use vstd::seq_lib::group_seq_properties;

// ------------------------------------------------------------------
// The derived relations, as mathematical sets.
// ------------------------------------------------------------------

/// `CfgEdge = NextStatement ∪ Goto`.
pub open spec fn cfg_edge_set(f: AllFacts) -> Set<(Point, Point)> {
    Set::new(|e: (Point, Point)| f.next_statement@.contains(e) || f.goto@.contains(e))
}

/// `RegionLiveAt(R, P)` holds when `R` is required live on entry to `P`,
/// or when `P` jumps to some point `Q` on whose entry `R` is required live
/// (one-step backward propagation through control-flow merges).
pub open spec fn region_live_at_set(f: AllFacts) -> Set<(Region, Point)> {
    Set::new(
        |t: (Region, Point)|
            f.region_live_on_entry@.contains(t) || exists|q: Point|
                #[trigger] f.goto@.contains((t.1, q)) && f.region_live_on_entry@.contains(
                    (t.0, q),
                ),
    )
}

/// One application of the second rule: a restriction `t = (R2, B, P)` flows
/// through an outlives edge `Outlives(P, R2, R1, Q)` to `u = (R1, B, Q)`,
/// unless the borrow was invalidated at `P`.
pub open spec fn flow_edge(
    f: AllFacts,
    t: (Region, Borrow, Point),
    u: (Region, Borrow, Point),
) -> bool {
    &&& !f.killed@.contains((t.1, t.2))
    &&& u.1 == t.1
    &&& f.outlives@.contains((t.2, t.0, u.0, u.2))
}

/// One application of the third rule: a restriction `t = (R1, B, P)` is
/// carried along a control-flow edge `CfgEdge(P, Q)` to `u = (R1, B, Q)`,
/// provided `R1` is still live at `Q` and the borrow was not invalidated
/// at `P`.
pub open spec fn carry_edge(
    f: AllFacts,
    t: (Region, Borrow, Point),
    u: (Region, Borrow, Point),
) -> bool {
    &&& !f.killed@.contains((t.1, t.2))
    &&& u.1 == t.1
    &&& u.0 == t.0
    &&& cfg_edge_set(f).contains((t.2, u.2))
    &&& region_live_at_set(f).contains((u.0, u.2))
}

/// Everything derivable from `s` by one application of rule 2 or rule 3.
pub open spec fn step(f: AllFacts, s: Set<(Region, Borrow, Point)>) -> Set<
    (Region, Borrow, Point),
> {
    Set::new(
        |u: (Region, Borrow, Point)|
            exists|t: (Region, Borrow, Point)|
                #[trigger] s.contains(t) && (flow_edge(f, t, u) || carry_edge(f, t, u)),
    )
}

/// A set is closed when it holds the base `BorrowRegion` tuples (rule 1)
/// and everything one rule application derives from it.
pub open spec fn restricts_closed(f: AllFacts, s: Set<(Region, Borrow, Point)>) -> bool {
    f.borrow_region@.to_set().subset_of(s) && step(f, s).subset_of(s)
}

/// `Restricts`: the least set closed under the three rules — the
/// intersection of all closed sets.
pub open spec fn restricts_set(f: AllFacts) -> Set<(Region, Borrow, Point)> {
    Set::new(
        |t: (Region, Borrow, Point)|
            forall|s: Set<(Region, Borrow, Point)>| #[trigger]
                restricts_closed(f, s) ==> s.contains(t),
    )
}

/// `BorrowLiveAt(B, P) ⟺ ∃R. Restricts(R, B, P) ∧ RegionLiveAt(R, P)`:
/// the final answer.
pub open spec fn borrow_live_at_set(f: AllFacts) -> Set<(Borrow, Point)> {
    Set::new(
        |t: (Borrow, Point)|
            exists|r: Region|
                #[trigger] restricts_set(f).contains((r, t.0, t.1)) && region_live_at_set(
                    f,
                ).contains((r, t.1)),
    )
}

// ------------------------------------------------------------------
// Membership tests on vector-represented relations.
// ------------------------------------------------------------------

/// Does the edge relation `v` contain `t`?
pub fn contains_pp(v: &Vec<(Point, Point)>, t: (Point, Point)) -> (r: bool)
    ensures
        r == v@.contains(t),
{
    let mut i: usize = 0;
    while i < v.len()
        invariant
            i <= v@.len(),
            forall|j: int| 0 <= j < i ==> v@[j] != t,
        decreases v@.len() - i,
    {
        if v[i].0 == t.0 && v[i].1 == t.1 {
            assert(v@[i as int] == t);
            return true;
        }
        i = i + 1;
    }
    false
}

/// Does the liveness relation `v` contain `t`?
pub fn contains_rp(v: &Vec<(Region, Point)>, t: (Region, Point)) -> (r: bool)
    ensures
        r == v@.contains(t),
{
    let mut i: usize = 0;
    while i < v.len()
        invariant
            i <= v@.len(),
            forall|j: int| 0 <= j < i ==> v@[j] != t,
        decreases v@.len() - i,
    {
        if v[i].0 == t.0 && v[i].1 == t.1 {
            assert(v@[i as int] == t);
            return true;
        }
        i = i + 1;
    }
    false
}

/// Does the kill relation `v` contain `t`?
pub fn contains_bp(v: &Vec<(Borrow, Point)>, t: (Borrow, Point)) -> (r: bool)
    ensures
        r == v@.contains(t),
{
    let mut i: usize = 0;
    while i < v.len()
        invariant
            i <= v@.len(),
            forall|j: int| 0 <= j < i ==> v@[j] != t,
        decreases v@.len() - i,
    {
        if v[i].0 == t.0 && v[i].1 == t.1 {
            assert(v@[i as int] == t);
            return true;
        }
        i = i + 1;
    }
    false
}

/// Does the restriction relation `v` contain `t`?
pub fn contains_rbp(v: &Vec<(Region, Borrow, Point)>, t: (Region, Borrow, Point)) -> (r: bool)
    ensures
        r == v@.contains(t),
{
    let mut i: usize = 0;
    while i < v.len()
        invariant
            i <= v@.len(),
            forall|j: int| 0 <= j < i ==> v@[j] != t,
        decreases v@.len() - i,
    {
        if v[i].0 == t.0 && v[i].1 == t.1 && v[i].2 == t.2 {
            assert(v@[i as int] == t);
            return true;
        }
        i = i + 1;
    }
    false
}

// ------------------------------------------------------------------
// CFG Merger.
// ------------------------------------------------------------------

/// `cfg_edge = next_statement ∪ goto`, deduplicated.
pub fn cfg_edge(f: &AllFacts) -> (r: Vec<(Point, Point)>)
    ensures
        r@.to_set() == cfg_edge_set(*f),
        r@.no_duplicates(),
{
    let mut r: Vec<(Point, Point)> = Vec::new();
    let mut i: usize = 0;
    while i < f.next_statement.len()
        invariant
            i <= f.next_statement@.len(),
            r@.no_duplicates(),
            forall|j: int| 0 <= j < i ==> r@.contains(#[trigger] f.next_statement@[j]),
            forall|x: (Point, Point)| r@.contains(x) ==> f.next_statement@.contains(x),
        decreases f.next_statement@.len() - i,
    {
        let t = f.next_statement[i];
        if !contains_pp(&r, t) {
            r.push(t);
        }
        i = i + 1;
    }
    let mut i: usize = 0;
    while i < f.goto.len()
        invariant
            i <= f.goto@.len(),
            r@.no_duplicates(),
            forall|j: int| 0 <= j < i ==> r@.contains(#[trigger] f.goto@[j]),
            forall|j: int|
                0 <= j < f.next_statement@.len() ==> r@.contains(
                    #[trigger] f.next_statement@[j],
                ),
            forall|x: (Point, Point)|
                r@.contains(x) ==> f.next_statement@.contains(x) || f.goto@.contains(x),
        decreases f.goto@.len() - i,
    {
        let t = f.goto[i];
        if !contains_pp(&r, t) {
            r.push(t);
        }
        i = i + 1;
    }
    proof {
        assert(r@.to_set() =~= cfg_edge_set(*f));
    }
    r
}

// ------------------------------------------------------------------
// Liveness Propagator.
// ------------------------------------------------------------------

/// Computes `RegionLiveAt` from `RegionLiveOnEntry` and `Goto` in a single
/// pass: no fixpoint is needed, as neither rule reads `RegionLiveAt` itself.
pub fn region_live_at(f: &AllFacts) -> (r: Vec<(Region, Point)>)
    ensures
        r@.to_set() == region_live_at_set(*f),
        r@.no_duplicates(),
{
    let mut r: Vec<(Region, Point)> = Vec::new();
    let mut i: usize = 0;
    while i < f.region_live_on_entry.len()
        invariant
            i <= f.region_live_on_entry@.len(),
            r@.no_duplicates(),
            forall|j: int| 0 <= j < i ==> r@.contains(#[trigger] f.region_live_on_entry@[j]),
            forall|x: (Region, Point)| r@.contains(x) ==> region_live_at_set(*f).contains(x),
        decreases f.region_live_on_entry@.len() - i,
    {
        let t = f.region_live_on_entry[i];
        if !contains_rp(&r, t) {
            r.push(t);
        }
        i = i + 1;
    }
    let mut i: usize = 0;
    while i < f.goto.len()
        invariant
            i <= f.goto@.len(),
            r@.no_duplicates(),
            forall|j: int|
                0 <= j < f.region_live_on_entry@.len() ==> r@.contains(
                    #[trigger] f.region_live_on_entry@[j],
                ),
            forall|j: int, k: int|
                0 <= j < i && 0 <= k < f.region_live_on_entry@.len() && (
                #[trigger] f.goto@[j]).1 == (#[trigger] f.region_live_on_entry@[k]).1
                    ==> r@.contains((f.region_live_on_entry@[k].0, f.goto@[j].0)),
            forall|x: (Region, Point)| r@.contains(x) ==> region_live_at_set(*f).contains(x),
        decreases f.goto@.len() - i,
    {
        let (p, q) = f.goto[i];
        let mut k: usize = 0;
        while k < f.region_live_on_entry.len()
            invariant
                k <= f.region_live_on_entry@.len(),
                r@.no_duplicates(),
                i < f.goto@.len(),
                (p, q) == f.goto@[i as int],
                forall|j: int|
                    0 <= j < f.region_live_on_entry@.len() ==> r@.contains(
                        #[trigger] f.region_live_on_entry@[j],
                    ),
                forall|j: int, k2: int|
                    0 <= j < i && 0 <= k2 < f.region_live_on_entry@.len() && (
                    #[trigger] f.goto@[j]).1 == (#[trigger] f.region_live_on_entry@[k2]).1
                        ==> r@.contains((f.region_live_on_entry@[k2].0, f.goto@[j].0)),
                forall|k2: int|
                    0 <= k2 < k && q == (#[trigger] f.region_live_on_entry@[k2]).1
                        ==> r@.contains((f.region_live_on_entry@[k2].0, p)),
                forall|x: (Region, Point)| r@.contains(x) ==> region_live_at_set(*f).contains(x),
            decreases f.region_live_on_entry@.len() - k,
        {
            let (rg, q2) = f.region_live_on_entry[k];
            if q2 == q {
                let cand = (rg, p);
                if !contains_rp(&r, cand) {
                    proof {
                        assert(f.goto@.contains((cand.1, q)));
                        assert(f.region_live_on_entry@.contains((cand.0, q)));
                        assert(region_live_at_set(*f).contains(cand));
                    }
                    r.push(cand);
                }
            }
            k = k + 1;
        }
        i = i + 1;
    }
    proof {
        assert forall|x: (Region, Point)| region_live_at_set(*f).contains(x) implies r@.contains(
            x,
        ) by {
            if f.region_live_on_entry@.contains(x) {
                let k = choose|k: int|
                    0 <= k < f.region_live_on_entry@.len() && f.region_live_on_entry@[k] == x;
                assert(r@.contains(f.region_live_on_entry@[k]));
            } else {
                let q = choose|q: Point|
                    #[trigger] f.goto@.contains((x.1, q)) && f.region_live_on_entry@.contains(
                        (x.0, q),
                    );
                let j = choose|j: int| 0 <= j < f.goto@.len() && f.goto@[j] == (x.1, q);
                let k = choose|k: int|
                    0 <= k < f.region_live_on_entry@.len() && f.region_live_on_entry@[k] == (
                    x.0,
                    q,
                    );
                assert(f.goto@[j].1 == f.region_live_on_entry@[k].1);
                assert(r@.contains((f.region_live_on_entry@[k].0, f.goto@[j].0)));
            }
        }
        assert(r@.to_set() =~= region_live_at_set(*f));
    }
    r
}

// ------------------------------------------------------------------
// Restriction Fixpoint Engine.
// ------------------------------------------------------------------

/// The borrows that occur in some `BorrowRegion` tuple.  Rules 2 and 3
/// carry the borrow of an existing tuple, so every derived tuple's borrow
/// lies in this set.
pub open spec fn borrows_of(f: AllFacts) -> Set<Borrow> {
    Set::new(
        |b: Borrow|
            exists|t: (Region, Borrow, Point)| #[trigger] f.borrow_region@.contains(t) && t.1 == b,
    )
}

/// A finite pool that bounds the fixpoint: every tuple any rule can ever
/// derive lies in it.  Rule 1 yields `BorrowRegion` tuples; rule 2 stamps
/// its output's region and point from an `Outlives` tuple; rule 3 requires
/// its output's region and point to form a live `RegionLiveAt` pair.
pub open spec fn pool_set(f: AllFacts) -> Set<(Region, Borrow, Point)> {
    Set::new(
        |u: (Region, Borrow, Point)|
            f.borrow_region@.contains(u) || (borrows_of(f).contains(u.1) && (exists|
                o: (Point, Region, Region, Point),
            |
                #[trigger] f.outlives@.contains(o) && o.2 == u.0 && o.3 == u.2)) || (borrows_of(
                f,
            ).contains(u.1) && region_live_at_set(f).contains((u.0, u.2))),
    )
}

/// Two duplicate-free vectors, one containing only elements of the other,
/// cannot be longer than it.
proof fn lemma_no_dup_len_le(
    s1: Seq<(Region, Borrow, Point)>,
    s2: Seq<(Region, Borrow, Point)>,
)
    requires
        s1.no_duplicates(),
        s2.no_duplicates(),
        forall|x: (Region, Borrow, Point)| s1.contains(x) ==> s2.contains(x),
    ensures
        s1.len() <= s2.len(),
{
    broadcast use vstd::seq_lib::seq_to_set_is_finite;

    s1.unique_seq_to_set();
    s2.unique_seq_to_set();
    assert(s1.to_set().subset_of(s2.to_set()));
    vstd::set_lib::lemma_len_subset(s1.to_set(), s2.to_set());
}

/// Adds `cand` to the accumulated relation and to the round's delta if it
/// is not yet present.
fn try_insert(
    accum: &mut Vec<(Region, Borrow, Point)>,
    delta: &mut Vec<(Region, Borrow, Point)>,
    cand: (Region, Borrow, Point),
)
    requires
        old(accum)@.no_duplicates(),
        old(delta)@.no_duplicates(),
        forall|x: (Region, Borrow, Point)| old(delta)@.contains(x) ==> old(accum)@.contains(x),
    ensures
        final(accum)@.no_duplicates(),
        final(delta)@.no_duplicates(),
        old(accum)@.contains(cand) ==> final(accum)@ == old(accum)@ && final(delta)@ == old(
            delta,
        )@,
        !old(accum)@.contains(cand) ==> final(accum)@ == old(accum)@.push(cand) && final(delta)@
            == old(delta)@.push(cand),
{
    if !contains_rbp(accum, cand) {
        accum.push(cand);
        delta.push(cand);
    }
}

/// Computes `Restricts`: the least relation containing `BorrowRegion` and
/// closed under the flow rule (2) and the carry rule (3).
///
/// Semi-naive evaluation: each round joins only the tuples newly derived
/// in the previous round (both recursive rules are linear, so this loses
/// nothing), and the loop stops when a round adds no tuple.  Termination
/// is by the finite candidate pool: each further round strictly grows the
/// duplicate-free accumulator inside it.
pub fn restricts(
    f: &AllFacts,
    cfg: &Vec<(Point, Point)>,
    live: &Vec<(Region, Point)>,
) -> (r: Vec<(Region, Borrow, Point)>)
    requires
        cfg@.to_set() == cfg_edge_set(*f),
        cfg@.no_duplicates(),
        live@.to_set() == region_live_at_set(*f),
        live@.no_duplicates(),
    ensures
        r@.to_set() == restricts_set(*f),
        r@.no_duplicates(),
{
    let pool = build_pool(f, live);
    let mut accum: Vec<(Region, Borrow, Point)> = Vec::new();
    let mut delta: Vec<(Region, Borrow, Point)> = Vec::new();
    // Rule 1: seed with the base tuples.
    let mut i: usize = 0;
    while i < f.borrow_region.len()
        invariant
            i <= f.borrow_region@.len(),
            accum@.no_duplicates(),
            delta@ == accum@,
            forall|j: int| 0 <= j < i ==> accum@.contains(#[trigger] f.borrow_region@[j]),
            forall|x: (Region, Borrow, Point)|
                #[trigger] accum@.contains(x) ==> f.borrow_region@.contains(x),
        decreases f.borrow_region@.len() - i,
    {
        let t = f.borrow_region[i];
        try_insert(&mut accum, &mut delta, t);
        i = i + 1;
    }
    proof {
        assert forall|x: (Region, Borrow, Point)| accum@.contains(x) implies pool@.contains(
            x,
        ) by {
            assert(pool_set(*f).contains(x));
            assert(pool@.to_set().contains(x));
        }
        lemma_no_dup_len_le(accum@, pool@);
        assert forall|x: (Region, Borrow, Point)| accum@.contains(x) implies restricts_set(
            *f,
        ).contains(x) by {
            assert forall|s: Set<(Region, Borrow, Point)>| #[trigger]
                restricts_closed(*f, s) implies s.contains(x) by {
                assert(f.borrow_region@.to_set().contains(x));
            }
        }
    }
    while delta.len() > 0
        invariant
            cfg@.to_set() == cfg_edge_set(*f),
            live@.to_set() == region_live_at_set(*f),
            pool@.to_set() == pool_set(*f),
            pool@.no_duplicates(),
            accum@.no_duplicates(),
            delta@.no_duplicates(),
            accum@.len() <= pool@.len(),
            forall|x: (Region, Borrow, Point)| #[trigger] delta@.contains(x) ==> accum@.contains(x),
            forall|j: int| 0 <= j < f.borrow_region@.len() ==> accum@.contains(
                #[trigger] f.borrow_region@[j],
            ),
            forall|x: (Region, Borrow, Point)| #[trigger] accum@.contains(x) ==> pool_set(*f).contains(x),
            forall|x: (Region, Borrow, Point)| #[trigger] accum@.contains(x) ==> borrows_of(*f).contains(
                x.1,
            ),
            forall|x: (Region, Borrow, Point)| #[trigger] accum@.contains(x) ==> restricts_set(*f).contains(
                x,
            ),
            forall|t: (Region, Borrow, Point), u: (Region, Borrow, Point)|
                accum@.contains(t) && !delta@.contains(t) && #[trigger] flow_edge(*f, t, u)
                    ==> accum@.contains(u),
            forall|t: (Region, Borrow, Point), u: (Region, Borrow, Point)|
                accum@.contains(t) && !delta@.contains(t) && #[trigger] carry_edge(*f, t, u)
                    ==> accum@.contains(u),
        ensures
            accum@.no_duplicates(),
            forall|j: int| 0 <= j < f.borrow_region@.len() ==> accum@.contains(
                #[trigger] f.borrow_region@[j],
            ),
            forall|x: (Region, Borrow, Point)| #[trigger] accum@.contains(x) ==> restricts_set(*f).contains(
                x,
            ),
            forall|t: (Region, Borrow, Point), u: (Region, Borrow, Point)|
                accum@.contains(t) && #[trigger] flow_edge(*f, t, u) ==> accum@.contains(u),
            forall|t: (Region, Borrow, Point), u: (Region, Borrow, Point)|
                accum@.contains(t) && #[trigger] carry_edge(*f, t, u) ==> accum@.contains(u),
        decreases pool@.len() - accum@.len(),
    {
        let ghost accum0 = accum@;
        let mut new_delta: Vec<(Region, Borrow, Point)> = Vec::new();
        let mut i: usize = 0;
        while i < delta.len()
            invariant
                i <= delta@.len(),
                cfg@.to_set() == cfg_edge_set(*f),
                live@.to_set() == region_live_at_set(*f),
                accum@.no_duplicates(),
                new_delta@.no_duplicates(),
                accum@.len() == accum0.len() + new_delta@.len(),
                forall|x: (Region, Borrow, Point)| #[trigger] delta@.contains(x) ==> accum0.contains(x),
                forall|x: (Region, Borrow, Point)| #[trigger] new_delta@.contains(x) ==> accum@.contains(x),
                forall|x: (Region, Borrow, Point)| #[trigger] accum0.contains(x) ==> accum@.contains(x),
                forall|x: (Region, Borrow, Point)|
                    #[trigger] accum@.contains(x) ==> accum0.contains(x) || new_delta@.contains(x),
                forall|x: (Region, Borrow, Point)| #[trigger] new_delta@.contains(x) ==> !accum0.contains(x),
                forall|x: (Region, Borrow, Point)| #[trigger] accum@.contains(x) ==> pool_set(*f).contains(
                    x,
                ),
                forall|x: (Region, Borrow, Point)| #[trigger] accum@.contains(x) ==> borrows_of(*f).contains(
                    x.1,
                ),
                forall|x: (Region, Borrow, Point)| #[trigger] accum@.contains(x) ==> restricts_set(
                    *f,
                ).contains(x),
                forall|j: int, u: (Region, Borrow, Point)|
                    0 <= j < i && #[trigger] flow_edge(*f, delta@[j], u) ==> accum@.contains(u),
                forall|j: int, u: (Region, Borrow, Point)|
                    0 <= j < i && #[trigger] carry_edge(*f, delta@[j], u) ==> accum@.contains(u),
            decreases delta@.len() - i,
        {
            let t = delta[i];
            proof {
                assert(delta@[i as int] == t);
                assert(delta@.contains(t));
                assert(accum@.contains(t));
            }
            if !contains_bp(&f.killed, (t.1, t.2)) {
                // Rule 2: flow through outlives edges.
                let mut j: usize = 0;
                while j < f.outlives.len()
                    invariant
                        j <= f.outlives@.len(),
                        i < delta@.len(),
                        t == delta@[i as int],
                        accum@.no_duplicates(),
                        new_delta@.no_duplicates(),
                        accum@.len() == accum0.len() + new_delta@.len(),
                        accum@.contains(t),
                        !f.killed@.contains((t.1, t.2)),
                        forall|x: (Region, Borrow, Point)|
                            #[trigger] new_delta@.contains(x) ==> accum@.contains(x),
                        forall|x: (Region, Borrow, Point)| #[trigger] accum0.contains(x) ==> accum@.contains(
                            x,
                        ),
                        forall|x: (Region, Borrow, Point)|
                            #[trigger] accum@.contains(x) ==> accum0.contains(x) || new_delta@.contains(x),
                        forall|x: (Region, Borrow, Point)|
                            #[trigger] new_delta@.contains(x) ==> !accum0.contains(x),
                        forall|x: (Region, Borrow, Point)|
                            #[trigger] accum@.contains(x) ==> pool_set(*f).contains(x),
                        forall|x: (Region, Borrow, Point)|
                            #[trigger] accum@.contains(x) ==> borrows_of(*f).contains(x.1),
                        forall|x: (Region, Borrow, Point)|
                            #[trigger] accum@.contains(x) ==> restricts_set(*f).contains(x),
                        forall|j2: int, u: (Region, Borrow, Point)|
                            0 <= j2 < i && #[trigger] flow_edge(*f, delta@[j2], u)
                                ==> accum@.contains(u),
                        forall|j2: int, u: (Region, Borrow, Point)|
                            0 <= j2 < i && #[trigger] carry_edge(*f, delta@[j2], u)
                                ==> accum@.contains(u),
                        forall|jj: int|
                            0 <= jj < j && (#[trigger] f.outlives@[jj]).0 == t.2
                                && f.outlives@[jj].1 == t.0 ==> accum@.contains(
                                (f.outlives@[jj].2, t.1, f.outlives@[jj].3),
                            ),
                    decreases f.outlives@.len() - j,
                {
                    let o = f.outlives[j];
                    if o.0 == t.2 && o.1 == t.0 {
                        let cand = (o.2, t.1, o.3);
                        proof {
                            assert(f.outlives@.contains(o));
                            assert(flow_edge(*f, t, cand));
                            assert forall|s: Set<(Region, Borrow, Point)>| #[trigger]
                                restricts_closed(*f, s) implies s.contains(cand) by {
                                assert(restricts_set(*f).contains(t));
                                assert(s.contains(t));
                                assert(step(*f, s).contains(cand));
                            }
                            assert(restricts_set(*f).contains(cand));
                            assert(pool_set(*f).contains(cand));
                        }
                        try_insert(&mut accum, &mut new_delta, cand);
                    }
                    j = j + 1;
                }
                // Rule 3: carry along control-flow edges into live regions.
                let mut j: usize = 0;
                while j < cfg.len()
                    invariant
                        j <= cfg@.len(),
                        i < delta@.len(),
                        t == delta@[i as int],
                        cfg@.to_set() == cfg_edge_set(*f),
                        live@.to_set() == region_live_at_set(*f),
                        accum@.no_duplicates(),
                        new_delta@.no_duplicates(),
                        accum@.len() == accum0.len() + new_delta@.len(),
                        accum@.contains(t),
                        !f.killed@.contains((t.1, t.2)),
                        forall|x: (Region, Borrow, Point)|
                            #[trigger] new_delta@.contains(x) ==> accum@.contains(x),
                        forall|x: (Region, Borrow, Point)| #[trigger] accum0.contains(x) ==> accum@.contains(
                            x,
                        ),
                        forall|x: (Region, Borrow, Point)|
                            #[trigger] accum@.contains(x) ==> accum0.contains(x) || new_delta@.contains(x),
                        forall|x: (Region, Borrow, Point)|
                            #[trigger] new_delta@.contains(x) ==> !accum0.contains(x),
                        forall|x: (Region, Borrow, Point)|
                            #[trigger] accum@.contains(x) ==> pool_set(*f).contains(x),
                        forall|x: (Region, Borrow, Point)|
                            #[trigger] accum@.contains(x) ==> borrows_of(*f).contains(x.1),
                        forall|x: (Region, Borrow, Point)|
                            #[trigger] accum@.contains(x) ==> restricts_set(*f).contains(x),
                        forall|j2: int, u: (Region, Borrow, Point)|
                            0 <= j2 < i && #[trigger] flow_edge(*f, delta@[j2], u)
                                ==> accum@.contains(u),
                        forall|j2: int, u: (Region, Borrow, Point)|
                            0 <= j2 < i && #[trigger] carry_edge(*f, delta@[j2], u)
                                ==> accum@.contains(u),
                        forall|jj: int|
                            0 <= jj < f.outlives@.len() && (#[trigger] f.outlives@[jj]).0 == t.2
                                && f.outlives@[jj].1 == t.0 ==> accum@.contains(
                                (f.outlives@[jj].2, t.1, f.outlives@[jj].3),
                            ),
                        forall|jj: int|
                            0 <= jj < j && (#[trigger] cfg@[jj]).0 == t.2 && region_live_at_set(
                                *f,
                            ).contains((t.0, cfg@[jj].1)) ==> accum@.contains(
                                (t.0, t.1, cfg@[jj].1),
                            ),
                    decreases cfg@.len() - j,
                {
                    let e = cfg[j];
                    if e.0 == t.2 && contains_rp(live, (t.0, e.1)) {
                        let cand = (t.0, t.1, e.1);
                        proof {
                            assert(cfg@[j as int] == e);
                            assert(cfg@.contains(e));
                            assert(cfg@.to_set().contains(e));
                            assert(cfg_edge_set(*f).contains((t.2, cand.2)));
                            assert(live@.contains((t.0, e.1)));
                            assert(live@.to_set().contains((t.0, e.1)));
                            assert(region_live_at_set(*f).contains((cand.0, cand.2)));
                            assert(carry_edge(*f, t, cand));
                            assert forall|s: Set<(Region, Borrow, Point)>| #[trigger]
                                restricts_closed(*f, s) implies s.contains(cand) by {
                                assert(restricts_set(*f).contains(t));
                                assert(s.contains(t));
                                assert(step(*f, s).contains(cand));
                            }
                            assert(restricts_set(*f).contains(cand));
                            assert(pool_set(*f).contains(cand));
                        }
                        try_insert(&mut accum, &mut new_delta, cand);
                    } else {
                        proof {
                            if e.0 == t.2 {
                                assert(!live@.contains((t.0, e.1)));
                                assert(!region_live_at_set(*f).contains((t.0, e.1))) by {
                                    if region_live_at_set(*f).contains((t.0, e.1)) {
                                        assert(live@.to_set().contains((t.0, e.1)));
                                    }
                                }
                            }
                        }
                    }
                    j = j + 1;
                }
            }
            proof {
                if !f.killed@.contains((t.1, t.2)) {
                    assert forall|u: (Region, Borrow, Point)| #[trigger]
                        flow_edge(*f, t, u) implies accum@.contains(u) by {
                        let o = (t.2, t.0, u.0, u.2);
                        assert(f.outlives@.contains(o));
                        let jj = choose|jj: int|
                            0 <= jj < f.outlives@.len() && f.outlives@[jj] == o;
                        assert(accum@.contains((f.outlives@[jj].2, t.1, f.outlives@[jj].3)));
                        assert(u == (f.outlives@[jj].2, t.1, f.outlives@[jj].3));
                    }
                    assert forall|u: (Region, Borrow, Point)| #[trigger]
                        carry_edge(*f, t, u) implies accum@.contains(u) by {
                        let e = (t.2, u.2);
                        assert(cfg_edge_set(*f).contains(e));
                        assert(cfg@.to_set().contains(e));
                        assert(cfg@.contains(e));
                        let jj = choose|jj: int| 0 <= jj < cfg@.len() && cfg@[jj] == e;
                        assert(region_live_at_set(*f).contains((t.0, cfg@[jj].1)));
                        assert(accum@.contains((t.0, t.1, cfg@[jj].1)));
                        assert(u == (t.0, t.1, cfg@[jj].1));
                    }
                }
                assert forall|j2: int, u: (Region, Borrow, Point)|
                    0 <= j2 < i + 1 && #[trigger] flow_edge(*f, delta@[j2], u)
                    implies accum@.contains(u) by {
                    if j2 == i {
                        assert(flow_edge(*f, t, u));
                    }
                }
                assert forall|j2: int, u: (Region, Borrow, Point)|
                    0 <= j2 < i + 1 && #[trigger] carry_edge(*f, delta@[j2], u)
                    implies accum@.contains(u) by {
                    if j2 == i {
                        assert(carry_edge(*f, t, u));
                    }
                }
            }
            i = i + 1;
        }
        proof {
            assert forall|x: (Region, Borrow, Point)| accum@.contains(x) implies pool@.contains(
                x,
            ) by {
                assert(pool_set(*f).contains(x));
                assert(pool@.to_set().contains(x));
            }
            lemma_no_dup_len_le(accum@, pool@);
            assert forall|t: (Region, Borrow, Point), u: (Region, Borrow, Point)|
                accum@.contains(t) && !new_delta@.contains(t) && #[trigger] flow_edge(
                    *f,
                    t,
                    u,
                ) implies accum@.contains(u) by {
                assert(accum0.contains(t));
                if delta@.contains(t) {
                    let j = choose|j: int| 0 <= j < delta@.len() && delta@[j] == t;
                    assert(flow_edge(*f, delta@[j], u));
                }
            }
            assert forall|t: (Region, Borrow, Point), u: (Region, Borrow, Point)|
                accum@.contains(t) && !new_delta@.contains(t) && #[trigger] carry_edge(
                    *f,
                    t,
                    u,
                ) implies accum@.contains(u) by {
                assert(accum0.contains(t));
                if delta@.contains(t) {
                    let j = choose|j: int| 0 <= j < delta@.len() && delta@[j] == t;
                    assert(carry_edge(*f, delta@[j], u));
                }
            }
        }
        let progressed = new_delta.len() > 0;
        delta = new_delta;
        if !progressed {
            break;
        }
    }
    proof {
        assert(restricts_closed(*f, accum@.to_set())) by {
            assert forall|x: (Region, Borrow, Point)|
                f.borrow_region@.to_set().contains(x) implies accum@.to_set().contains(x) by {
                let j = choose|j: int|
                    0 <= j < f.borrow_region@.len() && f.borrow_region@[j] == x;
                assert(accum@.contains(f.borrow_region@[j]));
            }
            assert forall|u: (Region, Borrow, Point)|
                step(*f, accum@.to_set()).contains(u) implies accum@.to_set().contains(u) by {
                let t = choose|t: (Region, Borrow, Point)|
                    #[trigger] accum@.to_set().contains(t) && (flow_edge(*f, t, u) || carry_edge(
                        *f,
                        t,
                        u,
                    ));
                assert(accum@.contains(t));
            }
        }
        assert forall|x: (Region, Borrow, Point)|
            restricts_set(*f).contains(x) implies accum@.to_set().contains(x) by {
            assert(restricts_closed(*f, accum@.to_set()));
        }
        assert(accum@.to_set() =~= restricts_set(*f));
    }
    accum
}


/// Builds the finite candidate pool described by [`pool_set`], without
/// duplicates.
fn build_pool(f: &AllFacts, live: &Vec<(Region, Point)>) -> (r: Vec<(Region, Borrow, Point)>)
    requires
        live@.to_set() == region_live_at_set(*f),
    ensures
        r@.to_set() == pool_set(*f),
        r@.no_duplicates(),
{
    let mut r: Vec<(Region, Borrow, Point)> = Vec::new();
    let mut i: usize = 0;
    while i < f.borrow_region.len()
        invariant
            i <= f.borrow_region@.len(),
            r@.no_duplicates(),
            forall|j: int| 0 <= j < i ==> r@.contains(#[trigger] f.borrow_region@[j]),
            forall|x: (Region, Borrow, Point)| r@.contains(x) ==> pool_set(*f).contains(x),
        decreases f.borrow_region@.len() - i,
    {
        let t = f.borrow_region[i];
        if !contains_rbp(&r, t) {
            r.push(t);
        }
        i = i + 1;
    }
    let mut i: usize = 0;
    while i < f.outlives.len()
        invariant
            i <= f.outlives@.len(),
            r@.no_duplicates(),
            forall|j: int| 0 <= j < f.borrow_region@.len() ==> r@.contains(
                #[trigger] f.borrow_region@[j],
            ),
            forall|j: int, k: int|
                0 <= j < i && 0 <= k < f.borrow_region@.len() ==> r@.contains(
                    (
                        (#[trigger] f.outlives@[j]).2,
                        (#[trigger] f.borrow_region@[k]).1,
                        f.outlives@[j].3,
                    ),
                ),
            forall|x: (Region, Borrow, Point)| r@.contains(x) ==> pool_set(*f).contains(x),
        decreases f.outlives@.len() - i,
    {
        let o = f.outlives[i];
        let mut k: usize = 0;
        while k < f.borrow_region.len()
            invariant
                k <= f.borrow_region@.len(),
                i < f.outlives@.len(),
                o == f.outlives@[i as int],
                r@.no_duplicates(),
                forall|j: int| 0 <= j < f.borrow_region@.len() ==> r@.contains(
                    #[trigger] f.borrow_region@[j],
                ),
                forall|j: int, k2: int|
                    0 <= j < i && 0 <= k2 < f.borrow_region@.len() ==> r@.contains(
                        (
                            (#[trigger] f.outlives@[j]).2,
                            (#[trigger] f.borrow_region@[k2]).1,
                            f.outlives@[j].3,
                        ),
                    ),
                forall|k2: int|
                    0 <= k2 < k ==> r@.contains(
                        (o.2, (#[trigger] f.borrow_region@[k2]).1, o.3),
                    ),
                forall|x: (Region, Borrow, Point)| r@.contains(x) ==> pool_set(*f).contains(x),
            decreases f.borrow_region@.len() - k,
        {
            let b = f.borrow_region[k].1;
            let cand = (o.2, b, o.3);
            if !contains_rbp(&r, cand) {
                proof {
                    assert(f.borrow_region@.contains(f.borrow_region@[k as int]));
                    assert(borrows_of(*f).contains(b));
                    assert(f.outlives@.contains(o));
                    assert(pool_set(*f).contains(cand));
                }
                r.push(cand);
            }
            k = k + 1;
        }
        i = i + 1;
    }
    let mut i: usize = 0;
    while i < live.len()
        invariant
            i <= live@.len(),
            live@.to_set() == region_live_at_set(*f),
            r@.no_duplicates(),
            forall|j: int| 0 <= j < f.borrow_region@.len() ==> r@.contains(
                #[trigger] f.borrow_region@[j],
            ),
            forall|j: int, k: int|
                0 <= j < f.outlives@.len() && 0 <= k < f.borrow_region@.len() ==> r@.contains(
                    (
                        (#[trigger] f.outlives@[j]).2,
                        (#[trigger] f.borrow_region@[k]).1,
                        f.outlives@[j].3,
                    ),
                ),
            forall|j: int, k: int|
                0 <= j < i && 0 <= k < f.borrow_region@.len() ==> r@.contains(
                    ((#[trigger] live@[j]).0, (#[trigger] f.borrow_region@[k]).1, live@[j].1),
                ),
            forall|x: (Region, Borrow, Point)| r@.contains(x) ==> pool_set(*f).contains(x),
        decreases live@.len() - i,
    {
        let l = live[i];
        let mut k: usize = 0;
        while k < f.borrow_region.len()
            invariant
                k <= f.borrow_region@.len(),
                i < live@.len(),
                live@.to_set() == region_live_at_set(*f),
                l == live@[i as int],
                r@.no_duplicates(),
                forall|j: int| 0 <= j < f.borrow_region@.len() ==> r@.contains(
                    #[trigger] f.borrow_region@[j],
                ),
                forall|j: int, k2: int|
                    0 <= j < f.outlives@.len() && 0 <= k2 < f.borrow_region@.len()
                        ==> r@.contains(
                        (
                            (#[trigger] f.outlives@[j]).2,
                            (#[trigger] f.borrow_region@[k2]).1,
                            f.outlives@[j].3,
                        ),
                    ),
                forall|j: int, k2: int|
                    0 <= j < i && 0 <= k2 < f.borrow_region@.len() ==> r@.contains(
                        (
                            (#[trigger] live@[j]).0,
                            (#[trigger] f.borrow_region@[k2]).1,
                            live@[j].1,
                        ),
                    ),
                forall|k2: int|
                    0 <= k2 < k ==> r@.contains(
                        (l.0, (#[trigger] f.borrow_region@[k2]).1, l.1),
                    ),
                forall|x: (Region, Borrow, Point)| r@.contains(x) ==> pool_set(*f).contains(x),
            decreases f.borrow_region@.len() - k,
        {
            let b = f.borrow_region[k].1;
            let cand = (l.0, b, l.1);
            if !contains_rbp(&r, cand) {
                proof {
                    assert(f.borrow_region@.contains(f.borrow_region@[k as int]));
                    assert(borrows_of(*f).contains(b));
                    assert(live@.contains(l));
                    assert(region_live_at_set(*f).contains((cand.0, cand.2)));
                    assert(pool_set(*f).contains(cand));
                }
                r.push(cand);
            }
            k = k + 1;
        }
        i = i + 1;
    }
    proof {
        assert forall|x: (Region, Borrow, Point)| pool_set(*f).contains(x) implies r@.contains(
            x,
        ) by {
            if f.borrow_region@.contains(x) {
                let j = choose|j: int|
                    0 <= j < f.borrow_region@.len() && f.borrow_region@[j] == x;
                assert(r@.contains(f.borrow_region@[j]));
            } else {
                let t = choose|t: (Region, Borrow, Point)|
                    #[trigger] f.borrow_region@.contains(t) && t.1 == x.1;
                let k = choose|k: int|
                    0 <= k < f.borrow_region@.len() && f.borrow_region@[k] == t;
                if exists|o: (Point, Region, Region, Point)|
                    #[trigger] f.outlives@.contains(o) && o.2 == x.0 && o.3 == x.2 {
                    let o = choose|o: (Point, Region, Region, Point)|
                        #[trigger] f.outlives@.contains(o) && o.2 == x.0 && o.3 == x.2;
                    let j = choose|j: int| 0 <= j < f.outlives@.len() && f.outlives@[j] == o;
                    assert(r@.contains(
                        (f.outlives@[j].2, f.borrow_region@[k].1, f.outlives@[j].3),
                    ));
                } else {
                    assert(region_live_at_set(*f).contains((x.0, x.2)));
                    assert(live@.to_set().contains((x.0, x.2)));
                    let j = choose|j: int| 0 <= j < live@.len() && live@[j] == (x.0, x.2);
                    assert(r@.contains((live@[j].0, f.borrow_region@[k].1, live@[j].1)));
                }
            }
        }
        assert(r@.to_set() =~= pool_set(*f));
    }
    r
}

// ------------------------------------------------------------------
// Live-Borrow Extractor.
// ------------------------------------------------------------------

/// Strict order on `(Borrow, Point)` pairs: by borrow identity, then by
/// point identity.
pub open spec fn bp_lt(a: (Borrow, Point), b: (Borrow, Point)) -> bool {
    a.0.index < b.0.index || (a.0.index == b.0.index && a.1.index < b.1.index)
}

/// The sequence is strictly ascending under [`bp_lt`].
pub open spec fn bp_sorted(s: Seq<(Borrow, Point)>) -> bool {
    forall|i: int, j: int| 0 <= i < j < s.len() ==> bp_lt(s[i], s[j])
}

/// Executable comparison deciding [`bp_lt`].
fn bp_lt_exec(a: (Borrow, Point), b: (Borrow, Point)) -> (r: bool)
    ensures
        r == bp_lt(a, b),
{
    a.0.index < b.0.index || (a.0.index == b.0.index && a.1.index < b.1.index)
}

/// A strictly ascending sequence has no duplicates.
proof fn lemma_bp_sorted_no_duplicates(s: Seq<(Borrow, Point)>)
    requires
        bp_sorted(s),
    ensures
        s.no_duplicates(),
{
    assert forall|i: int, j: int| 0 <= i < s.len() && 0 <= j < s.len() && i != j implies s[i]
        != s[j] by {
        if i < j {
            assert(bp_lt(s[i], s[j]));
        } else {
            assert(bp_lt(s[j], s[i]));
        }
    }
}

/// Sorts a duplicate-free answer set by `(Borrow, Point)` for
/// deterministic presentation.
pub fn sort_bp(v: &Vec<(Borrow, Point)>) -> (r: Vec<(Borrow, Point)>)
    requires
        v@.no_duplicates(),
    ensures
        r@.to_set() == v@.to_set(),
        bp_sorted(r@),
{
    let mut r: Vec<(Borrow, Point)> = Vec::new();
    let mut i: usize = 0;
    while i < v.len()
        invariant
            i <= v@.len(),
            v@.no_duplicates(),
            bp_sorted(r@),
            forall|x: (Borrow, Point)| #[trigger] r@.contains(x) ==> v@.take(i as int).contains(
                x,
            ),
            forall|j: int| 0 <= j < i ==> r@.contains(#[trigger] v@[j]),
        decreases v@.len() - i,
    {
        let t = v[i];
        proof {
            assert(v@[i as int] == t);
            if r@.contains(t) {
                assert(v@.take(i as int).contains(t));
                let j = choose|j: int| 0 <= j < i && v@.take(i as int)[j] == t;
                assert(v@[j] == v@[i as int]);
                assert(false);
            }
        }
        // Find the insertion position: everything before it is smaller.
        let mut k: usize = 0;
        while k < r.len()
            invariant
                k <= r@.len(),
                bp_sorted(r@),
                !r@.contains(t),
                forall|j: int| 0 <= j < k ==> bp_lt(#[trigger] r@[j], t),
            ensures
                k <= r@.len(),
                forall|j: int| 0 <= j < k ==> bp_lt(#[trigger] r@[j], t),
                k < r@.len() ==> bp_lt(t, r@[k as int]),
            decreases r@.len() - k,
        {
            if !bp_lt_exec(r[k], t) {
                proof {
                    assert(r@.contains(r@[k as int]));
                    assert(r@[k as int] != t);
                    assert(bp_lt(t, r@[k as int]));
                }
                break;
            }
            k = k + 1;
        }
        proof {
            assert(forall|j: int| 0 <= j < k ==> bp_lt(#[trigger] r@[j], t));
            assert forall|j: int| k <= j < r@.len() implies bp_lt(t, #[trigger] r@[j]) by {
                assert(bp_lt(t, r@[k as int]));
                if j > k {
                    assert(bp_lt(r@[k as int], r@[j]));
                }
            }
        }
        let ghost r0 = r@;
        r.insert(k, t);
        proof {
            assert(r@ == r0.insert(k as int, t));
            assert(r@.len() == r0.len() + 1);
            assert(forall|j: int| 0 <= j < k ==> r@[j] == r0[j]);
            assert(r@[k as int] == t);
            assert(forall|j: int| k < j < r@.len() ==> r@[j] == r0[j - 1]);
            assert forall|a: int, b: int| 0 <= a < b < r@.len() implies bp_lt(r@[a], r@[b]) by {
                if a < k && b == k {
                } else if a == k && b > k {
                } else if a < k && b > k {
                    assert(bp_lt(r0[a], t));
                    assert(bp_lt(t, r0[b - 1]));
                } else if b < k {
                    assert(bp_lt(r0[a], r0[b]));
                } else if a > k {
                    assert(bp_lt(r0[a - 1], r0[b - 1]));
                }
            }
            assert forall|x: (Borrow, Point)| #[trigger] r@.contains(x) implies v@.take(
                i as int + 1,
            ).contains(x) by {
                let j = choose|j: int| 0 <= j < r@.len() && r@[j] == x;
                if j < k {
                    assert(r0.contains(x));
                    assert(v@.take(i as int).contains(x));
                    let jj = choose|jj: int| 0 <= jj < i && v@.take(i as int)[jj] == x;
                    assert(v@.take(i as int + 1)[jj] == x);
                } else if j == k {
                    assert(v@.take(i as int + 1)[i as int] == t);
                } else {
                    assert(r0.contains(x));
                    assert(v@.take(i as int).contains(x));
                    let jj = choose|jj: int| 0 <= jj < i && v@.take(i as int)[jj] == x;
                    assert(v@.take(i as int + 1)[jj] == x);
                }
            }
            assert forall|j: int| 0 <= j < i + 1 implies r@.contains(#[trigger] v@[j]) by {
                if j < i {
                    assert(r0.contains(v@[j]));
                    let jj = choose|jj: int| 0 <= jj < r0.len() && r0[jj] == v@[j];
                    if jj < k {
                        assert(r@[jj] == v@[j]);
                    } else {
                        assert(r@[jj + 1] == v@[j]);
                    }
                } else {
                    assert(r@[k as int] == v@[j]);
                }
            }
        }
        i = i + 1;
    }
    proof {
        assert forall|x: (Borrow, Point)| r@.contains(x) implies v@.contains(x) by {
            assert(v@.take(v@.len() as int).contains(x));
            let j = choose|j: int|
                0 <= j < v@.len() && v@.take(v@.len() as int)[j] == x;
            assert(v@[j] == x);
        }
        assert(r@.to_set() =~= v@.to_set());
    }
    r
}

/// `BorrowLiveAt(B, P) ⟸ Restricts(R, B, P) ∧ RegionLiveAt(R, P)`,
/// projected to `(B, P)`, deduplicated and sorted by `(Borrow, Point)`.
///
/// The fixpoint loop inside [`restricts`] carries an explicit bound
/// (`decreases`), so the whole computation terminates on every finite
/// fact store.
pub fn borrow_live_at(f: &AllFacts) -> (r: Vec<(Borrow, Point)>)
    ensures
        r@.to_set() == borrow_live_at_set(*f),
        bp_sorted(r@),
{
    let cfg = cfg_edge(f);
    let live = region_live_at(f);
    let rst = restricts(f, &cfg, &live);
    let mut out: Vec<(Borrow, Point)> = Vec::new();
    let mut i: usize = 0;
    while i < rst.len()
        invariant
            i <= rst@.len(),
            live@.to_set() == region_live_at_set(*f),
            rst@.to_set() == restricts_set(*f),
            out@.no_duplicates(),
            forall|x: (Borrow, Point)| #[trigger] out@.contains(x) ==> borrow_live_at_set(
                *f,
            ).contains(x),
            forall|j: int|
                0 <= j < i && region_live_at_set(*f).contains(
                    ((#[trigger] rst@[j]).0, rst@[j].2),
                ) ==> out@.contains((rst@[j].1, rst@[j].2)),
        decreases rst@.len() - i,
    {
        let t = rst[i];
        proof {
            assert(rst@[i as int] == t);
            assert(rst@.contains(t));
            assert(rst@.to_set().contains(t));
        }
        if contains_rp(&live, (t.0, t.2)) {
            let cand = (t.1, t.2);
            proof {
                assert(live@.to_set().contains((t.0, t.2)));
                assert(restricts_set(*f).contains((t.0, cand.0, cand.1)));
                assert(region_live_at_set(*f).contains((t.0, cand.1)));
                assert(borrow_live_at_set(*f).contains(cand));
            }
            if !contains_bp(&out, cand) {
                out.push(cand);
            }
        } else {
            proof {
                if region_live_at_set(*f).contains((t.0, t.2)) {
                    assert(live@.to_set().contains((t.0, t.2)));
                }
            }
        }
        i = i + 1;
    }
    proof {
        assert forall|x: (Borrow, Point)|
            borrow_live_at_set(*f).contains(x) implies out@.contains(x) by {
            let rg = choose|rg: Region|
                #[trigger] restricts_set(*f).contains((rg, x.0, x.1)) && region_live_at_set(
                    *f,
                ).contains((rg, x.1));
            assert(rst@.to_set().contains((rg, x.0, x.1)));
            assert(rst@.contains((rg, x.0, x.1)));
            let j = choose|j: int| 0 <= j < rst@.len() && rst@[j] == (rg, x.0, x.1);
            assert(region_live_at_set(*f).contains((rst@[j].0, rst@[j].2)));
            assert(out@.contains((rst@[j].1, rst@[j].2)));
        }
        assert(out@.to_set() =~= borrow_live_at_set(*f));
    }
    sort_bp(&out)
}

// ------------------------------------------------------------------
// Laws of the solver.
// ------------------------------------------------------------------

/// Monotonicity: enlarging the outlives relation (all other base
/// relations unchanged as sets) can only enlarge the answer set.
pub proof fn lemma_borrow_live_at_monotone(f1: AllFacts, f2: AllFacts)
    requires
        f1.borrow_region@.to_set() == f2.borrow_region@.to_set(),
        f1.next_statement@.to_set() == f2.next_statement@.to_set(),
        f1.goto@.to_set() == f2.goto@.to_set(),
        f1.region_live_on_entry@.to_set() == f2.region_live_on_entry@.to_set(),
        f1.killed@.to_set() == f2.killed@.to_set(),
        f1.outlives@.to_set().subset_of(f2.outlives@.to_set()),
    ensures
        borrow_live_at_set(f1).subset_of(borrow_live_at_set(f2)),
{
    assert forall|x: (Point, Point)|
        f1.next_statement@.contains(x) <==> f2.next_statement@.contains(x) by {
        assert(f1.next_statement@.to_set().contains(x) == f1.next_statement@.contains(x));
        assert(f2.next_statement@.to_set().contains(x) == f2.next_statement@.contains(x));
    }
    assert forall|x: (Point, Point)| f1.goto@.contains(x) <==> f2.goto@.contains(x) by {
        assert(f1.goto@.to_set().contains(x) == f1.goto@.contains(x));
        assert(f2.goto@.to_set().contains(x) == f2.goto@.contains(x));
    }
    assert forall|x: (Region, Point)|
        f1.region_live_on_entry@.contains(x) <==> f2.region_live_on_entry@.contains(x) by {
        assert(f1.region_live_on_entry@.to_set().contains(x) == f1.region_live_on_entry@.contains(
            x,
        ));
        assert(f2.region_live_on_entry@.to_set().contains(x) == f2.region_live_on_entry@.contains(
            x,
        ));
    }
    assert forall|x: (Borrow, Point)| f1.killed@.contains(x) <==> f2.killed@.contains(x) by {
        assert(f1.killed@.to_set().contains(x) == f1.killed@.contains(x));
        assert(f2.killed@.to_set().contains(x) == f2.killed@.contains(x));
    }
    assert forall|x: (Point, Region, Region, Point)|
        f1.outlives@.contains(x) implies f2.outlives@.contains(x) by {
        assert(f1.outlives@.to_set().contains(x));
        assert(f2.outlives@.to_set().contains(x));
    }
    assert(cfg_edge_set(f1) =~= cfg_edge_set(f2));
    assert(region_live_at_set(f1) =~= region_live_at_set(f2));
    assert forall|s: Set<(Region, Borrow, Point)>| #[trigger]
        restricts_closed(f2, s) implies restricts_closed(f1, s) by {
        assert forall|x: (Region, Borrow, Point)|
            f1.borrow_region@.to_set().contains(x) implies s.contains(x) by {
            assert(f2.borrow_region@.to_set().contains(x));
        }
        assert forall|u: (Region, Borrow, Point)|
            step(f1, s).contains(u) implies s.contains(u) by {
            let t = choose|t: (Region, Borrow, Point)|
                #[trigger] s.contains(t) && (flow_edge(f1, t, u) || carry_edge(f1, t, u));
            assert(flow_edge(f1, t, u) ==> flow_edge(f2, t, u));
            assert(carry_edge(f1, t, u) ==> carry_edge(f2, t, u));
            assert(step(f2, s).contains(u));
        }
    }
    assert forall|t: (Region, Borrow, Point)|
        restricts_set(f1).contains(t) implies restricts_set(f2).contains(t) by {
        assert forall|s: Set<(Region, Borrow, Point)>| #[trigger]
            restricts_closed(f2, s) implies s.contains(t) by {
            assert(restricts_closed(f1, s));
        }
    }
    assert forall|x: (Borrow, Point)|
        borrow_live_at_set(f1).contains(x) implies borrow_live_at_set(f2).contains(x) by {
        let rg = choose|rg: Region|
            #[trigger] restricts_set(f1).contains((rg, x.0, x.1)) && region_live_at_set(
                f1,
            ).contains((rg, x.1));
        assert(restricts_set(f2).contains((rg, x.0, x.1)));
        assert(region_live_at_set(f2).contains((rg, x.1)));
    }
}

/// Purity: the answer of the solver is a function of the fact store
/// alone.  Any two outputs meeting [`borrow_live_at`]'s contract for the
/// same store — whatever order rules were applied in — are equal,
/// element for element.
pub proof fn lemma_borrow_live_at_deterministic(
    f: AllFacts,
    r1: Seq<(Borrow, Point)>,
    r2: Seq<(Borrow, Point)>,
)
    requires
        r1.to_set() == borrow_live_at_set(f),
        r2.to_set() == borrow_live_at_set(f),
        bp_sorted(r1),
        bp_sorted(r2),
    ensures
        r1 == r2,
{
    lemma_bp_sorted_unique(r1, r2);
}

/// Two strictly ascending sequences with the same elements are equal.
proof fn lemma_bp_sorted_unique(r1: Seq<(Borrow, Point)>, r2: Seq<(Borrow, Point)>)
    requires
        r1.to_set() == r2.to_set(),
        bp_sorted(r1),
        bp_sorted(r2),
    ensures
        r1 == r2,
    decreases r1.len(),
{
    lemma_bp_sorted_no_duplicates(r1);
    lemma_bp_sorted_no_duplicates(r2);
    if r1.len() == 0 {
        if r2.len() > 0 {
            assert(r2.contains(r2[0]));
            assert(r2.to_set().contains(r2[0]));
            assert(r1.to_set().contains(r2[0]));
            assert(r1.contains(r2[0]));
            assert(false);
        }
        assert(r1 =~= r2);
    } else {
        if r2.len() == 0 {
            assert(r1.contains(r1[0]));
            assert(r1.to_set().contains(r1[0]));
            assert(r2.to_set().contains(r1[0]));
            assert(r2.contains(r1[0]));
            assert(false);
        }
        let a = r1.last();
        let b = r2.last();
        assert(r1.contains(a));
        assert(r2.to_set().contains(a));
        assert(r2.contains(a));
        assert(r1.to_set().contains(b));
        assert(r1.contains(b));
        let ja = choose|ja: int| 0 <= ja < r2.len() && r2[ja] == a;
        let jb = choose|jb: int| 0 <= jb < r1.len() && r1[jb] == b;
        assert(ja < r2.len() - 1 ==> bp_lt(a, b));
        assert(jb < r1.len() - 1 ==> bp_lt(b, a));
        assert(a == b) by {
            if a != b {
                assert(ja < r2.len() - 1);
                assert(jb < r1.len() - 1);
                assert(bp_lt(a, b) && bp_lt(b, a));
            }
        }
        let s1 = r1.drop_last();
        let s2 = r2.drop_last();
        assert forall|x: (Borrow, Point)| s1.contains(x) implies s2.contains(x) by {
            let j = choose|j: int| 0 <= j < s1.len() && s1[j] == x;
            assert(r1[j] == x);
            assert(x != a);
            assert(r1.contains(x));
            assert(r2.to_set().contains(x));
            assert(r2.contains(x));
            let k = choose|k: int| 0 <= k < r2.len() && r2[k] == x;
            assert(k != r2.len() - 1);
            assert(s2[k] == x);
        }
        assert forall|x: (Borrow, Point)| s2.contains(x) implies s1.contains(x) by {
            let j = choose|j: int| 0 <= j < s2.len() && s2[j] == x;
            assert(r2[j] == x);
            assert(x != b);
            assert(r2.contains(x));
            assert(r1.to_set().contains(x));
            assert(r1.contains(x));
            let k = choose|k: int| 0 <= k < r1.len() && r1[k] == x;
            assert(k != r1.len() - 1);
            assert(s1[k] == x);
        }
        assert(s1.to_set() =~= s2.to_set());
        assert(bp_sorted(s1)) by {
            assert(forall|i: int, j: int|
                0 <= i < j < s1.len() ==> bp_lt(#[trigger] s1[i], #[trigger] s1[j]));
        }
        assert(bp_sorted(s2)) by {
            assert(forall|i: int, j: int|
                0 <= i < j < s2.len() ==> bp_lt(#[trigger] s2[i], #[trigger] s2[j]));
        }
        lemma_bp_sorted_unique(s1, s2);
        assert(r1.len() == r2.len());
        assert forall|i: int| 0 <= i < r1.len() implies r1[i] == r2[i] by {
            if i < r1.len() - 1 {
                assert(s1[i] == r1[i]);
                assert(s2[i] == r2[i]);
                assert(s1 == s2);
            } else {
                assert(r1[i] == a);
                assert(r2[i] == b);
            }
        }
        assert(r1 =~= r2);
    }
}

/// Kill suppresses flow: if `Killed(B, P)` holds, then neither rule 2 nor
/// rule 3 derives anything from a tuple `Restricts(R, B, P)` — one step
/// of the rules applied to that tuple alone yields the empty set.
pub proof fn lemma_kill_suppresses_flow(f: AllFacts, t: (Region, Borrow, Point))
    requires
        f.killed@.contains((t.1, t.2)),
    ensures
        forall|u: (Region, Borrow, Point)| !flow_edge(f, t, u) && !carry_edge(f, t, u),
        step(f, Set::<(Region, Borrow, Point)>::empty().insert(t)) == Set::<
            (Region, Borrow, Point),
        >::empty(),
{
    assert(step(f, Set::<(Region, Borrow, Point)>::empty().insert(t)) =~= Set::<
        (Region, Borrow, Point),
    >::empty());
}

// ------------------------------------------------------------------
// Fact Store construction and the named pipeline.
// ------------------------------------------------------------------

/// The id-level fact store resolves, row by row and column by column,
/// to the given name rows under the given tables.
pub open spec fn facts_match_rows(
    f: AllFacts,
    rt: Seq<Seq<char>>,
    bt: Seq<Seq<char>>,
    pt: Seq<Seq<char>>,
    brv: Seq<(Seq<char>, Seq<char>, Seq<char>)>,
    nsv: Seq<(Seq<char>, Seq<char>)>,
    gtv: Seq<(Seq<char>, Seq<char>)>,
    rlv: Seq<(Seq<char>, Seq<char>)>,
    klv: Seq<(Seq<char>, Seq<char>)>,
    olv: Seq<(Seq<char>, Seq<char>, Seq<char>, Seq<char>)>,
) -> bool {
    &&& f.borrow_region@.len() == brv.len()
    &&& forall|i: int|
        0 <= i < brv.len() ==> row3_ok(#[trigger] f.borrow_region@[i], brv[i], rt, bt, pt)
    &&& f.next_statement@.len() == nsv.len()
    &&& forall|i: int|
        0 <= i < nsv.len() ==> row_pp_ok(#[trigger] f.next_statement@[i], nsv[i], pt)
    &&& f.goto@.len() == gtv.len()
    &&& forall|i: int| 0 <= i < gtv.len() ==> row_pp_ok(#[trigger] f.goto@[i], gtv[i], pt)
    &&& f.region_live_on_entry@.len() == rlv.len()
    &&& forall|i: int|
        0 <= i < rlv.len() ==> row_rp_ok(#[trigger] f.region_live_on_entry@[i], rlv[i], rt, pt)
    &&& f.killed@.len() == klv.len()
    &&& forall|i: int| 0 <= i < klv.len() ==> row_bp_ok(#[trigger] f.killed@[i], klv[i], bt, pt)
    &&& f.outlives@.len() == olv.len()
    &&& forall|i: int| 0 <= i < olv.len() ==> row4_ok(#[trigger] f.outlives@[i], olv[i], rt, pt)
}

/// Every identifier occurring in the fact store lies below the given
/// bounds.
pub open spec fn facts_ids_below(f: AllFacts, nr: int, nb: int, np: int) -> bool {
    &&& forall|i: int|
        0 <= i < f.borrow_region@.len() ==> (#[trigger] f.borrow_region@[i]).0.index < nr
            && f.borrow_region@[i].1.index < nb && f.borrow_region@[i].2.index < np
    &&& forall|i: int|
        0 <= i < f.next_statement@.len() ==> (#[trigger] f.next_statement@[i]).0.index < np
            && f.next_statement@[i].1.index < np
    &&& forall|i: int|
        0 <= i < f.goto@.len() ==> (#[trigger] f.goto@[i]).0.index < np
            && f.goto@[i].1.index < np
    &&& forall|i: int|
        0 <= i < f.region_live_on_entry@.len() ==> (
        #[trigger] f.region_live_on_entry@[i]).0.index < nr
            && f.region_live_on_entry@[i].1.index < np
    &&& forall|i: int|
        0 <= i < f.killed@.len() ==> (#[trigger] f.killed@[i]).0.index < nb
            && f.killed@[i].1.index < np
    &&& forall|i: int|
        0 <= i < f.outlives@.len() ==> (#[trigger] f.outlives@[i]).0.index < np
            && f.outlives@[i].1.index < nr && f.outlives@[i].2.index < nr
            && f.outlives@[i].3.index < np
}

/// `Restricts` never leaves the candidate pool.
pub proof fn lemma_restricts_in_pool(f: AllFacts)
    ensures
        restricts_set(f).subset_of(pool_set(f)),
{
    assert(restricts_closed(f, pool_set(f))) by {
        assert forall|x: (Region, Borrow, Point)|
            f.borrow_region@.to_set().contains(x) implies pool_set(f).contains(x) by {
            assert(f.borrow_region@.contains(x));
        }
        assert forall|u: (Region, Borrow, Point)|
            step(f, pool_set(f)).contains(u) implies pool_set(f).contains(u) by {
            let t = choose|t: (Region, Borrow, Point)|
                #[trigger] pool_set(f).contains(t) && (flow_edge(f, t, u) || carry_edge(f, t, u));
            assert(borrows_of(f).contains(t.1)) by {
                if f.borrow_region@.contains(t) {
                    assert(f.borrow_region@.contains(t) && t.1 == t.1);
                }
            }
            if flow_edge(f, t, u) {
                let o = (t.2, t.0, u.0, u.2);
                assert(f.outlives@.contains(o) && o.2 == u.0 && o.3 == u.2);
            }
        }
    }
    assert forall|x: (Region, Borrow, Point)|
        restricts_set(f).contains(x) implies pool_set(f).contains(x) by {
        assert(restricts_closed(f, pool_set(f)));
    }
}

/// Every answer tuple's identifiers lie below the fact store's bounds.
pub proof fn lemma_answer_ids_below(f: AllFacts, nr: int, nb: int, np: int)
    requires
        facts_ids_below(f, nr, nb, np),
    ensures
        forall|x: (Borrow, Point)|
            #[trigger] borrow_live_at_set(f).contains(x) ==> x.0.index < nb && x.1.index < np,
{
    lemma_restricts_in_pool(f);
    assert forall|x: (Borrow, Point)| #[trigger]
        borrow_live_at_set(f).contains(x) implies x.0.index < nb && x.1.index < np by {
        let rg = choose|rg: Region|
            #[trigger] restricts_set(f).contains((rg, x.0, x.1)) && region_live_at_set(
                f,
            ).contains((rg, x.1));
        let t = (rg, x.0, x.1);
        assert(pool_set(f).contains(t));
        assert(x.0.index < nb) by {
            if f.borrow_region@.contains(t) {
                let i = choose|i: int|
                    0 <= i < f.borrow_region@.len() && f.borrow_region@[i] == t;
            } else {
                let w = choose|w: (Region, Borrow, Point)|
                    #[trigger] f.borrow_region@.contains(w) && w.1 == t.1;
                let i = choose|i: int|
                    0 <= i < f.borrow_region@.len() && f.borrow_region@[i] == w;
            }
        }
        assert(x.1.index < np) by {
            if f.borrow_region@.contains(t) {
                let i = choose|i: int|
                    0 <= i < f.borrow_region@.len() && f.borrow_region@[i] == t;
            } else if exists|o: (Point, Region, Region, Point)|
                #[trigger] f.outlives@.contains(o) && o.2 == t.0 && o.3 == t.2 {
                let o = choose|o: (Point, Region, Region, Point)|
                    #[trigger] f.outlives@.contains(o) && o.2 == t.0 && o.3 == t.2;
                let i = choose|i: int| 0 <= i < f.outlives@.len() && f.outlives@[i] == o;
            } else {
                assert(region_live_at_set(f).contains((t.0, t.2)));
                if f.region_live_on_entry@.contains((t.0, t.2)) {
                    let i = choose|i: int|
                        0 <= i < f.region_live_on_entry@.len() && f.region_live_on_entry@[i] == (
                        t.0,
                        t.2,
                        );
                } else {
                    let q = choose|q: Point|
                        #[trigger] f.goto@.contains((t.2, q))
                            && f.region_live_on_entry@.contains((t.0, q));
                    let i = choose|i: int| 0 <= i < f.goto@.len() && f.goto@[i] == (t.2, q);
                }
            }
        }
    }
}

/// The sorted answer sequence: the unique strictly ascending sequence
/// holding exactly `borrow_live_at_set(f)`.
pub open spec fn sorted_borrow_live_at(f: AllFacts) -> Seq<(Borrow, Point)> {
    choose|s: Seq<(Borrow, Point)>| bp_sorted(s) && s.to_set() == borrow_live_at_set(f)
}

/// Any strictly ascending vector holding the answer set is THE sorted
/// answer sequence.
pub proof fn lemma_sorted_borrow_live_at_is(f: AllFacts, v: Seq<(Borrow, Point)>)
    requires
        bp_sorted(v),
        v.to_set() == borrow_live_at_set(f),
    ensures
        sorted_borrow_live_at(f) == v,
{
    assert(bp_sorted(v) && v.to_set() == borrow_live_at_set(f));
    let c = sorted_borrow_live_at(f);
    assert(bp_sorted(c) && c.to_set() == borrow_live_at_set(f));
    lemma_bp_sorted_unique(c, v);
}

/// One line of the report: `borrow <name> live at <name>`.
pub open spec fn report_line_spec(bname: Seq<char>, pname: Seq<char>) -> Seq<char> {
    ("borrow ")@ + bname + (" live at ")@ + pname
}

/// The whole report of a sorted answer sequence, resolved through the
/// tables.
pub open spec fn report_seq(
    bt: Seq<Seq<char>>,
    pt: Seq<Seq<char>>,
    s: Seq<(Borrow, Point)>,
) -> Seq<Seq<char>> {
    s.map_values(
        |t: (Borrow, Point)| report_line_spec(bt[t.0.index as int], pt[t.1.index as int]),
    )
}

/// Builds the fact store from name rows, interning every name: relation
/// by relation, row by row, column by column.
pub fn intern_facts(
    tables: &mut InternerTables,
    br: &Vec<(String, String, String)>,
    ns: &Vec<(String, String)>,
    gt: &Vec<(String, String)>,
    rl: &Vec<(String, String)>,
    kl: &Vec<(String, String)>,
    ol: &Vec<(String, String, String, String)>,
) -> (f: AllFacts)
    requires
        old(tables).wf(),
    ensures
        final(tables).wf(),
        final(tables).regions@ == intern_all(
            old(tables).regions@,
            triple_firsts(views3(br@)) + pair_firsts(views2(rl@)) + quad_regions(views4(ol@)),
        ),
        final(tables).borrows@ == intern_all(
            old(tables).borrows@,
            triple_seconds(views3(br@)) + pair_firsts(views2(kl@)),
        ),
        final(tables).points@ == intern_all(
            old(tables).points@,
            triple_thirds(views3(br@)) + pair_both(views2(ns@)) + pair_both(views2(gt@))
                + pair_seconds(views2(rl@)) + pair_seconds(views2(kl@)) + quad_points(
                views4(ol@),
            ),
        ),
        facts_match_rows(
            f,
            final(tables).regions@,
            final(tables).borrows@,
            final(tables).points@,
            views3(br@),
            views2(ns@),
            views2(gt@),
            views2(rl@),
            views2(kl@),
            views4(ol@),
        ),
{
    let ghost r0 = tables.regions@;
    let ghost b0 = tables.borrows@;
    let ghost p0 = tables.points@;
    let fbr = intern_rows3(tables, br);
    let ghost rt1 = tables.regions@;
    let ghost bt1 = tables.borrows@;
    let ghost pt1 = tables.points@;
    let fns = intern_rows_pp(tables, ns);
    let ghost pt2 = tables.points@;
    let fgt = intern_rows_pp(tables, gt);
    let ghost pt3 = tables.points@;
    let frl = intern_rows_rp(tables, rl);
    let ghost rt2 = tables.regions@;
    let ghost pt4 = tables.points@;
    let fkl = intern_rows_bp(tables, kl);
    let ghost bt2 = tables.borrows@;
    let ghost pt5 = tables.points@;
    let fol = intern_rows4(tables, ol);
    let ghost rt3 = tables.regions@;
    let ghost pt6 = tables.points@;
    proof {
        // Regions: borrowRegion, then regionLiveOnEntry, then outlives.
        lemma_intern_all_append(r0, triple_firsts(views3(br@)), pair_firsts(views2(rl@)));
        lemma_intern_all_append(
            r0,
            triple_firsts(views3(br@)) + pair_firsts(views2(rl@)),
            quad_regions(views4(ol@)),
        );
        // Borrows: borrowRegion, then killed.
        lemma_intern_all_append(b0, triple_seconds(views3(br@)), pair_firsts(views2(kl@)));
        // Points: all six relations in order.
        lemma_intern_all_append(p0, triple_thirds(views3(br@)), pair_both(views2(ns@)));
        lemma_intern_all_append(
            p0,
            triple_thirds(views3(br@)) + pair_both(views2(ns@)),
            pair_both(views2(gt@)),
        );
        lemma_intern_all_append(
            p0,
            triple_thirds(views3(br@)) + pair_both(views2(ns@)) + pair_both(views2(gt@)),
            pair_seconds(views2(rl@)),
        );
        lemma_intern_all_append(
            p0,
            triple_thirds(views3(br@)) + pair_both(views2(ns@)) + pair_both(views2(gt@))
                + pair_seconds(views2(rl@)),
            pair_seconds(views2(kl@)),
        );
        lemma_intern_all_append(
            p0,
            triple_thirds(views3(br@)) + pair_both(views2(ns@)) + pair_both(views2(gt@))
                + pair_seconds(views2(rl@)) + pair_seconds(views2(kl@)),
            quad_points(views4(ol@)),
        );
        // The tables only grow, so earlier rows stay valid.
        lemma_intern_all_prefix(rt1, pair_firsts(views2(rl@)));
        lemma_intern_all_prefix(rt2, quad_regions(views4(ol@)));
        assert(is_prefix(rt1, rt3));
        lemma_intern_all_prefix(bt1, pair_firsts(views2(kl@)));
        lemma_intern_all_prefix(pt1, pair_both(views2(ns@)));
        lemma_intern_all_prefix(pt2, pair_both(views2(gt@)));
        lemma_intern_all_prefix(pt3, pair_seconds(views2(rl@)));
        lemma_intern_all_prefix(pt4, pair_seconds(views2(kl@)));
        lemma_intern_all_prefix(pt5, quad_points(views4(ol@)));
        assert(is_prefix(pt1, pt6));
        assert(is_prefix(pt2, pt6));
        assert(is_prefix(pt3, pt6));
        assert(is_prefix(pt4, pt6));
        assert forall|i: int| 0 <= i < views3(br@).len() implies row3_ok(
            #[trigger] fbr@[i],
            views3(br@)[i],
            rt3,
            bt2,
            pt6,
        ) by {
            assert(row3_ok(fbr@[i], views3(br@)[i], rt1, bt1, pt1));
        }
        assert forall|i: int| 0 <= i < views2(ns@).len() implies row_pp_ok(
            #[trigger] fns@[i],
            views2(ns@)[i],
            pt6,
        ) by {
            assert(row_pp_ok(fns@[i], views2(ns@)[i], pt2));
        }
        assert forall|i: int| 0 <= i < views2(gt@).len() implies row_pp_ok(
            #[trigger] fgt@[i],
            views2(gt@)[i],
            pt6,
        ) by {
            assert(row_pp_ok(fgt@[i], views2(gt@)[i], pt3));
        }
        assert forall|i: int| 0 <= i < views2(rl@).len() implies row_rp_ok(
            #[trigger] frl@[i],
            views2(rl@)[i],
            rt3,
            pt6,
        ) by {
            assert(row_rp_ok(frl@[i], views2(rl@)[i], rt2, pt4));
            assert(is_prefix(rt2, rt3));
        }
        assert forall|i: int| 0 <= i < views2(kl@).len() implies row_bp_ok(
            #[trigger] fkl@[i],
            views2(kl@)[i],
            bt2,
            pt6,
        ) by {
            assert(row_bp_ok(fkl@[i], views2(kl@)[i], bt2, pt5));
            assert(is_prefix(pt5, pt6));
        }
    }
    AllFacts {
        borrow_region: fbr,
        next_statement: fns,
        goto: fgt,
        region_live_on_entry: frl,
        killed: fkl,
        outlives: fol,
    }
}

/// Resolvable identifiers lie below the table lengths.
pub proof fn lemma_match_rows_ids_below(
    f: AllFacts,
    rt: Seq<Seq<char>>,
    bt: Seq<Seq<char>>,
    pt: Seq<Seq<char>>,
    brv: Seq<(Seq<char>, Seq<char>, Seq<char>)>,
    nsv: Seq<(Seq<char>, Seq<char>)>,
    gtv: Seq<(Seq<char>, Seq<char>)>,
    rlv: Seq<(Seq<char>, Seq<char>)>,
    klv: Seq<(Seq<char>, Seq<char>)>,
    olv: Seq<(Seq<char>, Seq<char>, Seq<char>, Seq<char>)>,
)
    requires
        facts_match_rows(f, rt, bt, pt, brv, nsv, gtv, rlv, klv, olv),
    ensures
        facts_ids_below(f, rt.len() as int, bt.len() as int, pt.len() as int),
{
    assert forall|i: int|
        0 <= i < f.borrow_region@.len() implies (#[trigger] f.borrow_region@[i]).0.index
        < rt.len() && f.borrow_region@[i].1.index < bt.len() && f.borrow_region@[i].2.index
        < pt.len() by {
        assert(row3_ok(f.borrow_region@[i], brv[i], rt, bt, pt));
    }
    assert forall|i: int|
        0 <= i < f.next_statement@.len() implies (#[trigger] f.next_statement@[i]).0.index
        < pt.len() && f.next_statement@[i].1.index < pt.len() by {
        assert(row_pp_ok(f.next_statement@[i], nsv[i], pt));
    }
    assert forall|i: int|
        0 <= i < f.goto@.len() implies (#[trigger] f.goto@[i]).0.index < pt.len()
        && f.goto@[i].1.index < pt.len() by {
        assert(row_pp_ok(f.goto@[i], gtv[i], pt));
    }
    assert forall|i: int|
        0 <= i < f.region_live_on_entry@.len() implies (
    #[trigger] f.region_live_on_entry@[i]).0.index < rt.len()
        && f.region_live_on_entry@[i].1.index < pt.len() by {
        assert(row_rp_ok(f.region_live_on_entry@[i], rlv[i], rt, pt));
    }
    assert forall|i: int|
        0 <= i < f.killed@.len() implies (#[trigger] f.killed@[i]).0.index < bt.len()
        && f.killed@[i].1.index < pt.len() by {
        assert(row_bp_ok(f.killed@[i], klv[i], bt, pt));
    }
    assert forall|i: int|
        0 <= i < f.outlives@.len() implies (#[trigger] f.outlives@[i]).0.index < pt.len()
        && f.outlives@[i].1.index < rt.len() && f.outlives@[i].2.index < rt.len()
        && f.outlives@[i].3.index < pt.len() by {
        assert(row4_ok(f.outlives@[i], olv[i], rt, pt));
    }
}

/// The full pipeline on a control-flow input: lower it to name rows,
/// intern them into a fresh fact store, and solve.  Returns the frozen
/// tables, the fact store, and the sorted answer.
pub fn solve_facts(input: &Input) -> (r: (InternerTables, AllFacts, Vec<(Borrow, Point)>))
    ensures
        r.0.wf(),
        r.0.regions@ == intern_all(
            Seq::<Seq<char>>::empty(),
            triple_firsts(crate::lower::borrow_region_of_blocks(input@.blocks)) + pair_firsts(
                crate::lower::region_live_of_blocks(input@.blocks),
            ) + quad_regions(crate::lower::outlives_of_blocks(input@.blocks)),
        ),
        r.0.borrows@ == intern_all(
            Seq::<Seq<char>>::empty(),
            triple_seconds(crate::lower::borrow_region_of_blocks(input@.blocks)) + pair_firsts(
                crate::lower::killed_of_blocks(input@.blocks),
            ),
        ),
        r.0.points@ == intern_all(
            Seq::<Seq<char>>::empty(),
            triple_thirds(crate::lower::borrow_region_of_blocks(input@.blocks)) + pair_both(
                crate::lower::next_statement_of_blocks(input@.blocks),
            ) + pair_both(crate::lower::goto_of_blocks(input@.blocks)) + pair_seconds(
                crate::lower::region_live_of_blocks(input@.blocks),
            ) + pair_seconds(crate::lower::killed_of_blocks(input@.blocks)) + quad_points(
                crate::lower::outlives_of_blocks(input@.blocks),
            ),
        ),
        facts_match_rows(
            r.1,
            r.0.regions@,
            r.0.borrows@,
            r.0.points@,
            crate::lower::borrow_region_of_blocks(input@.blocks),
            crate::lower::next_statement_of_blocks(input@.blocks),
            crate::lower::goto_of_blocks(input@.blocks),
            crate::lower::region_live_of_blocks(input@.blocks),
            crate::lower::killed_of_blocks(input@.blocks),
            crate::lower::outlives_of_blocks(input@.blocks),
        ),
        r.2@ == sorted_borrow_live_at(r.1),
        r.2@.to_set() == borrow_live_at_set(r.1),
        bp_sorted(r.2@),
{
    let mut tables = InternerTables::new();
    let br = input.borrow_region_facts();
    let ns = input.next_statement_facts();
    let gt = input.goto_facts();
    let rl = input.region_live_on_entry_facts();
    let kl = input.killed_facts();
    let ol = input.outlives_facts();
    let facts = intern_facts(&mut tables, &br, &ns, &gt, &rl, &kl, &ol);
    let answer = borrow_live_at(&facts);
    proof {
        lemma_sorted_borrow_live_at_is(facts, answer@);
    }
    (tables, facts, answer)
}

/// The whole run on a control-flow input: lower, intern, solve and
/// render the report.  Returns the frozen tables, the fact store and
/// the report lines.
pub fn region_computation(input: &Input) -> (r: (InternerTables, AllFacts, Vec<String>))
    ensures
        r.0.wf(),
        facts_match_rows(
            r.1,
            r.0.regions@,
            r.0.borrows@,
            r.0.points@,
            crate::lower::borrow_region_of_blocks(input@.blocks),
            crate::lower::next_statement_of_blocks(input@.blocks),
            crate::lower::goto_of_blocks(input@.blocks),
            crate::lower::region_live_of_blocks(input@.blocks),
            crate::lower::killed_of_blocks(input@.blocks),
            crate::lower::outlives_of_blocks(input@.blocks),
        ),
        r.2.deep_view() == report_seq(
            r.0.borrows@,
            r.0.points@,
            sorted_borrow_live_at(r.1),
        ),
{
    let (tables, facts, _) = solve_facts(input);
    proof {
        lemma_match_rows_ids_below(
            facts,
            tables.regions@,
            tables.borrows@,
            tables.points@,
            crate::lower::borrow_region_of_blocks(input@.blocks),
            crate::lower::next_statement_of_blocks(input@.blocks),
            crate::lower::goto_of_blocks(input@.blocks),
            crate::lower::region_live_of_blocks(input@.blocks),
            crate::lower::killed_of_blocks(input@.blocks),
            crate::lower::outlives_of_blocks(input@.blocks),
        );
    }
    let lines = region_computation_from_facts(&tables, &facts);
    (tables, facts, lines)
}

/// Solves an already-interned fact store and renders the report: one
/// `borrow <name> live at <name>` line per answer tuple, sorted by
/// `(Borrow, Point)`.
pub fn region_computation_from_facts(
    tables: &InternerTables,
    facts: &AllFacts,
) -> (r: Vec<String>)
    requires
        tables.wf(),
        facts_ids_below(
            *facts,
            tables.regions@.len() as int,
            tables.borrows@.len() as int,
            tables.points@.len() as int,
        ),
    ensures
        r.deep_view() == report_seq(
            tables.borrows@,
            tables.points@,
            sorted_borrow_live_at(*facts),
        ),
{
    let answer = borrow_live_at(facts);
    proof {
        lemma_sorted_borrow_live_at_is(*facts, answer@);
        lemma_answer_ids_below(
            *facts,
            tables.regions@.len() as int,
            tables.borrows@.len() as int,
            tables.points@.len() as int,
        );
    }
    let mut r: Vec<String> = Vec::new();
    let mut i: usize = 0;
    while i < answer.len()
        invariant
            i <= answer@.len(),
            answer@.to_set() == borrow_live_at_set(*facts),
            tables.wf(),
            forall|x: (Borrow, Point)|
                #[trigger] borrow_live_at_set(*facts).contains(x) ==> x.0.index
                    < tables.borrows@.len() && x.1.index < tables.points@.len(),
            r.deep_view() == report_seq(
                tables.borrows@,
                tables.points@,
                answer@.take(i as int),
            ),
        decreases answer@.len() - i,
    {
        let t = answer[i];
        proof {
            assert(answer@[i as int] == t);
            assert(answer@.contains(t));
            assert(answer@.to_set().contains(t));
            assert(borrow_live_at_set(*facts).contains(t));
        }
        let mut line = ("borrow ").to_owned();
        line.append(tables.borrows.untern(t.0.index));
        line.append(" live at ");
        line.append(tables.points.untern(t.1.index));
        proof {
            assert(line@ == report_line_spec(
                tables.borrows@[t.0.index as int],
                tables.points@[t.1.index as int],
            ));
        }
        let ghost r_pre = r.deep_view();
        r.push(line);
        proof {
            assert(r.deep_view() =~= r_pre.push(line@));
            assert(answer@.take(i as int + 1).drop_last() =~= answer@.take(i as int));
            assert(answer@.take(i as int + 1).last() == t);
            assert(r.deep_view() =~= report_seq(
                tables.borrows@,
                tables.points@,
                answer@.take(i as int + 1),
            ));
        }
        i = i + 1;
    }
    proof {
        assert(answer@.take(answer@.len() as int) =~= answer@);
        lemma_sorted_borrow_live_at_is(*facts, answer@);
    }
    r
}

} // verus!
