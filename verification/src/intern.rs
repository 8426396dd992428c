//! Bijective interning of entity names to dense zero-based identifiers.
//!
//! One table per entity domain; identifiers are allocated in first-seen
//! order and stay stable for the lifetime of a run.

use vstd::prelude::*;
use crate::facts::{Borrow, Point, Region};
use crate::text::str_eq;

verus! {

/// One interning table: the name of identifier `i` sits at position `i`,
/// and no name occurs twice.
pub struct Interner {
    names: Vec<String>,
}

impl View for Interner {
    type V = Seq<Seq<char>>;

    closed spec fn view(&self) -> Seq<Seq<char>> {
        self.names@.map_values(|s: String| s@)
    }
}

/// The table after one name is interned: unchanged when the name is
/// already present, extended by it otherwise.
pub open spec fn intern_one(table: Seq<Seq<char>>, name: Seq<char>) -> Seq<Seq<char>> {
    if table.contains(name) {
        table
    } else {
        table.push(name)
    }
}

impl Interner {
    /// The table never holds a name twice.
    pub open spec fn wf(&self) -> bool {
        self@.no_duplicates()
    }

    /// An empty table.
    pub fn new() -> (r: Interner)
        ensures
            r@ == Seq::<Seq<char>>::empty(),
            r.wf(),
    {
        let r = Interner { names: Vec::new() };
        proof {
            assert(r@ =~= Seq::<Seq<char>>::empty());
        }
        r
    }

    /// The name of an identifier.
    pub fn untern(&self, id: usize) -> (r: &str)
        requires
            id < self@.len(),
        ensures
            r@ == self@[id as int],
    {
        self.names[id].as_str()
    }

    /// The identifier of a name, allocating the next identifier on first
    /// sight.  The identifier returned is the position of the name's
    /// first (and, as the table is duplicate-free, only) occurrence.
    pub fn intern(&mut self, data: &str) -> (id: usize)
        requires
            old(self).wf(),
        ensures
            final(self).wf(),
            final(self)@ == intern_one(old(self)@, data@),
            id < final(self)@.len(),
            final(self)@[id as int] == data@,
            forall|j: int| 0 <= j < id ==> final(self)@[j] != data@,
    {
        let mut i: usize = 0;
        while i < self.names.len()
            invariant
                *self == *old(self),
                self.wf(),
                i <= self.names@.len(),
                forall|j: int| 0 <= j < i ==> self@[j] != data@,
            decreases self.names@.len() - i,
        {
            if str_eq(self.names[i].as_str(), data) {
                proof {
                    assert(self@[i as int] == data@);
                    assert(self@.contains(data@));
                    assert(intern_one(self@, data@) == self@);
                }
                return i;
            }
            i = i + 1;
        }
        proof {
            assert forall|j: int| 0 <= j < self@.len() implies self@[j] != data@ by {}
            if self@.contains(data@) {
                let j = choose|j: int| 0 <= j < self@.len() && self@[j] == data@;
                assert(false);
            }
        }
        let id = self.names.len();
        let ghost before = self@;
        self.names.push(data.to_owned());
        proof {
            assert(self@ =~= before.push(data@));
            assert(self@ == intern_one(before, data@));
        }
        id
    }
}

/// The three interning tables of one analysis run, one per entity domain.
pub struct InternerTables {
    pub regions: Interner,
    pub borrows: Interner,
    pub points: Interner,
}

impl InternerTables {
    /// All three tables are duplicate-free.
    pub open spec fn wf(&self) -> bool {
        self.regions.wf() && self.borrows.wf() && self.points.wf()
    }

    /// Three empty tables.
    pub fn new() -> (r: InternerTables)
        ensures
            r.regions@ == Seq::<Seq<char>>::empty(),
            r.borrows@ == Seq::<Seq<char>>::empty(),
            r.points@ == Seq::<Seq<char>>::empty(),
            r.wf(),
    {
        InternerTables { regions: Interner::new(), borrows: Interner::new(), points: Interner::new() }
    }
}

/// The table after a whole list of names is interned, in order.
pub open spec fn intern_all(table: Seq<Seq<char>>, names: Seq<Seq<char>>) -> Seq<Seq<char>>
    decreases names.len(),
{
    if names.len() == 0 {
        table
    } else {
        intern_one(intern_all(table, names.drop_last()), names.last())
    }
}

/// Interning a concatenation interns the two parts in turn.
pub proof fn lemma_intern_all_append(t: Seq<Seq<char>>, xs: Seq<Seq<char>>, ys: Seq<Seq<char>>)
    ensures
        intern_all(t, xs + ys) == intern_all(intern_all(t, xs), ys),
    decreases ys.len(),
{
    if ys.len() == 0 {
        assert(xs + ys =~= xs);
    } else {
        lemma_intern_all_append(t, xs, ys.drop_last());
        assert((xs + ys).drop_last() =~= xs + ys.drop_last());
        assert((xs + ys).last() == ys.last());
    }
}

/// Interning one more name is one [`intern_one`] step.
pub proof fn lemma_intern_all_push(t: Seq<Seq<char>>, names: Seq<Seq<char>>, x: Seq<char>)
    ensures
        intern_all(t, names.push(x)) == intern_one(intern_all(t, names), x),
{
    assert(names.push(x).drop_last() =~= names);
    assert(names.push(x).last() == x);
}

/// An identifier resolves to the given name in the given table.  In a
/// duplicate-free table this pins the identifier: it is the name's one
/// position.
pub open spec fn id_names(table: Seq<Seq<char>>, id: int, name: Seq<char>) -> bool {
    0 <= id < table.len() && table[id] == name
}

/// Interns a region name on the shared context.
pub fn intern_region(tables: &mut InternerTables, name: &str) -> (r: Region)
    requires
        old(tables).wf(),
    ensures
        final(tables).wf(),
        final(tables).regions@ == intern_one(old(tables).regions@, name@),
        final(tables).borrows@ == old(tables).borrows@,
        final(tables).points@ == old(tables).points@,
        r.index < final(tables).regions@.len(),
        final(tables).regions@[r.index as int] == name@,
        forall|j: int| 0 <= j < r.index ==> final(tables).regions@[j] != name@,
{
    Region { index: tables.regions.intern(name) }
}

/// Interns a borrow name on the shared context.
pub fn intern_borrow(tables: &mut InternerTables, name: &str) -> (r: Borrow)
    requires
        old(tables).wf(),
    ensures
        final(tables).wf(),
        final(tables).borrows@ == intern_one(old(tables).borrows@, name@),
        final(tables).regions@ == old(tables).regions@,
        final(tables).points@ == old(tables).points@,
        r.index < final(tables).borrows@.len(),
        final(tables).borrows@[r.index as int] == name@,
        forall|j: int| 0 <= j < r.index ==> final(tables).borrows@[j] != name@,
{
    Borrow { index: tables.borrows.intern(name) }
}

/// Interns a point name on the shared context.
pub fn intern_point(tables: &mut InternerTables, name: &str) -> (r: Point)
    requires
        old(tables).wf(),
    ensures
        final(tables).wf(),
        final(tables).points@ == intern_one(old(tables).points@, name@),
        final(tables).regions@ == old(tables).regions@,
        final(tables).borrows@ == old(tables).borrows@,
        r.index < final(tables).points@.len(),
        final(tables).points@[r.index as int] == name@,
        forall|j: int| 0 <= j < r.index ==> final(tables).points@[j] != name@,
{
    Point { index: tables.points.intern(name) }
}

// ------------------------------------------------------------------
// Fact ingestion: interning whole relations of name rows.
// ------------------------------------------------------------------

/// The first components of a sequence of name triples, in order.
pub open spec fn triple_firsts(rows: Seq<(Seq<char>, Seq<char>, Seq<char>)>) -> Seq<Seq<char>>
    decreases rows.len(),
{
    if rows.len() == 0 {
        seq![]
    } else {
        triple_firsts(rows.drop_last()) + seq![rows.last().0]
    }
}

/// The second components of a sequence of name triples, in order.
pub open spec fn triple_seconds(rows: Seq<(Seq<char>, Seq<char>, Seq<char>)>) -> Seq<Seq<char>>
    decreases rows.len(),
{
    if rows.len() == 0 {
        seq![]
    } else {
        triple_seconds(rows.drop_last()) + seq![rows.last().1]
    }
}

/// The third components of a sequence of name triples, in order.
pub open spec fn triple_thirds(rows: Seq<(Seq<char>, Seq<char>, Seq<char>)>) -> Seq<Seq<char>>
    decreases rows.len(),
{
    if rows.len() == 0 {
        seq![]
    } else {
        triple_thirds(rows.drop_last()) + seq![rows.last().2]
    }
}

/// The first components of a sequence of name pairs, in order.
pub open spec fn pair_firsts(rows: Seq<(Seq<char>, Seq<char>)>) -> Seq<Seq<char>>
    decreases rows.len(),
{
    if rows.len() == 0 {
        seq![]
    } else {
        pair_firsts(rows.drop_last()) + seq![rows.last().0]
    }
}

/// The second components of a sequence of name pairs, in order.
pub open spec fn pair_seconds(rows: Seq<(Seq<char>, Seq<char>)>) -> Seq<Seq<char>>
    decreases rows.len(),
{
    if rows.len() == 0 {
        seq![]
    } else {
        pair_seconds(rows.drop_last()) + seq![rows.last().1]
    }
}

/// Both components of each pair, row by row, first column first.
pub open spec fn pair_both(rows: Seq<(Seq<char>, Seq<char>)>) -> Seq<Seq<char>>
    decreases rows.len(),
{
    if rows.len() == 0 {
        seq![]
    } else {
        pair_both(rows.drop_last()) + seq![rows.last().0, rows.last().1]
    }
}

/// The two region columns of each outlives row, row by row.
pub open spec fn quad_regions(
    rows: Seq<(Seq<char>, Seq<char>, Seq<char>, Seq<char>)>,
) -> Seq<Seq<char>>
    decreases rows.len(),
{
    if rows.len() == 0 {
        seq![]
    } else {
        quad_regions(rows.drop_last()) + seq![rows.last().1, rows.last().2]
    }
}

/// The two point columns of each outlives row, row by row.
pub open spec fn quad_points(
    rows: Seq<(Seq<char>, Seq<char>, Seq<char>, Seq<char>)>,
) -> Seq<Seq<char>>
    decreases rows.len(),
{
    if rows.len() == 0 {
        seq![]
    } else {
        quad_points(rows.drop_last()) + seq![rows.last().0, rows.last().3]
    }
}

/// `a` is an initial segment of `b`.
pub open spec fn is_prefix(a: Seq<Seq<char>>, b: Seq<Seq<char>>) -> bool {
    a.len() <= b.len() && forall|j: int| 0 <= j < a.len() ==> a[j] == b[j]
}

/// Interning only ever appends to a table.
pub proof fn lemma_intern_all_prefix(t: Seq<Seq<char>>, names: Seq<Seq<char>>)
    ensures
        is_prefix(t, intern_all(t, names)),
    decreases names.len(),
{
    if names.len() > 0 {
        lemma_intern_all_prefix(t, names.drop_last());
    }
}

/// An id-level fact row resolves to the given name row.
pub open spec fn row3_ok(
    t: (Region, Borrow, Point),
    row: (Seq<char>, Seq<char>, Seq<char>),
    rt: Seq<Seq<char>>,
    bt: Seq<Seq<char>>,
    pt: Seq<Seq<char>>,
) -> bool {
    id_names(rt, t.0.index as int, row.0) && id_names(bt, t.1.index as int, row.1) && id_names(
        pt,
        t.2.index as int,
        row.2,
    )
}

/// An id-level edge row resolves to the given name row.
pub open spec fn row_pp_ok(
    t: (Point, Point),
    row: (Seq<char>, Seq<char>),
    pt: Seq<Seq<char>>,
) -> bool {
    id_names(pt, t.0.index as int, row.0) && id_names(pt, t.1.index as int, row.1)
}

/// An id-level liveness row resolves to the given name row.
pub open spec fn row_rp_ok(
    t: (Region, Point),
    row: (Seq<char>, Seq<char>),
    rt: Seq<Seq<char>>,
    pt: Seq<Seq<char>>,
) -> bool {
    id_names(rt, t.0.index as int, row.0) && id_names(pt, t.1.index as int, row.1)
}

/// An id-level kill row resolves to the given name row.
pub open spec fn row_bp_ok(
    t: (Borrow, Point),
    row: (Seq<char>, Seq<char>),
    bt: Seq<Seq<char>>,
    pt: Seq<Seq<char>>,
) -> bool {
    id_names(bt, t.0.index as int, row.0) && id_names(pt, t.1.index as int, row.1)
}

/// An id-level outlives row resolves to the given name row.
pub open spec fn row4_ok(
    t: (Point, Region, Region, Point),
    row: (Seq<char>, Seq<char>, Seq<char>, Seq<char>),
    rt: Seq<Seq<char>>,
    pt: Seq<Seq<char>>,
) -> bool {
    id_names(pt, t.0.index as int, row.0) && id_names(rt, t.1.index as int, row.1) && id_names(
        rt,
        t.2.index as int,
        row.2,
    ) && id_names(pt, t.3.index as int, row.3)
}

/// Interns a `(region, borrow, point)` relation, column by column, row
/// by row.
pub fn intern_rows3(
    tables: &mut InternerTables,
    rows: &Vec<(String, String, String)>,
) -> (out: Vec<(Region, Borrow, Point)>)
    requires
        old(tables).wf(),
    ensures
        final(tables).wf(),
        final(tables).regions@ == intern_all(
            old(tables).regions@,
            triple_firsts(crate::lower::views3(rows@)),
        ),
        final(tables).borrows@ == intern_all(
            old(tables).borrows@,
            triple_seconds(crate::lower::views3(rows@)),
        ),
        final(tables).points@ == intern_all(
            old(tables).points@,
            triple_thirds(crate::lower::views3(rows@)),
        ),
        out@.len() == rows@.len(),
        forall|i: int|
            0 <= i < rows@.len() ==> row3_ok(
                #[trigger] out@[i],
                crate::lower::views3(rows@)[i],
                final(tables).regions@,
                final(tables).borrows@,
                final(tables).points@,
            ),
{
    let ghost v = crate::lower::views3(rows@);
    let ghost r0 = tables.regions@;
    let ghost b0 = tables.borrows@;
    let ghost p0 = tables.points@;
    let mut out: Vec<(Region, Borrow, Point)> = Vec::new();
    let mut i: usize = 0;
    while i < rows.len()
        invariant
            tables.wf(),
            i <= rows@.len(),
            out@.len() == i,
            v == crate::lower::views3(rows@),
            v.len() == rows@.len(),
            tables.regions@ == intern_all(r0, triple_firsts(v.take(i as int))),
            tables.borrows@ == intern_all(b0, triple_seconds(v.take(i as int))),
            tables.points@ == intern_all(p0, triple_thirds(v.take(i as int))),
            forall|j: int|
                0 <= j < i ==> row3_ok(
                    #[trigger] out@[j],
                    v[j],
                    tables.regions@,
                    tables.borrows@,
                    tables.points@,
                ),
        decreases rows@.len() - i,
    {
        let ghost rt_pre = tables.regions@;
        let ghost bt_pre = tables.borrows@;
        let ghost pt_pre = tables.points@;
        let rg = intern_region(tables, rows[i].0.as_str());
        let bw = intern_borrow(tables, rows[i].1.as_str());
        let pt = intern_point(tables, rows[i].2.as_str());
        out.push((rg, bw, pt));
        proof {
            assert(v[i as int] == crate::lower::view3(rows@[i as int]));
            assert(v.take(i as int + 1).drop_last() =~= v.take(i as int));
            assert(v.take(i as int + 1).last() == v[i as int]);
            assert(triple_firsts(v.take(i as int + 1)) =~= triple_firsts(v.take(i as int))
                + seq![v[i as int].0]);
            assert(triple_seconds(v.take(i as int + 1)) =~= triple_seconds(v.take(i as int))
                + seq![v[i as int].1]);
            assert(triple_thirds(v.take(i as int + 1)) =~= triple_thirds(v.take(i as int))
                + seq![v[i as int].2]);
            lemma_intern_all_push(r0, triple_firsts(v.take(i as int)), v[i as int].0);
            assert(triple_firsts(v.take(i as int)) + seq![v[i as int].0] =~= triple_firsts(
                v.take(i as int),
            ).push(v[i as int].0));
            lemma_intern_all_push(b0, triple_seconds(v.take(i as int)), v[i as int].1);
            assert(triple_seconds(v.take(i as int)) + seq![v[i as int].1] =~= triple_seconds(
                v.take(i as int),
            ).push(v[i as int].1));
            lemma_intern_all_push(p0, triple_thirds(v.take(i as int)), v[i as int].2);
            assert(triple_thirds(v.take(i as int)) + seq![v[i as int].2] =~= triple_thirds(
                v.take(i as int),
            ).push(v[i as int].2));
            assert(row3_ok(
                (rg, bw, pt),
                v[i as int],
                tables.regions@,
                tables.borrows@,
                tables.points@,
            ));
            assert forall|j: int| 0 <= j < i + 1 implies row3_ok(
                #[trigger] out@[j],
                v[j],
                tables.regions@,
                tables.borrows@,
                tables.points@,
            ) by {
                if j < i {
                    assert(row3_ok(out@[j], v[j], rt_pre, bt_pre, pt_pre));
                }
            }
        }
        i = i + 1;
    }
    proof {
        assert(v.take(rows@.len() as int) =~= v);
    }
    out
}

/// Interns a `(point, point)` edge relation, column by column, row by
/// row.
pub fn intern_rows_pp(
    tables: &mut InternerTables,
    rows: &Vec<(String, String)>,
) -> (out: Vec<(Point, Point)>)
    requires
        old(tables).wf(),
    ensures
        final(tables).wf(),
        final(tables).regions@ == old(tables).regions@,
        final(tables).borrows@ == old(tables).borrows@,
        final(tables).points@ == intern_all(
            old(tables).points@,
            pair_both(crate::lower::views2(rows@)),
        ),
        out@.len() == rows@.len(),
        forall|i: int|
            0 <= i < rows@.len() ==> row_pp_ok(
                #[trigger] out@[i],
                crate::lower::views2(rows@)[i],
                final(tables).points@,
            ),
{
    let ghost v = crate::lower::views2(rows@);
    let ghost p0 = tables.points@;
    let ghost r0 = tables.regions@;
    let ghost b0 = tables.borrows@;
    let mut out: Vec<(Point, Point)> = Vec::new();
    let mut i: usize = 0;
    while i < rows.len()
        invariant
            tables.wf(),
            i <= rows@.len(),
            out@.len() == i,
            v == crate::lower::views2(rows@),
            v.len() == rows@.len(),
            tables.regions@ == r0,
            tables.borrows@ == b0,
            tables.points@ == intern_all(p0, pair_both(v.take(i as int))),
            forall|j: int|
                0 <= j < i ==> row_pp_ok(#[trigger] out@[j], v[j], tables.points@),
        decreases rows@.len() - i,
    {
        let ghost pt_pre = tables.points@;
        let p = intern_point(tables, rows[i].0.as_str());
        let q = intern_point(tables, rows[i].1.as_str());
        out.push((p, q));
        proof {
            assert(v[i as int] == crate::lower::view2(rows@[i as int]));
            assert(v.take(i as int + 1).drop_last() =~= v.take(i as int));
            assert(v.take(i as int + 1).last() == v[i as int]);
            let a = pair_both(v.take(i as int));
            assert(pair_both(v.take(i as int + 1)) =~= a.push(v[i as int].0).push(
                v[i as int].1,
            ));
            lemma_intern_all_push(p0, a, v[i as int].0);
            lemma_intern_all_push(p0, a.push(v[i as int].0), v[i as int].1);
            assert(row_pp_ok((p, q), v[i as int], tables.points@));
            assert forall|j: int| 0 <= j < i + 1 implies row_pp_ok(
                #[trigger] out@[j],
                v[j],
                tables.points@,
            ) by {
                if j < i {
                    assert(row_pp_ok(out@[j], v[j], pt_pre));
                }
            }
        }
        i = i + 1;
    }
    proof {
        assert(v.take(rows@.len() as int) =~= v);
    }
    out
}

/// Interns a `(region, point)` relation, column by column, row by row.
pub fn intern_rows_rp(
    tables: &mut InternerTables,
    rows: &Vec<(String, String)>,
) -> (out: Vec<(Region, Point)>)
    requires
        old(tables).wf(),
    ensures
        final(tables).wf(),
        final(tables).regions@ == intern_all(
            old(tables).regions@,
            pair_firsts(crate::lower::views2(rows@)),
        ),
        final(tables).borrows@ == old(tables).borrows@,
        final(tables).points@ == intern_all(
            old(tables).points@,
            pair_seconds(crate::lower::views2(rows@)),
        ),
        out@.len() == rows@.len(),
        forall|i: int|
            0 <= i < rows@.len() ==> row_rp_ok(
                #[trigger] out@[i],
                crate::lower::views2(rows@)[i],
                final(tables).regions@,
                final(tables).points@,
            ),
{
    let ghost v = crate::lower::views2(rows@);
    let ghost p0 = tables.points@;
    let ghost r0 = tables.regions@;
    let ghost b0 = tables.borrows@;
    let mut out: Vec<(Region, Point)> = Vec::new();
    let mut i: usize = 0;
    while i < rows.len()
        invariant
            tables.wf(),
            i <= rows@.len(),
            out@.len() == i,
            v == crate::lower::views2(rows@),
            v.len() == rows@.len(),
            tables.borrows@ == b0,
            tables.regions@ == intern_all(r0, pair_firsts(v.take(i as int))),
            tables.points@ == intern_all(p0, pair_seconds(v.take(i as int))),
            forall|j: int|
                0 <= j < i ==> row_rp_ok(
                    #[trigger] out@[j],
                    v[j],
                    tables.regions@,
                    tables.points@,
                ),
        decreases rows@.len() - i,
    {
        let ghost rt_pre = tables.regions@;
        let ghost pt_pre = tables.points@;
        let rg = intern_region(tables, rows[i].0.as_str());
        let p = intern_point(tables, rows[i].1.as_str());
        out.push((rg, p));
        proof {
            assert(v[i as int] == crate::lower::view2(rows@[i as int]));
            assert(v.take(i as int + 1).drop_last() =~= v.take(i as int));
            assert(v.take(i as int + 1).last() == v[i as int]);
            assert(pair_firsts(v.take(i as int + 1)) =~= pair_firsts(v.take(i as int)).push(
                v[i as int].0,
            ));
            assert(pair_seconds(v.take(i as int + 1)) =~= pair_seconds(v.take(i as int)).push(
                v[i as int].1,
            ));
            lemma_intern_all_push(r0, pair_firsts(v.take(i as int)), v[i as int].0);
            lemma_intern_all_push(p0, pair_seconds(v.take(i as int)), v[i as int].1);
            assert(row_rp_ok((rg, p), v[i as int], tables.regions@, tables.points@));
            assert forall|j: int| 0 <= j < i + 1 implies row_rp_ok(
                #[trigger] out@[j],
                v[j],
                tables.regions@,
                tables.points@,
            ) by {
                if j < i {
                    assert(row_rp_ok(out@[j], v[j], rt_pre, pt_pre));
                }
            }
        }
        i = i + 1;
    }
    proof {
        assert(v.take(rows@.len() as int) =~= v);
    }
    out
}

/// Interns a `(borrow, point)` relation, column by column, row by row.
pub fn intern_rows_bp(
    tables: &mut InternerTables,
    rows: &Vec<(String, String)>,
) -> (out: Vec<(Borrow, Point)>)
    requires
        old(tables).wf(),
    ensures
        final(tables).wf(),
        final(tables).regions@ == old(tables).regions@,
        final(tables).borrows@ == intern_all(
            old(tables).borrows@,
            pair_firsts(crate::lower::views2(rows@)),
        ),
        final(tables).points@ == intern_all(
            old(tables).points@,
            pair_seconds(crate::lower::views2(rows@)),
        ),
        out@.len() == rows@.len(),
        forall|i: int|
            0 <= i < rows@.len() ==> row_bp_ok(
                #[trigger] out@[i],
                crate::lower::views2(rows@)[i],
                final(tables).borrows@,
                final(tables).points@,
            ),
{
    let ghost v = crate::lower::views2(rows@);
    let ghost p0 = tables.points@;
    let ghost r0 = tables.regions@;
    let ghost b0 = tables.borrows@;
    let mut out: Vec<(Borrow, Point)> = Vec::new();
    let mut i: usize = 0;
    while i < rows.len()
        invariant
            tables.wf(),
            i <= rows@.len(),
            out@.len() == i,
            v == crate::lower::views2(rows@),
            v.len() == rows@.len(),
            tables.regions@ == r0,
            tables.borrows@ == intern_all(b0, pair_firsts(v.take(i as int))),
            tables.points@ == intern_all(p0, pair_seconds(v.take(i as int))),
            forall|j: int|
                0 <= j < i ==> row_bp_ok(
                    #[trigger] out@[j],
                    v[j],
                    tables.borrows@,
                    tables.points@,
                ),
        decreases rows@.len() - i,
    {
        let ghost bt_pre = tables.borrows@;
        let ghost pt_pre = tables.points@;
        let bw = intern_borrow(tables, rows[i].0.as_str());
        let p = intern_point(tables, rows[i].1.as_str());
        out.push((bw, p));
        proof {
            assert(v[i as int] == crate::lower::view2(rows@[i as int]));
            assert(v.take(i as int + 1).drop_last() =~= v.take(i as int));
            assert(v.take(i as int + 1).last() == v[i as int]);
            assert(pair_firsts(v.take(i as int + 1)) =~= pair_firsts(v.take(i as int)).push(
                v[i as int].0,
            ));
            assert(pair_seconds(v.take(i as int + 1)) =~= pair_seconds(v.take(i as int)).push(
                v[i as int].1,
            ));
            lemma_intern_all_push(b0, pair_firsts(v.take(i as int)), v[i as int].0);
            lemma_intern_all_push(p0, pair_seconds(v.take(i as int)), v[i as int].1);
            assert(row_bp_ok((bw, p), v[i as int], tables.borrows@, tables.points@));
            assert forall|j: int| 0 <= j < i + 1 implies row_bp_ok(
                #[trigger] out@[j],
                v[j],
                tables.borrows@,
                tables.points@,
            ) by {
                if j < i {
                    assert(row_bp_ok(out@[j], v[j], bt_pre, pt_pre));
                }
            }
        }
        i = i + 1;
    }
    proof {
        assert(v.take(rows@.len() as int) =~= v);
    }
    out
}

/// Interns a `(point, region, region, point)` relation, column by
/// column, row by row.
pub fn intern_rows4(
    tables: &mut InternerTables,
    rows: &Vec<(String, String, String, String)>,
) -> (out: Vec<(Point, Region, Region, Point)>)
    requires
        old(tables).wf(),
    ensures
        final(tables).wf(),
        final(tables).regions@ == intern_all(
            old(tables).regions@,
            quad_regions(crate::lower::views4(rows@)),
        ),
        final(tables).borrows@ == old(tables).borrows@,
        final(tables).points@ == intern_all(
            old(tables).points@,
            quad_points(crate::lower::views4(rows@)),
        ),
        out@.len() == rows@.len(),
        forall|i: int|
            0 <= i < rows@.len() ==> row4_ok(
                #[trigger] out@[i],
                crate::lower::views4(rows@)[i],
                final(tables).regions@,
                final(tables).points@,
            ),
{
    let ghost v = crate::lower::views4(rows@);
    let ghost p0 = tables.points@;
    let ghost r0 = tables.regions@;
    let ghost b0 = tables.borrows@;
    let mut out: Vec<(Point, Region, Region, Point)> = Vec::new();
    let mut i: usize = 0;
    while i < rows.len()
        invariant
            tables.wf(),
            i <= rows@.len(),
            out@.len() == i,
            v == crate::lower::views4(rows@),
            v.len() == rows@.len(),
            tables.borrows@ == b0,
            tables.regions@ == intern_all(r0, quad_regions(v.take(i as int))),
            tables.points@ == intern_all(p0, quad_points(v.take(i as int))),
            forall|j: int|
                0 <= j < i ==> row4_ok(
                    #[trigger] out@[j],
                    v[j],
                    tables.regions@,
                    tables.points@,
                ),
        decreases rows@.len() - i,
    {
        let ghost rt_pre = tables.regions@;
        let ghost pt_pre = tables.points@;
        let p = intern_point(tables, rows[i].0.as_str());
        let a = intern_region(tables, rows[i].1.as_str());
        let b = intern_region(tables, rows[i].2.as_str());
        let q = intern_point(tables, rows[i].3.as_str());
        out.push((p, a, b, q));
        proof {
            assert(v[i as int] == crate::lower::view4(rows@[i as int]));
            assert(v.take(i as int + 1).drop_last() =~= v.take(i as int));
            assert(v.take(i as int + 1).last() == v[i as int]);
            let ra = quad_regions(v.take(i as int));
            let pa = quad_points(v.take(i as int));
            assert(quad_regions(v.take(i as int + 1)) =~= ra.push(v[i as int].1).push(
                v[i as int].2,
            ));
            assert(quad_points(v.take(i as int + 1)) =~= pa.push(v[i as int].0).push(
                v[i as int].3,
            ));
            lemma_intern_all_push(r0, ra, v[i as int].1);
            lemma_intern_all_push(r0, ra.push(v[i as int].1), v[i as int].2);
            lemma_intern_all_push(p0, pa, v[i as int].0);
            lemma_intern_all_push(p0, pa.push(v[i as int].0), v[i as int].3);
            assert(row4_ok((p, a, b, q), v[i as int], tables.regions@, tables.points@));
            assert forall|j: int| 0 <= j < i + 1 implies row4_ok(
                #[trigger] out@[j],
                v[j],
                tables.regions@,
                tables.points@,
            ) by {
                if j < i {
                    assert(row4_ok(out@[j], v[j], rt_pre, pt_pre));
                }
            }
        }
        i = i + 1;
    }
    proof {
        assert(v.take(rows@.len() as int) =~= v);
    }
    out
}

} // verus!
