//! Lowering: turns the control-flow representation into base fact rows,
//! as tuples of entity names, under the `"<block>/<index>"` point-naming
//! convention.

use vstd::prelude::*;
use crate::ir::{BlockView, Effect, EffectView, Input, StatementView};
use crate::ir::OutlivesTime;
use crate::text::{point_name, point_name_spec};

verus! {

/// The name views of a triple of names.
pub open spec fn view3(t: (String, String, String)) -> (Seq<char>, Seq<char>, Seq<char>) {
    (t.0@, t.1@, t.2@)
}

/// The name views of a pair of names.
pub open spec fn view2(t: (String, String)) -> (Seq<char>, Seq<char>) {
    (t.0@, t.1@)
}

/// The name views of a quadruple of names.
pub open spec fn view4(t: (String, String, String, String)) -> (
    Seq<char>,
    Seq<char>,
    Seq<char>,
    Seq<char>,
) {
    (t.0@, t.1@, t.2@, t.3@)
}

/// The name views of a sequence of triples.
pub open spec fn views3(rows: Seq<(String, String, String)>) -> Seq<
    (Seq<char>, Seq<char>, Seq<char>),
> {
    rows.map_values(|t: (String, String, String)| view3(t))
}

/// The name views of a sequence of pairs.
pub open spec fn views2(rows: Seq<(String, String)>) -> Seq<(Seq<char>, Seq<char>)> {
    rows.map_values(|t: (String, String)| view2(t))
}

/// The name views of a sequence of quadruples.
pub open spec fn views4(rows: Seq<(String, String, String, String)>) -> Seq<
    (Seq<char>, Seq<char>, Seq<char>, Seq<char>),
> {
    rows.map_values(|t: (String, String, String, String)| view4(t))
}

/// `BorrowRegion` rows contributed by one statement's effects.
pub open spec fn borrow_region_of_effects(effects: Seq<EffectView>, point: Seq<char>) -> Seq<
    (Seq<char>, Seq<char>, Seq<char>),
>
    decreases effects.len(),
{
    if effects.len() == 0 {
        seq![]
    } else {
        borrow_region_of_effects(effects.drop_last(), point) + (match effects.last() {
            EffectView::Borrow { borrow, region } => seq![(region, borrow, point)],
            _ => seq![],
        })
    }
}

/// `BorrowRegion` rows of the first `k` statements of a block.
pub open spec fn borrow_region_of_stmts(name: Seq<char>, stmts: Seq<StatementView>, k: int) -> Seq<
    (Seq<char>, Seq<char>, Seq<char>),
>
    decreases k,
{
    if k <= 0 {
        seq![]
    } else {
        borrow_region_of_stmts(name, stmts, k - 1) + borrow_region_of_effects(
            stmts[k - 1].effects,
            point_name_spec(name, (k - 1) as nat),
        )
    }
}

/// `BorrowRegion` rows of a list of blocks.
pub open spec fn borrow_region_of_blocks(blocks: Seq<BlockView>) -> Seq<
    (Seq<char>, Seq<char>, Seq<char>),
>
    decreases blocks.len(),
{
    if blocks.len() == 0 {
        seq![]
    } else {
        borrow_region_of_blocks(blocks.drop_last()) + borrow_region_of_stmts(
            blocks.last().name,
            blocks.last().statements,
            blocks.last().statements.len() as int,
        )
    }
}

impl Input {
    /// The `(region, borrow, point)` rows: one per `Borrow` effect, at
    /// the point of the statement holding it.
    pub fn borrow_region_facts(&self) -> (r: Vec<(String, String, String)>)
        ensures
            views3(r@) == borrow_region_of_blocks(self@.blocks),
    {
        let mut r: Vec<(String, String, String)> = Vec::new();
        let mut bi: usize = 0;
        while bi < self.blocks.len()
            invariant
                bi <= self.blocks@.len(),
                r@.map_values(|t: (String, String, String)| view3(t)) == borrow_region_of_blocks(
                    self@.blocks.take(bi as int),
                ),
            decreases self.blocks@.len() - bi,
        {
            let block = &self.blocks[bi];
            proof {
                assert(block@ == self@.blocks[bi as int]);
            }
            let mut si: usize = 0;
            while si < block.statements.len()
                invariant
                    bi < self.blocks@.len(),
                    block == &self.blocks[bi as int],
                    block@ == self@.blocks[bi as int],
                    si <= block.statements@.len(),
                    r@.map_values(|t: (String, String, String)| view3(t))
                        == borrow_region_of_blocks(self@.blocks.take(bi as int))
                        + borrow_region_of_stmts(block@.name, block@.statements, si as int),
                decreases block.statements@.len() - si,
            {
                let point = point_name(block.name.as_str(), si);
                let stmt = &block.statements[si];
                proof {
                    assert(stmt@ == block@.statements[si as int]);
                }
                let mut ei: usize = 0;
                while ei < stmt.effects.len()
                    invariant
                        bi < self.blocks@.len(),
                        block == &self.blocks[bi as int],
                        block@ == self@.blocks[bi as int],
                        si < block.statements@.len(),
                        stmt == &block.statements[si as int],
                        stmt@ == block@.statements[si as int],
                        ei <= stmt.effects@.len(),
                        point@ == point_name_spec(block@.name, si as nat),
                        r@.map_values(|t: (String, String, String)| view3(t))
                            == borrow_region_of_blocks(self@.blocks.take(bi as int))
                            + borrow_region_of_stmts(block@.name, block@.statements, si as int)
                            + borrow_region_of_effects(
                            stmt@.effects.take(ei as int),
                            point@,
                        ),
                    decreases stmt.effects@.len() - ei,
                {
                    let ghost r_pre = r@;
                    proof {
                        let evs = stmt@.effects;
                        assert(evs.take(ei as int + 1).drop_last() =~= evs.take(ei as int));
                        assert(evs.take(ei as int + 1).last() == evs[ei as int]);
                        assert(stmt.effects@[ei as int]@ == evs[ei as int]);
                    }
                    match &stmt.effects[ei] {
                        Effect::Borrow { borrow, region } => {
                            r.push((region.clone(), borrow.clone(), point.clone()));
                            proof {
                                let evs = stmt@.effects;
                                assert(evs[ei as int] == (EffectView::Borrow {
                                    borrow: borrow@,
                                    region: region@,
                                }));
                                assert(r@.map_values(|t: (String, String, String)| view3(t))
                                    =~= r_pre.map_values(
                                    |t: (String, String, String)| view3(t),
                                ).push((region@, borrow@, point@)));
                                assert(r@.map_values(|t: (String, String, String)| view3(t))
                                    =~= borrow_region_of_blocks(self@.blocks.take(bi as int))
                                    + borrow_region_of_stmts(
                                    block@.name,
                                    block@.statements,
                                    si as int,
                                ) + borrow_region_of_effects(evs.take(ei as int + 1), point@));
                            }
                        },
                        _ => {
                            proof {
                                let evs = stmt@.effects;
                                assert(!(evs[ei as int] is Borrow));
                                assert(r@.map_values(|t: (String, String, String)| view3(t))
                                    =~= borrow_region_of_blocks(self@.blocks.take(bi as int))
                                    + borrow_region_of_stmts(
                                    block@.name,
                                    block@.statements,
                                    si as int,
                                ) + borrow_region_of_effects(evs.take(ei as int + 1), point@));
                            }
                        },
                    }
                    ei = ei + 1;
                }
                proof {
                    assert(stmt@.effects.take(stmt@.effects.len() as int) =~= stmt@.effects);
                    assert(r@.map_values(|t: (String, String, String)| view3(t))
                        =~= borrow_region_of_blocks(self@.blocks.take(bi as int))
                        + borrow_region_of_stmts(
                        block@.name,
                        block@.statements,
                        si as int + 1,
                    ));
                }
                si = si + 1;
            }
            proof {
                assert(self@.blocks.take(bi as int + 1).drop_last() =~= self@.blocks.take(
                    bi as int,
                ));
                assert(self@.blocks.take(bi as int + 1).last() == self@.blocks[bi as int]);
                assert(block@.statements.len() == block.statements@.len());
                assert(r@.map_values(|t: (String, String, String)| view3(t))
                    =~= borrow_region_of_blocks(self@.blocks.take(bi as int + 1)));
            }
            bi = bi + 1;
        }
        proof {
            assert(self@.blocks.take(self.blocks@.len() as int) =~= self@.blocks);
            assert(views3(r@) =~= borrow_region_of_blocks(self@.blocks));
        }
        r
    }
}

/// `NextStatement` edges of a block's first `k` statements: the edge
/// from each statement to its successor, the last one to the block
/// terminator.
pub open spec fn next_statement_of_block(name: Seq<char>, k: int) -> Seq<(Seq<char>, Seq<char>)>
    decreases k,
{
    if k <= 0 {
        seq![]
    } else {
        next_statement_of_block(name, k - 1) + seq![
            (point_name_spec(name, (k - 1) as nat), point_name_spec(name, k as nat)),
        ]
    }
}

/// `NextStatement` edges of a list of blocks.
pub open spec fn next_statement_of_blocks(blocks: Seq<BlockView>) -> Seq<(Seq<char>, Seq<char>)>
    decreases blocks.len(),
{
    if blocks.len() == 0 {
        seq![]
    } else {
        next_statement_of_blocks(blocks.drop_last()) + next_statement_of_block(
            blocks.last().name,
            blocks.last().statements.len() as int,
        )
    }
}

/// `Goto` edges of a block's first `k` targets: from the block
/// terminator to each target block's entry point.
pub open spec fn goto_of_block(name: Seq<char>, nstmts: nat, gotos: Seq<Seq<char>>, k: int) -> Seq<
    (Seq<char>, Seq<char>),
>
    decreases k,
{
    if k <= 0 {
        seq![]
    } else {
        goto_of_block(name, nstmts, gotos, k - 1) + seq![
            (point_name_spec(name, nstmts), point_name_spec(gotos[k - 1], 0)),
        ]
    }
}

/// `Goto` edges of a list of blocks.
pub open spec fn goto_of_blocks(blocks: Seq<BlockView>) -> Seq<(Seq<char>, Seq<char>)>
    decreases blocks.len(),
{
    if blocks.len() == 0 {
        seq![]
    } else {
        goto_of_blocks(blocks.drop_last()) + goto_of_block(
            blocks.last().name,
            blocks.last().statements.len() as nat,
            blocks.last().goto,
            blocks.last().goto.len() as int,
        )
    }
}

/// `RegionLiveOnEntry` rows contributed by one statement's effects.
pub open spec fn region_live_of_effects(effects: Seq<EffectView>, point: Seq<char>) -> Seq<
    (Seq<char>, Seq<char>),
>
    decreases effects.len(),
{
    if effects.len() == 0 {
        seq![]
    } else {
        region_live_of_effects(effects.drop_last(), point) + (match effects.last() {
            EffectView::LiveOnEntry { region } => seq![(region, point)],
            _ => seq![],
        })
    }
}

/// `RegionLiveOnEntry` rows of the first `k` statements of a block.
pub open spec fn region_live_of_stmts(name: Seq<char>, stmts: Seq<StatementView>, k: int) -> Seq<
    (Seq<char>, Seq<char>),
>
    decreases k,
{
    if k <= 0 {
        seq![]
    } else {
        region_live_of_stmts(name, stmts, k - 1) + region_live_of_effects(
            stmts[k - 1].effects,
            point_name_spec(name, (k - 1) as nat),
        )
    }
}

/// `RegionLiveOnEntry` rows of a list of blocks.
pub open spec fn region_live_of_blocks(blocks: Seq<BlockView>) -> Seq<(Seq<char>, Seq<char>)>
    decreases blocks.len(),
{
    if blocks.len() == 0 {
        seq![]
    } else {
        region_live_of_blocks(blocks.drop_last()) + region_live_of_stmts(
            blocks.last().name,
            blocks.last().statements,
            blocks.last().statements.len() as int,
        )
    }
}

/// `Killed` rows contributed by one statement's effects.
pub open spec fn killed_of_effects(effects: Seq<EffectView>, point: Seq<char>) -> Seq<
    (Seq<char>, Seq<char>),
>
    decreases effects.len(),
{
    if effects.len() == 0 {
        seq![]
    } else {
        killed_of_effects(effects.drop_last(), point) + (match effects.last() {
            EffectView::Kill { borrow } => seq![(borrow, point)],
            _ => seq![],
        })
    }
}

/// `Killed` rows of the first `k` statements of a block.
pub open spec fn killed_of_stmts(name: Seq<char>, stmts: Seq<StatementView>, k: int) -> Seq<
    (Seq<char>, Seq<char>),
>
    decreases k,
{
    if k <= 0 {
        seq![]
    } else {
        killed_of_stmts(name, stmts, k - 1) + killed_of_effects(
            stmts[k - 1].effects,
            point_name_spec(name, (k - 1) as nat),
        )
    }
}

/// `Killed` rows of a list of blocks.
pub open spec fn killed_of_blocks(blocks: Seq<BlockView>) -> Seq<(Seq<char>, Seq<char>)>
    decreases blocks.len(),
{
    if blocks.len() == 0 {
        seq![]
    } else {
        killed_of_blocks(blocks.drop_last()) + killed_of_stmts(
            blocks.last().name,
            blocks.last().statements,
            blocks.last().statements.len() as int,
        )
    }
}

/// `Outlives` rows contributed by one statement's effects.  A `Pre`
/// requirement is effective at the statement's own point, a `Post` one
/// at its successor point.
pub open spec fn outlives_of_effects(
    effects: Seq<EffectView>,
    point: Seq<char>,
    succ: Seq<char>,
) -> Seq<(Seq<char>, Seq<char>, Seq<char>, Seq<char>)>
    decreases effects.len(),
{
    if effects.len() == 0 {
        seq![]
    } else {
        outlives_of_effects(effects.drop_last(), point, succ) + (match effects.last() {
            EffectView::Outlives { time, a, b } => match time {
                OutlivesTime::Pre => seq![(point, a, b, point)],
                OutlivesTime::Post => seq![(point, a, b, succ)],
            },
            _ => seq![],
        })
    }
}

/// `Outlives` rows of the first `k` statements of a block.
pub open spec fn outlives_of_stmts(name: Seq<char>, stmts: Seq<StatementView>, k: int) -> Seq<
    (Seq<char>, Seq<char>, Seq<char>, Seq<char>),
>
    decreases k,
{
    if k <= 0 {
        seq![]
    } else {
        outlives_of_stmts(name, stmts, k - 1) + outlives_of_effects(
            stmts[k - 1].effects,
            point_name_spec(name, (k - 1) as nat),
            point_name_spec(name, k as nat),
        )
    }
}

/// `Outlives` rows of a list of blocks.
pub open spec fn outlives_of_blocks(blocks: Seq<BlockView>) -> Seq<
    (Seq<char>, Seq<char>, Seq<char>, Seq<char>),
>
    decreases blocks.len(),
{
    if blocks.len() == 0 {
        seq![]
    } else {
        outlives_of_blocks(blocks.drop_last()) + outlives_of_stmts(
            blocks.last().name,
            blocks.last().statements,
            blocks.last().statements.len() as int,
        )
    }
}

impl Input {
    /// The `(point, point)` successor edges within each block.
    pub fn next_statement_facts(&self) -> (r: Vec<(String, String)>)
        ensures
            views2(r@) == next_statement_of_blocks(self@.blocks),
    {
        let mut r: Vec<(String, String)> = Vec::new();
        let mut bi: usize = 0;
        while bi < self.blocks.len()
            invariant
                bi <= self.blocks@.len(),
                r@.map_values(|t: (String, String)| view2(t)) == next_statement_of_blocks(
                    self@.blocks.take(bi as int),
                ),
            decreases self.blocks@.len() - bi,
        {
            let block = &self.blocks[bi];
            proof {
                assert(block@ == self@.blocks[bi as int]);
            }
            let mut si: usize = 0;
            while si < block.statements.len()
                invariant
                    bi < self.blocks@.len(),
                    block == &self.blocks[bi as int],
                    block@ == self@.blocks[bi as int],
                    si <= block.statements@.len(),
                    r@.map_values(|t: (String, String)| view2(t)) == next_statement_of_blocks(
                        self@.blocks.take(bi as int),
                    ) + next_statement_of_block(block@.name, si as int),
                decreases block.statements@.len() - si,
            {
                let from = point_name(block.name.as_str(), si);
                let to = point_name(block.name.as_str(), si + 1);
                let ghost r_pre = r@;
                let ghost fromv = from@;
                let ghost tov = to@;
                r.push((from, to));
                proof {
                    assert(r@.map_values(|t: (String, String)| view2(t)) =~= r_pre.map_values(
                        |t: (String, String)| view2(t),
                    ).push((fromv, tov)));
                    assert(r@.map_values(|t: (String, String)| view2(t))
                        =~= next_statement_of_blocks(self@.blocks.take(bi as int))
                        + next_statement_of_block(block@.name, si as int + 1));
                }
                si = si + 1;
            }
            proof {
                assert(self@.blocks.take(bi as int + 1).drop_last() =~= self@.blocks.take(
                    bi as int,
                ));
                assert(self@.blocks.take(bi as int + 1).last() == self@.blocks[bi as int]);
                assert(block@.statements.len() == block.statements@.len());
                assert(r@.map_values(|t: (String, String)| view2(t)) =~= next_statement_of_blocks(
                    self@.blocks.take(bi as int + 1),
                ));
            }
            bi = bi + 1;
        }
        proof {
            assert(self@.blocks.take(self.blocks@.len() as int) =~= self@.blocks);
            assert(views2(r@) =~= next_statement_of_blocks(self@.blocks));
        }
        r
    }

    /// The `(point, point)` edges from each block terminator to the
    /// entry point of each of its goto targets.
    pub fn goto_facts(&self) -> (r: Vec<(String, String)>)
        ensures
            views2(r@) == goto_of_blocks(self@.blocks),
    {
        let mut r: Vec<(String, String)> = Vec::new();
        let mut bi: usize = 0;
        while bi < self.blocks.len()
            invariant
                bi <= self.blocks@.len(),
                r@.map_values(|t: (String, String)| view2(t)) == goto_of_blocks(
                    self@.blocks.take(bi as int),
                ),
            decreases self.blocks@.len() - bi,
        {
            let block = &self.blocks[bi];
            proof {
                assert(block@ == self@.blocks[bi as int]);
            }
            let term = point_name(block.name.as_str(), block.statements.len());
            let mut gi: usize = 0;
            while gi < block.goto.len()
                invariant
                    bi < self.blocks@.len(),
                    block == &self.blocks[bi as int],
                    block@ == self@.blocks[bi as int],
                    gi <= block.goto@.len(),
                    term@ == point_name_spec(block@.name, block@.statements.len()),
                    r@.map_values(|t: (String, String)| view2(t)) == goto_of_blocks(
                        self@.blocks.take(bi as int),
                    ) + goto_of_block(
                        block@.name,
                        block@.statements.len(),
                        block@.goto,
                        gi as int,
                    ),
                decreases block.goto@.len() - gi,
            {
                let target = point_name(block.goto[gi].as_str(), 0);
                let ghost r_pre = r@;
                let ghost targetv = target@;
                r.push((term.clone(), target));
                proof {
                    assert(block.goto@[gi as int]@ == block@.goto[gi as int]);
                    assert(r@.map_values(|t: (String, String)| view2(t)) =~= r_pre.map_values(
                        |t: (String, String)| view2(t),
                    ).push((term@, targetv)));
                    assert(r@.map_values(|t: (String, String)| view2(t)) =~= goto_of_blocks(
                        self@.blocks.take(bi as int),
                    ) + goto_of_block(
                        block@.name,
                        block@.statements.len(),
                        block@.goto,
                        gi as int + 1,
                    ));
                }
                gi = gi + 1;
            }
            proof {
                assert(self@.blocks.take(bi as int + 1).drop_last() =~= self@.blocks.take(
                    bi as int,
                ));
                assert(self@.blocks.take(bi as int + 1).last() == self@.blocks[bi as int]);
                assert(block@.goto.len() == block.goto@.len());
                assert(r@.map_values(|t: (String, String)| view2(t)) =~= goto_of_blocks(
                    self@.blocks.take(bi as int + 1),
                ));
            }
            bi = bi + 1;
        }
        proof {
            assert(self@.blocks.take(self.blocks@.len() as int) =~= self@.blocks);
            assert(views2(r@) =~= goto_of_blocks(self@.blocks));
        }
        r
    }

    /// The `(region, point)` rows: one per `LiveOnEntry` effect.
    pub fn region_live_on_entry_facts(&self) -> (r: Vec<(String, String)>)
        ensures
            views2(r@) == region_live_of_blocks(self@.blocks),
    {
        let mut r: Vec<(String, String)> = Vec::new();
        let mut bi: usize = 0;
        while bi < self.blocks.len()
            invariant
                bi <= self.blocks@.len(),
                r@.map_values(|t: (String, String)| view2(t)) == region_live_of_blocks(
                    self@.blocks.take(bi as int),
                ),
            decreases self.blocks@.len() - bi,
        {
            let block = &self.blocks[bi];
            proof {
                assert(block@ == self@.blocks[bi as int]);
            }
            let mut si: usize = 0;
            while si < block.statements.len()
                invariant
                    bi < self.blocks@.len(),
                    block == &self.blocks[bi as int],
                    block@ == self@.blocks[bi as int],
                    si <= block.statements@.len(),
                    r@.map_values(|t: (String, String)| view2(t)) == region_live_of_blocks(
                        self@.blocks.take(bi as int),
                    ) + region_live_of_stmts(block@.name, block@.statements, si as int),
                decreases block.statements@.len() - si,
            {
                let point = point_name(block.name.as_str(), si);
                let stmt = &block.statements[si];
                proof {
                    assert(stmt@ == block@.statements[si as int]);
                }
                let mut ei: usize = 0;
                while ei < stmt.effects.len()
                    invariant
                        bi < self.blocks@.len(),
                        block == &self.blocks[bi as int],
                        block@ == self@.blocks[bi as int],
                        si < block.statements@.len(),
                        stmt == &block.statements[si as int],
                        stmt@ == block@.statements[si as int],
                        ei <= stmt.effects@.len(),
                        point@ == point_name_spec(block@.name, si as nat),
                        r@.map_values(|t: (String, String)| view2(t)) == region_live_of_blocks(
                            self@.blocks.take(bi as int),
                        ) + region_live_of_stmts(block@.name, block@.statements, si as int)
                            + region_live_of_effects(stmt@.effects.take(ei as int), point@),
                    decreases stmt.effects@.len() - ei,
                {
                    let ghost r_pre = r@;
                    proof {
                        let evs = stmt@.effects;
                        assert(evs.take(ei as int + 1).drop_last() =~= evs.take(ei as int));
                        assert(evs.take(ei as int + 1).last() == evs[ei as int]);
                        assert(stmt.effects@[ei as int]@ == evs[ei as int]);
                    }
                    match &stmt.effects[ei] {
                        Effect::LiveOnEntry { region } => {
                            r.push((region.clone(), point.clone()));
                            proof {
                                let evs = stmt@.effects;
                                assert(evs[ei as int] == (EffectView::LiveOnEntry {
                                    region: region@,
                                }));
                                assert(r@.map_values(|t: (String, String)| view2(t))
                                    =~= r_pre.map_values(|t: (String, String)| view2(t)).push(
                                    (region@, point@),
                                ));
                                assert(r@.map_values(|t: (String, String)| view2(t))
                                    =~= region_live_of_blocks(self@.blocks.take(bi as int))
                                    + region_live_of_stmts(
                                    block@.name,
                                    block@.statements,
                                    si as int,
                                ) + region_live_of_effects(evs.take(ei as int + 1), point@));
                            }
                        },
                        _ => {
                            proof {
                                let evs = stmt@.effects;
                                assert(!(evs[ei as int] is LiveOnEntry));
                                assert(r@.map_values(|t: (String, String)| view2(t))
                                    =~= region_live_of_blocks(self@.blocks.take(bi as int))
                                    + region_live_of_stmts(
                                    block@.name,
                                    block@.statements,
                                    si as int,
                                ) + region_live_of_effects(evs.take(ei as int + 1), point@));
                            }
                        },
                    }
                    ei = ei + 1;
                }
                proof {
                    assert(stmt@.effects.take(stmt@.effects.len() as int) =~= stmt@.effects);
                    assert(r@.map_values(|t: (String, String)| view2(t))
                        =~= region_live_of_blocks(self@.blocks.take(bi as int))
                        + region_live_of_stmts(block@.name, block@.statements, si as int + 1));
                }
                si = si + 1;
            }
            proof {
                assert(self@.blocks.take(bi as int + 1).drop_last() =~= self@.blocks.take(
                    bi as int,
                ));
                assert(self@.blocks.take(bi as int + 1).last() == self@.blocks[bi as int]);
                assert(block@.statements.len() == block.statements@.len());
                assert(r@.map_values(|t: (String, String)| view2(t)) =~= region_live_of_blocks(
                    self@.blocks.take(bi as int + 1),
                ));
            }
            bi = bi + 1;
        }
        proof {
            assert(self@.blocks.take(self.blocks@.len() as int) =~= self@.blocks);
            assert(views2(r@) =~= region_live_of_blocks(self@.blocks));
        }
        r
    }

    /// The `(borrow, point)` rows: one per `Kill` effect.
    pub fn killed_facts(&self) -> (r: Vec<(String, String)>)
        ensures
            views2(r@) == killed_of_blocks(self@.blocks),
    {
        let mut r: Vec<(String, String)> = Vec::new();
        let mut bi: usize = 0;
        while bi < self.blocks.len()
            invariant
                bi <= self.blocks@.len(),
                r@.map_values(|t: (String, String)| view2(t)) == killed_of_blocks(
                    self@.blocks.take(bi as int),
                ),
            decreases self.blocks@.len() - bi,
        {
            let block = &self.blocks[bi];
            proof {
                assert(block@ == self@.blocks[bi as int]);
            }
            let mut si: usize = 0;
            while si < block.statements.len()
                invariant
                    bi < self.blocks@.len(),
                    block == &self.blocks[bi as int],
                    block@ == self@.blocks[bi as int],
                    si <= block.statements@.len(),
                    r@.map_values(|t: (String, String)| view2(t)) == killed_of_blocks(
                        self@.blocks.take(bi as int),
                    ) + killed_of_stmts(block@.name, block@.statements, si as int),
                decreases block.statements@.len() - si,
            {
                let point = point_name(block.name.as_str(), si);
                let stmt = &block.statements[si];
                proof {
                    assert(stmt@ == block@.statements[si as int]);
                }
                let mut ei: usize = 0;
                while ei < stmt.effects.len()
                    invariant
                        bi < self.blocks@.len(),
                        block == &self.blocks[bi as int],
                        block@ == self@.blocks[bi as int],
                        si < block.statements@.len(),
                        stmt == &block.statements[si as int],
                        stmt@ == block@.statements[si as int],
                        ei <= stmt.effects@.len(),
                        point@ == point_name_spec(block@.name, si as nat),
                        r@.map_values(|t: (String, String)| view2(t)) == killed_of_blocks(
                            self@.blocks.take(bi as int),
                        ) + killed_of_stmts(block@.name, block@.statements, si as int)
                            + killed_of_effects(stmt@.effects.take(ei as int), point@),
                    decreases stmt.effects@.len() - ei,
                {
                    let ghost r_pre = r@;
                    proof {
                        let evs = stmt@.effects;
                        assert(evs.take(ei as int + 1).drop_last() =~= evs.take(ei as int));
                        assert(evs.take(ei as int + 1).last() == evs[ei as int]);
                        assert(stmt.effects@[ei as int]@ == evs[ei as int]);
                    }
                    match &stmt.effects[ei] {
                        Effect::Kill { borrow } => {
                            r.push((borrow.clone(), point.clone()));
                            proof {
                                let evs = stmt@.effects;
                                assert(evs[ei as int] == (EffectView::Kill { borrow: borrow@ }));
                                assert(r@.map_values(|t: (String, String)| view2(t))
                                    =~= r_pre.map_values(|t: (String, String)| view2(t)).push(
                                    (borrow@, point@),
                                ));
                                assert(r@.map_values(|t: (String, String)| view2(t))
                                    =~= killed_of_blocks(self@.blocks.take(bi as int))
                                    + killed_of_stmts(block@.name, block@.statements, si as int)
                                    + killed_of_effects(evs.take(ei as int + 1), point@));
                            }
                        },
                        _ => {
                            proof {
                                let evs = stmt@.effects;
                                assert(!(evs[ei as int] is Kill));
                                assert(r@.map_values(|t: (String, String)| view2(t))
                                    =~= killed_of_blocks(self@.blocks.take(bi as int))
                                    + killed_of_stmts(block@.name, block@.statements, si as int)
                                    + killed_of_effects(evs.take(ei as int + 1), point@));
                            }
                        },
                    }
                    ei = ei + 1;
                }
                proof {
                    assert(stmt@.effects.take(stmt@.effects.len() as int) =~= stmt@.effects);
                    assert(r@.map_values(|t: (String, String)| view2(t)) =~= killed_of_blocks(
                        self@.blocks.take(bi as int),
                    ) + killed_of_stmts(block@.name, block@.statements, si as int + 1));
                }
                si = si + 1;
            }
            proof {
                assert(self@.blocks.take(bi as int + 1).drop_last() =~= self@.blocks.take(
                    bi as int,
                ));
                assert(self@.blocks.take(bi as int + 1).last() == self@.blocks[bi as int]);
                assert(block@.statements.len() == block.statements@.len());
                assert(r@.map_values(|t: (String, String)| view2(t)) =~= killed_of_blocks(
                    self@.blocks.take(bi as int + 1),
                ));
            }
            bi = bi + 1;
        }
        proof {
            assert(self@.blocks.take(self.blocks@.len() as int) =~= self@.blocks);
            assert(views2(r@) =~= killed_of_blocks(self@.blocks));
        }
        r
    }

    /// The `(point, region, region, point)` rows: one per `Outlives`
    /// effect, effective at the statement's own point (`Pre`) or at its
    /// successor (`Post`).
    pub fn outlives_facts(&self) -> (r: Vec<(String, String, String, String)>)
        ensures
            views4(r@) == outlives_of_blocks(self@.blocks),
    {
        let mut r: Vec<(String, String, String, String)> = Vec::new();
        let mut bi: usize = 0;
        while bi < self.blocks.len()
            invariant
                bi <= self.blocks@.len(),
                r@.map_values(|t: (String, String, String, String)| view4(t))
                    == outlives_of_blocks(self@.blocks.take(bi as int)),
            decreases self.blocks@.len() - bi,
        {
            let block = &self.blocks[bi];
            proof {
                assert(block@ == self@.blocks[bi as int]);
            }
            let mut si: usize = 0;
            while si < block.statements.len()
                invariant
                    bi < self.blocks@.len(),
                    block == &self.blocks[bi as int],
                    block@ == self@.blocks[bi as int],
                    si <= block.statements@.len(),
                    r@.map_values(|t: (String, String, String, String)| view4(t))
                        == outlives_of_blocks(self@.blocks.take(bi as int)) + outlives_of_stmts(
                        block@.name,
                        block@.statements,
                        si as int,
                    ),
                decreases block.statements@.len() - si,
            {
                let point = point_name(block.name.as_str(), si);
                let succ = point_name(block.name.as_str(), si + 1);
                let stmt = &block.statements[si];
                proof {
                    assert(stmt@ == block@.statements[si as int]);
                }
                let mut ei: usize = 0;
                while ei < stmt.effects.len()
                    invariant
                        bi < self.blocks@.len(),
                        block == &self.blocks[bi as int],
                        block@ == self@.blocks[bi as int],
                        si < block.statements@.len(),
                        stmt == &block.statements[si as int],
                        stmt@ == block@.statements[si as int],
                        ei <= stmt.effects@.len(),
                        point@ == point_name_spec(block@.name, si as nat),
                        succ@ == point_name_spec(block@.name, si as nat + 1),
                        r@.map_values(|t: (String, String, String, String)| view4(t))
                            == outlives_of_blocks(self@.blocks.take(bi as int))
                            + outlives_of_stmts(block@.name, block@.statements, si as int)
                            + outlives_of_effects(stmt@.effects.take(ei as int), point@, succ@),
                    decreases stmt.effects@.len() - ei,
                {
                    let ghost r_pre = r@;
                    proof {
                        let evs = stmt@.effects;
                        assert(evs.take(ei as int + 1).drop_last() =~= evs.take(ei as int));
                        assert(evs.take(ei as int + 1).last() == evs[ei as int]);
                        assert(stmt.effects@[ei as int]@ == evs[ei as int]);
                    }
                    match &stmt.effects[ei] {
                        Effect::Outlives { time, a, b } => {
                            match time {
                                OutlivesTime::Pre => {
                                    r.push(
                                        (point.clone(), a.clone(), b.clone(), point.clone()),
                                    );
                                    proof {
                                        assert(r@.map_values(
                                            |t: (String, String, String, String)| view4(t),
                                        ) =~= r_pre.map_values(
                                            |t: (String, String, String, String)| view4(t),
                                        ).push((point@, a@, b@, point@)));
                                    }
                                },
                                OutlivesTime::Post => {
                                    r.push((point.clone(), a.clone(), b.clone(), succ.clone()));
                                    proof {
                                        assert(r@.map_values(
                                            |t: (String, String, String, String)| view4(t),
                                        ) =~= r_pre.map_values(
                                            |t: (String, String, String, String)| view4(t),
                                        ).push((point@, a@, b@, succ@)));
                                    }
                                },
                            }
                            proof {
                                let evs = stmt@.effects;
                                assert(evs[ei as int] == (EffectView::Outlives {
                                    time: *time,
                                    a: a@,
                                    b: b@,
                                }));
                                assert(r@.map_values(
                                    |t: (String, String, String, String)| view4(t),
                                ) =~= outlives_of_blocks(self@.blocks.take(bi as int))
                                    + outlives_of_stmts(
                                    block@.name,
                                    block@.statements,
                                    si as int,
                                ) + outlives_of_effects(
                                    evs.take(ei as int + 1),
                                    point@,
                                    succ@,
                                ));
                            }
                        },
                        _ => {
                            proof {
                                let evs = stmt@.effects;
                                assert(!(evs[ei as int] is Outlives));
                                assert(r@.map_values(
                                    |t: (String, String, String, String)| view4(t),
                                ) =~= outlives_of_blocks(self@.blocks.take(bi as int))
                                    + outlives_of_stmts(
                                    block@.name,
                                    block@.statements,
                                    si as int,
                                ) + outlives_of_effects(
                                    evs.take(ei as int + 1),
                                    point@,
                                    succ@,
                                ));
                            }
                        },
                    }
                    ei = ei + 1;
                }
                proof {
                    assert(stmt@.effects.take(stmt@.effects.len() as int) =~= stmt@.effects);
                    assert(r@.map_values(|t: (String, String, String, String)| view4(t))
                        =~= outlives_of_blocks(self@.blocks.take(bi as int)) + outlives_of_stmts(
                        block@.name,
                        block@.statements,
                        si as int + 1,
                    ));
                }
                si = si + 1;
            }
            proof {
                assert(self@.blocks.take(bi as int + 1).drop_last() =~= self@.blocks.take(
                    bi as int,
                ));
                assert(self@.blocks.take(bi as int + 1).last() == self@.blocks[bi as int]);
                assert(block@.statements.len() == block.statements@.len());
                assert(r@.map_values(|t: (String, String, String, String)| view4(t))
                    =~= outlives_of_blocks(self@.blocks.take(bi as int + 1)));
            }
            bi = bi + 1;
        }
        proof {
            assert(self@.blocks.take(self.blocks@.len() as int) =~= self@.blocks);
            assert(views4(r@) =~= outlives_of_blocks(self@.blocks));
        }
        r
    }
}

} // verus!
