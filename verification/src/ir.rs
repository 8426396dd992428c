//! The intermediate control-flow representation produced by the parser
//! and lowered to base facts.

use vstd::prelude::*;

verus! {

/// A whole analysis input: a list of blocks.
pub struct Input {
    pub blocks: Vec<Block>,
}

/// One basic block: its name, its statements, and the names of the
/// blocks its terminator jumps to.
pub struct Block {
    pub name: String,
    pub statements: Vec<Statement>,
    pub goto: Vec<String>,
}

/// One statement: a list of effects taking place at its point.
pub struct Statement {
    pub effects: Vec<Effect>,
}

/// An effect of a statement on the borrow analysis.
pub enum Effect {
    /// A borrow `borrow` occurred in this statement; the resulting
    /// reference has the region `region`.  Typically accompanied by a
    /// `post` outlives requirement for the variable holding the
    /// reference.
    Borrow { borrow: String, region: String },
    /// The region is required live on entry to this statement.
    LiveOnEntry { region: String },
    /// The borrow is invalidated at this statement.
    Kill { borrow: String },
    /// Data flows from region `a` into region `b`.  The requirement is
    /// positioned at this statement and becomes effective either here
    /// (`Pre`) or at the next statement (`Post`).
    Outlives { time: OutlivesTime, a: String, b: String },
}

/// When an outlives requirement becomes effective.
pub enum OutlivesTime {
    Pre,
    Post,
}

/// Ghost mirror of [`Input`].
pub ghost struct InputView {
    pub blocks: Seq<BlockView>,
}

/// Ghost mirror of [`Block`].
pub ghost struct BlockView {
    pub name: Seq<char>,
    pub statements: Seq<StatementView>,
    pub goto: Seq<Seq<char>>,
}

/// Ghost mirror of [`Statement`].
pub ghost struct StatementView {
    pub effects: Seq<EffectView>,
}

/// Ghost mirror of [`Effect`].
pub ghost enum EffectView {
    Borrow { borrow: Seq<char>, region: Seq<char> },
    LiveOnEntry { region: Seq<char> },
    Kill { borrow: Seq<char> },
    Outlives { time: OutlivesTime, a: Seq<char>, b: Seq<char> },
}

impl View for Effect {
    type V = EffectView;

    open spec fn view(&self) -> EffectView {
        match self {
            Effect::Borrow { borrow, region } => EffectView::Borrow {
                borrow: borrow@,
                region: region@,
            },
            Effect::LiveOnEntry { region } => EffectView::LiveOnEntry { region: region@ },
            Effect::Kill { borrow } => EffectView::Kill { borrow: borrow@ },
            Effect::Outlives { time, a, b } => EffectView::Outlives { time: *time, a: a@, b: b@ },
        }
    }
}

impl View for Statement {
    type V = StatementView;

    open spec fn view(&self) -> StatementView {
        StatementView { effects: self.effects@.map_values(|e: Effect| e@) }
    }
}

impl View for Block {
    type V = BlockView;

    open spec fn view(&self) -> BlockView {
        BlockView {
            name: self.name@,
            statements: self.statements@.map_values(|s: Statement| s@),
            goto: self.goto@.map_values(|g: String| g@),
        }
    }
}

impl View for Input {
    type V = InputView;

    open spec fn view(&self) -> InputView {
        InputView { blocks: self.blocks@.map_values(|b: Block| b@) }
    }
}

} // verus!
