use vstd::prelude::*;

verus! {

/// A decoded bin: the block whose heap holds it and its dictionary entry.
#[derive(Clone, Copy, PartialEq, Eq, Structural, Debug, Hash, PartialOrd, Ord)]
pub struct Bin {
    pub block: i64,
    pub entry: i64,
}

/// A bin that is a valid identifier.
#[derive(Clone, Copy, PartialEq, Eq, Structural, Debug, Hash, PartialOrd, Ord)]
pub struct Word(pub Bin);

/// The path of a column within nested columns.
#[derive(Clone, PartialEq, Eq, Debug, Hash, PartialOrd, Ord)]
pub struct Path(pub Vec<Word>);

/// An expression of the query language.
#[derive(Clone, Copy, PartialEq, Eq, Structural, Debug, Hash, PartialOrd, Ord)]
pub enum Expr {
    Pass,
}

} // verus!
