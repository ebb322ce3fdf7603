//! The DocGen data dump, as it is read from its JSON file.
//!
//! A dump is a tree of tables. Each entry of a table is keyed by its name and
//! is a nested table, a function, a value, a reference back to an enclosing
//! table (a cycle) or some other kind of entry.
use vstd::prelude::*;

verus! {

/// A table of the dump: its name and its named entries.
#[derive(Debug)]
pub struct Table {
    pub docs_name: String,
    /// The entries of the table, each with its key.
    pub params: Vec<(String, Node)>,
}

/// A function of the dump: its name, the chunk it was defined in, and the
/// first and last line of its definition (negative where unknown).
#[derive(Debug)]
pub struct Function {
    pub docs_name: String,
    pub source: String,
    pub linedefined: isize,
    pub lastlinedefined: isize,
}

/// A plain value of the dump.
#[derive(Debug)]
pub struct Value {
    pub docs_name: String,
    pub v: String,
}

/// An entry of some other kind.
#[derive(Debug)]
pub struct Other {
    pub docs_name: String,
    pub kind: String,
}

/// A reference back to a table that encloses the entry.
#[derive(Debug)]
pub struct Cycle {
    pub docs_name: String,
    pub name: String,
}

/// An entry of a table.
#[derive(Debug)]
pub enum Node {
    Table(Table),
    Function(Function),
    Cycle(Cycle),
    Value(Value),
    Other(Other),
}

/// Every DocGen data dump starts as a table, so that will be our starting point too.
#[derive(Debug)]
pub struct ApiData {
    pub root: Node,
}

} // verus!
