//! Layout choices for blocks, bindings, requires, table fields, call chains and types.

use vstd::prelude::*;

verus! {

/// Which single-statement blocks stay on one line.
#[derive(Debug, Clone, Copy, PartialEq, Eq, Structural)]
pub enum Collapse {
    Never,
    FunctionOnly,
    ConditionalOnly,
    Always,
}

impl Default for Collapse {
    fn default() -> (r: Self)
        ensures
            r == Collapse::Never,
    {
        Collapse::Never
    }
}

/// Treatment of existing blank lines.
#[derive(Debug, Clone, Copy, PartialEq, Eq, Structural)]
pub enum Gaps {
    Never,
    Preserve,
}

impl Default for Gaps {
    fn default() -> (r: Self)
        ensures
            r == Gaps::Never,
    {
        Gaps::Never
    }
}

/// Declaration keyword of rewritten bindings.
#[derive(Debug, Clone, Copy, PartialEq, Eq, Structural)]
pub enum Binding {
    Preserve,
    Const,
    Local,
}

impl Default for Binding {
    fn default() -> (r: Self)
        ensures
            r == Binding::Preserve,
    {
        Binding::Preserve
    }
}

/// Treatment of unused require bindings.
#[derive(Debug, Clone, Copy, PartialEq, Eq, Structural)]
pub enum Imports {
    Ignore,
    Underscore,
    Remove,
}

impl Default for Imports {
    fn default() -> (r: Self)
        ensures
            r == Imports::Ignore,
    {
        Imports::Ignore
    }
}

/// Declaration form of rewritten function bindings.
#[derive(Debug, Clone, Copy, PartialEq, Eq, Structural)]
pub enum Functions {
    Preserve,
    Local,
    Const,
    Global,
}

impl Default for Functions {
    fn default() -> (r: Self)
        ensures
            r == Functions::Preserve,
    {
        Functions::Preserve
    }
}

/// Grouping of require bindings.
#[derive(Debug, Clone, Copy, PartialEq, Eq, Structural)]
pub enum Grouping {
    Flat,
    ByKind,
}

impl Default for Grouping {
    fn default() -> (r: Self)
        ensures
            r == Grouping::Flat,
    {
        Grouping::Flat
    }
}

/// Order of table fields.
#[derive(Debug, Clone, Copy, PartialEq, Eq, Structural)]
pub enum Order {
    Unsorted,
    Ascending,
    Descending,
    Alphabetical,
    SizeAscending,
    SizeDescending,
}

impl Default for Order {
    fn default() -> (r: Self)
        ensures
            r == Order::Unsorted,
    {
        Order::Unsorted
    }
}

/// Position of table-type indexers among reordered fields.
#[derive(Debug, Clone, Copy, PartialEq, Eq, Structural)]
pub enum Indexer {
    First,
    Last,
    Sorted,
}

impl Default for Indexer {
    fn default() -> (r: Self)
        ensures
            r == Indexer::First,
    {
        Indexer::First
    }
}

/// Layout of repeated dot and colon calls.
#[derive(Debug, Clone, Copy, PartialEq, Eq, Structural)]
pub enum Chain {
    Preserve,
    Method,
    Full,
}

impl Default for Chain {
    fn default() -> (r: Self)
        ensures
            r == Chain::Preserve,
    {
        Chain::Preserve
    }
}

/// When union and intersection types expand.
#[derive(Debug, Clone, Copy, PartialEq, Eq, Structural)]
pub enum TypeExpansion {
    Auto,
    Always,
    Never,
}

impl Default for TypeExpansion {
    fn default() -> (r: Self)
        ensures
            r == TypeExpansion::Auto,
    {
        TypeExpansion::Auto
    }
}

/// Require ordering and grouping.
pub struct Requires {
    pub enabled: bool,
    pub grouping: Grouping,
}

impl Default for Requires {
    fn default() -> (r: Self)
        ensures
            !r.enabled,
            r.grouping == Grouping::Flat,
    {
        Requires { enabled: false, grouping: Grouping::default() }
    }
}

/// Scope-aware conversion of local bindings to constants.
pub struct Constants {
    pub enabled: bool,
    pub mutated_tables_stay_local: bool,
}

impl Default for Constants {
    fn default() -> (r: Self)
        ensures
            !r.enabled,
            !r.mutated_tables_stay_local,
    {
        Constants { enabled: false, mutated_tables_stay_local: false }
    }
}

/// Field order and indexer position of table types.
pub struct Properties {
    pub order: Order,
    pub indexer: Indexer,
}

impl Default for Properties {
    fn default() -> (r: Self)
        ensures
            r.order == Order::Unsorted,
            r.indexer == Indexer::First,
    {
        Properties { order: Order::default(), indexer: Indexer::default() }
    }
}

impl Properties {
    /// Where indexers go among reordered fields.
    pub fn position(&self) -> (r: Indexer)
        ensures
            r == self.indexer,
    {
        self.indexer
    }
}

/// Field ordering in table expressions.
pub struct Sorting {
    pub order: Order,
}

impl Default for Sorting {
    fn default() -> (r: Self)
        ensures
            r.order == Order::Unsorted,
    {
        Sorting { order: Order::default() }
    }
}

/// Layout of repeated dot and colon calls.
pub struct Chains {
    pub style: Chain,
    pub min_calls: usize,
}

impl Default for Chains {
    fn default() -> (r: Self)
        ensures
            r.style == Chain::Preserve,
            r.min_calls == 3,
    {
        Chains { style: Chain::default(), min_calls: 3 }
    }
}

/// Union and intersection layout.
pub struct Operators {
    pub expand: TypeExpansion,
}

impl Default for Operators {
    fn default() -> (r: Self)
        ensures
            r.expand == TypeExpansion::Auto,
    {
        Operators { expand: TypeExpansion::default() }
    }
}

} // verus!
