//! Classifications the language server reports: which code actions a client
//! asked for, the kind of a document symbol, and the severity of a finding.

use vstd::prelude::*;
use crate::lint::configuration::Level;
use crate::text::{chars_of, starts_with};

verus! {

/// Whether the action kind `kind` falls under the requested kind `requested`:
/// it is that kind, or a kind below it (`requested` followed by a dot).
pub open spec fn under(kind: Seq<char>, requested: Seq<char>) -> bool {
    kind == requested || (starts_with(kind, requested) && kind.len() > requested.len()
        && kind[requested.len() as int] == '.')
}

fn under_kind(kind: &[char], requested: &[char]) -> (r: bool)
    ensures
        r == under(kind@, requested@),
{
    if kind.len() < requested.len() {
        return false;
    }
    let mut i: usize = 0;
    while i < requested.len()
        invariant
            i <= requested@.len() <= kind@.len(),
            forall|k: int| 0 <= k < i ==> kind@[k] == requested@[k],
        decreases requested@.len() - i,
    {
        if kind[i] != requested[i] {
            assert(kind@.subrange(0, requested@.len() as int)[i as int] != requested@[i as int]);
            return false;
        }
        i = i + 1;
    }
    assert(kind@.subrange(0, requested@.len() as int) =~= requested@);
    if kind.len() == requested.len() {
        assert(kind@ =~= requested@);
        return true;
    }
    kind[requested.len()] == '.'
}

/// Whether actions of kind `kind` are wanted by a client that asked only for
/// the kinds `only`, when it named any: some requested kind holds it.
pub fn wants(only: Option<&Vec<String>>, kind: &str) -> (r: bool)
    ensures
        match only {
            None => r,
            Some(v) => r == exists|i: int| 0 <= i < v@.len() && #[trigger] under(kind@, v@[i]@),
        },
{
    let kinds = match only {
        None => {
            return true;
        },
        Some(v) => v,
    };
    let k = chars_of(kind);
    let mut i: usize = 0;
    while i < kinds.len()
        invariant
            i <= kinds@.len(),
            k@ == kind@,
            only == Some(kinds),
            forall|j: int| 0 <= j < i ==> !under(kind@, #[trigger] kinds@[j]@),
        decreases kinds@.len() - i,
    {
        if under_kind(&k, &chars_of(kinds[i].as_str())) {
            assert(under(kind@, kinds@[i as int]@));
            assert(exists|j: int| 0 <= j < kinds@.len() && #[trigger] under(kind@, kinds@[j]@));
            assert(only matches Some(v) && v@ == kinds@);
            return true;
        }
        i = i + 1;
    }
    false
}

/// The kinds of symbol the editor shows.
#[derive(Debug, Clone, Copy, PartialEq, Eq, Structural)]
pub enum SymbolKind {
    Property,
    Function,
    Interface,
    Variable,
}

/// The symbol kind for an analysis kind code: 7 a property, 12 a function,
/// 26 an interface, and anything else a variable.
pub fn symbol_kind(kind: Option<u32>) -> (r: SymbolKind)
    ensures
        r == match kind {
            Some(7) => SymbolKind::Property,
            Some(12) => SymbolKind::Function,
            Some(26) => SymbolKind::Interface,
            _ => SymbolKind::Variable,
        },
{
    match kind {
        Some(7) => SymbolKind::Property,
        Some(12) => SymbolKind::Function,
        Some(26) => SymbolKind::Interface,
        _ => SymbolKind::Variable,
    }
}

/// How the editor marks a diagnostic.
#[derive(Debug, Clone, Copy, PartialEq, Eq, Structural)]
pub enum Severity {
    Error,
    Warning,
    Hint,
}

/// The diagnostic severity of a finding's level: denied findings are
/// errors, warned ones warnings, and the rest hints.
pub fn severity(level: Level) -> (r: Severity)
    ensures
        r == match level {
            Level::Deny => Severity::Error,
            Level::Warn => Severity::Warning,
            _ => Severity::Hint,
        },
{
    match level {
        Level::Deny => Severity::Error,
        Level::Warn => Severity::Warning,
        Level::Info | Level::Allow => Severity::Hint,
    }
}

/// The default longest inlay hint, in characters.
pub fn length() -> (r: usize)
    ensures
        r == 50,
{
    50
}

} // verus!
