//! Inlay hints: which of the analysis's hints the client asked for, and how
//! each is labelled.

use vstd::prelude::*;
use crate::lsp::diagnostics::{Position, Range};
use crate::text::{chars_of, push_all, string_of};

verus! {

/// Which call arguments are labelled with their parameter's name.
#[derive(Debug, Clone, Copy, PartialEq, Eq, Structural)]
pub enum Names {
    Off,
    Literals,
    All,
}

/// The inlay hints a client asked for.
#[derive(Debug, Clone, Copy, PartialEq, Eq, Structural)]
pub struct Options {
    pub variable_types: bool,
    pub parameter_types: bool,
    pub function_return_types: bool,
    pub parameter_names: Names,
    pub type_hint_max_length: usize,
}

impl Default for Options {
    /// No hints, and labels of at most 50 characters.
    fn default() -> (options: Self)
        ensures
            options == (Options {
                variable_types: false,
                parameter_types: false,
                function_return_types: false,
                parameter_names: Names::Off,
                type_hint_max_length: 50,
            }),
    {
        Options {
            variable_types: false,
            parameter_types: false,
            function_return_types: false,
            parameter_names: Names::Off,
            type_hint_max_length: 50,
        }
    }
}

/// Whether the client asked for hints of the analysis's kind `kind`: 1 a
/// variable's type, 2 a parameter's type, 3 a function's return type, 4 a
/// parameter's name at any argument, 5 a parameter's name at a literal.
pub open spec fn shows(options: Options, kind: Option<u32>) -> bool {
    match kind {
        Some(1) => options.variable_types,
        Some(2) => options.parameter_types,
        Some(3) => options.function_return_types,
        Some(4) => options.parameter_names == Names::All,
        Some(5) => options.parameter_names != Names::Off,
        _ => false,
    }
}

impl Options {
    /// Whether the client asked for any hint at all.
    pub fn requested(&self) -> (r: bool)
        ensures
            r == (self.variable_types || self.parameter_types || self.function_return_types
                || self.parameter_names != Names::Off),
            !r ==> forall|kind: Option<u32>| !shows(*self, kind),
    {
        self.variable_types || self.parameter_types || self.function_return_types || !matches!(
            self.parameter_names,
            Names::Off
        )
    }
}

/// `a` comes before `b`: on an earlier line, or earlier on the same line.
pub open spec fn before(a: Position, b: Position) -> bool {
    a.line < b.line || (a.line == b.line && a.character < b.character)
}

/// The label of a hint: `name:` for a parameter's name, `: type` otherwise.
pub open spec fn label(description: Seq<char>, parameter: bool) -> Seq<char> {
    if parameter {
        description + seq![':']
    } else {
        seq![':', ' '] + description
    }
}

/// A label of more than `max` characters keeps its first `max - 1` and ends
/// in an ellipsis.
pub open spec fn shortened(label: Seq<char>, max: nat) -> Seq<char> {
    if label.len() > max {
        label.take(if max == 0 {
            0
        } else {
            max - 1
        }) + seq!['…']
    } else {
        label
    }
}

/// The full label as a Luau code block.
pub open spec fn tooltip(label: Seq<char>) -> Seq<char> {
    seq!['`', '`', '`', 'l', 'u', 'a', 'u', '\n'] + label + seq!['\n', '`', '`', '`']
}

/// What the analysis reports for one hint.
pub struct Entry {
    pub kind: Option<u32>,
    pub position: Option<Position>,
    pub description: Option<String>,
}

/// A hint to show: where, its possibly shortened label, its tooltip, and
/// whether it names a parameter (and so is padded on its right) rather than
/// a type.
#[derive(Debug)]
pub struct Hint {
    pub position: Position,
    pub label: String,
    pub tooltip: String,
    pub parameter: bool,
}

pub struct EntryView {
    pub kind: Option<u32>,
    pub position: Option<Position>,
    pub description: Option<Seq<char>>,
}

pub struct HintView {
    pub position: Position,
    pub label: Seq<char>,
    pub tooltip: Seq<char>,
    pub parameter: bool,
}

pub open spec fn entry_view(entry: Entry) -> EntryView {
    EntryView {
        kind: entry.kind,
        position: entry.position,
        description: match entry.description {
            Some(d) => Some(d@),
            None => None,
        },
    }
}

pub open spec fn hint_view(hint: Hint) -> HintView {
    HintView {
        position: hint.position,
        label: hint.label@,
        tooltip: hint.tooltip@,
        parameter: hint.parameter,
    }
}

/// The hint shown for `entry` in `range`: none where the client did not ask
/// for its kind, where it has no position or one outside `range`, or where
/// it has no description.
pub open spec fn hint_of(options: Options, entry: EntryView, range: Range) -> Option<HintView> {
    match (entry.position, entry.description) {
        (Some(position), Some(description)) => {
            if !shows(options, entry.kind) || before(position, range.start) || before(
                range.end,
                position,
            ) {
                None
            } else {
                let parameter = entry.kind == Some(4u32) || entry.kind == Some(5u32);
                let full = label(description, parameter);
                Some(
                    HintView {
                        position,
                        label: shortened(full, options.type_hint_max_length as nat),
                        tooltip: tooltip(full),
                        parameter,
                    },
                )
            }
        },
        _ => None,
    }
}

/// The hints shown for `entries` in `range`, in their order.
pub open spec fn hints_of(options: Options, entries: Seq<EntryView>, range: Range) -> Seq<HintView>
    decreases entries.len(),
{
    if entries.len() == 0 {
        Seq::empty()
    } else {
        let shown = hints_of(options, entries.drop_last(), range);
        match hint_of(options, entries.last(), range) {
            Some(hint) => shown.push(hint),
            None => shown,
        }
    }
}

/// Whether `a` comes before `b`.
fn earlier(a: Position, b: Position) -> (r: bool)
    ensures
        r == before(a, b),
{
    a.line < b.line || (a.line == b.line && a.character < b.character)
}

/// The hint shown for `entry` in `range`, if any.
pub fn hint(options: &Options, entry: &Entry, range: Range) -> (r: Option<Hint>)
    ensures
        match hint_of(*options, entry_view(*entry), range) {
            Some(h) => r matches Some(shown) && hint_view(shown) == h,
            None => r is None,
        },
{
    let enabled = match entry.kind {
        Some(1) => options.variable_types,
        Some(2) => options.parameter_types,
        Some(3) => options.function_return_types,
        Some(4) => matches!(options.parameter_names, Names::All),
        Some(5) => !matches!(options.parameter_names, Names::Off),
        _ => false,
    };
    let position = match entry.position {
        Some(position) => position,
        None => {
            return None;
        },
    };
    if !enabled || earlier(position, range.start) || earlier(range.end, position) {
        return None;
    }
    let description = match &entry.description {
        Some(description) => description,
        None => {
            return None;
        },
    };
    let parameter = matches!(entry.kind, Some(4) | Some(5));
    let mut full: Vec<char> = Vec::new();
    if parameter {
        push_all(&mut full, chars_of(description.as_str()).as_slice());
        full.push(':');
    } else {
        full.push(':');
        full.push(' ');
        push_all(&mut full, chars_of(description.as_str()).as_slice());
    }
    assert(full@ =~= label(description@, parameter));
    let max = options.type_hint_max_length;
    let mut short: Vec<char> = Vec::new();
    if full.len() > max {
        let keep = if max == 0 {
            0
        } else {
            max - 1
        };
        let mut i: usize = 0;
        while i < keep
            invariant
                keep < full@.len(),
                i <= keep,
                short@ == full@.take(i as int),
            decreases keep - i,
        {
            short.push(full[i]);
            i += 1;
            assert(short@ =~= full@.take(i as int));
        }
        short.push('…');
    } else {
        push_all(&mut short, full.as_slice());
    }
    assert(short@ =~= shortened(full@, max as nat));
    let mut fenced: Vec<char> = Vec::new();
    fenced.push('`');
    fenced.push('`');
    fenced.push('`');
    fenced.push('l');
    fenced.push('u');
    fenced.push('a');
    fenced.push('u');
    fenced.push('\n');
    push_all(&mut fenced, full.as_slice());
    fenced.push('\n');
    fenced.push('`');
    fenced.push('`');
    fenced.push('`');
    assert(fenced@ =~= tooltip(full@));
    Some(
        Hint {
            position,
            label: string_of(short.as_slice()),
            tooltip: string_of(fenced.as_slice()),
            parameter,
        },
    )
}

/// The hints shown for `entries` in `range`, in their order; none at all
/// when the client asked for none.
pub fn hints(options: &Options, entries: &Vec<Entry>, range: Range) -> (r: Vec<Hint>)
    ensures
        r@.map_values(|h: Hint| hint_view(h)) == hints_of(
            *options,
            entries@.map_values(|e: Entry| entry_view(e)),
            range,
        ),
{
    let ghost views = entries@.map_values(|e: Entry| entry_view(e));
    let mut shown: Vec<Hint> = Vec::new();
    let mut i: usize = 0;
    while i < entries.len()
        invariant
            i <= entries@.len(),
            views == entries@.map_values(|e: Entry| entry_view(e)),
            shown@.map_values(|h: Hint| hint_view(h)) == hints_of(
                *options,
                views.take(i as int),
                range,
            ),
        decreases entries@.len() - i,
    {
        let ghost before_shown = shown@;
        assert(views.take(i + 1).drop_last() =~= views.take(i as int));
        assert(views.take(i + 1).last() == entry_view(entries@[i as int]));
        match hint(options, &entries[i], range) {
            Some(h) => {
                shown.push(h);
                assert(shown@.map_values(|h: Hint| hint_view(h)) =~= before_shown.map_values(
                    |h: Hint| hint_view(h),
                ).push(hint_view(h)));
            },
            None => {},
        }
        i += 1;
    }
    assert(views.take(i as int) =~= views);
    shown
}

} // verus!
