//! Formatter options: whitespace, line width, literals, spacing, calls,
//! conditionals, table types and bindings.

use vstd::prelude::*;

mod layout;

pub use layout::{
    Binding, Chain, Chains, Collapse, Constants, Functions, Gaps, Grouping, Imports, Indexer,
    Operators, Order, Properties, Requires, Sorting, TypeExpansion,
};

verus! {

/// Indentation character.
#[derive(Debug, Clone, Copy, PartialEq, Eq, Structural)]
pub enum Whitespace {
    Tabs,
    Spaces,
}

impl Default for Whitespace {
    fn default() -> (r: Self)
        ensures
            r == Whitespace::Tabs,
    {
        Whitespace::Tabs
    }
}

/// Line ending written by the formatter.
#[derive(Debug, Clone, Copy, PartialEq, Eq, Structural)]
pub enum Endings {
    Unix,
    Windows,
}

impl Endings {
    /// The characters that end a line.
    pub fn text(self) -> (r: &'static str)
        ensures
            r@ == match self {
                Endings::Unix => "\n"@,
                Endings::Windows => "\r\n"@,
            },
    {
        match self {
            Endings::Unix => "\n",
            Endings::Windows => "\r\n",
        }
    }
}

impl Default for Endings {
    fn default() -> (r: Self)
        ensures
            r == Endings::Unix,
    {
        Endings::Unix
    }
}

/// Delimiter choice for quoted string literals.
#[derive(Debug, Clone, Copy, PartialEq, Eq, Structural)]
pub enum Quotes {
    PreferDouble,
    PreferSingle,
    Double,
    Single,
    Preserve,
}

impl Default for Quotes {
    fn default() -> (r: Self)
        ensures
            r == Quotes::PreferDouble,
    {
        Quotes::PreferDouble
    }
}

/// Treatment of the zero before the decimal point of fractional numbers.
#[derive(Debug, Clone, Copy, PartialEq, Eq, Structural)]
pub enum Zero {
    Add,
    Strip,
    Preserve,
}

impl Default for Zero {
    fn default() -> (r: Self)
        ensures
            r == Zero::Add,
    {
        Zero::Add
    }
}

/// Parentheses around a sole string or table call argument.
#[derive(Debug, Clone, Copy, PartialEq, Eq, Structural)]
pub enum Parentheses {
    Always,
    OmitString,
    OmitTable,
    OmitOptional,
    Preserve,
}

impl Default for Parentheses {
    fn default() -> (r: Self)
        ensures
            r == Parentheses::Always,
    {
        Parentheses::Always
    }
}

/// Where a space precedes function parentheses.
#[derive(Debug, Clone, Copy, PartialEq, Eq, Structural)]
pub enum Separation {
    Never,
    Definitions,
    Calls,
    Always,
}

impl Default for Separation {
    fn default() -> (r: Self)
        ensures
            r == Separation::Never,
    {
        Separation::Never
    }
}

/// Statement semicolon policy.
#[derive(Debug, Clone, Copy, PartialEq, Eq, Structural)]
pub enum Semicolons {
    Never,
    Always,
}

impl Default for Semicolons {
    fn default() -> (r: Self)
        ensures
            r == Semicolons::Never,
    {
        Semicolons::Never
    }
}

/// When a list expands onto several lines.
#[derive(Debug, Clone, Copy, PartialEq, Eq, Structural)]
pub enum Expansion {
    Needed,
    Always,
    Never,
}

impl Default for Expansion {
    fn default() -> (r: Self)
        ensures
            r == Expansion::Needed,
    {
        Expansion::Needed
    }
}

/// Separator between table-type members.
#[derive(Debug, Clone, Copy, PartialEq, Eq, Structural)]
pub enum Separator {
    Comma,
    Semicolon,
}

impl Separator {
    /// The characters that separate table-type members.
    pub fn text(self) -> (r: &'static str)
        ensures
            r@ == match self {
                Separator::Comma => ","@,
                Separator::Semicolon => ";"@,
            },
    {
        match self {
            Separator::Comma => ",",
            Separator::Semicolon => ";",
        }
    }
}

impl Default for Separator {
    fn default() -> (r: Self)
        ensures
            r == Separator::Comma,
    {
        Separator::Comma
    }
}

/// When an if-then-else expression expands.
#[derive(Debug, Clone, Copy, PartialEq, Eq, Structural)]
pub enum ConditionalExpansion {
    Never,
    Always,
    Needed,
}

impl Default for ConditionalExpansion {
    fn default() -> (r: Self)
        ensures
            r == ConditionalExpansion::Never,
    {
        ConditionalExpansion::Never
    }
}

/// Layout of expanded if-then-else expression branches.
#[derive(Debug, Clone, Copy, PartialEq, Eq, Structural)]
pub enum ConditionalStyle {
    Block,
    Leading,
}

impl Default for ConditionalStyle {
    fn default() -> (r: Self)
        ensures
            r == ConditionalStyle::Block,
    {
        ConditionalStyle::Block
    }
}

/// Where an expanded sole conditional expression starts.
#[derive(Debug, Clone, Copy, PartialEq, Eq, Structural)]
pub enum Placement {
    SameLine,
    NextLine,
}

impl Default for Placement {
    fn default() -> (r: Self)
        ensures
            r == Placement::SameLine,
    {
        Placement::SameLine
    }
}

/// Layout of expanded call arguments.
#[derive(Debug, Clone, Copy, PartialEq, Eq, Structural)]
pub enum CallStyle {
    OnePerLine,
    HugLast,
}

impl Default for CallStyle {
    fn default() -> (r: Self)
        ensures
            r == CallStyle::OnePerLine,
    {
        CallStyle::OnePerLine
    }
}

/// Table-type layout.
pub struct Tables {
    /// Format table-type layouts. When false, multiline table types retain their source layout and single-line table types stay flat.
    pub enabled: bool,
    /// Remove or preserve existing blank lines between members without inserting new gaps.
    pub blank_lines: Gaps,
    /// Maximum flat table-type width before expansion, also constrained by `column_width`.
    pub width: usize,
    /// Separate table-type members with a comma or semicolon.
    pub separator: Separator,
    /// Preserve field order, sort alphabetically, by key length, or by formatted field width.
    pub order: Order,
    /// Place indexers first, last, or among sorted fields.
    pub indexer: Indexer,
}

impl Default for Tables {
    fn default() -> (r: Self)
        ensures
            r.enabled,
            r.blank_lines == Gaps::Never,
            r.width == 60,
            r.separator == Separator::Comma,
            r.order == Order::Unsorted,
            r.indexer == Indexer::First,
    {
        Tables {
            enabled: true,
            blank_lines: Gaps::default(),
            width: 60,
            separator: Separator::default(),
            order: Order::default(),
            indexer: Indexer::default(),
        }
    }
}

/// Layout of if-then-else expressions, not conditional statements.
pub struct Conditional {
    /// Expand conditional expressions when needed by width, always at the outermost level, or never voluntarily.
    pub expand: ConditionalExpansion,
    /// Flat expression width that triggers expansion when expand is needed or always.
    pub width: usize,
    /// Block places branch values on indented lines; leading places then and else before their values.
    pub style: ConditionalStyle,
    /// Same-line starts the expression after its binding or return; next-line moves it to an indented line.
    pub placement: Placement,
    /// Number of additional indentation levels for expanded conditional branches.
    pub indentation: usize,
}

impl Default for Conditional {
    fn default() -> (r: Self)
        ensures
            r.expand == ConditionalExpansion::Never,
            r.width == 60,
            r.style == ConditionalStyle::Block,
            r.placement == Placement::SameLine,
            r.indentation == 1,
    {
        Conditional {
            expand: ConditionalExpansion::default(),
            width: 60,
            style: ConditionalStyle::default(),
            placement: Placement::default(),
            indentation: 1,
        }
    }
}

/// Argument parentheses, list layout, and repeated calls.
pub struct Calls {
    /// Expand argument lists when needed by width, always, or never voluntarily.
    pub expand: Expansion,
    /// One-per-line separates expanded arguments; hug-last keeps a final table, function, or multiline string attached.
    pub style: CallStyle,
    /// Number of additional indentation levels for expanded arguments.
    pub indentation: usize,
    /// Always use parentheses, omit them for a sole string or table argument, omit either optional form, or preserve the input choice.
    pub parentheses: Parentheses,
    /// Layout of repeated dot and colon calls.
    pub chains: Chains,
}

impl Default for Calls {
    fn default() -> (r: Self)
        ensures
            r.expand == Expansion::Needed,
            r.style == CallStyle::OnePerLine,
            r.indentation == 1,
            r.parentheses == Parentheses::Always,
            r.chains.style == Chain::Preserve,
            r.chains.min_calls == 3,
    {
        Calls {
            expand: Expansion::default(),
            style: CallStyle::default(),
            indentation: 1,
            parentheses: Parentheses::default(),
            chains: Chains::default(),
        }
    }
}

/// Declaration parameter layout.
pub struct Parameters {
    /// Expand declaration parameters when needed by width, always, or never voluntarily.
    pub expand: Expansion,
    /// Number of additional indentation levels for expanded declaration parameters.
    pub indentation: usize,
}

impl Default for Parameters {
    fn default() -> (r: Self)
        ensures
            r.expand == Expansion::Needed,
            r.indentation == 1,
    {
        Parameters { expand: Expansion::default(), indentation: 1 }
    }
}

/// Indentation characters and columns per level.
pub struct Indentation {
    /// Indent with tabs or spaces.
    pub style: Whitespace,
    /// Columns per indentation level, including the display width of a tab.
    pub width: usize,
}

impl Default for Indentation {
    fn default() -> (r: Self)
        ensures
            r.style == Whitespace::Tabs,
            r.width == 4,
    {
        Indentation { style: Whitespace::default(), width: 4 }
    }
}

/// Interior delimiter spaces and spacing before function parentheses.
pub struct Spacing {
    /// Add interior spaces to nonempty parentheses.
    pub parentheses: bool,
    /// Add interior spaces to nonempty brackets.
    pub brackets: bool,
    /// Add interior spaces to nonempty braces.
    pub braces: bool,
    /// Add a space before function parentheses: never, definitions, calls, or always.
    pub function_names: Separation,
}

impl Default for Spacing {
    fn default() -> (r: Self)
        ensures
            !r.parentheses,
            !r.brackets,
            r.braces,
            r.function_names == Separation::Never,
    {
        Spacing {
            parentheses: false,
            brackets: false,
            braces: true,
            function_names: Separation::default(),
        }
    }
}

/// Statement block layout.
pub struct Blocks {
    /// Remove or preserve existing blank lines at the edges of blocks.
    pub blank_lines: Gaps,
    /// Which blocks of one simple statement stay on one line.
    pub collapse: Collapse,
}

impl Default for Blocks {
    fn default() -> (r: Self)
        ensures
            r.blank_lines == Gaps::Never,
            r.collapse == Collapse::Never,
    {
        Blocks { blank_lines: Gaps::default(), collapse: Collapse::default() }
    }
}

/// Table-type and union and intersection layout.
pub struct Types {
    pub tables: Tables,
    pub operators: Operators,
}

impl Default for Types {
    fn default() -> (r: Self)
        ensures
            r.tables.enabled,
            r.tables.width == 60,
            r.tables.blank_lines == Gaps::Never,
            r.tables.separator == Separator::Comma,
            r.operators.expand == TypeExpansion::Auto,
    {
        Types { tables: Tables::default(), operators: Operators::default() }
    }
}

/// All formatter options.
pub struct Options {
    /// Format source files and run formatting grafts.
    pub enabled: bool,
    /// Include matching source paths, relative to the declaring configuration.
    pub includes: Vec<String>,
    /// Exclude matching source paths unless included at format level.
    pub exclude: Vec<String>,
    /// Target line width in columns.
    pub column_width: usize,
    /// Indentation characters and columns per level.
    pub indentation: Indentation,
    /// Unix emits line feeds; windows emits carriage return plus line feed.
    pub line_endings: Endings,
    /// End nonempty formatted output with a newline.
    pub final_newline: bool,
    /// Delimiter choice for quoted strings.
    pub quotes: Quotes,
    /// Add, strip, or preserve the zero before the decimal point in fractional numeric literals.
    pub leading_zero: Zero,
    /// Statement semicolons.
    pub semicolons: Semicolons,
    /// Interior delimiter spaces and spacing before function parentheses.
    pub spacing: Spacing,
    /// Expand table expressions whose source contains a trailing comma.
    pub expand_on_trailing_comma: bool,
    /// Emit a trailing separator in expanded tables and table types.
    pub trailing_separator: bool,
    /// Argument parentheses, list layout, and repeated calls.
    pub calls: Calls,
    /// Declaration form of rewritten function bindings.
    pub functions: Functions,
    /// Layout of if-then-else expressions, not conditional statements.
    pub conditionals: Conditional,
    /// Field ordering in table expressions.
    pub tables: Sorting,
    /// Statement block layout and existing blank lines.
    pub blocks: Blocks,
    /// Declaration parameter layout.
    pub parameters: Parameters,
    /// Table-type fields and union and intersection layouts.
    pub types: Types,
    /// Treatment of unused require bindings.
    pub imports: Imports,
    /// Scope-aware conversion of local bindings to constants.
    pub bindings: Constants,
}

impl Default for Options {
    fn default() -> (r: Self)
        ensures
            r.enabled,
            r.includes@.len() == 0,
            r.exclude@.len() == 0,
            r.column_width == 120,
            r.indentation.style == Whitespace::Tabs,
            r.indentation.width == 4,
            r.line_endings == Endings::Unix,
            r.final_newline,
            r.quotes == Quotes::PreferDouble,
            r.leading_zero == Zero::Add,
            r.semicolons == Semicolons::Never,
            !r.spacing.parentheses && !r.spacing.brackets && r.spacing.braces,
            r.spacing.function_names == Separation::Never,
            r.expand_on_trailing_comma,
            r.trailing_separator,
            r.calls.expand == Expansion::Needed,
            r.calls.indentation == 1,
            r.calls.parentheses == Parentheses::Always,
            r.calls.chains.min_calls == 3,
            r.functions == Functions::Preserve,
            r.conditionals.width == 60,
            r.conditionals.indentation == 1,
            r.tables.order == Order::Unsorted,
            r.blocks.blank_lines == Gaps::Never,
            r.blocks.collapse == Collapse::Never,
            r.parameters.expand == Expansion::Needed,
            r.parameters.indentation == 1,
            r.types.tables.enabled,
            r.types.tables.width == 60,
            r.types.operators.expand == TypeExpansion::Auto,
            r.imports == Imports::Ignore,
            !r.bindings.enabled,
    {
        Options {
            enabled: true,
            includes: Vec::new(),
            exclude: Vec::new(),
            column_width: 120,
            indentation: Indentation::default(),
            line_endings: Endings::default(),
            final_newline: true,
            quotes: Quotes::default(),
            leading_zero: Zero::default(),
            semicolons: Semicolons::default(),
            spacing: Spacing::default(),
            expand_on_trailing_comma: true,
            trailing_separator: true,
            calls: Calls::default(),
            functions: Functions::default(),
            conditionals: Conditional::default(),
            tables: Sorting::default(),
            blocks: Blocks::default(),
            parameters: Parameters::default(),
            types: Types::default(),
            imports: Imports::default(),
            bindings: Constants::default(),
        }
    }
}

} // verus!
