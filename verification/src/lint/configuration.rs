//! Inherited lint settings: enablement, severity overrides, globals and rule options.

use vstd::prelude::*;
use crate::lint::pattern::{valid_pattern, well_formed};
use crate::lint::registry::{find, group_exists, rule_named, rule_table, rules};
use crate::text::{chars_of, same};
use crate::lint::findings::{lemma_text_irreflexive, text_lt};

verus! {

/// Reporting level assigned to a lint rule.
#[derive(Clone, Copy, Debug, PartialEq, Eq, Structural)]
pub enum Level {
    /// Suppress the finding.
    Allow,
    /// Report an informational finding.
    Info,
    /// Report a warning without failing the command.
    Warn,
    /// Report an error that fails the command.
    Deny,
}

/// Lint enablement, severity overrides, globals, and rule options.
///
/// The `groups` and `rules` maps hold one entry per name, in ascending name
/// order, as the configuration's tables yield them.
pub struct Settings {
    /// Enable linting. Unset enables linting.
    pub enabled: Option<bool>,
    /// Source patterns included only during linting.
    pub includes: Vec<String>,
    /// Source patterns excluded only during linting.
    pub exclude: Vec<String>,
    /// Group levels. Disabled-by-default rules require an individual rule override.
    pub groups: Vec<(String, Level)>,
    /// Individual rule levels. Graft rules use graft/rule identifiers.
    pub rules: Vec<(String, Level)>,
    /// Additional global names available to this project.
    pub globals: Vec<String>,
    /// Options for configurable rules.
    pub options: Options,
}

/// Options shared by configurable built-in lint rules.
pub struct Options {
    /// Shared options for unused bindings, functions, and imports.
    pub unused_variable: Unused,
    /// Additional deprecated functions and replacements.
    pub deprecated_function: Deprecated,
    /// Restricted module paths and reasons.
    pub restricted_import: Restricted,
    /// Restricted global names mapped to reasons.
    pub restricted_global: Vec<(String, String)>,
    /// Function complexity limits.
    pub function_complexity: Complexity,
    /// Constant binding preferences.
    pub constant_binding: Constant,
}

/// Binding categories and names checked for unused declarations.
pub struct Unused {
    /// Report unused function parameters.
    pub parameters: bool,
    /// Report unused loop variables.
    pub loop_variables: bool,
    /// Regular expression matching ignored binding names.
    pub ignore_pattern: String,
}

/// Project-specific deprecated function declarations.
pub struct Deprecated {
    /// Deprecated function names mapped to replacement descriptions.
    pub additional: Vec<(String, String)>,
}

/// Modules whose imports should produce a lint finding.
pub struct Restricted {
    /// Exact module paths mapped to restriction reasons.
    pub paths: Vec<(String, String)>,
}

/// Threshold for function control-flow complexity.
pub struct Complexity {
    /// Maximum permitted cyclomatic complexity.
    pub maximum_complexity: u32,
}

/// Treatment of table mutation when suggesting constant bindings.
pub struct Constant {
    /// Keep local for bindings whose table fields are mutated.
    pub mutated_tables_stay_local: bool,
}

impl Default for Unused {
    fn default() -> (r: Self)
        ensures
            !r.parameters,
            !r.loop_variables,
            r.ignore_pattern@ == "^_"@,
    {
        Unused { parameters: false, loop_variables: false, ignore_pattern: "^_".to_owned() }
    }
}

impl Default for Deprecated {
    fn default() -> (r: Self)
        ensures
            r.additional@.len() == 0,
    {
        Deprecated { additional: Vec::new() }
    }
}

impl Default for Restricted {
    fn default() -> (r: Self)
        ensures
            r.paths@.len() == 0,
    {
        Restricted { paths: Vec::new() }
    }
}

impl Default for Complexity {
    fn default() -> (r: Self)
        ensures
            r.maximum_complexity == 40,
    {
        Complexity { maximum_complexity: 40 }
    }
}

impl Default for Constant {
    fn default() -> (r: Self)
        ensures
            !r.mutated_tables_stay_local,
    {
        Constant { mutated_tables_stay_local: false }
    }
}

impl Default for Options {
    fn default() -> (r: Self)
        ensures
            !r.unused_variable.parameters,
            !r.unused_variable.loop_variables,
            r.unused_variable.ignore_pattern@ == "^_"@,
            r.deprecated_function.additional@.len() == 0,
            r.restricted_import.paths@.len() == 0,
            r.restricted_global@.len() == 0,
            r.function_complexity.maximum_complexity == 40,
            !r.constant_binding.mutated_tables_stay_local,
    {
        Options {
            unused_variable: Unused::default(),
            deprecated_function: Deprecated::default(),
            restricted_import: Restricted::default(),
            restricted_global: Vec::new(),
            function_complexity: Complexity::default(),
            constant_binding: Constant::default(),
        }
    }
}

impl Default for Settings {
    fn default() -> (r: Self)
        ensures
            r.enabled is None,
            r.includes@.len() == 0,
            r.exclude@.len() == 0,
            r.groups@.len() == 0,
            r.rules@.len() == 0,
            r.globals@.len() == 0,
            r.options.unused_variable.ignore_pattern@ == "^_"@,
            r.options.function_complexity.maximum_complexity == 40,
            r.wf(),
    {
        Settings {
            enabled: None,
            includes: Vec::new(),
            exclude: Vec::new(),
            groups: Vec::new(),
            rules: Vec::new(),
            globals: Vec::new(),
            options: Options::default(),
        }
    }
}

/// Why lint settings were rejected.
#[derive(Debug, PartialEq, Eq)]
pub enum SettingsError {
    /// A rule override names neither a built-in rule nor a graft rule.
    UnknownRule(String),
    /// A group override names no group of the built-in rules.
    UnknownGroup(String),
    /// The ignore pattern of unused bindings is not a well-formed Luau pattern.
    InvalidPattern(String),
}

/// Name and level of each entry of a level map.
pub open spec fn entries(m: Seq<(String, Level)>) -> Seq<(Seq<char>, Level)> {
    m.map_values(|p: (String, Level)| (p.0@, p.1))
}

/// The level the first entry for `name` assigns.
pub open spec fn lookup(m: Seq<(Seq<char>, Level)>, name: Seq<char>) -> Option<Level>
    decreases m.len(),
{
    if m.len() == 0 {
        None
    } else if m[0].0 == name {
        Some(m[0].1)
    } else {
        lookup(m.drop_first(), name)
    }
}

/// The level of rule `name`: none when linting is disabled, then an individual
/// override, `Warn` for names that are not built in, `Allow` for rules that are
/// off by default, then a group override, then the rule's default.
pub open spec fn resolved_level(
    enabled: Option<bool>,
    rules: Seq<(Seq<char>, Level)>,
    groups: Seq<(Seq<char>, Level)>,
    name: Seq<char>,
) -> Level {
    if enabled == Some(false) {
        Level::Allow
    } else if lookup(rules, name) is Some {
        lookup(rules, name)->0
    } else {
        match rule_named(name) {
            None => Level::Warn,
            Some(rule) => if rule.level == Level::Allow {
                Level::Allow
            } else {
                match lookup(groups, rule.group) {
                    Some(level) => level,
                    None => rule.level,
                }
            },
        }
    }
}

/// No name has two entries: a level map as the configuration file writes it.
pub open spec fn distinct_names(m: Seq<(Seq<char>, Level)>) -> bool {
    forall|i: int, j: int| 0 <= i < j < m.len() ==> #[trigger] m[i].0 != #[trigger] m[j].0
}

/// Names in strictly ascending order, by code point.
pub open spec fn ascending_names(m: Seq<(Seq<char>, Level)>) -> bool {
    forall|i: int, j: int| 0 <= i < j < m.len() ==> text_lt(#[trigger] m[i].0, #[trigger] m[j].0)
}

/// Names in ascending order are distinct.
pub proof fn lemma_ascending_distinct(m: Seq<(Seq<char>, Level)>)
    requires
        ascending_names(m),
    ensures
        distinct_names(m),
{
    assert forall|i: int, j: int| 0 <= i < j < m.len() implies #[trigger] m[i].0 != #[trigger] m[j].0 by {
        assert(text_lt(m[i].0, m[j].0));
        lemma_text_irreflexive(m[i].0);
    }
}

/// In a map whose names are distinct, the lookup of an entry's name gives
/// that entry's level, wherever it stands.
pub proof fn law_lookup_entry(m: Seq<(Seq<char>, Level)>, k: int)
    requires
        distinct_names(m),
        0 <= k < m.len(),
    ensures
        lookup(m, m[k].0) == Some(m[k].1),
    decreases k,
{
    if k > 0 {
        assert(m[0].0 != m[k].0);
        let rest = m.drop_first();
        assert(rest[k - 1] == m[k]);
        assert forall|i: int, j: int| 0 <= i < j < rest.len() implies #[trigger] rest[i].0 != #[trigger] rest[j].0 by {
            assert(rest[i] == m[i + 1] && rest[j] == m[j + 1]);
        }
        law_lookup_entry(rest, k - 1);
    }
}

/// Whether a rule override names a built-in rule or a graft-qualified rule.
pub open spec fn known_rule(name: Seq<char>) -> bool {
    rule_named(name) is Some || name.contains('/')
}

fn lookup_level(m: &Vec<(String, Level)>, name: &[char]) -> (r: Option<Level>)
    ensures
        r == lookup(entries(m@), name@),
{
    let mut i: usize = 0;
    assert(entries(m@).skip(0) =~= entries(m@));
    while i < m.len()
        invariant
            i <= m@.len(),
            lookup(entries(m@), name@) == lookup(entries(m@).skip(i as int), name@),
        decreases m@.len() - i,
    {
        assert(entries(m@).skip(i as int)[0] == (m@[i as int].0@, m@[i as int].1));
        if same(&chars_of(m[i].0.as_str()), name) {
            return Some(m[i].1);
        }
        assert(entries(m@).skip(i as int).drop_first() =~= entries(m@).skip(i + 1));
        i = i + 1;
    }
    None
}

fn has_slash(name: &[char]) -> (r: bool)
    ensures
        r == name@.contains('/'),
{
    let mut i: usize = 0;
    while i < name.len()
        invariant
            i <= name@.len(),
            forall|k: int| 0 <= k < i ==> name@[k] != '/',
        decreases name@.len() - i,
    {
        if name[i] == '/' {
            assert(name@[i as int] == '/');
            return true;
        }
        i = i + 1;
    }
    false
}

fn group_known(name: &[char]) -> (r: bool)
    ensures
        r == group_exists(name@),
{
    let table = rules();
    let mut i: usize = 0;
    while i < table.len()
        invariant
            i <= table@.len(),
            crate::lint::registry::rule_views(table@) == rule_table(),
            forall|k: int| 0 <= k < i ==> rule_table()[k].group != name@,
        decreases table@.len() - i,
    {
        assert(rule_table()[i as int] == table@[i as int]@);
        if same(&chars_of(table[i].group), name) {
            assert(rule_table()[i as int].group == name@);
            return true;
        }
        i = i + 1;
    }
    false
}

impl Settings {
    /// The rule and group overrides are each in strictly ascending name
    /// order, as the configuration file's tables keep them; so no name has
    /// two overrides (`lemma_ascending_distinct`).
    pub open spec fn wf(&self) -> bool {
        ascending_names(entries(self.rules@)) && ascending_names(entries(self.groups@))
    }

    /// Resolve an individual override, group override, or registered default.
    pub fn level(&self, name: &str) -> (r: Level)
        ensures
            r == resolved_level(self.enabled, entries(self.rules@), entries(self.groups@), name@),
    {
        if self.enabled == Some(false) {
            return Level::Allow;
        }
        let name_chars = chars_of(name);
        if let Some(level) = lookup_level(&self.rules, &name_chars) {
            return level;
        }
        let rule = match find(name) {
            None => {
                return Level::Warn;
            },
            Some(rule) => rule,
        };
        if rule.level == Level::Allow {
            return Level::Allow;
        }
        match lookup_level(&self.groups, &chars_of(rule.group)) {
            Some(level) => level,
            None => rule.level,
        }
    }

    /// Checks that every rule override names a built-in or graft rule, that
    /// every group override names a built-in group, and that the ignore
    /// pattern of unused bindings is a well-formed Luau pattern, reporting the
    /// first problem: rules, then groups, then the pattern.
    pub fn validate(&self) -> (r: Result<(), SettingsError>)
        ensures
            match r {
                Ok(()) => (forall|i: int|
                    0 <= i < self.rules@.len() ==> known_rule(#[trigger] self.rules@[i].0@)) && (
                forall|j: int|
                    0 <= j < self.groups@.len() ==> group_exists(#[trigger] self.groups@[j].0@))
                    && well_formed(self.options.unused_variable.ignore_pattern@),
                Err(SettingsError::InvalidPattern(pattern)) => (forall|i: int|
                    0 <= i < self.rules@.len() ==> known_rule(#[trigger] self.rules@[i].0@)) && (
                forall|j: int|
                    0 <= j < self.groups@.len() ==> group_exists(#[trigger] self.groups@[j].0@))
                    && pattern@ == self.options.unused_variable.ignore_pattern@ && !well_formed(
                    pattern@,
                ),
                Err(SettingsError::UnknownRule(name)) => exists|i: int|
                    0 <= i < self.rules@.len() && #[trigger] self.rules@[i].0@ == name@
                        && !known_rule(name@) && forall|k: int|
                        0 <= k < i ==> known_rule(#[trigger] self.rules@[k].0@),
                Err(SettingsError::UnknownGroup(name)) => (forall|i: int|
                    0 <= i < self.rules@.len() ==> known_rule(#[trigger] self.rules@[i].0@))
                    && exists|j: int|
                    0 <= j < self.groups@.len() && #[trigger] self.groups@[j].0@ == name@
                        && !group_exists(name@) && forall|k: int|
                        0 <= k < j ==> group_exists(#[trigger] self.groups@[k].0@),
            },
    {
        let mut i: usize = 0;
        while i < self.rules.len()
            invariant
                i <= self.rules@.len(),
                forall|k: int| 0 <= k < i ==> known_rule(#[trigger] self.rules@[k].0@),
            decreases self.rules@.len() - i,
        {
            let name = self.rules[i].0.as_str();
            if find(name).is_none() && !has_slash(&chars_of(name)) {
                return Err(SettingsError::UnknownRule(self.rules[i].0.clone()));
            }
            i = i + 1;
        }
        let mut j: usize = 0;
        while j < self.groups.len()
            invariant
                j <= self.groups@.len(),
                forall|k: int| 0 <= k < self.rules@.len() ==> known_rule(#[trigger] self.rules@[k].0@),
                forall|k: int| 0 <= k < j ==> group_exists(#[trigger] self.groups@[k].0@),
            decreases self.groups@.len() - j,
        {
            if !group_known(&chars_of(self.groups[j].0.as_str())) {
                return Err(SettingsError::UnknownGroup(self.groups[j].0.clone()));
            }
            j = j + 1;
        }
        let pattern = &self.options.unused_variable.ignore_pattern;
        if !valid_pattern(pattern.as_str()) {
            let copy = crate::text::string_of(crate::text::chars_of(pattern.as_str()).as_slice());
            return Err(SettingsError::InvalidPattern(copy));
        }
        Ok(())
    }
}

} // verus!
