//! Built-in lint rules: names, groups, default levels and explanations, and
//! the built-in names of the upstream Luau linter's warnings.

use vstd::prelude::*;
use crate::lint::configuration::Level;
use crate::text::{chars_of, same};

verus! {

/// A built-in lint rule.
#[derive(Clone, Copy, Debug)]
pub struct Rule {
    pub name: &'static str,
    pub group: &'static str,
    pub level: Level,
    pub description: &'static str,
}

/// A rule's name, group, default level and explanation as text.
pub struct RuleView {
    pub name: Seq<char>,
    pub group: Seq<char>,
    pub level: Level,
    pub description: Seq<char>,
}

impl View for Rule {
    type V = RuleView;

    open spec fn view(&self) -> RuleView {
        RuleView {
            name: self.name@,
            group: self.group@,
            level: self.level,
            description: self.description@,
        }
    }
}

/// The built-in rules, in registration order.
pub open spec fn rule_table() -> Seq<RuleView> {
    seq![
        RuleView { name: "incomplete_swap"@, group: "correctness"@, level: Level::Warn, description: "Consecutive assignments overwrite a value instead of swapping values."@ },
        RuleView { name: "not_a_number_comparison"@, group: "correctness"@, level: Level::Warn, description: "A not-a-number value cannot be compared for equality."@ },
        RuleView { name: "table_identity_comparison"@, group: "correctness"@, level: Level::Warn, description: "A fresh table is compared by identity, not contents."@ },
        RuleView { name: "division_by_zero"@, group: "suspicious"@, level: Level::Warn, description: "Division by a literal zero."@ },
        RuleView { name: "duplicate_table_key"@, group: "correctness"@, level: Level::Deny, description: "A repeated table key overwrites an earlier value."@ },
        RuleView { name: "repeated_condition"@, group: "correctness"@, level: Level::Warn, description: "An elseif repeats an earlier condition."@ },
        RuleView { name: "identical_branches"@, group: "suspicious"@, level: Level::Warn, description: "Conditional branches have identical bodies."@ },
        RuleView { name: "invalid_reverse_loop"@, group: "correctness"@, level: Level::Warn, description: "A descending loop requires a negative step."@ },
        RuleView { name: "misplaced_type_comparison"@, group: "correctness"@, level: Level::Warn, description: "Compare the result of type(), not its argument."@ },
        RuleView { name: "unbalanced_assignment"@, group: "correctness"@, level: Level::Warn, description: "Assignment target and value counts differ."@ },
        RuleView { name: "zero_loop_step"@, group: "correctness"@, level: Level::Deny, description: "A numeric loop has a zero step."@ },
        RuleView { name: "invalid_string_escape"@, group: "correctness"@, level: Level::Warn, description: "A string contains an undefined escape."@ },
        RuleView { name: "argument_count"@, group: "correctness"@, level: Level::Warn, description: "A locally known function receives an incorrect argument count."@ },
        RuleView { name: "discarded_return"@, group: "correctness"@, level: Level::Warn, description: "A required return value is discarded."@ },
        RuleView { name: "invalid_directive"@, group: "correctness"@, level: Level::Warn, description: "An analysis directive is unknown or misplaced."@ },
        RuleView { name: "builtin_assignment"@, group: "suspicious"@, level: Level::Warn, description: "An assignment overwrites a standard global."@ },
        RuleView { name: "comparison_precedence"@, group: "correctness"@, level: Level::Warn, description: "Comparison operators are grouped misleadingly."@ },
        RuleView { name: "duplicate_function"@, group: "correctness"@, level: Level::Warn, description: "A function is declared twice in one scope."@ },
        RuleView { name: "duplicate_binding"@, group: "correctness"@, level: Level::Deny, description: "A declaration repeats a binding name."@ },
        RuleView { name: "invalid_format_string"@, group: "correctness"@, level: Level::Deny, description: "A format string contains an invalid conversion."@ },
        RuleView { name: "inconsistent_return"@, group: "suspicious"@, level: Level::Allow, description: "A function returns values on some paths and falls through on others."@ },
        RuleView { name: "misleading_conditional"@, group: "correctness"@, level: Level::Warn, description: "An and/or conditional cannot select its middle value as intended."@ },
        RuleView { name: "number_literal_overflow"@, group: "correctness"@, level: Level::Warn, description: "An integer literal exceeds the supported width."@ },
        RuleView { name: "placeholder_read"@, group: "suspicious"@, level: Level::Warn, description: "The discard binding is read."@ },
        RuleView { name: "invalid_table_operation"@, group: "correctness"@, level: Level::Warn, description: "A table operation has an invalid argument count or index."@ },
        RuleView { name: "untyped_local"@, group: "suspicious"@, level: Level::Warn, description: "A local has neither an initializer nor an annotation."@ },
        RuleView { name: "untyped_parameter"@, group: "suspicious"@, level: Level::Allow, description: "A function parameter has no annotation."@ },
        RuleView { name: "uninitialized_local"@, group: "correctness"@, level: Level::Warn, description: "An uninitialized local is never assigned."@ },
        RuleView { name: "invalid_type_name"@, group: "correctness"@, level: Level::Warn, description: "A type query is compared with an impossible type name."@ },
        RuleView { name: "undefined_variable"@, group: "correctness"@, level: Level::Deny, description: "A referenced name is not declared."@ },
        RuleView { name: "global_assignment"@, group: "suspicious"@, level: Level::Warn, description: "An assignment creates a global."@ },
        RuleView { name: "unused_function"@, group: "correctness"@, level: Level::Warn, description: "A declared function is unused."@ },
        RuleView { name: "unused_variable"@, group: "correctness"@, level: Level::Warn, description: "A declared binding is never read."@ },
        RuleView { name: "unused_import"@, group: "correctness"@, level: Level::Warn, description: "A required module binding is unused."@ },
        RuleView { name: "shadowed_binding"@, group: "suspicious"@, level: Level::Warn, description: "A declaration hides a binding still in scope."@ },
        RuleView { name: "global_environment"@, group: "suspicious"@, level: Level::Warn, description: "Code accesses the global environment table."@ },
        RuleView { name: "deprecated_function"@, group: "style"@, level: Level::Warn, description: "A deprecated function is called."@ },
        RuleView { name: "restricted_import"@, group: "style"@, level: Level::Warn, description: "A module path is restricted by the project."@ },
        RuleView { name: "function_complexity"@, group: "complexity"@, level: Level::Allow, description: "A function exceeds its cyclomatic complexity limit."@ },
        RuleView { name: "manual_table_clone"@, group: "performance"@, level: Level::Warn, description: "A table-copy loop can use table.clone."@ },
        RuleView { name: "constant_binding"@, group: "style"@, level: Level::Allow, description: "An eligible binding can use const."@ },
        RuleView { name: "restricted_global"@, group: "style"@, level: Level::Warn, description: "A global is restricted by the project."@ },
        RuleView { name: "color_bounds"@, group: "roblox"@, level: Level::Warn, description: "Color3.new receives channels above the unit scale."@ },
        RuleView { name: "dimension_arguments"@, group: "roblox"@, level: Level::Warn, description: "UDim2.new receives two arguments instead of four."@ },
        RuleView { name: "dimension_constructor"@, group: "roblox"@, level: Level::Warn, description: "A dimension constructor can use fromScale or fromOffset."@ },
        RuleView { name: "constant_import"@, group: "style"@, level: Level::Allow, description: "An eligible module binding can use const."@ },
        RuleView { name: "unreachable_code"@, group: "correctness"@, level: Level::Warn, description: "A statement follows an unconditional control-flow exit."@ },
        RuleView { name: "self_assignment"@, group: "suspicious"@, level: Level::Warn, description: "An assignment writes a value back to itself."@ },
        RuleView { name: "loop_string_concatenation"@, group: "performance"@, level: Level::Warn, description: "A loop repeatedly copies an accumulating string."@ },
        RuleView { name: "loop_invariant_call"@, group: "performance"@, level: Level::Warn, description: "A loop repeats a call with an invariant result."@ },
        RuleView { name: "length_condition"@, group: "correctness"@, level: Level::Deny, description: "A length is always truthy, including zero."@ },
        RuleView { name: "shadowed_builtin"@, group: "suspicious"@, level: Level::Warn, description: "A local hides a standard global."@ },
        RuleView { name: "ignored_protected_call"@, group: "suspicious"@, level: Level::Warn, description: "A protected call discards its status and results."@ },
        RuleView { name: "empty_branch"@, group: "suspicious"@, level: Level::Warn, description: "A conditional branch is empty."@ },
        RuleView { name: "empty_loop"@, group: "suspicious"@, level: Level::Warn, description: "A loop body is empty."@ },
        RuleView { name: "mixed_table"@, group: "suspicious"@, level: Level::Warn, description: "A table mixes positional and named entries."@ },
        RuleView { name: "multiple_statements"@, group: "style"@, level: Level::Allow, description: "Multiple statements occupy one line."@ },
        RuleView { name: "parenthesized_condition"@, group: "style"@, level: Level::Warn, description: "A condition has unnecessary parentheses."@ },
        RuleView { name: "constant_condition"@, group: "correctness"@, level: Level::Warn, description: "A literal condition decides control flow in advance."@ },
        RuleView { name: "redundant_else"@, group: "style"@, level: Level::Allow, description: "An else follows a branch that exits."@ },
        RuleView { name: "nested_condition"@, group: "style"@, level: Level::Allow, description: "A nested conditional can be collapsed."@ },
        RuleView { name: "negated_condition"@, group: "style"@, level: Level::Allow, description: "An if/else condition can be positive by exchanging branches."@ },
        RuleView { name: "logical_conditional"@, group: "style"@, level: Level::Allow, description: "An and/or value selection can be a conditional statement."@ },
        RuleView { name: "conditional_expression"@, group: "style"@, level: Level::Allow, description: "An if expression can be a conditional statement."@ },
    ]
}

pub open spec fn rule_views(rules: Seq<Rule>) -> Seq<RuleView> {
    rules.map_values(|r: Rule| r@)
}

/// The first rule of `table` with the given name.
pub open spec fn first_named(table: Seq<RuleView>, name: Seq<char>) -> Option<RuleView>
    decreases table.len(),
{
    if table.len() == 0 {
        None
    } else if table[0].name == name {
        Some(table[0])
    } else {
        first_named(table.drop_first(), name)
    }
}

/// The rule registered under `name`.
pub open spec fn rule_named(name: Seq<char>) -> Option<RuleView> {
    first_named(rule_table(), name)
}

/// Whether some built-in rule belongs to `group`.
pub open spec fn group_exists(group: Seq<char>) -> bool {
    exists|i: int| 0 <= i < rule_table().len() && #[trigger] rule_table()[i].group == group
}

/// The built-in rules, in registration order.
#[verifier::rlimit(50)]
pub fn rules() -> (table: Vec<Rule>)
    ensures
        rule_views(table@) == rule_table(),
{
    let mut table: Vec<Rule> = Vec::new();
    table.push(Rule { name: "incomplete_swap", group: "correctness", level: Level::Warn, description: "Consecutive assignments overwrite a value instead of swapping values." });
    table.push(Rule { name: "not_a_number_comparison", group: "correctness", level: Level::Warn, description: "A not-a-number value cannot be compared for equality." });
    table.push(Rule { name: "table_identity_comparison", group: "correctness", level: Level::Warn, description: "A fresh table is compared by identity, not contents." });
    table.push(Rule { name: "division_by_zero", group: "suspicious", level: Level::Warn, description: "Division by a literal zero." });
    table.push(Rule { name: "duplicate_table_key", group: "correctness", level: Level::Deny, description: "A repeated table key overwrites an earlier value." });
    table.push(Rule { name: "repeated_condition", group: "correctness", level: Level::Warn, description: "An elseif repeats an earlier condition." });
    table.push(Rule { name: "identical_branches", group: "suspicious", level: Level::Warn, description: "Conditional branches have identical bodies." });
    table.push(Rule { name: "invalid_reverse_loop", group: "correctness", level: Level::Warn, description: "A descending loop requires a negative step." });
    table.push(Rule { name: "misplaced_type_comparison", group: "correctness", level: Level::Warn, description: "Compare the result of type(), not its argument." });
    table.push(Rule { name: "unbalanced_assignment", group: "correctness", level: Level::Warn, description: "Assignment target and value counts differ." });
    table.push(Rule { name: "zero_loop_step", group: "correctness", level: Level::Deny, description: "A numeric loop has a zero step." });
    table.push(Rule { name: "invalid_string_escape", group: "correctness", level: Level::Warn, description: "A string contains an undefined escape." });
    table.push(Rule { name: "argument_count", group: "correctness", level: Level::Warn, description: "A locally known function receives an incorrect argument count." });
    table.push(Rule { name: "discarded_return", group: "correctness", level: Level::Warn, description: "A required return value is discarded." });
    table.push(Rule { name: "invalid_directive", group: "correctness", level: Level::Warn, description: "An analysis directive is unknown or misplaced." });
    table.push(Rule { name: "builtin_assignment", group: "suspicious", level: Level::Warn, description: "An assignment overwrites a standard global." });
    table.push(Rule { name: "comparison_precedence", group: "correctness", level: Level::Warn, description: "Comparison operators are grouped misleadingly." });
    table.push(Rule { name: "duplicate_function", group: "correctness", level: Level::Warn, description: "A function is declared twice in one scope." });
    table.push(Rule { name: "duplicate_binding", group: "correctness", level: Level::Deny, description: "A declaration repeats a binding name." });
    table.push(Rule { name: "invalid_format_string", group: "correctness", level: Level::Deny, description: "A format string contains an invalid conversion." });
    table.push(Rule { name: "inconsistent_return", group: "suspicious", level: Level::Allow, description: "A function returns values on some paths and falls through on others." });
    table.push(Rule { name: "misleading_conditional", group: "correctness", level: Level::Warn, description: "An and/or conditional cannot select its middle value as intended." });
    table.push(Rule { name: "number_literal_overflow", group: "correctness", level: Level::Warn, description: "An integer literal exceeds the supported width." });
    table.push(Rule { name: "placeholder_read", group: "suspicious", level: Level::Warn, description: "The discard binding is read." });
    table.push(Rule { name: "invalid_table_operation", group: "correctness", level: Level::Warn, description: "A table operation has an invalid argument count or index." });
    table.push(Rule { name: "untyped_local", group: "suspicious", level: Level::Warn, description: "A local has neither an initializer nor an annotation." });
    table.push(Rule { name: "untyped_parameter", group: "suspicious", level: Level::Allow, description: "A function parameter has no annotation." });
    table.push(Rule { name: "uninitialized_local", group: "correctness", level: Level::Warn, description: "An uninitialized local is never assigned." });
    table.push(Rule { name: "invalid_type_name", group: "correctness", level: Level::Warn, description: "A type query is compared with an impossible type name." });
    table.push(Rule { name: "undefined_variable", group: "correctness", level: Level::Deny, description: "A referenced name is not declared." });
    table.push(Rule { name: "global_assignment", group: "suspicious", level: Level::Warn, description: "An assignment creates a global." });
    table.push(Rule { name: "unused_function", group: "correctness", level: Level::Warn, description: "A declared function is unused." });
    table.push(Rule { name: "unused_variable", group: "correctness", level: Level::Warn, description: "A declared binding is never read." });
    table.push(Rule { name: "unused_import", group: "correctness", level: Level::Warn, description: "A required module binding is unused." });
    table.push(Rule { name: "shadowed_binding", group: "suspicious", level: Level::Warn, description: "A declaration hides a binding still in scope." });
    table.push(Rule { name: "global_environment", group: "suspicious", level: Level::Warn, description: "Code accesses the global environment table." });
    table.push(Rule { name: "deprecated_function", group: "style", level: Level::Warn, description: "A deprecated function is called." });
    table.push(Rule { name: "restricted_import", group: "style", level: Level::Warn, description: "A module path is restricted by the project." });
    table.push(Rule { name: "function_complexity", group: "complexity", level: Level::Allow, description: "A function exceeds its cyclomatic complexity limit." });
    table.push(Rule { name: "manual_table_clone", group: "performance", level: Level::Warn, description: "A table-copy loop can use table.clone." });
    table.push(Rule { name: "constant_binding", group: "style", level: Level::Allow, description: "An eligible binding can use const." });
    table.push(Rule { name: "restricted_global", group: "style", level: Level::Warn, description: "A global is restricted by the project." });
    table.push(Rule { name: "color_bounds", group: "roblox", level: Level::Warn, description: "Color3.new receives channels above the unit scale." });
    table.push(Rule { name: "dimension_arguments", group: "roblox", level: Level::Warn, description: "UDim2.new receives two arguments instead of four." });
    table.push(Rule { name: "dimension_constructor", group: "roblox", level: Level::Warn, description: "A dimension constructor can use fromScale or fromOffset." });
    table.push(Rule { name: "constant_import", group: "style", level: Level::Allow, description: "An eligible module binding can use const." });
    table.push(Rule { name: "unreachable_code", group: "correctness", level: Level::Warn, description: "A statement follows an unconditional control-flow exit." });
    table.push(Rule { name: "self_assignment", group: "suspicious", level: Level::Warn, description: "An assignment writes a value back to itself." });
    table.push(Rule { name: "loop_string_concatenation", group: "performance", level: Level::Warn, description: "A loop repeatedly copies an accumulating string." });
    table.push(Rule { name: "loop_invariant_call", group: "performance", level: Level::Warn, description: "A loop repeats a call with an invariant result." });
    table.push(Rule { name: "length_condition", group: "correctness", level: Level::Deny, description: "A length is always truthy, including zero." });
    table.push(Rule { name: "shadowed_builtin", group: "suspicious", level: Level::Warn, description: "A local hides a standard global." });
    table.push(Rule { name: "ignored_protected_call", group: "suspicious", level: Level::Warn, description: "A protected call discards its status and results." });
    table.push(Rule { name: "empty_branch", group: "suspicious", level: Level::Warn, description: "A conditional branch is empty." });
    table.push(Rule { name: "empty_loop", group: "suspicious", level: Level::Warn, description: "A loop body is empty." });
    table.push(Rule { name: "mixed_table", group: "suspicious", level: Level::Warn, description: "A table mixes positional and named entries." });
    table.push(Rule { name: "multiple_statements", group: "style", level: Level::Allow, description: "Multiple statements occupy one line." });
    table.push(Rule { name: "parenthesized_condition", group: "style", level: Level::Warn, description: "A condition has unnecessary parentheses." });
    table.push(Rule { name: "constant_condition", group: "correctness", level: Level::Warn, description: "A literal condition decides control flow in advance." });
    table.push(Rule { name: "redundant_else", group: "style", level: Level::Allow, description: "An else follows a branch that exits." });
    table.push(Rule { name: "nested_condition", group: "style", level: Level::Allow, description: "A nested conditional can be collapsed." });
    table.push(Rule { name: "negated_condition", group: "style", level: Level::Allow, description: "An if/else condition can be positive by exchanging branches." });
    table.push(Rule { name: "logical_conditional", group: "style", level: Level::Allow, description: "An and/or value selection can be a conditional statement." });
    table.push(Rule { name: "conditional_expression", group: "style", level: Level::Allow, description: "An if expression can be a conditional statement." });
    assert(rule_views(table@) =~= rule_table());
    table
}

fn is(name: &str, literal: &str) -> (r: bool)
    ensures
        r == (name@ == literal@),
{
    same(&chars_of(name), &chars_of(literal))
}

/// The built-in rule with the given name.
pub fn find(name: &str) -> (r: Option<Rule>)
    ensures
        match r {
            Some(rule) => rule_named(name@) == Some(rule@),
            None => rule_named(name@) is None,
        },
{
    let table = rules();
    let mut i: usize = 0;
    assert(rule_table().skip(0) =~= rule_table());
    while i < table.len()
        invariant
            i <= table@.len(),
            rule_views(table@) == rule_table(),
            rule_named(name@) == first_named(rule_table().skip(i as int), name@),
        decreases table@.len() - i,
    {
        assert(rule_table().skip(i as int)[0] == table@[i as int]@);
        if is(name, table[i].name) {
            return Some(table[i]);
        }
        assert(rule_table().skip(i as int).drop_first() =~= rule_table().skip(i + 1));
        i = i + 1;
    }
    None
}

/// The built-in rule that a warning of the upstream Luau linter corresponds to.
pub open spec fn upstream_rule(name: Seq<char>) -> Option<Seq<char>> {
    if name == "UnknownGlobal"@ {
        Some("undefined_variable"@)
    } else if name == "DeprecatedGlobal"@ {
        Some("deprecated_function"@)
    } else if name == "GlobalUsedAsLocal"@ {
        Some("global_assignment"@)
    } else if name == "LocalShadow"@ {
        Some("shadowed_binding"@)
    } else if name == "SameLineStatement"@ || name == "MultiLineStatement"@ {
        Some("multiple_statements"@)
    } else if name == "LocalUnused"@ {
        Some("unused_variable"@)
    } else if name == "FunctionUnused"@ {
        Some("unused_function"@)
    } else if name == "ImportUnused"@ {
        Some("unused_import"@)
    } else if name == "BuiltinGlobalWrite"@ {
        Some("builtin_assignment"@)
    } else if name == "PlaceholderRead"@ {
        Some("placeholder_read"@)
    } else if name == "UnreachableCode"@ {
        Some("unreachable_code"@)
    } else if name == "UnknownType"@ {
        Some("invalid_type_name"@)
    } else if name == "ForRange"@ {
        Some("invalid_reverse_loop"@)
    } else if name == "UnbalancedAssignment"@ {
        Some("unbalanced_assignment"@)
    } else if name == "ImplicitReturn"@ {
        Some("inconsistent_return"@)
    } else if name == "DuplicateLocal"@ {
        Some("duplicate_binding"@)
    } else if name == "DuplicateFunction"@ {
        Some("duplicate_function"@)
    } else if name == "TableLiteral"@ {
        Some("duplicate_table_key"@)
    } else if name == "TableOperations"@ {
        Some("invalid_table_operation"@)
    } else if name == "MisleadingAndOr"@ {
        Some("misleading_conditional"@)
    } else if name == "CommentDirective"@ {
        Some("invalid_directive"@)
    } else if name == "IntegerParsing"@ {
        Some("number_literal_overflow"@)
    } else if name == "ComparisonPrecedence"@ {
        Some("comparison_precedence"@)
    } else if name == "FormatString"@ {
        Some("invalid_format_string"@)
    } else if name == "UninitializedLocal"@ {
        Some("uninitialized_local"@)
    } else {
        None
    }
}

/// A table whose entry `k` is named `name` has a first entry with that name.
proof fn lemma_named_at(table: Seq<RuleView>, name: Seq<char>, k: int)
    requires
        0 <= k < table.len(),
        table[k].name == name,
    ensures
        first_named(table, name) is Some,
    decreases k,
{
    if k > 0 && table[0].name != name {
        assert(table.drop_first()[k - 1] == table[k]);
        lemma_named_at(table.drop_first(), name, k - 1);
    }
}

/// Every upstream warning name stands for a registered built-in rule.
#[verifier::rlimit(60)]
pub proof fn law_upstream_registered(name: Seq<char>)
    ensures
        upstream_rule(name) matches Some(r) ==> rule_named(r) is Some,
{
    if let Some(r) = upstream_rule(name) {
        if r == "undefined_variable"@ {
            lemma_named_at(rule_table(), r, 29);
        } else if r == "deprecated_function"@ {
            lemma_named_at(rule_table(), r, 36);
        } else if r == "global_assignment"@ {
            lemma_named_at(rule_table(), r, 30);
        } else if r == "shadowed_binding"@ {
            lemma_named_at(rule_table(), r, 34);
        } else if r == "multiple_statements"@ {
            lemma_named_at(rule_table(), r, 56);
        } else if r == "unused_variable"@ {
            lemma_named_at(rule_table(), r, 32);
        } else if r == "unused_function"@ {
            lemma_named_at(rule_table(), r, 31);
        } else if r == "unused_import"@ {
            lemma_named_at(rule_table(), r, 33);
        } else if r == "builtin_assignment"@ {
            lemma_named_at(rule_table(), r, 15);
        } else if r == "placeholder_read"@ {
            lemma_named_at(rule_table(), r, 23);
        } else if r == "unreachable_code"@ {
            lemma_named_at(rule_table(), r, 46);
        } else if r == "invalid_type_name"@ {
            lemma_named_at(rule_table(), r, 28);
        } else if r == "invalid_reverse_loop"@ {
            lemma_named_at(rule_table(), r, 7);
        } else if r == "unbalanced_assignment"@ {
            lemma_named_at(rule_table(), r, 9);
        } else if r == "inconsistent_return"@ {
            lemma_named_at(rule_table(), r, 20);
        } else if r == "duplicate_binding"@ {
            lemma_named_at(rule_table(), r, 18);
        } else if r == "duplicate_function"@ {
            lemma_named_at(rule_table(), r, 17);
        } else if r == "duplicate_table_key"@ {
            lemma_named_at(rule_table(), r, 4);
        } else if r == "invalid_table_operation"@ {
            lemma_named_at(rule_table(), r, 24);
        } else if r == "misleading_conditional"@ {
            lemma_named_at(rule_table(), r, 21);
        } else if r == "invalid_directive"@ {
            lemma_named_at(rule_table(), r, 14);
        } else if r == "number_literal_overflow"@ {
            lemma_named_at(rule_table(), r, 22);
        } else if r == "comparison_precedence"@ {
            lemma_named_at(rule_table(), r, 16);
        } else if r == "invalid_format_string"@ {
            lemma_named_at(rule_table(), r, 19);
        } else if r == "uninitialized_local"@ {
            lemma_named_at(rule_table(), r, 27);
        }
    }
}

/// The built-in rule that a warning of the upstream Luau linter corresponds to.
pub fn upstream(name: &str) -> (r: Option<&'static str>)
    ensures
        match r {
            Some(rule) => upstream_rule(name@) == Some(rule@),
            None => upstream_rule(name@) is None,
        },
{
    if is(name, "UnknownGlobal") {
        Some("undefined_variable")
    } else if is(name, "DeprecatedGlobal") {
        Some("deprecated_function")
    } else if is(name, "GlobalUsedAsLocal") {
        Some("global_assignment")
    } else if is(name, "LocalShadow") {
        Some("shadowed_binding")
    } else if is(name, "SameLineStatement") || is(name, "MultiLineStatement") {
        Some("multiple_statements")
    } else if is(name, "LocalUnused") {
        Some("unused_variable")
    } else if is(name, "FunctionUnused") {
        Some("unused_function")
    } else if is(name, "ImportUnused") {
        Some("unused_import")
    } else if is(name, "BuiltinGlobalWrite") {
        Some("builtin_assignment")
    } else if is(name, "PlaceholderRead") {
        Some("placeholder_read")
    } else if is(name, "UnreachableCode") {
        Some("unreachable_code")
    } else if is(name, "UnknownType") {
        Some("invalid_type_name")
    } else if is(name, "ForRange") {
        Some("invalid_reverse_loop")
    } else if is(name, "UnbalancedAssignment") {
        Some("unbalanced_assignment")
    } else if is(name, "ImplicitReturn") {
        Some("inconsistent_return")
    } else if is(name, "DuplicateLocal") {
        Some("duplicate_binding")
    } else if is(name, "DuplicateFunction") {
        Some("duplicate_function")
    } else if is(name, "TableLiteral") {
        Some("duplicate_table_key")
    } else if is(name, "TableOperations") {
        Some("invalid_table_operation")
    } else if is(name, "MisleadingAndOr") {
        Some("misleading_conditional")
    } else if is(name, "CommentDirective") {
        Some("invalid_directive")
    } else if is(name, "IntegerParsing") {
        Some("number_literal_overflow")
    } else if is(name, "ComparisonPrecedence") {
        Some("comparison_precedence")
    } else if is(name, "FormatString") {
        Some("invalid_format_string")
    } else if is(name, "UninitializedLocal") {
        Some("uninitialized_local")
    } else {
        None
    }
}

} // verus!
