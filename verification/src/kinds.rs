//! Node kind strings from the tree-sitter-php grammar.
//!
//! Centralised so that a grammar upgrade is a one-file change rather than a
//! scavenger hunt through the walker.
use vstd::prelude::*;
use crate::text::str_eq;

verus! {

pub const IF_STATEMENT: &'static str = "if_statement";
pub const ELSE_IF_CLAUSE: &'static str = "else_if_clause";
pub const ELSE_CLAUSE: &'static str = "else_clause";
pub const CONDITIONAL_EXPRESSION: &'static str = "conditional_expression";

pub const SWITCH_STATEMENT: &'static str = "switch_statement";
pub const MATCH_EXPRESSION: &'static str = "match_expression";

pub const FOR_STATEMENT: &'static str = "for_statement";
pub const FOREACH_STATEMENT: &'static str = "foreach_statement";
pub const WHILE_STATEMENT: &'static str = "while_statement";
pub const DO_STATEMENT: &'static str = "do_statement";

pub const CATCH_CLAUSE: &'static str = "catch_clause";

pub const GOTO_STATEMENT: &'static str = "goto_statement";
pub const BREAK_STATEMENT: &'static str = "break_statement";
pub const CONTINUE_STATEMENT: &'static str = "continue_statement";

pub const BINARY_EXPRESSION: &'static str = "binary_expression";
pub const INTEGER: &'static str = "integer";

pub const FUNCTION_DEFINITION: &'static str = "function_definition";
pub const METHOD_DECLARATION: &'static str = "method_declaration";
pub const ARROW_FUNCTION: &'static str = "arrow_function";

/// The grammar renamed anonymous functions between releases, so both spellings
/// are accepted rather than pinning users to one grammar version.
pub const ANONYMOUS_FUNCTION: &'static str = "anonymous_function";
pub const ANONYMOUS_FUNCTION_CREATION: &'static str = "anonymous_function_creation_expression";

pub const FUNCTION_CALL: &'static str = "function_call_expression";
pub const MEMBER_CALL: &'static str = "member_call_expression";
pub const SCOPED_CALL: &'static str = "scoped_call_expression";

pub const COMMENT: &'static str = "comment";
pub const ATTRIBUTE_LIST: &'static str = "attribute_list";

pub const CLASS_DECLARATION: &'static str = "class_declaration";
pub const INTERFACE_DECLARATION: &'static str = "interface_declaration";
pub const TRAIT_DECLARATION: &'static str = "trait_declaration";
pub const ENUM_DECLARATION: &'static str = "enum_declaration";

/// Functions and methods are the units that get a score of their own.
pub open spec fn spec_is_scoring_unit(kind: Seq<char>) -> bool {
    kind == FUNCTION_DEFINITION@ || kind == METHOD_DECLARATION@
}

/// Declarations whose name qualifies the units inside them.
pub open spec fn spec_is_type_declaration(kind: Seq<char>) -> bool {
    ||| kind == CLASS_DECLARATION@
    ||| kind == INTERFACE_DECLARATION@
    ||| kind == TRAIT_DECLARATION@
    ||| kind == ENUM_DECLARATION@
}

/// Function-likes that raise the nesting level without scoring in their own right.
pub open spec fn spec_is_nested_function(kind: Seq<char>) -> bool {
    ||| kind == ANONYMOUS_FUNCTION@
    ||| kind == ANONYMOUS_FUNCTION_CREATION@
    ||| kind == ARROW_FUNCTION@
    ||| kind == FUNCTION_DEFINITION@
}

/// Closures nested inside a unit roll their score up into it, so they are not
/// units in their own right.
pub fn is_scoring_unit(kind: &str) -> (unit: bool)
    ensures
        unit == spec_is_scoring_unit(kind@),
{
    str_eq(kind, FUNCTION_DEFINITION) || str_eq(kind, METHOD_DECLARATION)
}

/// Two classes in one file can each declare `process()`, so the enclosing type
/// is what makes a finding addressable.
pub fn is_type_declaration(kind: &str) -> (declaration: bool)
    ensures
        declaration == spec_is_type_declaration(kind@),
{
    str_eq(kind, CLASS_DECLARATION) || str_eq(kind, INTERFACE_DECLARATION) || str_eq(
        kind,
        TRAIT_DECLARATION,
    ) || str_eq(kind, ENUM_DECLARATION)
}

/// Function-likes that raise the nesting level without scoring in their own right.
pub fn is_nested_function(kind: &str) -> (nested: bool)
    ensures
        nested == spec_is_nested_function(kind@),
{
    str_eq(kind, ANONYMOUS_FUNCTION) || str_eq(kind, ANONYMOUS_FUNCTION_CREATION) || str_eq(
        kind,
        ARROW_FUNCTION,
    ) || str_eq(kind, FUNCTION_DEFINITION)
}

} // verus!
