//! The scoring rules: what each construct inside a function body costs.
//!
//! | Construct | Increment | Raises nesting |
//! | --- | --- | --- |
//! | `if`, ternary | +1 +nesting | yes |
//! | `elseif`, `else` | +1 flat | yes |
//! | `switch`, `match` | +1 +nesting (not per arm) | yes |
//! | `for`, `foreach`, `while`, `do` | +1 +nesting | yes |
//! | `catch` | +1 +nesting | yes |
//! | `break N`, `continue N`, `goto` | +1 | no |
//! | Sequence of like boolean operators | +1 per run | no |
//! | Direct recursion | +1 | no |
//! | Closure, arrow fn, nested function | — | yes |
//!
//! Scores are stated as mathematical integers in the contracts; a score
//! that would not fit in a `u32` is reported as `u32::MAX`.
use vstd::prelude::*;
use crate::kinds::{
    is_nested_function, spec_is_nested_function, BINARY_EXPRESSION, BREAK_STATEMENT,
    CATCH_CLAUSE, CONDITIONAL_EXPRESSION, CONTINUE_STATEMENT, DO_STATEMENT, ELSE_CLAUSE,
    ELSE_IF_CLAUSE, FOREACH_STATEMENT, FOR_STATEMENT, FUNCTION_CALL, GOTO_STATEMENT,
    IF_STATEMENT, INTEGER, MATCH_EXPRESSION, MEMBER_CALL, SCOPED_CALL, SWITCH_STATEMENT,
    WHILE_STATEMENT,
};
use crate::syntax::{
    as_index, children_of, field_child, first_named_child, fits_source, lemma_child_lookups,
    lemma_children_of, node_text, NodeView, SyntaxTree,
};
use crate::text::{chars_of, parse_decimal, parse_u32, str_eq};

verus! {

pub const CONDITION_FIELD: &'static str = "condition";
pub const BODY_FIELD: &'static str = "body";
pub const LEFT_FIELD: &'static str = "left";
pub const RIGHT_FIELD: &'static str = "right";
pub const OPERATOR_FIELD: &'static str = "operator";
pub const FUNCTION_FIELD: &'static str = "function";
pub const NAME_FIELD: &'static str = "name";
pub const OBJECT_FIELD: &'static str = "object";
pub const SCOPE_FIELD: &'static str = "scope";

/// A logical operator, with `and`/`or` normalised onto `&&`/`||`: they are the
/// same operators with different precedence.
#[derive(Debug, Clone, Copy, PartialEq, Eq, Structural)]
pub enum LogicalOperator {
    And,
    Or,
    Xor,
}

/// The number of runs of like operators: a new run starts at the first operator
/// and wherever one differs from the operator before it.
pub open spec fn runs(operators: Seq<LogicalOperator>) -> nat
    decreases operators.len(),
{
    if operators.len() == 0 {
        0
    } else if operators.len() == 1 || operators.last() != operators[operators.len() - 2] {
        runs(operators.drop_last()) + 1
    } else {
        runs(operators.drop_last())
    }
}

/// A count or score as a `u32`, held at `u32::MAX` where it would not fit.
pub open spec fn clamp(x: int) -> u32 {
    if x > u32::MAX {
        u32::MAX
    } else if x < 0 {
        0
    } else {
        x as u32
    }
}

/// A run of like operators costs +1 however long it is; the cost is in the
/// switching. `$a && $b && $c` is one run, `$a && $b || $c` two.
pub fn count_runs(operators: &[LogicalOperator]) -> (count: u32)
    ensures
        count == clamp(runs(operators@) as int),
{
    let mut count: u32 = 0;
    let mut previous: Option<LogicalOperator> = None;
    let mut k: usize = 0;
    while k < operators.len()
        invariant
            k <= operators@.len(),
            count == clamp(runs(operators@.take(k as int)) as int),
            previous == (if k == 0 {
                None
            } else {
                Some(operators@[k - 1])
            }),
        decreases operators@.len() - k,
    {
        let operator = operators[k];
        assert(operators@.take(k + 1).drop_last() =~= operators@.take(k as int));
        if previous != Some(operator) {
            count = count.saturating_add(1);
            previous = Some(operator);
        }
        k = k + 1;
    }
    assert(operators@.take(k as int) =~= operators@);
    count
}

/// `char::to_ascii_lowercase`.
pub open spec fn ascii_lower(c: char) -> char {
    if 'A' <= c <= 'Z' {
        ((c as u32) + 32) as char
    } else {
        c
    }
}

/// Which logical operator an operator token spells, ignoring ASCII case.
pub open spec fn operator_of_text(text: Seq<char>) -> Option<LogicalOperator> {
    let lower = text.map_values(|c: char| ascii_lower(c));
    if lower == seq!['&', '&'] || lower == seq!['a', 'n', 'd'] {
        Some(LogicalOperator::And)
    } else if lower == seq!['|', '|'] || lower == seq!['o', 'r'] {
        Some(LogicalOperator::Or)
    } else if lower == seq!['x', 'o', 'r'] {
        Some(LogicalOperator::Xor)
    } else {
        None
    }
}

fn is_letter(c: char, lower: char, upper: char) -> (hit: bool)
    requires
        'a' <= lower <= 'z',
        upper as u32 == lower as u32 - 32,
    ensures
        hit == (ascii_lower(c) == lower),
{
    c == lower || c == upper
}

fn operator_of(text: &str) -> (operator: Option<LogicalOperator>)
    ensures
        operator == operator_of_text(text@),
{
    let cs = chars_of(text);
    let ghost lower = text@.map_values(|c: char| ascii_lower(c));
    assert(lower.len() == cs@.len());
    assert(seq!['&', '&'].len() == 2 && seq!['|', '|'].len() == 2 && seq!['o', 'r'].len() == 2);
    assert(seq!['a', 'n', 'd'].len() == 3 && seq!['x', 'o', 'r'].len() == 3);
    if cs.len() == 2 {
        if cs[0] == '&' && cs[1] == '&' {
            assert(lower =~= seq!['&', '&']);
            return Some(LogicalOperator::And);
        }
        if cs[0] == '|' && cs[1] == '|' {
            assert(lower =~= seq!['|', '|']);
            return Some(LogicalOperator::Or);
        }
        if is_letter(cs[0], 'o', 'O') && is_letter(cs[1], 'r', 'R') {
            assert(lower =~= seq!['o', 'r']);
            return Some(LogicalOperator::Or);
        }
        assert(lower != seq!['&', '&'] && lower != seq!['|', '|'] && lower != seq!['o', 'r']) by {
            if lower == seq!['&', '&'] {
                assert(lower[0] == '&' && lower[1] == '&');
            }
            if lower == seq!['|', '|'] {
                assert(lower[0] == '|' && lower[1] == '|');
            }
            if lower == seq!['o', 'r'] {
                assert(lower[0] == 'o' && lower[1] == 'r');
            }
        }
        return None;
    }
    if cs.len() == 3 {
        if is_letter(cs[0], 'a', 'A') && is_letter(cs[1], 'n', 'N') && is_letter(cs[2], 'd', 'D') {
            assert(lower =~= seq!['a', 'n', 'd']);
            return Some(LogicalOperator::And);
        }
        if is_letter(cs[0], 'x', 'X') && is_letter(cs[1], 'o', 'O') && is_letter(cs[2], 'r', 'R') {
            assert(lower =~= seq!['x', 'o', 'r']);
            return Some(LogicalOperator::Xor);
        }
        assert(lower != seq!['a', 'n', 'd'] && lower != seq!['x', 'o', 'r']) by {
            if lower == seq!['a', 'n', 'd'] {
                assert(lower[0] == 'a' && lower[1] == 'n' && lower[2] == 'd');
            }
            if lower == seq!['x', 'o', 'r'] {
                assert(lower[0] == 'x' && lower[1] == 'o' && lower[2] == 'r');
            }
        }
        return None;
    }
    None
}


/// Constructs that cost +1 plus their nesting, and nest what they contain.
pub open spec fn is_control(kind: Seq<char>) -> bool {
    ||| kind == CONDITIONAL_EXPRESSION@
    ||| kind == SWITCH_STATEMENT@
    ||| kind == MATCH_EXPRESSION@
    ||| kind == FOR_STATEMENT@
    ||| kind == FOREACH_STATEMENT@
    ||| kind == WHILE_STATEMENT@
    ||| kind == DO_STATEMENT@
    ||| kind == CATCH_CLAUSE@
}

/// Calls that can be recognised as direct recursion.
pub open spec fn is_call(kind: Seq<char>) -> bool {
    kind == FUNCTION_CALL@ || kind == MEMBER_CALL@ || kind == SCOPED_CALL@
}

/// The logical operator of a binary expression, if it has one.
pub open spec fn logical_operator(nv: Seq<NodeView>, src: Seq<u8>, i: int) -> Option<
    LogicalOperator,
> {
    if nv[i].kind != BINARY_EXPRESSION@ {
        None
    } else {
        match field_child(nv, i, OPERATOR_FIELD@) {
            Some(o) => match node_text(nv, src, o) {
                Some(t) => operator_of_text(t),
                None => None,
            },
            None => None,
        }
    }
}

/// `break N` / `continue N` with a literal level above 1: PHP's analogue of the
/// labelled break.
pub open spec fn is_multi_level_jump(nv: Seq<NodeView>, src: Seq<u8>, i: int) -> bool {
    match first_named_child(nv, i) {
        Some(c) => nv[c].kind == INTEGER@ && match node_text(nv, src, c) {
            Some(t) => match parse_u32(t) {
                Some(level) => level > 1,
                None => false,
            },
            None => false,
        },
        None => false,
    }
}

/// A call whose receiver is `$this`, `self` or `static`.
pub open spec fn is_self_reference(nv: Seq<NodeView>, src: Seq<u8>, i: int) -> bool {
    let receiver = match field_child(nv, i, OBJECT_FIELD@) {
        Some(r) => Some(r),
        None => field_child(nv, i, SCOPE_FIELD@),
    };
    match receiver {
        Some(r) => match node_text(nv, src, r) {
            Some(t) => t == "$this"@ || t == "self"@ || t == "static"@,
            None => false,
        },
        None => false,
    }
}

/// The node naming what a call invokes, where that can be read without
/// symbol resolution.
pub open spec fn callee(nv: Seq<NodeView>, src: Seq<u8>, i: int) -> Option<int> {
    let kind = nv[i].kind;
    if kind == FUNCTION_CALL@ {
        field_child(nv, i, FUNCTION_FIELD@)
    } else if (kind == MEMBER_CALL@ || kind == SCOPED_CALL@) && is_self_reference(nv, src, i) {
        field_child(nv, i, NAME_FIELD@)
    } else {
        None
    }
}

/// Only direct syntactic self-reference counts as recursion.
pub open spec fn is_recursive_call(nv: Seq<NodeView>, src: Seq<u8>, unit: Seq<char>, i: int) -> bool {
    match callee(nv, src, i) {
        Some(c) => node_text(nv, src, c) == Some(unit),
        None => false,
    }
}

/// A logical expression flattened into source order: its run of operators, and
/// the operands between them. Flattening stops at anything that is not itself a
/// logical binary expression, so a parenthesised sub-expression starts afresh.
pub open spec fn operator_sequence(nv: Seq<NodeView>, src: Seq<u8>, i: int) -> (
    Seq<LogicalOperator>,
    Seq<int>,
)
    decreases nv.len() - i,
{
    proof {
        lemma_child_lookups(nv, i);
    }
    let left = match field_child(nv, i, LEFT_FIELD@) {
        Some(l) => if logical_operator(nv, src, l) is Some {
            operator_sequence(nv, src, l)
        } else {
            (seq![], seq![l])
        },
        None => (seq![], seq![]),
    };
    let operator = match logical_operator(nv, src, i) {
        Some(o) => seq![o],
        None => seq![],
    };
    let right = match field_child(nv, i, RIGHT_FIELD@) {
        Some(r) => if logical_operator(nv, src, r) is Some {
            operator_sequence(nv, src, r)
        } else {
            (seq![], seq![r])
        },
        None => (seq![], seq![]),
    };
    (left.0 + operator + right.0, left.1 + right.1)
}

/// The operands of a logical sequence lie inside it.
pub proof fn lemma_operator_sequence(nv: Seq<NodeView>, src: Seq<u8>, i: int)
    ensures
        forall|k: int|
            0 <= k < operator_sequence(nv, src, i).1.len() ==> i < #[trigger] operator_sequence(
                nv,
                src,
                i,
            ).1[k] < nv.len(),
    decreases nv.len() - i,
{
    lemma_child_lookups(nv, i);
    let l = field_child(nv, i, LEFT_FIELD@);
    let r = field_child(nv, i, RIGHT_FIELD@);
    if let Some(x) = l {
        if logical_operator(nv, src, x) is Some {
            lemma_operator_sequence(nv, src, x);
        }
    }
    if let Some(x) = r {
        if logical_operator(nv, src, x) is Some {
            lemma_operator_sequence(nv, src, x);
        }
    }
    let s = operator_sequence(nv, src, i);
    let left = match l {
        Some(x) => if logical_operator(nv, src, x) is Some {
            operator_sequence(nv, src, x)
        } else {
            (seq![], seq![x])
        },
        None => (seq![], seq![]),
    };
    let right = match r {
        Some(x) => if logical_operator(nv, src, x) is Some {
            operator_sequence(nv, src, x)
        } else {
            (seq![], seq![x])
        },
        None => (seq![], seq![]),
    };
    assert(s.1 == left.1 + right.1);
    assert forall|k: int| 0 <= k < s.1.len() implies i < #[trigger] s.1[k] < nv.len() by {
        if k < left.1.len() {
            assert(s.1[k] == left.1[k]);
        } else {
            assert(s.1[k] == right.1[k - left.1.len()]);
        }
    }
}

/// The score of node `i` at nesting `n`, inside the unit named `unit`.
pub open spec fn score_of(nv: Seq<NodeView>, src: Seq<u8>, unit: Seq<char>, i: int, n: nat) -> nat
    decreases nv.len() - i, 4nat, 0int,
{
    let kind = nv[i].kind;
    let kids = children_of(nv, i).len() as int;
    if spec_is_nested_function(kind) {
        kids_score(nv, src, unit, i, kids, n + 1)
    } else if kind == IF_STATEMENT@ {
        if_score(nv, src, unit, i, n, false)
    } else if is_control(kind) {
        1 + n + control_score(nv, src, unit, i, kids, n)
    } else if kind == BREAK_STATEMENT@ || kind == CONTINUE_STATEMENT@ {
        if is_multi_level_jump(nv, src, i) {
            1
        } else {
            0
        }
    } else if kind == GOTO_STATEMENT@ {
        1
    } else if logical_operator(nv, src, i) is Some {
        logical_score(nv, src, unit, i, n)
    } else if is_call(kind) && is_recursive_call(nv, src, unit, i) {
        1 + kids_score(nv, src, unit, i, kids, n)
    } else {
        kids_score(nv, src, unit, i, kids, n)
    }
}

/// The scores of the named ones among the first `m` children of `i`.
pub open spec fn kids_score(
    nv: Seq<NodeView>,
    src: Seq<u8>,
    unit: Seq<char>,
    i: int,
    m: int,
    n: nat,
) -> nat
    decreases nv.len() - i, 1nat, m,
{
    if m <= 0 || m > children_of(nv, i).len() {
        0
    } else {
        proof {
            lemma_children_of(nv, i);
        }
        let c = children_of(nv, i)[m - 1];
        kids_score(nv, src, unit, i, m - 1, n) + if nv[c].named {
            score_of(nv, src, unit, c, n)
        } else {
            0
        }
    }
}

/// An `if`: +1 and its nesting, or a flat +1 where it is the tail of an
/// `else if`; its condition at the same nesting, its body one deeper, and its
/// `elseif` and `else` clauses.
pub open spec fn if_score(
    nv: Seq<NodeView>,
    src: Seq<u8>,
    unit: Seq<char>,
    i: int,
    n: nat,
    flat: bool,
) -> nat
    decreases nv.len() - i, 3nat, 0int,
{
    proof {
        lemma_child_lookups(nv, i);
    }
    (if flat {
        1
    } else {
        1 + n
    }) + match field_child(nv, i, CONDITION_FIELD@) {
        Some(c) => score_of(nv, src, unit, c, n),
        None => 0,
    } + match field_child(nv, i, BODY_FIELD@) {
        Some(b) => score_of(nv, src, unit, b, n + 1),
        None => 0,
    } + clauses_score(nv, src, unit, i, children_of(nv, i).len() as int, n)
}

/// The `elseif` and `else` clauses among the first `m` children of `i`.
pub open spec fn clauses_score(
    nv: Seq<NodeView>,
    src: Seq<u8>,
    unit: Seq<char>,
    i: int,
    m: int,
    n: nat,
) -> nat
    decreases nv.len() - i, 1nat, m,
{
    if m <= 0 || m > children_of(nv, i).len() {
        0
    } else {
        proof {
            lemma_children_of(nv, i);
        }
        let c = children_of(nv, i)[m - 1];
        clauses_score(nv, src, unit, i, m - 1, n) + if nv[c].named {
            clause_score(nv, src, unit, c, n)
        } else {
            0
        }
    }
}

/// An `elseif` takes a flat +1; an `else` is scored by [`else_score`];
/// anything else among an `if`'s children is not a clause.
pub open spec fn clause_score(nv: Seq<NodeView>, src: Seq<u8>, unit: Seq<char>, c: int, n: nat) -> nat
    decreases nv.len() - c, 3nat, 0int,
{
    proof {
        lemma_child_lookups(nv, c);
    }
    if nv[c].kind == ELSE_IF_CLAUSE@ {
        1 + match field_child(nv, c, CONDITION_FIELD@) {
            Some(x) => score_of(nv, src, unit, x, n),
            None => 0,
        } + match field_child(nv, c, BODY_FIELD@) {
            Some(b) => score_of(nv, src, unit, b, n + 1),
            None => 0,
        }
    } else if nv[c].kind == ELSE_CLAUSE@ {
        else_score(nv, src, unit, c, n)
    } else {
        0
    }
}

/// `else if` written as two words parses as an `else` wrapping an `if`. It
/// scores as `elseif` does: the inner `if` takes the flat increment and the
/// `else` itself adds nothing. Any other `else` is a flat +1 with its body one
/// level deeper.
pub open spec fn else_score(nv: Seq<NodeView>, src: Seq<u8>, unit: Seq<char>, c: int, n: nat) -> nat
    decreases nv.len() - c, 2nat, 0int,
{
    proof {
        lemma_child_lookups(nv, c);
    }
    let body = match field_child(nv, c, BODY_FIELD@) {
        Some(b) => Some(b),
        None => first_named_child(nv, c),
    };
    match body {
        Some(b) => if nv[b].kind == IF_STATEMENT@ {
            if_score(nv, src, unit, b, n, true)
        } else {
            1 + score_of(nv, src, unit, b, n + 1)
        },
        None => 1,
    }
}

/// The named ones among the first `m` children of a control construct: the
/// controlling condition stays at the construct's nesting, the rest go one
/// deeper.
pub open spec fn control_score(
    nv: Seq<NodeView>,
    src: Seq<u8>,
    unit: Seq<char>,
    i: int,
    m: int,
    n: nat,
) -> nat
    decreases nv.len() - i, 1nat, m,
{
    if m <= 0 || m > children_of(nv, i).len() {
        0
    } else {
        proof {
            lemma_children_of(nv, i);
        }
        let c = children_of(nv, i)[m - 1];
        control_score(nv, src, unit, i, m - 1, n) + if nv[c].named {
            score_of(
                nv,
                src,
                unit,
                c,
                if field_child(nv, i, CONDITION_FIELD@) == Some(c) {
                    n
                } else {
                    n + 1
                },
            )
        } else {
            0
        }
    }
}

/// A logical sequence: +1 per run of like operators, plus its operands.
pub open spec fn logical_score(nv: Seq<NodeView>, src: Seq<u8>, unit: Seq<char>, i: int, n: nat) -> nat
    decreases nv.len() - i, 2nat, 0int,
{
    runs(operator_sequence(nv, src, i).0) + operands_score(
        nv,
        src,
        unit,
        i,
        operator_sequence(nv, src, i).1.len() as int,
        n,
    )
}

/// The first `m` operands of the logical sequence at `i`.
pub open spec fn operands_score(
    nv: Seq<NodeView>,
    src: Seq<u8>,
    unit: Seq<char>,
    i: int,
    m: int,
    n: nat,
) -> nat
    decreases nv.len() - i, 1nat, m,
{
    if m <= 0 || m > operator_sequence(nv, src, i).1.len() {
        0
    } else {
        proof {
            lemma_operator_sequence(nv, src, i);
        }
        operands_score(nv, src, unit, i, m - 1, n) + score_of(
            nv,
            src,
            unit,
            operator_sequence(nv, src, i).1[m - 1],
            n,
        )
    }
}

/// `1 + n` as a score increment.
fn increment(n: usize) -> (inc: u32)
    ensures
        inc == clamp(1 + n),
{
    if n >= 4294967295usize {
        u32::MAX
    } else {
        n as u32 + 1
    }
}

fn is_control_kind(kind: &str) -> (control: bool)
    ensures
        control == is_control(kind@),
{
    str_eq(kind, CONDITIONAL_EXPRESSION) || str_eq(kind, SWITCH_STATEMENT) || str_eq(
        kind,
        MATCH_EXPRESSION,
    ) || str_eq(kind, FOR_STATEMENT) || str_eq(kind, FOREACH_STATEMENT) || str_eq(
        kind,
        WHILE_STATEMENT,
    ) || str_eq(kind, DO_STATEMENT) || str_eq(kind, CATCH_CLAUSE)
}

fn is_call_kind(kind: &str) -> (call: bool)
    ensures
        call == is_call(kind@),
{
    str_eq(kind, FUNCTION_CALL) || str_eq(kind, MEMBER_CALL) || str_eq(kind, SCOPED_CALL)
}

/// `and`/`or` are the same logical operators as `&&`/`||` with different
/// precedence, so they normalise together for run-counting purposes.
fn node_logical_operator(tree: &SyntaxTree, src: &[u8], i: usize) -> (operator: Option<
    LogicalOperator,
>)
    requires
        i < tree@.len(),
        fits_source(tree@, src@.len() as int),
    ensures
        operator == logical_operator(tree@, src@, i as int),
{
    if !str_eq(tree.node(i).kind.as_str(), BINARY_EXPRESSION) {
        return None;
    }
    proof {
        lemma_child_lookups(tree@, i as int);
    }
    match tree.child_by_field(i, OPERATOR_FIELD) {
        Some(o) => match tree.text(o, src) {
            Some(t) => operator_of(t),
            None => None,
        },
        None => None,
    }
}

fn multi_level_jump(tree: &SyntaxTree, src: &[u8], i: usize) -> (multi: bool)
    requires
        i < tree@.len(),
        fits_source(tree@, src@.len() as int),
    ensures
        multi == is_multi_level_jump(tree@, src@, i as int),
{
    proof {
        lemma_child_lookups(tree@, i as int);
    }
    match tree.first_named_child(i) {
        Some(c) => {
            if !str_eq(tree.node(c).kind.as_str(), INTEGER) {
                return false;
            }
            match tree.text(c, src) {
                Some(t) => match parse_decimal(t) {
                    Some(level) => level > 1,
                    None => false,
                },
                None => false,
            }
        },
        None => false,
    }
}

fn self_reference(tree: &SyntaxTree, src: &[u8], i: usize) -> (is_self: bool)
    requires
        i < tree@.len(),
        fits_source(tree@, src@.len() as int),
    ensures
        is_self == is_self_reference(tree@, src@, i as int),
{
    proof {
        lemma_child_lookups(tree@, i as int);
    }
    let receiver = match tree.child_by_field(i, OBJECT_FIELD) {
        Some(r) => Some(r),
        None => tree.child_by_field(i, SCOPE_FIELD),
    };
    match receiver {
        Some(r) => match tree.text(r, src) {
            Some(t) => str_eq(t, "$this") || str_eq(t, "self") || str_eq(t, "static"),
            None => false,
        },
        None => false,
    }
}

/// Only direct syntactic self-reference is detectable without symbol
/// resolution; dynamic dispatch through a variable is out of reach.
fn recursive_call(tree: &SyntaxTree, src: &[u8], unit: &str, i: usize) -> (recursive: bool)
    requires
        i < tree@.len(),
        fits_source(tree@, src@.len() as int),
    ensures
        recursive == is_recursive_call(tree@, src@, unit@, i as int),
{
    proof {
        lemma_child_lookups(tree@, i as int);
    }
    let kind = tree.node(i).kind.as_str();
    let callee = if str_eq(kind, FUNCTION_CALL) {
        tree.child_by_field(i, FUNCTION_FIELD)
    } else if (str_eq(kind, MEMBER_CALL) || str_eq(kind, SCOPED_CALL)) && self_reference(
        tree,
        src,
        i,
    ) {
        tree.child_by_field(i, NAME_FIELD)
    } else {
        None
    };
    match callee {
        Some(c) => match tree.text(c, src) {
            Some(t) => str_eq(t, unit),
            None => false,
        },
        None => false,
    }
}

/// Flattens a logical sequence into its operators and operands, in source order.
fn flatten_logical(
    tree: &SyntaxTree,
    src: &[u8],
    i: usize,
    operators: &mut Vec<LogicalOperator>,
    operands: &mut Vec<usize>,
)
    requires
        i < tree@.len(),
        fits_source(tree@, src@.len() as int),
    ensures
        final(operators)@ == old(operators)@ + operator_sequence(tree@, src@, i as int).0,
        final(operands)@.map_values(|u: usize| u as int) == old(operands)@.map_values(
            |u: usize| u as int,
        ) + operator_sequence(tree@, src@, i as int).1,
    decreases tree@.len() - i,
{
    proof {
        lemma_child_lookups(tree@, i as int);
    }
    let ghost ops0 = operators@;
    let ghost args0 = operands@.map_values(|u: usize| u as int);
    let ghost nv = tree@;
    let ghost left = match field_child(nv, i as int, LEFT_FIELD@) {
        Some(l) => if logical_operator(nv, src@, l) is Some {
            operator_sequence(nv, src@, l)
        } else {
            (seq![], seq![l])
        },
        None => (seq![], seq![]),
    };
    if let Some(l) = tree.child_by_field(i, LEFT_FIELD) {
        if node_logical_operator(tree, src, l).is_some() {
            flatten_logical(tree, src, l, operators, operands);
        } else {
            operands.push(l);
        }
    }
    assert(operators@ =~= ops0 + left.0);
    assert(operands@.map_values(|u: usize| u as int) =~= args0 + left.1);
    let ghost ops1 = operators@;
    let ghost args1 = operands@.map_values(|u: usize| u as int);
    let ghost operator = match logical_operator(nv, src@, i as int) {
        Some(o) => seq![o],
        None => seq![],
    };
    if let Some(operator) = node_logical_operator(tree, src, i) {
        operators.push(operator);
    }
    assert(operators@ =~= ops1 + operator);
    let ghost ops2 = operators@;
    let ghost right = match field_child(nv, i as int, RIGHT_FIELD@) {
        Some(r) => if logical_operator(nv, src@, r) is Some {
            operator_sequence(nv, src@, r)
        } else {
            (seq![], seq![r])
        },
        None => (seq![], seq![]),
    };
    if let Some(r) = tree.child_by_field(i, RIGHT_FIELD) {
        if node_logical_operator(tree, src, r).is_some() {
            flatten_logical(tree, src, r, operators, operands);
        } else {
            operands.push(r);
        }
    }
    assert(operators@ =~= ops2 + right.0);
    assert(operands@.map_values(|u: usize| u as int) =~= args1 + right.1);
    assert(operator_sequence(nv, src@, i as int) == (left.0 + operator + right.0, left.1 + right.1));
    assert(operators@ =~= ops0 + operator_sequence(nv, src@, i as int).0);
    assert(operands@.map_values(|u: usize| u as int) =~= args0 + operator_sequence(
        nv,
        src@,
        i as int,
    ).1);
}

/// The score of node `i` at nesting `n`, inside the unit named `unit`.
pub(crate) fn walk(tree: &SyntaxTree, src: &[u8], unit: &str, i: usize, n: usize) -> (score: u32)
    requires
        i < tree@.len(),
        n <= i,
        fits_source(tree@, src@.len() as int),
    ensures
        score == clamp(score_of(tree@, src@, unit@, i as int, n as nat) as int),
    decreases tree@.len() - i, 4nat, 0int,
{
    let len = tree.len();
    assert(n < len);
    let kind = tree.node(i).kind.as_str();
    if is_nested_function(kind) {
        return walk_children(tree, src, unit, i, n + 1);
    }
    if str_eq(kind, IF_STATEMENT) {
        return walk_if(tree, src, unit, i, n, false);
    }
    if is_control_kind(kind) {
        return increment(n).saturating_add(walk_control(tree, src, unit, i, n));
    }
    if str_eq(kind, BREAK_STATEMENT) || str_eq(kind, CONTINUE_STATEMENT) {
        return if multi_level_jump(tree, src, i) {
            1
        } else {
            0
        };
    }
    if str_eq(kind, GOTO_STATEMENT) {
        return 1;
    }
    if node_logical_operator(tree, src, i).is_some() {
        return walk_logical_sequence(tree, src, unit, i, n);
    }
    let recursion: u32 = if is_call_kind(kind) && recursive_call(tree, src, unit, i) {
        1
    } else {
        0
    };
    recursion.saturating_add(walk_children(tree, src, unit, i, n))
}

/// The named children of `i`, each at nesting `n`.
fn walk_children(tree: &SyntaxTree, src: &[u8], unit: &str, i: usize, n: usize) -> (score: u32)
    requires
        i < tree@.len(),
        n <= i + 1,
        fits_source(tree@, src@.len() as int),
    ensures
        score == clamp(
            kids_score(tree@, src@, unit@, i as int, children_of(tree@, i as int).len() as int, n as nat)
                as int,
        ),
    decreases tree@.len() - i, 1nat, 0int,
{
    let kids = tree.children(i);
    proof {
        lemma_children_of(tree@, i as int);
    }
    let mut score: u32 = 0;
    let mut k: usize = 0;
    while k < kids.len()
        invariant
            i < tree@.len(),
            n <= i + 1,
            fits_source(tree@, src@.len() as int),
            kids@.len() == children_of(tree@, i as int).len(),
            forall|q: int|
                0 <= q < kids@.len() ==> #[trigger] kids@[q] as int == children_of(tree@, i as int)[q],
            forall|q: int|
                0 <= q < kids@.len() ==> i < #[trigger] children_of(tree@, i as int)[q] < tree@.len(),
            k <= kids@.len(),
            score == clamp(kids_score(tree@, src@, unit@, i as int, k as int, n as nat) as int),
        decreases kids@.len() - k,
    {
        let c = kids[k];
        assert(c as int == children_of(tree@, i as int)[k as int]);
        if tree.node(c).named {
            score = score.saturating_add(walk(tree, src, unit, c, n));
        }
        k = k + 1;
    }
    score
}

/// `flat` marks an `if` that is really the tail of an `else if`.
fn walk_if(tree: &SyntaxTree, src: &[u8], unit: &str, i: usize, n: usize, flat: bool) -> (score: u32)
    requires
        i < tree@.len(),
        n <= i,
        fits_source(tree@, src@.len() as int),
    ensures
        score == clamp(if_score(tree@, src@, unit@, i as int, n as nat, flat) as int),
    decreases tree@.len() - i, 3nat, 0int,
{
    proof {
        lemma_child_lookups(tree@, i as int);
        lemma_children_of(tree@, i as int);
    }
    let mut score: u32 = if flat {
        1
    } else {
        increment(n)
    };
    match tree.child_by_field(i, CONDITION_FIELD) {
        Some(c) => {
            score = score.saturating_add(walk(tree, src, unit, c, n));
        },
        None => {},
    }
    match tree.child_by_field(i, BODY_FIELD) {
        Some(b) => {
            score = score.saturating_add(walk(tree, src, unit, b, n + 1));
        },
        None => {},
    }
    let kids = tree.children(i);
    let ghost head = (if flat {
        1
    } else {
        1 + n
    }) + match field_child(tree@, i as int, CONDITION_FIELD@) {
        Some(c) => score_of(tree@, src@, unit@, c, n as nat),
        None => 0,
    } + match field_child(tree@, i as int, BODY_FIELD@) {
        Some(b) => score_of(tree@, src@, unit@, b, (n + 1) as nat),
        None => 0,
    };
    assert(score == clamp(head));
    let mut k: usize = 0;
    while k < kids.len()
        invariant
            i < tree@.len(),
            n <= i,
            fits_source(tree@, src@.len() as int),
            kids@.len() == children_of(tree@, i as int).len(),
            forall|q: int|
                0 <= q < kids@.len() ==> #[trigger] kids@[q] as int == children_of(tree@, i as int)[q],
            forall|q: int|
                0 <= q < kids@.len() ==> i < #[trigger] children_of(tree@, i as int)[q] < tree@.len(),
            k <= kids@.len(),
            head >= 0,
            score == clamp(head + clauses_score(tree@, src@, unit@, i as int, k as int, n as nat) as int),
        decreases kids@.len() - k,
    {
        let c = kids[k];
        assert(c as int == children_of(tree@, i as int)[k as int]);
        if tree.node(c).named {
            score = score.saturating_add(walk_clause(tree, src, unit, c, n));
        }
        k = k + 1;
    }
    score
}

/// An `elseif` or `else` clause of an `if`.
fn walk_clause(tree: &SyntaxTree, src: &[u8], unit: &str, c: usize, n: usize) -> (score: u32)
    requires
        c < tree@.len(),
        n < c,
        fits_source(tree@, src@.len() as int),
    ensures
        score == clamp(clause_score(tree@, src@, unit@, c as int, n as nat) as int),
    decreases tree@.len() - c, 3nat, 0int,
{
    proof {
        lemma_child_lookups(tree@, c as int);
    }
    let kind = tree.node(c).kind.as_str();
    if str_eq(kind, ELSE_IF_CLAUSE) {
        let mut score: u32 = 1;
        match tree.child_by_field(c, CONDITION_FIELD) {
            Some(x) => {
                score = score.saturating_add(walk(tree, src, unit, x, n));
            },
            None => {},
        }
        match tree.child_by_field(c, BODY_FIELD) {
            Some(b) => {
                score = score.saturating_add(walk(tree, src, unit, b, n + 1));
            },
            None => {},
        }
        score
    } else if str_eq(kind, ELSE_CLAUSE) {
        walk_else(tree, src, unit, c, n)
    } else {
        0
    }
}

/// `else if` written as two words parses as an `else_clause` wrapping an
/// `if_statement`. It must score the same as `elseif`, so the inner `if` takes
/// the flat increment and the `else` itself adds nothing.
fn walk_else(tree: &SyntaxTree, src: &[u8], unit: &str, c: usize, n: usize) -> (score: u32)
    requires
        c < tree@.len(),
        n < c,
        fits_source(tree@, src@.len() as int),
    ensures
        score == clamp(else_score(tree@, src@, unit@, c as int, n as nat) as int),
    decreases tree@.len() - c, 2nat, 0int,
{
    proof {
        lemma_child_lookups(tree@, c as int);
    }
    let body = match tree.child_by_field(c, BODY_FIELD) {
        Some(b) => Some(b),
        None => tree.first_named_child(c),
    };
    match body {
        Some(inner) => {
            if str_eq(tree.node(inner).kind.as_str(), IF_STATEMENT) {
                walk_if(tree, src, unit, inner, n, true)
            } else {
                1u32.saturating_add(walk(tree, src, unit, inner, n + 1))
            }
        },
        None => 1,
    }
}

/// Branch bodies nest; the controlling condition does not.
fn walk_control(tree: &SyntaxTree, src: &[u8], unit: &str, i: usize, n: usize) -> (score: u32)
    requires
        i < tree@.len(),
        n <= i,
        fits_source(tree@, src@.len() as int),
    ensures
        score == clamp(
            control_score(tree@, src@, unit@, i as int, children_of(tree@, i as int).len() as int, n as nat)
                as int,
        ),
    decreases tree@.len() - i, 1nat, 0int,
{
    let condition = tree.child_by_field(i, CONDITION_FIELD);
    let kids = tree.children(i);
    proof {
        lemma_children_of(tree@, i as int);
    }
    let mut score: u32 = 0;
    let mut k: usize = 0;
    while k < kids.len()
        invariant
            i < tree@.len(),
            n <= i,
            fits_source(tree@, src@.len() as int),
            as_index(condition) == field_child(tree@, i as int, CONDITION_FIELD@),
            kids@.len() == children_of(tree@, i as int).len(),
            forall|q: int|
                0 <= q < kids@.len() ==> #[trigger] kids@[q] as int == children_of(tree@, i as int)[q],
            forall|q: int|
                0 <= q < kids@.len() ==> i < #[trigger] children_of(tree@, i as int)[q] < tree@.len(),
            k <= kids@.len(),
            score == clamp(control_score(tree@, src@, unit@, i as int, k as int, n as nat) as int),
        decreases kids@.len() - k,
    {
        let c = kids[k];
        assert(c as int == children_of(tree@, i as int)[k as int]);
        if tree.node(c).named {
            let is_condition = match condition {
                Some(x) => x == c,
                None => false,
            };
            let nesting = if is_condition {
                n
            } else {
                n + 1
            };
            score = score.saturating_add(walk(tree, src, unit, c, nesting));
        }
        k = k + 1;
    }
    score
}

/// A run of like operators costs +1 however long it is; then each operand is
/// scored at the same nesting.
fn walk_logical_sequence(tree: &SyntaxTree, src: &[u8], unit: &str, i: usize, n: usize) -> (score: u32)
    requires
        i < tree@.len(),
        n <= i,
        fits_source(tree@, src@.len() as int),
    ensures
        score == clamp(logical_score(tree@, src@, unit@, i as int, n as nat) as int),
    decreases tree@.len() - i, 2nat, 0int,
{
    let mut operators: Vec<LogicalOperator> = Vec::new();
    let mut operands: Vec<usize> = Vec::new();
    flatten_logical(tree, src, i, &mut operators, &mut operands);
    let ghost sequence = operator_sequence(tree@, src@, i as int);
    assert(operators@ =~= sequence.0);
    assert(operands@.map_values(|u: usize| u as int) =~= sequence.1);
    proof {
        lemma_operator_sequence(tree@, src@, i as int);
    }
    let mut score = count_runs(operators.as_slice());
    let mut k: usize = 0;
    while k < operands.len()
        invariant
            i < tree@.len(),
            n <= i,
            fits_source(tree@, src@.len() as int),
            sequence == operator_sequence(tree@, src@, i as int),
            operands@.len() == sequence.1.len(),
            forall|q: int| 0 <= q < operands@.len() ==> #[trigger] operands@[q] as int == sequence.1[q],
            forall|q: int| 0 <= q < sequence.1.len() ==> i < #[trigger] sequence.1[q] < tree@.len(),
            k <= operands@.len(),
            score == clamp(
                (runs(sequence.0) + operands_score(tree@, src@, unit@, i as int, k as int, n as nat))
                    as int,
            ),
        decreases operands@.len() - k,
    {
        let o = operands[k];
        assert(o as int == sequence.1[k as int]);
        score = score.saturating_add(walk(tree, src, unit, o, n));
        k = k + 1;
    }
    score
}

/// `count` copies of one operator.
pub open spec fn repeated(operator: LogicalOperator, count: nat) -> Seq<LogicalOperator> {
    Seq::new(count, |k: int| operator)
}

/// A run of like operators costs one, however long it is.
pub proof fn law_a_run_of_like_operators_costs_one(operator: LogicalOperator, count: nat)
    requires
        count >= 1,
    ensures
        runs(repeated(operator, count)) == 1,
    decreases count,
{
    let s = repeated(operator, count);
    if count > 1 {
        law_a_run_of_like_operators_costs_one(operator, (count - 1) as nat);
        assert(s.drop_last() =~= repeated(operator, (count - 1) as nat));
        assert(s.last() == operator && s[s.len() - 2] == operator);
        assert(runs(s) == runs(s.drop_last()));
    } else {
        assert(s.drop_last() =~= Seq::<LogicalOperator>::empty());
        assert(runs(s.drop_last()) == 0);
        assert(runs(s) == 1);
    }
}

/// Appending an operator starts a new run exactly when it differs from the one
/// before it, so each switch between operators costs one more.
pub proof fn law_each_switch_costs_one(operators: Seq<LogicalOperator>, next: LogicalOperator)
    ensures
        runs(operators.push(next)) == runs(operators) + if operators.len() > 0
            && operators.last() == next {
            0nat
        } else {
            1nat
        },
{
    assert(operators.push(next).drop_last() =~= operators);
}

/// There are never more runs than operators.
pub proof fn law_runs_never_exceed_operators(operators: Seq<LogicalOperator>)
    ensures
        runs(operators) <= operators.len(),
    decreases operators.len(),
{
    if operators.len() > 0 {
        law_runs_never_exceed_operators(operators.drop_last());
    }
}

/// A flow-breaker (`if`, ternary, `switch`, `match`, a loop, `catch`) costs at
/// least one plus the nesting it sits at.
pub proof fn law_flow_breakers_pay_their_nesting(
    nv: Seq<NodeView>,
    src: Seq<u8>,
    unit: Seq<char>,
    i: int,
    n: nat,
)
    requires
        0 <= i < nv.len(),
        nv[i].kind == IF_STATEMENT@ || is_control(nv[i].kind),
        !spec_is_nested_function(nv[i].kind),
    ensures
        score_of(nv, src, unit, i, n) >= 1 + n,
{
}

/// Closures, arrow functions and nested functions cost nothing themselves:
/// they only raise the nesting of what they contain.
pub proof fn law_closures_only_raise_nesting(
    nv: Seq<NodeView>,
    src: Seq<u8>,
    unit: Seq<char>,
    i: int,
    n: nat,
)
    requires
        0 <= i < nv.len(),
        spec_is_nested_function(nv[i].kind),
    ensures
        score_of(nv, src, unit, i, n) == kids_score(
            nv,
            src,
            unit,
            i,
            children_of(nv, i).len() as int,
            n + 1,
        ),
{
}

/// Placing code one level deeper never lowers what it costs: the score of any
/// node at nesting `n + 1` is at least its score at nesting `n`.
pub proof fn law_deeper_code_never_costs_less(
    nv: Seq<NodeView>,
    src: Seq<u8>,
    unit: Seq<char>,
    i: int,
    n: nat,
)
    ensures
        score_of(nv, src, unit, i, n) <= score_of(nv, src, unit, i, n + 1),
    decreases nv.len() - i, 4nat, 0int,
{
    let kind = nv[i].kind;
    let kids = children_of(nv, i).len() as int;
    if spec_is_nested_function(kind) {
        lemma_deeper_kids(nv, src, unit, i, kids, n + 1);
    } else if kind == IF_STATEMENT@ {
        lemma_deeper_if(nv, src, unit, i, n, false);
    } else if is_control(kind) {
        lemma_deeper_control(nv, src, unit, i, kids, n);
    } else if kind == BREAK_STATEMENT@ || kind == CONTINUE_STATEMENT@ || kind == GOTO_STATEMENT@ {
    } else if logical_operator(nv, src, i) is Some {
        lemma_deeper_logical(nv, src, unit, i, n);
    } else {
        lemma_deeper_kids(nv, src, unit, i, kids, n);
    }
}

proof fn lemma_deeper_kids(nv: Seq<NodeView>, src: Seq<u8>, unit: Seq<char>, i: int, m: int, n: nat)
    ensures
        kids_score(nv, src, unit, i, m, n) <= kids_score(nv, src, unit, i, m, n + 1),
    decreases nv.len() - i, 1nat, m,
{
    if !(m <= 0 || m > children_of(nv, i).len()) {
        lemma_children_of(nv, i);
        let c = children_of(nv, i)[m - 1];
        lemma_deeper_kids(nv, src, unit, i, m - 1, n);
        if nv[c].named {
            law_deeper_code_never_costs_less(nv, src, unit, c, n);
        }
    }
}

proof fn lemma_deeper_if(nv: Seq<NodeView>, src: Seq<u8>, unit: Seq<char>, i: int, n: nat, flat: bool)
    ensures
        if_score(nv, src, unit, i, n, flat) <= if_score(nv, src, unit, i, n + 1, flat),
    decreases nv.len() - i, 3nat, 0int,
{
    lemma_child_lookups(nv, i);
    if let Some(c) = field_child(nv, i, CONDITION_FIELD@) {
        law_deeper_code_never_costs_less(nv, src, unit, c, n);
    }
    if let Some(b) = field_child(nv, i, BODY_FIELD@) {
        law_deeper_code_never_costs_less(nv, src, unit, b, n + 1);
    }
    lemma_deeper_clauses(nv, src, unit, i, children_of(nv, i).len() as int, n);
}

proof fn lemma_deeper_clauses(
    nv: Seq<NodeView>,
    src: Seq<u8>,
    unit: Seq<char>,
    i: int,
    m: int,
    n: nat,
)
    ensures
        clauses_score(nv, src, unit, i, m, n) <= clauses_score(nv, src, unit, i, m, n + 1),
    decreases nv.len() - i, 1nat, m,
{
    if !(m <= 0 || m > children_of(nv, i).len()) {
        lemma_children_of(nv, i);
        let c = children_of(nv, i)[m - 1];
        lemma_deeper_clauses(nv, src, unit, i, m - 1, n);
        if nv[c].named {
            lemma_deeper_clause(nv, src, unit, c, n);
        }
    }
}

proof fn lemma_deeper_clause(nv: Seq<NodeView>, src: Seq<u8>, unit: Seq<char>, c: int, n: nat)
    ensures
        clause_score(nv, src, unit, c, n) <= clause_score(nv, src, unit, c, n + 1),
    decreases nv.len() - c, 3nat, 0int,
{
    lemma_child_lookups(nv, c);
    if nv[c].kind == ELSE_IF_CLAUSE@ {
        if let Some(x) = field_child(nv, c, CONDITION_FIELD@) {
            law_deeper_code_never_costs_less(nv, src, unit, x, n);
        }
        if let Some(b) = field_child(nv, c, BODY_FIELD@) {
            law_deeper_code_never_costs_less(nv, src, unit, b, n + 1);
        }
    } else if nv[c].kind == ELSE_CLAUSE@ {
        lemma_deeper_else(nv, src, unit, c, n);
    }
}

proof fn lemma_deeper_else(nv: Seq<NodeView>, src: Seq<u8>, unit: Seq<char>, c: int, n: nat)
    ensures
        else_score(nv, src, unit, c, n) <= else_score(nv, src, unit, c, n + 1),
    decreases nv.len() - c, 2nat, 0int,
{
    lemma_child_lookups(nv, c);
    let body = match field_child(nv, c, BODY_FIELD@) {
        Some(b) => Some(b),
        None => first_named_child(nv, c),
    };
    if let Some(b) = body {
        if nv[b].kind == IF_STATEMENT@ {
            lemma_deeper_if(nv, src, unit, b, n, true);
        } else {
            law_deeper_code_never_costs_less(nv, src, unit, b, n + 1);
        }
    }
}

proof fn lemma_deeper_control(
    nv: Seq<NodeView>,
    src: Seq<u8>,
    unit: Seq<char>,
    i: int,
    m: int,
    n: nat,
)
    ensures
        control_score(nv, src, unit, i, m, n) <= control_score(nv, src, unit, i, m, n + 1),
    decreases nv.len() - i, 1nat, m,
{
    if !(m <= 0 || m > children_of(nv, i).len()) {
        lemma_children_of(nv, i);
        let c = children_of(nv, i)[m - 1];
        lemma_deeper_control(nv, src, unit, i, m - 1, n);
        if nv[c].named {
            if field_child(nv, i, CONDITION_FIELD@) == Some(c) {
                law_deeper_code_never_costs_less(nv, src, unit, c, n);
            } else {
                law_deeper_code_never_costs_less(nv, src, unit, c, n + 1);
            }
        }
    }
}

proof fn lemma_deeper_logical(nv: Seq<NodeView>, src: Seq<u8>, unit: Seq<char>, i: int, n: nat)
    ensures
        logical_score(nv, src, unit, i, n) <= logical_score(nv, src, unit, i, n + 1),
    decreases nv.len() - i, 2nat, 0int,
{
    lemma_deeper_operands(nv, src, unit, i, operator_sequence(nv, src, i).1.len() as int, n);
}

proof fn lemma_deeper_operands(
    nv: Seq<NodeView>,
    src: Seq<u8>,
    unit: Seq<char>,
    i: int,
    m: int,
    n: nat,
)
    ensures
        operands_score(nv, src, unit, i, m, n) <= operands_score(nv, src, unit, i, m, n + 1),
    decreases nv.len() - i, 1nat, m,
{
    if !(m <= 0 || m > operator_sequence(nv, src, i).1.len()) {
        lemma_operator_sequence(nv, src, i);
        lemma_deeper_operands(nv, src, unit, i, m - 1, n);
        law_deeper_code_never_costs_less(
            nv,
            src,
            unit,
            operator_sequence(nv, src, i).1[m - 1],
            n,
        );
    }
}

/// What a branch taken flat costs: +1, its condition at the same nesting and
/// its body one level deeper.
pub open spec fn flat_branch_cost(nv: Seq<NodeView>, src: Seq<u8>, unit: Seq<char>, i: int, n: nat) -> nat {
    1 + match field_child(nv, i, CONDITION_FIELD@) {
        Some(c) => score_of(nv, src, unit, c, n),
        None => 0,
    } + match field_child(nv, i, BODY_FIELD@) {
        Some(b) => score_of(nv, src, unit, b, n + 1),
        None => 0,
    }
}

/// The body of an `else`: its body field, or else its first named child.
pub open spec fn else_body(nv: Seq<NodeView>, c: int) -> Option<int> {
    match field_child(nv, c, BODY_FIELD@) {
        Some(b) => Some(b),
        None => first_named_child(nv, c),
    }
}

/// `else if` written as two words costs what `elseif` costs at the same
/// nesting: an `elseif` is a flat branch, and an `else` whose body is an `if`
/// adds nothing itself and takes that `if` as a flat branch (with whatever
/// clauses follow it). Any other `else` is a flat +1 with its body one level
/// deeper, and an `else` with no body costs 1.
pub proof fn law_else_if_costs_what_elseif_costs(
    nv: Seq<NodeView>,
    src: Seq<u8>,
    unit: Seq<char>,
    c: int,
    n: nat,
)
    ensures
        nv[c].kind == ELSE_IF_CLAUSE@ ==> clause_score(nv, src, unit, c, n) == flat_branch_cost(
            nv,
            src,
            unit,
            c,
            n,
        ),
        nv[c].kind == ELSE_CLAUSE@ ==> match else_body(nv, c) {
            Some(b) => if nv[b].kind == IF_STATEMENT@ {
                clause_score(nv, src, unit, c, n) == flat_branch_cost(nv, src, unit, b, n)
                    + clauses_score(nv, src, unit, b, children_of(nv, b).len() as int, n)
            } else {
                clause_score(nv, src, unit, c, n) == 1 + score_of(nv, src, unit, b, n + 1)
            },
            None => clause_score(nv, src, unit, c, n) == 1,
        },
{
    reveal_strlit("else_if_clause");
    reveal_strlit("else_clause");
    assert(ELSE_IF_CLAUSE@ != ELSE_CLAUSE@) by {
        assert(ELSE_IF_CLAUSE@.len() != ELSE_CLAUSE@.len());
    }
}

/// `if` and the control constructs are not function-likes, so they are scored
/// as flow-breakers and never only as a nesting of their contents.
proof fn lemma_flow_breakers_are_not_function_likes(kind: Seq<char>)
    requires
        kind == IF_STATEMENT@ || is_control(kind),
    ensures
        !spec_is_nested_function(kind),
{
    reveal_strlit("if_statement");
    reveal_strlit("conditional_expression");
    reveal_strlit("switch_statement");
    reveal_strlit("match_expression");
    reveal_strlit("for_statement");
    reveal_strlit("foreach_statement");
    reveal_strlit("while_statement");
    reveal_strlit("do_statement");
    reveal_strlit("catch_clause");
    reveal_strlit("anonymous_function");
    reveal_strlit("anonymous_function_creation_expression");
    reveal_strlit("arrow_function");
    reveal_strlit("function_definition");
    assert(kind.len() != crate::kinds::ANONYMOUS_FUNCTION@.len() && kind.len() != crate::kinds::ANONYMOUS_FUNCTION_CREATION@.len()
        && kind.len() != crate::kinds::ARROW_FUNCTION@.len() && kind.len() != crate::kinds::FUNCTION_DEFINITION@.len());
}

/// What the named child at position `q` of a control construct adds at the
/// construct's nesting `n`.
proof fn lemma_control_counts_each_child(
    nv: Seq<NodeView>,
    src: Seq<u8>,
    unit: Seq<char>,
    i: int,
    m: int,
    n: nat,
    q: int,
)
    requires
        0 <= q < m <= children_of(nv, i).len(),
        nv[children_of(nv, i)[q]].named,
    ensures
        control_score(nv, src, unit, i, m, n) >= score_of(
            nv,
            src,
            unit,
            children_of(nv, i)[q],
            if field_child(nv, i, CONDITION_FIELD@) == Some(children_of(nv, i)[q]) {
                n
            } else {
                n + 1
            },
        ),
    decreases m,
{
    if q < m - 1 {
        lemma_control_counts_each_child(nv, src, unit, i, m - 1, n, q);
    }
}

/// A loop, ternary, `switch`, `match` or `catch` nests what it holds: at
/// nesting `n` it costs at least one plus `n`, plus its condition scored at
/// `n` and any other named child (a loop body, the cases of a `switch`, the
/// arms of a `match`) scored one level deeper, at `n + 1`.
pub proof fn law_control_constructs_nest_their_contents(
    nv: Seq<NodeView>,
    src: Seq<u8>,
    unit: Seq<char>,
    i: int,
    n: nat,
)
    requires
        0 <= i < nv.len(),
        is_control(nv[i].kind),
    ensures
        score_of(nv, src, unit, i, n) >= 1 + n,
        forall|q: int|
            0 <= q < children_of(nv, i).len() && nv[#[trigger] children_of(nv, i)[q]].named
                && field_child(nv, i, CONDITION_FIELD@) != Some(children_of(nv, i)[q]) ==> score_of(
                nv,
                src,
                unit,
                i,
                n,
            ) >= 1 + n + score_of(nv, src, unit, children_of(nv, i)[q], n + 1),
        forall|q: int|
            0 <= q < children_of(nv, i).len() && nv[#[trigger] children_of(nv, i)[q]].named
                && field_child(nv, i, CONDITION_FIELD@) == Some(children_of(nv, i)[q]) ==> score_of(
                nv,
                src,
                unit,
                i,
                n,
            ) >= 1 + n + score_of(nv, src, unit, children_of(nv, i)[q], n),
{
    lemma_flow_breakers_are_not_function_likes(nv[i].kind);
    reveal_strlit("if_statement");
    reveal_strlit("conditional_expression");
    reveal_strlit("switch_statement");
    reveal_strlit("match_expression");
    reveal_strlit("for_statement");
    reveal_strlit("foreach_statement");
    reveal_strlit("while_statement");
    reveal_strlit("do_statement");
    reveal_strlit("catch_clause");
    assert(nv[i].kind != IF_STATEMENT@) by {
        assert(nv[i].kind.len() != IF_STATEMENT@.len() || nv[i].kind[0] != IF_STATEMENT@[0]);
    }
    let kids = children_of(nv, i).len() as int;
    assert forall|q: int| 0 <= q < kids && nv[#[trigger] children_of(nv, i)[q]].named implies score_of(
        nv,
        src,
        unit,
        i,
        n,
    ) >= 1 + n + score_of(
        nv,
        src,
        unit,
        children_of(nv, i)[q],
        if field_child(nv, i, CONDITION_FIELD@) == Some(children_of(nv, i)[q]) {
            n
        } else {
            n + 1
        },
    ) by {
        lemma_control_counts_each_child(nv, src, unit, i, kids, n, q);
    }
}

/// An `elseif` or `else` among the children of an `if`.
pub open spec fn is_if_clause(nv: Seq<NodeView>, c: int) -> bool {
    nv[c].named && (nv[c].kind == ELSE_IF_CLAUSE@ || nv[c].kind == ELSE_CLAUSE@)
}

/// The `elseif` and `else` clauses of the `if` at `i`, in source order.
pub open spec fn clauses_of(nv: Seq<NodeView>, i: int) -> Seq<int> {
    children_of(nv, i).filter(|c: int| is_if_clause(nv, c))
}

proof fn lemma_each_clause_costs_one(
    nv: Seq<NodeView>,
    src: Seq<u8>,
    unit: Seq<char>,
    i: int,
    m: int,
    n: nat,
)
    requires
        0 <= m <= children_of(nv, i).len(),
    ensures
        clauses_score(nv, src, unit, i, m, n) >= children_of(nv, i).take(m).filter(
            |c: int| is_if_clause(nv, c),
        ).len(),
    decreases m,
{
    reveal(Seq::filter);
    let pred = |c: int| is_if_clause(nv, c);
    let prefix = children_of(nv, i).take(m);
    if m > 0 {
        lemma_each_clause_costs_one(nv, src, unit, i, m - 1, n);
        assert(prefix.drop_last() =~= children_of(nv, i).take(m - 1));
        let c = children_of(nv, i)[m - 1];
        assert(prefix.last() == c);
        if pred(c) {
            lemma_child_lookups(nv, c);
            assert(clause_score(nv, src, unit, c, n) >= 1);
        }
    } else {
        assert(prefix.len() == 0);
    }
}

/// What the clauses `cs` cost at nesting `n`, each by [`clause_score`].
pub open spec fn clauses_total(nv: Seq<NodeView>, src: Seq<u8>, unit: Seq<char>, cs: Seq<int>, n: nat) -> nat
    decreases cs.len(),
{
    if cs.len() == 0 {
        0
    } else {
        clauses_total(nv, src, unit, cs.drop_last(), n) + clause_score(nv, src, unit, cs.last(), n)
    }
}

proof fn lemma_clauses_add_up(
    nv: Seq<NodeView>,
    src: Seq<u8>,
    unit: Seq<char>,
    i: int,
    m: int,
    n: nat,
)
    requires
        0 <= m <= children_of(nv, i).len(),
    ensures
        clauses_score(nv, src, unit, i, m, n) == clauses_total(
            nv,
            src,
            unit,
            children_of(nv, i).take(m).filter(|c: int| is_if_clause(nv, c)),
            n,
        ),
    decreases m,
{
    reveal(Seq::filter);
    let pred = |c: int| is_if_clause(nv, c);
    let prefix = children_of(nv, i).take(m);
    if m > 0 {
        lemma_clauses_add_up(nv, src, unit, i, m - 1, n);
        assert(prefix.drop_last() =~= children_of(nv, i).take(m - 1));
        let c = children_of(nv, i)[m - 1];
        assert(prefix.last() == c);
        let before = children_of(nv, i).take(m - 1).filter(pred);
        let kept = prefix.filter(pred);
        if pred(c) {
            assert(kept == before.push(c));
            assert(kept.drop_last() =~= before);
            assert(kept.last() == c);
            assert(clauses_total(nv, src, unit, kept, n) == clauses_total(nv, src, unit, before, n)
                + clause_score(nv, src, unit, c, n));
        } else {
            assert(kept == before);
            if nv[c].named {
                assert(clause_score(nv, src, unit, c, n) == 0);
            }
        }
    } else {
        assert(prefix.len() == 0);
    }
}

/// Every `elseif` and `else` of an `if` counts, however long the chain: an
/// `if` at nesting `n` costs one plus `n`, plus its condition at `n` and its
/// body at `n + 1`, plus what each of its clauses costs, and so at least one
/// more for each clause.
pub proof fn law_every_clause_of_an_if_costs_at_least_one(
    nv: Seq<NodeView>,
    src: Seq<u8>,
    unit: Seq<char>,
    i: int,
    n: nat,
)
    requires
        0 <= i < nv.len(),
        nv[i].kind == IF_STATEMENT@,
    ensures
        score_of(nv, src, unit, i, n) >= 1 + n + match field_child(nv, i, CONDITION_FIELD@) {
            Some(c) => score_of(nv, src, unit, c, n),
            None => 0,
        } + match field_child(nv, i, BODY_FIELD@) {
            Some(b) => score_of(nv, src, unit, b, n + 1),
            None => 0,
        } + clauses_of(nv, i).len(),
        score_of(nv, src, unit, i, n) == 1 + n + match field_child(nv, i, CONDITION_FIELD@) {
            Some(c) => score_of(nv, src, unit, c, n),
            None => 0,
        } + match field_child(nv, i, BODY_FIELD@) {
            Some(b) => score_of(nv, src, unit, b, n + 1),
            None => 0,
        } + clauses_total(nv, src, unit, clauses_of(nv, i), n),
{
    lemma_flow_breakers_are_not_function_likes(nv[i].kind);
    let kids = children_of(nv, i).len() as int;
    lemma_each_clause_costs_one(nv, src, unit, i, kids, n);
    lemma_clauses_add_up(nv, src, unit, i, kids, n);
    assert(children_of(nv, i).take(kids) =~= children_of(nv, i));
}

/// A node with no children that breaks no flow, such as a comment, costs
/// nothing: a suppression marker inside a body leaves its score alone.
pub proof fn law_comments_cost_nothing(
    nv: Seq<NodeView>,
    src: Seq<u8>,
    unit: Seq<char>,
    i: int,
    n: nat,
)
    requires
        0 <= i < nv.len(),
        nv[i].kind == crate::kinds::COMMENT@,
        children_of(nv, i).len() == 0,
    ensures
        score_of(nv, src, unit, i, n) == 0,
{
    reveal_strlit("comment");
    reveal_strlit("if_statement");
    reveal_strlit("conditional_expression");
    reveal_strlit("switch_statement");
    reveal_strlit("match_expression");
    reveal_strlit("for_statement");
    reveal_strlit("foreach_statement");
    reveal_strlit("while_statement");
    reveal_strlit("do_statement");
    reveal_strlit("catch_clause");
    reveal_strlit("break_statement");
    reveal_strlit("continue_statement");
    reveal_strlit("goto_statement");
    reveal_strlit("binary_expression");
    reveal_strlit("function_call_expression");
    reveal_strlit("member_call_expression");
    reveal_strlit("scoped_call_expression");
    reveal_strlit("anonymous_function");
    reveal_strlit("anonymous_function_creation_expression");
    reveal_strlit("arrow_function");
    reveal_strlit("function_definition");
    let k = nv[i].kind;
    assert(k.len() == 7);
    assert(k != IF_STATEMENT@ && !is_control(k) && k != BREAK_STATEMENT@ && k
        != CONTINUE_STATEMENT@ && k != GOTO_STATEMENT@ && k != BINARY_EXPRESSION@ && !is_call(k)
        && !spec_is_nested_function(k));
}

} // verus!
