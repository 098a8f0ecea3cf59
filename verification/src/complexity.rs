//! Cognitive complexity scoring, as `SonarSource` defines it.
//!
//! Three rules drive everything here:
//!   1. Shorthand structures that don't break reading flow score nothing (`??`).
//!   2. +1 for each break in the linear flow of the code.
//!   3. +nesting for a flow-breaker that sits inside other flow-breakers.
//!
//! It takes a parsed tree and the source bytes, and returns scores. No
//! filesystem, no config, no reporting.
use vstd::prelude::*;
use vstd::string::*;
use crate::kinds::{
    is_scoring_unit, is_type_declaration, spec_is_scoring_unit, spec_is_type_declaration,
    ATTRIBUTE_LIST, COMMENT,
};
use crate::syntax::{
    children_of, field_child, fits_source, lemma_child_lookups, lemma_children_of,
    lemma_prev_sibling, node_text, parent_of, prev_sibling_of, NodeView, SyntaxTree,
};
use crate::walk::{clamp, score_of, walk, BODY_FIELD, NAME_FIELD};
use crate::text::{
    is_whitespace, str_eq, trim_end, trim_start,
    chars_of, find, find_from, occurs_at, first_line, trim, trim_closers, trim_closers_range, trim_range,
};

verus! {

/// A suppression is only honoured when it carries a reason. A bare marker is
/// reported as [`Suppression::MissingReason`] rather than silently obeyed, so
/// that silencing a finding stays a documented decision rather than a reflex.
#[derive(Debug, Clone, PartialEq, Eq)]
pub enum Suppression {
    NoMarker,
    Reasoned(String),
    MissingReason,
}

/// What a [`Suppression`] says, as mathematical values.
pub enum SuppressionView {
    NoMarker,
    Reasoned(Seq<char>),
    MissingReason,
}

impl View for Suppression {
    type V = SuppressionView;

    open spec fn view(&self) -> SuppressionView {
        match self {
            Suppression::NoMarker => SuppressionView::NoMarker,
            Suppression::Reasoned(reason) => SuppressionView::Reasoned(reason@),
            Suppression::MissingReason => SuppressionView::MissingReason,
        }
    }
}

pub const SUPPRESSION_MARKER: &'static str = "phpcognit-ignore";

/// What a comment says about suppression: nothing without the marker; with it,
/// the reason given after a colon, on the marker's line, without surrounding
/// whitespace or a trailing comment terminator; and a missing reason where there
/// is no colon or nothing follows it.
pub open spec fn spec_parse_suppression_marker(comment: Seq<char>) -> Option<SuppressionView> {
    match find_from(comment, SUPPRESSION_MARKER@, 0) {
        None => None,
        Some(p) => {
            let after = comment.skip(p + SUPPRESSION_MARKER@.len());
            if after.len() == 0 || after[0] != ':' {
                Some(SuppressionView::MissingReason)
            } else {
                let reason = trim(trim_closers(trim(first_line(after.drop_first()))));
                if reason.len() == 0 {
                    Some(SuppressionView::MissingReason)
                } else {
                    Some(SuppressionView::Reasoned(reason))
                }
            }
        }
    }
}

/// Reads a suppression marker out of a comment's text.
pub fn parse_suppression_marker(comment: &str) -> (found: Option<Suppression>)
    ensures
        match found {
            Some(s) => spec_parse_suppression_marker(comment@) == Some(s@),
            None => spec_parse_suppression_marker(comment@) is None,
        },
{
    let cs = chars_of(comment);
    let marker = chars_of(SUPPRESSION_MARKER);
    let p = match find(&cs, &marker) {
        Some(p) => p,
        None => return None,
    };
    let n = cs.len();
    assert(occurs_at(cs@, marker@, p as int) && p + marker@.len() <= n);
    let a = p + marker.len();
    let ghost after = comment@.skip(a as int);
    if a >= cs.len() || cs[a] != ':' {
        return Some(Suppression::MissingReason);
    }
    let start = a + 1;
    let rest = vstd::slice::slice_to_vec(vstd::slice::slice_subrange(cs.as_slice(), start, cs.len()));
    assert(rest@ =~= after.drop_first());
    let newline = vec!['\n'];
    assert(newline@ =~= seq!['\n']);
    let end = match find(&rest, &newline) {
        Some(e) => e,
        None => rest.len(),
    };
    assert(rest@.subrange(0, end as int) =~= first_line(rest@));
    let (lo, hi) = trim_range(&rest, 0, end);
    let hi = trim_closers_range(&rest, lo, hi);
    let (lo, hi) = trim_range(&rest, lo, hi);
    if lo == hi {
        Some(Suppression::MissingReason)
    } else {
        let reason = comment.substring_char(start + lo, start + hi);
        assert(reason@ =~= rest@.subrange(lo as int, hi as int));
        Some(Suppression::Reasoned(String::from_str(reason)))
    }
}

/// One scored function or method.
#[derive(Debug, Clone, PartialEq, Eq)]
pub struct Finding {
    pub class: Option<String>,
    pub name: String,
    pub line: usize,
    pub score: u32,
    pub suppression: Suppression,
}

/// What a [`Finding`] says, as mathematical values.
pub struct FindingView {
    pub class: Option<Seq<char>>,
    pub name: Seq<char>,
    pub line: usize,
    pub score: u32,
    pub suppression: SuppressionView,
}

impl View for Finding {
    type V = FindingView;

    open spec fn view(&self) -> FindingView {
        FindingView {
            class: match self.class {
                Some(c) => Some(c@),
                None => None,
            },
            name: self.name@,
            line: self.line,
            score: self.score,
            suppression: self.suppression@,
        }
    }
}

/// `Class::method`, or the bare name for a free function.
pub open spec fn spec_qualified_name(class: Option<Seq<char>>, name: Seq<char>) -> Seq<char> {
    match class {
        Some(c) => c + seq![':', ':'] + name,
        None => name,
    }
}

impl Finding {
    /// `Class::method`, or the bare name for a free function. This is the
    /// identity a baseline records, so it deliberately excludes the line
    /// number — otherwise every edit above a function would invalidate it.
    pub fn qualified_name(&self) -> (qualified: String)
        ensures
            qualified@ == spec_qualified_name(self@.class, self@.name),
    {
        match &self.class {
            Some(class) => {
                let mut qualified = String::from_str(class.as_str());
                qualified.append("::");
                qualified.append(self.name.as_str());
                proof {
                    reveal_strlit("::");
                }
                assert(qualified@ =~= spec_qualified_name(self@.class, self@.name));
                qualified
            },
            None => self.name.clone(),
        }
    }
}

/// The name reported for a unit whose name cannot be read.
pub const ANONYMOUS_NAME: &'static str = "<anonymous>";

/// The suppression marker in a comment node, if it holds one.
pub open spec fn marker_in(nv: Seq<NodeView>, src: Seq<u8>, c: int) -> Option<SuppressionView> {
    match node_text(nv, src, c) {
        Some(t) => spec_parse_suppression_marker(t),
        None => None,
    }
}

/// The marker found walking back from `c` over a declaration's leading trivia:
/// comments are read, attributes are stepped over, anything else ends the search.
pub open spec fn leading_from(nv: Seq<NodeView>, src: Seq<u8>, c: int) -> Option<SuppressionView>
    decreases c,
{
    if c < 0 || c >= nv.len() {
        None
    } else {
        proof {
            lemma_prev_sibling(nv, c);
        }
        let earlier = match prev_sibling_of(nv, c) {
            Some(s) => leading_from(nv, src, s),
            None => None,
        };
        if nv[c].kind == COMMENT@ {
            match marker_in(nv, src, c) {
                Some(found) => Some(found),
                None => earlier,
            }
        } else if nv[c].kind == ATTRIBUTE_LIST@ {
            earlier
        } else {
            None
        }
    }
}

/// What a backward search from a declaration steps over: a comment that holds
/// no marker, or an attribute list.
pub open spec fn is_plain_trivia(nv: Seq<NodeView>, src: Seq<u8>, c: int) -> bool {
    ||| nv[c].kind == COMMENT@ && marker_in(nv, src, c) is None
    ||| nv[c].kind == ATTRIBUTE_LIST@
}

/// `c` is reached from `x` by stepping back from sibling to sibling, every
/// sibling stepped over on the way being plain trivia.
pub open spec fn reached_over_trivia(nv: Seq<NodeView>, src: Seq<u8>, x: int, c: int) -> bool
    decreases x,
{
    match prev_sibling_of(nv, x) {
        Some(s) => s == c || (0 <= s < x && is_plain_trivia(nv, src, s) && reached_over_trivia(
            nv,
            src,
            s,
            c,
        )),
        None => false,
    }
}

proof fn lemma_marker_reached_over_trivia(
    nv: Seq<NodeView>,
    src: Seq<u8>,
    x: int,
    c: int,
    m: SuppressionView,
)
    requires
        0 <= x < nv.len(),
        nv[c].kind == COMMENT@,
        marker_in(nv, src, c) == Some(m),
        reached_over_trivia(nv, src, x, c),
    ensures
        prev_sibling_of(nv, x) matches Some(s) && leading_from(nv, src, s) == Some(m),
    decreases x,
{
    reveal_strlit("comment");
    reveal_strlit("attribute_list");
    assert(COMMENT@ != ATTRIBUTE_LIST@) by {
        assert(COMMENT@.len() != ATTRIBUTE_LIST@.len());
    }
    lemma_prev_sibling(nv, x);
    let s = prev_sibling_of(nv, x)->0;
    if s != c {
        lemma_marker_reached_over_trivia(nv, src, s, c, m);
    }
}

/// A marker above a declaration is honoured however many plain comments and
/// attribute lists stand between them: a comment without a marker, such as a
/// docblock, never ends the backward search, so the declaration is suppressed
/// by the marker it reaches.
pub proof fn law_a_marker_is_found_over_comments_and_attributes(
    nv: Seq<NodeView>,
    src: Seq<u8>,
    i: int,
    c: int,
    m: SuppressionView,
)
    requires
        0 <= i < nv.len(),
        nv[c].kind == COMMENT@,
        marker_in(nv, src, c) == Some(m),
        reached_over_trivia(nv, src, i, c),
    ensures
        leading_marker(nv, src, i) == Some(m),
        suppression_of(nv, src, i) == m,
{
    lemma_marker_reached_over_trivia(nv, src, i, c, m);
}

/// A marker directly above a declaration, or inside its docblock.
pub open spec fn leading_marker(nv: Seq<NodeView>, src: Seq<u8>, i: int) -> Option<SuppressionView> {
    match prev_sibling_of(nv, i) {
        Some(s) => leading_from(nv, src, s),
        None => None,
    }
}

/// The first marker in a comment starting on `row`, searching `c` and its
/// descendants in source order, but none that starts on a later row.
pub open spec fn on_row(nv: Seq<NodeView>, src: Seq<u8>, c: int, row: int) -> Option<SuppressionView>
    decreases nv.len() - c, 1nat, 0int,
{
    if nv[c].row > row {
        None
    } else if nv[c].kind == COMMENT@ && nv[c].row == row && marker_in(nv, src, c) is Some {
        marker_in(nv, src, c)
    } else {
        first_on_row(nv, src, c, 0, row)
    }
}

/// [`on_row`] over the children of `i` from the `k`-th on: the first found.
pub open spec fn first_on_row(nv: Seq<NodeView>, src: Seq<u8>, i: int, k: int, row: int) -> Option<
    SuppressionView,
>
    decreases nv.len() - i, 0nat, children_of(nv, i).len() - k,
{
    if k < 0 || k >= children_of(nv, i).len() {
        None
    } else {
        proof {
            lemma_children_of(nv, i);
        }
        match on_row(nv, src, children_of(nv, i)[k], row) {
            Some(found) => Some(found),
            None => first_on_row(nv, src, i, k + 1, row),
        }
    }
}

/// A marker on the signature line itself.
pub open spec fn trailing_marker(nv: Seq<NodeView>, src: Seq<u8>, i: int) -> Option<SuppressionView> {
    first_on_row(nv, src, i, 0, nv[i].row as int)
}

/// How a unit is suppressed: by a leading marker, else by one on its signature
/// line, else not at all.
pub open spec fn suppression_of(nv: Seq<NodeView>, src: Seq<u8>, i: int) -> SuppressionView {
    match leading_marker(nv, src, i) {
        Some(s) => s,
        None => match trailing_marker(nv, src, i) {
            Some(s) => s,
            None => SuppressionView::NoMarker,
        },
    }
}

/// A unit's name, or `<anonymous>` where it has none that can be read.
pub open spec fn unit_name(nv: Seq<NodeView>, src: Seq<u8>, c: int) -> Seq<char> {
    match field_child(nv, c, NAME_FIELD@) {
        Some(x) => match node_text(nv, src, x) {
            Some(t) => t,
            None => ANONYMOUS_NAME@,
        },
        None => ANONYMOUS_NAME@,
    }
}

/// A unit's score: its body's, walked from nesting 0.
pub open spec fn unit_score(nv: Seq<NodeView>, src: Seq<u8>, c: int) -> nat {
    match field_child(nv, c, BODY_FIELD@) {
        Some(b) => score_of(nv, src, unit_name(nv, src, c), b, 0),
        None => 0,
    }
}

/// The finding for the unit at `c`, inside the type named `class`.
pub open spec fn unit_finding(nv: Seq<NodeView>, src: Seq<u8>, c: int, class: Option<Seq<char>>) -> FindingView {
    FindingView {
        class: class,
        name: unit_name(nv, src, c),
        line: (nv[c].row + 1) as usize,
        score: clamp(unit_score(nv, src, c) as int),
        suppression: suppression_of(nv, src, c),
    }
}

/// The name of a type declaration, where it can be read.
pub open spec fn declared_name(nv: Seq<NodeView>, src: Seq<u8>, c: int) -> Option<Seq<char>> {
    match field_child(nv, c, NAME_FIELD@) {
        Some(x) => node_text(nv, src, x),
        None => None,
    }
}

/// The findings for every unit below `i`, in source order. Units are not
/// searched for nested units: closures inside them roll up into their score.
pub open spec fn units_below(nv: Seq<NodeView>, src: Seq<u8>, i: int, class: Option<Seq<char>>) -> Seq<
    FindingView,
>
    decreases nv.len() - i, 1nat, 0int,
{
    units_among(nv, src, i, children_of(nv, i).len() as int, class)
}

/// The findings for the units below the first `m` children of `i`.
pub open spec fn units_among(
    nv: Seq<NodeView>,
    src: Seq<u8>,
    i: int,
    m: int,
    class: Option<Seq<char>>,
) -> Seq<FindingView>
    decreases nv.len() - i, 0nat, m,
{
    if m <= 0 || m > children_of(nv, i).len() {
        seq![]
    } else {
        proof {
            lemma_children_of(nv, i);
        }
        let c = children_of(nv, i)[m - 1];
        units_among(nv, src, i, m - 1, class) + if !nv[c].named {
            seq![]
        } else if spec_is_scoring_unit(nv[c].kind) {
            seq![unit_finding(nv, src, c, class)]
        } else if spec_is_type_declaration(nv[c].kind) {
            units_below(
                nv,
                src,
                c,
                match declared_name(nv, src, c) {
                    Some(t) => Some(t),
                    None => class,
                },
            )
        } else {
            units_below(nv, src, c, class)
        }
    }
}

/// Every unit of a parsed file, in source order.
pub open spec fn findings_of(nv: Seq<NodeView>, src: Seq<u8>) -> Seq<FindingView> {
    units_below(nv, src, 0, None)
}

/// Nothing hides the descendant `u` from a search that starts at `a`: every
/// node strictly between them is named and is not itself a unit.
pub open spec fn open_path(nv: Seq<NodeView>, a: int, u: int) -> bool
    decreases u,
{
    let p = parent_of(nv, u);
    if p < 0 || p >= u {
        false
    } else {
        p == a || (a < p && nv[p].named && !spec_is_scoring_unit(nv[p].kind) && open_path(nv, a, p))
    }
}

/// A function or method that the file reports: named, and enclosed by no
/// other unit, whatever statements, namespaces or types stand around it.
pub open spec fn is_outermost_unit(nv: Seq<NodeView>, u: int) -> bool {
    &&& 0 < u < nv.len()
    &&& nv[u].named
    &&& spec_is_scoring_unit(nv[u].kind)
    &&& open_path(nv, 0, u)
}

/// The class a search carries into the child `c`: the name a type declaration
/// gives, where it has one that can be read.
pub open spec fn class_within(nv: Seq<NodeView>, src: Seq<u8>, c: int, class: Option<Seq<char>>) -> Option<
    Seq<char>,
> {
    if spec_is_type_declaration(nv[c].kind) {
        match declared_name(nv, src, c) {
            Some(t) => Some(t),
            None => class,
        }
    } else {
        class
    }
}

/// The findings among the first `m` children of `i` include what each named
/// child among them gives.
proof fn lemma_units_among_include(
    nv: Seq<NodeView>,
    src: Seq<u8>,
    i: int,
    m: int,
    class: Option<Seq<char>>,
    q: int,
)
    requires
        0 <= q < m <= children_of(nv, i).len(),
        nv[children_of(nv, i)[q]].named,
    ensures
        spec_is_scoring_unit(nv[children_of(nv, i)[q]].kind) ==> units_among(
            nv,
            src,
            i,
            m,
            class,
        ).contains(unit_finding(nv, src, children_of(nv, i)[q], class)),
        !spec_is_scoring_unit(nv[children_of(nv, i)[q]].kind) ==> forall|f: FindingView|
            units_below(
                nv,
                src,
                children_of(nv, i)[q],
                class_within(nv, src, children_of(nv, i)[q], class),
            ).contains(f) ==> #[trigger] units_among(nv, src, i, m, class).contains(f),
    decreases m,
{
    lemma_children_of(nv, i);
    let whole = units_among(nv, src, i, m, class);
    let prefix = units_among(nv, src, i, m - 1, class);
    let c = children_of(nv, i)[m - 1];
    let tail = if !nv[c].named {
        seq![]
    } else if spec_is_scoring_unit(nv[c].kind) {
        seq![unit_finding(nv, src, c, class)]
    } else if spec_is_type_declaration(nv[c].kind) {
        units_below(
            nv,
            src,
            c,
            match declared_name(nv, src, c) {
                Some(t) => Some(t),
                None => class,
            },
        )
    } else {
        units_below(nv, src, c, class)
    };
    assert(whole == prefix + tail);
    if q < m - 1 {
        lemma_units_among_include(nv, src, i, m - 1, class, q);
        assert forall|f: FindingView| prefix.contains(f) implies whole.contains(f) by {
            let t = choose|t: int| 0 <= t < prefix.len() && prefix[t] == f;
            assert(whole[t] == f);
        }
    } else {
        if spec_is_scoring_unit(nv[c].kind) {
            assert(whole[prefix.len() as int] == unit_finding(nv, src, c, class));
        } else {
            assert(tail == units_below(nv, src, c, class_within(nv, src, c, class)));
            assert forall|f: FindingView| tail.contains(f) implies whole.contains(f) by {
                let t = choose|t: int| 0 <= t < tail.len() && tail[t] == f;
                assert(whole[prefix.len() + t] == f);
            }
        }
    }
}

/// Whatever a search from `x` carrying `cls` reports, a search from `a`
/// carrying `class` reports too.
pub open spec fn search_covers(
    nv: Seq<NodeView>,
    src: Seq<u8>,
    a: int,
    class: Option<Seq<char>>,
    x: int,
    cls: Option<Seq<char>>,
) -> bool {
    forall|f: FindingView|
        #[trigger] units_below(nv, src, x, cls).contains(f) ==> units_below(nv, src, a, class).contains(f)
}

/// Descending from `a` along an open path to the named non-unit `x`, a search
/// that starts at `a` carries some class into `x` and reports everything a
/// search from `x` with that class reports.
proof fn lemma_open_descent(nv: Seq<NodeView>, src: Seq<u8>, a: int, x: int, class: Option<Seq<char>>)
    requires
        0 <= a < x < nv.len(),
        open_path(nv, a, x),
        nv[x].named,
        !spec_is_scoring_unit(nv[x].kind),
    ensures
        exists|cls: Option<Seq<char>>| #[trigger] search_covers(nv, src, a, class, x, cls),
    decreases x,
{
    let p = parent_of(nv, x);
    lemma_children_of(nv, p);
    let q = children_of(nv, p).index_of(x);
    assert(children_of(nv, p)[q] == x);
    let len = children_of(nv, p).len() as int;
    if p == a {
        lemma_units_among_include(nv, src, a, len, class, q);
        assert(units_below(nv, src, a, class) == units_among(nv, src, a, len, class));
        let cls = class_within(nv, src, x, class);
        assert(search_covers(nv, src, a, class, x, cls));
    } else {
        lemma_open_descent(nv, src, a, p, class);
        let cp = choose|cls: Option<Seq<char>>| search_covers(nv, src, a, class, p, cls);
        lemma_units_among_include(nv, src, p, len, cp, q);
        let cls = class_within(nv, src, x, cp);
        assert forall|f: FindingView| #[trigger] units_below(nv, src, x, cls).contains(f) implies units_below(
            nv,
            src,
            a,
            class,
        ).contains(f) by {
            assert(units_among(nv, src, p, len, cp).contains(f));
            assert(units_below(nv, src, p, cp).contains(f));
        }
        assert(search_covers(nv, src, a, class, x, cls));
    }
}

/// An open path from a child continues from its parent.
proof fn lemma_open_path_extends(nv: Seq<NodeView>, i: int, c: int, u: int)
    requires
        0 <= i < c,
        parent_of(nv, c) == i,
        nv[c].named,
        !spec_is_scoring_unit(nv[c].kind),
        open_path(nv, c, u),
    ensures
        open_path(nv, i, u),
    decreases u,
{
    let p = parent_of(nv, u);
    if p != c {
        lemma_open_path_extends(nv, i, c, p);
    } else {
        assert(open_path(nv, i, c));
    }
}

/// Everything a search from `i` reports is the finding of a named unit below
/// `i` that nothing hides from it.
proof fn lemma_units_among_come_from_units(
    nv: Seq<NodeView>,
    src: Seq<u8>,
    i: int,
    m: int,
    class: Option<Seq<char>>,
)
    requires
        0 <= i,
    ensures
        forall|k: int|
            #![trigger units_among(nv, src, i, m, class)[k]]
            0 <= k < units_among(nv, src, i, m, class).len() ==> exists|u: int, cls: Option<Seq<char>>|
                #![trigger unit_finding(nv, src, u, cls)]
                i < u < nv.len() && nv[u].named && spec_is_scoring_unit(nv[u].kind) && open_path(
                    nv,
                    i,
                    u,
                ) && units_among(nv, src, i, m, class)[k] == unit_finding(
                    nv,
                    src,
                    u,
                    cls,
                ),
    decreases nv.len() - i, m,
{
    if !(m <= 0 || m > children_of(nv, i).len()) {
        lemma_children_of(nv, i);
        let whole = units_among(nv, src, i, m, class);
        let prefix = units_among(nv, src, i, m - 1, class);
        let c = children_of(nv, i)[m - 1];
        assert(parent_of(nv, c) == i);
        let cls_c = class_within(nv, src, c, class);
        let tail = if !nv[c].named {
            seq![]
        } else if spec_is_scoring_unit(nv[c].kind) {
            seq![unit_finding(nv, src, c, class)]
        } else {
            units_below(nv, src, c, cls_c)
        };
        assert(whole == prefix + tail);
        lemma_units_among_come_from_units(nv, src, i, m - 1, class);
        if nv[c].named && !spec_is_scoring_unit(nv[c].kind) {
            lemma_units_among_come_from_units(
                nv,
                src,
                c,
                children_of(nv, c).len() as int,
                cls_c,
            );
        }
        assert forall|k: int| #![trigger whole[k]] 0 <= k < whole.len() implies exists|u: int, cls: Option<Seq<char>>|
            #![trigger unit_finding(nv, src, u, cls)]
            i < u < nv.len() && nv[u].named && spec_is_scoring_unit(nv[u].kind) && open_path(
                nv,
                i,
                u,
            ) && whole[k] == unit_finding(nv, src, u, cls) by {
            if k < prefix.len() {
                assert(whole[k] == prefix[k]);
            } else if spec_is_scoring_unit(nv[c].kind) {
                assert(whole[k] == unit_finding(nv, src, c, class));
                assert(open_path(nv, i, c));
            } else {
                let below = units_among(nv, src, c, children_of(nv, c).len() as int, cls_c);
                assert(units_below(nv, src, c, cls_c) == below);
                assert(class_within(nv, src, c, class) == cls_c);
                assert(whole == prefix + below);
                let t = k - prefix.len();
                assert(whole[k] == below[t]);
                let (u, cls) = choose|u: int, cls: Option<Seq<char>>|
                    #![trigger unit_finding(nv, src, u, cls)]
                    c < u < nv.len() && nv[u].named && spec_is_scoring_unit(nv[u].kind)
                        && open_path(nv, c, u) && below[t] == unit_finding(
                        nv,
                        src,
                        u,
                        cls,
                    );
                lemma_open_path_extends(nv, i, c, u);
            }
        }
    }
}

/// Every function and method that no other unit encloses is reported, once
/// found anywhere below the file's root: inside `if` blocks, braced namespaces
/// and types alike. The finding carries its name, line, score and suppression;
/// only its class depends on the types around it.
pub proof fn law_every_outermost_unit_is_reported(nv: Seq<NodeView>, src: Seq<u8>, u: int)
    requires
        is_outermost_unit(nv, u),
    ensures
        exists|k: int, cls: Option<Seq<char>>|
            #![trigger findings_of(nv, src)[k], unit_finding(nv, src, u, cls)]
            0 <= k < findings_of(nv, src).len() && findings_of(nv, src)[k] == unit_finding(
                nv,
                src,
                u,
                cls,
            ),
{
    let p = parent_of(nv, u);
    lemma_children_of(nv, p);
    let q = children_of(nv, p).index_of(u);
    assert(children_of(nv, p)[q] == u);
    let len = children_of(nv, p).len() as int;
    let found = if p == 0 {
        lemma_units_among_include(nv, src, 0, len, None, q);
        unit_finding(nv, src, u, None)
    } else {
        lemma_open_descent(nv, src, 0, p, None);
        let cp = choose|cls: Option<Seq<char>>| search_covers(nv, src, 0, None, p, cls);
        lemma_units_among_include(nv, src, p, len, cp, q);
        assert(units_below(nv, src, p, cp).contains(unit_finding(nv, src, u, cp)));
        unit_finding(nv, src, u, cp)
    };
    assert(findings_of(nv, src).contains(found));
}

/// Every finding of a file is the finding of a function or method that no
/// other unit encloses: nothing else is reported.
pub proof fn law_every_finding_is_an_outermost_unit(nv: Seq<NodeView>, src: Seq<u8>, k: int)
    requires
        0 <= k < findings_of(nv, src).len(),
    ensures
        exists|u: int, cls: Option<Seq<char>>|
            #![trigger is_outermost_unit(nv, u), unit_finding(nv, src, u, cls)]
            is_outermost_unit(nv, u) && findings_of(nv, src)[k] == unit_finding(
                nv,
                src,
                u,
                cls,
            ),
{
    let all = units_among(nv, src, 0, children_of(nv, 0).len() as int, None);
    lemma_units_among_come_from_units(nv, src, 0, children_of(nv, 0).len() as int, None);
    assert(findings_of(nv, src)[k] == all[k]);
    let (u, cls) = choose|u: int, cls: Option<Seq<char>>|
        #![trigger unit_finding(nv, src, u, cls)]
        0 < u < nv.len() && nv[u].named && spec_is_scoring_unit(nv[u].kind) && open_path(nv, 0, u)
            && all[k] == unit_finding(nv, src, u, cls);
    assert(is_outermost_unit(nv, u));
}


pub open spec fn findings_view(findings: Seq<Finding>) -> Seq<FindingView> {
    findings.map_values(|f: Finding| f@)
}

pub open spec fn str_view(s: Option<&str>) -> Option<Seq<char>> {
    match s {
        Some(t) => Some(t@),
        None => None,
    }
}

/// The marker in comment node `c`.
fn comment_marker(tree: &SyntaxTree, src: &[u8], c: usize) -> (found: Option<Suppression>)
    requires
        c < tree@.len(),
        fits_source(tree@, src@.len() as int),
    ensures
        match found {
            Some(s) => marker_in(tree@, src@, c as int) == Some(s@),
            None => marker_in(tree@, src@, c as int) is None,
        },
{
    match tree.text(c, src) {
        Some(t) => parse_suppression_marker(t),
        None => None,
    }
}

/// Walks back over the declaration's leading trivia, so the marker works both
/// directly above the function and inside its docblock. Attributes are stepped
/// over; anything else ends the search.
fn leading_suppression(tree: &SyntaxTree, src: &[u8], i: usize) -> (found: Option<Suppression>)
    requires
        i < tree@.len(),
        fits_source(tree@, src@.len() as int),
    ensures
        match found {
            Some(s) => leading_marker(tree@, src@, i as int) == Some(s@),
            None => leading_marker(tree@, src@, i as int) is None,
        },
{
    let mut sibling = tree.prev_sibling(i);
    proof {
        lemma_prev_sibling(tree@, i as int);
    }
    loop
        invariant
            fits_source(tree@, src@.len() as int),
            sibling matches Some(s) ==> s < tree@.len(),
            leading_marker(tree@, src@, i as int) == match sibling {
                Some(s) => leading_from(tree@, src@, s as int),
                None => None,
            },
        decreases match sibling {
            Some(s) => s + 1,
            None => 0,
        },
    {
        match sibling {
            None => return None,
            Some(current) => {
                proof {
                    lemma_prev_sibling(tree@, current as int);
                }
                let kind = tree.node(current).kind.as_str();
                if str_eq(kind, COMMENT) {
                    if let Some(found) = comment_marker(tree, src, current) {
                        return Some(found);
                    }
                } else if !str_eq(kind, ATTRIBUTE_LIST) {
                    return None;
                }
                sibling = tree.prev_sibling(current);
            },
        }
    }
}

/// Searches `c` and its descendants for a marker in a comment on `row`.
/// Descent stops at the first node starting on a later row.
fn on_row_marker(tree: &SyntaxTree, src: &[u8], c: usize, row: usize) -> (found: Option<Suppression>)
    requires
        c < tree@.len(),
        fits_source(tree@, src@.len() as int),
    ensures
        match found {
            Some(s) => on_row(tree@, src@, c as int, row as int) == Some(s@),
            None => on_row(tree@, src@, c as int, row as int) is None,
        },
    decreases tree@.len() - c, 1nat, 0int,
{
    let node = tree.node(c);
    if node.row > row {
        return None;
    }
    if str_eq(node.kind.as_str(), COMMENT) && node.row == row {
        if let Some(found) = comment_marker(tree, src, c) {
            return Some(found);
        }
    }
    first_marker_on_row(tree, src, c, row)
}

/// [`on_row_marker`] over the children of `i`: the first found.
fn first_marker_on_row(tree: &SyntaxTree, src: &[u8], i: usize, row: usize) -> (found: Option<
    Suppression,
>)
    requires
        i < tree@.len(),
        fits_source(tree@, src@.len() as int),
    ensures
        match found {
            Some(s) => first_on_row(tree@, src@, i as int, 0, row as int) == Some(s@),
            None => first_on_row(tree@, src@, i as int, 0, row as int) is None,
        },
    decreases tree@.len() - i, 0nat, 0int,
{
    let kids = tree.children(i);
    proof {
        lemma_children_of(tree@, i as int);
    }
    let mut k: usize = 0;
    while k < kids.len()
        invariant
            i < tree@.len(),
            fits_source(tree@, src@.len() as int),
            kids@.len() == children_of(tree@, i as int).len(),
            forall|q: int|
                0 <= q < kids@.len() ==> #[trigger] kids@[q] as int == children_of(tree@, i as int)[q],
            forall|q: int|
                0 <= q < kids@.len() ==> i < #[trigger] children_of(tree@, i as int)[q] < tree@.len(),
            k <= kids@.len(),
            first_on_row(tree@, src@, i as int, 0, row as int) == first_on_row(
                tree@,
                src@,
                i as int,
                k as int,
                row as int,
            ),
        decreases kids@.len() - k,
    {
        let c = kids[k];
        assert(c as int == children_of(tree@, i as int)[k as int]);
        if let Some(found) = on_row_marker(tree, src, c, row) {
            return Some(found);
        }
        k = k + 1;
    }
    None
}

/// The signature line itself, which is where `eslint-disable-line` and
/// `phpcs:ignore` have taught people to reach. Descent stops at the first node
/// starting on a later row, so the body is never searched.
fn trailing_suppression(tree: &SyntaxTree, src: &[u8], i: usize) -> (found: Option<Suppression>)
    requires
        i < tree@.len(),
        fits_source(tree@, src@.len() as int),
    ensures
        match found {
            Some(s) => trailing_marker(tree@, src@, i as int) == Some(s@),
            None => trailing_marker(tree@, src@, i as int) is None,
        },
{
    first_marker_on_row(tree, src, i, tree.node(i).row)
}

fn suppression(tree: &SyntaxTree, src: &[u8], i: usize) -> (s: Suppression)
    requires
        i < tree@.len(),
        fits_source(tree@, src@.len() as int),
    ensures
        s@ == suppression_of(tree@, src@, i as int),
{
    match leading_suppression(tree, src, i) {
        Some(s) => s,
        None => match trailing_suppression(tree, src, i) {
            Some(s) => s,
            None => Suppression::NoMarker,
        },
    }
}

fn unit_name_of<'a>(tree: &SyntaxTree, src: &'a [u8], c: usize) -> (name: &'a str)
    requires
        c < tree@.len(),
        fits_source(tree@, src@.len() as int),
    ensures
        name@ == unit_name(tree@, src@, c as int),
{
    proof {
        lemma_child_lookups(tree@, c as int);
    }
    match tree.child_by_field(c, NAME_FIELD) {
        Some(x) => match tree.text(x, src) {
            Some(t) => t,
            None => ANONYMOUS_NAME,
        },
        None => ANONYMOUS_NAME,
    }
}

fn declared_name_of<'a>(tree: &SyntaxTree, src: &'a [u8], c: usize) -> (name: Option<&'a str>)
    requires
        c < tree@.len(),
        fits_source(tree@, src@.len() as int),
    ensures
        str_view(name) == declared_name(tree@, src@, c as int),
{
    proof {
        lemma_child_lookups(tree@, c as int);
    }
    match tree.child_by_field(c, NAME_FIELD) {
        Some(x) => tree.text(x, src),
        None => None,
    }
}

fn score_unit(tree: &SyntaxTree, src: &[u8], c: usize, class: Option<&str>) -> (finding: Finding)
    requires
        c < tree@.len(),
        fits_source(tree@, src@.len() as int),
    ensures
        finding@ == unit_finding(tree@, src@, c as int, str_view(class)),
{
    proof {
        lemma_child_lookups(tree@, c as int);
    }
    let name = unit_name_of(tree, src, c);
    let score = match tree.child_by_field(c, BODY_FIELD) {
        Some(b) => walk(tree, src, name, b, 0),
        None => 0,
    };
    let node = tree.node(c);
    assert(crate::syntax::fits_span(tree@[c as int], src@.len() as int));
    Finding {
        class: match class {
            Some(t) => Some(String::from_str(t)),
            None => None,
        },
        name: String::from_str(name),
        line: node.row + 1,
        score,
        suppression: suppression(tree, src, c),
    }
}

fn collect_units(
    tree: &SyntaxTree,
    src: &[u8],
    i: usize,
    class: Option<&str>,
    findings: &mut Vec<Finding>,
)
    requires
        i < tree@.len(),
        fits_source(tree@, src@.len() as int),
    ensures
        findings_view(final(findings)@) == findings_view(old(findings)@) + units_below(
            tree@,
            src@,
            i as int,
            str_view(class),
        ),
    decreases tree@.len() - i, 1nat, 0int,
{
    let kids = tree.children(i);
    proof {
        lemma_children_of(tree@, i as int);
    }
    let ghost start = findings_view(findings@);
    let mut k: usize = 0;
    while k < kids.len()
        invariant
            i < tree@.len(),
            fits_source(tree@, src@.len() as int),
            kids@.len() == children_of(tree@, i as int).len(),
            forall|q: int|
                0 <= q < kids@.len() ==> #[trigger] kids@[q] as int == children_of(tree@, i as int)[q],
            forall|q: int|
                0 <= q < kids@.len() ==> i < #[trigger] children_of(tree@, i as int)[q] < tree@.len(),
            k <= kids@.len(),
            findings_view(findings@) == start + units_among(
                tree@,
                src@,
                i as int,
                k as int,
                str_view(class),
            ),
        decreases kids@.len() - k,
    {
        let c = kids[k];
        assert(c as int == children_of(tree@, i as int)[k as int]);
        let ghost before = findings_view(findings@);
        let node = tree.node(c);
        if node.named {
            let kind = node.kind.as_str();
            if is_scoring_unit(kind) {
                let finding = score_unit(tree, src, c, class);
                findings.push(finding);
                assert(findings_view(findings@) =~= before + seq![finding@]);
            } else if is_type_declaration(kind) {
                let enclosing = match declared_name_of(tree, src, c) {
                    Some(t) => Some(t),
                    None => class,
                };
                collect_units(tree, src, c, enclosing, findings);
            } else {
                collect_units(tree, src, c, class, findings);
            }
        } else {
            assert(findings_view(findings@) =~= before + seq![]);
        }
        assert(findings_view(findings@) =~= start + units_among(
            tree@,
            src@,
            i as int,
            k + 1,
            str_view(class),
        ));
        k = k + 1;
    }
}

/// Scores every function and method of a parsed file, in source order.
pub fn analyze(tree: &SyntaxTree, src: &[u8]) -> (findings: Vec<Finding>)
    requires
        fits_source(tree@, src@.len() as int),
    ensures
        findings_view(findings@) == findings_of(tree@, src@),
{
    let mut findings: Vec<Finding> = Vec::new();
    let n = tree.len();
    assert(0 < n);
    collect_units(tree, src, 0, None, &mut findings);
    assert(findings_view(findings@) =~= findings_of(tree@, src@));
    findings
}

/// The same method name in two different classes gives two different
/// identities, and a free function never shares one with a method.
pub proof fn law_qualified_names_keep_classes_apart(
    class: Seq<char>,
    other: Option<Seq<char>>,
    name: Seq<char>,
)
    requires
        other != Some(class),
    ensures
        spec_qualified_name(Some(class), name) != spec_qualified_name(other, name),
{
    let q = spec_qualified_name(Some(class), name);
    assert(seq![':', ':'].len() == 2);
    match other {
        Some(c) => {
            let r = spec_qualified_name(other, name);
            let colons = seq![':', ':'];
            assert(q == class + colons + name);
            assert(r == c + colons + name);
            assert(q.len() == class.len() + 2 + name.len());
            assert(r.len() == c.len() + 2 + name.len());
            if q == r {
                assert(c.len() == class.len());
                assert(class =~= q.take(class.len() as int));
                assert(c =~= r.take(c.len() as int));
            }
        },
        None => {
            assert(q.len() > name.len());
        },
    }
}

proof fn lemma_trim_start(s: Seq<char>)
    ensures
        trim_start(s).len() > 0 ==> !is_whitespace(trim_start(s)[0]),
    decreases s.len(),
{
    if s.len() > 0 && is_whitespace(s[0]) {
        lemma_trim_start(s.drop_first());
    }
}

proof fn lemma_trim_end(s: Seq<char>)
    ensures
        trim_end(s) =~= s.take(trim_end(s).len() as int),
        trim_end(s).len() <= s.len(),
        trim_end(s).len() > 0 ==> !is_whitespace(trim_end(s).last()),
    decreases s.len(),
{
    if s.len() > 0 && is_whitespace(s.last()) {
        lemma_trim_end(s.drop_last());
    }
}

/// A suppression is honoured only with a reason: a reason is never empty and
/// never begins or ends with whitespace.
pub proof fn law_a_reason_is_never_blank(comment: Seq<char>)
    ensures
        spec_parse_suppression_marker(comment) matches Some(SuppressionView::Reasoned(reason))
            ==> reason.len() > 0 && !is_whitespace(reason[0]) && !is_whitespace(reason.last()),
{
    if let Some(p) = find_from(comment, SUPPRESSION_MARKER@, 0) {
        let after = comment.skip(p + SUPPRESSION_MARKER@.len());
        if after.len() > 0 && after[0] == ':' {
            let inner = trim_closers(trim(first_line(after.drop_first())));
            lemma_trim_start(inner);
            lemma_trim_end(trim_start(inner));
            let reason = trim(inner);
            if reason.len() > 0 {
                assert(reason[0] == trim_start(inner)[0]);
            }
        }
    }
}

} // verus!
