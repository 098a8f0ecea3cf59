//! The library's own cases: the laws on concrete values, the edge cases of each
//! rule, and each error path.

use phpcognit::baseline::{normalize_path, relative_to, BaselineEntry, FORMAT_VERSION};
use phpcognit::complexity::{parse_suppression_marker, Suppression};
use phpcognit::gate;
use phpcognit::gate::ScanVerdict;
use phpcognit::kinds;
use phpcognit::syntax::{SyntaxNode, SyntaxTree};
use phpcognit::text::{decode, parse_decimal, str_eq};
use phpcognit::walk::count_runs;
use phpcognit::walk::LogicalOperator::{And, Or, Xor};
use phpcognit::{analyze_nodes, Baseline, Finding};

fn score(body: &str) -> u32 {
    let source = format!("<?php\nfunction target() {{\n{body}\n}}\n");
    let mut parser = phpcognit::parser().expect("PHP grammar should load");
    phpcognit::analyze_source(&mut parser, &source)
        .into_iter()
        .find(|finding| finding.name == "target")
        .unwrap_or_else(|| panic!("no finding produced for:\n{source}"))
        .score
}

fn analyze(source: &str) -> Vec<Finding> {
    let mut parser = phpcognit::parser().expect("PHP grammar should load");
    phpcognit::analyze_source(&mut parser, source)
}

fn node(kind: &str, field: Option<&str>, depth: usize, start: usize, end: usize) -> SyntaxNode {
    SyntaxNode {
        kind: kind.to_string(),
        field: field.map(str::to_string),
        depth,
        named: true,
        row: 0,
        start,
        end,
    }
}

/// `function f(){if(1){}}`, written out node by node.
const HAND_SOURCE: &str = "function f(){if(1){}}";

fn hand_nodes() -> Vec<SyntaxNode> {
    vec![
        node("program", None, 0, 0, 21),
        node("function_definition", None, 1, 0, 21),
        node("name", Some("name"), 2, 9, 10),
        node("compound_statement", Some("body"), 2, 12, 21),
        node("if_statement", None, 3, 13, 20),
        node("integer", Some("condition"), 4, 16, 17),
        node("compound_statement", Some("body"), 4, 18, 20),
    ]
}

fn finding(class: Option<&str>, name: &str, score: u32) -> Finding {
    Finding {
        class: class.map(str::to_string),
        name: name.to_string(),
        line: 1,
        score,
        suppression: Suppression::NoMarker,
    }
}

#[test]
fn runs_of_like_operators_cost_one_each() {
    assert_eq!(count_runs(&[]), 0);
    assert_eq!(count_runs(&[And, And, And, And]), 1);
    assert_eq!(count_runs(&[And, Or]), 2);
    assert_eq!(count_runs(&[And, And, Or, Or, And]), 3);
    assert_eq!(count_runs(&[Xor, Or, Xor]), 3);
}

#[test]
fn keyword_operators_are_case_insensitive_and_xor_is_its_own_run() {
    assert_eq!(score("if ($a AND $b Or $c) { echo 1; }"), 3);
    assert_eq!(score("if ($a xor $b and $c) { echo 1; }"), 3);
    assert_eq!(score("if ($a || $b or $c) { echo 1; }"), 2);
}

#[test]
fn a_ternary_and_loops_pay_their_nesting() {
    assert_eq!(score("while ($a) { $x = $b ? 1 : 2; }"), 3);
    assert_eq!(score("do { for ($i = 0; $i < 3; $i++) { echo 1; } } while ($a);"), 3);
}

#[test]
fn self_and_static_calls_count_as_recursion() {
    assert_eq!(score("return self::target();"), 1);
    assert_eq!(score("return static::target();"), 1);
    assert_eq!(score("return self::other();"), 0);
}

#[test]
fn only_literal_levels_above_one_cost() {
    assert_eq!(score("while ($a) { break 1; }"), 1);
    assert_eq!(score("while ($a) { continue 2; }"), 2);
    assert_eq!(score("while ($a) { break $n; }"), 1);
}

#[test]
fn units_are_qualified_by_every_kind_of_type() {
    let findings = analyze(
        "<?php\ninterface I { public function a(); }\ntrait T { public function b() {} }\nenum E { public function c() {} }\nfunction d() {}\n",
    );
    let names: Vec<String> = findings.iter().map(Finding::qualified_name).collect();
    assert_eq!(names, vec!["I::a", "T::b", "E::c", "d"]);
    assert_eq!(findings[0].line, 2);
    assert_eq!(findings[3].line, 5);
}

#[test]
fn a_closure_is_not_a_unit_of_its_own() {
    let findings = analyze("<?php\nfunction outer() { $f = function () { if ($a) {} }; }\n");
    assert_eq!(findings.len(), 1);
    assert_eq!(findings[0].name, "outer");
    assert_eq!(findings[0].score, 2);
}

#[test]
fn a_marker_on_the_signature_line_suppresses() {
    let findings = analyze(
        "<?php\nfunction target($a) { // phpcognit-ignore: generated table\n    if ($a) { echo 1; }\n}\n",
    );
    assert_eq!(
        findings[0].suppression,
        Suppression::Reasoned("generated table".into())
    );
}

#[test]
fn a_marker_in_the_body_is_not_the_signature_line() {
    let findings = analyze(
        "<?php\nfunction target($a) {\n    // phpcognit-ignore: too late\n    if ($a) { echo 1; }\n}\n",
    );
    assert_eq!(findings[0].suppression, Suppression::NoMarker);
    assert_eq!(findings[0].score, 1);
}

#[test]
fn marker_parsing_edge_cases() {
    assert_eq!(parse_suppression_marker("// nothing to see"), None);
    assert_eq!(
        parse_suppression_marker("// phpcognit-ignore"),
        Some(Suppression::MissingReason)
    );
    assert_eq!(
        parse_suppression_marker("// phpcognit-ignorefoo"),
        Some(Suppression::MissingReason)
    );
    assert_eq!(
        parse_suppression_marker("// phpcognit-ignore:\u{a0} spaced \u{3000}"),
        Some(Suppression::Reasoned("spaced".into()))
    );
    assert_eq!(
        parse_suppression_marker("/* phpcognit-ignore: first line\n * second line */"),
        Some(Suppression::Reasoned("first line".into()))
    );
    assert_eq!(
        parse_suppression_marker("/* phpcognit-ignore: why*/*/"),
        Some(Suppression::Reasoned("why".into()))
    );
    assert_eq!(
        parse_suppression_marker("/* phpcognit-ignore: why */ */"),
        Some(Suppression::Reasoned("why */".into()))
    );
    assert_eq!(
        parse_suppression_marker("/* phpcognit-ignore: */"),
        Some(Suppression::MissingReason)
    );
    assert_eq!(
        parse_suppression_marker("// phpcognit-ignore: a\r\nb"),
        Some(Suppression::Reasoned("a".into()))
    );
}

#[test]
fn kind_predicates() {
    assert!(kinds::is_scoring_unit(kinds::FUNCTION_DEFINITION));
    assert!(kinds::is_scoring_unit(kinds::METHOD_DECLARATION));
    assert!(!kinds::is_scoring_unit(kinds::ARROW_FUNCTION));
    assert!(kinds::is_type_declaration(kinds::ENUM_DECLARATION));
    assert!(kinds::is_type_declaration(kinds::TRAIT_DECLARATION));
    assert!(!kinds::is_type_declaration(kinds::FUNCTION_DEFINITION));
    assert!(kinds::is_nested_function(kinds::ANONYMOUS_FUNCTION_CREATION));
    assert!(kinds::is_nested_function(kinds::FUNCTION_DEFINITION));
    assert!(!kinds::is_nested_function(kinds::METHOD_DECLARATION));
}

#[test]
fn qualified_names() {
    assert_eq!(finding(Some("A"), "b", 0).qualified_name(), "A::b");
    assert_eq!(finding(None, "b", 0).qualified_name(), "b");
    assert_ne!(
        finding(Some("First"), "process", 0).qualified_name(),
        finding(Some("Second"), "process", 0).qualified_name()
    );
}

#[test]
fn decimal_parsing_follows_u32_from_str() {
    assert_eq!(parse_decimal("2"), Some(2));
    assert_eq!(parse_decimal("+3"), Some(3));
    assert_eq!(parse_decimal("007"), Some(7));
    assert_eq!(parse_decimal("4294967295"), Some(u32::MAX));
    assert_eq!(parse_decimal("4294967296"), None);
    assert_eq!(parse_decimal(""), None);
    assert_eq!(parse_decimal("+"), None);
    assert_eq!(parse_decimal("-1"), None);
    assert_eq!(parse_decimal("0x2"), None);
    assert_eq!(parse_decimal("1_0"), None);
}

#[test]
fn text_helpers() {
    assert!(str_eq("ab", "ab"));
    assert!(!str_eq("ab", "abc"));
    assert!(!str_eq("é", "e"));
    assert_eq!(decode(b"abc"), Some("abc"));
    assert_eq!(decode(&[0x66, 0xff]), None);
}

#[test]
fn a_tree_is_built_from_a_preorder_listing() {
    assert!(SyntaxTree::from_nodes(Vec::new()).is_none());
    assert!(SyntaxTree::from_nodes(vec![node("program", None, 1, 0, 0)]).is_none());
    assert!(SyntaxTree::from_nodes(vec![
        node("program", None, 0, 0, 0),
        node("x", None, 2, 0, 0)
    ])
    .is_none());
    assert!(SyntaxTree::from_nodes(vec![
        node("program", None, 0, 0, 0),
        node("x", None, 0, 0, 0)
    ])
    .is_none());

    let tree = SyntaxTree::from_nodes(hand_nodes()).expect("a preorder listing");
    assert_eq!(tree.len(), 7);
    assert_eq!(tree.children(0), &vec![1]);
    assert_eq!(tree.children(1), &vec![2, 3]);
    assert_eq!(tree.children(4), &vec![5, 6]);
    assert_eq!(tree.prev_sibling(3), Some(2));
    assert_eq!(tree.prev_sibling(2), None);
    assert_eq!(tree.prev_sibling(0), None);
    assert_eq!(tree.child_by_field(4, "body"), Some(6));
    assert_eq!(tree.child_by_field(4, "left"), None);
    assert_eq!(tree.first_named_child(1), Some(2));
    assert_eq!(tree.text(2, HAND_SOURCE.as_bytes()), Some("f"));
    assert!(tree.fits_source(21));
    assert!(!tree.fits_source(20));
}

#[test]
fn hand_written_nodes_are_scored() {
    let findings = analyze_nodes(hand_nodes(), HAND_SOURCE);
    assert_eq!(findings, vec![finding(None, "f", 1)]);

    let tree = SyntaxTree::from_nodes(hand_nodes()).expect("a preorder listing");
    assert_eq!(phpcognit::analyze(&tree, HAND_SOURCE.as_bytes()), vec![finding(None, "f", 1)]);
}

#[test]
fn nodes_that_do_not_describe_the_source_give_no_findings() {
    assert!(analyze_nodes(hand_nodes(), "function f(){}").is_empty());
    let mut broken = hand_nodes();
    broken[4].depth = 5;
    assert!(analyze_nodes(broken, HAND_SOURCE).is_empty());
}

#[test]
fn an_unreadable_name_is_reported_as_anonymous() {
    // The name node covers only the first byte of a two-byte character.
    let source = "function \u{e9}(){if(1){}}";
    let findings = analyze_nodes(hand_nodes(), source);
    assert_eq!(findings[0].name, "<anonymous>");
}

#[test]
fn an_empty_baseline_accepts_nothing() {
    let baseline = Baseline::default();
    assert!(baseline.is_empty());
    assert_eq!(baseline.len(), 0);
    assert_eq!(baseline.version(), FORMAT_VERSION);
    assert!(baseline.is_regression("a.php", &finding(None, "f", 0)));
}

#[test]
fn a_baseline_counts_each_function_once_and_keeps_the_highest_score() {
    let baseline = Baseline::from_findings(&[
        ("a.php".to_string(), finding(None, "f", 5)),
        ("a.php".to_string(), finding(None, "f", 2)),
        ("a.php".to_string(), finding(Some("C"), "f", 9)),
    ]);
    assert_eq!(baseline.len(), 2);
    assert!(!baseline.is_empty());
    assert!(!baseline.is_regression("a.php", &finding(None, "f", 5)));
    assert!(!baseline.is_regression("a.php", &finding(None, "f", 2)));
    assert!(baseline.is_regression("a.php", &finding(None, "f", 6)));
    assert!(!baseline.is_regression("a.php", &finding(Some("C"), "f", 9)));
    assert!(baseline.is_regression("b.php", &finding(Some("C"), "f", 0)));
}

#[test]
fn every_recorded_finding_is_accepted_when_a_function_repeats() {
    let findings = [
        ("a.php".to_string(), finding(None, "g", 9)),
        ("a.php".to_string(), finding(None, "g", 5)),
    ];
    let baseline = Baseline::from_findings(&findings);
    assert_eq!(baseline.len(), 1);
    for (path, recorded) in &findings {
        assert!(!baseline.is_regression(path, recorded));
    }
    assert!(baseline.is_regression("a.php", &finding(None, "g", 10)));
}

#[test]
fn baseline_paths_use_forward_slashes() {
    let baseline = Baseline::from_findings(&[("src\\A.php".to_string(), finding(None, "f", 4))]);
    assert_eq!(baseline.entries()[0].path, "src/A.php");
    assert!(!baseline.is_regression("src/A.php", &finding(None, "f", 4)));
    assert!(!baseline.is_regression("src\\A.php", &finding(None, "f", 4)));
}

#[test]
fn a_baseline_read_back_keeps_its_decisions() {
    let baseline = Baseline::from_findings(&[
        ("a.php".to_string(), finding(None, "f", 5)),
        ("b.php".to_string(), finding(Some("C"), "g", 1)),
    ]);
    let reloaded = Baseline::from_parts(baseline.version(), baseline.entries().clone())
        .expect("the current version");
    assert_eq!(reloaded.len(), baseline.len());
    assert!(!reloaded.is_regression("a.php", &finding(None, "f", 5)));
    assert!(reloaded.is_regression("b.php", &finding(Some("C"), "g", 2)));
}

#[test]
fn an_unknown_baseline_version_is_refused() {
    let entry = BaselineEntry {
        path: "a.php".into(),
        name: "f".into(),
        score: 1,
    };
    assert_eq!(Baseline::from_parts(2, vec![entry.clone()]).err(), Some(2));
    let merged = Baseline::from_parts(1, vec![entry.clone(), BaselineEntry { score: 7, ..entry }])
        .expect("the current version");
    assert_eq!(merged.len(), 1);
    assert!(!merged.is_regression("a.php", &finding(None, "f", 7)));
}

fn marked(score: u32, suppression: Suppression) -> Finding {
    Finding {
        suppression,
        ..finding(Some("C"), "f", score)
    }
}

#[test]
fn the_gate_reports_what_is_over_the_threshold_and_not_accepted() {
    assert!(gate::over_threshold(&marked(16, Suppression::NoMarker), 15));
    assert!(!gate::over_threshold(&marked(15, Suppression::NoMarker), 15));
    assert!(!gate::over_threshold(&marked(99, Suppression::Reasoned("why".into())), 15));
    assert!(gate::over_threshold(&marked(99, Suppression::MissingReason), 15));

    assert!(gate::needs_reason_warning(&marked(16, Suppression::MissingReason), 15));
    assert!(!gate::needs_reason_warning(&marked(15, Suppression::MissingReason), 15));
    assert!(!gate::needs_reason_warning(&marked(16, Suppression::NoMarker), 15));

    let baseline = Baseline::from_findings(&[("a.php".to_string(), marked(20, Suppression::NoMarker))]);
    assert!(!gate::is_reported(Some(&baseline), "a.php", &marked(20, Suppression::NoMarker), 15));
    assert!(gate::is_reported(Some(&baseline), "a.php", &marked(21, Suppression::NoMarker), 15));
    assert!(gate::is_reported(None, "a.php", &marked(20, Suppression::NoMarker), 15));

    let findings = vec![
        ("a.php".to_string(), marked(20, Suppression::NoMarker)),
        ("b.php".to_string(), marked(20, Suppression::NoMarker)),
        ("c.php".to_string(), marked(3, Suppression::NoMarker)),
        ("d.php".to_string(), marked(40, Suppression::Reasoned("ok".into()))),
    ];
    assert_eq!(gate::count_breaches(&findings, None, 15), 2);
    assert_eq!(gate::count_breaches(&findings, Some(&baseline), 15), 1);
    assert_eq!(gate::count_breaches(&findings, Some(&baseline), 50), 0);
}

const UNIX: &[char] = &['/'];
const WINDOWS: &[char] = &['/', '\\'];

#[test]
fn paths_are_made_relative_to_the_working_directory() {
    let cwd = Some("/home/dev/project");
    assert_eq!(relative_to("/home/dev/project/src/a.php", cwd, UNIX), "src/a.php");
    assert_eq!(relative_to("/home/dev/project/src/a.php", Some("/home/dev/project/"), UNIX), "src/a.php");
    assert_eq!(relative_to("/home/dev/project//src/a.php", cwd, UNIX), "src/a.php");
    assert_eq!(relative_to("/home/dev/project", cwd, UNIX), "");
    assert_eq!(relative_to("/etc/a.php", Some("/"), UNIX), "etc/a.php");
}

#[test]
fn stripping_goes_by_components_as_std_path_does() {
    assert_eq!(relative_to("/w/./x", Some("/w"), UNIX), "x");
    assert_eq!(relative_to("/w/x/./y/", Some("/w"), UNIX), "x/./y");
    assert_eq!(relative_to("/w/x/.", Some("/w/."), UNIX), "x");
    assert_eq!(relative_to("/./w/x", Some("/w"), UNIX), "x");
    assert_eq!(relative_to("./src/a.php", Some("."), UNIX), "src/a.php");
    assert_eq!(relative_to("src/", Some(""), UNIX), "src");
    assert_eq!(relative_to("/w/x", Some("/w/x/y"), UNIX), "/w/x");
}

#[test]
fn windows_separators_are_honoured_where_the_platform_has_them() {
    assert_eq!(relative_to("C:\\proj\\src\\a.php", Some("C:\\proj"), WINDOWS), "src\\a.php");
    assert_eq!(relative_to("C:\\proj\\src\\a.php", Some("C:\\proj"), UNIX), "C:\\proj\\src\\a.php");
    assert_eq!(normalize_path("C:\\proj\\src\\a.php", Some("C:\\proj"), WINDOWS), "src/a.php");
}

#[test]
fn paths_outside_the_working_directory_are_left_alone() {
    let cwd = Some("/home/dev/project");
    assert_eq!(relative_to("/home/dev/projects/a.php", cwd, UNIX), "/home/dev/projects/a.php");
    assert_eq!(relative_to("src/a.php", cwd, UNIX), "src/a.php");
    assert_eq!(relative_to("/home/dev/project/a.php", None, UNIX), "/home/dev/project/a.php");
    assert_eq!(relative_to("/a.php", Some(""), UNIX), "/a.php");
}

#[test]
fn a_normalized_path_is_relative_with_forward_slashes() {
    assert_eq!(normalize_path("/work/src\\A.php", Some("/work"), UNIX), "src/A.php");
    assert_eq!(normalize_path("lib\\B.php", None, UNIX), "lib/B.php");
    let once = normalize_path("a\\b\\c.php", None, UNIX);
    assert!(!once.contains('\\'));
    assert_eq!(normalize_path(&once, None, UNIX), once);
}

#[test]
fn a_scan_that_read_nothing_is_refused() {
    assert_eq!(gate::scan_verdict(3, 0), ScanVerdict::Proceed);
    assert_eq!(gate::scan_verdict(0, 0), ScanVerdict::NoFiles);
    assert_eq!(gate::scan_verdict(0, 1), ScanVerdict::Unreadable);
    assert_eq!(gate::scan_verdict(5, 2), ScanVerdict::Unreadable);
}

#[test]
fn deeper_code_never_costs_less() {
    assert_eq!(score("if ($a) { echo 1; }"), 1);
    assert_eq!(score("while ($x) { if ($a) { echo 1; } }"), 3);
    assert_eq!(score("while ($x) { while ($y) { if ($a) { echo 1; } } }"), 6);
    assert_eq!(score("$f = function () { return $a && $b; };"), 1);
}

#[test]
fn findings_are_ranked_worst_first_keeping_order_among_equals() {
    assert_eq!(gate::worst_first(&[3, 9, 3, 12, 0]), vec![3, 1, 0, 2, 4]);
    assert_eq!(gate::worst_first(&[]), Vec::<usize>::new());
    assert_eq!(gate::worst_first(&[5, 5, 5]), vec![0, 1, 2]);
}
