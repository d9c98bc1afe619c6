use code_lint::engine::analyze;
use code_lint::finding::{aggregate, AnalysisResult, Finding, Severity, SourceSpan};
use code_lint::rules::{DuplicateRuleError, Registry, Rule, RuleKind};
use code_lint::text::{compare_text, contains_ignore_case};
use code_lint::tree::{InvalidTreeError, Node, NodeKind, SyntaxTree};
use std::cmp::Ordering;

fn span(start: usize, end: usize, line: usize, column: usize) -> SourceSpan {
    SourceSpan { start, end, line, column }
}

fn node(kind: NodeKind, depth: usize, sp: SourceSpan, name: &str) -> Node {
    Node::new(kind, depth, sp, name)
}

fn rule(id: &str, kind: RuleKind) -> Rule {
    Rule { id: id.to_string(), severity: Severity::Warning, kind }
}

fn all_rules() -> Vec<Rule> {
    vec![
        rule("unsafe-global-state", RuleKind::UnsafeGlobalState),
        rule("hardcoded-secret", RuleKind::HardcodedSecret),
        rule("unchecked-division", RuleKind::UncheckedDivision),
        rule("unhandled-parse", RuleKind::UnhandledParse),
        rule("panic-control-flow", RuleKind::PanicControlFlow),
        rule("unchecked-index", RuleKind::UncheckedIndex),
    ]
}

fn patterns() -> Vec<String> {
    vec!["password".to_string(), "secret".to_string(), "token".to_string(), "api_key".to_string()]
}

fn registry() -> Registry {
    Registry::build(all_rules(), patterns()).unwrap()
}

fn run(nodes: Vec<Node>) -> AnalysisResult {
    analyze(&SyntaxTree { source_len: 1000, nodes }, &registry()).unwrap()
}

fn count(res: &AnalysisResult, id: &str) -> usize {
    res.findings.iter().filter(|f| f.rule_id == id).count()
}

#[test]
fn static_mut_flagged_at_declaration_and_unsafe_access() {
    let mut users = node(NodeKind::Static, 0, span(10, 40, 5, 1), "USERS");
    users.mutable = true;
    let nodes = vec![
        users,
        node(NodeKind::Function, 0, span(50, 400, 37, 1), "process_user"),
        node(NodeKind::Read, 1, span(60, 65, 38, 5), "USERS"),
        node(NodeKind::UnsafeBlock, 1, span(100, 200, 52, 5), ""),
        node(NodeKind::Read, 2, span(120, 125, 54, 13), "USERS"),
        node(NodeKind::Read, 1, span(210, 215, 57, 5), "USERS"),
    ];
    let res = run(nodes);
    assert_eq!(count(&res, "unsafe-global-state"), 2);
    let spans: Vec<SourceSpan> =
        res.findings.iter().filter(|f| f.rule_id == "unsafe-global-state").map(|f| f.span).collect();
    assert_eq!(spans, vec![span(10, 40, 5, 1), span(120, 125, 54, 13)]);
    assert_eq!(res.findings[0].message, "unsafe global mutable state");
    assert_eq!(res.findings[0].severity, Severity::Warning);
}

#[test]
fn admin_password_is_a_hardcoded_secret() {
    let mut pw = node(NodeKind::Static, 0, span(41, 80, 6, 1), "ADMIN_PASSWORD");
    pw.literal = true;
    let res = run(vec![pw]);
    assert_eq!(res.total, 1);
    assert_eq!(count(&res, "hardcoded-secret"), 1);
    assert_eq!(res.findings[0].message, "hardcoded secret");
    assert_eq!(res.findings[0].span, span(41, 80, 6, 1));
}

#[test]
fn secret_patterns_ignore_case_and_need_a_literal() {
    let mut tok = node(NodeKind::Static, 0, span(0, 5, 1, 1), "github_Token");
    tok.literal = true;
    let mut plain = node(NodeKind::Static, 0, span(6, 9, 2, 1), "GREETING");
    plain.literal = true;
    let computed = node(NodeKind::Static, 0, span(10, 19, 3, 1), "API_KEY");
    let res = run(vec![tok, plain, computed]);
    assert_eq!(count(&res, "hardcoded-secret"), 1);
    assert_eq!(res.findings[0].span, span(0, 5, 1, 1));
}

#[test]
fn unguarded_division_is_flagged() {
    let nodes = vec![
        node(NodeKind::Function, 0, span(0, 50, 67, 1), "divide_numbers"),
        node(NodeKind::Division, 1, span(40, 45, 68, 5), "b"),
    ];
    let res = run(nodes);
    assert_eq!(res.total, 1);
    assert_eq!(res.findings[0].rule_id, "unchecked-division");
    assert_eq!(res.findings[0].message, "unchecked division");
}

#[test]
fn zero_guard_silences_division() {
    let nodes = vec![
        node(NodeKind::Function, 0, span(0, 80, 67, 1), "divide_numbers"),
        node(NodeKind::ZeroGuard, 1, span(40, 60, 68, 5), "b"),
        node(NodeKind::Division, 1, span(70, 75, 69, 5), "b"),
    ];
    let res = run(nodes);
    assert_eq!(res.total, 0);
}

#[test]
fn guard_on_other_binding_or_scope_does_not_count() {
    let nodes = vec![
        node(NodeKind::Function, 0, span(0, 80, 1, 1), "f"),
        node(NodeKind::Block, 1, span(5, 30, 2, 5), ""),
        node(NodeKind::ZeroGuard, 2, span(6, 20, 3, 9), "b"),
        node(NodeKind::ZeroGuard, 1, span(31, 40, 5, 5), "c"),
        node(NodeKind::Division, 1, span(70, 75, 6, 5), "b"),
    ];
    let res = run(nodes);
    assert_eq!(count(&res, "unchecked-division"), 1);
}

#[test]
fn parse_unwrap_is_flagged() {
    let mut call = node(NodeKind::MethodCall, 1, span(20, 44, 89, 5), "unwrap");
    call.receiver = "parse".to_string();
    let mut other = node(NodeKind::MethodCall, 1, span(45, 60, 90, 5), "unwrap");
    other.receiver = "get".to_string();
    let nodes = vec![node(NodeKind::Function, 0, span(0, 70, 88, 1), "parse_age"), call, other];
    let res = run(nodes);
    assert_eq!(res.total, 1);
    assert_eq!(res.findings[0].rule_id, "unhandled-parse");
    assert_eq!(res.findings[0].message, "missing error handling on parse");
}

#[test]
fn panic_flagged_only_in_returning_function() {
    let mut never = node(NodeKind::Function, 0, span(100, 150, 10, 1), "fail");
    never.diverges = true;
    let nodes = vec![
        node(NodeKind::Function, 0, span(0, 90, 1, 1), "process_user"),
        node(NodeKind::Block, 1, span(15, 45, 2, 5), ""),
        node(NodeKind::Panic, 2, span(20, 40, 3, 9), ""),
        never,
        node(NodeKind::Panic, 1, span(110, 120, 11, 5), ""),
        node(NodeKind::Panic, 0, span(160, 170, 20, 1), ""),
    ];
    let res = run(nodes);
    assert_eq!(res.total, 1);
    assert_eq!(res.findings[0].rule_id, "panic-control-flow");
    assert_eq!(res.findings[0].span, span(20, 40, 3, 9));
}

#[test]
fn indexing_needs_a_length_guard() {
    let nodes = vec![
        node(NodeKind::Function, 0, span(0, 50, 98, 1), "get_first_user"),
        node(NodeKind::Index, 1, span(10, 19, 99, 5), "users"),
        node(NodeKind::Function, 0, span(60, 120, 101, 1), "checked"),
        node(NodeKind::LenGuard, 1, span(70, 90, 102, 5), "users"),
        node(NodeKind::Index, 1, span(100, 109, 103, 5), "users"),
    ];
    let res = run(nodes);
    assert_eq!(res.total, 1);
    assert_eq!(res.findings[0].message, "indexing without a bounds check");
    assert_eq!(res.findings[0].span, span(10, 19, 99, 5));
}

#[test]
fn failing_rule_becomes_internal_error_finding() {
    let nodes = vec![
        node(NodeKind::Function, 0, span(0, 50, 1, 1), "f"),
        node(NodeKind::Index, 1, span(10, 19, 2, 5), ""),
        node(NodeKind::Division, 1, span(20, 25, 3, 5), "b"),
    ];
    let res = run(nodes);
    assert_eq!(res.total, 2);
    assert_eq!(res.findings[0].rule_id, "unchecked-index");
    assert_eq!(res.findings[0].severity, Severity::Error);
    assert_eq!(res.findings[0].message, "internal rule error in unchecked-index");
    assert_eq!(res.findings[1].rule_id, "unchecked-division");
}

#[test]
fn malformed_tree_is_rejected() {
    let reg = registry();
    let bad_depth = SyntaxTree { source_len: 100, nodes: vec![node(NodeKind::Block, 1, span(0, 5, 1, 1), "")] };
    assert_eq!(analyze(&bad_depth, &reg).err(), Some(InvalidTreeError { node: 0 }));
    let jump = SyntaxTree {
        source_len: 100,
        nodes: vec![node(NodeKind::Block, 0, span(0, 5, 1, 1), ""), node(NodeKind::Block, 2, span(1, 2, 1, 2), "")],
    };
    assert_eq!(analyze(&jump, &reg).err(), Some(InvalidTreeError { node: 1 }));
    let outside = SyntaxTree { source_len: 10, nodes: vec![node(NodeKind::Block, 0, span(0, 11, 1, 1), "")] };
    assert_eq!(analyze(&outside, &reg).err(), Some(InvalidTreeError { node: 0 }));
    let reversed = SyntaxTree { source_len: 10, nodes: vec![node(NodeKind::Block, 0, span(5, 4, 1, 1), "")] };
    assert_eq!(analyze(&reversed, &reg).err(), Some(InvalidTreeError { node: 0 }));
}

#[test]
fn empty_tree_has_no_findings() {
    let res = run(vec![]);
    assert_eq!(res.total, 0);
    assert!(res.findings.is_empty());
    assert_eq!(res.elapsed_micros, 0);
}

fn mixed_tree() -> SyntaxTree {
    let mut users = node(NodeKind::Static, 0, span(10, 40, 5, 1), "USERS");
    users.mutable = true;
    let mut pw = node(NodeKind::Static, 0, span(41, 80, 6, 1), "ADMIN_PASSWORD");
    pw.literal = true;
    let mut call = node(NodeKind::MethodCall, 1, span(900, 924, 89, 5), "unwrap");
    call.receiver = "parse".to_string();
    SyntaxTree {
        source_len: 3001,
        nodes: vec![
            users,
            pw,
            node(NodeKind::Function, 0, span(500, 800, 37, 1), "process_user"),
            node(NodeKind::Block, 1, span(550, 590, 38, 5), ""),
            node(NodeKind::Panic, 2, span(560, 585, 39, 9), ""),
            node(NodeKind::UnsafeBlock, 1, span(700, 780, 52, 5), ""),
            node(NodeKind::Block, 2, span(710, 770, 53, 9), ""),
            node(NodeKind::Read, 3, span(740, 745, 54, 13), "USERS"),
            node(NodeKind::Function, 0, span(810, 860, 67, 1), "divide_numbers"),
            node(NodeKind::Division, 1, span(850, 855, 68, 5), "b"),
            node(NodeKind::Function, 0, span(880, 930, 88, 1), "parse_age"),
            call,
            node(NodeKind::Function, 0, span(950, 1000, 98, 1), "get_first_user"),
            node(NodeKind::Index, 1, span(990, 999, 99, 5), "users"),
        ],
    }
}

#[test]
fn findings_sorted_and_unique() {
    let res = analyze(&mixed_tree(), &registry()).unwrap();
    assert_eq!(res.total, 7);
    for w in res.findings.windows(2) {
        let a = (w[0].span.line, w[0].span.column, w[0].rule_id.clone());
        let b = (w[1].span.line, w[1].span.column, w[1].rule_id.clone());
        assert!(a < b);
    }
    let lines: Vec<usize> = res.findings.iter().map(|f| f.span.line).collect();
    assert_eq!(lines, vec![5, 6, 39, 54, 68, 89, 99]);
}

#[test]
fn analyze_is_idempotent() {
    let reg = registry();
    let tree = mixed_tree();
    let a = analyze(&tree, &reg).unwrap();
    let b = analyze(&tree, &reg).unwrap();
    assert_eq!(a.findings, b.findings);
    assert_eq!(a.total, b.total);
    let again = aggregate(a.findings.clone(), 0);
    assert_eq!(again.findings, a.findings);
}

#[test]
fn same_line_ties_break_on_rule_id() {
    let mut both = node(NodeKind::Static, 0, span(0, 30, 1, 1), "SECRET");
    both.mutable = true;
    both.literal = true;
    let mut reg_rules = vec![rule("z-global", RuleKind::UnsafeGlobalState), rule("a-secret", RuleKind::HardcodedSecret)];
    reg_rules[1].severity = Severity::Info;
    let reg = Registry::build(reg_rules, patterns()).unwrap();
    let res = analyze(&SyntaxTree { source_len: 30, nodes: vec![both] }, &reg).unwrap();
    // a mutable static is not a hardcoded secret
    assert_eq!(res.total, 1);
    assert_eq!(res.findings[0].rule_id, "z-global");
    let mut lit = node(NodeKind::Static, 0, span(0, 30, 1, 1), "SECRET");
    lit.literal = true;
    let reg2 = Registry::build(
        vec![rule("z-secret", RuleKind::HardcodedSecret), rule("a-secret", RuleKind::HardcodedSecret)],
        patterns(),
    )
    .unwrap();
    let res2 = analyze(&SyntaxTree { source_len: 30, nodes: vec![lit] }, &reg2).unwrap();
    let ids: Vec<String> = res2.findings.iter().map(|f| f.rule_id.clone()).collect();
    assert_eq!(ids, vec!["a-secret".to_string(), "z-secret".to_string()]);
}

#[test]
fn duplicate_rule_ids_refuse_the_registry() {
    let rules = vec![
        rule("unchecked-division", RuleKind::UncheckedDivision),
        rule("other", RuleKind::UncheckedIndex),
        rule("unchecked-division", RuleKind::PanicControlFlow),
    ];
    let r = Registry::build(rules, patterns());
    assert_eq!(r.err(), Some(DuplicateRuleError { id: "unchecked-division".to_string() }));
}

#[test]
fn rules_for_picks_applicable_rules_in_order() {
    let reg = registry();
    assert_eq!(reg.rule_count(), 6);
    assert_eq!(reg.rules_for(NodeKind::Static), vec![0, 1]);
    assert_eq!(reg.rules_for(NodeKind::Division), vec![2]);
    assert_eq!(reg.rules_for(NodeKind::Block), Vec::<usize>::new());
    assert_eq!(reg.rule(3).id, "unhandled-parse");
    assert_eq!(reg.secret_patterns().len(), 4);
}

fn finding(id: &str, sp: SourceSpan, msg: &str) -> Finding {
    Finding { rule_id: id.to_string(), severity: Severity::Warning, message: msg.to_string(), span: sp }
}

#[test]
fn aggregate_dedups_and_orders() {
    let raw = vec![
        finding("b", span(5, 6, 2, 1), "first"),
        finding("a", span(0, 1, 1, 3), "x"),
        finding("b", span(5, 6, 2, 1), "second"),
        finding("a", span(0, 1, 1, 1), "y"),
        finding("a", span(5, 6, 2, 1), "z"),
    ];
    let res = aggregate(raw, 42);
    assert_eq!(res.total, 4);
    assert_eq!(res.elapsed_micros, 42);
    let msgs: Vec<String> = res.findings.iter().map(|f| f.message.clone()).collect();
    assert_eq!(msgs, vec!["y", "x", "z", "first"]);
}

#[test]
fn text_order_and_search() {
    assert_eq!(compare_text("abc", "abd"), Ordering::Less);
    assert_eq!(compare_text("abc", "ab"), Ordering::Greater);
    assert_eq!(compare_text("", ""), Ordering::Equal);
    assert_eq!(compare_text("ab", "abc"), Ordering::Less);
    assert!(contains_ignore_case("ADMIN_PASSWORD", "password"));
    assert!(contains_ignore_case("my_Api_Key", "api_key"));
    assert!(!contains_ignore_case("pass", "password"));
    assert!(contains_ignore_case("x", ""));
}

fn registry_of(kind: RuleKind, id: &str) -> Registry {
    Registry::build(vec![rule(id, kind)], patterns()).unwrap()
}

#[test]
fn mutable_receiver_without_mutation_is_flagged() {
    let mut is_adult = node(NodeKind::Function, 0, span(0, 40, 31, 5), "is_adult");
    is_adult.mutable = true;
    let mut bump = node(NodeKind::Function, 0, span(50, 90, 40, 5), "bump");
    bump.mutable = true;
    let mut later = node(NodeKind::Function, 0, span(100, 140, 50, 5), "later");
    later.mutable = true;
    let nodes = vec![
        is_adult,
        node(NodeKind::Read, 1, span(10, 18, 32, 9), "self"),
        bump,
        node(NodeKind::Block, 1, span(60, 80, 41, 9), ""),
        node(NodeKind::SelfMutation, 2, span(62, 70, 42, 13), "self"),
        later,
        node(NodeKind::SelfMutation, 0, span(141, 150, 60, 1), "self"),
    ];
    let reg = registry_of(RuleKind::MutableReceiver, "mut-receiver");
    let res = analyze(&SyntaxTree { source_len: 200, nodes }, &reg).unwrap();
    let lines: Vec<usize> = res.findings.iter().map(|f| f.span.line).collect();
    assert_eq!(lines, vec![31, 50]);
    assert_eq!(res.findings[0].message, "mutable receiver never mutated");
}

#[test]
fn unused_binding_is_flagged() {
    let nodes = vec![
        node(NodeKind::Function, 0, span(0, 100, 103, 1), "main"),
        node(NodeKind::Let, 1, span(10, 20, 114, 5), "_unused_var"),
        node(NodeKind::Let, 1, span(21, 30, 115, 5), "age"),
        node(NodeKind::Block, 1, span(31, 50, 116, 5), ""),
        node(NodeKind::Read, 2, span(35, 38, 117, 9), "age"),
        node(NodeKind::Block, 1, span(51, 70, 118, 5), ""),
        node(NodeKind::Let, 2, span(52, 60, 119, 9), "inner"),
        node(NodeKind::Read, 1, span(71, 76, 121, 5), "inner"),
    ];
    let reg = registry_of(RuleKind::UnusedBinding, "unused-binding");
    let res = analyze(&SyntaxTree { source_len: 200, nodes }, &reg).unwrap();
    let names: Vec<usize> = res.findings.iter().map(|f| f.span.line).collect();
    assert_eq!(names, vec![114, 119]);
    assert_eq!(res.findings[0].message, "unused binding");
}

#[test]
fn clone_of_dead_binding_is_flagged() {
    let nodes = vec![
        node(NodeKind::Function, 0, span(0, 100, 17, 5), "new"),
        node(NodeKind::CloneInit, 1, span(10, 22, 19, 19), "name"),
        node(NodeKind::CloneInit, 1, span(30, 43, 20, 20), "email"),
        node(NodeKind::Read, 1, span(50, 55, 21, 13), "email"),
    ];
    let reg = registry_of(RuleKind::UnnecessaryClone, "unnecessary-clone");
    let res = analyze(&SyntaxTree { source_len: 200, nodes }, &reg).unwrap();
    assert_eq!(res.total, 1);
    assert_eq!(res.findings[0].span, span(10, 22, 19, 19));
    assert_eq!(res.findings[0].message, "unnecessary clone");
}

#[test]
fn elidable_lifetime_is_flagged() {
    let nodes = vec![
        node(NodeKind::Function, 0, span(0, 60, 98, 1), "get_first_user"),
        node(NodeKind::LifetimeParam, 1, span(18, 20, 98, 19), "'a"),
        node(NodeKind::RefParam, 1, span(22, 40, 98, 23), "users"),
        node(NodeKind::Index, 1, span(50, 59, 99, 5), "users"),
        node(NodeKind::Function, 0, span(70, 130, 102, 1), "longest"),
        node(NodeKind::LifetimeParam, 1, span(81, 83, 102, 12), "'a"),
        node(NodeKind::RefParam, 1, span(85, 95, 102, 16), "x"),
        node(NodeKind::RefParam, 1, span(97, 107, 102, 28), "y"),
    ];
    let reg = registry_of(RuleKind::NeedlessLifetime, "needless-lifetime");
    let res = analyze(&SyntaxTree { source_len: 200, nodes }, &reg).unwrap();
    assert_eq!(res.total, 1);
    assert_eq!(res.findings[0].span, span(18, 20, 98, 19));
    assert_eq!(res.findings[0].message, "lifetime parameter could be elided");
}
