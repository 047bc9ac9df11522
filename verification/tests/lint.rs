use statix::kinds::{NODE_LET_IN, NODE_ROOT, TOKEN_LET};
use statix::lint::{lint, lint_parsed, lint_tree, lint_with, FileId, VfsEntry};
use statix::lints::collapsible_let_in::CollapsibleLetIn;
use statix::lints::empty_let_in::EmptyLetIn;
use statix::lints::{lints, Lint};
use statix::parse::{can_parse, ParseError};
use statix::registry::LintMap;
use statix::report::{Diagnostic, Report, Severity, Suggestion};
use statix::text::TextRange;
use statix::tree::{Element, SyntaxTree, WalkEvent};

fn reports_of(src: &str) -> Vec<Report> {
    lint(VfsEntry { file_id: FileId(0), contents: src }).reports
}

fn walk_of(src: &str) -> Vec<WalkEvent> {
    let mut walk = Vec::new();
    for event in rnix::parse(src).node().preorder_with_tokens() {
        walk.push(match event {
            rnix::WalkEvent::Enter(e) => WalkEvent::Enter(Element::new(
                e.kind() as u16,
                e.text_range().start().into(),
                e.text_range().end().into(),
                e.as_token().is_some(),
            )),
            rnix::WalkEvent::Leave(_) => WalkEvent::Leave,
        });
    }
    walk
}

fn empty_let_in(start: u32, end: u32, body: &str) -> Report {
    let at = TextRange::new(start, end);
    Report {
        note: "Useless let-in expression",
        code: 2,
        severity: Severity::Warn,
        diagnostics: vec![Diagnostic {
            at,
            message: "This let-in expression has no entries".to_string(),
            suggestion: Some(Suggestion { at, fix: body.as_bytes().to_vec() }),
        }],
    }
}

fn collapsible(outer: (u32, u32), inner: (u32, u32), cut: (u32, u32)) -> Report {
    Report {
        note: "These let-in expressions are collapsible",
        code: 6,
        severity: Severity::Warn,
        diagnostics: vec![
            Diagnostic {
                at: TextRange::new(outer.0, outer.1),
                message: "This `let in` expression contains a nested `let in` expression"
                    .to_string(),
                suggestion: None,
            },
            Diagnostic {
                at: TextRange::new(inner.0, inner.1),
                message: "This `let in` expression is nested".to_string(),
                suggestion: Some(Suggestion { at: TextRange::new(cut.0, cut.1), fix: vec![] }),
            },
        ],
    }
}

fn syntax_error(start: u32, end: u32, message: &str) -> Report {
    Report {
        note: "Syntax error",
        code: 0,
        severity: Severity::Error,
        diagnostics: vec![Diagnostic {
            at: TextRange::new(start, end),
            message: message.to_string(),
            suggestion: None,
        }],
    }
}

#[test]
fn an_empty_let_in_is_reported() {
    assert_eq!(reports_of("let in 1"), vec![empty_let_in(0, 8, "1")]);
}

#[test]
fn a_nested_let_in_is_reported() {
    assert_eq!(
        reports_of("let a = 1; in let b = 2; in a + b"),
        vec![collapsible((0, 33), (14, 33), (11, 17))]
    );
}

#[test]
fn reports_come_in_document_order_and_rules_in_order_of_registration() {
    assert_eq!(
        reports_of("let in let a = 1; in a"),
        vec![empty_let_in(0, 22, "let a = 1; in a"), collapsible((0, 22), (7, 22), (4, 10))]
    );
    assert_eq!(
        reports_of("let in let in let in 1"),
        vec![
            empty_let_in(0, 22, "let in let in 1"),
            collapsible((0, 22), (7, 22), (4, 10)),
            empty_let_in(7, 22, "let in 1"),
            collapsible((7, 22), (14, 22), (11, 17)),
            empty_let_in(14, 22, "1"),
        ]
    );
}

#[test]
fn a_let_in_with_bindings_and_a_plain_body_is_not_reported() {
    assert_eq!(reports_of("let a = 1; in a"), vec![]);
    assert_eq!(reports_of("let inherit (x) a; in a"), vec![]);
    assert_eq!(reports_of("1"), vec![]);
    assert_eq!(reports_of("{ a = 1; }"), vec![]);
}

#[test]
fn syntax_errors_follow_the_reports_of_the_rules() {
    assert_eq!(
        reports_of("let in 1 }"),
        vec![empty_let_in(0, 8, "1"), syntax_error(9, 10, "Unexpected token at 9..10")]
    );
    assert_eq!(
        reports_of("(let in 1"),
        vec![empty_let_in(1, 9, "1"), syntax_error(0, 0, "Unexpected end of file")]
    );
    assert_eq!(reports_of(""), vec![syntax_error(0, 0, "Unexpected end of file")]);
    assert_eq!(
        reports_of("{ a, a }: a"),
        vec![
            syntax_error(5, 6, "Argument `a` is duplicated in 5..6"),
            syntax_error(5, 6, "Error node at 5..6"),
        ]
    );
}

#[test]
fn a_syntax_error_does_not_stop_the_rules() {
    let reports = reports_of("{ a = let in 1; b = ; }");
    assert_eq!(reports.len(), 5);
    assert_eq!(reports[0], empty_let_in(6, 14, "1"));
    for report in &reports[1..] {
        assert_eq!(report.note, "Syntax error");
        assert_eq!(report.code, 0);
        assert_eq!(report.severity, Severity::Error);
        assert_eq!(report.diagnostics.len(), 1);
        assert_eq!(report.diagnostics[0].suggestion, None);
    }
    assert_eq!(reports[1].diagnostics[0].at, TextRange::new(20, 21));
    assert_eq!(reports[2].diagnostics[0].at, TextRange::new(22, 23));
    assert_eq!(reports[3].diagnostics[0].at, TextRange::empty(0));
    assert_eq!(
        reports[3].diagnostics[0].message,
        "Unexpected end of file, wanted any of [TOKEN_SEMICOLON]"
    );
    assert_eq!(reports[4], syntax_error(0, 0, "Unexpected end of file"));
}

#[test]
fn linting_twice_gives_the_same() {
    for src in ["let in let in let in 1", "{ a = let in 1; b = ; }", "let in \"é\"", ""] {
        assert_eq!(reports_of(src), reports_of(src));
    }
}

#[test]
fn the_result_carries_the_file_id() {
    let result = lint(VfsEntry { file_id: FileId(41), contents: "let in 1" });
    assert_eq!(result.file_id, FileId(41));
    assert_eq!(result.reports.len(), 1);
}

#[test]
fn only_registered_rules_are_asked() {
    let entry = VfsEntry { file_id: FileId(0), contents: "let in let a = 1; in a }" };
    let none = LintMap::lint_map_of(&vec![]);
    assert_eq!(
        lint_with(entry, &none).reports,
        vec![syntax_error(23, 24, "Unexpected token at 23..24")]
    );
    let one = LintMap::lint_map_of(&vec![Lint::CollapsibleLetIn(CollapsibleLetIn)]);
    assert_eq!(
        lint_with(entry, &one).reports,
        vec![
            collapsible((0, 22), (7, 22), (4, 10)),
            syntax_error(23, 24, "Unexpected token at 23..24")
        ]
    );
    let swapped = LintMap::lint_map_of(&vec![
        Lint::CollapsibleLetIn(CollapsibleLetIn),
        Lint::EmptyLetIn(EmptyLetIn),
    ]);
    assert_eq!(
        lint_with(entry, &swapped).reports,
        vec![
            collapsible((0, 22), (7, 22), (4, 10)),
            empty_let_in(0, 22, "let a = 1; in a"),
            syntax_error(23, 24, "Unexpected token at 23..24")
        ]
    );
}

#[test]
fn a_parsed_text_is_linted_as_the_text_is() {
    let lints = LintMap::lint_map();
    for src in ["let in let in let in 1", "let a = 1; in let b = 2; in a + b", "let in \"é\""] {
        let parsed = lint_parsed(src.as_bytes().to_vec(), &walk_of(src), &vec![], &lints);
        assert_eq!(parsed, reports_of(src));
        let tree = SyntaxTree::from_walk(src.as_bytes().to_vec(), &walk_of(src)).unwrap();
        assert_eq!(lint_tree(&tree, &lints), reports_of(src));
    }
    let errors = vec![ParseError::new(Some((1, 2)), "no".to_string())];
    let parsed = lint_parsed(b"let in 1".to_vec(), &walk_of("let in 1"), &errors, &lints);
    assert_eq!(parsed, vec![empty_let_in(0, 8, "1"), syntax_error(1, 2, "No")]);
}

#[test]
fn a_walk_that_is_no_tree_leaves_the_errors() {
    let lints = LintMap::lint_map();
    let errors = vec![ParseError::new(None, "unexpected end of file".to_string())];
    let walk = vec![WalkEvent::Enter(Element::new(NODE_ROOT, 0, 3, false))];
    let parsed = lint_parsed(b"abc".to_vec(), &walk, &errors, &lints);
    assert_eq!(parsed, vec![syntax_error(0, 0, "Unexpected end of file")]);
}

#[test]
fn the_registry_sorts_the_rules_by_kind() {
    let map = LintMap::lint_map();
    let both = vec![Lint::EmptyLetIn(EmptyLetIn), Lint::CollapsibleLetIn(CollapsibleLetIn)];
    assert_eq!(lints(), both);
    assert_eq!(map.all(), &both);
    assert_eq!(map.get(NODE_LET_IN), Some(&both));
    assert_eq!(map.get(NODE_ROOT), None);
    assert_eq!(map.get(TOKEN_LET), None);
    assert_eq!(map.by_code(2), Some(Lint::EmptyLetIn(EmptyLetIn)));
    assert_eq!(map.by_code(6), Some(Lint::CollapsibleLetIn(CollapsibleLetIn)));
    assert_eq!(map.by_code(0), None);
    let empty = LintMap::lint_map_of(&vec![]);
    assert_eq!(empty.get(NODE_LET_IN), None);
    assert_eq!(empty.all(), &vec![]);
    let twice = LintMap::lint_map_of(&vec![Lint::EmptyLetIn(EmptyLetIn), Lint::EmptyLetIn(EmptyLetIn)]);
    assert_eq!(
        twice.get(NODE_LET_IN),
        Some(&vec![Lint::EmptyLetIn(EmptyLetIn), Lint::EmptyLetIn(EmptyLetIn)])
    );
}

#[test]
fn the_rules_say_what_they_are() {
    let empty = Lint::EmptyLetIn(EmptyLetIn);
    assert_eq!(empty.name(), "empty let-in");
    assert_eq!(empty.note(), "Useless let-in expression");
    assert_eq!(empty.code(), 2);
    assert!(empty.match_with(NODE_LET_IN));
    assert!(!empty.match_with(NODE_ROOT));
    assert_eq!(empty.match_kind(), vec![NODE_LET_IN]);
    let nested = Lint::CollapsibleLetIn(CollapsibleLetIn);
    assert_eq!(nested.name(), "collapsible let in");
    assert_eq!(nested.note(), "These let-in expressions are collapsible");
    assert_eq!(nested.code(), 6);
    assert!(nested.match_with(NODE_LET_IN));
    assert!(!nested.match_with(TOKEN_LET));
    assert_eq!(nested.match_kind(), vec![NODE_LET_IN]);
    assert_eq!(EmptyLetIn::report(), Report::new("Useless let-in expression", 2));
    assert_eq!(CollapsibleLetIn::report(), Report::new("These let-in expressions are collapsible", 6));
}

#[test]
fn a_rule_looks_at_one_element() {
    let src = "let in let a = 1; in a";
    let tree = SyntaxTree::from_walk(src.as_bytes().to_vec(), &walk_of(src)).unwrap();
    assert_eq!(tree.element(1).kind, NODE_LET_IN);
    assert_eq!(EmptyLetIn.validate(&tree, 0), None);
    assert_eq!(EmptyLetIn.validate(&tree, 1), Some(empty_let_in(0, 22, "let a = 1; in a")));
    assert_eq!(EmptyLetIn.validate(&tree, 2), None);
    assert_eq!(CollapsibleLetIn.validate(&tree, 0), None);
    assert_eq!(
        CollapsibleLetIn.validate(&tree, 1),
        Some(collapsible((0, 22), (7, 22), (4, 10)))
    );
    let inner = tree.last_child(1).unwrap();
    assert_eq!(tree.element(inner).kind, NODE_LET_IN);
    assert_eq!(EmptyLetIn.validate(&tree, inner), None);
    assert_eq!(CollapsibleLetIn.validate(&tree, inner), None);
    assert_eq!(Lint::EmptyLetIn(EmptyLetIn).validate(&tree, 1), EmptyLetIn.validate(&tree, 1));
}

#[test]
fn an_ordinary_text_can_be_parsed() {
    assert!(can_parse(""));
    assert!(can_parse("let in 1"));
}
