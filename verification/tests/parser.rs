use rnix::types::{EntryHolder, LetIn, TypedNode};
use rnix::{NodeOrToken, SyntaxElement, SyntaxKind};
use rowan::Direction;
use statix::lint::{lint, FileId, VfsEntry};
use statix::report::{Diagnostic, Report, Severity, Suggestion};
use statix::text::TextRange;
use statix::tree::{Element, SyntaxTree, WalkEvent};

fn range(r: rnix::TextRange) -> TextRange {
    TextRange::new(r.start().into(), r.end().into())
}

/// What the parser's own view of the tree says of empty `let in`s.
fn empty_let_in(element: &SyntaxElement) -> Option<Report> {
    let node = match element {
        NodeOrToken::Node(node) => node,
        NodeOrToken::Token(_) => return None,
    };
    let let_in = LetIn::cast(node.clone())?;
    if let_in.entries().count() != 0 || let_in.inherits().count() != 0 {
        return None;
    }
    let body = let_in.body()?;
    let at = range(node.text_range());
    Some(Report {
        note: "Useless let-in expression",
        code: 2,
        severity: Severity::Warn,
        diagnostics: vec![Diagnostic {
            at,
            message: "This let-in expression has no entries".to_string(),
            suggestion: Some(Suggestion { at, fix: body.to_string().into_bytes() }),
        }],
    })
}

/// What the parser's own view of the tree says of nested `let in`s.
fn collapsible_let_in(element: &SyntaxElement) -> Option<Report> {
    let node = match element {
        NodeOrToken::Node(node) => node,
        NodeOrToken::Token(_) => return None,
    };
    let let_in = LetIn::cast(node.clone())?;
    let body = let_in.body()?;
    LetIn::cast(body.clone())?;
    let start = body
        .siblings_with_tokens(Direction::Prev)
        .find(|elem| elem.kind() == SyntaxKind::TOKEN_IN)?
        .text_range()
        .start();
    let end = body
        .descendants_with_tokens()
        .find(|elem| elem.kind() == SyntaxKind::TOKEN_LET)?
        .text_range()
        .end();
    Some(Report {
        note: "These let-in expressions are collapsible",
        code: 6,
        severity: Severity::Warn,
        diagnostics: vec![
            Diagnostic {
                at: range(node.text_range()),
                message: "This `let in` expression contains a nested `let in` expression"
                    .to_string(),
                suggestion: None,
            },
            Diagnostic {
                at: range(body.text_range()),
                message: "This `let in` expression is nested".to_string(),
                suggestion: Some(Suggestion {
                    at: TextRange::new(start.into(), end.into()),
                    fix: vec![],
                }),
            },
        ],
    })
}

const SOURCES: [&str; 14] = [
    "let in 1",
    "let a = 1; in let b = 2; in a + b",
    "let in let a = 1; in a",
    "let in let in let in 1",
    "let inherit (x) a; in let in a",
    "let a = 1; in a",
    "let # one\n in # two\n let a = 1; # three\n in a # four\n",
    "{ a = let in 1; b = [ (let in let c = 2; in c) ]; }",
    "let a = let in 1; in let b = let in 2; in a + b",
    "{ a = let in 1; b = ; }",
    "let in",
    "let in let",
    "let in let in",
    "let a = \"é\"; in let b = ''\n  ü\n''; in a + b",
];

#[test]
fn the_rules_agree_with_the_parsers_view_of_the_tree() {
    for src in SOURCES {
        let ast = rnix::parse(src);
        let mut expected = Vec::new();
        for event in ast.node().preorder_with_tokens() {
            if let rnix::WalkEvent::Enter(element) = event {
                if element.kind() == SyntaxKind::NODE_LET_IN {
                    expected.extend(empty_let_in(&element));
                    expected.extend(collapsible_let_in(&element));
                }
            }
        }
        let reports = lint(VfsEntry { file_id: FileId(0), contents: src }).reports;
        let from_rules: Vec<Report> = reports.into_iter().filter(|r| r.code != 0).collect();
        assert_eq!(from_rules, expected, "{:?}", src);
    }
}

#[test]
fn the_parsers_walk_is_the_walk_of_a_tree() {
    for src in SOURCES {
        let ast = rnix::parse(src);
        let mut walk = Vec::new();
        let mut elements = Vec::new();
        for event in ast.node().preorder_with_tokens() {
            walk.push(match event {
                rnix::WalkEvent::Enter(e) => {
                    let at = range(e.text_range());
                    let element =
                        Element::new(e.kind() as u16, at.start(), at.end(), e.as_token().is_some());
                    elements.push((element, e.ancestors().count() - usize::from(e.as_node().is_some())));
                    WalkEvent::Enter(element)
                }
                rnix::WalkEvent::Leave(_) => WalkEvent::Leave,
            });
        }
        let tree = SyntaxTree::from_walk(src.as_bytes().to_vec(), &walk).unwrap();
        assert_eq!(tree.len(), elements.len());
        for (i, (element, depth)) in elements.iter().enumerate() {
            assert_eq!(tree.element(i), *element);
            assert_eq!(tree.depth(i), *depth, "{:?} at {}", src, i);
        }
    }
}

#[test]
fn an_elements_text_is_the_parsers_text() {
    for src in SOURCES {
        let ast = rnix::parse(src);
        let mut walk = Vec::new();
        let mut texts = Vec::new();
        for event in ast.node().preorder_with_tokens() {
            walk.push(match event {
                rnix::WalkEvent::Enter(e) => {
                    let at = range(e.text_range());
                    texts.push(e.to_string());
                    WalkEvent::Enter(Element::new(
                        e.kind() as u16,
                        at.start(),
                        at.end(),
                        e.as_token().is_some(),
                    ))
                }
                rnix::WalkEvent::Leave(_) => WalkEvent::Leave,
            });
        }
        let tree = SyntaxTree::from_walk(src.as_bytes().to_vec(), &walk).unwrap();
        for (i, text) in texts.iter().enumerate() {
            assert_eq!(tree.text_of(i), text.as_bytes().to_vec());
        }
    }
}
