use statix::kinds;

#[test]
fn kinds_are_numbered_as_the_parser_numbers_them() {
    assert_eq!(kinds::TOKEN_COMMENT, rnix::SyntaxKind::TOKEN_COMMENT as u16);
    assert_eq!(kinds::TOKEN_ERROR, rnix::SyntaxKind::TOKEN_ERROR as u16);
    assert_eq!(kinds::TOKEN_WHITESPACE, rnix::SyntaxKind::TOKEN_WHITESPACE as u16);
    assert_eq!(kinds::TOKEN_ASSERT, rnix::SyntaxKind::TOKEN_ASSERT as u16);
    assert_eq!(kinds::TOKEN_ELSE, rnix::SyntaxKind::TOKEN_ELSE as u16);
    assert_eq!(kinds::TOKEN_IF, rnix::SyntaxKind::TOKEN_IF as u16);
    assert_eq!(kinds::TOKEN_IN, rnix::SyntaxKind::TOKEN_IN as u16);
    assert_eq!(kinds::TOKEN_INHERIT, rnix::SyntaxKind::TOKEN_INHERIT as u16);
    assert_eq!(kinds::TOKEN_LET, rnix::SyntaxKind::TOKEN_LET as u16);
    assert_eq!(kinds::TOKEN_REC, rnix::SyntaxKind::TOKEN_REC as u16);
    assert_eq!(kinds::TOKEN_THEN, rnix::SyntaxKind::TOKEN_THEN as u16);
    assert_eq!(kinds::TOKEN_WITH, rnix::SyntaxKind::TOKEN_WITH as u16);
    assert_eq!(kinds::TOKEN_CURLY_B_OPEN, rnix::SyntaxKind::TOKEN_CURLY_B_OPEN as u16);
    assert_eq!(kinds::TOKEN_CURLY_B_CLOSE, rnix::SyntaxKind::TOKEN_CURLY_B_CLOSE as u16);
    assert_eq!(kinds::TOKEN_SQUARE_B_OPEN, rnix::SyntaxKind::TOKEN_SQUARE_B_OPEN as u16);
    assert_eq!(kinds::TOKEN_SQUARE_B_CLOSE, rnix::SyntaxKind::TOKEN_SQUARE_B_CLOSE as u16);
    assert_eq!(kinds::TOKEN_ASSIGN, rnix::SyntaxKind::TOKEN_ASSIGN as u16);
    assert_eq!(kinds::TOKEN_AT, rnix::SyntaxKind::TOKEN_AT as u16);
    assert_eq!(kinds::TOKEN_COLON, rnix::SyntaxKind::TOKEN_COLON as u16);
    assert_eq!(kinds::TOKEN_COMMA, rnix::SyntaxKind::TOKEN_COMMA as u16);
    assert_eq!(kinds::TOKEN_DOT, rnix::SyntaxKind::TOKEN_DOT as u16);
    assert_eq!(kinds::TOKEN_ELLIPSIS, rnix::SyntaxKind::TOKEN_ELLIPSIS as u16);
    assert_eq!(kinds::TOKEN_QUESTION, rnix::SyntaxKind::TOKEN_QUESTION as u16);
    assert_eq!(kinds::TOKEN_SEMICOLON, rnix::SyntaxKind::TOKEN_SEMICOLON as u16);
    assert_eq!(kinds::TOKEN_PAREN_OPEN, rnix::SyntaxKind::TOKEN_PAREN_OPEN as u16);
    assert_eq!(kinds::TOKEN_PAREN_CLOSE, rnix::SyntaxKind::TOKEN_PAREN_CLOSE as u16);
    assert_eq!(kinds::TOKEN_CONCAT, rnix::SyntaxKind::TOKEN_CONCAT as u16);
    assert_eq!(kinds::TOKEN_INVERT, rnix::SyntaxKind::TOKEN_INVERT as u16);
    assert_eq!(kinds::TOKEN_UPDATE, rnix::SyntaxKind::TOKEN_UPDATE as u16);
    assert_eq!(kinds::TOKEN_ADD, rnix::SyntaxKind::TOKEN_ADD as u16);
    assert_eq!(kinds::TOKEN_SUB, rnix::SyntaxKind::TOKEN_SUB as u16);
    assert_eq!(kinds::TOKEN_MUL, rnix::SyntaxKind::TOKEN_MUL as u16);
    assert_eq!(kinds::TOKEN_DIV, rnix::SyntaxKind::TOKEN_DIV as u16);
    assert_eq!(kinds::TOKEN_AND, rnix::SyntaxKind::TOKEN_AND as u16);
    assert_eq!(kinds::TOKEN_EQUAL, rnix::SyntaxKind::TOKEN_EQUAL as u16);
    assert_eq!(kinds::TOKEN_IMPLICATION, rnix::SyntaxKind::TOKEN_IMPLICATION as u16);
    assert_eq!(kinds::TOKEN_LESS, rnix::SyntaxKind::TOKEN_LESS as u16);
    assert_eq!(kinds::TOKEN_LESS_OR_EQ, rnix::SyntaxKind::TOKEN_LESS_OR_EQ as u16);
    assert_eq!(kinds::TOKEN_MORE, rnix::SyntaxKind::TOKEN_MORE as u16);
    assert_eq!(kinds::TOKEN_MORE_OR_EQ, rnix::SyntaxKind::TOKEN_MORE_OR_EQ as u16);
    assert_eq!(kinds::TOKEN_NOT_EQUAL, rnix::SyntaxKind::TOKEN_NOT_EQUAL as u16);
    assert_eq!(kinds::TOKEN_OR, rnix::SyntaxKind::TOKEN_OR as u16);
    assert_eq!(kinds::TOKEN_DYNAMIC_END, rnix::SyntaxKind::TOKEN_DYNAMIC_END as u16);
    assert_eq!(kinds::TOKEN_DYNAMIC_START, rnix::SyntaxKind::TOKEN_DYNAMIC_START as u16);
    assert_eq!(kinds::TOKEN_FLOAT, rnix::SyntaxKind::TOKEN_FLOAT as u16);
    assert_eq!(kinds::TOKEN_IDENT, rnix::SyntaxKind::TOKEN_IDENT as u16);
    assert_eq!(kinds::TOKEN_INTEGER, rnix::SyntaxKind::TOKEN_INTEGER as u16);
    assert_eq!(kinds::TOKEN_INTERPOL_END, rnix::SyntaxKind::TOKEN_INTERPOL_END as u16);
    assert_eq!(kinds::TOKEN_INTERPOL_START, rnix::SyntaxKind::TOKEN_INTERPOL_START as u16);
    assert_eq!(kinds::TOKEN_PATH, rnix::SyntaxKind::TOKEN_PATH as u16);
    assert_eq!(kinds::TOKEN_URI, rnix::SyntaxKind::TOKEN_URI as u16);
    assert_eq!(kinds::TOKEN_STRING_CONTENT, rnix::SyntaxKind::TOKEN_STRING_CONTENT as u16);
    assert_eq!(kinds::TOKEN_STRING_END, rnix::SyntaxKind::TOKEN_STRING_END as u16);
    assert_eq!(kinds::TOKEN_STRING_START, rnix::SyntaxKind::TOKEN_STRING_START as u16);
    assert_eq!(kinds::NODE_APPLY, rnix::SyntaxKind::NODE_APPLY as u16);
    assert_eq!(kinds::NODE_ASSERT, rnix::SyntaxKind::NODE_ASSERT as u16);
    assert_eq!(kinds::NODE_KEY, rnix::SyntaxKind::NODE_KEY as u16);
    assert_eq!(kinds::NODE_DYNAMIC, rnix::SyntaxKind::NODE_DYNAMIC as u16);
    assert_eq!(kinds::NODE_ERROR, rnix::SyntaxKind::NODE_ERROR as u16);
    assert_eq!(kinds::NODE_IDENT, rnix::SyntaxKind::NODE_IDENT as u16);
    assert_eq!(kinds::NODE_IF_ELSE, rnix::SyntaxKind::NODE_IF_ELSE as u16);
    assert_eq!(kinds::NODE_SELECT, rnix::SyntaxKind::NODE_SELECT as u16);
    assert_eq!(kinds::NODE_INHERIT, rnix::SyntaxKind::NODE_INHERIT as u16);
    assert_eq!(kinds::NODE_INHERIT_FROM, rnix::SyntaxKind::NODE_INHERIT_FROM as u16);
    assert_eq!(kinds::NODE_STRING, rnix::SyntaxKind::NODE_STRING as u16);
    assert_eq!(kinds::NODE_STRING_INTERPOL, rnix::SyntaxKind::NODE_STRING_INTERPOL as u16);
    assert_eq!(kinds::NODE_LAMBDA, rnix::SyntaxKind::NODE_LAMBDA as u16);
    assert_eq!(kinds::NODE_LEGACY_LET, rnix::SyntaxKind::NODE_LEGACY_LET as u16);
    assert_eq!(kinds::NODE_LET_IN, rnix::SyntaxKind::NODE_LET_IN as u16);
    assert_eq!(kinds::NODE_LIST, rnix::SyntaxKind::NODE_LIST as u16);
    assert_eq!(kinds::NODE_BIN_OP, rnix::SyntaxKind::NODE_BIN_OP as u16);
    assert_eq!(kinds::NODE_OR_DEFAULT, rnix::SyntaxKind::NODE_OR_DEFAULT as u16);
    assert_eq!(kinds::NODE_PAREN, rnix::SyntaxKind::NODE_PAREN as u16);
    assert_eq!(kinds::NODE_PATTERN, rnix::SyntaxKind::NODE_PATTERN as u16);
    assert_eq!(kinds::NODE_PAT_BIND, rnix::SyntaxKind::NODE_PAT_BIND as u16);
    assert_eq!(kinds::NODE_PAT_ENTRY, rnix::SyntaxKind::NODE_PAT_ENTRY as u16);
    assert_eq!(kinds::NODE_ROOT, rnix::SyntaxKind::NODE_ROOT as u16);
    assert_eq!(kinds::NODE_ATTR_SET, rnix::SyntaxKind::NODE_ATTR_SET as u16);
    assert_eq!(kinds::NODE_KEY_VALUE, rnix::SyntaxKind::NODE_KEY_VALUE as u16);
    assert_eq!(kinds::NODE_UNARY_OP, rnix::SyntaxKind::NODE_UNARY_OP as u16);
    assert_eq!(kinds::NODE_LITERAL, rnix::SyntaxKind::NODE_LITERAL as u16);
    assert_eq!(kinds::NODE_WITH, rnix::SyntaxKind::NODE_WITH as u16);
    assert_eq!(kinds::NODE_PATH_WITH_INTERPOL, rnix::SyntaxKind::NODE_PATH_WITH_INTERPOL as u16);
}

#[test]
fn kinds_used_by_the_rules() {
    assert_eq!(kinds::TOKEN_IN, 6);
    assert_eq!(kinds::TOKEN_LET, 8);
    assert_eq!(kinds::NODE_INHERIT, 62);
    assert_eq!(kinds::NODE_LET_IN, 68);
    assert_eq!(kinds::NODE_KEY_VALUE, 78);
}
