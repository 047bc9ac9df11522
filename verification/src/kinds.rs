//! The kind tags of the syntax tree: one number for each sort of token and
//! of node, in the order in which the parser numbers them.

use vstd::prelude::*;

verus! {

/// The tag that tells what sort of token or node an element is.
pub type SyntaxKind = u16;

pub const TOKEN_COMMENT: SyntaxKind = 0;

pub const TOKEN_ERROR: SyntaxKind = 1;

pub const TOKEN_WHITESPACE: SyntaxKind = 2;

pub const TOKEN_ASSERT: SyntaxKind = 3;

pub const TOKEN_ELSE: SyntaxKind = 4;

pub const TOKEN_IF: SyntaxKind = 5;

pub const TOKEN_IN: SyntaxKind = 6;

pub const TOKEN_INHERIT: SyntaxKind = 7;

pub const TOKEN_LET: SyntaxKind = 8;

pub const TOKEN_REC: SyntaxKind = 9;

pub const TOKEN_THEN: SyntaxKind = 10;

pub const TOKEN_WITH: SyntaxKind = 11;

pub const TOKEN_CURLY_B_OPEN: SyntaxKind = 12;

pub const TOKEN_CURLY_B_CLOSE: SyntaxKind = 13;

pub const TOKEN_SQUARE_B_OPEN: SyntaxKind = 14;

pub const TOKEN_SQUARE_B_CLOSE: SyntaxKind = 15;

pub const TOKEN_ASSIGN: SyntaxKind = 16;

pub const TOKEN_AT: SyntaxKind = 17;

pub const TOKEN_COLON: SyntaxKind = 18;

pub const TOKEN_COMMA: SyntaxKind = 19;

pub const TOKEN_DOT: SyntaxKind = 20;

pub const TOKEN_ELLIPSIS: SyntaxKind = 21;

pub const TOKEN_QUESTION: SyntaxKind = 22;

pub const TOKEN_SEMICOLON: SyntaxKind = 23;

pub const TOKEN_PAREN_OPEN: SyntaxKind = 24;

pub const TOKEN_PAREN_CLOSE: SyntaxKind = 25;

pub const TOKEN_CONCAT: SyntaxKind = 26;

pub const TOKEN_INVERT: SyntaxKind = 27;

pub const TOKEN_UPDATE: SyntaxKind = 28;

pub const TOKEN_ADD: SyntaxKind = 29;

pub const TOKEN_SUB: SyntaxKind = 30;

pub const TOKEN_MUL: SyntaxKind = 31;

pub const TOKEN_DIV: SyntaxKind = 32;

pub const TOKEN_AND: SyntaxKind = 33;

pub const TOKEN_EQUAL: SyntaxKind = 34;

pub const TOKEN_IMPLICATION: SyntaxKind = 35;

pub const TOKEN_LESS: SyntaxKind = 36;

pub const TOKEN_LESS_OR_EQ: SyntaxKind = 37;

pub const TOKEN_MORE: SyntaxKind = 38;

pub const TOKEN_MORE_OR_EQ: SyntaxKind = 39;

pub const TOKEN_NOT_EQUAL: SyntaxKind = 40;

pub const TOKEN_OR: SyntaxKind = 41;

pub const TOKEN_DYNAMIC_END: SyntaxKind = 42;

pub const TOKEN_DYNAMIC_START: SyntaxKind = 43;

pub const TOKEN_FLOAT: SyntaxKind = 44;

pub const TOKEN_IDENT: SyntaxKind = 45;

pub const TOKEN_INTEGER: SyntaxKind = 46;

pub const TOKEN_INTERPOL_END: SyntaxKind = 47;

pub const TOKEN_INTERPOL_START: SyntaxKind = 48;

pub const TOKEN_PATH: SyntaxKind = 49;

pub const TOKEN_URI: SyntaxKind = 50;

pub const TOKEN_STRING_CONTENT: SyntaxKind = 51;

pub const TOKEN_STRING_END: SyntaxKind = 52;

pub const TOKEN_STRING_START: SyntaxKind = 53;

pub const NODE_APPLY: SyntaxKind = 54;

pub const NODE_ASSERT: SyntaxKind = 55;

pub const NODE_KEY: SyntaxKind = 56;

pub const NODE_DYNAMIC: SyntaxKind = 57;

pub const NODE_ERROR: SyntaxKind = 58;

pub const NODE_IDENT: SyntaxKind = 59;

pub const NODE_IF_ELSE: SyntaxKind = 60;

pub const NODE_SELECT: SyntaxKind = 61;

pub const NODE_INHERIT: SyntaxKind = 62;

pub const NODE_INHERIT_FROM: SyntaxKind = 63;

pub const NODE_STRING: SyntaxKind = 64;

pub const NODE_STRING_INTERPOL: SyntaxKind = 65;

pub const NODE_LAMBDA: SyntaxKind = 66;

pub const NODE_LEGACY_LET: SyntaxKind = 67;

pub const NODE_LET_IN: SyntaxKind = 68;

pub const NODE_LIST: SyntaxKind = 69;

pub const NODE_BIN_OP: SyntaxKind = 70;

pub const NODE_OR_DEFAULT: SyntaxKind = 71;

pub const NODE_PAREN: SyntaxKind = 72;

pub const NODE_PATTERN: SyntaxKind = 73;

pub const NODE_PAT_BIND: SyntaxKind = 74;

pub const NODE_PAT_ENTRY: SyntaxKind = 75;

pub const NODE_ROOT: SyntaxKind = 76;

pub const NODE_ATTR_SET: SyntaxKind = 77;

pub const NODE_KEY_VALUE: SyntaxKind = 78;

pub const NODE_UNARY_OP: SyntaxKind = 79;

pub const NODE_LITERAL: SyntaxKind = 80;

pub const NODE_WITH: SyntaxKind = 81;

pub const NODE_PATH_WITH_INTERPOL: SyntaxKind = 82;

} // verus!
