//! Data model of the parse tree: offset ranges, parsed items, diagnostics,
//! expression nodes, bindings and namespaces.

use vstd::prelude::*;
use vstd::string::StringExecFns;

verus! {

/// Start and end offsets of an entity in a text, inclusive at the start and
/// exclusive at the end.
#[derive(Debug, Clone, Copy, PartialEq, Eq, Structural)]
pub struct Offsets {
    pub start: usize,
    pub end: usize,
}

/// A token or span extracted by the lexical primitives, immutable once
/// produced.
#[derive(Debug, Clone, PartialEq)]
pub struct ParsedItem(pub String, pub Offsets);

/// Diagnostic codes of the problems a document can accumulate.
#[derive(Debug, Clone, PartialEq, Eq, Copy, Structural)]
pub enum ErrorCode {
    IllegalChar,
    RuntimeError,
    CircularDependency,
    CircularDependencyQuote,
    DeepImport,
    DeepNamespace,
    CorruptMeta,
    ElidedBinding,
    SingletonWords,
    MultipleWords,
    SingleWordModify,
    InconsumableMeta,
    NamespaceOccupied,
    UnresolvableDependencies,
    UndefinedWord,
    UndefinedAuthoringMeta,
    UndefinedMeta,
    UndefinedQuote,
    UndefinedOpcode,
    UndefinedIdentifier,
    UndefinedDeployer,
    UndefinedNamespaceMember,
    InvalidWordPattern,
    InvalidExpression,
    InvalidNestedNode,
    InvalidSelfReference,
    InvalidHash,
    InvalidImport,
    InvalidEmptyBinding,
    InvalidBindingIdentifier,
    InvalidQuote,
    InvalidOperandArg,
    InvalidReference,
    InvalidRainDocument,
    InvalidEmptyLine,
    InvalidNamespaceReference,
    UnexpectedToken,
    UnexpectedClosingParen,
    UnexpectedNamespacePath,
    UnexpectedRebinding,
    UnexpectedClosingAngleParen,
    UnexpectedEndOfComment,
    UnexpectedComment,
    UnexpectedPragma,
    ExpectedOpcode,
    ExpectedSpace,
    ExpectedElisionOrRebinding,
    ExpectedClosingParen,
    ExpectedOpeningParen,
    ExpectedClosingAngleBracket,
    ExpectedName,
    ExpectedSemi,
    ExpectedHexLiteral,
    ExpectedOperandArgs,
    ExpectedRename,
    MismatchRHS,
    MismatchLHS,
    MismatchOperandArgs,
    OutOfRangeInputs,
    OutOfRangeOperandArgs,
    OutOfRangeValue,
    DuplicateAlias,
    DuplicateIdentifier,
    DuplicateImportStatement,
    DuplicateImport,
}

/// The numeric code a diagnostic carries at the editor boundary.
pub open spec fn error_code_value(c: ErrorCode) -> int {
    match c {
        ErrorCode::IllegalChar => 0,
        ErrorCode::RuntimeError => 1,
        ErrorCode::CircularDependency => 2,
        ErrorCode::CircularDependencyQuote => 3,
        ErrorCode::DeepImport => 4,
        ErrorCode::DeepNamespace => 5,
        ErrorCode::CorruptMeta => 6,
        ErrorCode::ElidedBinding => 7,
        ErrorCode::SingletonWords => 8,
        ErrorCode::MultipleWords => 9,
        ErrorCode::SingleWordModify => 10,
        ErrorCode::InconsumableMeta => 11,
        ErrorCode::NamespaceOccupied => 12,
        ErrorCode::UnresolvableDependencies => 13,
        ErrorCode::UndefinedWord => 0x101,
        ErrorCode::UndefinedAuthoringMeta => 0x102,
        ErrorCode::UndefinedMeta => 0x103,
        ErrorCode::UndefinedQuote => 0x104,
        ErrorCode::UndefinedOpcode => 0x105,
        ErrorCode::UndefinedIdentifier => 0x106,
        ErrorCode::UndefinedDeployer => 0x107,
        ErrorCode::UndefinedNamespaceMember => 0x108,
        ErrorCode::InvalidWordPattern => 0x201,
        ErrorCode::InvalidExpression => 0x202,
        ErrorCode::InvalidNestedNode => 0x203,
        ErrorCode::InvalidSelfReference => 0x204,
        ErrorCode::InvalidHash => 0x205,
        ErrorCode::InvalidImport => 0x208,
        ErrorCode::InvalidEmptyBinding => 0x209,
        ErrorCode::InvalidBindingIdentifier => 0x210,
        ErrorCode::InvalidQuote => 0x211,
        ErrorCode::InvalidOperandArg => 0x212,
        ErrorCode::InvalidReference => 0x213,
        ErrorCode::InvalidRainDocument => 0x214,
        ErrorCode::InvalidEmptyLine => 0x215,
        ErrorCode::InvalidNamespaceReference => 0x216,
        ErrorCode::UnexpectedToken => 0x301,
        ErrorCode::UnexpectedClosingParen => 0x302,
        ErrorCode::UnexpectedNamespacePath => 0x303,
        ErrorCode::UnexpectedRebinding => 0x304,
        ErrorCode::UnexpectedClosingAngleParen => 0x305,
        ErrorCode::UnexpectedEndOfComment => 0x306,
        ErrorCode::UnexpectedComment => 0x307,
        ErrorCode::UnexpectedPragma => 0x308,
        ErrorCode::ExpectedOpcode => 0x401,
        ErrorCode::ExpectedSpace => 0x402,
        ErrorCode::ExpectedElisionOrRebinding => 0x403,
        ErrorCode::ExpectedClosingParen => 0x404,
        ErrorCode::ExpectedOpeningParen => 0x405,
        ErrorCode::ExpectedClosingAngleBracket => 0x406,
        ErrorCode::ExpectedName => 0x407,
        ErrorCode::ExpectedSemi => 0x408,
        ErrorCode::ExpectedHexLiteral => 0x409,
        ErrorCode::ExpectedOperandArgs => 0x410,
        ErrorCode::ExpectedRename => 0x411,
        ErrorCode::MismatchRHS => 0x501,
        ErrorCode::MismatchLHS => 0x502,
        ErrorCode::MismatchOperandArgs => 0x503,
        ErrorCode::OutOfRangeInputs => 0x601,
        ErrorCode::OutOfRangeOperandArgs => 0x602,
        ErrorCode::OutOfRangeValue => 0x603,
        ErrorCode::DuplicateAlias => 0x701,
        ErrorCode::DuplicateIdentifier => 0x702,
        ErrorCode::DuplicateImportStatement => 0x703,
        ErrorCode::DuplicateImport => 0x704,
    }
}

/// The code a numeric value names, the inverse of `error_code_value`.
pub open spec fn spec_code_from_i32(v: int) -> Option<ErrorCode> {
    if false {
        None
    } else if v == 0 {
        Some(ErrorCode::IllegalChar)
    } else if v == 1 {
        Some(ErrorCode::RuntimeError)
    } else if v == 2 {
        Some(ErrorCode::CircularDependency)
    } else if v == 3 {
        Some(ErrorCode::CircularDependencyQuote)
    } else if v == 4 {
        Some(ErrorCode::DeepImport)
    } else if v == 5 {
        Some(ErrorCode::DeepNamespace)
    } else if v == 6 {
        Some(ErrorCode::CorruptMeta)
    } else if v == 7 {
        Some(ErrorCode::ElidedBinding)
    } else if v == 8 {
        Some(ErrorCode::SingletonWords)
    } else if v == 9 {
        Some(ErrorCode::MultipleWords)
    } else if v == 10 {
        Some(ErrorCode::SingleWordModify)
    } else if v == 11 {
        Some(ErrorCode::InconsumableMeta)
    } else if v == 12 {
        Some(ErrorCode::NamespaceOccupied)
    } else if v == 13 {
        Some(ErrorCode::UnresolvableDependencies)
    } else if v == 0x101 {
        Some(ErrorCode::UndefinedWord)
    } else if v == 0x102 {
        Some(ErrorCode::UndefinedAuthoringMeta)
    } else if v == 0x103 {
        Some(ErrorCode::UndefinedMeta)
    } else if v == 0x104 {
        Some(ErrorCode::UndefinedQuote)
    } else if v == 0x105 {
        Some(ErrorCode::UndefinedOpcode)
    } else if v == 0x106 {
        Some(ErrorCode::UndefinedIdentifier)
    } else if v == 0x107 {
        Some(ErrorCode::UndefinedDeployer)
    } else if v == 0x108 {
        Some(ErrorCode::UndefinedNamespaceMember)
    } else if v == 0x201 {
        Some(ErrorCode::InvalidWordPattern)
    } else if v == 0x202 {
        Some(ErrorCode::InvalidExpression)
    } else if v == 0x203 {
        Some(ErrorCode::InvalidNestedNode)
    } else if v == 0x204 {
        Some(ErrorCode::InvalidSelfReference)
    } else if v == 0x205 {
        Some(ErrorCode::InvalidHash)
    } else if v == 0x208 {
        Some(ErrorCode::InvalidImport)
    } else if v == 0x209 {
        Some(ErrorCode::InvalidEmptyBinding)
    } else if v == 0x210 {
        Some(ErrorCode::InvalidBindingIdentifier)
    } else if v == 0x211 {
        Some(ErrorCode::InvalidQuote)
    } else if v == 0x212 {
        Some(ErrorCode::InvalidOperandArg)
    } else if v == 0x213 {
        Some(ErrorCode::InvalidReference)
    } else if v == 0x214 {
        Some(ErrorCode::InvalidRainDocument)
    } else if v == 0x215 {
        Some(ErrorCode::InvalidEmptyLine)
    } else if v == 0x216 {
        Some(ErrorCode::InvalidNamespaceReference)
    } else if v == 0x301 {
        Some(ErrorCode::UnexpectedToken)
    } else if v == 0x302 {
        Some(ErrorCode::UnexpectedClosingParen)
    } else if v == 0x303 {
        Some(ErrorCode::UnexpectedNamespacePath)
    } else if v == 0x304 {
        Some(ErrorCode::UnexpectedRebinding)
    } else if v == 0x305 {
        Some(ErrorCode::UnexpectedClosingAngleParen)
    } else if v == 0x306 {
        Some(ErrorCode::UnexpectedEndOfComment)
    } else if v == 0x307 {
        Some(ErrorCode::UnexpectedComment)
    } else if v == 0x308 {
        Some(ErrorCode::UnexpectedPragma)
    } else if v == 0x401 {
        Some(ErrorCode::ExpectedOpcode)
    } else if v == 0x402 {
        Some(ErrorCode::ExpectedSpace)
    } else if v == 0x403 {
        Some(ErrorCode::ExpectedElisionOrRebinding)
    } else if v == 0x404 {
        Some(ErrorCode::ExpectedClosingParen)
    } else if v == 0x405 {
        Some(ErrorCode::ExpectedOpeningParen)
    } else if v == 0x406 {
        Some(ErrorCode::ExpectedClosingAngleBracket)
    } else if v == 0x407 {
        Some(ErrorCode::ExpectedName)
    } else if v == 0x408 {
        Some(ErrorCode::ExpectedSemi)
    } else if v == 0x409 {
        Some(ErrorCode::ExpectedHexLiteral)
    } else if v == 0x410 {
        Some(ErrorCode::ExpectedOperandArgs)
    } else if v == 0x411 {
        Some(ErrorCode::ExpectedRename)
    } else if v == 0x501 {
        Some(ErrorCode::MismatchRHS)
    } else if v == 0x502 {
        Some(ErrorCode::MismatchLHS)
    } else if v == 0x503 {
        Some(ErrorCode::MismatchOperandArgs)
    } else if v == 0x601 {
        Some(ErrorCode::OutOfRangeInputs)
    } else if v == 0x602 {
        Some(ErrorCode::OutOfRangeOperandArgs)
    } else if v == 0x603 {
        Some(ErrorCode::OutOfRangeValue)
    } else if v == 0x701 {
        Some(ErrorCode::DuplicateAlias)
    } else if v == 0x702 {
        Some(ErrorCode::DuplicateIdentifier)
    } else if v == 0x703 {
        Some(ErrorCode::DuplicateImportStatement)
    } else if v == 0x704 {
        Some(ErrorCode::DuplicateImport)
    } else {
        None
    }
}

/// Numeric codes round-trip: every code is named by its own value.
pub proof fn lemma_error_code_round_trip(c: ErrorCode)
    ensures
        spec_code_from_i32(error_code_value(c)) == Some(c),
{
}

/// Whether a code's message template embeds the caller's first item.
pub open spec fn code_needs_item(c: ErrorCode) -> bool {
    match c {
        ErrorCode::IllegalChar => true,
        ErrorCode::RuntimeError => true,
        ErrorCode::ElidedBinding => true,
        ErrorCode::UndefinedWord => true,
        ErrorCode::UndefinedQuote => true,
        ErrorCode::UndefinedOpcode => true,
        ErrorCode::UndefinedNamespaceMember => true,
        ErrorCode::InvalidWordPattern => true,
        ErrorCode::InvalidQuote => true,
        ErrorCode::InvalidOperandArg => true,
        ErrorCode::InvalidReference => true,
        ErrorCode::InvalidNamespaceReference => true,
        ErrorCode::DuplicateAlias => true,
        _ => false,
    }
}

/// The fixed message template of each code, with the caller's first item
/// spliced in where the template names one.
pub open spec fn problem_msg(c: ErrorCode, item: Seq<char>) -> Seq<char> {
    match c {
        ErrorCode::IllegalChar => "illegal character: "@ + item,
        ErrorCode::RuntimeError => item,
        ErrorCode::CircularDependencyQuote => "quoted binding has circular dependency"@,
        ErrorCode::DeepNamespace => "namespace path too depp"@,
        ErrorCode::ElidedBinding => item,
        ErrorCode::UndefinedWord => "undefined word: "@ + item,
        ErrorCode::UndefinedQuote => "undefined quote: "@ + item,
        ErrorCode::UndefinedOpcode => "unknown opcode: "@ + item,
        ErrorCode::UndefinedNamespaceMember => "namespace has no member "@ + item,
        ErrorCode::InvalidWordPattern => "invalid word pattern: "@ + item,
        ErrorCode::InvalidExpression => "invalid expression line"@,
        ErrorCode::InvalidEmptyBinding => "invalid empty expression"@,
        ErrorCode::InvalidEmptyLine => "invalid empty expression line"@,
        ErrorCode::InvalidQuote => "invalid quote: "@ + item + ", cannot quote constants"@,
        ErrorCode::InvalidOperandArg => "invalid argument pattern: "@ + item,
        ErrorCode::InvalidReference => "invalid reference to binding: "@ + item
            + ", only constant bindings can be referenced"@,
        ErrorCode::InvalidNamespaceReference => "expected a node, "@ + item + " is a namespace"@,
        ErrorCode::UnexpectedClosingParen => "unexpected \")\""@,
        ErrorCode::UnexpectedNamespacePath => "unexpected path, must end with a node"@,
        ErrorCode::UnexpectedClosingAngleParen => "unexpected \">\""@,
        ErrorCode::UnexpectedEndOfComment => "unexpected end of comment"@,
        ErrorCode::UnexpectedComment => "unexpected comment"@,
        ErrorCode::UnexpectedPragma => "unexpected pragma, must be at top"@,
        ErrorCode::ExpectedOpcode => "parenthesis represent inputs of an opcode, but no opcode was found for this parenthesis"@,
        ErrorCode::ExpectedClosingParen => "expected \")\""@,
        ErrorCode::ExpectedOpeningParen => "expected \"(\""@,
        ErrorCode::ExpectedClosingAngleBracket => "expected \">\""@,
        ErrorCode::ExpectedSemi => "expected to end with semi"@,
        ErrorCode::ExpectedHexLiteral => "expected to be followed by a hex literal"@,
        ErrorCode::OutOfRangeValue => "value out of range"@,
        ErrorCode::DuplicateAlias => "duplicate alias: "@ + item,
        _ => Seq::empty(),
    }
}

/// A diagnostic: a code, its rendered message, and the offsets of the
/// offending span.
#[derive(Debug, Clone, PartialEq)]
pub struct Problem {
    pub msg: String,
    pub position: Offsets,
    pub code: ErrorCode,
}

impl ErrorCode {
    /// The numeric code exchanged at the editor boundary.
    pub fn to_i32(&self) -> (r: i32)
        ensures
            r as int == error_code_value(*self),
    {
        match self {
            ErrorCode::IllegalChar => 0,
            ErrorCode::RuntimeError => 1,
            ErrorCode::CircularDependency => 2,
            ErrorCode::CircularDependencyQuote => 3,
            ErrorCode::DeepImport => 4,
            ErrorCode::DeepNamespace => 5,
            ErrorCode::CorruptMeta => 6,
            ErrorCode::ElidedBinding => 7,
            ErrorCode::SingletonWords => 8,
            ErrorCode::MultipleWords => 9,
            ErrorCode::SingleWordModify => 10,
            ErrorCode::InconsumableMeta => 11,
            ErrorCode::NamespaceOccupied => 12,
            ErrorCode::UnresolvableDependencies => 13,
            ErrorCode::UndefinedWord => 0x101,
            ErrorCode::UndefinedAuthoringMeta => 0x102,
            ErrorCode::UndefinedMeta => 0x103,
            ErrorCode::UndefinedQuote => 0x104,
            ErrorCode::UndefinedOpcode => 0x105,
            ErrorCode::UndefinedIdentifier => 0x106,
            ErrorCode::UndefinedDeployer => 0x107,
            ErrorCode::UndefinedNamespaceMember => 0x108,
            ErrorCode::InvalidWordPattern => 0x201,
            ErrorCode::InvalidExpression => 0x202,
            ErrorCode::InvalidNestedNode => 0x203,
            ErrorCode::InvalidSelfReference => 0x204,
            ErrorCode::InvalidHash => 0x205,
            ErrorCode::InvalidImport => 0x208,
            ErrorCode::InvalidEmptyBinding => 0x209,
            ErrorCode::InvalidBindingIdentifier => 0x210,
            ErrorCode::InvalidQuote => 0x211,
            ErrorCode::InvalidOperandArg => 0x212,
            ErrorCode::InvalidReference => 0x213,
            ErrorCode::InvalidRainDocument => 0x214,
            ErrorCode::InvalidEmptyLine => 0x215,
            ErrorCode::InvalidNamespaceReference => 0x216,
            ErrorCode::UnexpectedToken => 0x301,
            ErrorCode::UnexpectedClosingParen => 0x302,
            ErrorCode::UnexpectedNamespacePath => 0x303,
            ErrorCode::UnexpectedRebinding => 0x304,
            ErrorCode::UnexpectedClosingAngleParen => 0x305,
            ErrorCode::UnexpectedEndOfComment => 0x306,
            ErrorCode::UnexpectedComment => 0x307,
            ErrorCode::UnexpectedPragma => 0x308,
            ErrorCode::ExpectedOpcode => 0x401,
            ErrorCode::ExpectedSpace => 0x402,
            ErrorCode::ExpectedElisionOrRebinding => 0x403,
            ErrorCode::ExpectedClosingParen => 0x404,
            ErrorCode::ExpectedOpeningParen => 0x405,
            ErrorCode::ExpectedClosingAngleBracket => 0x406,
            ErrorCode::ExpectedName => 0x407,
            ErrorCode::ExpectedSemi => 0x408,
            ErrorCode::ExpectedHexLiteral => 0x409,
            ErrorCode::ExpectedOperandArgs => 0x410,
            ErrorCode::ExpectedRename => 0x411,
            ErrorCode::MismatchRHS => 0x501,
            ErrorCode::MismatchLHS => 0x502,
            ErrorCode::MismatchOperandArgs => 0x503,
            ErrorCode::OutOfRangeInputs => 0x601,
            ErrorCode::OutOfRangeOperandArgs => 0x602,
            ErrorCode::OutOfRangeValue => 0x603,
            ErrorCode::DuplicateAlias => 0x701,
            ErrorCode::DuplicateIdentifier => 0x702,
            ErrorCode::DuplicateImportStatement => 0x703,
            ErrorCode::DuplicateImport => 0x704,
        }
    }


    /// The code a numeric value names, when any does.
    pub fn from_i32(value: i32) -> (r: Option<ErrorCode>)
        ensures
            r == spec_code_from_i32(value as int),
            r matches Some(c) ==> error_code_value(c) == value,
    {
        if false {
            None
        } else if value == 0 {
            Some(ErrorCode::IllegalChar)
        } else if value == 1 {
            Some(ErrorCode::RuntimeError)
        } else if value == 2 {
            Some(ErrorCode::CircularDependency)
        } else if value == 3 {
            Some(ErrorCode::CircularDependencyQuote)
        } else if value == 4 {
            Some(ErrorCode::DeepImport)
        } else if value == 5 {
            Some(ErrorCode::DeepNamespace)
        } else if value == 6 {
            Some(ErrorCode::CorruptMeta)
        } else if value == 7 {
            Some(ErrorCode::ElidedBinding)
        } else if value == 8 {
            Some(ErrorCode::SingletonWords)
        } else if value == 9 {
            Some(ErrorCode::MultipleWords)
        } else if value == 10 {
            Some(ErrorCode::SingleWordModify)
        } else if value == 11 {
            Some(ErrorCode::InconsumableMeta)
        } else if value == 12 {
            Some(ErrorCode::NamespaceOccupied)
        } else if value == 13 {
            Some(ErrorCode::UnresolvableDependencies)
        } else if value == 0x101 {
            Some(ErrorCode::UndefinedWord)
        } else if value == 0x102 {
            Some(ErrorCode::UndefinedAuthoringMeta)
        } else if value == 0x103 {
            Some(ErrorCode::UndefinedMeta)
        } else if value == 0x104 {
            Some(ErrorCode::UndefinedQuote)
        } else if value == 0x105 {
            Some(ErrorCode::UndefinedOpcode)
        } else if value == 0x106 {
            Some(ErrorCode::UndefinedIdentifier)
        } else if value == 0x107 {
            Some(ErrorCode::UndefinedDeployer)
        } else if value == 0x108 {
            Some(ErrorCode::UndefinedNamespaceMember)
        } else if value == 0x201 {
            Some(ErrorCode::InvalidWordPattern)
        } else if value == 0x202 {
            Some(ErrorCode::InvalidExpression)
        } else if value == 0x203 {
            Some(ErrorCode::InvalidNestedNode)
        } else if value == 0x204 {
            Some(ErrorCode::InvalidSelfReference)
        } else if value == 0x205 {
            Some(ErrorCode::InvalidHash)
        } else if value == 0x208 {
            Some(ErrorCode::InvalidImport)
        } else if value == 0x209 {
            Some(ErrorCode::InvalidEmptyBinding)
        } else if value == 0x210 {
            Some(ErrorCode::InvalidBindingIdentifier)
        } else if value == 0x211 {
            Some(ErrorCode::InvalidQuote)
        } else if value == 0x212 {
            Some(ErrorCode::InvalidOperandArg)
        } else if value == 0x213 {
            Some(ErrorCode::InvalidReference)
        } else if value == 0x214 {
            Some(ErrorCode::InvalidRainDocument)
        } else if value == 0x215 {
            Some(ErrorCode::InvalidEmptyLine)
        } else if value == 0x216 {
            Some(ErrorCode::InvalidNamespaceReference)
        } else if value == 0x301 {
            Some(ErrorCode::UnexpectedToken)
        } else if value == 0x302 {
            Some(ErrorCode::UnexpectedClosingParen)
        } else if value == 0x303 {
            Some(ErrorCode::UnexpectedNamespacePath)
        } else if value == 0x304 {
            Some(ErrorCode::UnexpectedRebinding)
        } else if value == 0x305 {
            Some(ErrorCode::UnexpectedClosingAngleParen)
        } else if value == 0x306 {
            Some(ErrorCode::UnexpectedEndOfComment)
        } else if value == 0x307 {
            Some(ErrorCode::UnexpectedComment)
        } else if value == 0x308 {
            Some(ErrorCode::UnexpectedPragma)
        } else if value == 0x401 {
            Some(ErrorCode::ExpectedOpcode)
        } else if value == 0x402 {
            Some(ErrorCode::ExpectedSpace)
        } else if value == 0x403 {
            Some(ErrorCode::ExpectedElisionOrRebinding)
        } else if value == 0x404 {
            Some(ErrorCode::ExpectedClosingParen)
        } else if value == 0x405 {
            Some(ErrorCode::ExpectedOpeningParen)
        } else if value == 0x406 {
            Some(ErrorCode::ExpectedClosingAngleBracket)
        } else if value == 0x407 {
            Some(ErrorCode::ExpectedName)
        } else if value == 0x408 {
            Some(ErrorCode::ExpectedSemi)
        } else if value == 0x409 {
            Some(ErrorCode::ExpectedHexLiteral)
        } else if value == 0x410 {
            Some(ErrorCode::ExpectedOperandArgs)
        } else if value == 0x411 {
            Some(ErrorCode::ExpectedRename)
        } else if value == 0x501 {
            Some(ErrorCode::MismatchRHS)
        } else if value == 0x502 {
            Some(ErrorCode::MismatchLHS)
        } else if value == 0x503 {
            Some(ErrorCode::MismatchOperandArgs)
        } else if value == 0x601 {
            Some(ErrorCode::OutOfRangeInputs)
        } else if value == 0x602 {
            Some(ErrorCode::OutOfRangeOperandArgs)
        } else if value == 0x603 {
            Some(ErrorCode::OutOfRangeValue)
        } else if value == 0x701 {
            Some(ErrorCode::DuplicateAlias)
        } else if value == 0x702 {
            Some(ErrorCode::DuplicateIdentifier)
        } else if value == 0x703 {
            Some(ErrorCode::DuplicateImportStatement)
        } else if value == 0x704 {
            Some(ErrorCode::DuplicateImport)
        } else {
            None
        }
    }

    /// Renders this code into a `Problem` at the given position, splicing
    /// the first message item into the code's template where it names one.
    pub fn to_problem(&self, msg_items: Vec<&str>, position: Offsets) -> (r: Problem)
        requires
            code_needs_item(*self) ==> msg_items@.len() >= 1,
        ensures
            r.code == *self,
            r.position == position,
            r.msg@ == problem_msg(
                *self,
                if msg_items@.len() >= 1 {
                    msg_items@[0]@
                } else {
                    Seq::<char>::empty()
                },
            ),
    {
        let item: &str = if msg_items.len() >= 1 {
            msg_items[0]
        } else {
            ""
        };
        proof {
            reveal_strlit("");
            assert(""@ =~= Seq::<char>::empty());
        }
        let msg: String = match self {
            ErrorCode::IllegalChar => String::from_str("illegal character: ").concat(item),
            ErrorCode::RuntimeError => String::from_str(item),
            ErrorCode::CircularDependencyQuote => String::from_str(
                "quoted binding has circular dependency",
            ),
            ErrorCode::DeepNamespace => String::from_str("namespace path too depp"),
            ErrorCode::ElidedBinding => String::from_str(item),
            ErrorCode::UndefinedWord => String::from_str("undefined word: ").concat(item),
            ErrorCode::UndefinedQuote => String::from_str("undefined quote: ").concat(item),
            ErrorCode::UndefinedOpcode => String::from_str("unknown opcode: ").concat(item),
            ErrorCode::UndefinedNamespaceMember => String::from_str(
                "namespace has no member ",
            ).concat(item),
            ErrorCode::InvalidWordPattern => String::from_str("invalid word pattern: ").concat(
                item,
            ),
            ErrorCode::InvalidExpression => String::from_str("invalid expression line"),
            ErrorCode::InvalidEmptyBinding => String::from_str("invalid empty expression"),
            ErrorCode::InvalidEmptyLine => String::from_str("invalid empty expression line"),
            ErrorCode::InvalidQuote => String::from_str("invalid quote: ").concat(item).concat(
                ", cannot quote constants",
            ),
            ErrorCode::InvalidOperandArg => String::from_str("invalid argument pattern: ").concat(
                item,
            ),
            ErrorCode::InvalidReference => String::from_str(
                "invalid reference to binding: ",
            ).concat(item).concat(", only constant bindings can be referenced"),
            ErrorCode::InvalidNamespaceReference => String::from_str("expected a node, ").concat(
                item,
            ).concat(" is a namespace"),
            ErrorCode::UnexpectedClosingParen => String::from_str("unexpected \")\""),
            ErrorCode::UnexpectedNamespacePath => String::from_str(
                "unexpected path, must end with a node",
            ),
            ErrorCode::UnexpectedClosingAngleParen => String::from_str("unexpected \">\""),
            ErrorCode::UnexpectedEndOfComment => String::from_str("unexpected end of comment"),
            ErrorCode::UnexpectedComment => String::from_str("unexpected comment"),
            ErrorCode::UnexpectedPragma => String::from_str("unexpected pragma, must be at top"),
            ErrorCode::ExpectedOpcode => String::from_str(
                "parenthesis represent inputs of an opcode, but no opcode was found for this parenthesis",
            ),
            ErrorCode::ExpectedClosingParen => String::from_str("expected \")\""),
            ErrorCode::ExpectedOpeningParen => String::from_str("expected \"(\""),
            ErrorCode::ExpectedClosingAngleBracket => String::from_str("expected \">\""),
            ErrorCode::ExpectedSemi => String::from_str("expected to end with semi"),
            ErrorCode::ExpectedHexLiteral => String::from_str(
                "expected to be followed by a hex literal",
            ),
            ErrorCode::OutOfRangeValue => String::from_str("value out of range"),
            ErrorCode::DuplicateAlias => String::from_str("duplicate alias: ").concat(item),
            _ => String::new(),
        };
        Problem { msg, position, code: *self }
    }
}

/// A literal value node.
#[derive(Debug, PartialEq)]
pub struct Literal {
    pub value: String,
    pub position: Offsets,
    pub lhs_alias: Option<Vec<Alias>>,
    pub id: Option<String>,
}

/// An opcode's descriptive details.
#[derive(Debug, Clone, PartialEq)]
pub struct OpcodeDetails {
    pub name: String,
    pub description: String,
    pub position: Offsets,
}

/// One operand argument of an opcode.
#[derive(Debug, Clone, PartialEq)]
pub struct OperandArgItem {
    pub value: String,
    pub name: String,
    pub position: Offsets,
    pub description: String,
}

/// An opcode's whole operand arguments segment.
#[derive(Debug, Clone, PartialEq)]
pub struct OperandArg {
    pub position: Offsets,
    pub args: Vec<OperandArgItem>,
}

/// An opcode call node; its parameters are themselves nodes.
#[derive(Debug, PartialEq)]
pub struct Opcode {
    pub opcode: OpcodeDetails,
    pub operand: Option<u8>,
    pub output: Option<u8>,
    pub position: Offsets,
    pub parens: Offsets,
    pub parameters: Vec<Node>,
    pub lhs_alias: Option<Vec<Alias>>,
    pub operand_args: Option<OperandArg>,
}

/// An alias node.
#[derive(Debug, PartialEq)]
pub struct Alias {
    pub name: String,
    pub position: Offsets,
    pub lhs_alias: Option<Vec<Alias>>,
}

/// A parsed comment.
#[derive(Debug, Clone, PartialEq)]
pub struct Comment {
    pub comment: String,
    pub position: Offsets,
}

/// One word of the authoring metadata: an opcode name with its
/// documentation.
#[derive(Debug, Clone, PartialEq)]
pub struct AuthoringMetaItem {
    pub word: String,
    pub description: String,
}

/// The authoring metadata of an imported deployer: the opcode vocabulary
/// valid for documents that import it.
#[derive(Debug, Clone, PartialEq)]
pub struct AuthoringMeta(pub Vec<AuthoringMetaItem>);

/// An imported deployer descriptor: the content hash and raw bytes of its
/// constructor metadata and contracts, plus its optional authoring
/// metadata. Merged into a namespace like a binding but never recursively
/// parsed.
#[derive(Debug, Clone, PartialEq)]
pub struct DispairImportItem {
    pub constructor_meta_hash: Vec<u8>,
    pub constructor_meta_bytes: Vec<u8>,
    pub parser: Vec<u8>,
    pub store: Vec<u8>,
    pub interpreter: Vec<u8>,
    pub bytecode: Vec<u8>,
    pub authoring_meta: Option<AuthoringMeta>,
}

/// Rename/rebind directives attached to one import statement, with any
/// problems raised while parsing them.
#[derive(Debug, Clone, PartialEq)]
pub struct ImportConfiguration {
    pub problems: Vec<Problem>,
    pub pairs: Vec<(ParsedItem, Option<ParsedItem>)>,
}

/// An expression AST node.
#[derive(Debug, PartialEq)]
pub enum Node {
    Literal(Literal),
    Opcode(Opcode),
    Alias(Alias),
}

impl Node {
    /// The source offsets a node covers, whatever its variant.
    pub fn position(&self) -> (r: Offsets)
        ensures
            r == match self {
                Node::Literal(v) => v.position,
                Node::Opcode(op) => op.position,
                Node::Alias(a) => a.position,
            },
    {
        match self {
            Node::Literal(v) => v.position,
            Node::Opcode(op) => op.position,
            Node::Alias(a) => a.position,
        }
    }
}

/// One comma-delimited segment of an expression: its nodes and the aliases
/// declared on its left-hand side.
#[derive(Debug, PartialEq)]
pub struct RainlangLine {
    pub nodes: Vec<Node>,
    pub position: Offsets,
    pub aliases: Vec<Alias>,
}

/// One semicolon-delimited segment of an expression.
#[derive(Debug, PartialEq)]
pub struct RainlangSource {
    pub lines: Vec<RainlangLine>,
    pub position: Offsets,
}

/// A whole expression parse tree.
#[derive(Debug, PartialEq)]
pub struct RainlangAST(pub Vec<RainlangSource>);

/// The parse result of one binding's expression content: its sources and
/// the problems accumulated while parsing them; self-contained.
#[derive(Debug, PartialEq)]
pub struct RainlangDocument {
    pub text: String,
    pub ast: Vec<RainlangSource>,
    pub problems: Vec<Problem>,
}

/// An elided binding: a message explaining the elision.
#[derive(Debug, Clone, PartialEq)]
pub struct ElidedBindingItem {
    pub msg: String,
}

/// A constant binding: a single canonical numeric literal.
#[derive(Debug, PartialEq)]
pub struct ConstantBindingItem {
    pub value: String,
}

/// The payload of a binding.
#[derive(Debug, PartialEq)]
pub enum BindingItem {
    Elided(ElidedBindingItem),
    Constant(ConstantBindingItem),
    Exp(RainlangDocument),
}

/// A named binding of a document.
#[derive(Debug, PartialEq)]
pub struct Binding {
    pub name: String,
    pub name_position: Offsets,
    pub content: String,
    pub content_position: Offsets,
    pub position: Offsets,
    pub problems: Vec<Problem>,
    pub dependencies: Vec<String>,
    pub item: BindingItem,
}

/// What a namespace node holds: a binding of the document tree, or an
/// imported deployer descriptor.
#[derive(Debug, PartialEq)]
pub enum NamespaceNodeElement {
    Binding(Binding),
    Dispair(DispairImportItem),
}

/// A leaf of the namespace tree, tagged with the content hash and import
/// statement that introduced it; document-local bindings carry the empty
/// hash and index `-1`.
#[derive(Debug, PartialEq)]
pub struct NamespaceNode {
    pub hash: String,
    pub import_index: isize,
    pub element: NamespaceNodeElement,
}

impl NamespaceNode {
    pub fn is_binding(&self) -> (r: bool)
        ensures
            r == (self.element is Binding),
    {
        matches!(self.element, NamespaceNodeElement::Binding(_))
    }

    /// The binding behind a node already known to hold one.
    pub fn unwrap_binding(&self) -> (r: &Binding)
        requires
            self.element is Binding,
        ensures
            self.element == NamespaceNodeElement::Binding(*r),
    {
        match &self.element {
            NamespaceNodeElement::Binding(b) => b,
            NamespaceNodeElement::Dispair(_) => unreached(),
        }
    }

    pub fn is_dispair(&self) -> (r: bool)
        ensures
            r == (self.element is Dispair),
    {
        matches!(self.element, NamespaceNodeElement::Dispair(_))
    }

    /// The deployer descriptor behind a node already known to hold one.
    pub fn unwrap_dispair(&self) -> (r: &DispairImportItem)
        requires
            self.element is Dispair,
        ensures
            self.element == NamespaceNodeElement::Dispair(*r),
    {
        match &self.element {
            NamespaceNodeElement::Dispair(d) => d,
            NamespaceNodeElement::Binding(_) => unreached(),
        }
    }

    pub fn is_elided_binding(&self) -> (r: bool)
        ensures
            r == (self.element is Binding && self.element->Binding_0.item is Elided),
    {
        match &self.element {
            NamespaceNodeElement::Binding(b) => matches!(b.item, BindingItem::Elided(_)),
            _ => false,
        }
    }

    /// The elision message behind a node already known to hold an elided
    /// binding.
    pub fn unwrap_elided_binding(&self) -> (r: &String)
        requires
            self.element is Binding,
            self.element->Binding_0.item is Elided,
        ensures
            r@ == self.element->Binding_0.item->Elided_0.msg@,
    {
        match &self.element {
            NamespaceNodeElement::Binding(b) => match &b.item {
                BindingItem::Elided(e) => &e.msg,
                _ => unreached(),
            },
            _ => unreached(),
        }
    }

    pub fn is_constant_binding(&self) -> (r: bool)
        ensures
            r == (self.element is Binding && self.element->Binding_0.item is Constant),
    {
        match &self.element {
            NamespaceNodeElement::Binding(b) => matches!(b.item, BindingItem::Constant(_)),
            _ => false,
        }
    }

    /// The constant value behind a node already known to hold a constant
    /// binding.
    pub fn unwrap_constant_binding(&self) -> (r: &String)
        requires
            self.element is Binding,
            self.element->Binding_0.item is Constant,
        ensures
            r@ == self.element->Binding_0.item->Constant_0.value@,
    {
        match &self.element {
            NamespaceNodeElement::Binding(b) => match &b.item {
                BindingItem::Constant(c) => &c.value,
                _ => unreached(),
            },
            _ => unreached(),
        }
    }

    pub fn is_exp_binding(&self) -> (r: bool)
        ensures
            r == (self.element is Binding && self.element->Binding_0.item is Exp),
    {
        match &self.element {
            NamespaceNodeElement::Binding(b) => matches!(b.item, BindingItem::Exp(_)),
            _ => false,
        }
    }

    /// The expression document behind a node already known to hold an
    /// expression binding.
    pub fn unwrap_exp_binding(&self) -> (r: &RainlangDocument)
        requires
            self.element is Binding,
            self.element->Binding_0.item is Exp,
        ensures
            *r == self.element->Binding_0.item->Exp_0,
    {
        match &self.element {
            NamespaceNodeElement::Binding(b) => match &b.item {
                BindingItem::Exp(e) => e,
                _ => unreached(),
            },
            _ => unreached(),
        }
    }
}

/// An item of a namespace: a leaf node, or a nested namespace.
#[derive(Debug, PartialEq)]
pub enum NamespaceItem {
    Node(NamespaceNode),
    Namespace(Namespace),
}

/// A namespace: a mapping from identifiers to namespace items, kept as a
/// vector of pairs with distinct keys. A strict tree: no cycles can be
/// built.
#[derive(Debug, PartialEq)]
pub struct Namespace {
    pub entries: Vec<(String, NamespaceItem)>,
}

impl NamespaceItem {
    pub fn is_node(&self) -> (r: bool)
        ensures
            r == (*self is Node),
    {
        match self {
            NamespaceItem::Node(_) => true,
            NamespaceItem::Namespace(_) => false,
        }
    }

    /// The leaf behind an item already known to be one.
    pub fn unwrap_node(&self) -> (r: &NamespaceNode)
        requires
            *self is Node,
        ensures
            *self == NamespaceItem::Node(*r),
    {
        match self {
            NamespaceItem::Node(node) => node,
            NamespaceItem::Namespace(_) => unreached(),
        }
    }

    /// The nested namespace behind an item already known to be one.
    pub fn unwrap_namespace(&self) -> (r: &Namespace)
        requires
            *self is Namespace,
        ensures
            *self == NamespaceItem::Namespace(*r),
    {
        match self {
            NamespaceItem::Node(_) => unreached(),
            NamespaceItem::Namespace(ns) => ns,
        }
    }

    pub fn is_binding(&self) -> (r: bool)
        ensures
            r == (*self is Node && self->Node_0.element is Binding),
    {
        if let NamespaceItem::Node(n) = self {
            matches!(n.element, NamespaceNodeElement::Binding(_))
        } else {
            false
        }
    }

    /// The binding behind an item already known to hold one.
    pub fn unwrap_binding(&self) -> (r: &Binding)
        requires
            *self is Node,
            self->Node_0.element is Binding,
        ensures
            self->Node_0.element == NamespaceNodeElement::Binding(*r),
    {
        if let NamespaceItem::Node(n) = self {
            match &n.element {
                NamespaceNodeElement::Binding(b) => b,
                _ => unreached(),
            }
        } else {
            unreached()
        }
    }

    pub fn is_dispair(&self) -> (r: bool)
        ensures
            r == (*self is Node && self->Node_0.element is Dispair),
    {
        if let NamespaceItem::Node(n) = self {
            matches!(n.element, NamespaceNodeElement::Dispair(_))
        } else {
            false
        }
    }

    /// The deployer descriptor behind an item already known to hold one.
    pub fn unwrap_dispair(&self) -> (r: &DispairImportItem)
        requires
            *self is Node,
            self->Node_0.element is Dispair,
        ensures
            self->Node_0.element == NamespaceNodeElement::Dispair(*r),
    {
        if let NamespaceItem::Node(n) = self {
            match &n.element {
                NamespaceNodeElement::Dispair(d) => d,
                _ => unreached(),
            }
        } else {
            unreached()
        }
    }

    pub fn is_elided_binding(&self) -> (r: bool)
        ensures
            r == (*self is Node && self->Node_0.element is Binding
                && self->Node_0.element->Binding_0.item is Elided),
    {
        if let NamespaceItem::Node(n) = self {
            match &n.element {
                NamespaceNodeElement::Binding(b) => matches!(&b.item, BindingItem::Elided(_)),
                _ => false,
            }
        } else {
            false
        }
    }

    /// The elision message behind an item already known to hold an elided
    /// binding.
    pub fn unwrap_elided_binding(&self) -> (r: &String)
        requires
            *self is Node,
            self->Node_0.element is Binding,
            self->Node_0.element->Binding_0.item is Elided,
        ensures
            r@ == self->Node_0.element->Binding_0.item->Elided_0.msg@,
    {
        if let NamespaceItem::Node(n) = self {
            match &n.element {
                NamespaceNodeElement::Binding(b) => match &b.item {
                    BindingItem::Elided(e) => &e.msg,
                    _ => unreached(),
                },
                _ => unreached(),
            }
        } else {
            unreached()
        }
    }

    pub fn is_constant_binding(&self) -> (r: bool)
        ensures
            r == (*self is Node && self->Node_0.element is Binding
                && self->Node_0.element->Binding_0.item is Constant),
    {
        if let NamespaceItem::Node(n) = self {
            match &n.element {
                NamespaceNodeElement::Binding(b) => matches!(&b.item, BindingItem::Constant(_)),
                _ => false,
            }
        } else {
            false
        }
    }

    /// The constant value behind an item already known to hold a constant
    /// binding.
    pub fn unwrap_constant_binding(&self) -> (r: &String)
        requires
            *self is Node,
            self->Node_0.element is Binding,
            self->Node_0.element->Binding_0.item is Constant,
        ensures
            r@ == self->Node_0.element->Binding_0.item->Constant_0.value@,
    {
        if let NamespaceItem::Node(n) = self {
            match &n.element {
                NamespaceNodeElement::Binding(b) => match &b.item {
                    BindingItem::Constant(c) => &c.value,
                    _ => unreached(),
                },
                _ => unreached(),
            }
        } else {
            unreached()
        }
    }

    pub fn is_exp_binding(&self) -> (r: bool)
        ensures
            r == (*self is Node && self->Node_0.element is Binding
                && self->Node_0.element->Binding_0.item is Exp),
    {
        if let NamespaceItem::Node(n) = self {
            match &n.element {
                NamespaceNodeElement::Binding(b) => matches!(&b.item, BindingItem::Exp(_)),
                _ => false,
            }
        } else {
            false
        }
    }

    /// The expression document behind an item already known to hold an
    /// expression binding.
    pub fn unwrap_exp_binding(&self) -> (r: &RainlangDocument)
        requires
            *self is Node,
            self->Node_0.element is Binding,
            self->Node_0.element->Binding_0.item is Exp,
        ensures
            *r == self->Node_0.element->Binding_0.item->Exp_0,
    {
        if let NamespaceItem::Node(n) = self {
            match &n.element {
                NamespaceNodeElement::Binding(b) => match &b.item {
                    BindingItem::Exp(e) => e,
                    _ => unreached(),
                },
                _ => unreached(),
            }
        } else {
            unreached()
        }
    }
}

} // verus!
