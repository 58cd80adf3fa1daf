//! The binding classifier: decides whether a binding's content elides it,
//! names a constant, or is an expression, and enforces the quoting and
//! direct-reference rules against namespace targets.

use vstd::prelude::*;
use vstd::string::StrSliceExecFns;
use vstd::string::StringExecFns;
use crate::ast::{
    ErrorCode, NamespaceItem, NamespaceNodeElement, BindingItem, Offsets, Problem, problem_msg,
};
use crate::lexer::{spec_trimmed, tracked_trim};
use crate::number::spec_numeric_value;
use crate::patterns::{
    check_binary_literal, check_hex_literal, check_integer_literal, check_sci_literal,
};

verus! {

/// What a binding's content turned out to be.
#[derive(Debug, PartialEq)]
pub enum ClassifiedBinding {
    /// Elided, with the message that follows the elision mark.
    Elided(String),
    /// A constant: the trimmed canonical numeric literal.
    Constant(String),
    /// An expression, to be parsed as a document of its own.
    Expression,
}

/// Classifies a binding's raw content: an elision mark makes it elided, a
/// numeric literal a constant, anything else an expression.
pub fn classify_binding_content(content: &str) -> (r: ClassifiedBinding)
    requires
        content.is_ascii(),
    ensures
        ({
            let t = spec_trimmed(content@);
            &&& (r is Elided <==> t.len() > 0 && t[0] == '!')
            &&& (r matches ClassifiedBinding::Elided(m) ==> m@ == spec_trimmed(
                t.skip(1),
            ))
            &&& (r is Constant <==> !(t.len() > 0 && t[0] == '!') && spec_numeric_value(
                t,
            ) is Some)
            &&& (r matches ClassifiedBinding::Constant(v) ==> v@ == t)
            &&& (r is Expression <==> !(t.len() > 0 && t[0] == '!') && spec_numeric_value(
                t,
            ) is None)
        }),
{
    let trimmed = tracked_trim(content).0;
    let tlen = trimmed.unicode_len();
    if tlen > 0 && trimmed.get_char(0) == '!' {
        let rest = trimmed.substring_ascii(1, tlen);
        proof {
            assert(rest@ =~= spec_trimmed(content@).skip(1));
        }
        let msg = tracked_trim(rest).0;
        return ClassifiedBinding::Elided(String::from_str(msg));
    }
    let numeric = check_binary_literal(trimmed) || check_sci_literal(trimmed).is_some()
        || check_integer_literal(trimmed) || check_hex_literal(trimmed);
    if numeric {
        ClassifiedBinding::Constant(String::from_str(trimmed))
    } else {
        ClassifiedBinding::Expression
    }
}

/// Checks a quote against its target: quoting embeds a binding's identity,
/// so the target must be a binding and must not be a constant.
pub fn validate_quote(item: &NamespaceItem, name: &str, position: Offsets) -> (r: Option<Problem>)
    ensures
        ({
            let is_binding = *item is Node && item->Node_0.element is Binding;
            match r {
                None => is_binding && !(item->Node_0.element->Binding_0.item is Constant),
                Some(p) => {
                    &&& p.position == position
                    &&& (is_binding && item->Node_0.element->Binding_0.item is Constant ==> p.code
                        == ErrorCode::InvalidQuote && p.msg@ == problem_msg(
                        ErrorCode::InvalidQuote,
                        name@,
                    ))
                    &&& (!is_binding ==> p.code == ErrorCode::UndefinedQuote && p.msg@
                        == problem_msg(ErrorCode::UndefinedQuote, name@))
                    &&& !(is_binding && !(item->Node_0.element->Binding_0.item is Constant))
                },
            }
        }),
{
    match item {
        NamespaceItem::Node(n) => match &n.element {
            NamespaceNodeElement::Binding(b) => match &b.item {
                BindingItem::Constant(_) => {
                    let mut items: Vec<&str> = Vec::new();
                    items.push(name);
                    Some(ErrorCode::InvalidQuote.to_problem(items, position))
                },
                _ => None,
            },
            NamespaceNodeElement::Dispair(_) => {
                let mut items: Vec<&str> = Vec::new();
                items.push(name);
                Some(ErrorCode::UndefinedQuote.to_problem(items, position))
            },
        },
        NamespaceItem::Namespace(_) => {
            let mut items: Vec<&str> = Vec::new();
            items.push(name);
            Some(ErrorCode::UndefinedQuote.to_problem(items, position))
        },
    }
}

/// Checks a direct reference against its target: only constant bindings
/// can be referenced by value.
pub fn validate_reference(item: &NamespaceItem, name: &str, position: Offsets) -> (r: Option<
    Problem,
>)
    ensures
        ({
            let is_binding = *item is Node && item->Node_0.element is Binding;
            match r {
                None => is_binding && item->Node_0.element->Binding_0.item is Constant,
                Some(p) => {
                    &&& p.position == position
                    &&& (is_binding && !(item->Node_0.element->Binding_0.item is Constant)
                        ==> p.code == ErrorCode::InvalidReference && p.msg@ == problem_msg(
                        ErrorCode::InvalidReference,
                        name@,
                    ))
                    &&& (!is_binding ==> p.code == ErrorCode::UndefinedIdentifier)
                    &&& !(is_binding && item->Node_0.element->Binding_0.item is Constant)
                },
            }
        }),
{
    match item {
        NamespaceItem::Node(n) => match &n.element {
            NamespaceNodeElement::Binding(b) => match &b.item {
                BindingItem::Constant(_) => None,
                _ => {
                    let mut items: Vec<&str> = Vec::new();
                    items.push(name);
                    Some(ErrorCode::InvalidReference.to_problem(items, position))
                },
            },
            NamespaceNodeElement::Dispair(_) => Some(
                ErrorCode::UndefinedIdentifier.to_problem(Vec::new(), position),
            ),
        },
        NamespaceItem::Namespace(_) => Some(
            ErrorCode::UndefinedIdentifier.to_problem(Vec::new(), position),
        ),
    }
}

} // verus!
