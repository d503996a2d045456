//! The input boundary: a resource syntax tree as produced by an external
//! grammar parser, held here as plain values so that the extraction pass can
//! be reasoned about.
//!
//! A resource is a sequence of entries; a message entry carries an optional
//! default pattern and named attributes; patterns mix free text with placeable
//! expressions; a placeable is either a selector (scrutinee plus variant arms)
//! or a direct inline expression.

use vstd::prelude::*;

verus! {

/// The root of a parsed resource: its top-level entries in source order.
pub struct Resource {
    pub body: Vec<Entry>,
}

/// One top-level entry. Only messages contribute to the schema; the other
/// entry kinds are kept as explicit no-op variants so the traversal matches
/// exhaustively instead of silently missing a kind.
pub enum Entry {
    Message(Message),
    Term,
    Comment,
    GroupComment,
    ResourceComment,
    Junk,
}

/// A named, translatable unit: an optional default pattern, zero or more
/// named attributes and optional documentation lines.
pub struct Message {
    pub name: String,
    pub comment: Option<Vec<String>>,
    pub value: Option<Pattern>,
    pub attributes: Vec<Attribute>,
}

/// A named attribute of a message, with its own pattern.
pub struct Attribute {
    pub name: String,
    pub value: Pattern,
}

/// The text-and-placeable content of a message, attribute or variant arm.
pub struct Pattern {
    pub elements: Vec<PatternElement>,
}

/// One element of a pattern: free text or an embedded expression.
pub enum PatternElement {
    TextElement { value: String },
    Placeable { expression: Expression },
}

/// A placeable's expression: a branching selector or a direct inline
/// expression.
pub enum Expression {
    Select { selector: InlineExpression, variants: Vec<Variant> },
    Inline(InlineExpression),
}

/// One arm of a selector: a key and the arm's own sub-pattern.
pub struct Variant {
    pub key: VariantKey,
    pub value: Pattern,
}

/// A variant arm's key: an identifier, or a number literal rendered as its
/// decimal string.
pub enum VariantKey {
    Identifier { name: String },
    NumberLiteral { value: String },
}

/// A direct (non-branching) expression inside a placeable.
#[allow(inconsistent_fields)]
pub enum InlineExpression {
    StringLiteral { value: String },
    NumberLiteral { value: String },
    FunctionReference { name: String, arguments: CallArguments },
    MessageReference { name: String, attribute: Option<String> },
    TermReference { name: String, attribute: Option<String>, arguments: Option<CallArguments> },
    VariableReference { name: String },
    Placeable { expression: Box<Expression> },
}

/// The arguments of a function or term reference.
pub struct CallArguments {
    pub positional: Vec<InlineExpression>,
    pub named: Vec<NamedArgument>,
}

/// One named argument of a call.
pub struct NamedArgument {
    pub name: String,
    pub value: InlineExpression,
}

} // verus!
