//! Tokens and rule kinds of the mail-filtering rule language.

use vstd::prelude::*;

verus! {

#[derive(PartialEq, Eq, Structural, Clone, Copy)]
pub enum Logical {
    And,
    Or,
    Not,
}

#[derive(PartialEq, Eq, Structural, Clone, Copy)]
pub enum Comparator {
    Gt,
    Lt,
    Eq,
    Ge,
    Le,
}

#[derive(PartialEq, Eq, Structural, Clone, Copy)]
pub enum Operation {
    Add,
    Multiply,
    Divide,
    And,
    Or,
    Not,
}

pub enum Token {
    Tag(String),
    Number(u32),
    Logical(Logical),
    Comparator(Comparator),
    Operation(Operation),
    OpenParen,
    CloseParen,
    BeginExpression(bool),
    EndExpression(bool),
}

#[derive(PartialEq, Eq, Structural, Clone, Copy)]
pub enum HeaderMatches {
    Matches,
    NotMatches,
    Exists,
}

pub enum Header {
    All,
    MessageId,
    AllExternal,
    EnvelopeFrom,
    ToCc,
    Name(String),
}

#[derive(PartialEq, Eq, Structural, Clone, Copy)]
pub enum HeaderPart {
    Name,
    Addr,
    Raw,
}

/// What a rule tests.
pub enum RuleType {
    Header {
        matches: HeaderMatches,
        header: Header,
        part: Vec<HeaderPart>,
        if_unset: Option<String>,
        pattern: String,
    },
    Body { pattern: String, raw: bool },
    Full { pattern: String },
    Uri { pattern: String },
    Eval { function: String, params: Vec<String> },
    Meta { expr: String },
    Empty,
}

impl RuleType {
    /// The pattern of a rule kind that matches text against one.
    pub open spec fn spec_pattern(&self) -> Option<String> {
        match self {
            RuleType::Header { pattern, .. } => Some(*pattern),
            RuleType::Body { pattern, .. } => Some(*pattern),
            RuleType::Full { pattern } => Some(*pattern),
            RuleType::Uri { pattern } => Some(*pattern),
            _ => None,
        }
    }

    pub fn pattern(&mut self) -> (r: Option<&mut String>)
        ensures
            r is Some <==> old(self).spec_pattern() is Some,
            r matches Some(p) ==> *p == old(self).spec_pattern().unwrap(),
            r is None ==> *final(self) == *old(self),
            r matches Some(p) ==> final(self).spec_pattern() == Some(*final(p)),
    {
        match self {
            RuleType::Header { pattern, .. } => Some(pattern),
            RuleType::Body { pattern, .. } => Some(pattern),
            RuleType::Full { pattern } => Some(pattern),
            RuleType::Uri { pattern } => Some(pattern),
            _ => None,
        }
    }
}

} // verus!
